use window_tracker::session::Window;
use window_tracker::settings::{Project, Settings};
use window_tracker::stitcher::{
    build_tick_window, minute_triggers, reconcile_tick, resolve_category, tick_prepare,
    tick_record,
};
use window_tracker::store::SessionStore;

fn ts(hhmmss: &str) -> String {
    format!("2023-06-05 {}.000000000 +02:00", hhmmss)
}

fn no_projects() -> Vec<Project> {
    Vec::new()
}

#[test]
fn repeated_ticks_extend_one_row() {
    let mut store = SessionStore::new();
    let projects = no_projects();
    let observed = vec![String::from("editor")];

    let live1 = reconcile_tick(&observed, &ts("10:05:00"), &ts("10:20:00"), &Vec::new(), &projects, &mut store);
    let live2 = reconcile_tick(&observed, &ts("10:06:00"), &ts("10:21:00"), &live1, &projects, &mut store);
    let live3 = reconcile_tick(&observed, &ts("10:07:00"), &ts("10:22:00"), &live2, &projects, &mut store);

    assert_eq!(store.rows.len(), 1);
    assert_eq!(store.rows[0].title, "editor");
    assert_eq!(store.rows[0].start_time, ts("10:05:00"));
    assert_eq!(store.rows[0].end_time, ts("10:22:00"));
    assert_eq!(live3.len(), 1);
    assert_eq!(live3[0].start_time, ts("10:05:00"));
}

#[test]
fn gap_and_reappearance_make_two_rows() {
    let mut store = SessionStore::new();
    let projects = no_projects();
    let observed = vec![String::from("editor")];
    let nothing: Vec<String> = Vec::new();

    let live1 = reconcile_tick(&observed, &ts("10:05:00"), &ts("10:20:00"), &Vec::new(), &projects, &mut store);
    let live2 = reconcile_tick(&nothing, &ts("10:06:00"), &ts("10:21:00"), &live1, &projects, &mut store);
    assert!(live2.is_empty());
    let live3 = reconcile_tick(&observed, &ts("10:07:00"), &ts("10:22:00"), &live2, &projects, &mut store);

    assert_eq!(store.rows.len(), 2);
    assert_eq!(store.rows[0].start_time, ts("10:05:00"));
    assert_eq!(store.rows[0].end_time, ts("10:20:00"));
    assert_eq!(store.rows[1].start_time, ts("10:07:00"));
    assert_eq!(store.rows[1].end_time, ts("10:22:00"));
    assert_eq!(live3.len(), 1);
    assert_eq!(live3[0].start_time, ts("10:07:00"));
}

#[test]
fn empty_snapshot_leaves_store_untouched() {
    let mut store = SessionStore::new();
    let nothing: Vec<String> = Vec::new();
    let live = reconcile_tick(&nothing, &ts("10:05:00"), &ts("10:20:00"), &Vec::new(), &no_projects(), &mut store);
    assert!(live.is_empty());
    assert!(store.rows.is_empty());
}

#[test]
fn duplicate_titles_in_one_snapshot_collapse() {
    let mut store = SessionStore::new();
    let observed = vec![String::from("editor"), String::from("editor")];
    let live = reconcile_tick(&observed, &ts("10:05:00"), &ts("10:20:00"), &Vec::new(), &no_projects(), &mut store);
    assert_eq!(store.rows.len(), 1);
    assert_eq!(live.len(), 1);
}

#[test]
fn category_match_is_case_insensitive() {
    let projects = vec![Project {
        project_name: String::from("mail"),
        keywords: vec![String::from("MAIL")],
        category: 3,
    }];
    assert_eq!(resolve_category("Gmail - inbox", &projects), Some(3));
    assert_eq!(resolve_category("GMAIL", &projects), Some(3));
    assert_eq!(resolve_category("terminal", &projects), None);
}

#[test]
fn first_matching_rule_wins_on_tie() {
    let projects = vec![
        Project {
            project_name: String::from("first"),
            keywords: vec![String::from("mail")],
            category: 1,
        },
        Project {
            project_name: String::from("second"),
            keywords: vec![String::from("mail")],
            category: 2,
        },
    ];
    assert_eq!(resolve_category("gmail", &projects), Some(1));
}

#[test]
fn category_is_fixed_at_first_sight_of_an_interval() {
    let mut store = SessionStore::new();
    let categorized = vec![Project {
        project_name: String::from("p"),
        keywords: vec![String::from("editor")],
        category: 5,
    }];
    let observed = vec![String::from("editor")];
    let live1 = reconcile_tick(&observed, &ts("10:05:00"), &ts("10:20:00"), &Vec::new(), &categorized, &mut store);
    // The rule set changes while the interval stays open: the stored row
    // keeps the category it was inserted with.
    let _ = reconcile_tick(&observed, &ts("10:06:00"), &ts("10:21:00"), &live1, &no_projects(), &mut store);
    assert_eq!(store.rows.len(), 1);
    assert_eq!(store.rows[0].category, Some(5));
}

#[test]
fn window_new_truncates_at_nul() {
    let w = Window::new(
        String::from("edit\0or"),
        ts("10:05:00"),
        ts("10:20:00"),
        None,
    );
    assert_eq!(w.title, "edit");
    assert_eq!(w.id, 0);
}

#[test]
fn window_new_trims_control_characters() {
    // Leading and trailing control characters go; interior ones stay.
    let w = Window::new(
        String::from("\u{7}edit\tor\u{8}\0tail"),
        ts("10:05:00"),
        ts("10:20:00"),
        None,
    );
    assert_eq!(w.title, "edit\tor");
    let all_control = Window::new(String::from("\u{1}\u{2}"), ts("10:05:00"), ts("10:20:00"), None);
    assert_eq!(all_control.title, "");
}

#[test]
fn window_clone_copies_every_field() {
    let w = Window {
        id: 7,
        title: String::from("editor"),
        start_time: ts("10:05:00"),
        end_time: ts("10:20:00"),
        category: Some(2),
    };
    let c = w.clone();
    assert_eq!(c.id, 7);
    assert_eq!(c.title, "editor");
    assert_eq!(c.start_time, ts("10:05:00"));
    assert_eq!(c.end_time, ts("10:20:00"));
    assert_eq!(c.category, Some(2));
}

#[test]
fn build_tick_window_carries_previous_start() {
    let previous = vec![Window {
        id: 0,
        title: String::from("editor"),
        start_time: ts("09:50:00"),
        end_time: ts("10:05:00"),
        category: None,
    }];
    let w = build_tick_window("editor", &ts("10:05:00"), &ts("10:20:00"), &previous, &no_projects());
    assert_eq!(w.start_time, ts("09:50:00"));
    assert_eq!(w.end_time, ts("10:20:00"));
}

#[test]
fn store_extension_updates_only_end_time() {
    let mut store = SessionStore::new();
    store.insert_or_extend(&Window {
        id: 0,
        title: String::from("editor"),
        start_time: ts("10:05:00"),
        end_time: ts("10:20:00"),
        category: Some(1),
    });
    store.insert_or_extend(&Window {
        id: 0,
        title: String::from("editor"),
        start_time: ts("10:05:00"),
        end_time: ts("10:21:00"),
        category: Some(4),
    });
    assert_eq!(store.rows.len(), 1);
    assert_eq!(store.rows[0].end_time, ts("10:21:00"));
    assert_eq!(store.rows[0].category, Some(1));
}

#[test]
fn store_query_filters_by_date_prefix() {
    let mut store = SessionStore::new();
    store.insert_or_extend(&Window {
        id: 0,
        title: String::from("editor"),
        start_time: String::from("2023-06-05 10:05:00.000000000 +02:00"),
        end_time: String::from("2023-06-05 10:20:00.000000000 +02:00"),
        category: None,
    });
    store.insert_or_extend(&Window {
        id: 0,
        title: String::from("editor"),
        start_time: String::from("2023-06-06 09:00:00.000000000 +02:00"),
        end_time: String::from("2023-06-06 09:15:00.000000000 +02:00"),
        category: None,
    });
    let day1 = store.entries_on_date("2023-06-05");
    assert_eq!(day1.len(), 1);
    assert_eq!(day1[0].start_time, "2023-06-05 10:05:00.000000000 +02:00");
    let day3 = store.entries_on_date("2023-06-07");
    assert!(day3.is_empty());
}

#[test]
fn tick_prepare_skips_duplicates_and_tick_record_keeps_only_stored() {
    let projects = no_projects();
    let mut live_next: Vec<Window> = Vec::new();

    let first = tick_prepare("editor", &ts("10:05:00"), &ts("10:20:00"), &Vec::new(), &projects, &live_next);
    let w = first.expect("a fresh title is prepared");
    assert_eq!(w.start_time, ts("10:05:00"));
    tick_record(&mut live_next, w, true);
    assert_eq!(live_next.len(), 1);

    // The same title again within the tick is a duplicate.
    let again = tick_prepare("editor", &ts("10:05:00"), &ts("10:20:00"), &Vec::new(), &projects, &live_next);
    assert!(again.is_none());

    // A session whose store call failed is left out of the live list.
    let other = tick_prepare("browser", &ts("10:05:00"), &ts("10:20:00"), &Vec::new(), &projects, &live_next);
    tick_record(&mut live_next, other.expect("fresh title"), false);
    assert_eq!(live_next.len(), 1);
}

#[test]
fn minute_triggers_matches_configured_offsets() {
    let s = Settings::new();
    assert!(minute_triggers(5, &s.minutes_to_save));
    assert!(minute_triggers(50, &s.minutes_to_save));
    assert!(!minute_triggers(6, &s.minutes_to_save));
}

#[test]
fn default_settings_values() {
    let s = Settings::new();
    assert_eq!(s.top_windows_to_save, 5);
    assert_eq!(s.minutes_to_save, vec![5, 20, 35, 50]);
    assert_eq!(s.window_title_length, 20);
    assert!(s.projects.is_empty());
}
