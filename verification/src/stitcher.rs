use vstd::prelude::*;
use crate::session::{WinView, Window, normalized_title};
use crate::settings::Project;
use crate::store::{
    SessionStore, find_row, lemma_find_row_at, lemma_find_row_none, row_key_matches, upserted,
    views_of,
};
use crate::text::{contains_substring, is_substring, lower_of, lowercase};

verus! {

/// A rule matches a title when any of its keywords, lowercased, occurs
/// somewhere in the lowercased title.
pub open spec fn project_matches(title: Seq<char>, p: Project) -> bool {
    exists|j: int|
        0 <= j < p.keywords@.len() && is_substring(lower_of(title), lower_of(p.keywords@[j]@))
}

/// The category of the first rule, in configured order, that matches
/// the title; `None` when no rule does. First rule wins on a tie.
pub open spec fn resolved_category(title: Seq<char>, projects: Seq<Project>) -> Option<u8>
    decreases projects.len(),
{
    if projects.len() == 0 {
        None
    } else if project_matches(title, projects[0]) {
        Some(projects[0].category)
    } else {
        resolved_category(title, projects.skip(1))
    }
}

proof fn lemma_resolved_category_at(title: Seq<char>, projects: Seq<Project>, i: int)
    requires
        0 <= i < projects.len(),
        project_matches(title, projects[i]),
        forall|k: int| 0 <= k < i ==> !project_matches(title, projects[k]),
    ensures
        resolved_category(title, projects) == Some(projects[i].category),
    decreases i,
{
    if i == 0 {
    } else {
        assert(forall|k: int|
            0 <= k < projects.skip(1).len() ==> projects.skip(1)[k] == projects[k + 1]);
        lemma_resolved_category_at(title, projects.skip(1), i - 1);
    }
}

proof fn lemma_resolved_category_none(title: Seq<char>, projects: Seq<Project>)
    requires
        forall|k: int| 0 <= k < projects.len() ==> !project_matches(title, projects[k]),
    ensures
        resolved_category(title, projects) is None,
    decreases projects.len(),
{
    if projects.len() == 0 {
    } else {
        assert(forall|k: int|
            0 <= k < projects.skip(1).len() ==> projects.skip(1)[k] == projects[k + 1]);
        lemma_resolved_category_none(title, projects.skip(1));
    }
}

/// Resolves a title's category: case-insensitive substring match of the
/// rules' keywords against the title, first matching rule (in configured
/// order) wins, no match means uncategorized.
pub fn resolve_category(title: &str, projects: &Vec<Project>) -> (c: Option<u8>)
    ensures
        c == resolved_category(title@, projects@),
{
    let title_lower = lowercase(title);
    let n = projects.len();
    let mut i: usize = 0;
    while i < n
        invariant
            i <= n,
            n == projects@.len(),
            title_lower@ == lower_of(title@),
            forall|k: int| 0 <= k < i ==> !project_matches(title@, projects@[k]),
        decreases n - i,
    {
        let p = &projects[i];
        let m = p.keywords.len();
        let mut j: usize = 0;
        while j < m
            invariant
                j <= m,
                m == p.keywords@.len(),
                p == projects@[i as int],
                i < n == projects@.len(),
                title_lower@ == lower_of(title@),
                forall|k: int| 0 <= k < i ==> !project_matches(title@, projects@[k]),
                forall|l: int|
                    0 <= l < j ==> !is_substring(lower_of(title@), lower_of(p.keywords@[l]@)),
            decreases m - j,
        {
            let kw_lower = lowercase(p.keywords[j].as_str());
            if contains_substring(title_lower.as_str(), kw_lower.as_str()) {
                proof {
                    assert(project_matches(title@, projects@[i as int]));
                    lemma_resolved_category_at(title@, projects@, i as int);
                }
                return Some(p.category);
            }
            j += 1;
        }
        proof {
            assert(!project_matches(title@, projects@[i as int]));
        }
        i += 1;
    }
    proof {
        lemma_resolved_category_none(title@, projects@);
    }
    None
}

/// First index in a live list whose session carries `title`, or -1.
pub open spec fn title_index(prev: Seq<WinView>, title: Seq<char>) -> int
    decreases prev.len(),
{
    if prev.len() == 0 {
        -1
    } else if prev[0].title == title {
        0
    } else {
        let r = title_index(prev.skip(1), title);
        if r == -1 {
            -1
        } else {
            r + 1
        }
    }
}

pub proof fn lemma_title_index_props(prev: Seq<WinView>, title: Seq<char>)
    ensures
        title_index(prev, title) == -1 ==> forall|k: int|
            0 <= k < prev.len() ==> prev[k].title != title,
        title_index(prev, title) != -1 ==> {
            let i = title_index(prev, title);
            &&& 0 <= i < prev.len()
            &&& prev[i].title == title
            &&& forall|k: int| 0 <= k < i ==> prev[k].title != title
        },
    decreases prev.len(),
{
    if prev.len() == 0 {
    } else if prev[0].title == title {
    } else {
        lemma_title_index_props(prev.skip(1), title);
        assert(forall|k: int| 1 <= k < prev.len() ==> prev[k] == prev.skip(1)[k - 1]);
    }
}

pub proof fn lemma_title_index_at(prev: Seq<WinView>, title: Seq<char>, i: int)
    requires
        0 <= i < prev.len(),
        prev[i].title == title,
        forall|k: int| 0 <= k < i ==> prev[k].title != title,
    ensures
        title_index(prev, title) == i,
    decreases i,
{
    if i == 0 {
    } else {
        assert(forall|k: int| 0 <= k < prev.skip(1).len() ==> prev.skip(1)[k] == prev[k + 1]);
        lemma_title_index_at(prev.skip(1), title, i - 1);
    }
}

pub proof fn lemma_title_index_none(prev: Seq<WinView>, title: Seq<char>)
    requires
        forall|k: int| 0 <= k < prev.len() ==> prev[k].title != title,
    ensures
        title_index(prev, title) == -1,
    decreases prev.len(),
{
    if prev.len() == 0 {
    } else {
        assert(forall|k: int| 0 <= k < prev.skip(1).len() ==> prev.skip(1)[k] == prev[k + 1]);
        lemma_title_index_none(prev.skip(1), title);
    }
}

/// The session row one tick produces for one observed title: the title
/// is normalized (NUL truncation, control characters trimmed), the start time is carried over from
/// the previous tick's session of the same title when there is one (this
/// is what extends one interval instead of opening many), the end time
/// is the activity horizon the caller computed, and the category comes
/// from the first matching rule for the observed title.
pub open spec fn stitched(
    title_raw: Seq<char>,
    now: Seq<char>,
    horizon_end: Seq<char>,
    prev: Seq<WinView>,
    projects: Seq<Project>,
) -> WinView {
    let t = normalized_title(title_raw);
    let i = title_index(prev, t);
    WinView {
        id: 0,
        title: t,
        start_time: if i >= 0 {
            prev[i].start_time
        } else {
            now
        },
        end_time: horizon_end,
        category: resolved_category(title_raw, projects),
    }
}

/// Builds the session row one observed title contributes to this tick.
pub fn build_tick_window(
    title: &str,
    now: &str,
    horizon_end: &str,
    previous: &Vec<Window>,
    projects: &Vec<Project>,
) -> (w: Window)
    ensures
        w@ == stitched(title@, now@, horizon_end@, views_of(previous@), projects@),
        w.id == 0,
{
    let category = resolve_category(title, projects);
    let mut w = Window::new(
        String::from_str(title),
        String::from_str(now),
        String::from_str(horizon_end),
        category,
    );
    let n = previous.len();
    let mut i: usize = 0;
    while i < n
        invariant
            i <= n,
            n == previous@.len(),
            w@.title == normalized_title(title@),
            w@.start_time == now@,
            w@.end_time == horizon_end@,
            w@.category == resolved_category(title@, projects@),
            w.id == 0,
            forall|k: int| 0 <= k < i ==> views_of(previous@)[k].title != w@.title,
        decreases n - i,
    {
        if previous[i].title == w.title {
            w.start_time = previous[i].start_time.clone();
            proof {
                lemma_title_index_at(views_of(previous@), w@.title, i as int);
                assert(w@ =~= stitched(title@, now@, horizon_end@, views_of(previous@), projects@));
            }
            return w;
        }
        i += 1;
    }
    proof {
        lemma_title_index_none(views_of(previous@), w@.title);
        assert(w@ =~= stitched(title@, now@, horizon_end@, views_of(previous@), projects@));
    }
    w
}

/// Whether the tick has already produced a session for `title`:
/// duplicates of a title within one snapshot are collapsed.
fn has_title(live: &Vec<Window>, title: &String) -> (r: bool)
    ensures
        r == (title_index(views_of(live@), title@) >= 0),
{
    let n = live.len();
    let mut i: usize = 0;
    while i < n
        invariant
            i <= n,
            n == live@.len(),
            forall|k: int| 0 <= k < i ==> views_of(live@)[k].title != title@,
        decreases n - i,
    {
        if live[i].title == *title {
            proof {
                lemma_title_index_at(views_of(live@), title@, i as int);
            }
            return true;
        }
        i += 1;
    }
    proof {
        lemma_title_index_none(views_of(live@), title@);
    }
    false
}

/// One full sampling tick over the model store: the observed titles are
/// taken in order, duplicates (after normalization) collapsed, each
/// producing its stitched row, which is upserted into the table and
/// becomes part of the next tick's live list.
pub open spec fn stitch_tick_rec(
    observed: Seq<Seq<char>>,
    now: Seq<char>,
    horizon_end: Seq<char>,
    prev: Seq<WinView>,
    projects: Seq<Project>,
    acc: Seq<WinView>,
    rows: Seq<WinView>,
) -> (Seq<WinView>, Seq<WinView>)
    decreases observed.len(),
{
    if observed.len() == 0 {
        (acc, rows)
    } else {
        let w = stitched(observed[0], now, horizon_end, prev, projects);
        if title_index(acc, w.title) >= 0 {
            stitch_tick_rec(observed.skip(1), now, horizon_end, prev, projects, acc, rows)
        } else {
            stitch_tick_rec(
                observed.skip(1),
                now,
                horizon_end,
                prev,
                projects,
                acc.push(w),
                upserted(rows, w),
            )
        }
    }
}

/// The live list and table one tick leaves behind, starting from an
/// empty live list.
pub open spec fn stitch_tick(
    observed: Seq<Seq<char>>,
    now: Seq<char>,
    horizon_end: Seq<char>,
    prev: Seq<WinView>,
    projects: Seq<Project>,
    rows: Seq<WinView>,
) -> (Seq<WinView>, Seq<WinView>) {
    stitch_tick_rec(observed, now, horizon_end, prev, projects, Seq::empty(), rows)
}

/// Reconciles one tick's snapshot against the previous tick's live
/// sessions and the table: every observed title's row is inserted or
/// extended, titles no longer observed are dropped silently from the
/// live list (their rows simply stop being extended), and an empty
/// snapshot leaves the table untouched.
pub fn reconcile_tick(
    observed: &Vec<String>,
    now: &str,
    horizon_end: &str,
    previous: &Vec<Window>,
    projects: &Vec<Project>,
    store: &mut SessionStore,
) -> (live: Vec<Window>)
    ensures
        ({
            let (t, r) = stitch_tick(
                observed@.map_values(|s: String| s@),
                now@,
                horizon_end@,
                views_of(previous@),
                projects@,
                old(store)@,
            );
            views_of(live@) == t && final(store)@ == r
        }),
{
    let ghost obs = observed@.map_values(|s: String| s@);
    let ghost prevs = views_of(previous@);
    let mut live: Vec<Window> = Vec::new();
    let n = observed.len();
    let mut i: usize = 0;
    proof {
        assert(views_of(live@) =~= Seq::<WinView>::empty());
        assert(obs.skip(0) =~= obs);
    }
    while i < n
        invariant
            i <= n,
            n == observed@.len(),
            obs == observed@.map_values(|s: String| s@),
            prevs == views_of(previous@),
            stitch_tick_rec(
                obs.skip(i as int),
                now@,
                horizon_end@,
                prevs,
                projects@,
                views_of(live@),
                store@,
            ) == stitch_tick(obs, now@, horizon_end@, prevs, projects@, old(store)@),
        decreases n - i,
    {
        let w = build_tick_window(observed[i].as_str(), now, horizon_end, previous, projects);
        proof {
            assert(obs.skip(i as int)[0] == obs[i as int]);
            assert(obs.skip(i as int).skip(1) =~= obs.skip(i + 1));
        }
        if !has_title(&live, &w.title) {
            let ghost live_before = live@;
            store.insert_or_extend(&w);
            live.push(w);
            proof {
                assert(views_of(live@) =~= views_of(live_before).push(live@.last()@));
            }
        }
        i += 1;
    }
    proof {
        assert(obs.skip(n as int) =~= Seq::<Seq<char>>::empty());
    }
    live
}

/// Whether a timer minute is one of the configured sampling offsets:
/// the loop outside the library performs a tick exactly on these.
pub fn minute_triggers(minute: u32, triggers: &Vec<u32>) -> (r: bool)
    ensures
        r == triggers@.contains(minute),
{
    let n = triggers.len();
    let mut i: usize = 0;
    while i < n
        invariant
            i <= n,
            n == triggers@.len(),
            forall|k: int| 0 <= k < i ==> triggers@[k] != minute,
        decreases n - i,
    {
        if triggers[i] == minute {
            return true;
        }
        i += 1;
    }
    false
}

/// One observed title's decision for a loop that performs the durable
/// store call itself: `None` when the title (after normalization)
/// duplicates one already handled this tick, otherwise the session row
/// to insert or extend.
pub fn tick_prepare(
    title: &str,
    now: &str,
    horizon_end: &str,
    previous: &Vec<Window>,
    projects: &Vec<Project>,
    live_next: &Vec<Window>,
) -> (r: Option<Window>)
    ensures
        ({
            let w = stitched(title@, now@, horizon_end@, views_of(previous@), projects@);
            if title_index(views_of(live_next@), w.title) >= 0 {
                r is None
            } else {
                r matches Some(x) && x@ == w
            }
        }),
{
    let w = build_tick_window(title, now, horizon_end, previous, projects);
    if has_title(live_next, &w.title) {
        None
    } else {
        Some(w)
    }
}

/// Records the store call's outcome for one prepared session: a
/// persisted session joins the next tick's live list, a failed one is
/// left out, so its next observation starts a fresh session.
pub fn tick_record(live_next: &mut Vec<Window>, w: Window, stored: bool)
    ensures
        stored ==> views_of(final(live_next)@) == views_of(old(live_next)@).push(w@),
        !stored ==> final(live_next)@ == old(live_next)@,
{
    if stored {
        let ghost before = live_next@;
        live_next.push(w);
        proof {
            assert(views_of(live_next@) =~= views_of(before).push(live_next@.last()@));
        }
    }
}

// ---------------------------------------------------------------------
// What repeated ticks do to the table
// ---------------------------------------------------------------------
/// The live list and table after a run of ticks that each observe
/// exactly one title `t`, with the given `(now, horizon_end)` pairs.
pub open spec fn run_single_title_ticks(
    t: Seq<char>,
    times: Seq<(Seq<char>, Seq<char>)>,
    projects: Seq<Project>,
    live: Seq<WinView>,
    rows: Seq<WinView>,
) -> (Seq<WinView>, Seq<WinView>)
    decreases times.len(),
{
    if times.len() == 0 {
        (live, rows)
    } else {
        let stepped = stitch_tick(seq![t], times[0].0, times[0].1, live, projects, rows);
        run_single_title_ticks(t, times.skip(1), projects, stepped.0, stepped.1)
    }
}

/// One single-title tick against a live list holding one session of
/// that title and a table where that session's row is the last one and
/// no earlier row carries its key: the tick only pushes the row's end
/// time forward, and the live session is rebuilt with the carried
/// start.
proof fn lemma_single_title_tick(
    t: Seq<char>,
    now: Seq<char>,
    horizon_end: Seq<char>,
    projects: Seq<Project>,
    wl: WinView,
    rows0: Seq<WinView>,
    wr: WinView,
)
    requires
        t == normalized_title(t),
        wl.title == t,
        wr.title == t,
        wl.start_time == wr.start_time,
        forall|k: int| 0 <= k < rows0.len() ==> !row_key_matches(rows0[k], t, wl.start_time),
    ensures
        ({
            let stepped = stitch_tick(
                seq![t],
                now,
                horizon_end,
                seq![wl],
                projects,
                rows0.push(wr),
            );
            stepped.0 == seq![
                WinView {
                    id: 0,
                    title: t,
                    start_time: wl.start_time,
                    end_time: horizon_end,
                    category: resolved_category(t, projects),
                },
            ] && stepped.1 == rows0.push(WinView { end_time: horizon_end, ..wr })
        }),
{
    let obs = seq![t];
    assert(obs[0] == t);
    assert(title_index(seq![wl], t) == 0);
    let w_new = stitched(t, now, horizon_end, seq![wl], projects);
    assert(w_new == WinView {
        id: 0,
        title: t,
        start_time: wl.start_time,
        end_time: horizon_end,
        category: resolved_category(t, projects),
    });
    assert(title_index(Seq::<WinView>::empty(), t) == -1);
    let table = rows0.push(wr);
    assert(table[rows0.len() as int] == wr);
    assert(row_key_matches(table[rows0.len() as int], t, wl.start_time));
    assert(forall|k: int| 0 <= k < rows0.len() ==> table[k] == rows0[k]);
    lemma_find_row_at(table, t, wl.start_time, rows0.len() as int);
    assert(upserted(table, w_new) =~= rows0.push(WinView { end_time: horizon_end, ..wr }));
    assert(obs.skip(1) =~= Seq::<Seq<char>>::empty());
    assert(stitch_tick_rec(
        obs.skip(1),
        now,
        horizon_end,
        seq![wl],
        projects,
        seq![w_new],
        upserted(table, w_new),
    ) == (seq![w_new], upserted(table, w_new)));
}

/// A run of single-title ticks from a one-session live list and a table
/// whose last row is that session keeps exactly that one row for the
/// title, moving only its end time; the rest of the table is untouched
/// and the live session keeps the carried start.
proof fn lemma_single_title_run(
    t: Seq<char>,
    times: Seq<(Seq<char>, Seq<char>)>,
    projects: Seq<Project>,
    wl: WinView,
    rows0: Seq<WinView>,
    wr: WinView,
)
    requires
        t == normalized_title(t),
        times.len() > 0,
        wl.title == t,
        wr.title == t,
        wl.start_time == wr.start_time,
        forall|k: int| 0 <= k < rows0.len() ==> !row_key_matches(rows0[k], t, wl.start_time),
    ensures
        ({
            let run = run_single_title_ticks(t, times, projects, seq![wl], rows0.push(wr));
            run.0 == seq![
                WinView {
                    id: 0,
                    title: t,
                    start_time: wl.start_time,
                    end_time: times.last().1,
                    category: resolved_category(t, projects),
                },
            ] && run.1 == rows0.push(WinView { end_time: times.last().1, ..wr })
        }),
    decreases times.len(),
{
    lemma_single_title_tick(t, times[0].0, times[0].1, projects, wl, rows0, wr);
    let stepped = stitch_tick(seq![t], times[0].0, times[0].1, seq![wl], projects, rows0.push(wr));
    let wl2 = WinView {
        id: 0,
        title: t,
        start_time: wl.start_time,
        end_time: times[0].1,
        category: resolved_category(t, projects),
    };
    let wr2 = WinView { end_time: times[0].1, ..wr };
    assert(stepped.0 == seq![wl2]);
    assert(stepped.1 == rows0.push(wr2));
    if times.len() == 1 {
        assert(times.skip(1) =~= Seq::<(Seq<char>, Seq<char>)>::empty());
        assert(run_single_title_ticks(t, times.skip(1), projects, seq![wl2], rows0.push(wr2)) == (
            seq![wl2],
            rows0.push(wr2),
        ));
    } else {
        lemma_single_title_run(t, times.skip(1), projects, wl2, rows0, wr2);
        assert(times.skip(1).last() == times.last());
        assert(WinView { end_time: times.last().1, ..wr2 } == WinView {
            end_time: times.last().1,
            ..wr
        });
    }
}

/// Observing the same title over any run of consecutive ticks adds
/// exactly one table row for it, whatever the table held before: its
/// start time is the first tick's timestamp, its end time the last
/// tick's horizon, its category the one resolved at first sight, and
/// every prior row is untouched. The title must not be tracked before
/// the first tick, and no prior row may already carry its key.
pub proof fn lemma_consecutive_ticks_single_row(
    t: Seq<char>,
    times: Seq<(Seq<char>, Seq<char>)>,
    projects: Seq<Project>,
    live0: Seq<WinView>,
    rows0: Seq<WinView>,
)
    requires
        t == normalized_title(t),
        times.len() > 0,
        title_index(live0, t) == -1,
        forall|k: int| 0 <= k < rows0.len() ==> !row_key_matches(rows0[k], t, times[0].0),
    ensures
        ({
            let run = run_single_title_ticks(t, times, projects, live0, rows0);
            let row = WinView {
                id: 0,
                title: t,
                start_time: times[0].0,
                end_time: times.last().1,
                category: resolved_category(t, projects),
            };
            run.0 == seq![row] && run.1 == rows0.push(row)
        }),
{
    let obs = seq![t];
    assert(obs[0] == t);
    let w1 = stitched(t, times[0].0, times[0].1, live0, projects);
    assert(w1 == WinView {
        id: 0,
        title: t,
        start_time: times[0].0,
        end_time: times[0].1,
        category: resolved_category(t, projects),
    });
    lemma_find_row_none(rows0, t, times[0].0);
    assert(upserted(rows0, w1) == rows0.push(w1));
    assert(title_index(Seq::<WinView>::empty(), t) == -1);
    assert(obs.skip(1) =~= Seq::<Seq<char>>::empty());
    let acc1 = Seq::<WinView>::empty().push(w1);
    let rows1 = upserted(rows0, w1);
    assert(acc1 =~= seq![w1]);
    assert(stitch_tick_rec(obs, times[0].0, times[0].1, live0, projects, Seq::<WinView>::empty(), rows0)
        == stitch_tick_rec(obs.skip(1), times[0].0, times[0].1, live0, projects, acc1, rows1));
    assert(stitch_tick_rec(obs.skip(1), times[0].0, times[0].1, live0, projects, acc1, rows1) == (
        acc1,
        rows1,
    ));
    let stepped = stitch_tick(seq![t], times[0].0, times[0].1, live0, projects, rows0);
    assert(stepped.0 == seq![w1]);
    assert(stepped.1 == rows0.push(w1));
    assert(run_single_title_ticks(t, times, projects, live0, rows0) == run_single_title_ticks(
        t,
        times.skip(1),
        projects,
        stepped.0,
        stepped.1,
    ));
    if times.len() == 1 {
        assert(times.skip(1) =~= Seq::<(Seq<char>, Seq<char>)>::empty());
        assert(run_single_title_ticks(t, times.skip(1), projects, stepped.0, stepped.1) == (
            stepped.0,
            stepped.1,
        ));
    } else {
        lemma_single_title_run(t, times.skip(1), projects, w1, rows0, w1);
        assert(times.skip(1).last() == times.last());
        assert(WinView { end_time: times.last().1, ..w1 } == WinView {
            id: 0,
            title: t,
            start_time: times[0].0,
            end_time: times.last().1,
            category: resolved_category(t, projects),
        });
    }
}

/// A title that disappears for one tick and reappears later opens a
/// second table row: the two rows carry the two distinct start
/// timestamps, because the upsert key is `(title, start_time)` and the
/// gap tick empties the live list. The prior table, which may hold
/// anything without those two keys, is untouched.
pub proof fn lemma_gap_makes_two_rows(
    t: Seq<char>,
    n1: Seq<char>,
    e1: Seq<char>,
    n2: Seq<char>,
    e2: Seq<char>,
    n3: Seq<char>,
    e3: Seq<char>,
    projects: Seq<Project>,
    live0: Seq<WinView>,
    rows0: Seq<WinView>,
)
    requires
        t == normalized_title(t),
        n1 != n3,
        title_index(live0, t) == -1,
        forall|k: int|
            0 <= k < rows0.len() ==> !row_key_matches(rows0[k], t, n1) && !row_key_matches(
                rows0[k],
                t,
                n3,
            ),
    ensures
        ({
            let c = resolved_category(t, projects);
            let tick1 = stitch_tick(seq![t], n1, e1, live0, projects, rows0);
            let tick2 = stitch_tick(Seq::<Seq<char>>::empty(), n2, e2, tick1.0, projects, tick1.1);
            let tick3 = stitch_tick(seq![t], n3, e3, tick2.0, projects, tick2.1);
            tick3.1 == rows0.push(
                WinView { id: 0, title: t, start_time: n1, end_time: e1, category: c },
            ).push(WinView { id: 0, title: t, start_time: n3, end_time: e3, category: c })
        }),
{
    let c = resolved_category(t, projects);
    let obs = seq![t];
    assert(obs[0] == t);
    let w1 = stitched(t, n1, e1, live0, projects);
    assert(w1 == WinView { id: 0, title: t, start_time: n1, end_time: e1, category: c });
    lemma_find_row_none(rows0, t, n1);
    assert(upserted(rows0, w1) == rows0.push(w1));
    assert(title_index(Seq::<WinView>::empty(), t) == -1);
    assert(obs.skip(1) =~= Seq::<Seq<char>>::empty());
    let acc1 = Seq::<WinView>::empty().push(w1);
    let rows1 = rows0.push(w1);
    assert(acc1 =~= seq![w1]);
    assert(stitch_tick_rec(obs, n1, e1, live0, projects, Seq::<WinView>::empty(), rows0)
        == stitch_tick_rec(obs.skip(1), n1, e1, live0, projects, acc1, rows1));
    assert(stitch_tick_rec(obs.skip(1), n1, e1, live0, projects, acc1, rows1) == (acc1, rows1));
    let tick1 = stitch_tick(seq![t], n1, e1, live0, projects, rows0);
    assert(tick1.0 == seq![w1]);
    assert(tick1.1 == rows1);
    let tick2 = stitch_tick(Seq::<Seq<char>>::empty(), n2, e2, tick1.0, projects, tick1.1);
    assert(tick2.0 == Seq::<WinView>::empty());
    assert(tick2.1 == rows1);
    let w3 = stitched(t, n3, e3, Seq::<WinView>::empty(), projects);
    assert(w3 == WinView { id: 0, title: t, start_time: n3, end_time: e3, category: c });
    assert(!row_key_matches(rows1[rows0.len() as int], t, n3));
    assert(forall|k: int| 0 <= k < rows0.len() ==> rows1[k] == rows0[k]);
    lemma_find_row_none(rows1, t, n3);
    assert(upserted(rows1, w3) == rows1.push(w3));
    let acc3 = Seq::<WinView>::empty().push(w3);
    let rows3 = rows1.push(w3);
    assert(stitch_tick_rec(obs, n3, e3, Seq::<WinView>::empty(), projects, Seq::<WinView>::empty(), rows1)
        == stitch_tick_rec(obs.skip(1), n3, e3, Seq::<WinView>::empty(), projects, acc3, rows3));
    assert(stitch_tick_rec(obs.skip(1), n3, e3, Seq::<WinView>::empty(), projects, acc3, rows3)
        == (acc3, rows3));
    let tick3 = stitch_tick(seq![t], n3, e3, tick2.0, projects, tick2.1);
    assert(tick3.1 == rows1.push(w3));
}

} // verus!
