use vstd::prelude::*;

verus! {

/// A category rule: a window title that holds any of the keywords,
/// compared case-insensitively, belongs to `category`.
pub struct Project {
    pub project_name: String,
    pub keywords: Vec<String>,
    pub category: u8,
}

/// The configuration the core works from. Reading and writing the
/// settings file happens outside the library; the core receives this
/// as a plain value.
pub struct Settings {
    pub top_windows_to_save: u32,
    pub minutes_to_save: Vec<u32>,
    pub window_title_length: u32,
    pub projects: Vec<Project>,
}

impl Settings {
    /// The default configuration: sample at minutes 5, 20, 35 and 50 of
    /// each hour, keep the top five window titles, render titles twenty
    /// characters wide, and no category rules.
    pub fn new() -> (s: Settings)
        ensures
            s.top_windows_to_save == 5,
            s.minutes_to_save@ == seq![5u32, 20u32, 35u32, 50u32],
            s.window_title_length == 20,
            s.projects@ == Seq::<Project>::empty(),
    {
        let mut minutes: Vec<u32> = Vec::new();
        minutes.push(5);
        minutes.push(20);
        minutes.push(35);
        minutes.push(50);
        let s = Settings {
            top_windows_to_save: 5,
            minutes_to_save: minutes,
            window_title_length: 20,
            projects: Vec::new(),
        };
        proof {
            assert(s.minutes_to_save@ =~= seq![5u32, 20u32, 35u32, 50u32]);
            assert(s.projects@ =~= Seq::<Project>::empty());
        }
        s
    }
}

} // verus!
