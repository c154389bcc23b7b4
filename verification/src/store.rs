use vstd::prelude::*;
use crate::session::{WinView, Window};

verus! {

/// The views of a sequence of session rows.
pub open spec fn views_of(rows: Seq<Window>) -> Seq<WinView> {
    rows.map_values(|w: Window| w@)
}

/// `r` is the row the upsert key `(title, start_time)` selects.
pub open spec fn row_key_matches(r: WinView, title: Seq<char>, start: Seq<char>) -> bool {
    r.title == title && r.start_time == start
}

/// First index of a row with the given title and start time, or -1.
pub open spec fn find_row(rows: Seq<WinView>, title: Seq<char>, start: Seq<char>) -> int
    decreases rows.len(),
{
    if rows.len() == 0 {
        -1
    } else if row_key_matches(rows[0], title, start) {
        0
    } else {
        let r = find_row(rows.skip(1), title, start);
        if r == -1 {
            -1
        } else {
            r + 1
        }
    }
}

pub proof fn lemma_find_row_props(rows: Seq<WinView>, title: Seq<char>, start: Seq<char>)
    ensures
        find_row(rows, title, start) == -1 ==> forall|k: int|
            0 <= k < rows.len() ==> !row_key_matches(rows[k], title, start),
        find_row(rows, title, start) != -1 ==> {
            let i = find_row(rows, title, start);
            &&& 0 <= i < rows.len()
            &&& row_key_matches(rows[i], title, start)
            &&& forall|k: int| 0 <= k < i ==> !row_key_matches(rows[k], title, start)
        },
    decreases rows.len(),
{
    if rows.len() == 0 {
    } else if row_key_matches(rows[0], title, start) {
    } else {
        lemma_find_row_props(rows.skip(1), title, start);
        assert(forall|k: int| 1 <= k < rows.len() ==> rows[k] == rows.skip(1)[k - 1]);
    }
}

/// The first index satisfying the key is the value of `find_row`.
pub proof fn lemma_find_row_at(rows: Seq<WinView>, title: Seq<char>, start: Seq<char>, i: int)
    requires
        0 <= i < rows.len(),
        row_key_matches(rows[i], title, start),
        forall|k: int| 0 <= k < i ==> !row_key_matches(rows[k], title, start),
    ensures
        find_row(rows, title, start) == i,
    decreases i,
{
    if i == 0 {
    } else {
        assert(forall|k: int| 0 <= k < rows.skip(1).len() ==> rows.skip(1)[k] == rows[k + 1]);
        lemma_find_row_at(rows.skip(1), title, start, i - 1);
    }
}

/// When no row carries the key, `find_row` reports -1.
pub proof fn lemma_find_row_none(rows: Seq<WinView>, title: Seq<char>, start: Seq<char>)
    requires
        forall|k: int| 0 <= k < rows.len() ==> !row_key_matches(rows[k], title, start),
    ensures
        find_row(rows, title, start) == -1,
    decreases rows.len(),
{
    if rows.len() == 0 {
    } else {
        assert(forall|k: int| 0 <= k < rows.skip(1).len() ==> rows.skip(1)[k] == rows[k + 1]);
        lemma_find_row_none(rows.skip(1), title, start);
    }
}

/// The table after an insert-or-extend with `w`: when a row already
/// carries `w`'s title and start time, only that row's `end_time` moves;
/// otherwise `w` is appended as a new row.
pub open spec fn upserted(rows: Seq<WinView>, w: WinView) -> Seq<WinView> {
    let i = find_row(rows, w.title, w.start_time);
    if i == -1 {
        rows.push(w)
    } else {
        rows.update(i, WinView { end_time: w.end_time, ..rows[i] })
    }
}

/// No two rows share the upsert key: `(title, start_time)` identifies
/// at most one row of the table.
pub open spec fn unique_keys(rows: Seq<WinView>) -> bool {
    forall|a: int, b: int|
        0 <= a < b < rows.len() ==> !(rows[a].title == rows[b].title && rows[a].start_time
            == rows[b].start_time)
}

/// The insert-or-extend upsert keeps the table's natural key unique:
/// for a given title, at most one row is ever "open" under a given
/// start time, however many ticks extend it.
pub proof fn lemma_upsert_keeps_unique_keys(rows: Seq<WinView>, w: WinView)
    requires
        unique_keys(rows),
    ensures
        unique_keys(upserted(rows, w)),
{
    let i = find_row(rows, w.title, w.start_time);
    lemma_find_row_props(rows, w.title, w.start_time);
    let out = upserted(rows, w);
    if i == -1 {
        assert forall|a: int, b: int| 0 <= a < b < out.len() implies !(out[a].title == out[b].title
            && out[a].start_time == out[b].start_time) by {
            if b == rows.len() {
                assert(!row_key_matches(rows[a], w.title, w.start_time));
            }
        }
    } else {
        assert forall|a: int, b: int| 0 <= a < b < out.len() implies !(out[a].title == out[b].title
            && out[a].start_time == out[b].start_time) by {
            assert(out[a].title == rows[a].title && out[a].start_time == rows[a].start_time);
            assert(out[b].title == rows[b].title && out[b].start_time == rows[b].start_time);
        }
    }
}

/// Rows whose start time falls on the given day: the stored timestamp
/// begins with the day's "YYYY-MM-DD" form.
pub open spec fn on_date(r: WinView, date: Seq<char>) -> bool {
    r.start_time.len() >= 10 && r.start_time.take(10) == date
}

/// The rows of `rows` that fall on `date`, in stored order.
pub open spec fn rows_on_date(rows: Seq<WinView>, date: Seq<char>) -> Seq<WinView>
    decreases rows.len(),
{
    if rows.len() == 0 {
        Seq::empty()
    } else {
        let rest = rows_on_date(rows.drop_last(), date);
        if on_date(rows.last(), date) {
            rest.push(rows.last())
        } else {
            rest
        }
    }
}

/// An in-memory session table with the insert-or-extend contract the
/// durable store promises: `(title, start_time)` is the upsert key, and
/// an extension moves only the selected row's `end_time`. It backs the
/// stitcher's proofs; durable persistence mirrors this contract outside
/// the library.
pub struct SessionStore {
    pub rows: Vec<Window>,
}

impl View for SessionStore {
    type V = Seq<WinView>;

    open spec fn view(&self) -> Seq<WinView> {
        views_of(self.rows@)
    }
}

impl SessionStore {
    /// An empty table.
    pub fn new() -> (s: SessionStore)
        ensures
            s@ == Seq::<WinView>::empty(),
    {
        let s = SessionStore { rows: Vec::new() };
        proof {
            assert(s@ =~= Seq::<WinView>::empty());
        }
        s
    }

    /// Insert-or-extend: looks the row up by `(title, start_time)`;
    /// none found inserts a new row, a hit updates only that row's
    /// `end_time`. Title, start time and category of an existing row
    /// are never mutated by an extension.
    pub fn insert_or_extend(&mut self, w: &Window)
        ensures
            final(self)@ == upserted(old(self)@, w@),
    {
        let n = self.rows.len();
        let mut i: usize = 0;
        while i < n
            invariant
                i <= n,
                n == self.rows@.len(),
                *self == *old(self),
                forall|k: int| 0 <= k < i ==> !row_key_matches(old(self)@[k], w@.title, w@.start_time),
            decreases n - i,
        {
            let hit = {
                let row = &self.rows[i];
                let t_eq = row.title == w.title;
                let s_eq = row.start_time == w.start_time;
                t_eq && s_eq
            };
            if hit {
                proof {
                    lemma_find_row_at(old(self)@, w@.title, w@.start_time, i as int);
                }
                let updated = {
                    let row = &self.rows[i];
                    Window {
                        id: row.id,
                        title: row.title.clone(),
                        start_time: row.start_time.clone(),
                        end_time: w.end_time.clone(),
                        category: row.category,
                    }
                };
                self.rows[i] = updated;
                proof {
                    assert(self@ =~= upserted(old(self)@, w@));
                }
                return ;
            }
            i += 1;
        }
        proof {
            lemma_find_row_none(old(self)@, w@.title, w@.start_time);
        }
        self.rows.push(w.clone());
        proof {
            assert(self@ =~= upserted(old(self)@, w@));
        }
    }

    /// All rows whose start time falls on `date`, in stored order.
    pub fn entries_on_date(&self, date: &str) -> (out: Vec<Window>)
        ensures
            views_of(out@) == rows_on_date(self@, date@),
    {
        let n = self.rows.len();
        let mut out: Vec<Window> = Vec::new();
        let mut i: usize = 0;
        while i < n
            invariant
                i <= n,
                n == self.rows@.len(),
                views_of(out@) == rows_on_date(self@.take(i as int), date@),
            decreases n - i,
        {
            let row = &self.rows[i];
            let keep = {
                let slen = row.start_time.as_str().unicode_len();
                if slen >= 10 {
                    let prefix = row.start_time.as_str().substring_char(0, 10);
                    let datestr = String::from_str(date);
                    let eq = String::from_str(prefix) == datestr;
                    proof {
                        assert(row@.start_time.subrange(0, 10) == row@.start_time.take(10));
                    }
                    eq
                } else {
                    false
                }
            };
            proof {
                assert(self@.take(i + 1).drop_last() =~= self@.take(i as int));
                assert(self@.take(i + 1).last() == self@[i as int]);
            }
            if keep {
                out.push(row.clone());
                proof {
                    assert(views_of(out@) =~= rows_on_date(self@.take(i + 1), date@));
                }
            } else {
                proof {
                    assert(views_of(out@) =~= rows_on_date(self@.take(i + 1), date@));
                }
            }
            i += 1;
        }
        proof {
            assert(self@.take(n as int) =~= self@);
        }
        out
    }
}

} // verus!
