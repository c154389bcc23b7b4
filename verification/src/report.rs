use vstd::prelude::*;
use crate::session::{WinView, Window};
use crate::stitcher::{lemma_title_index_at, lemma_title_index_none, title_index};
use crate::store::views_of;
use crate::text::{
    bars_replaced, force_length, forced_to_length, format_hhmm, hhmm_of, replace_bars,
};
use crate::timeparse::{ParseError, parse_stored_timestamp, stored_ts_fmt, time_seconds_of};

verus! {

// ---------------------------------------------------------------------
// The bucket grid
// ---------------------------------------------------------------------
/// No two equal entries and ascending order.
pub open spec fn strictly_sorted(s: Seq<u32>) -> bool {
    forall|a: int, b: int| 0 <= a < b < s.len() ==> s[a] < s[b]
}

/// The grid point at hour `h` and minute `m`, in seconds from midnight.
pub open spec fn bucket_point(h: int, m: u32) -> int {
    h * 3600 + m * 60
}

/// `v` is a grid point of the report: some hour of the day combined
/// with one of the configured minute offsets.
pub open spec fn is_bucket_value(v: u32, minutes: Seq<u32>) -> bool {
    exists|h: int, j: int|
        0 <= h < 24 && 0 <= j < minutes.len() && v == #[trigger] bucket_point(h, minutes[j])
}

/// Keeps a vector of bucket values strictly sorted while adding one.
fn sorted_insert_unique(v: &mut Vec<u32>, x: u32)
    requires
        strictly_sorted(old(v)@),
    ensures
        strictly_sorted(final(v)@),
        forall|y: u32| #[trigger] final(v)@.contains(y) <==> (old(v)@.contains(y) || y == x),
{
    let n = v.len();
    let mut i: usize = 0;
    while i < n
        invariant
            i <= n,
            n == v@.len(),
            *v == *old(v),
            strictly_sorted(v@),
            forall|k: int| 0 <= k < i ==> v@[k] < x,
        decreases n - i,
    {
        if v[i] == x {
            proof {
                assert(v@.contains(x));
            }
            return ;
        }
        if v[i] > x {
            v.insert(i, x);
            proof {
                assert(forall|k: int| 0 <= k < i ==> v@[k] == old(v)@[k]);
                assert(v@[i as int] == x);
                assert(forall|k: int| i < k < v@.len() ==> v@[k] == old(v)@[k - 1]);
                assert(strictly_sorted(v@));
                assert forall|y: u32| #[trigger] v@.contains(y) implies (old(v)@.contains(y) || y
                    == x) by {
                    let k = choose|k: int| 0 <= k < v@.len() && v@[k] == y;
                    if k < i {
                        assert(old(v)@[k] == y);
                    } else if k > i {
                        assert(old(v)@[k - 1] == y);
                    }
                }
                assert forall|y: u32| (old(v)@.contains(y) || y == x) implies #[trigger] v@.contains(
                    y,
                ) by {
                    if old(v)@.contains(y) {
                        let k = choose|k: int| 0 <= k < old(v)@.len() && old(v)@[k] == y;
                        if k < i {
                            assert(v@[k] == y);
                        } else {
                            assert(v@[k + 1] == y);
                        }
                    } else {
                        assert(v@[i as int] == y);
                    }
                }
            }
            return ;
        }
        i += 1;
    }
    v.push(x);
    proof {
        assert(forall|k: int| 0 <= k < n ==> v@[k] == old(v)@[k]);
        assert(v@[n as int] == x);
        assert(strictly_sorted(v@));
        assert forall|y: u32| #[trigger] v@.contains(y) implies (old(v)@.contains(y) || y == x) by {
            let k = choose|k: int| 0 <= k < v@.len() && v@[k] == y;
            if k < n {
                assert(old(v)@[k] == y);
            }
        }
        assert forall|y: u32| (old(v)@.contains(y) || y == x) implies #[trigger] v@.contains(y) by {
            if old(v)@.contains(y) {
                let k = choose|k: int| 0 <= k < old(v)@.len() && old(v)@[k] == y;
                assert(v@[k] == y);
            } else {
                assert(v@[n as int] == y);
            }
        }
    }
}

/// The report's bucket grid for one day: every hour of the day crossed
/// with every configured minute offset, as seconds from midnight, in
/// ascending order without duplicates. The grid is generated fresh per
/// report run and does not persist.
pub fn generate_buckets(minutes: &Vec<u32>) -> (out: Vec<u32>)
    requires
        forall|j: int| 0 <= j < minutes@.len() ==> minutes@[j] < 60,
    ensures
        strictly_sorted(out@),
        forall|y: u32| #[trigger] out@.contains(y) <==> is_bucket_value(y, minutes@),
        forall|k: int| 0 <= k < out@.len() ==> out@[k] < 86400,
{
    let mut out: Vec<u32> = Vec::new();
    let m = minutes.len();
    let mut h: u32 = 0;
    while h < 24
        invariant
            h <= 24,
            m == minutes@.len(),
            forall|j: int| 0 <= j < minutes@.len() ==> minutes@[j] < 60,
            strictly_sorted(out@),
            forall|y: u32| #[trigger] out@.contains(y) <==> exists|hh: int, j: int|
                0 <= hh < h && 0 <= j < minutes@.len() && y == #[trigger] bucket_point(
                    hh,
                    minutes@[j],
                ),
        decreases 24 - h,
    {
        let mut j: usize = 0;
        while j < m
            invariant
                j <= m,
                h < 24,
                m == minutes@.len(),
                forall|jj: int| 0 <= jj < minutes@.len() ==> minutes@[jj] < 60,
                strictly_sorted(out@),
                forall|y: u32| #[trigger] out@.contains(y) <==> (exists|hh: int, jj: int|
                    0 <= hh < h && 0 <= jj < minutes@.len() && y == #[trigger] bucket_point(
                        hh,
                        minutes@[jj],
                    )) || (exists|jj: int|
                    0 <= jj < j && y == #[trigger] bucket_point(h as int, minutes@[jj])),
            decreases m - j,
        {
            let val = h * 3600 + minutes[j] * 60;
            let ghost out_before = out@;
            sorted_insert_unique(&mut out, val);
            proof {
                assert(val == bucket_point(h as int, minutes@[j as int]));
                assert forall|y: u32| #[trigger] out@.contains(y) implies ((exists|hh: int, jj: int|
                    0 <= hh < h && 0 <= jj < minutes@.len() && y == #[trigger] bucket_point(
                        hh,
                        minutes@[jj],
                    )) || (exists|jj: int|
                    0 <= jj < j + 1 && y == #[trigger] bucket_point(h as int, minutes@[jj]))) by {
                    if out_before.contains(y) {
                        if exists|jj: int|
                            0 <= jj < j && y == #[trigger] bucket_point(h as int, minutes@[jj]) {
                            let jj = choose|jj: int|
                                0 <= jj < j && y == #[trigger] bucket_point(
                                    h as int,
                                    minutes@[jj],
                                );
                            assert(0 <= jj < j + 1 && y == bucket_point(h as int, minutes@[jj]));
                        }
                    } else {
                        assert(y == val);
                        assert(0 <= j < j + 1 && y == bucket_point(h as int, minutes@[j as int]));
                    }
                }
                assert forall|y: u32| ((exists|hh: int, jj: int|
                    0 <= hh < h && 0 <= jj < minutes@.len() && y == #[trigger] bucket_point(
                        hh,
                        minutes@[jj],
                    )) || (exists|jj: int|
                    0 <= jj < j + 1 && y == #[trigger] bucket_point(h as int, minutes@[jj])))
                    implies #[trigger] out@.contains(y) by {
                    if exists|jj: int|
                        0 <= jj < j + 1 && y == #[trigger] bucket_point(h as int, minutes@[jj]) {
                        let jj = choose|jj: int|
                            0 <= jj < j + 1 && y == #[trigger] bucket_point(h as int, minutes@[jj]);
                        if jj == j {
                            assert(y == val);
                            assert(out@.contains(y));
                        } else {
                            assert(0 <= jj < j && y == bucket_point(h as int, minutes@[jj]));
                            assert(out_before.contains(y));
                        }
                    } else {
                        assert(out_before.contains(y));
                    }
                }
            }
            j += 1;
        }
        h += 1;
    }
    proof {
        assert forall|k: int| 0 <= k < out@.len() implies out@[k] < 86400 by {
            assert(out@.contains(out@[k]));
        }
    }
    out
}

// ---------------------------------------------------------------------
// Bucket membership
// ---------------------------------------------------------------------
/// The bucket assignment rule: a session overlaps bucket `b` iff
/// `start <= b < end` on the stored times of day. The stored span
/// already runs from the first observation to the padded activity
/// expiry, so a session may cover several consecutive buckets.
pub open spec fn overlaps_bucket(start: int, end: int, bucket: int) -> bool {
    start <= bucket < end
}

/// Decides the bucket assignment rule on seconds-from-midnight values.
pub fn session_in_bucket(start: u32, end: u32, bucket: u32) -> (r: bool)
    ensures
        r == overlaps_bucket(start as int, end as int, bucket as int),
{
    start <= bucket && bucket < end
}

// ---------------------------------------------------------------------
// Parsing stored rows for the report
// ---------------------------------------------------------------------
/// A session row together with its decoded times of day, the form the
/// bucketizer works on.
pub struct TimedWindow {
    pub win: Window,
    pub start_secs: u32,
    pub end_secs: u32,
}

/// The mathematical content of a `TimedWindow`.
#[verifier::ext_equal]
pub struct TimedView {
    pub win: WinView,
    pub start_secs: u32,
    pub end_secs: u32,
}

impl View for TimedWindow {
    type V = TimedView;

    open spec fn view(&self) -> TimedView {
        TimedView { win: self.win@, start_secs: self.start_secs, end_secs: self.end_secs }
    }
}

pub open spec fn tviews_of(ts: Seq<TimedWindow>) -> Seq<TimedView> {
    ts.map_values(|t: TimedWindow| t@)
}

/// Both timestamps of the row parse in the stored format.
pub open spec fn times_ok(w: WinView) -> bool {
    time_seconds_of(w.start_time, stored_ts_fmt()) is Some && time_seconds_of(
        w.end_time,
        stored_ts_fmt(),
    ) is Some
}

/// The decoded form of a row whose timestamps parse.
pub open spec fn timed_of(w: WinView) -> TimedView {
    TimedView {
        win: w,
        start_secs: time_seconds_of(w.start_time, stored_ts_fmt())->0,
        end_secs: time_seconds_of(w.end_time, stored_ts_fmt())->0,
    }
}

/// The decoded forms of a sequence of rows whose timestamps parse.
pub open spec fn timed_seq_of(ws: Seq<WinView>) -> Seq<TimedView> {
    ws.map_values(|w: WinView| timed_of(w))
}

/// The error a row with an unparsable timestamp produces.
pub open spec fn parse_error_of(w: WinView) -> ParseError {
    if time_seconds_of(w.start_time, stored_ts_fmt()) is None {
        ParseError::BadStartTime
    } else {
        ParseError::BadEndTime
    }
}

/// Decodes the time of day of every row's timestamps. A row that does
/// not parse aborts the whole report: the first such row (in stored
/// order) names the error, its start time taking precedence over its
/// end time.
pub fn parse_windows(windows: &Vec<Window>) -> (r: Result<Vec<TimedWindow>, ParseError>)
    ensures
        r is Ok <==> (forall|i: int|
            0 <= i < windows@.len() ==> times_ok(#[trigger] views_of(windows@)[i])),
        r matches Ok(ts) ==> tviews_of(ts@) == timed_seq_of(views_of(windows@)),
        r matches Err(e) ==> exists|i: int|
            {
                &&& 0 <= i < windows@.len()
                &&& !times_ok(#[trigger] views_of(windows@)[i])
                &&& e == parse_error_of(views_of(windows@)[i])
                &&& forall|k: int| 0 <= k < i ==> times_ok(views_of(windows@)[k])
            },
{
    let n = windows.len();
    let mut out: Vec<TimedWindow> = Vec::new();
    let mut i: usize = 0;
    while i < n
        invariant
            i <= n,
            n == windows@.len(),
            forall|k: int| 0 <= k < i ==> times_ok(#[trigger] views_of(windows@)[k]),
            tviews_of(out@) == timed_seq_of(views_of(windows@).take(i as int)),
        decreases n - i,
    {
        let w = &windows[i];
        proof {
            assert(views_of(windows@)[i as int] == w@);
        }
        let start_secs = match parse_stored_timestamp(w.start_time.as_str()) {
            Some(v) => v,
            None => {
                proof {
                    let ghost wi = views_of(windows@)[i as int];
                    assert(!times_ok(wi));
                    assert(parse_error_of(wi) == ParseError::BadStartTime);
                }
                return Err(ParseError::BadStartTime);
            },
        };
        let end_secs = match parse_stored_timestamp(w.end_time.as_str()) {
            Some(v) => v,
            None => {
                proof {
                    let ghost wi = views_of(windows@)[i as int];
                    assert(!times_ok(wi));
                    assert(parse_error_of(wi) == ParseError::BadEndTime);
                }
                return Err(ParseError::BadEndTime);
            },
        };
        let ghost out_before = out@;
        out.push(TimedWindow { win: w.clone(), start_secs, end_secs });
        proof {
            let ghost ws = views_of(windows@);
            assert(out_before.len() == tviews_of(out_before).len());
            assert forall|k: int| 0 <= k < i implies tviews_of(out@)[k] == timed_seq_of(
                ws.take(i + 1),
            )[k] by {
                assert(out@[k] == out_before[k]);
                assert(tviews_of(out_before)[k] == timed_seq_of(ws.take(i as int))[k]);
                assert(ws.take(i + 1)[k] == ws.take(i as int)[k]);
            }
            assert(ws.take(i + 1)[i as int] == w@);
            assert(out@[i as int]@ == timed_of(w@));
            assert(tviews_of(out@) =~= timed_seq_of(ws.take(i + 1)));
        }
        i += 1;
    }
    proof {
        assert(views_of(windows@).take(n as int) =~= views_of(windows@));
    }
    Ok(out)
}

// ---------------------------------------------------------------------
// Column-stable row ordering
// ---------------------------------------------------------------------
/// The windows of one bucket arranged by the column-stability rule:
/// walking the previous row's columns in order, a title still present
/// keeps its column (and the previous row's entry is re-emitted for
/// it); a dropped title's column is filled with the first leftover
/// window; when nothing is left the row simply has fewer columns.
/// Leftover windows follow in their original order.
pub open spec fn ordered_row(prev: Seq<WinView>, cur: Seq<WinView>) -> Seq<WinView>
    decreases prev.len(),
{
    if cur.len() == 0 {
        Seq::empty()
    } else if prev.len() == 0 {
        cur
    } else {
        let i = title_index(cur, prev[0].title);
        if i >= 0 {
            seq![prev[0]] + ordered_row(prev.skip(1), cur.remove(i))
        } else {
            seq![cur[0]] + ordered_row(prev.skip(1), cur.skip(1))
        }
    }
}

/// A title that occurs in `cur` somewhere other than the removed
/// position still occurs after the removal.
proof fn lemma_title_survives_remove(cur: Seq<WinView>, i: int, t: Seq<char>)
    requires
        0 <= i < cur.len(),
        cur[i].title != t,
        title_index(cur, t) >= 0,
    ensures
        title_index(cur.remove(i), t) >= 0,
{
    crate::stitcher::lemma_title_index_props(cur, t);
    let l = title_index(cur, t);
    assert(cur[l].title == t);
    let r = cur.remove(i);
    cur.remove_ensures(i);
    crate::stitcher::lemma_title_index_props(r, t);
    if title_index(r, t) == -1 {
        if l < i {
            assert(r[l] == cur[l]);
        } else {
            assert(r[l - 1] == cur[l]);
        }
        assert(false);
    }
}

/// The column-stability law: as long as every title of the previous row
/// is still present (and the previous row's titles are distinct, as
/// rendered rows are), each title keeps its column: the first columns
/// of the new row carry the previous row's titles in the same order,
/// and the leftover columns follow.
pub proof fn lemma_columns_stable(prev: Seq<WinView>, cur: Seq<WinView>)
    requires
        forall|a: int, b: int| 0 <= a < b < prev.len() ==> prev[a].title != prev[b].title,
        forall|k: int| 0 <= k < prev.len() ==> title_index(cur, #[trigger] prev[k].title) >= 0,
    ensures
        prev.len() <= cur.len(),
        ordered_row(prev, cur).len() == cur.len(),
        forall|k: int|
            0 <= k < prev.len() ==> #[trigger] ordered_row(prev, cur)[k].title == prev[k].title,
    decreases prev.len(),
{
    if prev.len() == 0 {
    } else {
        assert(title_index(cur, prev[0].title) >= 0);
        crate::stitcher::lemma_title_index_props(cur, prev[0].title);
        let i = title_index(cur, prev[0].title);
        assert(0 <= i < cur.len());
        assert(cur[i].title == prev[0].title);
        let rest = cur.remove(i);
        cur.remove_ensures(i);
        assert forall|a: int, b: int| 0 <= a < b < prev.skip(1).len() implies prev.skip(1)[a].title
            != prev.skip(1)[b].title by {
            assert(prev.skip(1)[a] == prev[a + 1]);
            assert(prev.skip(1)[b] == prev[b + 1]);
        }
        assert forall|k: int| 0 <= k < prev.skip(1).len() implies title_index(
            rest,
            #[trigger] prev.skip(1)[k].title,
        ) >= 0 by {
            assert(prev.skip(1)[k] == prev[k + 1]);
            assert(prev[k + 1].title != prev[0].title);
            assert(title_index(cur, prev[k + 1].title) >= 0);
            lemma_title_survives_remove(cur, i, prev[k + 1].title);
        }
        lemma_columns_stable(prev.skip(1), rest);
        let row = ordered_row(prev, cur);
        assert(row == seq![prev[0]] + ordered_row(prev.skip(1), rest));
        assert forall|k: int| 0 <= k < prev.len() implies #[trigger] row[k].title == prev[k].title
            by {
            if k > 0 {
                assert(row[k] == ordered_row(prev.skip(1), rest)[k - 1]);
                assert(ordered_row(prev.skip(1), rest)[k - 1].title == prev.skip(1)[k - 1].title);
                assert(prev.skip(1)[k - 1] == prev[k]);
            }
        }
    }
}

/// First position of a window with this title, if any.
fn find_title(v: &Vec<Window>, title: &String) -> (r: Option<usize>)
    ensures
        match r {
            Some(i) => i as int == title_index(views_of(v@), title@) && i < v@.len(),
            None => title_index(views_of(v@), title@) == -1,
        },
{
    let n = v.len();
    let mut i: usize = 0;
    while i < n
        invariant
            i <= n,
            n == v@.len(),
            forall|k: int| 0 <= k < i ==> views_of(v@)[k].title != title@,
        decreases n - i,
    {
        if v[i].title == *title {
            proof {
                lemma_title_index_at(views_of(v@), title@, i as int);
            }
            return Some(i);
        }
        i += 1;
    }
    proof {
        lemma_title_index_none(views_of(v@), title@);
    }
    None
}

/// Arranges one bucket's windows into a row whose columns line up with
/// the previous rendered row wherever a title persists.
pub fn order_row(previous: &Vec<Window>, current: Vec<Window>) -> (out: Vec<Window>)
    ensures
        views_of(out@) == ordered_row(views_of(previous@), views_of(current@)),
{
    let ghost goal = ordered_row(views_of(previous@), views_of(current@));
    let mut remaining = current;
    let mut out: Vec<Window> = Vec::new();
    let np = previous.len();
    let mut k: usize = 0;
    proof {
        assert(views_of(out@) =~= Seq::<WinView>::empty());
        assert(views_of(previous@).skip(0) =~= views_of(previous@));
    }
    while k < np && remaining.len() > 0
        invariant
            k <= np,
            np == previous@.len(),
            goal == views_of(out@) + ordered_row(
                views_of(previous@).skip(k as int),
                views_of(remaining@),
            ),
        decreases np - k,
    {
        proof {
            assert(views_of(previous@).skip(k as int)[0] == views_of(previous@)[k as int]);
            assert(views_of(previous@).skip(k as int).skip(1) =~= views_of(previous@).skip(k + 1));
        }
        let ghost out_before = out@;
        let ghost rem_before = remaining@;
        match find_title(&remaining, &previous[k].title) {
            Some(i) => {
                out.push(previous[k].clone());
                let _ = remaining.remove(i);
                proof {
                    assert(views_of(remaining@) =~= views_of(rem_before).remove(i as int));
                    assert(views_of(out@) =~= views_of(out_before).push(
                        views_of(previous@)[k as int],
                    ));
                    assert(views_of(out_before) + (seq![views_of(previous@)[k as int]]
                        + ordered_row(
                        views_of(previous@).skip(k + 1),
                        views_of(remaining@),
                    )) =~= views_of(out@) + ordered_row(
                        views_of(previous@).skip(k + 1),
                        views_of(remaining@),
                    ));
                }
            },
            None => {
                let moved = remaining.remove(0);
                out.push(moved);
                proof {
                    assert(views_of(remaining@) =~= views_of(rem_before).skip(1));
                    assert(views_of(out@) =~= views_of(out_before).push(views_of(rem_before)[0]));
                    assert(views_of(out_before) + (seq![views_of(rem_before)[0]] + ordered_row(
                        views_of(previous@).skip(k + 1),
                        views_of(remaining@),
                    )) =~= views_of(out@) + ordered_row(
                        views_of(previous@).skip(k + 1),
                        views_of(remaining@),
                    ));
                }
            },
        }
        k += 1;
    }
    proof {
        if remaining@.len() == 0 {
            assert(views_of(remaining@).len() == 0);
        } else {
            assert(k == np);
            assert(views_of(previous@).skip(np as int) =~= Seq::<WinView>::empty());
        }
    }
    out.append(&mut remaining);
    proof {
        assert(views_of(out@) =~= goal);
    }
    out
}

// ---------------------------------------------------------------------
// Rendering
// ---------------------------------------------------------------------
/// The terminal color marker for a category id; ids past the palette
/// fall back to white.
pub open spec fn color_prefix(c: u8) -> Seq<char> {
    if c == 0 {
        ("\u{1b}[31m")@
    } else if c == 1 {
        ("\u{1b}[32m")@
    } else if c == 2 {
        ("\u{1b}[33m")@
    } else if c == 3 {
        ("\u{1b}[34m")@
    } else if c == 4 {
        ("\u{1b}[35m")@
    } else if c == 5 {
        ("\u{1b}[36m")@
    } else {
        ("\u{1b}[37m")@
    }
}

/// The marker that switches the terminal color back off.
pub open spec fn color_reset() -> Seq<char> {
    ("\u{1b}[0m")@
}

/// One rendered cell: vertical bars replaced, the title cut or padded
/// to exactly `width` codepoints, and, when the session is categorized,
/// the cell wrapped in its category's color markers.
pub open spec fn formatted_title(title: Seq<char>, category: Option<u8>, width: nat) -> Seq<char> {
    let cell = forced_to_length(bars_replaced(title), width);
    match category {
        Some(c) => color_prefix(c) + cell + color_reset(),
        None => cell,
    }
}

/// Renders one title for its table cell.
pub fn format_window_title(title: String, category: Option<u8>, width: usize) -> (r: String)
    ensures
        r@ == formatted_title(title@, category, width as nat),
{
    let cleaned = force_length(replace_bars(title.as_str()), width);
    match category {
        Some(c) => {
            let color: &str = if c == 0 {
                "\u{1b}[31m"
            } else if c == 1 {
                "\u{1b}[32m"
            } else if c == 2 {
                "\u{1b}[33m"
            } else if c == 3 {
                "\u{1b}[34m"
            } else if c == 4 {
                "\u{1b}[35m"
            } else if c == 5 {
                "\u{1b}[36m"
            } else {
                "\u{1b}[37m"
            };
            let mut r = String::from_str(color);
            r.append(cleaned.as_str());
            r.append("\u{1b}[0m");
            proof {
                assert(r@ =~= formatted_title(title@, category, width as nat));
            }
            r
        },
        None => cleaned,
    }
}

/// The cells of one row, each preceded by the column separator.
pub open spec fn row_cells(items: Seq<WinView>, width: nat) -> Seq<char>
    decreases items.len(),
{
    if items.len() == 0 {
        Seq::<char>::empty()
    } else {
        row_cells(items.drop_last(), width) + (" | ")@ + formatted_title(
            items.last().title,
            items.last().category,
            width,
        )
    }
}

/// One rendered report row: the bucket's "HH:MM" label followed by the
/// row's cells.
pub open spec fn rendered_row(bucket: int, items: Seq<WinView>, width: nat) -> Seq<char> {
    hhmm_of(bucket) + row_cells(items, width)
}

/// Renders one report row.
pub fn render_row(bucket: u32, items: &Vec<Window>, width: usize) -> (r: String)
    requires
        bucket < 86400,
    ensures
        r@ == rendered_row(bucket as int, views_of(items@), width as nat),
{
    let mut r = format_hhmm(bucket);
    let n = items.len();
    let mut i: usize = 0;
    proof {
        assert(views_of(items@).take(0) =~= Seq::<WinView>::empty());
        assert(r@ =~= rendered_row(bucket as int, views_of(items@).take(0), width as nat));
    }
    while i < n
        invariant
            i <= n,
            n == items@.len(),
            bucket < 86400,
            r@ == rendered_row(bucket as int, views_of(items@).take(i as int), width as nat),
        decreases n - i,
    {
        r.append(" | ");
        let cell = format_window_title(items[i].title.clone(), items[i].category, width);
        r.append(cell.as_str());
        proof {
            assert(views_of(items@).take(i + 1).drop_last() =~= views_of(items@).take(i as int));
            assert(views_of(items@).take(i + 1).last() == views_of(items@)[i as int]);
            assert(r@ =~= rendered_row(bucket as int, views_of(items@).take(i + 1), width as nat));
        }
        i += 1;
    }
    proof {
        assert(views_of(items@).take(n as int) =~= views_of(items@));
    }
    r
}

// ---------------------------------------------------------------------
// The full report
// ---------------------------------------------------------------------
/// The windows a bucket collects, in stored order.
pub open spec fn bucket_windows(timed: Seq<TimedView>, bucket: int) -> Seq<WinView>
    decreases timed.len(),
{
    if timed.len() == 0 {
        Seq::empty()
    } else {
        let rest = bucket_windows(timed.drop_last(), bucket);
        let t = timed.last();
        if overlaps_bucket(t.start_secs as int, t.end_secs as int, bucket) {
            rest.push(t.win)
        } else {
            rest
        }
    }
}

/// Collects the windows whose stored span covers one bucket.
fn windows_in_bucket(timed: &Vec<TimedWindow>, bucket: u32) -> (out: Vec<Window>)
    ensures
        views_of(out@) == bucket_windows(tviews_of(timed@), bucket as int),
{
    let n = timed.len();
    let mut out: Vec<Window> = Vec::new();
    let mut i: usize = 0;
    proof {
        assert(tviews_of(timed@).take(0) =~= Seq::<TimedView>::empty());
        assert(views_of(out@) =~= bucket_windows(tviews_of(timed@).take(0), bucket as int));
    }
    while i < n
        invariant
            i <= n,
            n == timed@.len(),
            views_of(out@) == bucket_windows(tviews_of(timed@).take(i as int), bucket as int),
        decreases n - i,
    {
        let t = &timed[i];
        proof {
            assert(tviews_of(timed@).take(i + 1).drop_last() =~= tviews_of(timed@).take(i as int));
            assert(tviews_of(timed@).take(i + 1).last() == tviews_of(timed@)[i as int]);
        }
        if session_in_bucket(t.start_secs, t.end_secs, bucket) {
            out.push(t.win.clone());
            proof {
                assert(views_of(out@) =~= bucket_windows(
                    tviews_of(timed@).take(i + 1),
                    bucket as int,
                ));
            }
        } else {
            proof {
                assert(views_of(out@) =~= bucket_windows(
                    tviews_of(timed@).take(i + 1),
                    bucket as int,
                ));
            }
        }
        i += 1;
    }
    proof {
        assert(tviews_of(timed@).take(n as int) =~= tviews_of(timed@));
    }
    out
}

/// The views of a sequence of rendered lines.
pub open spec fn string_views(ss: Seq<String>) -> Seq<Seq<char>> {
    ss.map_values(|s: String| s@)
}

/// The rendered rows from one bucket onward, given the previous
/// non-empty row. A bucket that collects no windows is skipped without
/// becoming the previous row, so column stability carries across gaps.
pub open spec fn report_rec(
    timed: Seq<TimedView>,
    buckets: Seq<u32>,
    width: nat,
    prev: Seq<WinView>,
) -> Seq<Seq<char>>
    decreases buckets.len(),
{
    if buckets.len() == 0 {
        Seq::empty()
    } else {
        let cur = bucket_windows(timed, buckets[0] as int);
        if cur.len() == 0 {
            report_rec(timed, buckets.skip(1), width, prev)
        } else {
            let row = ordered_row(prev, cur);
            seq![rendered_row(buckets[0] as int, row, width)] + report_rec(
                timed,
                buckets.skip(1),
                width,
                row,
            )
        }
    }
}

/// Every rendered row of the report, in bucket order.
pub open spec fn report_rows(timed: Seq<TimedView>, buckets: Seq<u32>, width: nat) -> Seq<
    Seq<char>,
> {
    report_rec(timed, buckets, width, Seq::empty())
}

/// Renders the day's timeline: every session is assigned to each bucket
/// its stored span covers, empty buckets are skipped (without
/// resetting column stability), and each remaining bucket becomes one
/// row whose columns line up with the previous row. A session whose
/// stored timestamps do not parse aborts the whole render.
pub fn render_report(windows: &Vec<Window>, buckets: &Vec<u32>, width: usize) -> (r: Result<
    Vec<String>,
    ParseError,
>)
    requires
        forall|b: int| 0 <= b < buckets@.len() ==> buckets@[b] < 86400,
    ensures
        r is Ok <==> (forall|i: int|
            0 <= i < windows@.len() ==> times_ok(#[trigger] views_of(windows@)[i])),
        r matches Ok(rows) ==> ({
            let expected = report_rows(timed_seq_of(views_of(windows@)), buckets@, width as nat);
            rows@.len() == expected.len() && forall|i: int|
                0 <= i < expected.len() ==> #[trigger] rows@[i]@ == expected[i]
        }),
        r matches Err(e) ==> exists|i: int|
            {
                &&& 0 <= i < windows@.len()
                &&& !times_ok(#[trigger] views_of(windows@)[i])
                &&& e == parse_error_of(views_of(windows@)[i])
                &&& forall|k: int| 0 <= k < i ==> times_ok(views_of(windows@)[k])
            },
{
    let timed = match parse_windows(windows) {
        Ok(t) => t,
        Err(e) => {
            return Err(e);
        },
    };
    let ghost tv = tviews_of(timed@);
    let ghost expected = report_rows(tv, buckets@, width as nat);
    let mut prev: Vec<Window> = Vec::new();
    let mut out: Vec<String> = Vec::new();
    let nb = buckets.len();
    let mut k: usize = 0;
    proof {
        assert(string_views(out@) =~= Seq::<Seq<char>>::empty());
        assert(views_of(prev@) =~= Seq::<WinView>::empty());
        assert(buckets@.skip(0) =~= buckets@);
        assert(string_views(out@) + report_rec(tv, buckets@.skip(0), width as nat, views_of(prev@))
            =~= expected);
    }
    while k < nb
        invariant
            k <= nb,
            nb == buckets@.len(),
            tv == tviews_of(timed@),
            forall|b: int| 0 <= b < buckets@.len() ==> buckets@[b] < 86400,
            expected == string_views(out@) + report_rec(
                tv,
                buckets@.skip(k as int),
                width as nat,
                views_of(prev@),
            ),
        decreases nb - k,
    {
        let b = buckets[k];
        let cur = windows_in_bucket(&timed, b);
        proof {
            assert(buckets@.skip(k as int)[0] == buckets@[k as int]);
            assert(buckets@.skip(k as int).skip(1) =~= buckets@.skip(k + 1));
        }
        if cur.len() == 0 {
            proof {
                assert(views_of(cur@).len() == 0);
            }
        } else {
            let ghost out_before = out@;
            let row = order_row(&prev, cur);
            let line = render_row(b, &row, width);
            out.push(line);
            prev = row;
            proof {
                assert(string_views(out@) =~= string_views(out_before).push(out@.last()@));
                assert(string_views(out_before) + (seq![out@.last()@] + report_rec(
                    tv,
                    buckets@.skip(k + 1),
                    width as nat,
                    views_of(prev@),
                )) =~= string_views(out@) + report_rec(
                    tv,
                    buckets@.skip(k + 1),
                    width as nat,
                    views_of(prev@),
                ));
            }
        }
        k += 1;
    }
    proof {
        assert(buckets@.skip(nb as int) =~= Seq::<u32>::empty());
        assert(string_views(out@) =~= expected);
    }
    Ok(out)
}

} // verus!
