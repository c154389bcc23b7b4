use vstd::prelude::*;

verus! {

/// What `str::to_lowercase` returns: a function of the characters alone.
pub uninterp spec fn lower_of(s: Seq<char>) -> Seq<char>;

/// Relies on `str::to_lowercase`: the lowercase form of a string depends
/// on its characters alone.
#[verifier::external_body]
pub(crate) fn lowercase(s: &str) -> (r: String)
    ensures
        r@ == lower_of(s@),
{
    s.to_lowercase()
}

/// `needle` occurs in `hay` starting at position `i`.
pub open spec fn occurs_at(hay: Seq<char>, needle: Seq<char>, i: int) -> bool {
    0 <= i && i + needle.len() <= hay.len() && hay.subrange(i, i + needle.len()) == needle
}

/// `needle` occurs somewhere in `hay`.
pub open spec fn is_substring(hay: Seq<char>, needle: Seq<char>) -> bool {
    exists|i: int| occurs_at(hay, needle, i)
}

/// Substring search over characters, the rule category matching uses.
pub fn contains_substring(hay: &str, needle: &str) -> (r: bool)
    ensures
        r == is_substring(hay@, needle@),
{
    let hlen = hay.unicode_len();
    let nlen = needle.unicode_len();
    if nlen > hlen {
        proof {
            assert(forall|i: int| !occurs_at(hay@, needle@, i));
        }
        return false;
    }
    if nlen == 0 {
        proof {
            assert(hay@.subrange(0, 0) =~= needle@);
            assert(occurs_at(hay@, needle@, 0));
        }
        return true;
    }
    let mut i: usize = 0;
    while i <= hlen - nlen
        invariant
            0 < nlen <= hlen,
            i <= hlen - nlen + 1,
            hlen == hay@.len(),
            nlen == needle@.len(),
            forall|k: int| 0 <= k < i ==> !occurs_at(hay@, needle@, k),
        decreases hlen - nlen + 1 - i,
    {
        let mut j: usize = 0;
        let mut is_match = true;
        while j < nlen && is_match
            invariant
                j <= nlen,
                i + nlen <= hlen,
                hlen == hay@.len(),
                nlen == needle@.len(),
                is_match ==> forall|l: int| 0 <= l < j ==> hay@[i + l] == needle@[l],
                !is_match ==> !occurs_at(hay@, needle@, i as int),
            decreases nlen - j + (if is_match {
                1int
            } else {
                0int
            }),
    {
            if hay.get_char(i + j) != needle.get_char(j) {
                proof {
                    assert(hay@.subrange(i as int, i + nlen)[j as int] == hay@[i + j]);
                }
                is_match = false;
            } else {
                j += 1;
            }
        }
        if is_match {
            proof {
                assert(hay@.subrange(i as int, i + nlen) =~= needle@);
                assert(occurs_at(hay@, needle@, i as int));
            }
            return true;
        }
        i += 1;
    }
    proof {
        assert forall|k: int| !occurs_at(hay@, needle@, k) by {
            if k >= i {
                assert(k + needle@.len() > hay@.len());
            }
        }
    }
    false
}

/// A character as it appears in a rendered cell: both the ASCII and the
/// fullwidth vertical bar become '-', so titles cannot break the table's
/// column separators; everything else is kept.
pub open spec fn bar_replaced(c: char) -> char {
    if c == '|' || c == '\u{ff5c}' {
        '-'
    } else {
        c
    }
}

pub open spec fn bars_replaced(s: Seq<char>) -> Seq<char> {
    s.map_values(|c: char| bar_replaced(c))
}

/// Replaces every vertical-bar character of `s` with '-'.
pub fn replace_bars(s: &str) -> (r: String)
    ensures
        r@ == bars_replaced(s@),
{
    let len = s.unicode_len();
    let mut out = String::new();
    let mut i: usize = 0;
    while i < len
        invariant
            i <= len,
            len == s@.len(),
            out@ == bars_replaced(s@.take(i as int)),
        decreases len - i,
    {
        let c = s.get_char(i);
        if c == '|' || c == '\u{ff5c}' {
            out.append("-");
            proof {
                reveal_strlit("-");
                assert(out@ =~= bars_replaced(s@.take(i + 1)));
            }
        } else {
            let piece = s.substring_char(i, i + 1);
            out.append(piece);
            proof {
                assert(out@ =~= bars_replaced(s@.take(i + 1)));
            }
        }
        i += 1;
    }
    proof {
        assert(s@.take(len as int) =~= s@);
    }
    out
}

/// `s` truncated, or right-padded with spaces, to exactly `length`
/// characters (counted in codepoints).
pub open spec fn forced_to_length(s: Seq<char>, length: nat) -> Seq<char> {
    if s.len() >= length {
        s.take(length as int)
    } else {
        s + Seq::new((length - s.len()) as nat, |k: int| ' ')
    }
}

/// Truncates or pads `string` so the result renders in exactly `length`
/// columns of the report table.
pub fn force_length(string: String, length: usize) -> (r: String)
    ensures
        r@ == forced_to_length(string@, length as nat),
        r@.len() == length,
{
    let n = string.as_str().unicode_len();
    if n > length {
        let cut = string.as_str().substring_char(0, length);
        let r = String::from_str(cut);
        proof {
            assert(r@ =~= forced_to_length(string@, length as nat));
        }
        r
    } else if n < length {
        let mut r = string.clone();
        let mut i: usize = n;
        while i < length
            invariant
                n <= i <= length,
                string@.len() == n,
                r@ == string@ + Seq::new((i - n) as nat, |k: int| ' '),
            decreases length - i,
        {
            r.append(" ");
            proof {
                reveal_strlit(" ");
                assert(string@ + Seq::new((i + 1 - n) as nat, |k: int| ' ') =~= (string@
                    + Seq::new((i - n) as nat, |k: int| ' ')) + (" ")@);
            }
            i += 1;
        }
        proof {
            assert(string@ + Seq::new((length - n) as nat, |k: int| ' ') =~= forced_to_length(
                string@,
                length as nat,
            ));
        }
        r
    } else {
        proof {
            assert(string@ =~= forced_to_length(string@, length as nat));
        }
        string
    }
}

/// The decimal digit character for `d`.
pub open spec fn digit_char(d: int) -> char {
    if d == 0 {
        '0'
    } else if d == 1 {
        '1'
    } else if d == 2 {
        '2'
    } else if d == 3 {
        '3'
    } else if d == 4 {
        '4'
    } else if d == 5 {
        '5'
    } else if d == 6 {
        '6'
    } else if d == 7 {
        '7'
    } else if d == 8 {
        '8'
    } else {
        '9'
    }
}

/// A seconds-from-midnight value rendered as a zero-padded "HH:MM" label.
pub open spec fn hhmm_of(secs: int) -> Seq<char> {
    let h = secs / 3600;
    let m = (secs % 3600) / 60;
    seq![digit_char(h / 10), digit_char(h % 10), ':', digit_char(m / 10), digit_char(m % 10)]
}

fn digit_str(d: u32) -> (r: &'static str)
    requires
        d < 10,
    ensures
        r@ == seq![digit_char(d as int)],
{
    proof {
        reveal_strlit("0");
        reveal_strlit("1");
        reveal_strlit("2");
        reveal_strlit("3");
        reveal_strlit("4");
        reveal_strlit("5");
        reveal_strlit("6");
        reveal_strlit("7");
        reveal_strlit("8");
        reveal_strlit("9");
    }
    let r = if d == 0 {
        "0"
    } else if d == 1 {
        "1"
    } else if d == 2 {
        "2"
    } else if d == 3 {
        "3"
    } else if d == 4 {
        "4"
    } else if d == 5 {
        "5"
    } else if d == 6 {
        "6"
    } else if d == 7 {
        "7"
    } else if d == 8 {
        "8"
    } else {
        "9"
    };
    proof {
        assert(r@ =~= seq![digit_char(d as int)]);
    }
    r
}

/// Renders a bucket's seconds-from-midnight value as its "HH:MM" row label.
pub fn format_hhmm(secs: u32) -> (r: String)
    requires
        secs < 86400,
    ensures
        r@ == hhmm_of(secs as int),
{
    let h = secs / 3600;
    let m = (secs % 3600) / 60;
    assert(h < 24);
    assert(m < 60);
    let mut out = String::from_str(digit_str(h / 10));
    out.append(digit_str(h % 10));
    out.append(":");
    out.append(digit_str(m / 10));
    out.append(digit_str(m % 10));
    proof {
        reveal_strlit(":");
        assert(out@ =~= hhmm_of(secs as int));
    }
    out
}

} // verus!
