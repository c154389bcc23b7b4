use vstd::prelude::*;

verus! {

/// A stored contiguous interval of one window title's observed activity.
///
/// `start_time` and `end_time` are timestamp strings with sub-second
/// precision and a UTC-offset suffix; `end_time` is a provisional
/// "activity expiry", a fixed horizon past the last tick at which the
/// title was observed. `category` is an optional user-defined bucket id;
/// `None` means uncategorized. `id` is storage-assigned and opaque.
pub struct Window {
    pub id: u32,
    pub title: String,
    pub start_time: String,
    pub end_time: String,
    pub category: Option<u8>,
}

/// The mathematical content of a `Window`.
#[verifier::ext_equal]
pub struct WinView {
    pub id: u32,
    pub title: Seq<char>,
    pub start_time: Seq<char>,
    pub end_time: Seq<char>,
    pub category: Option<u8>,
}

impl View for Window {
    type V = WinView;

    open spec fn view(&self) -> WinView {
        WinView {
            id: self.id,
            title: self.title@,
            start_time: self.start_time@,
            end_time: self.end_time@,
            category: self.category,
        }
    }
}

/// Length of the longest prefix of `s` that holds no NUL character.
pub open spec fn nul_free_prefix_len(s: Seq<char>) -> nat
    decreases s.len(),
{
    if s.len() == 0 || s[0] == '\0' {
        0
    } else {
        1 + nul_free_prefix_len(s.skip(1))
    }
}

/// A title normalized for storage: cut at the first embedded NUL.
pub open spec fn nul_truncated(s: Seq<char>) -> Seq<char> {
    s.take(nul_free_prefix_len(s) as int)
}

pub proof fn lemma_nul_free_prefix_len(s: Seq<char>)
    ensures
        nul_free_prefix_len(s) <= s.len(),
        forall|j: int| 0 <= j < nul_free_prefix_len(s) ==> s[j] != '\0',
        nul_free_prefix_len(s) < s.len() ==> s[nul_free_prefix_len(s) as int] == '\0',
    decreases s.len(),
{
    if s.len() == 0 || s[0] == '\0' {
    } else {
        lemma_nul_free_prefix_len(s.skip(1));
        assert forall|j: int| 0 <= j < nul_free_prefix_len(s) implies s[j] != '\0' by {
            if j > 0 {
                assert(s.skip(1)[j - 1] != '\0');
            }
        }
        if nul_free_prefix_len(s) < s.len() {
            assert(s.skip(1)[nul_free_prefix_len(s) as int - 1] == '\0');
        }
    }
}

/// The NUL-free prefix length is the unique cut point: everything before
/// it is NUL-free and, unless the whole string is, a NUL sits right at it.
pub proof fn lemma_nul_prefix_len_unique(s: Seq<char>, i: int)
    requires
        0 <= i <= s.len(),
        forall|j: int| 0 <= j < i ==> s[j] != '\0',
        i < s.len() ==> s[i] == '\0',
    ensures
        nul_free_prefix_len(s) == i,
    decreases s.len(),
{
    if i == 0 {
    } else {
        assert(s[0] != '\0');
        assert forall|j: int| 0 <= j < i - 1 implies s.skip(1)[j] != '\0' by {
            assert(s.skip(1)[j] == s[j + 1]);
        }
        if i - 1 < s.skip(1).len() {
            assert(s.skip(1)[i - 1] == s[i]);
        }
        lemma_nul_prefix_len_unique(s.skip(1), i - 1);
    }
}

/// Length of the NUL-free prefix, computed over the characters of `s`.
fn nul_prefix_len_exec(s: &str) -> (n: usize)
    ensures
        n == nul_free_prefix_len(s@),
{
    let len = s.unicode_len();
    let mut i: usize = 0;
    while i < len
        invariant
            i <= len,
            len == s@.len(),
            forall|j: int| 0 <= j < i ==> s@[j] != '\0',
        decreases len - i,
    {
        if s.get_char(i) == '\0' {
            proof {
                lemma_nul_prefix_len_unique(s@, i as int);
            }
            return i;
        }
        i += 1;
    }
    proof {
        lemma_nul_prefix_len_unique(s@, len as int);
    }
    len
}

/// A control character: the C0 range, DEL, and the C1 range.
pub open spec fn is_control(c: char) -> bool {
    c <= '\u{1f}' || ('\u{7f}' <= c && c <= '\u{9f}')
}

/// `s` trimmed of leading and trailing control characters.
pub open spec fn control_trimmed(s: Seq<char>) -> Seq<char>
    decreases s.len(),
{
    if s.len() == 0 {
        s
    } else if is_control(s[0]) {
        control_trimmed(s.skip(1))
    } else if is_control(s.last()) {
        control_trimmed(s.drop_last())
    } else {
        s
    }
}

/// A title normalized for storage: cut at the first embedded NUL, then
/// trimmed of control characters at both ends.
pub open spec fn normalized_title(s: Seq<char>) -> Seq<char> {
    control_trimmed(nul_truncated(s))
}

/// A string of control characters alone trims to nothing.
proof fn lemma_control_trimmed_all(s: Seq<char>)
    requires
        forall|i: int| 0 <= i < s.len() ==> is_control(s[i]),
    ensures
        control_trimmed(s) == Seq::<char>::empty(),
    decreases s.len(),
{
    if s.len() == 0 {
        assert(s =~= Seq::<char>::empty());
    } else {
        assert(forall|i: int| 0 <= i < s.skip(1).len() ==> is_control(s.skip(1)[i]));
        lemma_control_trimmed_all(s.skip(1));
    }
}

/// Trimming is the cut at the outermost non-control characters.
proof fn lemma_control_trimmed_is_subrange(s: Seq<char>, a: int, b: int)
    requires
        0 <= a < b <= s.len(),
        forall|i: int| 0 <= i < a ==> is_control(s[i]),
        forall|i: int| b <= i < s.len() ==> is_control(s[i]),
        !is_control(s[a]),
        !is_control(s[b - 1]),
    ensures
        control_trimmed(s) == s.subrange(a, b),
    decreases s.len(),
{
    if a > 0 {
        assert(forall|i: int| 0 <= i < s.skip(1).len() ==> s.skip(1)[i] == s[i + 1]);
        lemma_control_trimmed_is_subrange(s.skip(1), a - 1, b - 1);
        assert(s.skip(1).subrange(a - 1, b - 1) =~= s.subrange(a, b));
    } else if b < s.len() {
        assert(is_control(s.last()));
        assert(forall|i: int| 0 <= i < s.drop_last().len() ==> s.drop_last()[i] == s[i]);
        lemma_control_trimmed_is_subrange(s.drop_last(), a, b);
        assert(s.drop_last().subrange(a, b) =~= s.subrange(a, b));
    } else {
        assert(!is_control(s[0]));
        assert(!is_control(s.last()));
        assert(s.subrange(0, s.len() as int) =~= s);
    }
}

/// Whether a character is a control character.
fn is_control_exec(c: char) -> (r: bool)
    ensures
        r == is_control(c),
{
    c <= '\u{1f}' || ('\u{7f}' <= c && c <= '\u{9f}')
}

/// Trims leading and trailing control characters from `s`.
fn trim_control(s: &str) -> (r: String)
    ensures
        r@ == control_trimmed(s@),
{
    let len = s.unicode_len();
    let mut a: usize = 0;
    while a < len && is_control_exec(s.get_char(a))
        invariant
            a <= len,
            len == s@.len(),
            forall|i: int| 0 <= i < a ==> is_control(s@[i]),
        decreases len - a,
    {
        a += 1;
    }
    if a == len {
        proof {
            lemma_control_trimmed_all(s@);
        }
        return String::new();
    }
    let mut b: usize = len;
    while b > a + 1 && is_control_exec(s.get_char(b - 1))
        invariant
            a < b <= len,
            len == s@.len(),
            !is_control(s@[a as int]),
            forall|i: int| b <= i < len ==> is_control(s@[i]),
        decreases b,
    {
        b -= 1;
    }
    proof {
        lemma_control_trimmed_is_subrange(s@, a as int, b as int);
    }
    let cut = s.substring_char(a, b);
    String::from_str(cut)
}

impl Window {
    /// A fresh, not yet persisted session row. The title is normalized
    /// for storage: cut at the first embedded NUL character, then
    /// trimmed of control characters at both ends.
    pub fn new(title: String, start_time: String, end_time: String, category: Option<u8>) -> (w:
        Window)
        ensures
            w.id == 0,
            w@.title == normalized_title(title@),
            w@.start_time == start_time@,
            w@.end_time == end_time@,
            w@.category == category,
    {
        let n = nul_prefix_len_exec(title.as_str());
        proof {
            lemma_nul_free_prefix_len(title@);
        }
        let cut = title.as_str().substring_char(0, n);
        proof {
            assert(cut@ =~= nul_truncated(title@));
        }
        let normalized = trim_control(cut);
        Window { id: 0, title: normalized, start_time, end_time, category }
    }

    /// A deep copy: same view and the same storage id.
    pub fn clone(&self) -> (w: Window)
        ensures
            w@ == self@,
            w.id == self.id,
    {
        let w = Window {
            id: self.id,
            title: self.title.clone(),
            start_time: self.start_time.clone(),
            end_time: self.end_time.clone(),
            category: self.category,
        };
        proof {
            assert(w@ =~= self@);
        }
        w
    }
}

} // verus!
