use vstd::prelude::*;

verus! {

/// One character of Unicode's White_Space set: exactly the characters that
/// `str::trim` strips from either end of a string.
pub open spec fn is_blank(c: char) -> bool {
    let n = c as u32;
    ||| n == 0x20
    ||| (0x09 <= n && n <= 0x0D)
    ||| n == 0x85
    ||| n == 0xA0
    ||| n == 0x1680
    ||| (0x2000 <= n && n <= 0x200A)
    ||| n == 0x2028
    ||| n == 0x2029
    ||| n == 0x202F
    ||| n == 0x205F
    ||| n == 0x3000
}

/// Every character of the text is whitespace (an empty text included).
pub open spec fn all_blank(s: Seq<char>) -> bool {
    forall|i: int| 0 <= i < s.len() ==> is_blank(#[trigger] s[i])
}

pub open spec fn trim_start_spec(s: Seq<char>) -> Seq<char>
    decreases s.len(),
{
    if s.len() > 0 && is_blank(s[0]) {
        trim_start_spec(s.skip(1))
    } else {
        s
    }
}

pub open spec fn trim_end_spec(s: Seq<char>) -> Seq<char>
    decreases s.len(),
{
    if s.len() > 0 && is_blank(s.last()) {
        trim_end_spec(s.drop_last())
    } else {
        s
    }
}

/// What `str::trim` returns: the text without leading and trailing
/// whitespace.
pub open spec fn trim_spec(s: Seq<char>) -> Seq<char> {
    trim_end_spec(trim_start_spec(s))
}

/// What line-ending normalization yields: every CRLF pair and every lone CR
/// becomes a single LF; all other characters pass through unchanged.
pub open spec fn normalize_endings(s: Seq<char>) -> Seq<char>
    decreases s.len(),
{
    if s.len() == 0 {
        Seq::empty()
    } else if s[0] == '\r' {
        if s.len() >= 2 && s[1] == '\n' {
            seq!['\n'] + normalize_endings(s.skip(2))
        } else {
            seq!['\n'] + normalize_endings(s.skip(1))
        }
    } else {
        seq![s[0]] + normalize_endings(s.skip(1))
    }
}

/// Relies on `str::trim`: returns the string with leading and trailing
/// Unicode whitespace removed.
#[verifier::external_body]
pub(crate) fn trim_string(s: &str) -> (r: String)
    ensures
        r@ == trim_spec(s@),
{
    s.trim().to_owned()
}

/// Relies on `normalize_line_endings::normalized`: rewrites every CRLF pair
/// and every lone CR to a single LF, a pure function of the characters.
#[verifier::external_body]
fn normalized_string(s: &str) -> (r: String)
    ensures
        r@ == normalize_endings(s@),
{
    normalize_line_endings::normalized(s.chars()).collect()
}

/// Line-ending-insensitive equality: the comparison the capture observer
/// uses to recognize an echo of the current selection.
pub fn normalized_eq(a: &str, b: &str) -> (r: bool)
    ensures
        r == (normalize_endings(a@) == normalize_endings(b@)),
{
    let na = normalized_string(a);
    let nb = normalized_string(b);
    na == nb
}

/// A text trims to nothing exactly when every character in it is
/// whitespace.
pub proof fn lemma_trim_blank(s: Seq<char>)
    ensures
        trim_spec(s).len() == 0 <==> all_blank(s),
{
    lemma_trim_start_blank(s);
    let t = trim_start_spec(s);
    if t.len() > 0 {
        lemma_trim_start_keeps_head(s);
        lemma_trim_end_blank(t);
    }
}

proof fn lemma_trim_start_blank(s: Seq<char>)
    ensures
        trim_start_spec(s).len() == 0 <==> all_blank(s),
    decreases s.len(),
{
    if s.len() > 0 && is_blank(s[0]) {
        lemma_trim_start_blank(s.skip(1));
        assert forall|i: int| 0 <= i < s.len() && all_blank(s.skip(1)) implies is_blank(
            #[trigger] s[i],
        ) by {
            if i > 0 {
                assert(s.skip(1)[i - 1] == s[i]);
            }
        }
        assert forall|i: int| 0 <= i < s.skip(1).len() && all_blank(s) implies is_blank(
            #[trigger] s.skip(1)[i],
        ) by {
            assert(s.skip(1)[i] == s[i + 1]);
        }
    }
}

proof fn lemma_trim_start_keeps_head(s: Seq<char>)
    ensures
        trim_start_spec(s).len() > 0 ==> !is_blank(trim_start_spec(s)[0]),
    decreases s.len(),
{
    if s.len() > 0 && is_blank(s[0]) {
        lemma_trim_start_keeps_head(s.skip(1));
    }
}

proof fn lemma_trim_end_blank(s: Seq<char>)
    ensures
        trim_end_spec(s).len() == 0 <==> all_blank(s),
    decreases s.len(),
{
    if s.len() > 0 && is_blank(s.last()) {
        lemma_trim_end_blank(s.drop_last());
        assert forall|i: int| 0 <= i < s.len() && all_blank(s.drop_last()) implies is_blank(
            #[trigger] s[i],
        ) by {
            if i < s.len() - 1 {
                assert(s.drop_last()[i] == s[i]);
            }
        }
        assert forall|i: int| 0 <= i < s.drop_last().len() && all_blank(s) implies is_blank(
            #[trigger] s.drop_last()[i],
        ) by {
            assert(s.drop_last()[i] == s[i]);
        }
    }
}

} // verus!
