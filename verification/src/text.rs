use vstd::prelude::*;
use crate::errors::Error;

verus! {

// ---------------------------------------------------------------------------
// ASCII lowercasing, as identifier comparison uses it.
// ---------------------------------------------------------------------------

/// ASCII lowercase of one scalar value; anything outside 'A'..='Z' is kept.
pub open spec fn lower_char(c: char) -> char {
    if 'A' <= c && c <= 'Z' {
        ((c as u32) + 32) as char
    } else {
        c
    }
}

/// ASCII lowercase of a whole sequence of scalar values.
pub open spec fn lower(s: Seq<char>) -> Seq<char> {
    s.map_values(|c: char| lower_char(c))
}

pub proof fn lemma_lower_concat(a: Seq<char>, b: Seq<char>)
    ensures
        lower(a + b) == lower(a) + lower(b),
{
    assert(lower(a + b) =~= lower(a) + lower(b));
}

/// Executable ASCII lowercase of one scalar value.
pub fn lower_char_exec(c: char) -> (r: char)
    ensures
        r == lower_char(c),
{
    let u = c as u32;
    if 65 <= u && u <= 90 {
        ((u + 32) as u8) as char
    } else {
        c
    }
}

/// Executable ASCII lowercase of a string.
pub fn lower_str(s: &str) -> (r: String)
    ensures
        r@ == lower(s@),
{
    let n = s.unicode_len();
    let mut out = String::new();
    let mut i: usize = 0;
    while i < n
        invariant
            i <= n,
            n == s@.len(),
            out@ == lower(s@.take(i as int)),
        decreases n - i,
    {
        let c = lower_char_exec(s.get_char(i));
        out.push(c);
        proof {
            assert(lower(s@.take(i + 1 as int)) =~= lower(s@.take(i as int)).push(lower_char(s@[i as int])));
        }
        i += 1;
    }
    proof {
        assert(s@.take(n as int) =~= s@);
    }
    out
}

// ---------------------------------------------------------------------------
// Equality, prefix and substring tests on strings.
// ---------------------------------------------------------------------------

/// `p` is a prefix of `s`.
pub open spec fn starts_with(s: Seq<char>, p: Seq<char>) -> bool {
    p.len() <= s.len() && s.subrange(0, p.len() as int) == p
}

/// Executable string equality by scalar values.
pub fn str_eq(a: &str, b: &str) -> (r: bool)
    ensures
        r == (a@ == b@),
{
    let na = a.unicode_len();
    let nb = b.unicode_len();
    if na != nb {
        return false;
    }
    let mut i: usize = 0;
    while i < na
        invariant
            i <= na,
            na == a@.len(),
            na == b@.len(),
            forall|j: int| 0 <= j < i ==> a@[j] == b@[j],
        decreases na - i,
    {
        if a.get_char(i) != b.get_char(i) {
            return false;
        }
        i += 1;
    }
    proof {
        assert(a@ =~= b@);
    }
    true
}

/// Executable prefix test.
pub fn str_starts_with(s: &str, p: &str) -> (r: bool)
    ensures
        r == starts_with(s@, p@),
{
    let np = p.unicode_len();
    let ns = s.unicode_len();
    if np > ns {
        return false;
    }
    let mut i: usize = 0;
    while i < np
        invariant
            i <= np,
            np == p@.len(),
            ns == s@.len(),
            np <= ns,
            forall|j: int| 0 <= j < i ==> s@[j] == p@[j],
        decreases np - i,
    {
        if s.get_char(i) != p.get_char(i) {
            return false;
        }
        i += 1;
    }
    proof {
        assert(s@.subrange(0, p@.len() as int) =~= p@);
    }
    true
}

/// `needle` occurs contiguously inside `hay`.
pub open spec fn is_substring(hay: Seq<char>, needle: Seq<char>) -> bool {
    exists|i: int|
        0 <= i && i + needle.len() <= hay.len() && #[trigger] hay.subrange(i, i + needle.len())
            == needle
}

/// Executable substring search.
pub fn str_contains(hay: &str, needle: &str) -> (r: bool)
    ensures
        r == is_substring(hay@, needle@),
{
    let nh = hay.unicode_len();
    let nn = needle.unicode_len();
    if nn > nh {
        return false;
    }
    if nn == 0 {
        proof {
            assert(hay@.subrange(0, 0 + needle@.len() as int) =~= needle@);
        }
        return true;
    }
    let mut i: usize = 0;
    while i < nh - nn + 1
        invariant
            1 <= nn <= nh,
            nh == hay@.len(),
            nn == needle@.len(),
            i <= nh - nn + 1,
            forall|j: int|
                0 <= j < i ==> #[trigger] hay@.subrange(j, j + needle@.len()) != needle@,
        decreases nh - nn + 1 - i,
    {
        let seg = hay.substring_char(i, i + nn);
        if str_eq(seg, needle) {
            return true;
        }
        i += 1;
    }
    false
}

// ---------------------------------------------------------------------------
// Lexicographic order by scalar value: how timestamps are compared.
// ---------------------------------------------------------------------------

/// Strict lexicographic order on sequences of scalar values.
pub open spec fn lex_lt(a: Seq<char>, b: Seq<char>) -> bool
    decreases a.len(),
{
    if b.len() == 0 {
        false
    } else if a.len() == 0 {
        true
    } else if a[0] != b[0] {
        a[0] < b[0]
    } else {
        lex_lt(a.skip(1), b.skip(1))
    }
}

/// Lexicographic order, allowing equality.
pub open spec fn lex_le(a: Seq<char>, b: Seq<char>) -> bool {
    lex_lt(a, b) || a == b
}

/// The order is total: two sequences always compare one way or the other.
pub proof fn lemma_lex_total(a: Seq<char>, b: Seq<char>)
    ensures
        lex_le(a, b) || lex_le(b, a),
    decreases a.len(),
{
    if b.len() == 0 || a.len() == 0 {
        if a.len() == 0 && b.len() == 0 {
            assert(a =~= b);
        }
    } else if a[0] != b[0] {
    } else {
        lemma_lex_total(a.skip(1), b.skip(1));
        if a.skip(1) == b.skip(1) {
            assert(a.skip(1).len() == b.skip(1).len());
            assert(a.len() == b.len());
            assert forall|i: int| 0 <= i < a.len() implies a[i] == b[i] by {
                if i > 0 {
                    assert(a[i] == a.skip(1)[i - 1]);
                    assert(b[i] == b.skip(1)[i - 1]);
                }
            }
            assert(a =~= b);
        }
    }
}

/// The strict order is transitive.
pub proof fn lemma_lex_trans(a: Seq<char>, b: Seq<char>, c: Seq<char>)
    ensures
        lex_lt(a, b) && lex_lt(b, c) ==> lex_lt(a, c),
    decreases a.len() + b.len() + c.len(),
{
    if lex_lt(a, b) && lex_lt(b, c) {
        if c.len() == 0 {
        } else if b.len() == 0 {
            assert(lex_lt(a, c));
        } else if a.len() == 0 {
        } else {
            if a[0] == b[0] && b[0] == c[0] {
                lemma_lex_trans(a.skip(1), b.skip(1), c.skip(1));
            }
        }
    }
}

/// The order allowing equality chains with the strict order.
pub proof fn lemma_lex_le_lt_trans(a: Seq<char>, b: Seq<char>, c: Seq<char>)
    ensures
        lex_le(a, b) && lex_lt(b, c) ==> lex_lt(a, c),
{
    lemma_lex_trans(a, b, c);
}

/// The order allowing equality is transitive.
pub proof fn lemma_lex_le_trans(a: Seq<char>, b: Seq<char>, c: Seq<char>)
    ensures
        lex_le(a, b) && lex_le(b, c) ==> lex_le(a, c),
{
    lemma_lex_trans(a, b, c);
}

/// The strict order excludes equality and is asymmetric.
pub proof fn lemma_lex_strict(a: Seq<char>, b: Seq<char>)
    ensures
        lex_lt(a, b) ==> a != b,
        lex_lt(a, b) ==> !lex_lt(b, a),
    decreases a.len(),
{
    if b.len() == 0 || a.len() == 0 {
        if a.len() == 0 && lex_lt(a, b) {
            assert(a != b);
        }
    } else if a[0] != b[0] {
    } else {
        lemma_lex_strict(a.skip(1), b.skip(1));
        if lex_lt(a, b) && a == b {
            assert(a.skip(1) == b.skip(1));
        }
    }
}

/// Executable strict lexicographic comparison.
pub fn str_lt(a: &str, b: &str) -> (r: bool)
    ensures
        r == lex_lt(a@, b@),
    decreases a@.len(),
{
    let na = a.unicode_len();
    let nb = b.unicode_len();
    if nb == 0 {
        false
    } else if na == 0 {
        true
    } else {
        let ca = a.get_char(0);
        let cb = b.get_char(0);
        if ca != cb {
            ca < cb
        } else {
            str_lt(a.substring_char(1, na), b.substring_char(1, nb))
        }
    }
}

/// Executable lexicographic comparison allowing equality.
pub fn str_le(a: &str, b: &str) -> (r: bool)
    ensures
        r == lex_le(a@, b@),
{
    if str_lt(a, b) {
        true
    } else {
        str_eq(a, b)
    }
}

// ---------------------------------------------------------------------------
// Validation of a note's text.
// ---------------------------------------------------------------------------

/// A note's text must be non-empty, at most 100 scalar values, and free of
/// line breaks.
pub open spec fn valid_text(s: Seq<char>) -> bool {
    0 < s.len() <= 100 && forall|i: int| 0 <= i < s.len() ==> s[i] != '\n' && s[i] != '\r'
}

/// Checks a note's text, reporting the first violated rule.
pub fn validate_text(text: &str) -> (r: Result<(), Error>)
    ensures
        r is Ok <==> valid_text(text@),
        text@.len() == 0 ==> r == Err::<(), Error>(Error::EmptyText),
        text@.len() > 100 ==> r == Err::<(), Error>(Error::TextTooLong),
        0 < text@.len() <= 100 && !valid_text(text@) ==> r == Err::<(), Error>(
            Error::TextHasLineBreak,
        ),
{
    let n = text.unicode_len();
    if n == 0 {
        return Err(Error::EmptyText);
    }
    if n > 100 {
        return Err(Error::TextTooLong);
    }
    let mut i: usize = 0;
    while i < n
        invariant
            i <= n,
            n == text@.len(),
            0 < n <= 100,
            forall|j: int| 0 <= j < i ==> text@[j] != '\n' && text@[j] != '\r',
        decreases n - i,
    {
        let c = text.get_char(i);
        if c == '\n' || c == '\r' {
            return Err(Error::TextHasLineBreak);
        }
        i += 1;
    }
    Ok(())
}

// ---------------------------------------------------------------------------
// The one String operation this crate needs beyond what vstd specifies.
// ---------------------------------------------------------------------------

/// Relies on std's String::push: appends the given character to the string.
pub assume_specification[ String::push ](s: &mut String, c: char)
    ensures
        final(s)@ == old(s)@.push(c),
;

/// Executable check whether a string holds a given character.
pub fn contains_char(s: &str, c: char) -> (r: bool)
    ensures
        r == s@.contains(c),
{
    let n = s.unicode_len();
    let mut i: usize = 0;
    while i < n
        invariant
            i <= n,
            n == s@.len(),
            forall|j: int| 0 <= j < i ==> s@[j] != c,
        decreases n - i,
    {
        if s.get_char(i) == c {
            assert(s@.contains(c));
            return true;
        }
        i += 1;
    }
    assert(!s@.contains(c));
    false
}

// ---------------------------------------------------------------------------
// Trailing line-break trimming: piped input typically carries one.
// ---------------------------------------------------------------------------

/// The string with every trailing line-feed and carriage-return removed.
pub open spec fn trim_newlines(s: Seq<char>) -> Seq<char>
    decreases s.len(),
{
    if s.len() > 0 && (s.last() == '\n' || s.last() == '\r') {
        trim_newlines(s.drop_last())
    } else {
        s
    }
}

/// Removes trailing line breaks, as a note piped through standard input
/// usually ends in one.
pub fn trim_trailing_newlines(s: &str) -> (r: String)
    ensures
        r@ == trim_newlines(s@),
{
    let n = s.unicode_len();
    let mut end = n;
    proof {
        assert(s@.take(n as int) =~= s@);
    }
    while end > 0 && (s.get_char(end - 1) == '\n' || s.get_char(end - 1) == '\r')
        invariant
            end <= n,
            n == s@.len(),
            trim_newlines(s@) == trim_newlines(s@.take(end as int)),
        decreases end,
    {
        proof {
            assert(s@.take(end as int).last() == s@[end - 1]);
            assert(s@.take(end as int).drop_last() =~= s@.take(end - 1));
        }
        end -= 1;
    }
    proof {
        if end > 0 {
            assert(s@.take(end as int).last() == s@[end - 1]);
        }
        assert(trim_newlines(s@.take(end as int)) == s@.take(end as int));
    }
    let kept = s.substring_char(0, end);
    proof {
        assert(kept@ =~= s@.take(end as int));
    }
    String::from_str(kept)
}

} // verus!
