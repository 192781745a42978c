//! Validation of entity names before they reach the store or the index.

use vstd::prelude::*;
use crate::error::NameError;

verus! {

/// Whether `c` has the Unicode White_Space property, the set `str::trim`
/// removes at both ends.
pub open spec fn is_space_char(c: char) -> bool {
    c == '\u{9}' || c == '\u{A}' || c == '\u{B}' || c == '\u{C}' || c == '\u{D}' || c == ' '
        || c == '\u{85}' || c == '\u{A0}' || c == '\u{1680}' || c == '\u{2000}' || c == '\u{2001}'
        || c == '\u{2002}' || c == '\u{2003}' || c == '\u{2004}' || c == '\u{2005}'
        || c == '\u{2006}' || c == '\u{2007}' || c == '\u{2008}' || c == '\u{2009}'
        || c == '\u{200A}' || c == '\u{2028}' || c == '\u{2029}' || c == '\u{202F}'
        || c == '\u{205F}' || c == '\u{3000}'
}

/// `s` with leading and trailing white space removed.
pub open spec fn trim_spec(s: Seq<char>) -> Seq<char>
    decreases s.len(),
{
    if s.len() == 0 {
        s
    } else if is_space_char(s[0]) {
        trim_spec(s.drop_first())
    } else if is_space_char(s.last()) {
        trim_spec(s.drop_last())
    } else {
        s
    }
}

fn is_space(c: char) -> (r: bool)
    ensures
        r == is_space_char(c),
{
    c == '\u{9}' || c == '\u{A}' || c == '\u{B}' || c == '\u{C}' || c == '\u{D}' || c == ' '
        || c == '\u{85}' || c == '\u{A0}' || c == '\u{1680}' || c == '\u{2000}' || c == '\u{2001}'
        || c == '\u{2002}' || c == '\u{2003}' || c == '\u{2004}' || c == '\u{2005}'
        || c == '\u{2006}' || c == '\u{2007}' || c == '\u{2008}' || c == '\u{2009}'
        || c == '\u{200A}' || c == '\u{2028}' || c == '\u{2029}' || c == '\u{202F}'
        || c == '\u{205F}' || c == '\u{3000}'
}

/// Trimming keeps exactly the subrange between the first and last
/// non-space characters.
proof fn lemma_trim_subrange(s: Seq<char>, b: int, e: int)
    requires
        0 <= b <= e <= s.len(),
        forall|i: int| 0 <= i < b ==> is_space_char(#[trigger] s[i]),
        forall|i: int| e <= i < s.len() ==> is_space_char(#[trigger] s[i]),
        b < e ==> !is_space_char(s[b]) && !is_space_char(s[e - 1]),
    ensures
        trim_spec(s) =~= s.subrange(b, e),
    decreases s.len(),
{
    if s.len() == 0 {
    } else if b == e {
        assert(is_space_char(s[0]));
        assert(s.drop_first() =~= s.subrange(1, s.len() as int));
        lemma_trim_subrange(s.drop_first(), 0, 0);
    } else if b > 0 {
        assert(is_space_char(s[0]));
        lemma_trim_subrange(s.drop_first(), b - 1, e - 1);
        assert(s.drop_first().subrange(b - 1, e - 1) =~= s.subrange(b, e));
    } else if e < s.len() {
        assert(!is_space_char(s[0]));
        assert(is_space_char(s.last()));
        lemma_trim_subrange(s.drop_last(), b, e);
        assert(s.drop_last().subrange(b, e) =~= s.subrange(b, e));
    } else {
        assert(trim_spec(s) == s);
        assert(s.subrange(0, s.len() as int) =~= s);
    }
}

/// Returns the name with surrounding white space removed, and rejects a
/// name that is empty after trimming.
pub fn sanitize_name(name: &str) -> (r: Result<&str, NameError>)
    ensures
        r matches Ok(t) ==> t@ == trim_spec(name@) && trim_spec(name@).len() > 0,
        r is Err <==> trim_spec(name@).len() == 0,
        r matches Err(e) ==> e == NameError::Empty,
{
    let n = name.unicode_len();
    let mut b: usize = 0;
    while b < n && is_space(name.get_char(b))
        invariant
            n == name@.len(),
            0 <= b <= n,
            forall|i: int| 0 <= i < b ==> is_space_char(#[trigger] name@[i]),
        decreases n - b,
    {
        b = b + 1;
    }
    let mut e: usize = n;
    while e > b && is_space(name.get_char(e - 1))
        invariant
            n == name@.len(),
            b <= e <= n,
            forall|i: int| e <= i < n ==> is_space_char(#[trigger] name@[i]),
        decreases e,
    {
        e = e - 1;
    }
    proof {
        lemma_trim_subrange(name@, b as int, e as int);
    }
    let trimmed = name.substring_char(b, e);
    if trimmed.is_empty() {
        Err(NameError::Empty)
    } else {
        Ok(trimmed)
    }
}

} // verus!
