//! Character classification and small string primitives used by the
//! normalizer, tokenizer and ranker.

use vstd::prelude::*;
use vstd::string::StrSliceExecFns;

verus! {

/// True of the ASCII lowercase letters `a` through `z`.
pub open spec fn is_lower(c: char) -> bool {
    97 <= c as u32 <= 122
}

/// True of the ASCII uppercase letters `A` through `Z`.
pub open spec fn is_upper(c: char) -> bool {
    65 <= c as u32 <= 90
}

/// True of the ASCII letters.
pub open spec fn is_letter(c: char) -> bool {
    is_lower(c) || is_upper(c)
}

/// ASCII-range case folding: an uppercase letter maps to its lowercase
/// counterpart; every other character is unchanged.
pub open spec fn fold_char(c: char) -> char {
    if is_upper(c) {
        (c as u32 + 32) as char
    } else {
        c
    }
}

/// Case-folds one character to lowercase within the ASCII range.
pub fn lower_char(c: char) -> (r: char)
    ensures
        r == fold_char(c),
{
    let u = c as u32;
    if 65 <= u && u <= 90 {
        ((u + 32) as u8) as char
    } else {
        c
    }
}

/// Relies on `String::push`, which appends the given character to the end
/// of the string.
#[verifier::external_body]
pub(crate) fn push_char(s: &mut String, c: char)
    ensures
        final(s)@ == old(s)@.push(c),
{
    s.push(c)
}

/// Character-by-character string equality, specified over the views.
pub fn str_eq(a: &str, b: &str) -> (r: bool)
    ensures
        r == (a@ == b@),
{
    let na = a.unicode_len();
    let nb = b.unicode_len();
    if na != nb {
        return false;
    }
    let mut i: usize = 0;
    while i < na
        invariant
            na == a@.len(),
            na == b@.len(),
            0 <= i <= na,
            forall|k: int| 0 <= k < i ==> a@[k] == b@[k],
        decreases na - i,
    {
        if a.get_char(i) != b.get_char(i) {
            return false;
        }
        i += 1;
    }
    proof {
        assert(a@ =~= b@);
    }
    true
}

} // verus!
