//! The HTML tag stripper: removes every span between (and including) a `<`
//! and the next `>` from a line, keeping all other characters in order.
//!
//! The stripper is streaming, not nesting-aware: it tracks one boolean
//! "inside a tag" flag, so a `<` with no `>` later on the line suppresses the
//! rest of the line.

use vstd::prelude::*;
use vstd::string::StrSliceExecFns;

use crate::text::push_char;

verus! {

/// Whether the stripper is inside a tag after consuming `c`.
pub open spec fn tag_step(in_tag: bool, c: char) -> bool {
    if in_tag {
        c != '>'
    } else {
        c == '<'
    }
}

/// What consuming `c` keeps: the character itself outside tags, nothing
/// inside a tag or at the `<` and `>` delimiters.
pub open spec fn tag_emit(in_tag: bool, c: char) -> Seq<char> {
    if !in_tag && c != '<' {
        seq![c]
    } else {
        seq![]
    }
}

/// The stripped remainder of `s` when the stripper starts in `in_tag`.
pub open spec fn strip_from(in_tag: bool, s: Seq<char>) -> Seq<char>
    decreases s.len(),
{
    if s.len() == 0 {
        seq![]
    } else {
        tag_emit(in_tag, s[0]) + strip_from(tag_step(in_tag, s[0]), s.drop_first())
    }
}

/// A line with all its tag spans removed.
pub open spec fn tagless_text(s: Seq<char>) -> Seq<char> {
    strip_from(false, s)
}

/// Removes every `<...>` span from one line of markup, preserving all other
/// characters in order; an unclosed `<` suppresses the rest of the line.
pub fn strip_tags(line: &str) -> (r: String)
    ensures
        r@ == tagless_text(line@),
{
    let n = line.unicode_len();
    let mut out = String::new();
    let mut in_tag = false;
    let mut i: usize = 0;
    proof {
        assert(line@.skip(0) =~= line@);
        assert(out@ + strip_from(in_tag, line@) =~= strip_from(in_tag, line@));
    }
    while i < n
        invariant
            n == line@.len(),
            0 <= i <= n,
            tagless_text(line@) == out@ + strip_from(in_tag, line@.skip(i as int)),
        decreases n - i,
    {
        let c = line.get_char(i);
        proof {
            assert(line@.skip(i as int)[0] == c);
            assert(line@.skip(i as int).drop_first() =~= line@.skip(i as int + 1));
        }
        let ghost prev_out = out@;
        let ghost prev_in = in_tag;
        if in_tag {
            if c == '>' {
                in_tag = false;
            }
        } else {
            if c == '<' {
                in_tag = true;
            } else {
                push_char(&mut out, c);
            }
        }
        proof {
            assert(out@ =~= prev_out + tag_emit(prev_in, c));
            assert(out@ + strip_from(in_tag, line@.skip(i as int + 1)) =~= prev_out + strip_from(
                prev_in,
                line@.skip(i as int),
            ));
        }
        i += 1;
    }
    proof {
        assert(line@.skip(n as int) =~= Seq::<char>::empty());
    }
    out
}

} // verus!
