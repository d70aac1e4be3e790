//! The tokenizer: splits a normalized string at spaces into its words, in
//! left-to-right order, discarding words shorter than a configured minimum
//! length.

use vstd::prelude::*;
use vstd::string::StrSliceExecFns;

use crate::text::push_char;

verus! {

/// The finished word `cur` becomes, if long enough: a one-word sequence, or
/// nothing.
pub open spec fn take_word(cur: Seq<char>, min: nat) -> Seq<Seq<char>> {
    if cur.len() >= min && cur.len() > 0 {
        seq![cur]
    } else {
        seq![]
    }
}

/// The words of `cur + s` with length at least `min`, where `cur` is the
/// partially read word and `s` splits at spaces.
pub open spec fn words_from(cur: Seq<char>, s: Seq<char>, min: nat) -> Seq<Seq<char>>
    decreases s.len(),
{
    if s.len() == 0 {
        take_word(cur, min)
    } else if s[0] == ' ' {
        take_word(cur, min) + words_from(seq![], s.drop_first(), min)
    } else {
        words_from(cur.push(s[0]), s.drop_first(), min)
    }
}

/// The space-delimited words of `s` with length at least `min`, in order.
pub open spec fn split_tokens(s: Seq<char>, min: nat) -> Seq<Seq<char>> {
    words_from(seq![], s, min)
}

/// A well-formed token: never empty, at least the minimum length, and free
/// of spaces.
pub open spec fn token_wf(t: Seq<char>, min: nat) -> bool {
    &&& t.len() >= min
    &&& t.len() > 0
    &&& forall|k: int| 0 <= k < t.len() ==> t[k] != ' '
}

proof fn lemma_words_from_wf(cur: Seq<char>, s: Seq<char>, min: nat)
    requires
        forall|k: int| 0 <= k < cur.len() ==> cur[k] != ' ',
    ensures
        forall|i: int|
            0 <= i < words_from(cur, s, min).len() ==> token_wf(
                #[trigger] words_from(cur, s, min)[i],
                min,
            ),
    decreases s.len(),
{
    if s.len() == 0 {
        assert forall|i: int|
            0 <= i < words_from(cur, s, min).len() implies token_wf(
            #[trigger] words_from(cur, s, min)[i],
            min,
        ) by {
            assert(words_from(cur, s, min) == take_word(cur, min));
            assert(words_from(cur, s, min)[i] == cur);
        }
    } else if s[0] == ' ' {
        lemma_words_from_wf(seq![], s.drop_first(), min);
        assert forall|i: int|
            0 <= i < words_from(cur, s, min).len() implies token_wf(
            #[trigger] words_from(cur, s, min)[i],
            min,
        ) by {
            let head = take_word(cur, min);
            if i >= head.len() {
                assert(words_from(cur, s, min)[i] == words_from(seq![], s.drop_first(), min)[i
                    - head.len()]);
            } else {
                assert(words_from(cur, s, min)[i] == cur);
            }
        }
    } else {
        assert(forall|k: int| 0 <= k < cur.push(s[0]).len() ==> cur.push(s[0])[k] != ' ');
        lemma_words_from_wf(cur.push(s[0]), s.drop_first(), min);
        assert(words_from(cur, s, min) == words_from(cur.push(s[0]), s.drop_first(), min));
        assert forall|i: int|
            0 <= i < words_from(cur, s, min).len() implies token_wf(
            #[trigger] words_from(cur, s, min)[i],
            min,
        ) by {
            assert(words_from(cur, s, min)[i] == words_from(cur.push(s[0]), s.drop_first(), min)[i]);
        }
    }
}

/// Law: every token the tokenizer produces is well formed — nonempty, at
/// least the minimum length, and holding no space.
pub proof fn lemma_split_tokens_wf(s: Seq<char>, min: nat)
    ensures
        forall|i: int|
            0 <= i < split_tokens(s, min).len() ==> token_wf(#[trigger] split_tokens(s, min)[i], min),
{
    lemma_words_from_wf(seq![], s, min);
}

proof fn lemma_words_from_chars(cur: Seq<char>, s: Seq<char>, min: nat, p: spec_fn(char) -> bool)
    requires
        forall|k: int| 0 <= k < cur.len() ==> p(cur[k]),
        forall|k: int| 0 <= k < s.len() && s[k] != ' ' ==> p(s[k]),
    ensures
        forall|i: int, k: int|
            #![trigger words_from(cur, s, min)[i][k]]
            0 <= i < words_from(cur, s, min).len() && 0 <= k < words_from(cur, s, min)[i].len()
                ==> p(words_from(cur, s, min)[i][k]),
    decreases s.len(),
{
    let out = words_from(cur, s, min);
    if s.len() == 0 {
        assert forall|i: int, k: int|
            0 <= i < out.len() && 0 <= k < out[i].len() implies p(#[trigger] out[i][k]) by {
            assert(out[i] == cur);
        }
    } else if s[0] == ' ' {
        lemma_words_from_chars(seq![], s.drop_first(), min, p);
        let head = take_word(cur, min);
        let rest = words_from(seq![], s.drop_first(), min);
        assert forall|i: int, k: int|
            0 <= i < out.len() && 0 <= k < out[i].len() implies p(#[trigger] out[i][k]) by {
            if i < head.len() {
                assert(out[i] == cur);
            } else {
                assert(out[i] == rest[i - head.len()]);
                assert(p(rest[i - head.len()][k]));
            }
        }
    } else {
        assert(forall|k: int| 0 <= k < cur.push(s[0]).len() ==> p(cur.push(s[0])[k]));
        lemma_words_from_chars(cur.push(s[0]), s.drop_first(), min, p);
        let rest = words_from(cur.push(s[0]), s.drop_first(), min);
        assert(out == rest);
        assert forall|i: int, k: int|
            0 <= i < out.len() && 0 <= k < out[i].len() implies p(#[trigger] out[i][k]) by {
            assert(p(rest[i][k]));
        }
    }
}

/// Law: a character property that holds of every non-space character of the
/// input holds of every character of every token.
pub proof fn lemma_split_tokens_chars(s: Seq<char>, min: nat, p: spec_fn(char) -> bool)
    requires
        forall|k: int| 0 <= k < s.len() && s[k] != ' ' ==> p(s[k]),
    ensures
        forall|i: int, k: int|
            #![trigger split_tokens(s, min)[i][k]]
            0 <= i < split_tokens(s, min).len() && 0 <= k < split_tokens(s, min)[i].len() ==> p(
                split_tokens(s, min)[i][k],
            ),
{
    lemma_words_from_chars(seq![], s, min, p);
}

/// Splits a normalized string at spaces into its words of length at least
/// `min_len`, in left-to-right order.
pub fn tokenize(s: &str, min_len: usize) -> (v: Vec<String>)
    ensures
        v.deep_view() == split_tokens(s@, min_len as nat),
{
    let n = s.unicode_len();
    let mut v: Vec<String> = Vec::new();
    let mut cur = String::new();
    let mut cur_len: usize = 0;
    let mut i: usize = 0;
    proof {
        assert(s@.skip(0) =~= s@);
        assert(v.deep_view() + words_from(cur@, s@, min_len as nat) =~= words_from(
            cur@,
            s@,
            min_len as nat,
        ));
    }
    while i < n
        invariant
            n == s@.len(),
            0 <= i <= n,
            cur_len == cur@.len(),
            cur_len <= i,
            split_tokens(s@, min_len as nat) == v.deep_view() + words_from(
                cur@,
                s@.skip(i as int),
                min_len as nat,
            ),
        decreases n - i,
    {
        let c = s.get_char(i);
        proof {
            assert(s@.skip(i as int)[0] == c);
            assert(s@.skip(i as int).drop_first() =~= s@.skip(i as int + 1));
        }
        let ghost prev_v = v.deep_view();
        let ghost prev_cur = cur@;
        if c == ' ' {
            if cur_len >= min_len && cur_len > 0 {
                v.push(cur);
                proof {
                    assert(v.deep_view() =~= prev_v + take_word(prev_cur, min_len as nat));
                }
            } else {
                proof {
                    assert(v.deep_view() + take_word(prev_cur, min_len as nat) =~= v.deep_view());
                }
            }
            cur = String::new();
            cur_len = 0;
        } else {
            push_char(&mut cur, c);
            cur_len += 1;
        }
        proof {
            assert(v.deep_view() + words_from(cur@, s@.skip(i as int + 1), min_len as nat)
                =~= prev_v + words_from(prev_cur, s@.skip(i as int), min_len as nat));
        }
        i += 1;
    }
    proof {
        assert(s@.skip(n as int) =~= Seq::<char>::empty());
    }
    let ghost prev_v = v.deep_view();
    let ghost prev_cur = cur@;
    if cur_len >= min_len && cur_len > 0 {
        v.push(cur);
        proof {
            assert(v.deep_view() =~= prev_v + take_word(prev_cur, min_len as nat));
        }
    } else {
        proof {
            assert(v.deep_view() + take_word(prev_cur, min_len as nat) =~= v.deep_view());
        }
    }
    v
}

} // verus!
