//! The text normalizer: one forward pass over a raw line that drops noise
//! glyphs, turns every other non-letter into a space, keeps at most one
//! internal apostrophe per word, and case-folds to lowercase.
//!
//! The pass is modelled as a small state machine ([`NormState`]): a kept
//! apostrophe is held back (`pending`) and emitted only once the next letter
//! arrives, so an apostrophe that turns out to be trailing or doubled becomes
//! a space without any retroactive edit.

use vstd::prelude::*;
use vstd::string::StrSliceExecFns;

use crate::text::fold_char;
use crate::text::is_letter;
use crate::text::is_lower;
use crate::text::lower_char;
use crate::text::push_char;

verus! {

/// The normalizer's scanning state.
///
/// `in_word` holds when a letter has been seen since the last word boundary;
/// `apos_seen` holds when an apostrophe has been kept in the current word;
/// `pending` holds when that apostrophe is still waiting for a following
/// letter before it is emitted.
pub struct NormState {
    pub in_word: bool,
    pub apos_seen: bool,
    pub pending: bool,
}

/// The state at the start of a line.
pub open spec fn start_state() -> NormState {
    NormState { in_word: false, apos_seen: false, pending: false }
}

/// Noise glyphs are dropped outright (not turned into spaces): newline, tab,
/// carriage return, and the guillemet and multiplication-sign decorations
/// (code points 171, 187 and 215).
pub open spec fn is_noise(c: char) -> bool {
    c == '\n' || c == '\t' || c == '\r' || c as u32 == 171 || c as u32 == 187 || c as u32 == 215
}

/// An apostrophe is kept as word content only when a word is open and no
/// apostrophe has been kept in it yet.
pub open spec fn keeps_apostrophe(st: NormState, c: char) -> bool {
    c == '\'' && st.in_word && !st.apos_seen
}

/// The state after consuming one character.
pub open spec fn step_state(st: NormState, c: char) -> NormState {
    if is_noise(c) {
        st
    } else if is_letter(c) {
        NormState { in_word: true, apos_seen: st.apos_seen, pending: false }
    } else if keeps_apostrophe(st, c) {
        NormState { in_word: true, apos_seen: true, pending: true }
    } else {
        start_state()
    }
}

/// What consuming one character emits. A letter releases a pending
/// apostrophe before itself; any other boundary character turns the pending
/// apostrophe into a space beside its own space.
pub open spec fn step_emit(st: NormState, c: char) -> Seq<char> {
    if is_noise(c) {
        seq![]
    } else if is_letter(c) {
        if st.pending {
            seq!['\'', fold_char(c)]
        } else {
            seq![fold_char(c)]
        }
    } else if keeps_apostrophe(st, c) {
        seq![]
    } else {
        if st.pending {
            seq![' ', ' ']
        } else {
            seq![' ']
        }
    }
}

/// What the end of the line emits: a pending apostrophe was trailing, so it
/// becomes a space.
pub open spec fn finish_emit(st: NormState) -> Seq<char> {
    if st.pending {
        seq![' ']
    } else {
        seq![]
    }
}

/// The full output of the machine run from `st` over `s`.
pub open spec fn run_from(st: NormState, s: Seq<char>) -> Seq<char>
    decreases s.len(),
{
    if s.len() == 0 {
        finish_emit(st)
    } else {
        step_emit(st, s[0]) + run_from(step_state(st, s[0]), s.drop_first())
    }
}

/// The normalized form of a line: the machine run from the start state.
pub open spec fn normal_text(s: Seq<char>) -> Seq<char> {
    run_from(start_state(), s)
}

/// Sanitizes one line of text: drops noise glyphs, keeps at most one
/// internal apostrophe per word, turns every other non-letter (and every
/// non-ASCII character) into a space, and lowercases the result.
pub fn clean(check: String) -> (r: String)
    ensures
        r@ == normal_text(check@),
{
    let s = check.as_str();
    let n = s.unicode_len();
    let mut out = String::new();
    let mut st = NormState { in_word: false, apos_seen: false, pending: false };
    let mut i: usize = 0;
    proof {
        assert(s@.skip(0) =~= s@);
        assert(out@ + run_from(st, s@) =~= run_from(st, s@));
    }
    while i < n
        invariant
            n == s@.len(),
            s@ == check@,
            0 <= i <= n,
            normal_text(check@) == out@ + run_from(st, s@.skip(i as int)),
        decreases n - i,
    {
        let c = s.get_char(i);
        proof {
            assert(s@.skip(i as int)[0] == c);
            assert(s@.skip(i as int).drop_first() =~= s@.skip(i as int + 1));
        }
        let ghost prev_out = out@;
        let ghost prev_st = st;
        let u = c as u32;
        if c == '\n' || c == '\t' || c == '\r' || u == 171 || u == 187 || u == 215 {
            // noise: dropped
        } else if (97 <= u && u <= 122) || (65 <= u && u <= 90) {
            if st.pending {
                push_char(&mut out, '\'');
            }
            push_char(&mut out, lower_char(c));
            st = NormState { in_word: true, apos_seen: st.apos_seen, pending: false };
        } else if c == '\'' && st.in_word && !st.apos_seen {
            st = NormState { in_word: true, apos_seen: true, pending: true };
        } else {
            if st.pending {
                push_char(&mut out, ' ');
            }
            push_char(&mut out, ' ');
            st = NormState { in_word: false, apos_seen: false, pending: false };
        }
        proof {
            assert(out@ =~= prev_out + step_emit(prev_st, c));
            assert(st == step_state(prev_st, c));
            assert(out@ + run_from(st, s@.skip(i as int + 1)) =~= prev_out + run_from(
                prev_st,
                s@.skip(i as int),
            ));
        }
        i += 1;
    }
    proof {
        assert(s@.skip(n as int) =~= Seq::<char>::empty());
    }
    if st.pending {
        push_char(&mut out, ' ');
    }
    out
}

/// A space strictly between positions `j` and `i` of `t`.
pub open spec fn space_between(t: Seq<char>, j: int, i: int) -> bool {
    exists|k: int| j < k < i && t[k] == ' '
}

/// The shape of normalizer output: only lowercase letters, spaces and
/// apostrophes occur; every apostrophe is both preceded and followed by a
/// letter; and any two apostrophes have a space between them, so a word
/// holds at most one.
pub open spec fn normal_form(t: Seq<char>) -> bool {
    &&& forall|i: int|
        #![trigger t[i]]
        0 <= i < t.len() ==> is_lower(t[i]) || t[i] == ' ' || t[i] == '\''
    &&& forall|i: int|
        #![trigger t[i]]
        0 <= i < t.len() && t[i] == '\'' ==> 0 < i && is_lower(t[i - 1]) && i + 1 < t.len()
            && is_lower(t[i + 1])
    &&& forall|j: int, i: int|
        #![trigger t[j], t[i]]
        0 <= j < i < t.len() && t[j] == '\'' && t[i] == '\'' ==> space_between(t, j, i)
}

/// Every apostrophe in `t` has a space somewhere after it.
spec fn quotes_closed(t: Seq<char>) -> bool {
    forall|p: int|
        #![trigger t[p]]
        0 <= p < t.len() && t[p] == '\'' ==> space_between(t, p, t.len() as int)
}

/// Relates the machine state to the output emitted so far: the output is in
/// normal form, an open word means the output ends in a letter, and while no
/// apostrophe is live in the current word every emitted apostrophe already
/// has its closing space.
spec fn consistent(out: Seq<char>, st: NormState) -> bool {
    &&& normal_form(out)
    &&& st.in_word ==> out.len() > 0 && is_lower(out[out.len() - 1])
    &&& st.pending ==> st.in_word && st.apos_seen
    &&& !st.apos_seen ==> quotes_closed(out)
    &&& st.pending ==> quotes_closed(out)
}

proof fn lemma_step_consistent(out: Seq<char>, st: NormState, c: char)
    requires
        consistent(out, st),
    ensures
        consistent(out + step_emit(st, c), step_state(st, c)),
{
    let out2 = out + step_emit(st, c);
    let st2 = step_state(st, c);
    let n = out.len() as int;
    if is_noise(c) {
        assert(out2 =~= out);
    } else if is_letter(c) {
        assert(is_lower(fold_char(c)));
        assert forall|i: int| 0 <= i < out2.len() && #[trigger] out2[i] == '\'' implies 0 < i
            && is_lower(out2[i - 1]) && i + 1 < out2.len() && is_lower(out2[i + 1]) by {
            if i < n {
                assert(out2[i] == out[i]);
                assert(out2[i - 1] == out[i - 1]);
                assert(out2[i + 1] == out[i + 1]);
            } else {
                // only a pending apostrophe is appended before the letter
                assert(st.pending && i == n);
                assert(out2[i - 1] == out[n - 1]);
            }
        }
        assert forall|j: int, i: int|
            0 <= j < i < out2.len() && #[trigger] out2[j] == '\'' && #[trigger] out2[i]
                == '\'' implies space_between(out2, j, i) by {
            if i < n {
                assert(out2[j] == out[j] && out2[i] == out[i]);
                let k = choose|k: int| j < k < i && out[k] == ' ';
                assert(out2[k] == ' ');
            } else {
                // the new apostrophe: every earlier one is already closed
                assert(st.pending && i == n);
                assert(out[j] == '\'');
                let k = choose|k: int| j < k < n && out[k] == ' ';
                assert(out2[k] == ' ');
            }
        }
        if !st2.apos_seen {
            assert forall|p: int| 0 <= p < out2.len() && #[trigger] out2[p] == '\'' implies
                space_between(out2, p, out2.len() as int) by {
                assert(!st.pending);
                assert(out2[p] == out[p]);
                let k = choose|k: int| p < k < n && out[k] == ' ';
                assert(out2[k] == ' ');
            }
        }
    } else if keeps_apostrophe(st, c) {
        assert(out2 =~= out);
    } else {
        // boundary: one or two spaces are appended and the word closes
        let m = out2.len() as int;
        assert forall|i: int| 0 <= i < out2.len() && #[trigger] out2[i] == '\'' implies 0 < i
            && is_lower(out2[i - 1]) && i + 1 < out2.len() && is_lower(out2[i + 1]) by {
            assert(out2[i] == out[i]);
            assert(out2[i - 1] == out[i - 1]);
            assert(out2[i + 1] == out[i + 1]);
        }
        assert forall|j: int, i: int|
            0 <= j < i < out2.len() && #[trigger] out2[j] == '\'' && #[trigger] out2[i]
                == '\'' implies space_between(out2, j, i) by {
            assert(out2[j] == out[j] && out2[i] == out[i]);
            let k = choose|k: int| j < k < i && out[k] == ' ';
            assert(out2[k] == ' ');
        }
        assert forall|p: int| 0 <= p < out2.len() && #[trigger] out2[p] == '\'' implies
            space_between(out2, p, m) by {
            assert(out2[p] == out[p]);
            assert(out2[n] == ' ');
        }
    }
}

proof fn lemma_finish_normal(out: Seq<char>, st: NormState)
    requires
        consistent(out, st),
    ensures
        normal_form(out + finish_emit(st)),
{
    let out2 = out + finish_emit(st);
    let n = out.len() as int;
    if st.pending {
        assert forall|i: int| 0 <= i < out2.len() && #[trigger] out2[i] == '\'' implies 0 < i
            && is_lower(out2[i - 1]) && i + 1 < out2.len() && is_lower(out2[i + 1]) by {
            assert(out2[i] == out[i]);
            assert(out2[i - 1] == out[i - 1]);
            assert(out2[i + 1] == out[i + 1]);
        }
        assert forall|j: int, i: int|
            0 <= j < i < out2.len() && #[trigger] out2[j] == '\'' && #[trigger] out2[i]
                == '\'' implies space_between(out2, j, i) by {
            assert(out2[j] == out[j] && out2[i] == out[i]);
            let k = choose|k: int| j < k < i && out[k] == ' ';
            assert(out2[k] == ' ');
        }
    } else {
        assert(out2 =~= out);
    }
}

proof fn lemma_run_normal(out: Seq<char>, st: NormState, s: Seq<char>)
    requires
        consistent(out, st),
    ensures
        normal_form(out + run_from(st, s)),
    decreases s.len(),
{
    if s.len() == 0 {
        lemma_finish_normal(out, st);
    } else {
        lemma_step_consistent(out, st, s[0]);
        lemma_run_normal(out + step_emit(st, s[0]), step_state(st, s[0]), s.drop_first());
        assert(out + run_from(st, s) =~= (out + step_emit(st, s[0])) + run_from(
            step_state(st, s[0]),
            s.drop_first(),
        ));
    }
}

/// Law: whatever the input line, the normalizer's output is in normal form —
/// only lowercase letters, spaces and apostrophes, every apostrophe flanked
/// by letters on both sides, and at most one apostrophe per word.
pub proof fn lemma_normal_text_normal(s: Seq<char>)
    ensures
        normal_form(normal_text(s)),
{
    lemma_run_normal(Seq::empty(), start_state(), s);
    assert(Seq::<char>::empty() + run_from(start_state(), s) =~= run_from(start_state(), s));
}

/// No space occurs in `t` before position `i`.
spec fn no_space_before(t: Seq<char>, i: int) -> bool {
    forall|k: int| #![trigger t[k]] 0 <= k < i ==> t[k] != ' '
}

/// `t` can resume from state `st` with the machine leaving it unchanged:
/// `t` is made of normal-form characters, every apostrophe has a letter
/// directly after it and — unless it opens `t` inside a word of `st` — a
/// letter directly before it, apostrophes of one word are ruled out, and no
/// apostrophe may come before the first space while `st` already holds one.
spec fn resumable(st: NormState, t: Seq<char>) -> bool {
    &&& !st.pending
    &&& forall|i: int|
        #![trigger t[i]]
        0 <= i < t.len() ==> is_lower(t[i]) || t[i] == ' ' || t[i] == '\''
    &&& forall|i: int|
        #![trigger t[i]]
        0 <= i < t.len() && t[i] == '\'' ==> i + 1 < t.len() && is_lower(t[i + 1])
    &&& forall|i: int|
        #![trigger t[i]]
        0 < i < t.len() && t[i] == '\'' ==> is_lower(t[i - 1])
    &&& (t.len() > 0 && t[0] == '\'' ==> st.in_word)
    &&& forall|i: int|
        #![trigger t[i]]
        0 <= i < t.len() && t[i] == '\'' && no_space_before(t, i) ==> !st.apos_seen
    &&& forall|j: int, i: int|
        #![trigger t[j], t[i]]
        0 <= j < i < t.len() && t[j] == '\'' && t[i] == '\'' ==> space_between(t, j, i)
}

proof fn lemma_run_fixed(st: NormState, t: Seq<char>)
    requires
        resumable(st, t),
    ensures
        run_from(st, t) == t,
    decreases t.len(),
{
    if t.len() == 0 {
        assert(run_from(st, t) =~= t);
    } else {
        let c = t[0];
        assert(is_lower(c) || c == ' ' || c == '\'');
        assert(!is_noise(c));
        if is_lower(c) {
            let st2 = step_state(st, c);
            let t1 = t.drop_first();
            assert forall|i: int|
                0 <= i < t1.len() && #[trigger] t1[i] == '\'' && no_space_before(t1, i) implies
                !st2.apos_seen by {
                assert(t[i + 1] == '\'');
                assert forall|k: int| 0 <= k < i + 1 implies #[trigger] t[k] != ' ' by {
                    if k > 0 {
                        assert(t1[k - 1] != ' ');
                    }
                }
            }
            assert forall|j: int, i: int|
                0 <= j < i < t1.len() && #[trigger] t1[j] == '\'' && #[trigger] t1[i]
                    == '\'' implies space_between(t1, j, i) by {
                assert(t[j + 1] == '\'' && t[i + 1] == '\'');
                let k = choose|k: int| j + 1 < k < i + 1 && t[k] == ' ';
                assert(t1[k - 1] == ' ');
            }
            lemma_run_fixed(st2, t1);
            assert(step_emit(st, c) == seq![c]);
            assert(run_from(st, t) =~= t);
        } else if c == ' ' {
            let t1 = t.drop_first();
            assert(t1.len() > 0 && t1[0] == '\'' ==> t[1] == '\'' && is_lower(t[0]));
            assert forall|j: int, i: int|
                0 <= j < i < t1.len() && #[trigger] t1[j] == '\'' && #[trigger] t1[i]
                    == '\'' implies space_between(t1, j, i) by {
                assert(t[j + 1] == '\'' && t[i + 1] == '\'');
                let k = choose|k: int| j + 1 < k < i + 1 && t[k] == ' ';
                assert(t1[k - 1] == ' ');
            }
            lemma_run_fixed(start_state(), t1);
            assert(step_emit(st, c) == seq![' ']);
            assert(run_from(st, t) =~= t);
        } else {
            // c is an apostrophe: it opens t, so the machine is in a word
            // with no apostrophe kept yet, and a letter follows.
            assert(no_space_before(t, 0));
            assert(st.in_word && !st.apos_seen);
            assert(keeps_apostrophe(st, c));
            let st2 = step_state(st, c);
            let t1 = t.drop_first();
            assert(t1[0] == t[1] && is_lower(t[1]));
            let st3 = step_state(st2, t1[0]);
            let t2 = t1.drop_first();
            assert(t1.len() > 0);
            assert(run_from(st, t) == step_emit(st, c) + run_from(st2, t1));
            assert(run_from(st2, t1) == step_emit(st2, t1[0]) + run_from(st3, t2));
            assert(run_from(st, t) =~= step_emit(st2, t1[0]) + run_from(st3, t2));
            assert(forall|i: int| 0 <= i < t2.len() ==> #[trigger] t2[i] == t[i + 2]);
            // a third apostrophe before any space would pair with the one at 0
            // without a space between them
            assert forall|i: int|
                0 <= i < t2.len() && #[trigger] t2[i] == '\'' && no_space_before(t2, i) implies
                !st3.apos_seen by {
                assert(t[i + 2] == '\'');
                assert(space_between(t, 0, i + 2));
                let k = choose|k: int| 0 < k < i + 2 && t[k] == ' ';
                assert(k >= 2);
                assert(t2[k - 2] == ' ');
                assert(false);
            }
            assert(t2.len() > 0 && t2[0] == '\'' ==> st3.in_word);
            assert forall|j: int, i: int|
                0 <= j < i < t2.len() && #[trigger] t2[j] == '\'' && #[trigger] t2[i]
                    == '\'' implies space_between(t2, j, i) by {
                assert(t[j + 2] == '\'' && t[i + 2] == '\'');
                let k = choose|k: int| j + 2 < k < i + 2 && t[k] == ' ';
                assert(t2[k - 2] == ' ');
            }
            lemma_run_fixed(st3, t2);
            assert(step_emit(st2, t1[0]) == seq!['\'', t[1]]);
            assert(run_from(st, t) =~= t);
        }
    }
}

/// Law: normalization is idempotent — normalizing an already-normalized
/// string returns it unchanged.
pub proof fn lemma_normal_text_idempotent(s: Seq<char>)
    ensures
        normal_text(normal_text(s)) == normal_text(s),
{
    lemma_normal_text_normal(s);
    let t = normal_text(s);
    assert(t.len() > 0 && t[0] == '\'' ==> false);
    lemma_run_fixed(start_state(), t);
}

} // verus!
