//! The n-gram aggregator: slides a window of n consecutive tokens across a
//! token sequence, keeps the windows in which no token is a stop word or
//! shorter than the minimum length, and counts each kept window's
//! space-joined key.

use vstd::multiset::Multiset;
use vstd::prelude::*;
use vstd::string::StrSliceExecFns;
use vstd::string::StringExecFns;

use crate::freq::FrequencyTable;
use crate::stopwords::StopWordSet;
use crate::text::push_char;

verus! {

broadcast use vstd::multiset::group_multiset_axioms;

/// The `n` consecutive tokens starting at position `i`.
pub open spec fn window(toks: Seq<Seq<char>>, i: int, n: int) -> Seq<Seq<char>> {
    toks.subrange(i, i + n)
}

/// Tokens joined into one key with a single space between neighbours.
pub open spec fn join_tokens(ws: Seq<Seq<char>>) -> Seq<char>
    decreases ws.len(),
{
    if ws.len() == 0 {
        seq![]
    } else if ws.len() == 1 {
        ws[0]
    } else {
        join_tokens(ws.drop_last()) + seq![' '] + ws.last()
    }
}

/// An interesting window: none of its tokens is a stop word, and none is
/// shorter than the minimum length.
pub open spec fn interesting(ws: Seq<Seq<char>>, stops: Set<Seq<char>>, min: nat) -> bool {
    forall|j: int| 0 <= j < ws.len() ==> !stops.contains(#[trigger] ws[j]) && ws[j].len() >= min
}

/// The keys of the interesting windows among the first `w` window positions,
/// one occurrence per window.
pub open spec fn gram_counts_upto(
    toks: Seq<Seq<char>>,
    n: nat,
    stops: Set<Seq<char>>,
    min: nat,
    w: int,
) -> Multiset<Seq<char>>
    decreases w,
{
    if w <= 0 {
        Multiset::empty()
    } else {
        let prev = gram_counts_upto(toks, n, stops, min, w - 1);
        if interesting(window(toks, w - 1, n as int), stops, min) {
            prev.insert(join_tokens(window(toks, w - 1, n as int)))
        } else {
            prev
        }
    }
}

/// The frequency table, as a multiset, of all interesting n-grams of a token
/// sequence: window starts run from 0 through `toks.len() - n`; a sequence
/// with fewer than `n` tokens has no windows and yields the empty table.
pub open spec fn gram_counts(
    toks: Seq<Seq<char>>,
    n: nat,
    stops: Set<Seq<char>>,
    min: nat,
) -> Multiset<Seq<char>> {
    if n == 0 || toks.len() < n {
        Multiset::empty()
    } else {
        gram_counts_upto(toks, n, stops, min, toks.len() - n + 1)
    }
}

proof fn lemma_upto_len(toks: Seq<Seq<char>>, n: nat, stops: Set<Seq<char>>, min: nat, w: int)
    requires
        w >= 0,
    ensures
        gram_counts_upto(toks, n, stops, min, w).len() <= w,
        (forall|i: int| 0 <= i < w ==> interesting(window(toks, i, n as int), stops, min))
            ==> gram_counts_upto(toks, n, stops, min, w).len() == w,
    decreases w,
{
    if w > 0 {
        lemma_upto_len(toks, n, stops, min, w - 1);
    }
}

/// Law: a token sequence with fewer than `n` tokens — the empty sequence
/// among them — yields the empty table for order `n`.
pub proof fn lemma_gram_counts_undersized(
    toks: Seq<Seq<char>>,
    n: nat,
    stops: Set<Seq<char>>,
    min: nat,
)
    requires
        toks.len() < n,
    ensures
        gram_counts(toks, n, stops, min) == Multiset::<Seq<char>>::empty(),
{
}

/// Law: order `n` examines exactly `toks.len() - n + 1` windows: that many
/// occurrences are counted in all when every window is interesting, and
/// never more.
pub proof fn lemma_gram_counts_window_count(
    toks: Seq<Seq<char>>,
    n: nat,
    stops: Set<Seq<char>>,
    min: nat,
)
    requires
        1 <= n <= toks.len(),
    ensures
        gram_counts(toks, n, stops, min).len() <= toks.len() - n + 1,
        (forall|i: int|
            0 <= i <= toks.len() - n ==> interesting(window(toks, i, n as int), stops, min))
            ==> gram_counts(toks, n, stops, min).len() == toks.len() - n + 1,
{
    lemma_upto_len(toks, n, stops, min, toks.len() - n + 1);
}

/// The number of occurrences an aggregation counts never exceeds the number
/// of tokens.
pub proof fn lemma_gram_counts_len(toks: Seq<Seq<char>>, n: nat, stops: Set<Seq<char>>, min: nat)
    ensures
        gram_counts(toks, n, stops, min).len() <= toks.len(),
{
    if n >= 1 && toks.len() >= n {
        lemma_upto_len(toks, n, stops, min, toks.len() - n + 1);
    }
}

/// Law: the filter is sound — every key the aggregator counts is the join
/// of some interesting window, so no counted n-gram contains a stop word or
/// an undersized token.
pub proof fn lemma_gram_counts_interesting(
    toks: Seq<Seq<char>>,
    n: nat,
    stops: Set<Seq<char>>,
    min: nat,
    k: Seq<char>,
)
    requires
        gram_counts(toks, n, stops, min).count(k) > 0,
    ensures
        exists|i: int|
            0 <= i <= toks.len() - n && interesting(#[trigger] window(toks, i, n as int), stops, min)
                && join_tokens(window(toks, i, n as int)) == k,
{
    broadcast use vstd::multiset::group_multiset_axioms;

    lemma_upto_interesting(toks, n, stops, min, toks.len() - n + 1, k);
}

proof fn lemma_upto_interesting(
    toks: Seq<Seq<char>>,
    n: nat,
    stops: Set<Seq<char>>,
    min: nat,
    w: int,
    k: Seq<char>,
)
    requires
        gram_counts_upto(toks, n, stops, min, w).count(k) > 0,
    ensures
        exists|i: int|
            0 <= i < w && interesting(#[trigger] window(toks, i, n as int), stops, min)
                && join_tokens(window(toks, i, n as int)) == k,
    decreases w,
{
    broadcast use vstd::multiset::group_multiset_axioms;

    if w <= 0 {
        assert(Multiset::<Seq<char>>::empty().count(k) == 0);
        assert(false);
    } else {
        let prev = gram_counts_upto(toks, n, stops, min, w - 1);
        if interesting(window(toks, w - 1, n as int), stops, min) && join_tokens(
            window(toks, w - 1, n as int),
        ) == k {
            assert(interesting(window(toks, w - 1, n as int), stops, min));
        } else {
            lemma_upto_interesting(toks, n, stops, min, w - 1, k);
        }
    }
}

/// Builds the table of all interesting n-grams of `words`: every window
/// of `n` consecutive tokens whose members are all at least `min_len`
/// long and none of them a stop word contributes one occurrence of its
/// space-joined key.
pub fn get_ngram_occurrences(
    words: &Vec<String>,
    n: usize,
    stops: &StopWordSet,
    min_len: usize,
) -> (t: FrequencyTable)
    requires
        1 <= n,
    ensures
        t@ == gram_counts(words.deep_view(), n as nat, stops@, min_len as nat),
{
    let ghost toks = words.deep_view();
    let mut table = FrequencyTable::new();
    let len = words.len();
    proof {
        assert(toks.len() == len);
    }
    if len < n {
        return table;
    }
    let wins = len - n + 1;
    let mut i: usize = 0;
    while i < wins
        invariant
            toks == words.deep_view(),
            len == words@.len(),
            toks.len() == len,
            1 <= n <= len,
            wins == len - n + 1,
            0 <= i <= wins,
            table@ == gram_counts_upto(toks, n as nat, stops@, min_len as nat, i as int),
            table@.len() <= i,
        decreases wins - i,
    {
        let ghost win = window(toks, i as int, n as int);
        proof {
            assert(win.len() == n);
        }
        // does every token of the window pass the filter?
        let mut ok = true;
        let mut j: usize = 0;
        while j < n
            invariant
                toks == words.deep_view(),
                len == words@.len(),
                toks.len() == len,
                1 <= n <= len,
                i + n <= len,
                win == window(toks, i as int, n as int),
                0 <= j <= n,
                ok ==> forall|q: int|
                    0 <= q < j ==> !stops@.contains(#[trigger] win[q]) && win[q].len()
                        >= min_len,
                !ok ==> exists|q: int|
                    0 <= q < j && (stops@.contains(#[trigger] win[q]) || win[q].len()
                        < min_len),
            decreases n - j,
        {
            let word = &words[i + j];
            proof {
                assert(win[j as int] == toks[i + j]);
            }
            if word.as_str().unicode_len() < min_len || stops.contains(word.as_str()) {
                ok = false;
            }
            j += 1;
        }
        let ghost prev_table = table@;
        if ok {
            proof {
                assert(interesting(win, stops@, min_len as nat));
            }
            // build the space-joined key
            let mut key = String::new();
            let mut q: usize = 0;
            proof {
                assert(win.take(0) =~= Seq::<Seq<char>>::empty());
            }
            while q < n
                invariant
                    toks == words.deep_view(),
                    len == words@.len(),
                    toks.len() == len,
                    1 <= n <= len,
                    i + n <= len,
                    win == window(toks, i as int, n as int),
                    0 <= q <= n,
                    key@ == join_tokens(win.take(q as int)),
                decreases n - q,
            {
                if q > 0 {
                    push_char(&mut key, ' ');
                }
                key.append(words[i + q].as_str());
                proof {
                    assert(win[q as int] == toks[i + q]);
                    assert(win.take(q as int + 1).drop_last() =~= win.take(q as int));
                    assert(win.take(q as int + 1).last() == win[q as int]);
                    if q == 0 {
                        assert(key@ =~= win[0]);
                        assert(win.take(1)[0] == win[0]);
                    }
                }
                q += 1;
            }
            proof {
                assert(win.take(n as int) =~= win);
            }
            table.increment(key.as_str());
        } else {
            proof {
                assert(!interesting(win, stops@, min_len as nat));
            }
        }
        proof {
            assert(table@ == gram_counts_upto(
                toks,
                n as nat,
                stops@,
                min_len as nat,
                i as int + 1,
            ));
        }
        i += 1;
    }
    table
}

} // verus!
