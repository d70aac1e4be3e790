//! The ranker: orders a frequency table by descending count with ties broken
//! by ascending lexicographic key — a deterministic total order, so output
//! is reproducible — and truncates to a bounded top-N list.

use vstd::multiset::Multiset;
use vstd::prelude::*;
use vstd::string::StrSliceExecFns;
use vstd::utf8::char_u32_cast;

use crate::freq::FrequencyTable;
use crate::freq::copies;
use crate::freq::lemma_pairs_count_at;
use crate::freq::lemma_pairs_insert;
use crate::freq::lemma_pairs_key_exists;
use crate::freq::pairs_multiset;

verus! {

broadcast use vstd::multiset::group_multiset_axioms;

/// Strict lexicographic order on keys, by character code point; a proper
/// prefix comes before its extensions.
pub open spec fn lex_lt(a: Seq<char>, b: Seq<char>) -> bool
    decreases a.len(),
{
    if b.len() == 0 {
        false
    } else if a.len() == 0 {
        true
    } else if (a[0] as u32) < (b[0] as u32) {
        true
    } else if a[0] == b[0] {
        lex_lt(a.drop_first(), b.drop_first())
    } else {
        false
    }
}

/// Entry `(k1, c1)` strictly precedes `(k2, c2)` in a ranking: the larger
/// count comes first, and a tie is broken by ascending key.
pub open spec fn rank_before(k1: Seq<char>, c1: int, k2: Seq<char>, c2: int) -> bool {
    c1 > c2 || (c1 == c2 && lex_lt(k1, k2))
}

/// A ranked list: each entry strictly precedes all later ones.
pub open spec fn sorted_ranking(s: Seq<(Seq<char>, u64)>) -> bool {
    forall|i: int, j: int|
        0 <= i < j < s.len() ==> rank_before(
            (#[trigger] s[i]).0,
            s[i].1 as int,
            (#[trigger] s[j]).0,
            s[j].1 as int,
        )
}

/// Some entry of `s` carries the key `k`.
pub open spec fn ranked_contains(s: Seq<(Seq<char>, u64)>, k: Seq<char>) -> bool {
    exists|i: int| 0 <= i < s.len() && (#[trigger] s[i]).0 == k
}

/// Law: the ranking order is total — two keys are ordered one way or the
/// other unless they are the same key.
pub proof fn lemma_lex_lt_total(a: Seq<char>, b: Seq<char>)
    ensures
        lex_lt(a, b) || lex_lt(b, a) || a == b,
    decreases a.len(),
{
    if a.len() == 0 || b.len() == 0 {
        if a.len() == b.len() {
            assert(a =~= b);
        }
    } else {
        char_u32_cast(a[0], a[0] as u32);
        char_u32_cast(b[0], b[0] as u32);
        if a[0] == b[0] {
            lemma_lex_lt_total(a.drop_first(), b.drop_first());
            if a.drop_first() == b.drop_first() {
                assert(a.drop_first().len() == b.drop_first().len());
                assert(a.len() == b.len());
                assert forall|i: int| 0 <= i < a.len() implies a[i] == b[i] by {
                    if i > 0 {
                        assert(a.drop_first()[i - 1] == b.drop_first()[i - 1]);
                    }
                }
                assert(a =~= b);
            }
        }
    }
}

/// Law: the ranking order is strict — an entry never precedes itself, and
/// precedence one way rules it out the other way.
pub proof fn lemma_lex_lt_asym(a: Seq<char>, b: Seq<char>)
    requires
        lex_lt(a, b),
    ensures
        !lex_lt(b, a),
        a != b,
    decreases a.len(),
{
    if a.len() > 0 {
        char_u32_cast(a[0], a[0] as u32);
        char_u32_cast(b[0], b[0] as u32);
        if a[0] == b[0] {
            lemma_lex_lt_asym(a.drop_first(), b.drop_first());
        }
    }
}

/// Law: the ranking order is transitive.
pub proof fn lemma_lex_lt_trans(a: Seq<char>, b: Seq<char>, c: Seq<char>)
    requires
        lex_lt(a, b),
        lex_lt(b, c),
    ensures
        lex_lt(a, c),
    decreases a.len(),
{
    if a.len() > 0 {
        char_u32_cast(a[0], a[0] as u32);
        char_u32_cast(b[0], b[0] as u32);
        char_u32_cast(c[0], c[0] as u32);
        if (a[0] as u32) == (c[0] as u32) {
            assert(a[0] == c[0]);
            assert(a[0] == b[0]);
            lemma_lex_lt_trans(a.drop_first(), b.drop_first(), c.drop_first());
        }
    }
}

proof fn lemma_rank_before_total(k1: Seq<char>, c1: int, k2: Seq<char>, c2: int)
    requires
        k1 != k2,
    ensures
        rank_before(k1, c1, k2, c2) || rank_before(k2, c2, k1, c1),
{
    lemma_lex_lt_total(k1, k2);
}

proof fn lemma_rank_before_trans(
    k1: Seq<char>,
    c1: int,
    k2: Seq<char>,
    c2: int,
    k3: Seq<char>,
    c3: int,
)
    requires
        rank_before(k1, c1, k2, c2),
        rank_before(k2, c2, k3, c3),
    ensures
        rank_before(k1, c1, k3, c3),
{
    if c1 == c2 && c2 == c3 {
        lemma_lex_lt_trans(k1, k2, k3);
    }
}

/// Character-by-character lexicographic comparison of two strings.
pub fn str_lex_lt(a: &str, b: &str) -> (r: bool)
    ensures
        r == lex_lt(a@, b@),
{
    let na = a.unicode_len();
    let nb = b.unicode_len();
    let mut i: usize = 0;
    proof {
        assert(a@.skip(0) =~= a@);
        assert(b@.skip(0) =~= b@);
    }
    while i < na && i < nb
        invariant
            na == a@.len(),
            nb == b@.len(),
            0 <= i <= na,
            0 <= i <= nb,
            lex_lt(a@, b@) == lex_lt(a@.skip(i as int), b@.skip(i as int)),
        decreases na - i,
    {
        let ca = a.get_char(i);
        let cb = b.get_char(i);
        proof {
            assert(a@.skip(i as int)[0] == ca);
            assert(b@.skip(i as int)[0] == cb);
            assert(a@.skip(i as int).drop_first() =~= a@.skip(i as int + 1));
            assert(b@.skip(i as int).drop_first() =~= b@.skip(i as int + 1));
        }
        if (ca as u32) < (cb as u32) {
            return true;
        }
        if ca != cb {
            proof {
                char_u32_cast(ca, ca as u32);
                char_u32_cast(cb, cb as u32);
            }
            return false;
        }
        i += 1;
    }
    if i < nb {
        proof {
            assert(a@.skip(i as int).len() == 0);
            assert(b@.skip(i as int).len() > 0);
        }
        true
    } else {
        proof {
            assert(b@.skip(i as int).len() == 0);
        }
        false
    }
}

/// Whether entry `a` comes before entry `b` in the ranking.
fn entry_before(a: &(String, u64), b: &(String, u64)) -> (r: bool)
    ensures
        r == rank_before(a.0@, a.1 as int, b.0@, b.1 as int),
{
    if a.1 > b.1 {
        true
    } else if a.1 == b.1 {
        str_lex_lt(a.0.as_str(), b.0.as_str())
    } else {
        false
    }
}

/// The position at which `e` belongs in the already ranked `sorted`: the
/// first entry that `e` precedes, or the end.
fn insert_position(sorted: &Vec<(String, u64)>, e: &(String, u64)) -> (p: usize)
    ensures
        p <= sorted@.len(),
        forall|q: int|
            0 <= q < p ==> !rank_before(
                e.0@,
                e.1 as int,
                (#[trigger] sorted.deep_view()[q]).0,
                sorted.deep_view()[q].1 as int,
            ),
        p < sorted@.len() ==> rank_before(
            e.0@,
            e.1 as int,
            sorted.deep_view()[p as int].0,
            sorted.deep_view()[p as int].1 as int,
        ),
{
    let n = sorted.len();
    let mut p: usize = 0;
    while p < n
        invariant
            n == sorted@.len(),
            0 <= p <= n,
            forall|q: int|
                0 <= q < p ==> !rank_before(
                    e.0@,
                    e.1 as int,
                    (#[trigger] sorted.deep_view()[q]).0,
                    sorted.deep_view()[q].1 as int,
                ),
        decreases n - p,
    {
        if entry_before(e, &sorted[p]) {
            proof {
                assert(sorted.deep_view()[p as int] == (sorted@[p as int].0@, sorted@[p as int].1));
            }
            return p;
        }
        proof {
            assert(sorted.deep_view()[p as int] == (sorted@[p as int].0@, sorted@[p as int].1));
        }
        p += 1;
    }
    p
}

/// Ranks a frequency table: at most `cap` entries, sorted by descending
/// count with ties broken by ascending lexicographic key. Every entry in the
/// result is a key of the table with its exact count, and every key of the
/// table that was left out ranks after every entry that was kept.
pub fn rank(table: &FrequencyTable, cap: usize) -> (r: Vec<(String, u64)>)
    ensures
        r@.len() == if cap < table@.dom().len() {
            cap as int
        } else {
            table@.dom().len() as int
        },
        sorted_ranking(r.deep_view()),
        forall|i: int|
            0 <= i < r@.len() ==> table@.count((#[trigger] r.deep_view()[i]).0)
                == r.deep_view()[i].1,
        forall|i: int| 0 <= i < r@.len() ==> (#[trigger] r.deep_view()[i]).1 >= 1,
        forall|k: Seq<char>, i: int|
            #![trigger table@.count(k), r.deep_view()[i]]
            table@.count(k) > 0 && !ranked_contains(r.deep_view(), k) && 0 <= i < r@.len()
                ==> rank_before(
                r.deep_view()[i].0,
                r.deep_view()[i].1 as int,
                k,
                table@.count(k) as int,
            ),
{
    let entries = table.entry_list();
    let ghost e0 = entries.deep_view();
    let n = entries.len();
    let mut sorted: Vec<(String, u64)> = Vec::new();
    let mut idx: usize = 0;
    proof {
        assert(e0.take(0) =~= Seq::<(Seq<char>, u64)>::empty());
    }
    while idx < n
        invariant
            n == entries@.len(),
            e0 == entries.deep_view(),
            e0.len() == n,
            pairs_multiset(e0) == table@,
            crate::freq::distinct_keys(e0),
            crate::freq::positive_counts(e0),
            0 <= idx <= n,
            sorted@.len() == idx,
            sorted.deep_view().len() == idx,
            pairs_multiset(sorted.deep_view()) == pairs_multiset(e0.take(idx as int)),
            crate::freq::distinct_keys(sorted.deep_view()),
            crate::freq::positive_counts(sorted.deep_view()),
            sorted_ranking(sorted.deep_view()),
        decreases n - idx,
    {
        let e = (entries[idx].0.clone(), entries[idx].1);
        let ghost ev = (e0[idx as int].0, e0[idx as int].1);
        let ghost sdv = sorted.deep_view();
        proof {
            assert(e.0@ == e0[idx as int].0);
            assert(e.1 == e0[idx as int].1);
            // the new key is fresh: it cannot already stand in the sorted part
            assert forall|q: int| 0 <= q < sdv.len() implies (#[trigger] sdv[q]).0 != ev.0 by {
                lemma_pairs_count_at(sdv, q);
                if sdv[q].0 == ev.0 {
                    lemma_pairs_key_exists(e0.take(idx as int), sdv[q].0);
                    let j = choose|j: int|
                        0 <= j < e0.take(idx as int).len() && (#[trigger] e0.take(idx as int)[j]).0
                            == sdv[q].0;
                    assert(e0[j] == e0.take(idx as int)[j]);
                    assert(false);
                }
            }
        }
        let p = insert_position(&sorted, &e);
        let ghost pos = p as int;
        let ghost prev_sv = sorted@;
        let ghost ee = e;
        sorted.insert(p, e);
        proof {
            let sdv2 = sorted.deep_view();
            prev_sv.insert_ensures(pos, ee);
            sdv.insert_ensures(pos, ev);
            assert forall|k: int| 0 <= k < sdv2.len() implies sdv2[k] == sdv.insert(pos, ev)[k] by {
                if k < pos {
                    assert(sorted@[k] == prev_sv[k]);
                } else if k == pos {
                    assert(sorted@[k] == ee);
                } else {
                    assert(sorted@[k] == prev_sv[k - 1]);
                }
            }
            assert(sdv2 =~= sdv.insert(pos, ev));
            lemma_pairs_insert(sdv, pos, ev);
            assert(e0.take(idx as int + 1).drop_last() =~= e0.take(idx as int));
            assert(e0.take(idx as int + 1).last() == e0[idx as int]);
            assert(pairs_multiset(sdv2) == pairs_multiset(e0.take(idx as int + 1)));
            // every already sorted entry before the insertion point precedes
            // the new one
            assert forall|q: int|
                0 <= q < pos implies rank_before(
                (#[trigger] sdv[q]).0,
                sdv[q].1 as int,
                ev.0,
                ev.1 as int,
            ) by {
                lemma_rank_before_total(ev.0, ev.1 as int, sdv[q].0, sdv[q].1 as int);
            }
            // and the new one precedes everything from the insertion point on
            assert forall|q: int|
                pos <= q < sdv.len() implies rank_before(
                ev.0,
                ev.1 as int,
                (#[trigger] sdv[q]).0,
                sdv[q].1 as int,
            ) by {
                if q > pos {
                    lemma_rank_before_trans(
                        ev.0,
                        ev.1 as int,
                        sdv[pos].0,
                        sdv[pos].1 as int,
                        sdv[q].0,
                        sdv[q].1 as int,
                    );
                }
            }
            assert forall|x: int, y: int|
                0 <= x < y < sdv2.len() implies rank_before(
                (#[trigger] sdv2[x]).0,
                sdv2[x].1 as int,
                (#[trigger] sdv2[y]).0,
                sdv2[y].1 as int,
            ) by {
                if x < pos && y < pos {
                    assert(sdv2[x] == sdv[x] && sdv2[y] == sdv[y]);
                } else if x < pos && y == pos {
                    assert(sdv2[x] == sdv[x] && sdv2[y] == ev);
                } else if x < pos && y > pos {
                    assert(sdv2[x] == sdv[x] && sdv2[y] == sdv[y - 1]);
                } else if x == pos {
                    assert(sdv2[x] == ev && sdv2[y] == sdv[y - 1]);
                } else {
                    assert(sdv2[x] == sdv[x - 1] && sdv2[y] == sdv[y - 1]);
                }
            }
            assert(crate::freq::distinct_keys(sdv2)) by {
                assert forall|x: int, y: int|
                    0 <= x < y < sdv2.len() implies (#[trigger] sdv2[x]).0 != (#[trigger] sdv2[y]).0
                by {
                    if x < pos && y < pos {
                        assert(sdv2[x] == sdv[x] && sdv2[y] == sdv[y]);
                    } else if x < pos && y == pos {
                        assert(sdv2[x] == sdv[x] && sdv2[y] == ev);
                    } else if x < pos && y > pos {
                        assert(sdv2[x] == sdv[x] && sdv2[y] == sdv[y - 1]);
                    } else if x == pos {
                        assert(sdv2[x] == ev && sdv2[y] == sdv[y - 1]);
                    } else {
                        assert(sdv2[x] == sdv[x - 1] && sdv2[y] == sdv[y - 1]);
                    }
                }
            }
        }
        idx += 1;
    }
    proof {
        assert(e0.take(n as int) =~= e0);
    }
    let total = sorted.len();
    let keep: usize = if cap < total {
        cap
    } else {
        total
    };
    let ghost full = sorted.deep_view();
    let ghost prev_sv = sorted@;
    sorted.truncate(keep);
    proof {
        let dv = sorted.deep_view();
        assert forall|k: int| 0 <= k < dv.len() implies dv[k] == full[k] by {
            assert(sorted@[k] == prev_sv[k]);
        }
        assert(dv =~= full.take(keep as int));
        assert forall|i: int|
            0 <= i < dv.len() implies table@.count((#[trigger] dv[i]).0) == dv[i].1 by {
            lemma_pairs_count_at(full, i);
        }
        assert forall|k: Seq<char>, i: int|
            table@.count(k) > 0 && !ranked_contains(dv, k) && 0 <= i < dv.len() implies rank_before(
            (#[trigger] dv[i]).0,
            dv[i].1 as int,
            k,
            #[trigger] table@.count(k) as int,
        ) by {
            lemma_pairs_key_exists(full, k);
            let j = choose|j: int| 0 <= j < full.len() && (#[trigger] full[j]).0 == k;
            lemma_pairs_count_at(full, j);
            if j < keep {
                assert(dv[j].0 == k);
                assert(ranked_contains(dv, k));
                assert(false);
            }
            assert(dv[i] == full[i]);
        }
    }
    sorted
}

} // verus!
