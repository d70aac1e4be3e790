//! Frequency tables: mappings from n-gram key to occurrence count, with
//! unique keys and no intrinsic order, and the corpus combiner that sums
//! per-document tables into corpus-wide ones.
//!
//! A table is viewed as a multiset of keys in which each key's multiplicity
//! is its count; combining tables is multiset addition, which the laws below
//! show commutative and associative.

use vstd::multiset::Multiset;
use vstd::prelude::*;

use crate::text::str_eq;

verus! {

broadcast use {vstd::multiset::group_multiset_axioms, vstd::set::group_set_axioms};

/// A multiset holding `n` copies of `v`.
pub open spec fn copies(v: Seq<char>, n: nat) -> Multiset<Seq<char>>
    decreases n,
{
    if n == 0 {
        Multiset::empty()
    } else {
        copies(v, (n - 1) as nat).insert(v)
    }
}

/// The contents of an entry sequence: each key with its count as its
/// multiplicity.
pub open spec fn pairs_multiset(s: Seq<(Seq<char>, u64)>) -> Multiset<Seq<char>>
    decreases s.len(),
{
    if s.len() == 0 {
        Multiset::empty()
    } else {
        pairs_multiset(s.drop_last()).add(copies(s.last().0, s.last().1 as nat))
    }
}

/// The sum of the counts of an entry sequence.
pub open spec fn pairs_total(s: Seq<(Seq<char>, u64)>) -> int
    decreases s.len(),
{
    if s.len() == 0 {
        0
    } else {
        pairs_total(s.drop_last()) + s.last().1
    }
}

/// The keys of an entry sequence are pairwise distinct.
pub open spec fn distinct_keys(s: Seq<(Seq<char>, u64)>) -> bool {
    forall|i: int, j: int| 0 <= i < j < s.len() ==> (#[trigger] s[i]).0 != (#[trigger] s[j]).0
}

/// Every count of an entry sequence is at least one.
pub open spec fn positive_counts(s: Seq<(Seq<char>, u64)>) -> bool {
    forall|i: int| 0 <= i < s.len() ==> (#[trigger] s[i]).1 >= 1
}

pub proof fn lemma_copies(v: Seq<char>, n: nat)
    ensures
        copies(v, n).len() == n,
        copies(v, n).count(v) == n,
        forall|w: Seq<char>| w != v ==> #[trigger] copies(v, n).count(w) == 0,
    decreases n,
{
    if n > 0 {
        lemma_copies(v, (n - 1) as nat);
    }
}

proof fn lemma_copies_split(v: Seq<char>, m: nat, n: nat)
    ensures
        copies(v, m + n) == copies(v, m).add(copies(v, n)),
{
    lemma_copies(v, m + n);
    lemma_copies(v, m);
    lemma_copies(v, n);
    assert forall|w: Seq<char>|
        #[trigger] copies(v, m + n).count(w) == copies(v, m).add(copies(v, n)).count(w) by {
        if w != v {
            assert(copies(v, m + n).count(w) == 0);
            assert(copies(v, m).count(w) == 0);
            assert(copies(v, n).count(w) == 0);
        }
    }
    assert(copies(v, m + n) =~= copies(v, m).add(copies(v, n)));
}

pub proof fn lemma_pairs_len(s: Seq<(Seq<char>, u64)>)
    ensures
        pairs_multiset(s).len() == pairs_total(s),
    decreases s.len(),
{
    if s.len() > 0 {
        lemma_pairs_len(s.drop_last());
        lemma_copies(s.last().0, s.last().1 as nat);
    }
}

pub proof fn lemma_pairs_count_absent(s: Seq<(Seq<char>, u64)>, k: Seq<char>)
    requires
        forall|i: int| 0 <= i < s.len() ==> (#[trigger] s[i]).0 != k,
    ensures
        pairs_multiset(s).count(k) == 0,
    decreases s.len(),
{
    if s.len() > 0 {
        assert(forall|i: int|
            0 <= i < s.drop_last().len() ==> (#[trigger] s.drop_last()[i]).0 != k);
        lemma_pairs_count_absent(s.drop_last(), k);
        lemma_copies(s.last().0, s.last().1 as nat);
    }
}

pub proof fn lemma_pairs_count_at(s: Seq<(Seq<char>, u64)>, i: int)
    requires
        distinct_keys(s),
        0 <= i < s.len(),
    ensures
        pairs_multiset(s).count(s[i].0) == s[i].1,
    decreases s.len(),
{
    let k = s[i].0;
    if i == s.len() - 1 {
        assert(forall|j: int|
            0 <= j < s.drop_last().len() ==> (#[trigger] s.drop_last()[j]).0 != k);
        lemma_pairs_count_absent(s.drop_last(), k);
        lemma_copies(k, s.last().1 as nat);
    } else {
        assert(distinct_keys(s.drop_last()));
        assert(s.drop_last()[i] == s[i]);
        lemma_pairs_count_at(s.drop_last(), i);
        assert(s.last().0 != k);
        lemma_copies(s.last().0, s.last().1 as nat);
    }
}

pub proof fn lemma_pairs_dom(s: Seq<(Seq<char>, u64)>)
    requires
        distinct_keys(s),
        positive_counts(s),
    ensures
        pairs_multiset(s).dom().len() == s.len(),
    decreases s.len(),
{
    if s.len() == 0 {
        assert(pairs_multiset(s).dom() =~= Set::<Seq<char>>::empty());
    } else {
        let head = s.drop_last();
        let k = s.last().0;
        let c = s.last().1;
        assert(distinct_keys(head));
        assert(positive_counts(head)) by {
            assert(forall|i: int| 0 <= i < head.len() ==> head[i] == s[i]);
        }
        lemma_pairs_dom(head);
        lemma_copies(k, c as nat);
        assert(forall|i: int| 0 <= i < head.len() ==> (#[trigger] head[i]).0 != k);
        lemma_pairs_count_absent(head, k);
        assert(pairs_multiset(s).dom() =~= pairs_multiset(head).dom().insert(k));
        assert(!pairs_multiset(head).dom().contains(k));
    }
}

proof fn lemma_pairs_push(s: Seq<(Seq<char>, u64)>, p: (Seq<char>, u64))
    ensures
        pairs_multiset(s.push(p)) == pairs_multiset(s).add(copies(p.0, p.1 as nat)),
        pairs_total(s.push(p)) == pairs_total(s) + p.1,
{
    assert(s.push(p).drop_last() =~= s);
    assert(s.push(p).last() == p);
}

proof fn lemma_pairs_update_add(s: Seq<(Seq<char>, u64)>, i: int, a: u64)
    requires
        0 <= i < s.len(),
        s[i].1 + a <= u64::MAX,
    ensures
        pairs_multiset(s.update(i, (s[i].0, (s[i].1 + a) as u64))) == pairs_multiset(s).add(
            copies(s[i].0, a as nat),
        ),
        pairs_total(s.update(i, (s[i].0, (s[i].1 + a) as u64))) == pairs_total(s) + a,
    decreases s.len(),
{
    let s2 = s.update(i, (s[i].0, (s[i].1 + a) as u64));
    if i == s.len() - 1 {
        assert(s2.drop_last() =~= s.drop_last());
        assert(s2.last() == (s[i].0, (s[i].1 + a) as u64));
        lemma_copies_split(s[i].0, s[i].1 as nat, a as nat);
        assert(pairs_multiset(s.drop_last()).add(copies(s[i].0, (s[i].1 + a) as nat))
            =~= pairs_multiset(s).add(copies(s[i].0, a as nat)));
    } else {
        assert(s2.drop_last() =~= s.drop_last().update(i, (s[i].0, (s[i].1 + a) as u64)));
        assert(s.drop_last()[i] == s[i]);
        lemma_pairs_update_add(s.drop_last(), i, a);
        assert(s2.last() == s.last());
        assert(pairs_multiset(s.drop_last()).add(copies(s[i].0, a as nat)).add(
            copies(s.last().0, s.last().1 as nat),
        ) =~= pairs_multiset(s).add(copies(s[i].0, a as nat)));
    }
}

pub proof fn lemma_pairs_key_exists(s: Seq<(Seq<char>, u64)>, k: Seq<char>)
    requires
        pairs_multiset(s).count(k) > 0,
    ensures
        exists|i: int| 0 <= i < s.len() && (#[trigger] s[i]).0 == k,
    decreases s.len(),
{
    if s.len() == 0 {
        assert(false);
    } else if s.last().0 == k {
        assert(s[s.len() - 1].0 == k);
    } else {
        lemma_copies(s.last().0, s.last().1 as nat);
        lemma_pairs_key_exists(s.drop_last(), k);
        let i = choose|i: int| 0 <= i < s.drop_last().len() && (#[trigger] s.drop_last()[i]).0 == k;
        assert(s[i].0 == k);
    }
}

pub proof fn lemma_pairs_insert(s: Seq<(Seq<char>, u64)>, pos: int, p: (Seq<char>, u64))
    requires
        0 <= pos <= s.len(),
    ensures
        pairs_multiset(s.insert(pos, p)) == pairs_multiset(s).add(copies(p.0, p.1 as nat)),
        pairs_total(s.insert(pos, p)) == pairs_total(s) + p.1,
    decreases s.len(),
{
    let s2 = s.insert(pos, p);
    s.insert_ensures(pos, p);
    if pos == s.len() {
        assert(s2 =~= s.push(p));
        lemma_pairs_push(s, p);
    } else {
        assert(s2.last() == s.last()) by {
            assert(s2[s.len() - 1 + 1] == s[s.len() - 1]);
        }
        s.drop_last().insert_ensures(pos, p);
        assert(s2.drop_last() =~= s.drop_last().insert(pos, p));
        lemma_pairs_insert(s.drop_last(), pos, p);
    }
}

proof fn lemma_pairs_total_take(s: Seq<(Seq<char>, u64)>, j: int)
    requires
        0 <= j <= s.len(),
    ensures
        pairs_total(s.take(j)) <= pairs_total(s),
        pairs_total(s.take(j)) >= 0,
    decreases s.len() - j,
{
    lemma_pairs_total_nonneg(s.take(j));
    if j == s.len() {
        assert(s.take(j) =~= s);
    } else {
        assert(s.take(j + 1).drop_last() =~= s.take(j));
        assert(s.take(j + 1).last() == s[j]);
        lemma_pairs_total_take(s, j + 1);
    }
}

proof fn lemma_pairs_total_nonneg(s: Seq<(Seq<char>, u64)>)
    ensures
        pairs_total(s) >= 0,
    decreases s.len(),
{
    if s.len() > 0 {
        lemma_pairs_total_nonneg(s.drop_last());
    }
}

/// A frequency table: occurrence counts keyed by n-gram, keys unique, no
/// intrinsic order. Its view is the multiset in which each key occurs with
/// its count as multiplicity.
pub struct FrequencyTable {
    entries: Vec<(String, u64)>,
}

impl View for FrequencyTable {
    type V = Multiset<Seq<char>>;

    closed spec fn view(&self) -> Multiset<Seq<char>> {
        pairs_multiset(self.entries.deep_view())
    }
}

impl FrequencyTable {
    #[verifier::type_invariant]
    closed spec fn inv(self) -> bool {
        &&& distinct_keys(self.entries.deep_view())
        &&& positive_counts(self.entries.deep_view())
        &&& pairs_total(self.entries.deep_view()) <= u64::MAX
    }

    /// The empty table.
    pub fn new() -> (t: FrequencyTable)
        ensures
            t@ == Multiset::<Seq<char>>::empty(),
    {
        let entries: Vec<(String, u64)> = Vec::new();
        proof {
            assert(entries.deep_view() =~= Seq::<(Seq<char>, u64)>::empty());
        }
        FrequencyTable { entries }
    }

    /// The count stored for `key`; zero when the key is absent.
    pub fn get(&self, key: &str) -> (r: u64)
        ensures
            r as nat == self@.count(key@),
    {
        proof {
            use_type_invariant(&*self);
        }
        let n = self.entries.len();
        let mut i: usize = 0;
        while i < n
            invariant
                n == self.entries@.len(),
                0 <= i <= n,
                distinct_keys(self.entries.deep_view()),
                forall|k: int| 0 <= k < i ==> (#[trigger] self.entries.deep_view()[k]).0 != key@,
            decreases n - i,
        {
            if str_eq(self.entries[i].0.as_str(), key) {
                proof {
                    lemma_pairs_count_at(self.entries.deep_view(), i as int);
                }
                return self.entries[i].1;
            }
            i += 1;
        }
        proof {
            lemma_pairs_count_absent(self.entries.deep_view(), key@);
        }
        0
    }

    /// Adds `amount` occurrences of `key` to the table.
    pub fn add_count(&mut self, key: &str, amount: u64)
        requires
            old(self)@.len() + amount <= u64::MAX,
        ensures
            final(self)@ == old(self)@.add(copies(key@, amount as nat)),
    {
        proof {
            use_type_invariant(&*self);
            lemma_pairs_len(self.entries.deep_view());
        }
        let ghost s0 = self.entries.deep_view();
        let mut entries: Vec<(String, u64)> = Vec::new();
        std::mem::swap(&mut entries, &mut self.entries);
        proof {
            assert(self.entries.deep_view() =~= Seq::<(Seq<char>, u64)>::empty());
        }
        let n = entries.len();
        let mut i: usize = 0;
        let mut found = false;
        while i < n && !found
            invariant
                n == entries@.len(),
                0 <= i <= n,
                entries.deep_view() == s0,
                !found ==> forall|k: int| 0 <= k < i ==> (#[trigger] s0[k]).0 != key@,
                found ==> i < n && s0[i as int].0 == key@,
            decreases n - i + (if found { 0int } else { 1int }),
        {
            if str_eq(entries[i].0.as_str(), key) {
                found = true;
            } else {
                i += 1;
            }
        }
        if found {
            let c = entries[i].1;
            proof {
                lemma_pairs_count_at(s0, i as int);
                assert(pairs_multiset(s0).count(key@) <= pairs_multiset(s0).len());
                lemma_pairs_len(s0);
            }
            entries[i].1 = c + amount;
            proof {
                lemma_pairs_update_add(s0, i as int, amount);
                assert(entries.deep_view() =~= s0.update(
                    i as int,
                    (s0[i as int].0, (s0[i as int].1 + amount) as u64),
                ));
            }
        } else if amount > 0 {
            entries.push((String::from_str(key), amount));
            proof {
                lemma_pairs_push(s0, (key@, amount));
                assert(entries.deep_view() =~= s0.push((key@, amount)));
            }
        } else {
            proof {
                lemma_copies(key@, 0);
                assert(pairs_multiset(s0).add(copies(key@, 0)) =~= pairs_multiset(s0));
            }
        }
        std::mem::swap(&mut entries, &mut self.entries);
    }

    /// Adds one occurrence of `key` to the table.
    pub fn increment(&mut self, key: &str)
        requires
            old(self)@.len() < u64::MAX,
        ensures
            final(self)@ == old(self)@.insert(key@),
    {
        self.add_count(key, 1);
        proof {
            lemma_copies(key@, 1);
            assert(copies(key@, 1) =~= Multiset::singleton(key@));
        }
    }

    /// Folds another table into this one: the count for each key becomes the
    /// sum of the two counts. This is the corpus combiner.
    pub fn merge_from(&mut self, other: &FrequencyTable)
        requires
            old(self)@.len() + other@.len() <= u64::MAX,
        ensures
            final(self)@ == old(self)@.add(other@),
    {
        let ghost t = other.entries.deep_view();
        proof {
            lemma_pairs_len(t);
            lemma_pairs_total_nonneg(t);
        }
        let n = other.entries.len();
        let mut i: usize = 0;
        proof {
            assert(t.take(0) =~= Seq::<(Seq<char>, u64)>::empty());
            assert(old(self)@.add(pairs_multiset(t.take(0))) =~= old(self)@);
        }
        while i < n
            invariant
                n == other.entries@.len(),
                t == other.entries.deep_view(),
                0 <= i <= n,
                old(self)@.len() + pairs_total(t) <= u64::MAX,
                self@ == old(self)@.add(pairs_multiset(t.take(i as int))),
            decreases n - i,
        {
            let c = other.entries[i].1;
            proof {
                lemma_pairs_len(t.take(i as int));
                assert(t.take(i as int + 1).drop_last() =~= t.take(i as int));
                assert(t.take(i as int + 1).last() == t[i as int]);
                lemma_pairs_total_take(t, i as int + 1);
                assert(self@.len() + c <= u64::MAX);
            }
            self.add_count(other.entries[i].0.as_str(), c);
            proof {
                assert(old(self)@.add(pairs_multiset(t.take(i as int))).add(
                    copies(t[i as int].0, c as nat),
                ) =~= old(self)@.add(pairs_multiset(t.take(i as int + 1))));
            }
            i += 1;
        }
        proof {
            assert(t.take(n as int) =~= t);
        }
    }

    /// The number of distinct keys in the table.
    pub fn unique_count(&self) -> (r: usize)
        ensures
            r == self@.dom().len(),
    {
        proof {
            use_type_invariant(&*self);
            lemma_pairs_dom(self.entries.deep_view());
        }
        self.entries.len()
    }

    /// The sum of all counts in the table: the total number of occurrences.
    pub fn total_count(&self) -> (r: u64)
        ensures
            r as nat == self@.len(),
    {
        proof {
            use_type_invariant(&*self);
            lemma_pairs_len(self.entries.deep_view());
        }
        let ghost s = self.entries.deep_view();
        let n = self.entries.len();
        let mut sum: u64 = 0;
        let mut i: usize = 0;
        proof {
            assert(s.take(0) =~= Seq::<(Seq<char>, u64)>::empty());
        }
        while i < n
            invariant
                n == self.entries@.len(),
                s == self.entries.deep_view(),
                0 <= i <= n,
                pairs_total(s) <= u64::MAX,
                sum == pairs_total(s.take(i as int)),
            decreases n - i,
        {
            proof {
                assert(s.take(i as int + 1).drop_last() =~= s.take(i as int));
                assert(s.take(i as int + 1).last() == s[i as int]);
                lemma_pairs_total_take(s, i as int + 1);
            }
            sum = sum + self.entries[i].1;
            i += 1;
        }
        proof {
            assert(s.take(n as int) =~= s);
        }
        sum
    }

    /// The table's entries as key-count pairs, in unspecified order; each
    /// key appears once, with its full count.
    pub fn entry_list(&self) -> (r: Vec<(String, u64)>)
        ensures
            pairs_multiset(r.deep_view()) == self@,
            distinct_keys(r.deep_view()),
            positive_counts(r.deep_view()),
            pairs_total(r.deep_view()) <= u64::MAX,
            r@.len() == self@.dom().len(),
    {
        proof {
            use_type_invariant(&*self);
            lemma_pairs_dom(self.entries.deep_view());
        }
        let ghost s = self.entries.deep_view();
        let n = self.entries.len();
        let mut r: Vec<(String, u64)> = Vec::new();
        let mut i: usize = 0;
        proof {
            assert(r.deep_view() =~= s.take(0));
        }
        while i < n
            invariant
                n == self.entries@.len(),
                s == self.entries.deep_view(),
                0 <= i <= n,
                r.deep_view() == s.take(i as int),
            decreases n - i,
        {
            let key = self.entries[i].0.clone();
            let c = self.entries[i].1;
            let ghost prev = r.deep_view();
            let ghost prev_rv = r@;
            r.push((key, c));
            proof {
                assert(s.len() == n);
                assert(prev.len() == i as int);
                assert(r@ == prev_rv.push((key, c)));
                let dv = r.deep_view();
                assert(dv.len() == i as int + 1);
                assert forall|k: int| 0 <= k < i + 1 implies dv[k] == s.take(i as int + 1)[k] by {
                    if k < i as int {
                        assert(r@[k] == prev_rv[k]);
                        assert(dv[k] == prev[k]);
                    } else {
                        assert(r@[k] == (key, c));
                        assert(dv[k] == (key@, c));
                    }
                }
                assert(dv =~= s.take(i as int + 1));
            }
            i += 1;
        }
        proof {
            assert(s.take(n as int) =~= s);
        }
        r
    }
}

/// Law: combining two frequency tables is commutative — the combined table
/// does not depend on the order of the two.
pub proof fn lemma_combine_commutative(a: Multiset<Seq<char>>, b: Multiset<Seq<char>>)
    ensures
        a.add(b) == b.add(a),
{
    assert(a.add(b) =~= b.add(a));
}

/// Law: combining frequency tables is associative, so together with
/// commutativity any ordering of a fixed collection of per-document tables
/// combines to the same corpus table.
pub proof fn lemma_combine_associative(
    a: Multiset<Seq<char>>,
    b: Multiset<Seq<char>>,
    c: Multiset<Seq<char>>,
)
    ensures
        a.add(b).add(c) == a.add(b.add(c)),
{
    assert(a.add(b).add(c) =~= a.add(b.add(c)));
}

} // verus!
