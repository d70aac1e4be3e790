//! The stop-word set: an immutable set of lowercase words fixed at
//! construction and shared read-only by token filtering and n-gram
//! aggregation, plus the curated default list of common English function
//! words.

use vstd::prelude::*;

use crate::text::str_eq;

verus! {

/// An immutable set of stop words, viewed as the set of their character
/// sequences.
pub struct StopWordSet {
    words: Vec<String>,
}

impl View for StopWordSet {
    type V = Set<Seq<char>>;

    closed spec fn view(&self) -> Set<Seq<char>> {
        self.words.deep_view().to_set()
    }
}

impl StopWordSet {
    /// Builds a stop-word set holding exactly the given words.
    pub fn new(words: Vec<String>) -> (s: StopWordSet)
        ensures
            s@ == words.deep_view().to_set(),
    {
        StopWordSet { words }
    }

    /// The empty stop-word set.
    pub fn empty() -> (s: StopWordSet)
        ensures
            s@ == Set::<Seq<char>>::empty(),
    {
        let words: Vec<String> = Vec::new();
        proof {
            assert(words.deep_view().to_set() =~= Set::<Seq<char>>::empty());
        }
        StopWordSet { words }
    }

    /// Whether `w` is a stop word.
    pub fn contains(&self, w: &str) -> (r: bool)
        ensures
            r == self@.contains(w@),
    {
        let n = self.words.len();
        let mut i: usize = 0;
        while i < n
            invariant
                n == self.words@.len(),
                0 <= i <= n,
                forall|k: int| 0 <= k < i ==> self.words.deep_view()[k] != w@,
            decreases n - i,
        {
            if str_eq(self.words[i].as_str(), w) {
                proof {
                    assert(self.words.deep_view()[i as int] == w@);
                }
                return true;
            }
            i += 1;
        }
        proof {
            assert(!self.words.deep_view().contains(w@));
        }
        false
    }
}

/// The curated list of common English function words used as the default
/// stop-word list.
pub open spec fn default_stop_list() -> Seq<Seq<char>> {
    seq![
        "the"@, "of"@, "to"@, "a"@, "and"@, "in"@, "said"@, "for"@, "that"@, "was"@,
        "on"@, "he"@, "is"@, "with"@, "at"@, "by"@, "it"@, "from"@, "as"@, "be"@,
        "were"@, "an"@, "have"@, "his"@, "but"@, "has"@, "are"@, "not"@, "who"@,
        "they"@, "its"@, "had"@, "will"@, "would"@, "about"@, "i"@, "been"@,
        "this"@, "their"@, "new"@, "or"@, "which"@, "we"@, "more"@, "after"@,
        "us"@, "percent"@, "up"@, "one"@, "people"@,
    ]
}

/// The default stop-word set: the curated English function words.
pub fn default_stop_words() -> (s: StopWordSet)
    ensures
        s@ == default_stop_list().to_set(),
{
    let mut v: Vec<String> = Vec::new();
    v.push(String::from_str("the"));
    v.push(String::from_str("of"));
    v.push(String::from_str("to"));
    v.push(String::from_str("a"));
    v.push(String::from_str("and"));
    v.push(String::from_str("in"));
    v.push(String::from_str("said"));
    v.push(String::from_str("for"));
    v.push(String::from_str("that"));
    v.push(String::from_str("was"));
    v.push(String::from_str("on"));
    v.push(String::from_str("he"));
    v.push(String::from_str("is"));
    v.push(String::from_str("with"));
    v.push(String::from_str("at"));
    v.push(String::from_str("by"));
    v.push(String::from_str("it"));
    v.push(String::from_str("from"));
    v.push(String::from_str("as"));
    v.push(String::from_str("be"));
    v.push(String::from_str("were"));
    v.push(String::from_str("an"));
    v.push(String::from_str("have"));
    v.push(String::from_str("his"));
    v.push(String::from_str("but"));
    v.push(String::from_str("has"));
    v.push(String::from_str("are"));
    v.push(String::from_str("not"));
    v.push(String::from_str("who"));
    v.push(String::from_str("they"));
    v.push(String::from_str("its"));
    v.push(String::from_str("had"));
    v.push(String::from_str("will"));
    v.push(String::from_str("would"));
    v.push(String::from_str("about"));
    v.push(String::from_str("i"));
    v.push(String::from_str("been"));
    v.push(String::from_str("this"));
    v.push(String::from_str("their"));
    v.push(String::from_str("new"));
    v.push(String::from_str("or"));
    v.push(String::from_str("which"));
    v.push(String::from_str("we"));
    v.push(String::from_str("more"));
    v.push(String::from_str("after"));
    v.push(String::from_str("us"));
    v.push(String::from_str("percent"));
    v.push(String::from_str("up"));
    v.push(String::from_str("one"));
    v.push(String::from_str("people"));
    proof {
        assert(v.deep_view() =~= default_stop_list());
    }
    StopWordSet::new(v)
}

/// Keeps only the tokens that are not stop words, preserving their order.
/// This is token-level filtering: it changes adjacency, so it is meant for
/// plain word statistics, not for n-gram windows.
pub open spec fn drop_stop_words(toks: Seq<Seq<char>>, stops: Set<Seq<char>>) -> Seq<Seq<char>> {
    toks.filter(|t: Seq<char>| !stops.contains(t))
}

/// Removes every stop word from a token sequence, keeping the rest in order.
pub fn filter_tokens(words: &Vec<String>, stops: &StopWordSet) -> (r: Vec<String>)
    ensures
        r.deep_view() == drop_stop_words(words.deep_view(), stops@),
{
    let ghost pred = |t: Seq<char>| !stops@.contains(t);
    let n = words.len();
    let mut r: Vec<String> = Vec::new();
    let mut i: usize = 0;
    proof {
        reveal(Seq::filter);
        assert(words.deep_view().take(0) =~= Seq::<Seq<char>>::empty());
        assert(r.deep_view() =~= words.deep_view().take(0).filter(pred));
    }
    while i < n
        invariant
            n == words@.len(),
            0 <= i <= n,
            pred == (|t: Seq<char>| !stops@.contains(t)),
            r.deep_view() == words.deep_view().take(i as int).filter(pred),
        decreases n - i,
    {
        let ghost prev_r = r.deep_view();
        let w = &words[i];
        if !stops.contains(w.as_str()) {
            r.push(w.clone());
        }
        proof {
            let all = words.deep_view();
            let one = seq![all[i as int]];
            assert(all.take(i as int + 1) =~= all.take(i as int) + one);
            Seq::filter_distributes_over_add(all.take(i as int), one, pred);
            reveal_with_fuel(Seq::filter, 2);
            assert(one.drop_last() =~= Seq::<Seq<char>>::empty());
            if pred(all[i as int]) {
                assert(one.filter(pred) =~= seq![all[i as int]]);
                assert(r.deep_view() =~= prev_r + one.filter(pred));
            } else {
                assert(one.filter(pred) =~= Seq::<Seq<char>>::empty());
                assert(r.deep_view() =~= prev_r + one.filter(pred));
            }
        }
        i += 1;
    }
    proof {
        assert(words.deep_view().take(n as int) =~= words.deep_view());
    }
    r
}

} // verus!
