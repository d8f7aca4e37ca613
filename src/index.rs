//! The subsequence index: for each string reachable by deletions from some
//! dictionary word, and each deletion count up to the bound, every word that
//! reaches it by exactly that many deletions.

use crate::subsequence::{is_deletion, strings_view, subsequences_from_n_deletions};
use vstd::hash_map::StringHashMap;
use vstd::prelude::*;

verus! {

/// `w` is longer than `d` characters and reduces to `sub` by deleting exactly `d` of them.
pub open spec fn reaches(w: Seq<char>, sub: Seq<char>, d: nat) -> bool {
    w.len() > d && is_deletion(w, sub, d)
}

/// The words of `words`, in order and with repetitions, that reach `sub` at count `d`.
pub open spec fn words_reaching(words: Seq<Seq<char>>, sub: Seq<char>, d: nat) -> Seq<Seq<char>>
    decreases words.len(),
{
    if words.len() == 0 {
        Seq::empty()
    } else {
        let rest = words_reaching(words.drop_last(), sub, d);
        if reaches(words.last(), sub, d) {
            rest.push(words.last())
        } else {
            rest
        }
    }
}

/// A word is listed under `sub` at count `d` exactly when it is in the
/// dictionary and reaches `sub` at that count.
pub proof fn lemma_words_reaching_contains(words: Seq<Seq<char>>, sub: Seq<char>, d: nat, w: Seq<char>)
    ensures
        words_reaching(words, sub, d).contains(w) <==> (words.contains(w) && reaches(w, sub, d)),
    decreases words.len(),
{
    if words.len() > 0 {
        let rest = words.drop_last();
        lemma_words_reaching_contains(rest, sub, d, w);
        let r0 = words_reaching(rest, sub, d);
        assert(words =~= rest.push(words.last()));
        if rest.contains(w) {
            let k = choose|k: int| 0 <= k < rest.len() && rest[k] == w;
            assert(words[k] == w);
        }
        if words.contains(w) && !rest.contains(w) {
            let k = choose|k: int| 0 <= k < words.len() && words[k] == w;
            if k < rest.len() {
                assert(rest[k] == w);
            }
        }
        if reaches(words.last(), sub, d) {
            let r1 = r0.push(words.last());
            if r0.contains(w) {
                let k = choose|k: int| 0 <= k < r0.len() && r0[k] == w;
                assert(r1[k] == w);
            }
            if r1.contains(w) && w != words.last() {
                let k = choose|k: int| 0 <= k < r1.len() && r1[k] == w;
                assert(r0[k] == w);
            }
            if w == words.last() {
                assert(r1[r0.len() as int] == w);
            }
        }
    }
}

/// A word no longer than `d` characters is listed under no subsequence at
/// count `d`: deleting all its characters is never recorded.
pub proof fn lemma_short_word_unlisted(words: Seq<Seq<char>>, sub: Seq<char>, d: nat, w: Seq<char>)
    requires
        w.len() <= d,
    ensures
        !words_reaching(words, sub, d).contains(w),
{
    lemma_words_reaching_contains(words, sub, d, w);
}

/// Building from two dictionaries that hold the same words, in any order and
/// with any repetitions, lists the same set of words under every
/// subsequence and count.
pub proof fn lemma_build_order_irrelevant(
    a: Seq<Seq<char>>,
    b: Seq<Seq<char>>,
    sub: Seq<char>,
    d: nat,
)
    requires
        a.to_set() == b.to_set(),
    ensures
        words_reaching(a, sub, d).to_set() == words_reaching(b, sub, d).to_set(),
{
    assert forall|w: Seq<char>| words_reaching(a, sub, d).to_set().contains(w)
        <==> words_reaching(b, sub, d).to_set().contains(w) by {
        lemma_words_reaching_contains(a, sub, d, w);
        lemma_words_reaching_contains(b, sub, d, w);
        assert(a.to_set().contains(w) == a.contains(w));
        assert(b.to_set().contains(w) == b.contains(w));
    }
    assert(words_reaching(a, sub, d).to_set() =~= words_reaching(b, sub, d).to_set());
}

/// The index over a dictionary, for deletion counts up to a fixed bound.
pub struct Index {
    slots: StringHashMap<usize>,
    entries: Vec<Vec<Vec<String>>>,
    max_distance: usize,
    keys: Ghost<Seq<Seq<char>>>,
    words: Ghost<Seq<Seq<char>>>,
}

impl Index {
    /// The dictionary the index was built from, in order.
    pub closed spec fn dictionary(&self) -> Seq<Seq<char>> {
        self.words@
    }

    /// The largest deletion count that the index records.
    pub closed spec fn limit(&self) -> nat {
        self.max_distance as nat
    }

    /// The words recorded under `sub` at count `d`.
    closed spec fn stored(&self, sub: Seq<char>, d: nat) -> Seq<Seq<char>> {
        if self.slots@.contains_key(sub) && d <= self.max_distance {
            strings_view(self.entries@[self.slots@[sub] as int]@[d as int]@)
        } else {
            Seq::empty()
        }
    }

    closed spec fn layout_ok(&self) -> bool {
        &&& self.max_distance < usize::MAX
        &&& self.keys@.len() == self.entries.len()
        &&& forall|s: Seq<char>| #[trigger]
            self.slots@.contains_key(s) ==> self.slots@[s] < self.entries.len()
                && self.keys@[self.slots@[s] as int] == s
        &&& forall|i: int| 0 <= i < self.entries.len() ==> #[trigger] self.entries@[i].len()
            == self.max_distance + 1
    }

    /// The index records, under every subsequence and every count up to the
    /// bound, exactly the dictionary words that reach it.
    pub closed spec fn wf(&self) -> bool {
        &&& self.layout_ok()
        &&& forall|s: Seq<char>, d: nat| d <= self.max_distance ==> #[trigger] self.stored(s, d)
            == words_reaching(self.words@, s, d)
    }

    /// Appends `w` to the words recorded under `sub` at count `d`.
    fn add(&mut self, sub: String, d: usize, w: &String)
        requires
            old(self).layout_ok(),
            d <= old(self).max_distance,
        ensures
            final(self).layout_ok(),
            final(self).max_distance == old(self).max_distance,
            final(self).words == old(self).words,
            forall|s: Seq<char>, e: nat| e <= final(self).max_distance ==> #[trigger] final(self).stored(s, e)
                == if s == sub@ && e == d {
                    old(self).stored(s, e).push(w@)
                } else {
                    old(self).stored(s, e)
                },
    {
        let found = self.slots.get(sub.as_str());
        let slot: Option<usize> = match found {
            Some(x) => Some(*x),
            None => None,
        };
        match slot {
            Some(slot) => {
                assert(self.slots@.contains_key(sub@));
                assert(self.entries@[slot as int].len() == self.max_distance + 1);
                let ghost before = self.entries@[slot as int];
                self.entries[slot][d].push(w.clone());
                proof {
                    assert(strings_view(self.entries@[slot as int]@[d as int]@) =~= strings_view(
                        before@[d as int]@,
                    ).push(w@));
                    assert forall|i: int| 0 <= i < self.entries.len() implies #[trigger] self.entries@[i].len()
                        == self.max_distance + 1 by {
                        assert(old(self).entries@[i].len() == self.max_distance + 1);
                    }
                    assert forall|s: Seq<char>, e: nat| e <= self.max_distance implies #[trigger] self.stored(s, e)
                        == if s == sub@ && e == d {
                            old(self).stored(s, e).push(w@)
                        } else {
                            old(self).stored(s, e)
                        } by {
                        if self.slots@.contains_key(s) && s != sub@ {
                            assert(self.keys@[self.slots@[s] as int] == s);
                        }
                    }
                }
            },
            None => {
                let slot = self.entries.len();
                let mut per: Vec<Vec<String>> = Vec::new();
                let mut k: usize = 0;
                while k <= self.max_distance
                    invariant
                        k <= self.max_distance + 1,
                        self.max_distance < usize::MAX,
                        per.len() == k,
                        forall|i: int| 0 <= i < k ==> (#[trigger] per@[i])@.len() == 0,
                    decreases self.max_distance + 1 - k,
                {
                    per.push(Vec::new());
                    k += 1;
                }
                per[d].push(w.clone());
                self.entries.push(per);
                self.keys = Ghost(self.keys@.push(sub@));
                self.slots.insert(sub, slot);
                proof {
                    assert forall|s: Seq<char>, e: nat| e <= self.max_distance implies #[trigger] self.stored(s, e)
                        == if s == sub@ && e == d {
                            old(self).stored(s, e).push(w@)
                        } else {
                            old(self).stored(s, e)
                        } by {
                        if s == sub@ {
                            assert(!old(self).slots@.contains_key(s));
                            if e == d {
                                assert(strings_view(self.entries@[slot as int]@[e as int]@) =~= seq![w@]);
                            } else {
                                assert(strings_view(self.entries@[slot as int]@[e as int]@) =~= Seq::empty());
                            }
                        }
                    }
                }
            },
        }
    }

    /// The largest deletion count that the index records.
    pub fn max_distance(&self) -> (r: usize)
        requires
            self.wf(),
        ensures
            r == self.limit(),
            r < usize::MAX,
    {
        self.max_distance
    }

    /// The words recorded under `sub`, one list for each count from zero to
    /// the bound, or `None` where no word reaches `sub` at any of them.
    pub fn lookup(&self, sub: &str) -> (r: Option<&Vec<Vec<String>>>)
        requires
            self.wf(),
        ensures
            match r {
                Some(v) => v.len() == self.limit() + 1 && forall|d: int|
                    0 <= d <= self.limit() ==> strings_view(#[trigger] v@[d]@) == words_reaching(
                        self.dictionary(),
                        sub@,
                        d as nat,
                    ),
                None => forall|d: nat| d <= self.limit() ==> #[trigger] words_reaching(
                    self.dictionary(),
                    sub@,
                    d,
                ) == Seq::<Seq<char>>::empty(),
            },
    {
        match self.slots.get(sub) {
            Some(slot) => {
                let v = &self.entries[*slot];
                proof {
                    assert forall|d: int| 0 <= d <= self.limit() implies strings_view(#[trigger] v@[d]@)
                        == words_reaching(self.dictionary(), sub@, d as nat) by {
                        assert(self.stored(sub@, d as nat) == words_reaching(self.words@, sub@, d as nat));
                    }
                }
                Some(v)
            },
            None => {
                proof {
                    assert forall|d: nat| d <= self.limit() implies #[trigger] words_reaching(
                        self.dictionary(),
                        sub@,
                        d,
                    ) == Seq::<Seq<char>>::empty() by {
                        assert(self.stored(sub@, d) == words_reaching(self.words@, sub@, d));
                    }
                }
                None
            },
        }
    }
}

/// Builds the index over `words` for every deletion count from zero to
/// `max_distance`: under each subsequence and count it lists every word that
/// reaches it, in dictionary order, repetitions kept.
pub fn build(words: &Vec<String>, max_distance: usize) -> (idx: Index)
    requires
        max_distance < usize::MAX,
    ensures
        idx.wf(),
        idx.dictionary() == strings_view(words@),
        idx.limit() == max_distance,
{
    let ghost all = strings_view(words@);
    let mut idx = Index {
        slots: StringHashMap::new(),
        entries: Vec::new(),
        max_distance,
        keys: Ghost(Seq::empty()),
        words: Ghost(all),
    };
    let mut d: usize = 0;
    while d <= max_distance
        invariant
            d <= max_distance + 1,
            max_distance < usize::MAX,
            idx.layout_ok(),
            idx.max_distance == max_distance,
            idx.words@ == all,
            all == strings_view(words@),
            forall|s: Seq<char>, e: nat| e <= max_distance ==> #[trigger] idx.stored(s, e)
                == if e < d {
                    words_reaching(all, s, e)
                } else {
                    Seq::<Seq<char>>::empty()
                },
        decreases max_distance + 1 - d,
    {
        let mut i: usize = 0;
        while i < words.len()
            invariant
                i <= words.len(),
                d <= max_distance,
                max_distance < usize::MAX,
                idx.layout_ok(),
                idx.max_distance == max_distance,
                idx.words@ == all,
                all == strings_view(words@),
                forall|s: Seq<char>, e: nat| e <= max_distance ==> #[trigger] idx.stored(s, e)
                    == if e < d {
                        words_reaching(all, s, e)
                    } else if e == d {
                        words_reaching(all.take(i as int), s, e)
                    } else {
                        Seq::<Seq<char>>::empty()
                    },
            decreases words.len() - i,
        {
            let w = &words[i];
            let ghost wv = w@;
            let ghost upto = all.take(i as int + 1);
            assert(upto.drop_last() =~= all.take(i as int));
            assert(upto.last() == wv);
            if d < w.as_str().unicode_len() {
                let subs = subsequences_from_n_deletions(w.as_str(), d);
                let ghost sv = strings_view(subs@);
                let mut m: usize = 0;
                while m < subs.len()
                    invariant
                        m <= subs.len(),
                        d <= max_distance,
                        wv == w@,
                        wv.len() > d,
                        sv == strings_view(subs@),
                        sv.no_duplicates(),
                        forall|t: Seq<char>| sv.contains(t) <==> is_deletion(wv, t, d as nat),
                        idx.layout_ok(),
                        idx.max_distance == max_distance,
                        idx.words@ == all,
                        forall|s: Seq<char>, e: nat| e <= max_distance ==> #[trigger] idx.stored(s, e)
                            == if e < d {
                                words_reaching(all, s, e)
                            } else if e == d {
                                if sv.take(m as int).contains(s) {
                                    words_reaching(all.take(i as int), s, e).push(wv)
                                } else {
                                    words_reaching(all.take(i as int), s, e)
                                }
                            } else {
                                Seq::<Seq<char>>::empty()
                            },
                    decreases subs.len() - m,
                {
                    let ghost cur = sv[m as int];
                    proof {
                        assert forall|s: Seq<char>| #[trigger] sv.take(m as int + 1).contains(s)
                            <==> (sv.take(m as int).contains(s) || s == cur) by {
                            if sv.take(m as int + 1).contains(s) {
                                let k = choose|k: int| 0 <= k < m + 1 && #[trigger] sv.take(m as int + 1)[k] == s;
                                if k < m {
                                    assert(sv.take(m as int)[k] == s);
                                }
                            }
                            if sv.take(m as int).contains(s) {
                                let k = choose|k: int| 0 <= k < m && #[trigger] sv.take(m as int)[k] == s;
                                assert(sv.take(m as int + 1)[k] == s);
                            }
                            if s == cur {
                                assert(sv.take(m as int + 1)[m as int] == s);
                            }
                        }
                        if sv.take(m as int).contains(cur) {
                            let k = choose|k: int| 0 <= k < m && #[trigger] sv.take(m as int)[k] == cur;
                            assert(sv[k] == sv[m as int]);
                        }
                    }
                    idx.add(subs[m].clone(), d, w);
                    m += 1;
                }
                proof {
                    assert(sv.take(m as int) =~= sv);
                    assert forall|s: Seq<char>, e: nat| e <= max_distance implies #[trigger] idx.stored(s, e)
                        == if e < d {
                            words_reaching(all, s, e)
                        } else if e == d {
                            words_reaching(all.take(i as int + 1), s, e)
                        } else {
                            Seq::<Seq<char>>::empty()
                        } by {
                        if e == d {
                            assert(reaches(wv, s, e) <==> sv.contains(s));
                        }
                    }
                }
            } else {
                proof {
                    assert forall|s: Seq<char>, e: nat| e <= max_distance implies #[trigger] idx.stored(s, e)
                        == if e < d {
                            words_reaching(all, s, e)
                        } else if e == d {
                            words_reaching(all.take(i as int + 1), s, e)
                        } else {
                            Seq::<Seq<char>>::empty()
                        } by {
                        if e == d {
                            assert(!reaches(wv, s, e));
                        }
                    }
                }
            }
            i += 1;
        }
        assert(all.take(i as int) =~= all);
        d += 1;
    }
    idx
}

} // verus!
