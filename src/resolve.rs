//! Correction of a query against the index: the query's own subsequences are
//! looked up, and each word found is scored by the larger of the two deletion
//! counts that meet at the shared subsequence.

use crate::index::{lemma_words_reaching_contains, reaches, words_reaching, Index};
use crate::subsequence::{lemma_zero_deletions, strings_view, subsequences_from_n_deletions};
use vstd::prelude::*;

verus! {

/// The larger of two counts.
pub open spec fn max_nat(a: nat, b: nat) -> nat {
    if a >= b {
        a
    } else {
        b
    }
}

/// Dictionary word `w` meets query `q` at combined distance `c`: some string
/// is reached from `q` by `dq` deletions, with `dq` below `upto`, and from `w`
/// by `dw` deletions, both counts at most `k`, and `c` is the larger of them.
pub open spec fn meets_below(
    dict: Seq<Seq<char>>,
    q: Seq<char>,
    k: nat,
    w: Seq<char>,
    c: nat,
    upto: nat,
) -> bool {
    exists|dq: nat, dw: nat, s: Seq<char>|
        #![trigger reaches(q, s, dq), reaches(w, s, dw)]
        dq < upto && dq <= k && dw <= k && c == max_nat(dq, dw) && reaches(q, s, dq)
            && dict.contains(w) && reaches(w, s, dw)
}

/// Dictionary word `w` meets query `q` at combined distance `c`, with both
/// deletion counts at most `k`.
pub open spec fn meets(dict: Seq<Seq<char>>, q: Seq<char>, k: nat, w: Seq<char>, c: nat) -> bool {
    meets_below(dict, q, k, w, c, k + 1)
}

/// Every nonempty dictionary word meets itself, as a query, at combined
/// distance zero, whatever the bound.
pub proof fn lemma_word_meets_itself(dict: Seq<Seq<char>>, w: Seq<char>, k: nat)
    requires
        dict.contains(w),
        w.len() > 0,
    ensures
        meets(dict, w, k, w, 0),
{
    lemma_zero_deletions(w, w);
    assert(reaches(w, w, 0));
    assert(max_nat(0, 0) == 0);
}

/// The best corrections found for a query: the smallest combined distance at
/// which any dictionary word meets it, and every word that meets it there.
pub struct Correction {
    pub distance: usize,
    pub words: Vec<String>,
}

/// The words of a bucket list at position `c`.
pub open spec fn bucket(results: Seq<Vec<String>>, c: int) -> Seq<Seq<char>> {
    strings_view(results[c]@)
}

/// Every bucket of the list holds each word at most once.
pub open spec fn buckets_distinct(results: Seq<Vec<String>>) -> bool {
    forall|c: int| 0 <= c < results.len() ==> (#[trigger] bucket(results, c)).no_duplicates()
}

/// Adds `w` to `bucket` unless it is already there.
fn insert_unique(bucket: &mut Vec<String>, w: &String)
    requires
        strings_view(old(bucket)@).no_duplicates(),
    ensures
        strings_view(final(bucket)@).no_duplicates(),
        forall|x: Seq<char>| #[trigger] strings_view(final(bucket)@).contains(x)
            <==> (strings_view(old(bucket)@).contains(x) || x == w@),
{
    let mut i: usize = 0;
    let mut found = false;
    while i < bucket.len()
        invariant
            i <= bucket.len(),
            found ==> strings_view(bucket@).contains(w@),
            !found ==> forall|j: int| 0 <= j < i ==> bucket@[j]@ != w@,
        decreases bucket.len() - i,
    {
        if bucket[i] == *w {
            proof {
                assert(strings_view(bucket@)[i as int] == w@);
            }
            found = true;
        }
        i += 1;
    }
    if found {
        return;
    }
    let ghost before = strings_view(bucket@);
    bucket.push(w.clone());
    proof {
        assert(strings_view(bucket@) =~= before.push(w@));
        assert(!before.contains(w@));
        assert forall|x: Seq<char>| #[trigger] strings_view(bucket@).contains(x)
            <==> (before.contains(x) || x == w@) by {
            if before.contains(x) {
                let k = choose|k: int| 0 <= k < before.len() && before[k] == x;
                assert(strings_view(bucket@)[k] == x);
            }
            if x == w@ {
                assert(strings_view(bucket@)[before.len() as int] == x);
            }
        }
    }
}

/// Records in `results`, bucket by combined distance, every dictionary word
/// that reaches `input_subsequence`: a word that reaches it by `dw` deletions
/// goes to the bucket of the larger of `dw` and `dist_input_to_subseq`.
pub fn check_for_correct_spellings(
    results: &mut Vec<Vec<String>>,
    index: &Index,
    input_subsequence: &str,
    dist_input_to_subseq: usize,
)
    requires
        index.wf(),
        old(results).len() == index.limit() + 1,
        dist_input_to_subseq <= index.limit(),
        buckets_distinct(old(results)@),
    ensures
        final(results).len() == old(results).len(),
        buckets_distinct(final(results)@),
        forall|c: int, w: Seq<char>|
            0 <= c < final(results).len() ==> (#[trigger] bucket(final(results)@, c).contains(w) <==> (
            bucket(old(results)@, c).contains(w) || exists|dw: nat|
                dw <= index.limit() && c == max_nat(dist_input_to_subseq as nat, dw)
                    && index.dictionary().contains(w) && #[trigger] reaches(w, input_subsequence@, dw))),
{
    let ghost dict = index.dictionary();
    let ghost sub = input_subsequence@;
    let ghost dq = dist_input_to_subseq as nat;
    let k = index.max_distance();
    match index.lookup(input_subsequence) {
        None => {
            proof {
                assert forall|w: Seq<char>, dw: nat|
                    dw <= k && dict.contains(w) implies !#[trigger] reaches(w, sub, dw) by {
                    lemma_words_reaching_contains(dict, sub, dw, w);
                    assert(words_reaching(dict, sub, dw) == Seq::<Seq<char>>::empty());
                }
            }
        },
        Some(v) => {
            let mut dw: usize = 0;
            while dw <= k
                invariant
                    k == index.limit(),
                    k < usize::MAX,
                    dw <= k + 1,
                    dq <= k,
                    dq == dist_input_to_subseq as nat,
                    dict == index.dictionary(),
                    sub == input_subsequence@,
                    v.len() == k + 1,
                    forall|d: int| 0 <= d <= k ==> strings_view(#[trigger] v@[d]@) == words_reaching(dict, sub, d as nat),
                    results.len() == old(results).len(),
                    results.len() == k + 1,
                    buckets_distinct(results@),
                    forall|c: int, w: Seq<char>|
                        0 <= c < results.len() ==> (#[trigger] bucket(results@, c).contains(w) <==> (
                        bucket(old(results)@, c).contains(w) || exists|e: nat|
                            e < dw && c == max_nat(dq, e) && #[trigger] words_reaching(dict, sub, e).contains(w))),
                decreases k + 1 - dw,
            {
                let c: usize = if dist_input_to_subseq > dw { dist_input_to_subseq } else { dw };
                let list = &v[dw];
                let ghost lv = strings_view(list@);
                let ghost start = results@;
                let mut j: usize = 0;
                while j < list.len()
                    invariant
                        j <= list.len(),
                        lv == strings_view(list@),
                        c <= k,
                        results.len() == k + 1,
                        buckets_distinct(results@),
                        forall|b: int, w: Seq<char>|
                            0 <= b < results.len() ==> (#[trigger] bucket(results@, b).contains(w) <==> (
                            bucket(start, b).contains(w) || (b == c && lv.take(j as int).contains(w)))),
                    decreases list.len() - j,
                {
                    let ghost before = results@;
                    assert(bucket(before, c as int).no_duplicates());
                    insert_unique(&mut results[c], &list[j]);
                    proof {
                        assert forall|b: int| 0 <= b < results.len() implies (#[trigger] bucket(results@, b)).no_duplicates() by {
                            if b != c {
                                assert(bucket(results@, b) == bucket(before, b));
                            }
                        }
                        assert forall|b: int, w: Seq<char>|
                            0 <= b < results.len() implies (#[trigger] bucket(results@, b).contains(w) <==> (
                            bucket(start, b).contains(w) || (b == c && lv.take(j as int + 1).contains(w)))) by {
                            if b != c {
                                assert(bucket(results@, b) == bucket(before, b));
                            }
                            if lv.take(j as int + 1).contains(w) {
                                let p = choose|p: int| 0 <= p < j + 1 && #[trigger] lv.take(j as int + 1)[p] == w;
                                if p < j {
                                    assert(lv.take(j as int)[p] == w);
                                }
                            }
                            if lv.take(j as int).contains(w) {
                                let p = choose|p: int| 0 <= p < j && #[trigger] lv.take(j as int)[p] == w;
                                assert(lv.take(j as int + 1)[p] == w);
                            }
                            if w == lv[j as int] {
                                assert(lv.take(j as int + 1)[j as int] == w);
                            }
                        }
                    }
                    j += 1;
                }
                proof {
                    assert(lv.take(j as int) =~= lv);
                    assert(lv == words_reaching(dict, sub, dw as nat));
                    assert(c as nat == max_nat(dq, dw as nat));
                    assert forall|b: int, w: Seq<char>|
                        0 <= b < results.len() implies (#[trigger] bucket(results@, b).contains(w) <==> (
                        bucket(old(results)@, b).contains(w) || exists|e: nat|
                            e < dw + 1 && b == max_nat(dq, e) && #[trigger] words_reaching(dict, sub, e).contains(w))) by {
                        if b == c && lv.contains(w) {
                            assert(words_reaching(dict, sub, dw as nat).contains(w));
                        }
                        if exists|e: nat|
                            e < dw + 1 && b == max_nat(dq, e) && #[trigger] words_reaching(dict, sub, e).contains(w) {
                            let e = choose|e: nat|
                                e < dw + 1 && b == max_nat(dq, e) && #[trigger] words_reaching(dict, sub, e).contains(w);
                            if e == dw {
                                assert(b == c);
                                assert(lv.contains(w));
                            }
                        }
                    }
                }
                dw += 1;
            }
            proof {
                assert forall|c: int, w: Seq<char>|
                    0 <= c < results.len() implies (#[trigger] bucket(results@, c).contains(w) <==> (
                    bucket(old(results)@, c).contains(w) || exists|e: nat|
                        e <= k && c == max_nat(dq, e) && dict.contains(w) && #[trigger] reaches(w, sub, e))) by {
                    if exists|e: nat| e <= k && c == max_nat(dq, e) && dict.contains(w) && #[trigger] reaches(w, sub, e) {
                        let e = choose|e: nat| e <= k && c == max_nat(dq, e) && dict.contains(w) && #[trigger] reaches(w, sub, e);
                        lemma_words_reaching_contains(dict, sub, e, w);
                    }
                    if exists|e: nat| e < dw && c == max_nat(dq, e) && #[trigger] words_reaching(dict, sub, e).contains(w) {
                        let e = choose|e: nat| e < dw && c == max_nat(dq, e) && #[trigger] words_reaching(dict, sub, e).contains(w);
                        lemma_words_reaching_contains(dict, sub, e, w);
                    }
                }
            }
        },
    }
}

/// Corrects `query` against the index: the smallest combined distance at
/// which some dictionary word meets the query, with every word that meets it
/// there, each once; `None` where no word meets it at all.
pub fn resolve(query: &str, index: &Index) -> (r: Option<Correction>)
    requires
        index.wf(),
    ensures
        match r {
            None => {
                &&& forall|w: Seq<char>, c: nat| !meets(index.dictionary(), query@, index.limit(), w, c)
                &&& !(index.dictionary().contains(query@) && query@.len() > 0)
            },
            Some(cr) => {
                &&& cr.distance <= index.limit()
                &&& cr.words.len() > 0
                &&& strings_view(cr.words@).no_duplicates()
                &&& forall|w: Seq<char>| #[trigger] strings_view(cr.words@).contains(w)
                    <==> meets(index.dictionary(), query@, index.limit(), w, cr.distance as nat)
                &&& index.dictionary().contains(query@) && query@.len() > 0 ==> cr.distance == 0
                    && strings_view(cr.words@).contains(query@)
                &&& forall|w: Seq<char>, c: nat| c < cr.distance ==> !meets(
                    index.dictionary(),
                    query@,
                    index.limit(),
                    w,
                    c,
                )
            },
        },
{
    let ghost dict = index.dictionary();
    let ghost q = query@;
    let k = index.max_distance();
    let mut results: Vec<Vec<String>> = Vec::new();
    let mut b: usize = 0;
    while b <= k
        invariant
            k == index.limit(),
            k < usize::MAX,
            b <= k + 1,
            results.len() == b,
            forall|c: int| 0 <= c < b ==> (#[trigger] results@[c])@.len() == 0,
        decreases k + 1 - b,
    {
        results.push(Vec::new());
        b += 1;
    }
    proof {
        assert forall|c: int| 0 <= c < results.len() implies (#[trigger] bucket(results@, c)).no_duplicates() by {
            assert(bucket(results@, c) =~= Seq::<Seq<char>>::empty());
        }
        assert forall|c: int, w: Seq<char>| 0 <= c <= k implies (#[trigger] bucket(results@, c).contains(w)
            <==> meets_below(dict, q, k as nat, w, c as nat, 0)) by {
            assert(bucket(results@, c) =~= Seq::<Seq<char>>::empty());
        }
    }
    let qlen = query.unicode_len();
    let mut dq: usize = 0;
    while dq <= k
        invariant
            k == index.limit(),
            k < usize::MAX,
            dq <= k + 1,
            index.wf(),
            dict == index.dictionary(),
            q == query@,
            qlen == q.len(),
            results.len() == k + 1,
            buckets_distinct(results@),
            forall|c: int, w: Seq<char>| 0 <= c <= k ==> (#[trigger] bucket(results@, c).contains(w)
                <==> meets_below(dict, q, k as nat, w, c as nat, dq as nat)),
        decreases k + 1 - dq,
    {
        if dq < qlen {
            let subs = subsequences_from_n_deletions(query, dq);
            let ghost sv = strings_view(subs@);
            let mut m: usize = 0;
            while m < subs.len()
                invariant
                    m <= subs.len(),
                    dq <= k,
                    k == index.limit(),
                    index.wf(),
                    dict == index.dictionary(),
                    sv == strings_view(subs@),
                    results.len() == k + 1,
                    buckets_distinct(results@),
                    forall|c: int, w: Seq<char>| 0 <= c <= k ==> (#[trigger] bucket(results@, c).contains(w)
                        <==> (meets_below(dict, q, k as nat, w, c as nat, dq as nat)
                        || exists|dw: nat, j: int|
                            0 <= j < m && dw <= k && c == max_nat(dq as nat, dw) && dict.contains(w)
                                && #[trigger] reaches(w, sv[j], dw))),
                decreases subs.len() - m,
            {
                let ghost before = results@;
                assert(sv[m as int] == subs@[m as int]@);
                check_for_correct_spellings(&mut results, index, subs[m].as_str(), dq);
                proof {
                    assert forall|c: int, w: Seq<char>| 0 <= c <= k implies (#[trigger] bucket(results@, c).contains(w)
                        <==> (meets_below(dict, q, k as nat, w, c as nat, dq as nat)
                        || exists|dw: nat, j: int|
                            0 <= j < m + 1 && dw <= k && c == max_nat(dq as nat, dw) && dict.contains(w)
                                && #[trigger] reaches(w, sv[j], dw))) by {
                        if exists|dw: nat, j: int|
                            0 <= j < m + 1 && dw <= k && c == max_nat(dq as nat, dw) && dict.contains(w)
                                && #[trigger] reaches(w, sv[j], dw) {
                            let (dw, j) = choose|dw: nat, j: int|
                                0 <= j < m + 1 && dw <= k && c == max_nat(dq as nat, dw) && dict.contains(w)
                                    && #[trigger] reaches(w, sv[j], dw);
                            if j == m {
                                assert(reaches(w, subs[m as int]@, dw));
                                assert(bucket(results@, c).contains(w));
                            } else {
                                assert(bucket(before, c).contains(w));
                            }
                        }
                        if bucket(results@, c).contains(w) && !bucket(before, c).contains(w) {
                            let dw = choose|dw: nat|
                                dw <= k && c == max_nat(dq as nat, dw) && dict.contains(w)
                                    && #[trigger] reaches(w, subs[m as int]@, dw);
                            assert(reaches(w, sv[m as int], dw));
                        }
                    }
                }
                m += 1;
            }
            proof {
                assert forall|c: int, w: Seq<char>| 0 <= c <= k implies (#[trigger] bucket(results@, c).contains(w)
                    <==> meets_below(dict, q, k as nat, w, c as nat, dq as nat + 1)) by {
                    if meets_below(dict, q, k as nat, w, c as nat, dq as nat + 1)
                        && !meets_below(dict, q, k as nat, w, c as nat, dq as nat) {
                        let (e, dw, s) = choose|e: nat, dw: nat, s: Seq<char>|
                            #![trigger reaches(q, s, e), reaches(w, s, dw)]
                            e < dq + 1 && e <= k && dw <= k && c == max_nat(e, dw) && reaches(q, s, e)
                                && dict.contains(w) && reaches(w, s, dw);
                        assert(e == dq);
                        assert(sv.contains(s));
                        let j = choose|j: int| 0 <= j < sv.len() && sv[j] == s;
                        assert(reaches(w, sv[j], dw));
                    }
                    if exists|dw: nat, j: int|
                        0 <= j < m && dw <= k && c == max_nat(dq as nat, dw) && dict.contains(w)
                            && #[trigger] reaches(w, sv[j], dw) {
                        let (dw, j) = choose|dw: nat, j: int|
                            0 <= j < m && dw <= k && c == max_nat(dq as nat, dw) && dict.contains(w)
                                && #[trigger] reaches(w, sv[j], dw);
                        assert(sv.contains(sv[j]));
                        assert(reaches(q, sv[j], dq as nat));
                    }
                }
            }
        } else {
            proof {
                assert forall|c: int, w: Seq<char>| 0 <= c <= k implies (#[trigger] bucket(results@, c).contains(w)
                    <==> meets_below(dict, q, k as nat, w, c as nat, dq as nat + 1)) by {
                    if meets_below(dict, q, k as nat, w, c as nat, dq as nat + 1) {
                        let (e, dw, s) = choose|e: nat, dw: nat, s: Seq<char>|
                            #![trigger reaches(q, s, e), reaches(w, s, dw)]
                            e < dq + 1 && e <= k && dw <= k && c == max_nat(e, dw) && reaches(q, s, e)
                                && dict.contains(w) && reaches(w, s, dw);
                        assert(e < dq);
                    }
                }
            }
        }
        dq += 1;
    }
    let mut c: usize = 0;
    while c <= k
        invariant
            k == index.limit(),
            k < usize::MAX,
            c <= k + 1,
            dict == index.dictionary(),
            q == query@,
            results.len() == k + 1,
            buckets_distinct(results@),
            forall|b: int, w: Seq<char>| 0 <= b <= k ==> (#[trigger] bucket(results@, b).contains(w)
                <==> meets(dict, q, k as nat, w, b as nat)),
            forall|b: int| 0 <= b < c ==> (#[trigger] results@[b])@.len() == 0,
        decreases k + 1 - c,
    {
        if results[c].len() > 0 {
            let ghost all = results@;
            let words = results.swap_remove(c);
            proof {
                assert(bucket(all, c as int).no_duplicates());
                assert(bucket(all, c as int).contains(bucket(all, c as int)[0]));
                assert forall|w: Seq<char>, b: nat| b < c implies !meets(dict, q, k as nat, w, b) by {
                    assert(all[b as int]@.len() == 0);
                    assert(!bucket(all, b as int).contains(w));
                }
            }
            proof {
                if dict.contains(q) && q.len() > 0 {
                    lemma_word_meets_itself(dict, q, k as nat);
                }
            }
            return Some(Correction { distance: c, words });
        }
        c += 1;
    }
    proof {
        if dict.contains(q) && q.len() > 0 {
            lemma_word_meets_itself(dict, q, k as nat);
            assert(results@[0]@.len() == 0);
            assert(!bucket(results@, 0).contains(q));
        }
        assert forall|w: Seq<char>, b: nat| !meets(dict, q, k as nat, w, b) by {
            if b <= k {
                assert(results@[b as int]@.len() == 0);
                assert(!bucket(results@, b as int).contains(w));
            } else if meets(dict, q, k as nat, w, b) {
                let (e, dw, s) = choose|e: nat, dw: nat, s: Seq<char>|
                    #![trigger reaches(q, s, e), reaches(w, s, dw)]
                    e < k + 1 && e <= k && dw <= k && b == max_nat(e, dw) && reaches(q, s, e)
                        && dict.contains(w) && reaches(w, s, dw);
            }
        }
    }
    None
}

} // verus!
