//! Presentation order of corrections: shorter words first, and words of one
//! length in lexicographic order of their characters.

use crate::subsequence::{chars_of, strings_view};
use vstd::prelude::*;

verus! {

/// `a` and `b` have one length, and at the first position where they differ
/// the character of `a` is the smaller.
pub open spec fn lex_before(a: Seq<char>, b: Seq<char>) -> bool {
    &&& a.len() == b.len()
    &&& exists|i: int|
        0 <= i < a.len() && (forall|j: int| 0 <= j < i ==> a[j] == b[j]) && #[trigger] a[i] < b[i]
}

/// `a` comes strictly before `b`: it is shorter, or as long and lexicographically smaller.
pub open spec fn precedes(a: Seq<char>, b: Seq<char>) -> bool {
    a.len() < b.len() || lex_before(a, b)
}

/// No element of `s` comes strictly before an element that stands earlier.
pub open spec fn is_ranked(s: Seq<Seq<char>>) -> bool {
    forall|i: int, j: int| 0 <= i < j < s.len() ==> !precedes(#[trigger] s[j], #[trigger] s[i])
}

/// The order is strict and transitive.
pub proof fn lemma_precedes_order(a: Seq<char>, b: Seq<char>, c: Seq<char>)
    ensures
        !precedes(a, a),
        precedes(a, b) && precedes(b, c) ==> precedes(a, c),
{
    if precedes(a, b) && precedes(b, c) && a.len() == c.len() {
        let i = choose|i: int|
            0 <= i < a.len() && (forall|j: int| 0 <= j < i ==> a[j] == b[j]) && #[trigger] a[i] < b[i];
        let k = choose|k: int|
            0 <= k < b.len() && (forall|j: int| 0 <= j < k ==> b[j] == c[j]) && #[trigger] b[k] < c[k];
        let m = if i < k { i } else { k };
        assert(forall|j: int| 0 <= j < m ==> a[j] == c[j]);
        assert(a[m] < c[m]);
    }
}

/// Where two strings of one length differ, they differ first somewhere.
proof fn lemma_first_difference(a: Seq<char>, b: Seq<char>, i: int)
    requires
        a.len() == b.len(),
        0 <= i < a.len(),
        a[i] != b[i],
    ensures
        exists|f: int| 0 <= f < a.len() && a[f] != b[f] && forall|j: int| 0 <= j < f ==> a[j] == b[j],
    decreases i,
{
    if exists|j: int| 0 <= j < i && a[j] != b[j] {
        let j = choose|j: int| 0 <= j < i && a[j] != b[j];
        lemma_first_difference(a, b, j);
    }
}

/// Two distinct strings are always ordered one way or the other.
pub proof fn lemma_precedes_total(a: Seq<char>, b: Seq<char>)
    requires
        a != b,
    ensures
        precedes(a, b) || precedes(b, a),
{
    if a.len() == b.len() {
        if !(exists|i: int| 0 <= i < a.len() && a[i] != b[i]) {
            assert(a =~= b);
        }
        let i = choose|i: int| 0 <= i < a.len() && a[i] != b[i];
        lemma_first_difference(a, b, i);
        let f = choose|f: int|
            0 <= f < a.len() && a[f] != b[f] && forall|j: int| 0 <= j < f ==> a[j] == b[j];
        if a[f] < b[f] {
            assert(lex_before(a, b));
        } else {
            assert(forall|j: int| 0 <= j < f ==> b[j] == a[j]);
            assert(lex_before(b, a));
        }
    }
}

/// Any two ranked orderings of the same words, with the same repetitions,
/// are equal: the ranking leaves nothing to chance.
pub proof fn lemma_ranking_unique(a: Seq<Seq<char>>, b: Seq<Seq<char>>)
    requires
        is_ranked(a),
        is_ranked(b),
        a.to_multiset() == b.to_multiset(),
    ensures
        a == b,
    decreases a.len(),
{
    broadcast use vstd::seq_lib::group_to_multiset_ensures;

    assert(a.len() == a.to_multiset().len());
    assert(b.len() == b.to_multiset().len());
    if a.len() > 0 {
        assert(a.to_multiset().count(a[0]) > 0);
        assert(b.to_multiset().count(a[0]) > 0);
        assert(b.contains(a[0]));
        assert(a.to_multiset().count(b[0]) > 0);
        assert(a.contains(b[0]));
        let j = choose|j: int| 0 <= j < b.len() && b[j] == a[0];
        let k = choose|k: int| 0 <= k < a.len() && a[k] == b[0];
        if j > 0 {
            assert(!precedes(b[j], b[0]));
        }
        if k > 0 {
            assert(!precedes(a[k], a[0]));
        }
        if a[0] != b[0] {
            lemma_precedes_total(a[0], b[0]);
        }
        assert(a.remove(0) =~= a.drop_first());
        assert(b.remove(0) =~= b.drop_first());
        let ra = a.drop_first();
        let rb = b.drop_first();
        assert(is_ranked(ra)) by {
            assert forall|x: int, y: int| 0 <= x < y < ra.len() implies !precedes(#[trigger] ra[y], #[trigger] ra[x]) by {
                assert(ra[y] == a[y + 1] && ra[x] == a[x + 1]);
            }
        }
        assert(is_ranked(rb)) by {
            assert forall|x: int, y: int| 0 <= x < y < rb.len() implies !precedes(#[trigger] rb[y], #[trigger] rb[x]) by {
                assert(rb[y] == b[y + 1] && rb[x] == b[x + 1]);
            }
        }
        lemma_ranking_unique(ra, rb);
        assert(a =~= seq![a[0]] + ra);
        assert(b =~= seq![b[0]] + rb);
    }
}

/// Whether `a` comes strictly before `b`.
fn precedes_exec(a: &String, b: &String) -> (r: bool)
    ensures
        r == precedes(a@, b@),
{
    let x = chars_of(a.as_str());
    let y = chars_of(b.as_str());
    if x.len() != y.len() {
        return x.len() < y.len();
    }
    let mut i: usize = 0;
    while i < x.len()
        invariant
            x@ == a@,
            y@ == b@,
            x.len() == y.len(),
            i <= x.len(),
            forall|j: int| 0 <= j < i ==> x@[j] == y@[j],
        decreases x.len() - i,
    {
        if x[i] != y[i] {
            let r = x[i] < y[i];
            proof {
                if lex_before(a@, b@) {
                    let k = choose|k: int|
                        0 <= k < a@.len() && (forall|j: int| 0 <= j < k ==> a@[j] == b@[j]) && #[trigger] a@[k] < b@[k];
                    if k > i {
                        assert(a@[i as int] == b@[i as int]);
                    }
                }
            }
            return r;
        }
        i += 1;
    }
    proof {
        if lex_before(a@, b@) {
            let k = choose|k: int|
                0 <= k < a@.len() && (forall|j: int| 0 <= j < k ==> a@[j] == b@[j]) && #[trigger] a@[k] < b@[k];
            assert(x@[k] == y@[k]);
        }
    }
    false
}

/// The words in presentation order: ascending length, and lexicographic
/// among words of one length. The result holds the same words as the input,
/// with the same repetitions.
pub fn rank(words: &Vec<String>) -> (r: Vec<String>)
    ensures
        strings_view(r@).to_multiset() == strings_view(words@).to_multiset(),
        is_ranked(strings_view(r@)),
{
    broadcast use vstd::seq_lib::group_to_multiset_ensures;

    let mut out: Vec<String> = Vec::new();
    assert(strings_view(out@) =~= strings_view(words@.take(0)));
    let mut i: usize = 0;
    while i < words.len()
        invariant
            i <= words.len(),
            strings_view(out@).to_multiset() == strings_view(words@.take(i as int)).to_multiset(),
            is_ranked(strings_view(out@)),
        decreases words.len() - i,
    {
        let x = &words[i];
        let mut p: usize = 0;
        while p < out.len() && !precedes_exec(x, &out[p])
            invariant
                p <= out.len(),
                forall|j: int| 0 <= j < p ==> !precedes(x@, #[trigger] strings_view(out@)[j]),
            decreases out.len() - p,
        {
            p += 1;
        }
        let ghost before = strings_view(out@);
        out.insert(p, x.clone());
        proof {
            let now = strings_view(out@);
            assert(now =~= before.insert(p as int, x@));
            vstd::seq_lib::to_multiset_insert(before, p as int, x@);
            assert(strings_view(words@.take(i as int + 1)) =~= strings_view(words@.take(i as int)).push(x@));
            vstd::seq_lib::to_multiset_build(strings_view(words@.take(i as int)), x@);
            assert(now.to_multiset() == strings_view(words@.take(i as int + 1)).to_multiset());
            assert forall|a: int, b: int| 0 <= a < b < now.len() implies !precedes(#[trigger] now[b], #[trigger] now[a]) by {
                if a < p && b == p {
                    assert(now[a] == before[a]);
                } else if a == p {
                    assert(now[b] == before[b - 1]);
                    lemma_precedes_order(before[b - 1], x@, before[p as int]);
                    lemma_precedes_order(before[b - 1], before[b - 1], before[p as int]);
                    if b - 1 > p {
                        assert(!precedes(before[b - 1], before[p as int]));
                    }
                } else if b < p {
                    assert(now[a] == before[a] && now[b] == before[b]);
                } else if a < p {
                    assert(now[a] == before[a] && now[b] == before[b - 1]);
                } else {
                    assert(now[a] == before[a - 1] && now[b] == before[b - 1]);
                }
            }
        }
        i += 1;
    }
    assert(words@.take(i as int) =~= words@);
    out
}

} // verus!
