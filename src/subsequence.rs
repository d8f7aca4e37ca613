//! Generation of the strings left after deleting a fixed number of characters.

use itertools::Itertools;
use vstd::hash_map::StringHashMap;
use vstd::prelude::*;

verus! {

/// `c` lists `n` positions below `len`, strictly increasing.
pub open spec fn is_combination(c: Seq<usize>, len: nat, n: nat) -> bool {
    &&& c.len() == n
    &&& forall|i: int| 0 <= i < c.len() ==> (c[i] as nat) < len
    &&& forall|i: int, j: int| 0 <= i < j < c.len() ==> c[i] < c[j]
}

/// What remains of `s` once the characters at the positions in `c` are removed.
pub open spec fn delete_at(s: Seq<char>, c: Seq<usize>) -> Seq<char>
    decreases s.len(),
{
    if s.len() == 0 {
        Seq::empty()
    } else {
        let rest = delete_at(s.drop_last(), c);
        if c.contains((s.len() - 1) as usize) {
            rest
        } else {
            rest.push(s.last())
        }
    }
}

/// `t` is obtained from `s` by deleting exactly `n` of its characters.
pub open spec fn is_deletion(s: Seq<char>, t: Seq<char>, n: nat) -> bool {
    exists|c: Seq<usize>| is_combination(c, s.len(), n) && #[trigger] delete_at(s, c) == t
}

/// The characters of each string of a list.
pub open spec fn strings_view(v: Seq<String>) -> Seq<Seq<char>> {
    v.map_values(|x: String| x@)
}

/// Relies on itertools' `Itertools::combinations` applied to `0..len`: it yields
/// every strictly increasing selection of `n` positions below `len`, and nothing else.
#[verifier::external_body]
fn index_combinations(len: usize, n: usize) -> (r: Vec<Vec<usize>>)
    ensures
        forall|i: int| 0 <= i < r.len() ==> is_combination(#[trigger] r[i]@, len as nat, n as nat),
        forall|c: Seq<usize>|
            is_combination(c, len as nat, n as nat) ==> exists|i: int|
                0 <= i < r.len() && #[trigger] r[i]@ == c,
{
    (0..len).combinations(n).collect()
}

/// Relies on std's `FromIterator<char>` for `String`: the string holds the
/// characters in the order given.
#[verifier::external_body]
fn string_from_chars(v: &Vec<char>) -> (r: String)
    ensures
        r@ == v@,
{
    v.iter().collect()
}

/// The characters of `s`, in order.
pub(crate) fn chars_of(s: &str) -> (r: Vec<char>)
    ensures
        r@ == s@,
{
    let len = s.unicode_len();
    let mut r: Vec<char> = Vec::new();
    let mut i: usize = 0;
    while i < len
        invariant
            i <= len,
            len == s@.len(),
            r@ == s@.take(i as int),
        decreases len - i,
    {
        r.push(s.get_char(i));
        i += 1;
        assert(r@ =~= s@.take(i as int));
    }
    assert(r@ =~= s@);
    r
}

/// Removes from `chars` the characters at the positions listed in `c`.
fn delete_positions(chars: &Vec<char>, c: &Vec<usize>) -> (r: Vec<char>)
    requires
        is_combination(c@, chars.len() as nat, c.len() as nat),
    ensures
        r@ == delete_at(chars@, c@),
        r.len() + c.len() == chars.len(),
{
    let mut out: Vec<char> = Vec::new();
    let mut i: usize = 0;
    let mut j: usize = 0;
    while i < chars.len()
        invariant
            i <= chars.len(),
            j <= c.len(),
            is_combination(c@, chars.len() as nat, c.len() as nat),
            forall|k: int| 0 <= k < j ==> c@[k] < i,
            forall|k: int| j <= k < c.len() ==> c@[k] >= i,
            out@ == delete_at(chars@.take(i as int), c@),
            out.len() + j == i,
        decreases chars.len() - i,
    {
        let ghost pre = chars@.take(i as int + 1);
        assert(pre.drop_last() =~= chars@.take(i as int));
        assert(c@.contains(i) <==> (j < c.len() && c@[j as int] == i)) by {
            if c@.contains(i) {
                let k = choose|k: int| 0 <= k < c@.len() && c@[k] == i;
                if k > j {
                    assert(c@[j as int] < c@[k]);
                }
            }
        }
        if j < c.len() && c[j] == i {
            j += 1;
        } else {
            out.push(chars[i]);
        }
        i += 1;
    }
    assert(chars@.take(i as int) =~= chars@);
    if j < c.len() {
        assert(c@[j as int] < chars.len());
    }
    out
}

/// Removing no position leaves a string as it is.
proof fn lemma_delete_none(s: Seq<char>)
    ensures
        delete_at(s, Seq::empty()) == s,
    decreases s.len(),
{
    if s.len() > 0 {
        lemma_delete_none(s.drop_last());
        assert(s.drop_last().push(s.last()) =~= s);
    }
}

/// Deleting no character leaves exactly the string itself: the generator at
/// count zero gives `{s}`.
pub proof fn lemma_zero_deletions(s: Seq<char>, t: Seq<char>)
    ensures
        is_deletion(s, t, 0) <==> t == s,
{
    lemma_delete_none(s);
    let e = Seq::<usize>::empty();
    assert(is_combination(e, s.len(), 0));
    if is_deletion(s, t, 0) {
        let c = choose|c: Seq<usize>| is_combination(c, s.len(), 0) && delete_at(s, c) == t;
        assert(c =~= e);
    }
    if t == s {
        assert(delete_at(s, e) == t);
    }
}

/// Every distinct string obtained by deleting exactly `n` characters of `s`,
/// each once. Each of them is `n` characters shorter than `s`.
pub fn subsequences_from_n_deletions(s: &str, n: usize) -> (r: Vec<String>)
    ensures
        strings_view(r@).no_duplicates(),
        forall|t: Seq<char>| strings_view(r@).contains(t) <==> is_deletion(s@, t, n as nat),
        forall|i: int| 0 <= i < r.len() ==> #[trigger] r[i]@.len() + n == s@.len(),
        n == 0 ==> strings_view(r@) == seq![s@],
{
    if n == 0 {
        let r = vec![s.to_owned()];
        proof {
            assert(strings_view(r@) =~= seq![s@]);
            assert forall|t: Seq<char>| strings_view(r@).contains(t) <==> is_deletion(s@, t, 0) by {
                lemma_zero_deletions(s@, t);
                if t == s@ {
                    assert(strings_view(r@)[0] == t);
                }
            }
        }
        return r;
    }
    let chars = chars_of(s);
    let combos = index_combinations(chars.len(), n);
    let mut seen: StringHashMap<()> = StringHashMap::new();
    let mut r: Vec<String> = Vec::new();
    let mut k: usize = 0;
    while k < combos.len()
        invariant
            k <= combos.len(),
            chars@ == s@,
            forall|i: int| 0 <= i < combos.len() ==> is_combination(#[trigger] combos[i]@, chars.len() as nat, n as nat),
            strings_view(r@).no_duplicates(),
            forall|t: Seq<char>| #[trigger] seen@.contains_key(t) <==> strings_view(r@).contains(t),
            forall|t: Seq<char>| #[trigger] strings_view(r@).contains(t) ==> is_deletion(s@, t, n as nat),
            forall|i: int| 0 <= i < r.len() ==> #[trigger] r[i]@.len() + n == s@.len(),
            forall|q: int| 0 <= q < k ==> strings_view(r@).contains(delete_at(chars@, #[trigger] combos[q]@)),
        decreases combos.len() - k,
    {
        assert(is_combination(combos[k as int]@, chars.len() as nat, n as nat));
        let kept = delete_positions(&chars, &combos[k]);
        let t = string_from_chars(&kept);
        if !seen.contains_key(t.as_str()) {
            let ghost old_r = r@;
            seen.insert(t.clone(), ());
            r.push(t);
            proof {
                assert(strings_view(r@) =~= strings_view(old_r).push(t@));
                assert forall|x: Seq<char>| strings_view(r@).contains(x) implies is_deletion(s@, x, n as nat) by {
                    if x == t@ {
                        assert(is_combination(combos[k as int]@, s@.len(), n as nat));
                    } else {
                        assert(strings_view(old_r).contains(x));
                    }
                }
                assert forall|q: int| 0 <= q < k + 1 implies strings_view(r@).contains(delete_at(chars@, #[trigger] combos[q]@)) by {
                    if q < k {
                        let y = delete_at(chars@, combos[q]@);
                        assert(strings_view(old_r).contains(y));
                        let p = choose|p: int| 0 <= p < old_r.len() && strings_view(old_r)[p] == y;
                        assert(strings_view(r@)[p] == y);
                    } else {
                        assert(strings_view(r@)[old_r.len() as int] == t@);
                    }
                }
                assert forall|x: Seq<char>| #[trigger] seen@.contains_key(x) <==> strings_view(r@).contains(x) by {
                    if strings_view(old_r).contains(x) {
                        let p = choose|p: int| 0 <= p < old_r.len() && strings_view(old_r)[p] == x;
                        assert(strings_view(r@)[p] == x);
                    }
                    if x == t@ {
                        assert(strings_view(r@)[old_r.len() as int] == t@);
                    }
                }
            }
        }
        k += 1;
    }
    proof {
        assert forall|t: Seq<char>| is_deletion(s@, t, n as nat) implies strings_view(r@).contains(t) by {
            let c = choose|c: Seq<usize>| is_combination(c, s@.len(), n as nat) && delete_at(s@, c) == t;
            assert(is_combination(c, chars.len() as nat, n as nat));
            let q = choose|q: int| 0 <= q < combos.len() && combos[q]@ == c;
        }
    }
    r
}

} // verus!
