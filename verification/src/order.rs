use vstd::prelude::*;
use vstd::multiset::Multiset;

verus! {

broadcast use {
    vstd::seq_lib::to_multiset_build,
    vstd::seq_lib::lemma_multiset_commutative,
    vstd::multiset::group_multiset_axioms,
};

/// A value that is ranked by an unsigned key; lists of such values are kept
/// with the largest key first.
pub trait RankKey {
    spec fn rank_key(&self) -> u64;

    fn rank(&self) -> (k: u64)
        ensures
            k == self.rank_key(),
    ;
}

/// Keys never increase from front to back.
pub open spec fn sorted_desc<T: RankKey>(s: Seq<T>) -> bool {
    forall|i: int, j: int| 0 <= i < j < s.len() ==> #[trigger] s[i].rank_key() >= #[trigger] s[j].rank_key()
}

/// Keys never decrease from front to back.
spec fn sorted_asc<T: RankKey>(s: Seq<T>) -> bool {
    forall|i: int, j: int| 0 <= i < j < s.len() ==> #[trigger] s[i].rank_key() <= #[trigger] s[j].rank_key()
}

proof fn lemma_pop_multiset<T>(s: Seq<T>)
    requires
        s.len() > 0,
    ensures
        s.to_multiset() == s.drop_last().to_multiset().insert(s.last()),
{
    assert(s.drop_last().push(s.last()) =~= s);
}

proof fn lemma_empty_multiset<T>(s: Seq<T>)
    requires
        s.len() == 0,
    ensures
        s.to_multiset() == Multiset::<T>::empty(),
{
    vstd::seq_lib::to_multiset_len(s);
    vstd::multiset::lemma_multiset_empty_len(s.to_multiset());
}

/// Turns a list whose keys never decrease into the same list back to front.
fn reverse_into_desc<T: RankKey>(asc: Vec<T>) -> (out: Vec<T>)
    requires
        sorted_asc(asc@),
    ensures
        sorted_desc(out@),
        out@.to_multiset() == asc@.to_multiset(),
{
    let mut asc = asc;
    let ghost total = asc@.to_multiset();
    let mut out: Vec<T> = Vec::new();
    proof {
        lemma_empty_multiset(out@);
        assert(out@.to_multiset().add(asc@.to_multiset()) =~= total);
    }
    while asc.len() > 0
        invariant
            sorted_asc(asc@),
            sorted_desc(out@),
            forall|i: int, j: int|
                0 <= i < out@.len() && 0 <= j < asc@.len() ==> #[trigger] out@[i].rank_key()
                    >= #[trigger] asc@[j].rank_key(),
            out@.to_multiset().add(asc@.to_multiset()) == total,
        decreases asc.len(),
    {
        proof {
            lemma_pop_multiset(asc@);
        }
        let ghost before = out@;
        let x = asc.pop().unwrap();
        out.push(x);
        proof {
            assert(out@ == before.push(x));
            assert(out@.to_multiset().add(asc@.to_multiset()) =~= total);
        }
    }
    proof {
        lemma_empty_multiset(asc@);
        assert(out@.to_multiset() =~= out@.to_multiset().add(asc@.to_multiset()));
    }
    out
}

/// Merges two lists ranked largest first into one list ranked largest first.
fn merge_desc<T: RankKey>(a: Vec<T>, b: Vec<T>) -> (out: Vec<T>)
    requires
        sorted_desc(a@),
        sorted_desc(b@),
    ensures
        sorted_desc(out@),
        out@.to_multiset() == a@.to_multiset().add(b@.to_multiset()),
{
    let mut a = a;
    let mut b = b;
    let ghost total = a@.to_multiset().add(b@.to_multiset());
    let mut asc: Vec<T> = Vec::new();
    proof {
        lemma_empty_multiset(asc@);
        assert(asc@.to_multiset().add(a@.to_multiset()).add(b@.to_multiset()) =~= total);
    }
    while a.len() > 0 || b.len() > 0
        invariant
            sorted_desc(a@),
            sorted_desc(b@),
            sorted_asc(asc@),
            forall|i: int, j: int|
                0 <= i < asc@.len() && 0 <= j < a@.len() ==> #[trigger] asc@[i].rank_key()
                    <= #[trigger] a@[j].rank_key(),
            forall|i: int, j: int|
                0 <= i < asc@.len() && 0 <= j < b@.len() ==> #[trigger] asc@[i].rank_key()
                    <= #[trigger] b@[j].rank_key(),
            asc@.to_multiset().add(a@.to_multiset()).add(b@.to_multiset()) == total,
        decreases a.len() + b.len(),
    {
        let take_a = if a.len() == 0 {
            false
        } else if b.len() == 0 {
            true
        } else {
            a[a.len() - 1].rank() <= b[b.len() - 1].rank()
        };
        if take_a {
            proof {
                lemma_pop_multiset(a@);
            }
            let ghost before = asc@;
            let x = a.pop().unwrap();
            asc.push(x);
            proof {
                assert(asc@ == before.push(x));
                assert(asc@.to_multiset().add(a@.to_multiset()).add(b@.to_multiset()) =~= total);
            }
        } else {
            proof {
                lemma_pop_multiset(b@);
            }
            let ghost before = asc@;
            let x = b.pop().unwrap();
            asc.push(x);
            proof {
                assert(asc@ == before.push(x));
                assert(asc@.to_multiset().add(a@.to_multiset()).add(b@.to_multiset()) =~= total);
            }
        }
    }
    proof {
        lemma_empty_multiset(a@);
        lemma_empty_multiset(b@);
        assert(asc@.to_multiset() =~= total);
    }
    reverse_into_desc(asc)
}

/// Mapping two lists that hold the same items gives two lists that hold the
/// same items.
pub proof fn lemma_map_keeps_multiset<A, B>(a: Seq<A>, b: Seq<A>, f: spec_fn(A) -> B)
    requires
        a.to_multiset() == b.to_multiset(),
    ensures
        a.map_values(f).to_multiset() == b.map_values(f).to_multiset(),
    decreases a.len(),
{
    broadcast use vstd::seq_lib::group_to_multiset_ensures;

    if a.len() == 0 {
        vstd::seq_lib::to_multiset_len(b);
        lemma_empty_multiset(a.map_values(f));
        lemma_empty_multiset(b.map_values(f));
    } else {
        let x = a.last();
        lemma_pop_multiset(a);
        assert(a.to_multiset().count(x) > 0);
        assert(b.contains(x));
        let i = choose|i: int| 0 <= i < b.len() && b[i] == x;
        let b2 = b.remove(i);
        assert(b2.to_multiset() == b.to_multiset().remove(x));
        assert(a.drop_last().to_multiset() =~= b2.to_multiset());
        lemma_map_keeps_multiset(a.drop_last(), b2, f);
        assert(a.map_values(f) =~= a.drop_last().map_values(f).push(f(x)));
        assert(b.map_values(f).remove(i) =~= b2.map_values(f));
        assert(b.map_values(f)[i] == f(x));
        assert(b.map_values(f).remove(i).to_multiset() == b.map_values(f).to_multiset().remove(f(x)));
        assert(b.map_values(f).to_multiset().count(f(x)) > 0);
        assert(b.map_values(f).to_multiset() =~= b.map_values(f).to_multiset().remove(f(x)).insert(f(x)));
    }
}

proof fn lemma_two_places_count<A>(s: Seq<A>, i: int, j: int)
    requires
        0 <= i < j < s.len(),
        s[i] == s[j],
    ensures
        s.to_multiset().count(s[i]) >= 2,
{
    broadcast use vstd::seq_lib::group_to_multiset_ensures;

    let r = s.remove(j);
    assert(r =~= s.subrange(0, j) + s.subrange(j + 1, s.len() as int));
    assert(r[i] == s[i]);
    assert(r.contains(s[i]));
    assert(r.to_multiset() == s.to_multiset().remove(s[j]));
    assert(r.to_multiset().count(s[i]) > 0);
    assert(s.contains(s[i]));
    assert(s.to_multiset().count(s[i]) > 0);
}

proof fn lemma_count_two_places<A>(s: Seq<A>, x: A)
    requires
        s.to_multiset().count(x) >= 2,
    ensures
        exists|i: int, j: int| 0 <= i < j < s.len() && s[i] == x && s[j] == x,
{
    broadcast use vstd::seq_lib::group_to_multiset_ensures;

    assert(s.contains(x));
    let p = choose|p: int| 0 <= p < s.len() && s[p] == x;
    let r = s.remove(p);
    assert(r.to_multiset() == s.to_multiset().remove(x));
    assert(r.to_multiset().count(x) >= 1);
    assert(r.contains(x));
    let q = choose|q: int| 0 <= q < r.len() && r[q] == x;
    if q < p {
        assert(s[q] == r[q]);
        assert(0 <= q < p < s.len() && s[q] == x && s[p] == x);
    } else {
        assert(s[q + 1] == r[q]);
        assert(0 <= p < q + 1 < s.len() && s[p] == x && s[q + 1] == x);
    }
}

/// Reordering a list whose items all differ in `key` gives a list whose items
/// all differ in `key`.
pub proof fn lemma_permutation_keeps_distinct<A, K>(a: Seq<A>, b: Seq<A>, key: spec_fn(A) -> K)
    requires
        a.to_multiset() == b.to_multiset(),
        forall|i: int, j: int| 0 <= i < j < a.len() ==> key(#[trigger] a[i]) != key(#[trigger] a[j]),
    ensures
        forall|i: int, j: int| 0 <= i < j < b.len() ==> key(#[trigger] b[i]) != key(#[trigger] b[j]),
{
    broadcast use vstd::seq_lib::group_to_multiset_ensures;

    assert forall|i: int, j: int| 0 <= i < j < b.len() implies key(#[trigger] b[i]) != key(#[trigger] b[j]) by {
        if key(b[i]) == key(b[j]) {
            if b[i] == b[j] {
                lemma_two_places_count(b, i, j);
                lemma_count_two_places(a, b[i]);
                let (p, q) = choose|p: int, q: int| 0 <= p < q < a.len() && a[p] == b[i] && a[q] == b[i];
                assert(key(a[p]) != key(a[q]));
            } else {
                assert(b.to_multiset().count(b[i]) > 0);
                assert(b.to_multiset().count(b[j]) > 0);
                assert(a.contains(b[i]));
                assert(a.contains(b[j]));
                let p = choose|p: int| 0 <= p < a.len() && a[p] == b[i];
                let q = choose|q: int| 0 <= q < a.len() && a[q] == b[j];
                if p < q {
                    assert(key(a[p]) != key(a[q]));
                } else {
                    assert(key(a[q]) != key(a[p]));
                }
            }
        }
    }
}

/// Reordering a list whose items lie pairwise apart, for a symmetric
/// relation `apart`, gives a list whose items lie pairwise apart.
pub proof fn lemma_permutation_keeps_apart<A>(a: Seq<A>, b: Seq<A>, apart: spec_fn(A, A) -> bool)
    requires
        a.to_multiset() == b.to_multiset(),
        forall|x: A, y: A| #[trigger] apart(x, y) ==> apart(y, x),
        forall|i: int, j: int| 0 <= i < j < a.len() ==> apart(#[trigger] a[i], #[trigger] a[j]),
    ensures
        forall|i: int, j: int| 0 <= i < j < b.len() ==> apart(#[trigger] b[i], #[trigger] b[j]),
{
    broadcast use vstd::seq_lib::group_to_multiset_ensures;

    assert forall|i: int, j: int| 0 <= i < j < b.len() implies apart(#[trigger] b[i], #[trigger] b[j]) by {
        if b[i] == b[j] {
            lemma_two_places_count(b, i, j);
            lemma_count_two_places(a, b[i]);
            let (p, q) = choose|p: int, q: int| 0 <= p < q < a.len() && a[p] == b[i] && a[q] == b[i];
            assert(apart(a[p], a[q]));
        } else {
            assert(b.to_multiset().count(b[i]) > 0);
            assert(b.to_multiset().count(b[j]) > 0);
            assert(a.contains(b[i]));
            assert(a.contains(b[j]));
            let p = choose|p: int| 0 <= p < a.len() && a[p] == b[i];
            let q = choose|q: int| 0 <= q < a.len() && a[q] == b[j];
            if p < q {
                assert(apart(a[p], a[q]));
            } else {
                assert(apart(a[q], a[p]));
            }
        }
    }
}

/// Orders `v` by key, largest first. Items with equal keys may come out in any
/// order; nothing is added or lost.
pub fn sort_desc<T: RankKey>(v: Vec<T>) -> (out: Vec<T>)
    ensures
        sorted_desc(out@),
        out@.to_multiset() == v@.to_multiset(),
    decreases v@.len(),
{
    if v.len() <= 1 {
        return v;
    }
    let mut left = v;
    let mid = left.len() / 2;
    let right = left.split_off(mid);
    proof {
        assert(v@ =~= left@ + right@);
    }
    let l = sort_desc(left);
    let r = sort_desc(right);
    merge_desc(l, r)
}

} // verus!
