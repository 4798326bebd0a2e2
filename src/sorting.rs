//! Stable ordering by an integer key, stated over sequences.

use vstd::prelude::*;

verus! {

pub open spec fn sorted_by<A>(s: Seq<A>, key: spec_fn(A) -> u64) -> bool {
    forall|i: int, j: int| 0 <= i < j < s.len() ==> key(s[i]) <= key(s[j])
}

/// The elements of `s` whose key is `t`, in their order in `s`.
pub open spec fn with_key<A>(s: Seq<A>, key: spec_fn(A) -> u64, t: u64) -> Seq<A> {
    s.filter(key_is(key, t))
}

pub open spec fn key_is<A>(key: spec_fn(A) -> u64, t: u64) -> spec_fn(A) -> bool {
    |a: A| key(a) == t
}

/// `r` is `s` ordered by `key`, where elements with equal keys keep their
/// order in `s`. Exactly one sequence is so related to a given `s`.
pub open spec fn stable_sorted<A>(r: Seq<A>, s: Seq<A>, key: spec_fn(A) -> u64) -> bool {
    &&& sorted_by(r, key)
    &&& forall|t: u64| #[trigger] with_key(r, key, t) == with_key(s, key, t)
}

proof fn lemma_filter_none<A>(s: Seq<A>, p: spec_fn(A) -> bool)
    requires
        forall|i: int| 0 <= i < s.len() ==> !p(#[trigger] s[i]),
    ensures
        s.filter(p) == Seq::<A>::empty(),
    decreases s.len(),
{
    reveal(Seq::filter);
    if s.len() > 0 {
        lemma_filter_none(s.drop_last(), p);
        assert(!p(s[s.len() - 1]));
    }
}

proof fn lemma_filter_single<A>(x: A, p: spec_fn(A) -> bool)
    ensures
        seq![x].filter(p) == if p(x) {
            seq![x]
        } else {
            Seq::<A>::empty()
        },
{
    reveal(Seq::filter);
    assert(seq![x].drop_last() =~= Seq::<A>::empty());
    lemma_filter_none(Seq::<A>::empty(), p);
    assert(seq![x].last() == x);
    assert(Seq::<A>::empty().push(x) =~= seq![x]);
}

/// The empty sequence is its own stable ordering.
pub proof fn lemma_stable_empty<A>(key: spec_fn(A) -> u64)
    ensures
        stable_sorted(Seq::<A>::empty(), Seq::<A>::empty(), key),
{
}

/// Inserting `x` after every element whose key is at most its own extends a
/// stable ordering of `s` to one of `s.push(x)`.
pub proof fn lemma_stable_insert<A>(r: Seq<A>, s: Seq<A>, key: spec_fn(A) -> u64, j: int, x: A)
    requires
        stable_sorted(r, s, key),
        0 <= j <= r.len(),
        forall|i: int| 0 <= i < j ==> key(#[trigger] r[i]) <= key(x),
        forall|i: int| j <= i < r.len() ==> key(#[trigger] r[i]) > key(x),
    ensures
        stable_sorted(r.insert(j, x), s.push(x), key),
{
    let r2 = r.insert(j, x);
    assert(sorted_by(r2, key)) by {
        assert forall|a: int, b: int| 0 <= a < b < r2.len() implies key(r2[a]) <= key(r2[b]) by {
            if b < j {
                assert(r2[a] == r[a] && r2[b] == r[b]);
            } else if b == j {
                assert(r2[a] == r[a]);
            } else if a < j {
                assert(r2[a] == r[a] && r2[b] == r[b - 1]);
            } else if a == j {
                assert(r2[b] == r[b - 1]);
            } else {
                assert(r2[a] == r[a - 1] && r2[b] == r[b - 1]);
            }
        }
    }
    assert forall|t: u64| #[trigger] with_key(r2, key, t) == with_key(s.push(x), key, t) by {
        let p = key_is(key, t);
        let lo = r.take(j);
        let hi = r.skip(j);
        assert(r2 =~= lo + seq![x] + hi);
        assert(r =~= lo + hi);
        Seq::filter_distributes_over_add(lo + seq![x], hi, p);
        Seq::filter_distributes_over_add(lo, seq![x], p);
        Seq::filter_distributes_over_add(lo, hi, p);
        lemma_filter_single(x, p);
        reveal(Seq::filter);
        assert(s.push(x).drop_last() =~= s);
        assert(s.push(x).last() == x);
        assert(with_key(r, key, t) == with_key(s, key, t));
        if key(x) == t {
            assert forall|i: int| 0 <= i < hi.len() implies !p(#[trigger] hi[i]) by {
                assert(hi[i] == r[j + i]);
            }
            lemma_filter_none(hi, p);
            assert(hi.filter(p) + Seq::<A>::empty() =~= hi.filter(p));
            assert(lo.filter(p) + Seq::<A>::empty() =~= lo.filter(p));
        } else {
            assert(lo.filter(p) + Seq::<A>::empty() =~= lo.filter(p));
        }
    }
}

proof fn lemma_split_count<A>(s: Seq<A>, p: spec_fn(A) -> bool, q: spec_fn(A) -> bool)
    requires
        forall|i: int| 0 <= i < s.len() ==> (p(#[trigger] s[i]) <==> !q(s[i])),
    ensures
        s.filter(p).len() + s.filter(q).len() == s.len(),
    decreases s.len(),
{
    reveal(Seq::filter);
    if s.len() > 0 {
        assert forall|i: int| 0 <= i < s.drop_last().len() implies (p(#[trigger] s.drop_last()[i])
            <==> !q(s.drop_last()[i])) by {
            assert(s.drop_last()[i] == s[i]);
        }
        lemma_split_count(s.drop_last(), p, q);
        assert(p(s[s.len() - 1]) <==> !q(s[s.len() - 1]));
    }
}

proof fn lemma_with_key_pair<A>(x: A, y: A, key: spec_fn(A) -> u64, t: u64)
    ensures
        with_key(seq![x, y], key, t) == if key(x) == t && key(y) == t {
            seq![x, y]
        } else if key(x) == t {
            seq![x]
        } else if key(y) == t {
            seq![y]
        } else {
            Seq::<A>::empty()
        },
{
    let p = key_is(key, t);
    assert(seq![x, y] =~= seq![x] + seq![y]);
    Seq::filter_distributes_over_add(seq![x], seq![y], p);
    lemma_filter_single(x, p);
    lemma_filter_single(y, p);
    assert(seq![x] + seq![y] =~= seq![x, y]);
    assert(seq![x] + Seq::<A>::empty() =~= seq![x]);
    assert(Seq::<A>::empty() + seq![y] =~= seq![y]);
    assert(Seq::<A>::empty() + Seq::<A>::empty() =~= Seq::<A>::empty());
}

/// The stable ordering of two elements with increasing keys is those two
/// elements in that order.
pub proof fn lemma_stable_pair<A>(r: Seq<A>, x: A, y: A, key: spec_fn(A) -> u64)
    requires
        stable_sorted(r, seq![x, y], key),
        key(x) < key(y),
    ensures
        r == seq![x, y],
{
    let s = seq![x, y];
    let kx = key(x);
    let ky = key(y);
    let px = key_is(key, kx);
    let py = key_is(key, ky);
    lemma_with_key_pair(x, y, key, kx);
    lemma_with_key_pair(x, y, key, ky);
    assert(with_key(r, key, kx) == seq![x]);
    assert(with_key(r, key, ky) == seq![y]);
    // every element of r has the key of x or of y
    assert forall|i: int| 0 <= i < r.len() implies (px(#[trigger] r[i]) <==> !py(r[i])) by {
        let t = key(r[i]);
        let pt = key_is(key, t);
        r.lemma_filter_contains(pt, i);
        assert(with_key(r, key, t) == with_key(s, key, t));
        lemma_with_key_pair(x, y, key, t);
        let w = choose|k: int| 0 <= k < r.filter(pt).len() && r.filter(pt)[k] == r[i];
        assert(with_key(r, key, t).len() > 0);
    }
    lemma_split_count(r, px, py);
    assert(r.len() == 2);
    r.lemma_filter_contains_rev(px, x);
    r.lemma_filter_contains_rev(py, y);
    assert(seq![x].contains(x)) by {
        assert(seq![x][0] == x);
    }
    assert(seq![y].contains(y)) by {
        assert(seq![y][0] == y);
    }
    let ix = choose|i: int| 0 <= i < r.len() && r[i] == x;
    let iy = choose|i: int| 0 <= i < r.len() && r[i] == y;
    assert(ix != iy);
    if ix == 1 {
        assert(key(r[0]) <= key(r[1]));
    }
    assert(r =~= seq![x, y]);
}

/// The stable ordering of one element is that element.
pub proof fn lemma_stable_single<A>(r: Seq<A>, x: A, key: spec_fn(A) -> u64)
    requires
        stable_sorted(r, seq![x], key),
    ensures
        r == seq![x],
{
    let kx = key(x);
    let px = key_is(key, kx);
    let qx = |a: A| !px(a);
    lemma_filter_single(x, px);
    assert(with_key(r, key, kx) == seq![x]);
    assert forall|i: int| 0 <= i < r.len() implies px(#[trigger] r[i]) by {
        let t = key(r[i]);
        let pt = key_is(key, t);
        r.lemma_filter_contains(pt, i);
        let w = choose|k: int| 0 <= k < r.filter(pt).len() && r.filter(pt)[k] == r[i];
        assert(with_key(r, key, t) == with_key(seq![x], key, t));
        lemma_filter_single(x, pt);
    }
    lemma_split_count(r, px, qx);
    lemma_filter_none(r, qx);
    assert(seq![x][0] == x);
    assert(seq![x].contains(x));
    assert(r.filter(px) == seq![x]);
    r.lemma_filter_contains_rev(px, x);
    assert(r.len() == 1);
    assert(r =~= seq![x]);
}

} // verus!
