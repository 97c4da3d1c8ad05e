//! A stable insertion sort by a caller-supplied "comes no later than" test.

use vstd::prelude::*;
use vstd::relations::{reflexive, sorted_by, strongly_connected, transitive};

verus! {

/// `le` is reflexive, transitive and total: a ranking in which distinct
/// items may tie.
pub open spec fn total_preorder<T>(le: spec_fn(T, T) -> bool) -> bool {
    &&& reflexive(le)
    &&& transitive(le)
    &&& strongly_connected(le)
}

/// Sorts `items` so that every item comes no later than the ones after it
/// according to `le`; `before` decides `le` on concrete items.
pub fn sort_by_rank<T, F: Fn(&T, &T) -> bool>(
    items: Vec<T>,
    before: F,
    Ghost(le): Ghost<spec_fn(T, T) -> bool>,
) -> (r: Vec<T>)
    requires
        total_preorder(le),
        forall|a: &T, b: &T| #[trigger] before.requires((a, b)),
        forall|a: &T, b: &T, r: bool| before.ensures((a, b), r) ==> r == le(*a, *b),
    ensures
        sorted_by(r@, le),
        r@.to_multiset() == items@.to_multiset(),
        r@.len() == items@.len(),
{
    broadcast use vstd::seq_lib::group_to_multiset_ensures;

    let ghost original = items@;
    let mut items = items;
    let mut out: Vec<T> = Vec::new();
    let ghost mut k: int = 0;
    while items.len() > 0
        invariant
            total_preorder(le),
            forall|a: &T, b: &T| #[trigger] before.requires((a, b)),
            forall|a: &T, b: &T, r: bool| before.ensures((a, b), r) ==> r == le(*a, *b),
            0 <= k <= original.len(),
            items@ == original.skip(k),
            out@.to_multiset() == original.take(k).to_multiset(),
            out@.len() == k,
            sorted_by(out@, le),
        decreases items@.len(),
    {
        let x = items.remove(0);
        proof {
            assert(original.skip(k + 1) =~= original.skip(k).drop_first());
            assert(original.take(k + 1) =~= original.take(k).push(x));
        }
        let mut pos: usize = 0;
        while pos < out.len() && before(&out[pos], &x)
            invariant
                forall|a: &T, b: &T| #[trigger] before.requires((a, b)),
                forall|a: &T, b: &T, r: bool| before.ensures((a, b), r) ==> r == le(*a, *b),
                pos <= out@.len(),
                forall|i: int| 0 <= i < pos ==> #[trigger] le(out@[i], x),
            decreases out@.len() - pos,
        {
            pos = pos + 1;
        }
        let ghost before_insert = out@;
        proof {
            assert forall|j: int| pos <= j < before_insert.len() implies #[trigger] le(
                x,
                before_insert[j],
            ) by {
                if le(before_insert[j], x) {
                    assert(le(before_insert[pos as int], before_insert[j]));
                    assert(le(before_insert[pos as int], x));
                }
            }
        }
        out.insert(pos, x);
        proof {
            let s = before_insert;
            let p = pos as int;
            assert(out@ =~= s.subrange(0, p).push(x) + s.subrange(p, s.len() as int));
            vstd::seq_lib::lemma_multiset_commutative(
                s.subrange(0, p).push(x),
                s.subrange(p, s.len() as int),
            );
            vstd::seq_lib::lemma_multiset_commutative(s.subrange(0, p), s.subrange(p, s.len() as int));
            assert(s =~= s.subrange(0, p) + s.subrange(p, s.len() as int));
            let a = s.subrange(0, p);
            let b = s.subrange(p, s.len() as int);
            vstd::seq_lib::to_multiset_build(a, x);
            vstd::seq_lib::to_multiset_build(original.take(k), x);
            assert(out@.to_multiset() =~= a.to_multiset().insert(x).add(b.to_multiset()));
            assert(out@.to_multiset() =~= s.to_multiset().insert(x));
            assert forall|i: int, j: int| 0 <= i < j < out@.len() implies #[trigger] le(
                out@[i],
                out@[j],
            ) by {
                if j < p {
                    assert(le(s[i], s[j]));
                } else if j == p {
                    assert(le(s[i], x));
                } else if i < p {
                    assert(le(s[i], s[j - 1]));
                } else if i == p {
                    assert(le(x, s[j - 1]));
                } else {
                    assert(le(s[i - 1], s[j - 1]));
                }
            }
            k = k + 1;
        }
    }
    proof {
        assert(original.take(k) =~= original);
    }
    out
}

/// Rearranging a sequence rearranges its image under any map.
pub proof fn lemma_map_multiset<A, B>(a: Seq<A>, b: Seq<A>, f: spec_fn(A) -> B)
    requires
        a.to_multiset() == b.to_multiset(),
    ensures
        a.map_values(f).to_multiset() == b.map_values(f).to_multiset(),
    decreases a.len(),
{
    broadcast use vstd::seq_lib::group_to_multiset_ensures;

    vstd::seq_lib::to_multiset_len(a);
    vstd::seq_lib::to_multiset_len(b);
    if a.len() == 0 {
        assert(a.map_values(f) =~= Seq::<B>::empty());
        assert(b.map_values(f) =~= Seq::<B>::empty());
    } else {
        let x = a.last();
        let a0 = a.drop_last();
        vstd::seq_lib::to_multiset_build(a0, x);
        assert(a0.push(x) =~= a);
        assert(b.to_multiset().count(x) > 0);
        vstd::seq_lib::to_multiset_contains(b, x);
        let i = choose|i: int| 0 <= i < b.len() && b[i] == x;
        vstd::seq_lib::to_multiset_remove(b, i);
        assert(a0.to_multiset() =~= b.remove(i).to_multiset());
        lemma_map_multiset(a0, b.remove(i), f);
        let fb = b.map_values(f);
        assert(b.remove(i).map_values(f) =~= fb.remove(i));
        vstd::seq_lib::to_multiset_remove(fb, i);
        assert(a.map_values(f) =~= a0.map_values(f).push(f(x)));
        vstd::seq_lib::to_multiset_build(a0.map_values(f), f(x));
        vstd::seq_lib::to_multiset_contains(fb, f(x));
        assert(fb[i] == f(x));
        assert(fb.to_multiset().count(f(x)) > 0);
        assert(fb.to_multiset() =~= fb.to_multiset().remove(f(x)).insert(f(x)));
    }
}

} // verus!
