use vstd::arithmetic::power2::{lemma2_to64, lemma_pow2_unfold, pow2};
use vstd::prelude::*;

use crate::random::random_below;

verus! {

broadcast use vstd::seq_lib::group_to_multiset_ensures;

/// Ordering keys of the minimum corner of an element's bounding box, one per
/// axis. Keys compare as the coordinates they stand for.
#[derive(Clone, Copy, Debug, PartialEq, Eq, Structural)]
pub struct AxisKeys {
    pub x: i64,
    pub y: i64,
    pub z: i64,
}

impl AxisKeys {
    /// The key on axis `0` (x), `1` (y) or `2` (z).
    pub open spec fn on(self, axis: int) -> int {
        if axis == 0 {
            self.x as int
        } else if axis == 1 {
            self.y as int
        } else {
            self.z as int
        }
    }

    pub fn key(&self, axis: usize) -> (r: i64)
        requires
            axis < 3,
        ensures
            r == self.on(axis as int),
    {
        if axis == 0 {
            self.x
        } else if axis == 1 {
            self.y
        } else {
            self.z
        }
    }
}

/// The shape of a bounding volume hierarchy over elements `0..n`. A split
/// records the axis it was made on; a leaf names one element.
#[derive(Debug)]
pub enum BvhShape {
    Leaf(usize),
    Split { axis: usize, left: Box<BvhShape>, right: Box<BvhShape> },
}

/// The elements that the leaves under `t` name.
pub open spec fn leaves(t: BvhShape) -> Set<usize>
    decreases t,
{
    match t {
        BvhShape::Leaf(e) => set![e],
        BvhShape::Split { left, right, .. } => leaves(*left).union(leaves(*right)),
    }
}

/// Number of splits on the longest path from `t` down to a leaf.
pub open spec fn height(t: BvhShape) -> nat
    decreases t,
{
    match t {
        BvhShape::Leaf(_) => 0,
        BvhShape::Split { left, right, .. } => {
            let l = height(*left);
            let r = height(*right);
            1 + if l >= r {
                l
            } else {
                r
            }
        },
    }
}

/// `t` is the hierarchy that repeated halving gives for `n` elements: one
/// element is duplicated under a split, two are split into two leaves, and
/// more are split into halves of `n / 2` and `n - n / 2` elements.
pub open spec fn halved(t: BvhShape, n: nat) -> bool
    decreases n,
{
    match t {
        BvhShape::Leaf(_) => false,
        BvhShape::Split { left, right, .. } => if n <= 1 {
            n == 1 && (*left) is Leaf && *left == *right
        } else if n == 2 {
            (*left) is Leaf && (*right) is Leaf
        } else {
            halved(*left, n / 2) && halved(*right, (n - n / 2) as nat)
        },
    }
}

/// Every leaf names an element that has keys, and at every split each element
/// on the left comes no later, on the split's axis, than each on the right.
pub open spec fn ordered(t: BvhShape, keys: Seq<AxisKeys>) -> bool
    decreases t,
{
    match t {
        BvhShape::Leaf(e) => e < keys.len(),
        BvhShape::Split { axis, left, right } => {
            &&& axis < 3
            &&& ordered(*left, keys)
            &&& ordered(*right, keys)
            &&& forall|a: usize, b: usize|
                #![trigger leaves(*left).contains(a), leaves(*right).contains(b)]
                leaves(*left).contains(a) && leaves(*right).contains(b) ==> keys[a as int].on(
                    axis as int,
                ) <= keys[b as int].on(axis as int)
        },
    }
}

/// Every entry of `s` is below `n`.
pub open spec fn all_below(s: Seq<usize>, n: int) -> bool {
    forall|k: int| 0 <= k < s.len() ==> #[trigger] s[k] < n
}

/// `after` differs from `before` at most inside `start..end`.
pub open spec fn same_outside(after: Seq<usize>, before: Seq<usize>, start: int, end: int) -> bool {
    &&& after.len() == before.len()
    &&& forall|k: int| 0 <= k < before.len() && !(start <= k < end) ==> #[trigger] after[k] == before[k]
}

proof fn lemma_split_set(s: Seq<usize>, a: int, b: int, c: int)
    requires
        0 <= a <= b <= c <= s.len(),
    ensures
        s.subrange(a, c).to_set() == s.subrange(a, b).to_set().union(s.subrange(b, c).to_set()),
{
    let whole = s.subrange(a, c);
    let l = s.subrange(a, b);
    let r = s.subrange(b, c);
    assert forall|x: usize| whole.contains(x) <==> l.contains(x) || r.contains(x) by {
        if whole.contains(x) {
            let i = choose|i: int| 0 <= i < whole.len() && whole[i] == x;
            if i < b - a {
                assert(l[i] == x);
            } else {
                assert(r[i - (b - a)] == x);
            }
        }
        if l.contains(x) {
            let i = choose|i: int| 0 <= i < l.len() && l[i] == x;
            assert(whole[i] == x);
        }
        if r.contains(x) {
            let i = choose|i: int| 0 <= i < r.len() && r[i] == x;
            assert(whole[i + (b - a)] == x);
        }
    }
    assert(whole.to_set() =~= l.to_set().union(r.to_set()));
}

proof fn lemma_same_multiset_same_set(s1: Seq<usize>, s2: Seq<usize>)
    requires
        s1.to_multiset() == s2.to_multiset(),
    ensures
        s1.to_set() == s2.to_set(),
{
    assert forall|x: usize| s1.contains(x) <==> s2.contains(x) by {
        assert(s1.contains(x) <==> s1.to_multiset().count(x) > 0);
        assert(s2.contains(x) <==> s2.to_multiset().count(x) > 0);
    }
    assert(s1.to_set() =~= s2.to_set());
}

/// A member of `s[a..b]` sits at some index of that range.
proof fn lemma_member_index(s: Seq<usize>, a: int, b: int, x: usize) -> (i: int)
    requires
        0 <= a <= b <= s.len(),
        s.subrange(a, b).to_set().contains(x),
    ensures
        a <= i < b,
        s[i] == x,
{
    let sub = s.subrange(a, b);
    assert(sub.contains(x));
    let j = choose|j: int| 0 <= j < sub.len() && sub[j] == x;
    a + j
}

/// Rearranging entries inside a range keeps every entry below a bound.
proof fn lemma_rearranged_below(after: Seq<usize>, before: Seq<usize>, start: int, end: int, n: int)
    requires
        0 <= start <= end <= before.len(),
        same_outside(after, before, start, end),
        after.subrange(start, end).to_set() == before.subrange(start, end).to_set(),
        all_below(before, n),
    ensures
        all_below(after, n),
{
    assert forall|k: int| 0 <= k < after.len() implies #[trigger] after[k] < n by {
        if start <= k < end {
            assert(after.subrange(start, end)[k - start] == after[k]);
            assert(after.subrange(start, end).to_set().contains(after[k]));
            let i = lemma_member_index(before, start, end, after[k]);
        }
    }
}

/// Relies on `slice::sort_unstable_by_key`: the entries of `order` in
/// `start..end` are rearranged so that their keys on `axis` never decrease;
/// entries outside that range stay where they are.
#[verifier::external_body]
fn sort_range(order: &mut Vec<usize>, keys: &Vec<AxisKeys>, axis: usize, start: usize, end: usize)
    requires
        start <= end <= old(order).len(),
        axis < 3,
        all_below(old(order)@, keys.len() as int),
    ensures
        same_outside(final(order)@, old(order)@, start as int, end as int),
        final(order)@.subrange(start as int, end as int).to_multiset() == old(order)@.subrange(
            start as int,
            end as int,
        ).to_multiset(),
        forall|a: int, b: int|
            start <= a <= b < end ==> keys@[final(order)@[a] as int].on(axis as int)
                <= keys@[final(order)@[b] as int].on(axis as int),
{
    order[start..end].sort_unstable_by_key(|e| keys[*e].key(axis));
}

/// Builds the hierarchy over the elements that `order` lists in
/// `start..end`, reordering that range on the way.
fn build_range(order: &mut Vec<usize>, keys: &Vec<AxisKeys>, start: usize, end: usize) -> (r: BvhShape)
    requires
        start < end <= old(order).len(),
        all_below(old(order)@, keys.len() as int),
    ensures
        same_outside(final(order)@, old(order)@, start as int, end as int),
        all_below(final(order)@, keys.len() as int),
        final(order)@.subrange(start as int, end as int).to_set() == old(order)@.subrange(
            start as int,
            end as int,
        ).to_set(),
        leaves(r) == old(order)@.subrange(start as int, end as int).to_set(),
        ordered(r, keys@),
        halved(r, (end - start) as nat),
        forall|h: nat| h >= 1 && end - start <= pow2(h) ==> height(r) <= h,
    decreases end - start,
{
    let ghost o0 = order@;
    let axis = random_below(3);
    let span = end - start;
    if span == 1 {
        let e = order[start];
        let r = BvhShape::Split { axis, left: Box::new(BvhShape::Leaf(e)), right: Box::new(BvhShape::Leaf(e)) };
        proof {
            assert(o0.subrange(start as int, end as int) =~= seq![e]);
            assert(seq![e].to_set() =~= set![e]) by {
                assert(seq![e][0] == e);
            }
            assert(leaves(BvhShape::Leaf(e)) == set![e]);
            assert(leaves(r) =~= set![e]);
            assert(o0[start as int] < keys.len());
            assert(ordered(BvhShape::Leaf(e), keys@));
            assert(height(BvhShape::Leaf(e)) == 0);
            assert(height(r) == 1);
        }
        r
    } else if span == 2 {
        let a = order[start];
        let b = order[start + 1];
        proof {
            assert(o0.subrange(start as int, end as int) =~= seq![a, b]);
            assert(seq![a, b].to_set() =~= set![a, b]) by {
                assert(seq![a, b][0] == a);
                assert(seq![a, b][1] == b);
            }
            assert(leaves(BvhShape::Leaf(a)) == set![a]);
            assert(leaves(BvhShape::Leaf(b)) == set![b]);
            assert(o0[start as int] < keys.len());
            assert(o0[start + 1] < keys.len());
            assert(ordered(BvhShape::Leaf(a), keys@));
            assert(ordered(BvhShape::Leaf(b), keys@));
            assert(height(BvhShape::Leaf(a)) == 0 && height(BvhShape::Leaf(b)) == 0);
        }
        if keys[a].key(axis) <= keys[b].key(axis) {
            let r = BvhShape::Split { axis, left: Box::new(BvhShape::Leaf(a)), right: Box::new(BvhShape::Leaf(b)) };
            assert(leaves(r) =~= set![a, b]);
            r
        } else {
            let r = BvhShape::Split { axis, left: Box::new(BvhShape::Leaf(b)), right: Box::new(BvhShape::Leaf(a)) };
            assert(leaves(r) =~= set![a, b]);
            r
        }
    } else {
        sort_range(order, keys, axis, start, end);
        let ghost o1 = order@;
        proof {
            lemma_same_multiset_same_set(
                o1.subrange(start as int, end as int),
                o0.subrange(start as int, end as int),
            );
            lemma_rearranged_below(o1, o0, start as int, end as int, keys.len() as int);
        }
        let mid = start + span / 2;
        let left = build_range(order, keys, start, mid);
        let ghost o2 = order@;
        let right = build_range(order, keys, mid, end);
        let ghost o3 = order@;
        let r = BvhShape::Split { axis, left: Box::new(left), right: Box::new(right) };
        proof {
            let s = start as int;
            let m = mid as int;
            let e = end as int;
            assert(o2.subrange(m, e) =~= o1.subrange(m, e));
            assert(o3.subrange(s, m) =~= o2.subrange(s, m));
            lemma_split_set(o1, s, m, e);
            lemma_split_set(o3, s, m, e);
            assert(leaves(r) == leaves(left).union(leaves(right)));
            assert forall|a: usize, b: usize|
                #![trigger leaves(left).contains(a), leaves(right).contains(b)]
                leaves(left).contains(a) && leaves(right).contains(b) implies keys@[a as int].on(
                    axis as int,
                ) <= keys@[b as int].on(axis as int) by {
                let i = lemma_member_index(o1, s, m, a);
                let j = lemma_member_index(o1, m, e, b);
            }
            assert forall|h: nat| h >= 1 && end - start <= pow2(h) implies height(r) <= h by {
                lemma2_to64();
                if h == 1 {
                    assert(false);
                }
                lemma_pow2_unfold(h);
                assert(mid - start <= pow2((h - 1) as nat));
                assert(end - mid <= pow2((h - 1) as nat));
            }
        }
        r
    }
}

impl BvhShape {
    /// Plans a hierarchy over the elements `0..keys.len()`, where `keys[e]`
    /// orders element `e` on each axis; `None` when there are no elements.
    /// Each split is made on an axis drawn at random; the range under it is
    /// sorted on that axis and cut in half, and a single element is
    /// duplicated into both children. Every element is a leaf, and for `n`
    /// elements no path holds more than `max(1, ceil(log2 n))` splits.
    pub fn from_keys(keys: &Vec<AxisKeys>) -> (r: Option<BvhShape>)
        ensures
            r.is_some() <==> keys.len() >= 1,
            r matches Some(t) ==> {
                &&& leaves(t) == Set::new(|e: usize| e < keys.len())
                &&& ordered(t, keys@)
                &&& halved(t, keys.len() as nat)
                &&& forall|h: nat| h >= 1 && keys.len() <= pow2(h) ==> height(t) <= h
            },
    {
        let n = keys.len();
        if n == 0 {
            return None;
        }
        let mut order: Vec<usize> = Vec::new();
        for i in 0..n
            invariant
                n == keys.len(),
                order.len() == i,
                forall|k: int| 0 <= k < i ==> order@[k] == k,
        {
            order.push(i);
        }
        proof {
            assert(order@.subrange(0, n as int) =~= order@);
            assert forall|x: usize| order@.contains(x) <==> x < n by {
                if x < n {
                    assert(order@[x as int] == x);
                }
            }
            assert(order@.to_set() =~= Set::new(|e: usize| e < keys.len()));
        }
        Some(build_range(&mut order, keys, 0, n))
    }
}

} // verus!
