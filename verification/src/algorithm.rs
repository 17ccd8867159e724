use vstd::prelude::*;
use core::cmp::Ordering;
use crate::hash::{hash_u64, hash_u64_spec};

verus! {

broadcast use vstd::seq_lib::group_to_multiset_ensures;

/// `new` is a rearrangement of `old` that moves items only within the index
/// range `[lo, hi)`: the same items with the same multiplicities, each item
/// inside the range drawn from inside the range, everything else in place.
pub open spec fn permutes<T>(old: Seq<T>, new: Seq<T>, lo: int, hi: int) -> bool {
    &&& 0 <= lo <= hi <= old.len()
    &&& new.len() == old.len()
    &&& new.to_multiset() == old.to_multiset()
    &&& forall|i: int| 0 <= i < old.len() && !(lo <= i < hi) ==> #[trigger] new[i] == old[i]
    &&& forall|j: int| lo <= j < hi ==> drawn_from(old, #[trigger] new[j], lo, hi)
}

/// `x` occurs in `s` at some index in `[lo, hi)`.
pub open spec fn drawn_from<T>(s: Seq<T>, x: T, lo: int, hi: int) -> bool {
    exists|k: int| lo <= k < hi && s[k] == x
}

/// `s` with the items at `i` and `j` exchanged.
pub open spec fn swapped<T>(s: Seq<T>, i: int, j: int) -> Seq<T> {
    s.update(i, s[j]).update(j, s[i])
}

/// Exchanges two items of a vector (`<[T]>::swap`).
///
/// Trusted: the standard library documents that `swap` exchanges the two
/// items and leaves the others alone; both indices must be in bounds.
#[verifier::external_body]
fn swap_items<T>(v: &mut Vec<T>, i: usize, j: usize)
    requires
        i < old(v)@.len(),
        j < old(v)@.len(),
    ensures
        final(v)@ == swapped(old(v)@, i as int, j as int),
{
    v.swap(i, j);
}

proof fn lemma_swap_permutes<T>(s: Seq<T>, i: int, j: int, lo: int, hi: int)
    requires
        0 <= lo <= i < hi <= s.len(),
        lo <= j < hi,
    ensures
        permutes(s, swapped(s, i, j), lo, hi),
{
    broadcast use vstd::seq_lib::to_multiset_update;
    broadcast use vstd::multiset::group_multiset_axioms;

    let t = swapped(s, i, j);
    let u = s.update(i, s[j]);
    assert(t.to_multiset() =~= s.to_multiset()) by {
        assert(u.to_multiset() == s.to_multiset().insert(s[j]).remove(s[i]));
        assert(t.to_multiset() == u.to_multiset().insert(s[i]).remove(u[j]));
    }
    assert forall|m: int| lo <= m < hi implies drawn_from(s, #[trigger] t[m], lo, hi) by {
        if m == j {
            assert(t[m] == s[i]);
        } else if m == i {
            assert(t[m] == s[j]);
        } else {
            assert(t[m] == s[m]);
        }
    }
}

proof fn lemma_permutes_refl<T>(s: Seq<T>, lo: int, hi: int)
    requires
        0 <= lo <= hi <= s.len(),
    ensures
        permutes(s, s, lo, hi),
{
    assert forall|m: int| lo <= m < hi implies drawn_from(s, #[trigger] s[m], lo, hi) by {
        let w = m;
        assert(lo <= w < hi && s[m] == s[w]);
    }
}

proof fn lemma_permutes_trans<T>(a: Seq<T>, b: Seq<T>, c: Seq<T>, lo: int, hi: int)
    requires
        permutes(a, b, lo, hi),
        permutes(b, c, lo, hi),
    ensures
        permutes(a, c, lo, hi),
{
    assert forall|m: int| lo <= m < hi implies drawn_from(a, #[trigger] c[m], lo, hi) by {
        assert(drawn_from(b, c[m], lo, hi));
        let k1 = choose|k: int| lo <= k < hi && b[k] == c[m];
        assert(drawn_from(a, b[k1], lo, hi));
        let k2 = choose|k: int| lo <= k < hi && a[k] == b[k1];
        assert(c[m] == a[k2]);
    }
}

proof fn lemma_permutes_widen<T>(a: Seq<T>, b: Seq<T>, lo: int, hi: int, lo2: int, hi2: int)
    requires
        permutes(a, b, lo, hi),
        0 <= lo2 <= lo,
        hi <= hi2 <= a.len(),
    ensures
        permutes(a, b, lo2, hi2),
{
    assert forall|m: int| lo2 <= m < hi2 implies drawn_from(a, #[trigger] b[m], lo2, hi2) by {
        if lo <= m < hi {
            assert(drawn_from(a, b[m], lo, hi));
            let k1 = choose|k: int| lo <= k < hi && a[k] == b[m];
            assert(b[m] == a[k1]);
        } else {
            assert(b[m] == a[m]);
        }
    }
}

/// Partitions a vector in place by a predicate, returning the index of the
/// first item for which the predicate is false: every item before it
/// satisfies the predicate and no item from it on does.
///
/// The predicate is called exactly once on every item.
pub fn partition<T, F: Fn(&T) -> bool>(slc: &mut Vec<T>, pred: F) -> (k: usize)
    requires
        forall|x: &T| #[trigger] call_requires(pred, (x,)),
    ensures
        k <= final(slc)@.len(),
        permutes(old(slc)@, final(slc)@, 0, old(slc)@.len() as int),
        forall|i: int| 0 <= i < k ==> call_ensures(pred, (&final(slc)@[i],), true),
        forall|i: int|
            k <= i < final(slc)@.len() ==> call_ensures(pred, (&final(slc)@[i],), false),
{
    let ghost s0 = slc@;
    let ghost len = s0.len() as int;
    let mut a: usize = 0;
    let mut b: usize = slc.len();
    proof {
        lemma_permutes_refl(s0, 0, len);
    }
    loop
        invariant
            a <= b <= slc@.len(),
            slc@.len() == len,
            old(slc)@ == s0,
            permutes(s0, slc@, 0, len),
            forall|x: &T| #[trigger] call_requires(pred, (x,)),
            forall|i: int| 0 <= i < a ==> call_ensures(pred, (&slc@[i],), true),
            forall|i: int| b <= i < len ==> call_ensures(pred, (&slc@[i],), false),
        decreases b - a,
    {
        let ghost a_in = a;
        let ghost b_in = b;
        loop
            invariant
                a_in <= a <= b == b_in,
                a <= b <= slc@.len(),
                slc@.len() == len,
                old(slc)@ == s0,
                permutes(s0, slc@, 0, len),
                forall|x: &T| #[trigger] call_requires(pred, (x,)),
                forall|i: int| 0 <= i < a ==> call_ensures(pred, (&slc@[i],), true),
                forall|i: int| b <= i < len ==> call_ensures(pred, (&slc@[i],), false),
            ensures
                a_in <= a < b == b_in,
                a < b <= slc@.len(),
                slc@.len() == len,
                old(slc)@ == s0,
                permutes(s0, slc@, 0, len),
                forall|i: int| 0 <= i < a ==> call_ensures(pred, (&slc@[i],), true),
                forall|i: int| b <= i < len ==> call_ensures(pred, (&slc@[i],), false),
                call_ensures(pred, (&slc@[a as int],), false),
            decreases b - a,
        {
            if a == b {
                return a;
            }
            let r = pred(&slc[a]);
            if !r {
                break;
            }
            a += 1;
        }
        let ghost a0 = a;
        loop
            invariant_except_break
                forall|i: int| b <= i < len ==> call_ensures(pred, (&slc@[i],), false),
            invariant
                a == a0,
                a_in <= a < b <= b_in,
                a < b <= slc@.len(),
                slc@.len() == len,
                old(slc)@ == s0,
                permutes(s0, slc@, 0, len),
                forall|x: &T| #[trigger] call_requires(pred, (x,)),
                forall|i: int| 0 <= i < a ==> call_ensures(pred, (&slc@[i],), true),
                forall|i: int| b < i < len ==> call_ensures(pred, (&slc@[i],), false),
                call_ensures(pred, (&slc@[a as int],), false),
            ensures
                a == a0,
                a_in <= a < b < b_in,
                a < b < slc@.len(),
                slc@.len() == len,
                old(slc)@ == s0,
                permutes(s0, slc@, 0, len),
                forall|i: int| 0 <= i < a ==> call_ensures(pred, (&slc@[i],), true),
                forall|i: int| b < i < len ==> call_ensures(pred, (&slc@[i],), false),
                call_ensures(pred, (&slc@[a as int],), false),
                call_ensures(pred, (&slc@[b as int],), true),
            decreases b - a,
        {
            b -= 1;
            if a == b {
                return a;
            }
            let r = pred(&slc[b]);
            if r {
                break;
            }
        }
        let ghost before = slc@;
        swap_items(slc, a, b);
        proof {
            lemma_swap_permutes(before, a as int, b as int, 0, len);
            lemma_permutes_trans(s0, before, slc@, 0, len);
        }
        a += 1;
    }
}

/// The pairs of items at equal indices of `a` and `b`.
pub open spec fn zip_seq<A, B>(a: Seq<A>, b: Seq<B>) -> Seq<(A, B)> {
    Seq::new(a.len(), |i: int| (a[i], b[i]))
}

/// The predicate of `partition_pair` may give `v` for the pair `x`, `y`
/// tested at index `j`, where the pair stood in `o1`, `o2` (the vectors as
/// they were before partitioning).
pub open spec fn pair_verdict<A, B, F: Fn(usize, &A, &B) -> bool>(
    pred: F,
    o1: Seq<A>,
    o2: Seq<B>,
    x: A,
    y: B,
    v: bool,
) -> bool {
    exists|j: usize|
        j < o1.len() && o1[j as int] == x && o2[j as int] == y && #[trigger] call_ensures(
            pred,
            (j, &x, &y),
            v,
        )
}

proof fn lemma_zip_swapped<A, B>(s1: Seq<A>, s2: Seq<B>, i: int, j: int)
    requires
        s1.len() == s2.len(),
        0 <= i < s1.len(),
        0 <= j < s1.len(),
    ensures
        zip_seq(swapped(s1, i, j), swapped(s2, i, j)) == swapped(zip_seq(s1, s2), i, j),
{
    assert(zip_seq(swapped(s1, i, j), swapped(s2, i, j)) =~= swapped(zip_seq(s1, s2), i, j));
}

/// Partitions two vectors of equal length in concert by a predicate on the
/// pairs of items at equal indices, returning the index of the first pair
/// for which the predicate is false: the same rearrangement is applied to
/// both, every pair before that index satisfies the predicate and no pair
/// from it on does.
///
/// The predicate receives the index at which the pair stands when it is
/// tested, which is where it stood before partitioning: a pair is tested
/// before it is moved.
pub fn partition_pair<A, B, F: Fn(usize, &A, &B) -> bool>(
    slc1: &mut Vec<A>,
    slc2: &mut Vec<B>,
    pred: F,
) -> (k: usize)
    requires
        old(slc1)@.len() == old(slc2)@.len(),
        forall|i: usize, x: &A, y: &B| #[trigger] call_requires(pred, (i, x, y)),
    ensures
        final(slc1)@.len() == old(slc1)@.len(),
        final(slc2)@.len() == old(slc2)@.len(),
        k <= final(slc1)@.len(),
        permutes_all(zip_seq(old(slc1)@, old(slc2)@), zip_seq(final(slc1)@, final(slc2)@)),
        forall|i: int|
            0 <= i < k ==> pair_verdict(pred, old(slc1)@, old(slc2)@, #[trigger] final(slc1)@[i], final(slc2)@[i], true),
        forall|i: int|
            k <= i < final(slc1)@.len() ==> pair_verdict(
                pred,
                old(slc1)@,
                old(slc2)@,
                #[trigger] final(slc1)@[i],
                final(slc2)@[i],
                false,
            ),
{
    let ghost z0 = zip_seq(slc1@, slc2@);
    let ghost len = slc1@.len() as int;
    let mut a: usize = 0;
    let mut b: usize = slc1.len();
    proof {
        lemma_permutes_refl(z0, 0, len);
    }
    loop
        invariant
            a <= b <= len,
            slc1@.len() == len,
            slc2@.len() == len,
            z0 == zip_seq(old(slc1)@, old(slc2)@),
            old(slc2)@.len() == len,
            permutes(z0, zip_seq(slc1@, slc2@), 0, len),
                forall|i: int| a <= i < b ==> slc1@[i] == old(slc1)@[i] && slc2@[i] == old(slc2)@[i],
            forall|i: usize, x: &A, y: &B| #[trigger] call_requires(pred, (i, x, y)),
            forall|i: int| 0 <= i < a ==> pair_verdict(pred, old(slc1)@, old(slc2)@, #[trigger] slc1@[i], slc2@[i], true),
            forall|i: int|
                b <= i < len ==> pair_verdict(pred, old(slc1)@, old(slc2)@, #[trigger] slc1@[i], slc2@[i], false),
        decreases b - a,
    {
        let ghost a_in = a;
        let ghost b_in = b;
        loop
            invariant
                a_in <= a <= b == b_in,
                a <= b <= len,
                slc1@.len() == len,
                slc2@.len() == len,
                z0 == zip_seq(old(slc1)@, old(slc2)@),
                old(slc2)@.len() == len,
                permutes(z0, zip_seq(slc1@, slc2@), 0, len),
                forall|i: int| a <= i < b ==> slc1@[i] == old(slc1)@[i] && slc2@[i] == old(slc2)@[i],
                forall|i: usize, x: &A, y: &B| #[trigger] call_requires(pred, (i, x, y)),
                forall|i: int|
                    0 <= i < a ==> pair_verdict(pred, old(slc1)@, old(slc2)@, #[trigger] slc1@[i], slc2@[i], true),
                forall|i: int|
                    b <= i < len ==> pair_verdict(pred, old(slc1)@, old(slc2)@, #[trigger] slc1@[i], slc2@[i], false),
            ensures
                a_in <= a < b == b_in,
                a < b <= len,
                slc1@.len() == len,
                slc2@.len() == len,
                z0 == zip_seq(old(slc1)@, old(slc2)@),
                old(slc2)@.len() == len,
                permutes(z0, zip_seq(slc1@, slc2@), 0, len),
                forall|i: int| a <= i < b ==> slc1@[i] == old(slc1)@[i] && slc2@[i] == old(slc2)@[i],
                forall|i: int|
                    0 <= i < a ==> pair_verdict(pred, old(slc1)@, old(slc2)@, #[trigger] slc1@[i], slc2@[i], true),
                forall|i: int|
                    b <= i < len ==> pair_verdict(pred, old(slc1)@, old(slc2)@, #[trigger] slc1@[i], slc2@[i], false),
                pair_verdict(pred, old(slc1)@, old(slc2)@, slc1@[a as int], slc2@[a as int], false),
            decreases b - a,
        {
            if a == b {
                return a;
            }
            let r = pred(a, &slc1[a], &slc2[a]);
            proof {
                assert(call_ensures(pred, (a, &slc1@[a as int], &slc2@[a as int]), r));
                assert(pair_verdict(pred, old(slc1)@, old(slc2)@, slc1@[a as int], slc2@[a as int], r));
            }
            if !r {
                break;
            }
            a += 1;
        }
        let ghost a0 = a;
        loop
            invariant_except_break
                forall|i: int|
                    b <= i < len ==> pair_verdict(pred, old(slc1)@, old(slc2)@, #[trigger] slc1@[i], slc2@[i], false),
            invariant
                a == a0,
                a_in <= a < b <= b_in,
                a < b <= len,
                slc1@.len() == len,
                slc2@.len() == len,
                z0 == zip_seq(old(slc1)@, old(slc2)@),
                old(slc2)@.len() == len,
                permutes(z0, zip_seq(slc1@, slc2@), 0, len),
                forall|i: int| a <= i < b ==> slc1@[i] == old(slc1)@[i] && slc2@[i] == old(slc2)@[i],
                forall|i: usize, x: &A, y: &B| #[trigger] call_requires(pred, (i, x, y)),
                forall|i: int|
                    0 <= i < a ==> pair_verdict(pred, old(slc1)@, old(slc2)@, #[trigger] slc1@[i], slc2@[i], true),
                forall|i: int|
                    b < i < len ==> pair_verdict(pred, old(slc1)@, old(slc2)@, #[trigger] slc1@[i], slc2@[i], false),
                pair_verdict(pred, old(slc1)@, old(slc2)@, slc1@[a as int], slc2@[a as int], false),
            ensures
                a == a0,
                a_in <= a < b < b_in,
                a < b < len,
                slc1@.len() == len,
                slc2@.len() == len,
                z0 == zip_seq(old(slc1)@, old(slc2)@),
                old(slc2)@.len() == len,
                permutes(z0, zip_seq(slc1@, slc2@), 0, len),
                forall|i: int| a <= i < b ==> slc1@[i] == old(slc1)@[i] && slc2@[i] == old(slc2)@[i],
                forall|i: int|
                    0 <= i < a ==> pair_verdict(pred, old(slc1)@, old(slc2)@, #[trigger] slc1@[i], slc2@[i], true),
                forall|i: int|
                    b < i < len ==> pair_verdict(pred, old(slc1)@, old(slc2)@, #[trigger] slc1@[i], slc2@[i], false),
                pair_verdict(pred, old(slc1)@, old(slc2)@, slc1@[a as int], slc2@[a as int], false),
                pair_verdict(pred, old(slc1)@, old(slc2)@, slc1@[b as int], slc2@[b as int], true),
            decreases b - a,
        {
            b -= 1;
            if a == b {
                return a;
            }
            let r = pred(b, &slc1[b], &slc2[b]);
            proof {
                assert(call_ensures(pred, (b, &slc1@[b as int], &slc2@[b as int]), r));
                assert(pair_verdict(pred, old(slc1)@, old(slc2)@, slc1@[b as int], slc2@[b as int], r));
            }
            if r {
                break;
            }
        }
        let ghost before1 = slc1@;
        let ghost before2 = slc2@;
        swap_items(slc1, a, b);
        swap_items(slc2, a, b);
        proof {
            lemma_zip_swapped(before1, before2, a as int, b as int);
            lemma_swap_permutes(zip_seq(before1, before2), a as int, b as int, 0, len);
            lemma_permutes_trans(z0, zip_seq(before1, before2), zip_seq(slc1@, slc2@), 0, len);
        }
        a += 1;
    }
}

/// `new` rearranges all of `old`.
pub open spec fn permutes_all<T>(old: Seq<T>, new: Seq<T>) -> bool {
    permutes(old, new, 0, old.len() as int)
}

/// `lt` is a strict order: it never holds both ways, and it is transitive.
pub open spec fn strict_order<T>(lt: spec_fn(T, T) -> bool) -> bool {
    &&& forall|x: T, y: T| #[trigger] lt(x, y) ==> !lt(y, x)
    &&& forall|x: T, y: T, z: T| #[trigger] lt(x, y) && #[trigger] lt(y, z) ==> lt(x, z)
}

/// The item at `n` is in its sorted place under `lt`: no item before it
/// comes after it, and no item after it comes before it.
pub open spec fn placed_in_order<T>(lt: spec_fn(T, T) -> bool, s: Seq<T>, n: usize) -> bool {
    &&& n < s.len()
    &&& forall|i: int| 0 <= i < n ==> !lt(s[n as int], #[trigger] s[i])
    &&& forall|i: int| n < i < s.len() ==> !lt(#[trigger] s[i], s[n as int])
}

/// The item at position `n` of `s`.
pub open spec fn item_at<T>(s: Seq<T>, n: usize) -> T {
    s[n as int]
}

/// `order` may answer `o` when comparing `x` with `y`.
pub open spec fn order_gives<T, F: Fn(&T, &T) -> Ordering>(order: F, x: T, y: T, o: Ordering) -> bool {
    call_ensures(order, (&x, &y), o)
}

/// `order` acts as a consistent order: it answers each comparison in one
/// way only, "less" never holds both ways and is transitive, and "greater"
/// is "less" with the arguments swapped.
pub open spec fn acts_as_order<T, F: Fn(&T, &T) -> Ordering>(order: F) -> bool {
    &&& forall|x: T, y: T, o1: Ordering, o2: Ordering|
        #[trigger] order_gives(order, x, y, o1) && #[trigger] order_gives(order, x, y, o2) ==> o1
            == o2
    &&& forall|x: T, y: T|
        #[trigger] order_gives(order, x, y, Ordering::Less) ==> !order_gives(
            order,
            y,
            x,
            Ordering::Less,
        )
    &&& forall|x: T, y: T|
        #[trigger] order_gives(order, x, y, Ordering::Greater) <==> #[trigger] order_gives(
            order,
            y,
            x,
            Ordering::Less,
        )
    &&& forall|x: T, y: T, z: T|
        #[trigger] order_gives(order, x, y, Ordering::Less) && #[trigger] order_gives(
            order,
            y,
            z,
            Ordering::Less,
        ) ==> order_gives(order, x, z, Ordering::Less)
}

/// The pivot position used by `quick_select`: a pseudo-random index in
/// `[left, right)` drawn from the hash of `right` with `seed`.
fn pivot_index(left: usize, right: usize, seed: u64) -> (i: usize)
    requires
        left < right,
    ensures
        left <= i < right,
        i == left + (hash_u64_spec(right as u64, seed) as usize) % ((right - left) as usize),
{
    let h = hash_u64(right as u64, seed);
    left + (h as usize) % (right - left)
}

/// Partitions `slc[lo..hi)` around the pivot stored at `hi`: the items for
/// which `less` answers that they come before the pivot come first.
/// Returns the index of the first item for which it does not.  `less` is
/// called once per item.
fn partition_around_pivot<T, L: Fn(&T, &T) -> bool>(
    slc: &mut Vec<T>,
    lo: usize,
    hi: usize,
    less: &L,
) -> (k: usize)
    requires
        lo <= hi < old(slc)@.len(),
        forall|x: &T, y: &T| #[trigger] call_requires(*less, (x, y)),
    ensures
        lo <= k <= hi,
        permutes(old(slc)@, final(slc)@, lo as int, hi as int),
        final(slc)@[hi as int] == old(slc)@[hi as int],
        forall|i: int|
            #![trigger final(slc)@[i]]
            lo <= i < k ==> call_ensures(*less, (&final(slc)@[i], &final(slc)@[hi as int]), true),
        forall|i: int|
            #![trigger final(slc)@[i]]
            k <= i < hi ==> call_ensures(*less, (&final(slc)@[i], &final(slc)@[hi as int]), false),
{
    let ghost s0 = slc@;
    let ghost p = s0[hi as int];
    let mut a: usize = lo;
    let mut b: usize = hi;
    proof {
        lemma_permutes_refl(s0, lo as int, hi as int);
    }
    loop
        invariant
            lo <= a <= b <= hi < slc@.len(),
            slc@.len() == s0.len(),
            old(slc)@ == s0,
            permutes(s0, slc@, lo as int, hi as int),
            slc@[hi as int] == p,
            forall|x: &T, y: &T| #[trigger] call_requires(*less, (x, y)),
            forall|i: int| #![trigger slc@[i]] lo <= i < a ==> call_ensures(*less, (&slc@[i], &p), true),
            forall|i: int|
                #![trigger slc@[i]]
                b <= i < hi ==> call_ensures(*less, (&slc@[i], &p), false),
        decreases b - a,
    {
        let ghost a_in = a;
        let ghost b_in = b;
        loop
            invariant
                a_in <= a <= b == b_in,
                lo <= a <= b <= hi < slc@.len(),
                slc@.len() == s0.len(),
                old(slc)@ == s0,
                permutes(s0, slc@, lo as int, hi as int),
                slc@[hi as int] == p,
                forall|x: &T, y: &T| #[trigger] call_requires(*less, (x, y)),
                forall|i: int|
                    #![trigger slc@[i]]
                    lo <= i < a ==> call_ensures(*less, (&slc@[i], &p), true),
                forall|i: int|
                    #![trigger slc@[i]]
                    b <= i < hi ==> call_ensures(*less, (&slc@[i], &p), false),
            ensures
                a_in <= a < b == b_in,
                lo <= a < b <= hi < slc@.len(),
                slc@.len() == s0.len(),
                old(slc)@ == s0,
                permutes(s0, slc@, lo as int, hi as int),
                slc@[hi as int] == p,
                forall|i: int|
                    #![trigger slc@[i]]
                    lo <= i < a ==> call_ensures(*less, (&slc@[i], &p), true),
                forall|i: int|
                    #![trigger slc@[i]]
                    b <= i < hi ==> call_ensures(*less, (&slc@[i], &p), false),
                call_ensures(*less, (&slc@[a as int], &p), false),
            decreases b - a,
        {
            if a == b {
                return a;
            }
            let r = less(&slc[a], &slc[hi]);
            if !r {
                break;
            }
            a += 1;
        }
        let ghost a0 = a;
        loop
            invariant_except_break
                forall|i: int|
                    #![trigger slc@[i]]
                    b <= i < hi ==> call_ensures(*less, (&slc@[i], &p), false),
            invariant
                a == a0,
                a_in <= a < b <= b_in,
                lo <= a < b <= hi < slc@.len(),
                slc@.len() == s0.len(),
                old(slc)@ == s0,
                permutes(s0, slc@, lo as int, hi as int),
                slc@[hi as int] == p,
                forall|x: &T, y: &T| #[trigger] call_requires(*less, (x, y)),
                forall|i: int|
                    #![trigger slc@[i]]
                    lo <= i < a ==> call_ensures(*less, (&slc@[i], &p), true),
                forall|i: int|
                    #![trigger slc@[i]]
                    b < i < hi ==> call_ensures(*less, (&slc@[i], &p), false),
                call_ensures(*less, (&slc@[a as int], &p), false),
            ensures
                a == a0,
                a_in <= a < b < b_in,
                lo <= a < b < hi,
                slc@.len() == s0.len(),
                old(slc)@ == s0,
                permutes(s0, slc@, lo as int, hi as int),
                slc@[hi as int] == p,
                forall|i: int|
                    #![trigger slc@[i]]
                    lo <= i < a ==> call_ensures(*less, (&slc@[i], &p), true),
                forall|i: int|
                    #![trigger slc@[i]]
                    b < i < hi ==> call_ensures(*less, (&slc@[i], &p), false),
                call_ensures(*less, (&slc@[a as int], &p), false),
                call_ensures(*less, (&slc@[b as int], &p), true),
            decreases b - a,
        {
            b -= 1;
            if a == b {
                return a;
            }
            let r = less(&slc[b], &slc[hi]);
            if r {
                break;
            }
        }
        let ghost before = slc@;
        swap_items(slc, a, b);
        proof {
            lemma_swap_permutes(before, a as int, b as int, lo as int, hi as int);
            lemma_permutes_trans(s0, before, slc@, lo as int, hi as int);
        }
        a += 1;
    }
}

/// The selection loop of `quick_select`, with the comparison given as a
/// "comes before" test `less`.  Where `ok` holds, `less` answers as the
/// strict order `lt` does.
fn select_in_place<T, L: Fn(&T, &T) -> bool>(
    slc: &mut Vec<T>,
    n: usize,
    less: &L,
    Ghost(lt): Ghost<spec_fn(T, T) -> bool>,
    Ghost(ok): Ghost<bool>,
)
    requires
        n < old(slc)@.len(),
        forall|x: &T, y: &T| #[trigger] call_requires(*less, (x, y)),
        ok ==> strict_order(lt),
        ok ==> forall|x: &T, y: &T, r: bool| #[trigger] call_ensures(*less, (x, y), r) ==> r == lt(*x, *y),
    ensures
        permutes_all(old(slc)@, final(slc)@),
        ok ==> placed_in_order(lt, final(slc)@, n),
{
    let ghost s0 = slc@;
    let ghost len = s0.len() as int;
    let mut left: usize = 0;
    let mut right: usize = slc.len();
    let mut seed: u64 = n as u64;
    proof {
        lemma_permutes_refl(s0, 0, len);
    }
    loop
        invariant
            left <= n < right <= len,
            slc@.len() == len,
            old(slc)@ == s0,
            permutes(s0, slc@, 0, len),
            forall|x: &T, y: &T| #[trigger] call_requires(*less, (x, y)),
            ok ==> strict_order(lt),
            ok ==> forall|x: &T, y: &T, r: bool| #[trigger] call_ensures(*less, (x, y), r) ==> r == lt(*x, *y),
            ok ==> forall|i: int, j: int|
                0 <= i < left <= j < len ==> !lt(#[trigger] slc@[j], #[trigger] slc@[i]),
            ok ==> forall|i: int, j: int|
                0 <= j < right <= i < len ==> !lt(#[trigger] slc@[i], #[trigger] slc@[j]),
        decreases right - left,
    {
        let ghost s1 = slc@;
        let i = pivot_index(left, right, seed);
        swap_items(slc, i, right - 1);
        proof {
            lemma_swap_permutes(s1, i as int, right - 1, left as int, right as int);
        }
        let ghost s2 = slc@;
        let ii = partition_around_pivot(slc, left, right - 1, less);
        let ghost s3 = slc@;
        proof {
            lemma_permutes_widen(s2, s3, left as int, right - 1, left as int, right as int);
        }
        swap_items(slc, ii, right - 1);
        let ghost s4 = slc@;
        let ghost p = s4[ii as int];
        proof {
            lemma_swap_permutes(s3, ii as int, right - 1, left as int, right as int);
            lemma_permutes_trans(s1, s2, s3, left as int, right as int);
            lemma_permutes_trans(s1, s3, s4, left as int, right as int);
            lemma_permutes_widen(s1, s4, left as int, right as int, 0, len);
            lemma_permutes_trans(s0, s1, s4, 0, len);
            assert(p == s3[right - 1]);
            if ok {
                // Items moved only inside [left, right): the bounds carry over.
                assert forall|a: int, b: int|
                    0 <= a < left <= b < len implies !lt(#[trigger] s4[b], #[trigger] s4[a]) by {
                    assert(s4[a] == s1[a]);
                    if b < right {
                        assert(drawn_from(s1, s4[b], left as int, right as int));
                        let k = choose|k: int| left <= k < right && s1[k] == s4[b];
                        assert(!lt(s1[k], s1[a]));
                    } else {
                        assert(s4[b] == s1[b]);
                    }
                }
                assert forall|a: int, b: int|
                    0 <= b < right <= a < len implies !lt(#[trigger] s4[a], #[trigger] s4[b]) by {
                    assert(s4[a] == s1[a]);
                    if b >= left {
                        assert(drawn_from(s1, s4[b], left as int, right as int));
                        let k = choose|k: int| left <= k < right && s1[k] == s4[b];
                        assert(!lt(s1[a], s1[k]));
                    } else {
                        assert(s4[b] == s1[b]);
                    }
                }
                assert forall|a: int| left <= a < ii implies lt(#[trigger] s4[a], p) by {
                    assert(s4[a] == s3[a]);
                    assert(call_ensures(*less, (&s3[a], &s3[right - 1]), true));
                }
                assert forall|a: int| ii < a < right implies !lt(#[trigger] s4[a], p) by {
                    if a == right - 1 {
                        assert(s4[a] == s3[ii as int]);
                        assert(call_ensures(*less, (&s3[ii as int], &s3[right - 1]), false));
                    } else {
                        assert(s4[a] == s3[a]);
                        assert(call_ensures(*less, (&s3[a], &s3[right - 1]), false));
                    }
                }
            }
        }
        if ii == n {
            proof {
                if ok {
                    assert forall|a: int| 0 <= a < n implies !lt(slc@[n as int], #[trigger] slc@[a]) by {
                        if a >= left {
                            assert(lt(slc@[a], p));
                        }
                    }
                    assert forall|a: int| n < a < len implies !lt(#[trigger] slc@[a], slc@[n as int]) by {
                        if a < right {
                            assert(!lt(slc@[a], p));
                        }
                    }
                }
            }
            return ;
        } else if ii > n {
            proof {
                if ok {
                    assert forall|a: int, b: int|
                        0 <= b < ii <= a < len implies !lt(#[trigger] slc@[a], #[trigger] slc@[b]) by {
                        if a >= right {
                        } else if b < left {
                        } else if a == ii {
                            assert(lt(slc@[b], p));
                        } else {
                            assert(!lt(slc@[a], p));
                            assert(lt(slc@[b], p));
                        }
                    }
                }
            }
            right = ii;
        } else {
            proof {
                if ok {
                    assert forall|a: int, b: int|
                        0 <= a <= ii < b < len implies !lt(#[trigger] slc@[b], #[trigger] slc@[a]) by {
                        if a < left {
                        } else if b >= right {
                        } else if a == ii {
                            assert(!lt(slc@[b], p));
                        } else {
                            assert(lt(slc@[a], p));
                            assert(!lt(slc@[b], p));
                        }
                    }
                }
            }
            left = ii + 1;
        }
        seed = seed.wrapping_add(1);
    }
}

/// Reorders the vector so that the item that belongs at position `n` in
/// the order that `order` gives is there, every item before it comes
/// no later than it, and every item after it comes no earlier.
///
/// The items are always rearranged; they are placed as described whenever
/// `order` acts as a consistent order.
pub fn quick_select<T, F: Fn(&T, &T) -> Ordering>(slc: &mut Vec<T>, n: usize, order: F)
    requires
        n < old(slc)@.len(),
        forall|x: &T, y: &T| #[trigger] call_requires(order, (x, y)),
    ensures
        permutes_all(old(slc)@, final(slc)@),
        acts_as_order(order) ==> {
            &&& forall|i: int|
                0 <= i < n ==> !order_gives(
                    order,
                    #[trigger] final(slc)@[i],
                    item_at(final(slc)@, n),
                    Ordering::Greater,
                )
            &&& forall|j: int|
                n < j < final(slc)@.len() ==> !order_gives(
                    order,
                    #[trigger] final(slc)@[j],
                    item_at(final(slc)@, n),
                    Ordering::Less,
                )
        },
{
    let compare = &order;
    let less = |x: &T, y: &T| -> (r: bool)
        requires
            call_requires(compare, (x, y)),
        ensures
            exists|o: Ordering| #[trigger] call_ensures(compare, (x, y), o) && (r <==> o == Ordering::Less),
        {
            let o = compare(x, y);
            match o {
                Ordering::Less => true,
                _ => false,
            }
        };
    let ghost lt = |x: T, y: T| order_gives(order, x, y, Ordering::Less);
    let ghost ok = acts_as_order(order);
    proof {
        if ok {
            assert forall|x: T, y: T| #[trigger] lt(x, y) implies !lt(y, x) by {
                assert(order_gives(order, x, y, Ordering::Less));
            }
            assert forall|x: T, y: T, z: T| #[trigger] lt(x, y) && #[trigger] lt(y, z) implies lt(
                x,
                z,
            ) by {
                assert(order_gives(order, x, y, Ordering::Less));
                assert(order_gives(order, y, z, Ordering::Less));
            }
            assert forall|x: &T, y: &T, r: bool| #[trigger] call_ensures(less, (x, y), r) implies r
                == lt(*x, *y) by {
                let o = choose|o: Ordering| #[trigger] call_ensures(compare, (x, y), o) && (r <==> o
                    == Ordering::Less);
                assert(order_gives(order, *x, *y, o));
                if !r && lt(*x, *y) {
                    assert(order_gives(order, *x, *y, Ordering::Less));
                }
            }
        }
    }
    select_in_place(slc, n, &less, Ghost(lt), Ghost(ok));
    proof {
        if ok {
            let s = slc@;
            assert forall|i: int| 0 <= i < n implies !order_gives(
                order,
                #[trigger] s[i],
                item_at(s, n),
                Ordering::Greater,
            ) by {
                assert(!lt(item_at(s, n), s[i]));
                if order_gives(order, s[i], item_at(s, n), Ordering::Greater) {
                    assert(order_gives(order, item_at(s, n), s[i], Ordering::Less));
                }
            }
            assert forall|j: int| n < j < s.len() implies !order_gives(
                order,
                #[trigger] s[j],
                item_at(s, n),
                Ordering::Less,
            ) by {
                assert(!lt(s[j], item_at(s, n)));
            }
        }
    }
}

} // verus!
