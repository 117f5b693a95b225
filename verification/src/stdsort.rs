//! Introsort with the exact control flow of libstdc++'s `std::sort`, so that
//! the relative order of elements that compare equal is the one the C++
//! library produces.

use vstd::prelude::*;
use vstd::arithmetic::power2::pow2;
use vstd::seq_lib::to_multiset_update;

verus! {

/// Size below which introsort stops partitioning and leaves the range to the
/// final insertion sort.
pub const S_THRESHOLD: usize = 16;

/// `comp(a, b)` returned `true`: `a` orders strictly before `b`.
pub open spec fn comp_lt<T, F: Fn(&T, &T) -> bool>(comp: F, a: T, b: T) -> bool {
    comp.ensures((&a, &b), true)
}

/// `comp` can be called on any pair, answers deterministically, and is a
/// strict weak ordering (irreflexive, transitive, and with transitive
/// incomparability).
pub open spec fn strict_weak_order<T, F: Fn(&T, &T) -> bool>(comp: F) -> bool {
    &&& forall|a: T, b: T| #[trigger] comp.requires((&a, &b))
    &&& forall|a: T, b: T| #[trigger]
        comp.ensures((&a, &b), true) ==> !comp.ensures((&a, &b), false)
    &&& forall|a: T| !#[trigger] comp_lt(comp, a, a)
    &&& forall|a: T, b: T, c: T|
        #[trigger] comp_lt(comp, a, b) && #[trigger] comp_lt(comp, b, c) ==> comp_lt(comp, a, c)
    &&& forall|a: T, b: T, c: T|
        !#[trigger] comp_lt(comp, a, b) && !#[trigger] comp_lt(comp, b, c) ==> !comp_lt(
            comp,
            a,
            c,
        )
}

/// `T::clone` hands back a value equal to its argument.
pub open spec fn clone_is_exact<T: Clone>() -> bool {
    forall|a: T, b: T| #[trigger] vstd::pervasive::strictly_cloned(a, b) ==> a == b
}

/// No element of `s[lo..hi]` orders strictly before an element to its left.
pub open spec fn sorted_between<T, F: Fn(&T, &T) -> bool>(
    comp: F,
    s: Seq<T>,
    lo: int,
    hi: int,
) -> bool {
    forall|i: int, j: int| lo <= i < j < hi ==> !comp_lt(comp, #[trigger] s[j], #[trigger] s[i])
}

/// No element of `s[lo..hi)` orders before one `S_THRESHOLD` or more places
/// to its left: what introsort leaves for its final insertion sort.
pub open spec fn nearly_sorted<T, F: Fn(&T, &T) -> bool>(
    comp: F,
    s: Seq<T>,
    lo: int,
    hi: int,
) -> bool {
    forall|i: int, j: int|
        lo <= i < j < hi && j - i >= S_THRESHOLD ==> !comp_lt(comp, #[trigger] s[j], #[trigger] s[i])
}

/// `s` and `t` agree outside `[lo, hi)`.
pub open spec fn same_outside<T>(s: Seq<T>, t: Seq<T>, lo: int, hi: int) -> bool {
    &&& s.len() == t.len()
    &&& forall|k: int| 0 <= k < s.len() && !(lo <= k < hi) ==> #[trigger] s[k] == t[k]
}

/// Agreement outside a range carries over to any wider range, through an
/// intermediate sequence.
proof fn lemma_same_outside_widen<T>(s: Seq<T>, t: Seq<T>, lo: int, hi: int, hi2: int)
    requires
        hi <= hi2,
        exists|u: Seq<T>| same_outside(s, u, lo, hi) && same_outside(u, t, lo, hi2),
    ensures
        same_outside(s, t, lo, hi2),
{
    let u = choose|u: Seq<T>| same_outside(s, u, lo, hi) && same_outside(u, t, lo, hi2);
    assert forall|k: int| 0 <= k < s.len() && !(lo <= k < hi2) implies #[trigger] s[k] == t[k] by {
        assert(s[k] == u[k]);
        assert(u[k] == t[k]);
    }
}

/// `x` is one of `s[lo..hi)`.
pub open spec fn occurs_in<T>(x: T, s: Seq<T>, lo: int, hi: int) -> bool {
    exists|j: int| lo <= j < hi && s[j] == x
}

/// A rearrangement inside `[lo, hi)` (same multiset, same elements outside)
/// only moves elements of that range: each element there now was there before.
proof fn lemma_range_perm<T>(t: Seq<T>, s: Seq<T>, lo: int, hi: int)
    requires
        0 <= lo <= hi <= s.len(),
        t.to_multiset() == s.to_multiset(),
        same_outside(t, s, lo, hi),
    ensures
        forall|k: int| lo <= k < hi ==> occurs_in(#[trigger] t[k], s, lo, hi),
{
    broadcast use vstd::multiset::group_multiset_axioms;

    let s1 = s.subrange(0, lo);
    let s2 = s.subrange(lo, hi);
    let s3 = s.subrange(hi, s.len() as int);
    let t2 = t.subrange(lo, hi);
    assert(s =~= s1 + s2 + s3);
    assert(t =~= s1 + t2 + s3);
    vstd::seq_lib::lemma_multiset_commutative(s1 + s2, s3);
    vstd::seq_lib::lemma_multiset_commutative(s1, s2);
    vstd::seq_lib::lemma_multiset_commutative(s1 + t2, s3);
    vstd::seq_lib::lemma_multiset_commutative(s1, t2);
    assert(t2.to_multiset() =~= s2.to_multiset()) by {
        assert forall|x: T| t2.to_multiset().count(x) == s2.to_multiset().count(x) by {
            let m1 = s1.to_multiset();
            let m3 = s3.to_multiset();
            assert(t.to_multiset().count(x) == s.to_multiset().count(x));
            assert((s1 + t2).to_multiset().count(x) == m1.count(x) + t2.to_multiset().count(x));
            assert((s1 + s2).to_multiset().count(x) == m1.count(x) + s2.to_multiset().count(x));
            assert(t.to_multiset().count(x) == (s1 + t2).to_multiset().count(x) + m3.count(x));
            assert(s.to_multiset().count(x) == (s1 + s2).to_multiset().count(x) + m3.count(x));
        }
    }
    t2.to_multiset_ensures();
    s2.to_multiset_ensures();
    assert forall|k: int| lo <= k < hi implies occurs_in(#[trigger] t[k], s, lo, hi) by {
        assert(t2[k - lo] == t[k]);
        assert(t2.contains(t[k]));
        assert(t2.to_multiset().count(t[k]) > 0);
        assert(s2.to_multiset().count(t[k]) > 0);
        assert(s2.contains(t[k]));
        let j = choose|j: int| 0 <= j < s2.len() && s2[j] == t[k];
        assert(s[lo + j] == t[k]);
    }
}

/// Exchanging two positions keeps the multiset of elements.
proof fn lemma_swap_multiset<T>(s: Seq<T>, i: int, j: int)
    requires
        0 <= i < s.len(),
        0 <= j < s.len(),
    ensures
        s.update(i, s[j]).update(j, s[i]).to_multiset() == s.to_multiset(),
{
    broadcast use vstd::multiset::group_multiset_axioms;

    to_multiset_update(s, i, s[j]);
    to_multiset_update(s.update(i, s[j]), j, s[i]);
    s.to_multiset_ensures();
    assert(s.contains(s[j]));
    assert(s.to_multiset().count(s[j]) > 0);
    if i != j {
        assert(s.update(i, s[j])[j] == s[j]);
    }
    assert(s.update(i, s[j]).update(j, s[i]).to_multiset() =~= s.to_multiset());
}

/// Moving the value held in a hole at `h` to a hole at `k` (copying `s[k]` into `h`)
/// keeps the multiset of the sequence with the hole filled by `val`.
proof fn lemma_move_hole<T>(s: Seq<T>, h: int, k: int, val: T)
    requires
        0 <= h < s.len(),
        0 <= k < s.len(),
        h != k,
    ensures
        s.update(h, s[k]).update(k, val).to_multiset() == s.update(h, val).to_multiset(),
{
    let t = s.update(h, val);
    lemma_swap_multiset(t, h, k);
    assert(t.update(h, t[k]).update(k, t[h]) =~= s.update(h, s[k]).update(k, val));
}

proof fn lemma_asym<T, F: Fn(&T, &T) -> bool>(comp: F, a: T, b: T)
    requires
        strict_weak_order::<T, F>(comp),
        comp_lt(comp, a, b),
    ensures
        !comp_lt(comp, b, a),
{
    if comp_lt(comp, b, a) {
        assert(comp_lt(comp, a, a));
    }
}

// ------------- the libstdc++ algorithm, step by step, as specification -------------

/// `s` with the elements at `i` and `j` exchanged.
pub open spec fn swapped<T>(s: Seq<T>, i: int, j: int) -> Seq<T> {
    s.update(i, s[j]).update(j, s[i])
}

/// `std::__move_median_to_first(result, a, b, c)`: the median of `s[a]`,
/// `s[b]`, `s[c]` is exchanged into `result`.
pub open spec fn median_to_first<T, F: Fn(&T, &T) -> bool>(
    comp: F,
    s: Seq<T>,
    result: int,
    a: int,
    b: int,
    c: int,
) -> Seq<T> {
    if comp_lt(comp, s[a], s[b]) {
        if comp_lt(comp, s[b], s[c]) {
            swapped(s, result, b)
        } else if comp_lt(comp, s[a], s[c]) {
            swapped(s, result, c)
        } else {
            swapped(s, result, a)
        }
    } else if comp_lt(comp, s[a], s[c]) {
        swapped(s, result, a)
    } else if comp_lt(comp, s[b], s[c]) {
        swapped(s, result, c)
    } else {
        swapped(s, result, b)
    }
}

/// The first position at or after `i` whose element does not order before `pv`.
pub open spec fn scan_up<T, F: Fn(&T, &T) -> bool>(comp: F, s: Seq<T>, i: int, pv: T) -> int
    decreases s.len() - i,
{
    if i >= s.len() || !comp_lt(comp, s[i], pv) {
        i
    } else {
        scan_up(comp, s, i + 1, pv)
    }
}

/// The last position at or before `j` (and not below 0) whose element `pv`
/// does not order before.
pub open spec fn scan_down<T, F: Fn(&T, &T) -> bool>(comp: F, s: Seq<T>, j: int, pv: T) -> int
    decreases j,
{
    if j <= 0 || !comp_lt(comp, pv, s[j]) {
        j
    } else {
        scan_down(comp, s, j - 1, pv)
    }
}

/// The upward scan never moves back.
pub proof fn lemma_scan_up_ge<T, F: Fn(&T, &T) -> bool>(comp: F, s: Seq<T>, i: int, pv: T)
    ensures
        scan_up(comp, s, i, pv) >= i,
    decreases s.len() - i,
{
    if !(i >= s.len() || !comp_lt(comp, s[i], pv)) {
        lemma_scan_up_ge(comp, s, i + 1, pv);
    }
}

/// The downward scan never moves forward.
pub proof fn lemma_scan_down_le<T, F: Fn(&T, &T) -> bool>(comp: F, s: Seq<T>, j: int, pv: T)
    ensures
        scan_down(comp, s, j, pv) <= j,
    decreases j,
{
    if !(j <= 0 || !comp_lt(comp, pv, s[j])) {
        lemma_scan_down_le(comp, s, j - 1, pv);
    }
}

/// `std::__unguarded_partition` from `i` (inclusive) to `j` (exclusive)
/// around the value `pv`: the rearranged sequence and the cut.
pub open spec fn partition_from<T, F: Fn(&T, &T) -> bool>(
    comp: F,
    s: Seq<T>,
    i: int,
    j: int,
    pv: T,
) -> (Seq<T>, int)
    decreases j - i,
{
    let a = scan_up(comp, s, i, pv);
    let b = scan_down(comp, s, j - 1, pv);
    if a >= b {
        (s, a)
    } else {
        proof {
            lemma_scan_up_ge(comp, s, i, pv);
            lemma_scan_down_le(comp, s, j - 1, pv);
        }
        partition_from(comp, swapped(s, a, b), a + 1, b, pv)
    }
}

/// `std::__unguarded_partition_pivot` on `[first, last)`.
pub open spec fn partition_at_pivot<T, F: Fn(&T, &T) -> bool>(
    comp: F,
    s: Seq<T>,
    first: int,
    last: int,
) -> (Seq<T>, int) {
    let mid = first + (last - first) / 2;
    let s1 = median_to_first(comp, s, first, first + 1, mid, last - 1);
    partition_from(comp, s1, first + 1, last, s1[first])
}

/// The sift-down half of `std::__adjust_heap`: the hole at `hole` of the heap
/// `s[first..first + len)` moves down to the larger child while it has two.
pub open spec fn sift_down<T, F: Fn(&T, &T) -> bool>(
    comp: F,
    s: Seq<T>,
    first: int,
    len: int,
    hole: int,
) -> (Seq<T>, int)
    decreases len - hole,
{
    if 0 <= hole && hole < (len - 1) / 2 {
        let right = 2 * (hole + 1);
        let child = if comp_lt(comp, s[first + right], s[first + right - 1]) {
            right - 1
        } else {
            right
        };
        sift_down(comp, s.update(first + hole, s[first + child]), first, len, child)
    } else {
        (s, hole)
    }
}

/// The step of `std::__adjust_heap` for a hole whose only child is the last element.
pub open spec fn sift_last_child<T>(s: Seq<T>, first: int, len: int, hole: int) -> (Seq<T>, int) {
    if len % 2 == 0 && hole == (len - 2) / 2 {
        (s.update(first + hole, s[first + 2 * hole + 1]), 2 * hole + 1)
    } else {
        (s, hole)
    }
}

/// `std::__push_heap`: `value` moves up from the hole at `hole` while its
/// parent, not above `top`, orders before it.
pub open spec fn push_up<T, F: Fn(&T, &T) -> bool>(
    comp: F,
    s: Seq<T>,
    first: int,
    hole: int,
    top: int,
    value: T,
) -> Seq<T>
    decreases hole,
{
    if 0 <= top && top < hole && comp_lt(comp, s[first + (hole - 1) / 2], value) {
        push_up(comp, s.update(first + hole, s[first + (hole - 1) / 2]), first, (hole - 1) / 2, top, value)
    } else {
        s.update(first + hole, value)
    }
}

/// `std::__adjust_heap(first, hole, len, value)`.
pub open spec fn adjust_heap_spec<T, F: Fn(&T, &T) -> bool>(
    comp: F,
    s: Seq<T>,
    first: int,
    len: int,
    hole: int,
    value: T,
) -> Seq<T> {
    let (s1, h1) = sift_down(comp, s, first, len, hole);
    let (s2, h2) = sift_last_child(s1, first, len, h1);
    push_up(comp, s2, first, h2, hole, value)
}

/// `std::__make_heap`, from the node `parent` down to the root.
pub open spec fn make_heap_from<T, F: Fn(&T, &T) -> bool>(
    comp: F,
    s: Seq<T>,
    first: int,
    len: int,
    parent: int,
) -> Seq<T>
    decreases parent,
{
    let s1 = adjust_heap_spec(comp, s, first, len, parent, s[first + parent]);
    if parent <= 0 {
        s1
    } else {
        make_heap_from(comp, s1, first, len, parent - 1)
    }
}

/// `std::__make_heap` on `s[first..first + len)`.
pub open spec fn make_heap_spec<T, F: Fn(&T, &T) -> bool>(
    comp: F,
    s: Seq<T>,
    first: int,
    len: int,
) -> Seq<T> {
    if len < 2 {
        s
    } else {
        make_heap_from(comp, s, first, len, (len - 2) / 2)
    }
}

/// `std::__sort_heap`: the root of `s[first..l)` goes to the end, in turn.
pub open spec fn pop_heap_loop<T, F: Fn(&T, &T) -> bool>(
    comp: F,
    s: Seq<T>,
    first: int,
    l: int,
) -> Seq<T>
    decreases l - first,
{
    if l - first > 1 {
        pop_heap_loop(
            comp,
            adjust_heap_spec(comp, s.update(l - 1, s[first]), first, l - 1 - first, 0, s[l - 1]),
            first,
            l - 1,
        )
    } else {
        s
    }
}

/// `std::__heap_select` followed by `std::__sort_heap` on `[first, last)`.
pub open spec fn heap_sort_spec<T, F: Fn(&T, &T) -> bool>(
    comp: F,
    s: Seq<T>,
    first: int,
    last: int,
) -> Seq<T> {
    pop_heap_loop(comp, make_heap_spec(comp, s, first, last - first), first, last)
}

/// `s` with the element at `from` moved back to `to`, those in between
/// shifting one place right.
pub open spec fn moved_back<T>(s: Seq<T>, to: int, from: int) -> Seq<T> {
    Seq::new(
        s.len(),
        |k: int|
            if k == to {
                s[from]
            } else if to < k <= from {
                s[k - 1]
            } else {
                s[k]
            },
    )
}

/// Where `std::__unguarded_linear_insert` puts `val` coming from `k`: left
/// past every element it orders before, stopping at index 0.
pub open spec fn insert_position<T, F: Fn(&T, &T) -> bool>(comp: F, s: Seq<T>, k: int, val: T) -> int
    decreases k,
{
    if k <= 0 || !comp_lt(comp, val, s[k - 1]) {
        k
    } else {
        insert_position(comp, s, k - 1, val)
    }
}

/// `std::__unguarded_linear_insert` at `last`.
pub open spec fn linear_insert_spec<T, F: Fn(&T, &T) -> bool>(comp: F, s: Seq<T>, last: int) -> Seq<T> {
    moved_back(s, insert_position(comp, s, last, s[last]), last)
}

/// `std::__insertion_sort` on `[first, last)` from position `i` on.
pub open spec fn insertion_from<T, F: Fn(&T, &T) -> bool>(
    comp: F,
    s: Seq<T>,
    first: int,
    i: int,
    last: int,
) -> Seq<T>
    decreases last - i,
{
    if i < last {
        let s1 = if comp_lt(comp, s[i], s[first]) {
            moved_back(s, first, i)
        } else {
            linear_insert_spec(comp, s, i)
        };
        insertion_from(comp, s1, first, i + 1, last)
    } else {
        s
    }
}

/// `std::__insertion_sort` on `[first, last)`.
pub open spec fn insertion_sort_spec<T, F: Fn(&T, &T) -> bool>(
    comp: F,
    s: Seq<T>,
    first: int,
    last: int,
) -> Seq<T> {
    if first == last {
        s
    } else {
        insertion_from(comp, s, first, first + 1, last)
    }
}

/// `std::__unguarded_insertion_sort` from position `i` to `last`.
pub open spec fn unguarded_insertion_from<T, F: Fn(&T, &T) -> bool>(
    comp: F,
    s: Seq<T>,
    i: int,
    last: int,
) -> Seq<T>
    decreases last - i,
{
    if i < last {
        unguarded_insertion_from(comp, linear_insert_spec(comp, s, i), i + 1, last)
    } else {
        s
    }
}

/// `std::__final_insertion_sort` on `[first, last)`.
pub open spec fn final_insertion_spec<T, F: Fn(&T, &T) -> bool>(
    comp: F,
    s: Seq<T>,
    first: int,
    last: int,
) -> Seq<T> {
    if last - first > S_THRESHOLD {
        unguarded_insertion_from(
            comp,
            insertion_sort_spec(comp, s, first, first + S_THRESHOLD),
            first + S_THRESHOLD,
            last,
        )
    } else {
        insertion_sort_spec(comp, s, first, last)
    }
}

/// `std::__introsort_loop` on `[first, last)` with `depth` partitions left
/// before the heap-sort fallback.
pub open spec fn introsort_spec<T, F: Fn(&T, &T) -> bool>(
    comp: F,
    s: Seq<T>,
    first: int,
    last: int,
    depth: nat,
) -> Seq<T>
    decreases depth,
{
    if last - first <= S_THRESHOLD {
        s
    } else if depth == 0 {
        heap_sort_spec(comp, s, first, last)
    } else {
        let (s1, cut) = partition_at_pivot(comp, s, first, last);
        introsort_spec(
            comp,
            introsort_spec(comp, s1, cut, last, (depth - 1) as nat),
            first,
            cut,
            (depth - 1) as nat,
        )
    }
}

/// `std::__lg`: the floor of the base-2 logarithm of a positive `n`.
pub open spec fn log2_floor(n: nat) -> nat
    decreases n,
{
    if n < 2 {
        0
    } else {
        1 + log2_floor(n / 2)
    }
}

/// `std::sort(first, last, comp)`: introsort with depth limit `2 * lg(n)`,
/// then the final insertion sort.
pub open spec fn std_sort_spec<T, F: Fn(&T, &T) -> bool>(comp: F, s: Seq<T>) -> Seq<T> {
    if s.len() == 0 {
        s
    } else {
        final_insertion_spec(
            comp,
            introsort_spec(comp, s, 0, s.len() as int, 2 * log2_floor(s.len())),
            0,
            s.len() as int,
        )
    }
}

/// The floor logarithm of a positive `n` below `2^k` is below `k`.
proof fn lemma_log2_floor_below(n: nat, k: nat)
    requires
        1 <= n < pow2(k),
    ensures
        log2_floor(n) < k,
    decreases n,
{
    vstd::arithmetic::power2::lemma2_to64();
    if n >= 2 {
        if k == 0 {
            assert(false);
        }
        vstd::arithmetic::power2::lemma_pow2_unfold(k);
        lemma_log2_floor_below(n / 2, (k - 1) as nat);
    }
}

/// Calls `comp` on `a` and `b`.
fn call_lt<T, F: Fn(&T, &T) -> bool + Copy>(comp: F, a: &T, b: &T) -> (r: bool)
    requires
        strict_weak_order::<T, F>(comp),
    ensures
        r == comp_lt(comp, *a, *b),
{
    let r = comp(a, b);
    proof {
        if !r {
            assert(comp.ensures((a, b), false));
            assert(!comp.ensures((a, b), true));
        }
    }
    r
}

/// Clones an element; `clone_is_exact` makes the copy equal to its source.
fn clone_exact<T: Clone>(x: &T) -> (r: T)
    requires
        clone_is_exact::<T>(),
    ensures
        r == *x,
{
    let r = x.clone();
    proof {
        assert(vstd::pervasive::strictly_cloned(*x, r));
    }
    r
}

/// `<[T]>::swap`: exchanges the elements at `a` and `b`, both in bounds
/// (it panics otherwise); nothing else changes.
#[verifier::external_body]
fn slice_swap<T>(v: &mut [T], a: usize, b: usize)
    requires
        a < old(v)@.len(),
        b < old(v)@.len(),
    ensures
        final(v)@ == old(v)@.update(a as int, old(v)@[b as int]).update(b as int, old(v)@[a as int]),
{
    v.swap(a, b);
}

/// `std::__lg`: the floor of the base-2 logarithm, by repeated halving.
fn lg(n: usize) -> (r: u32)
    requires
        n > 0,
    ensures
        r == log2_floor(n as nat),
        r < 64,
{
    proof {
        vstd::arithmetic::power2::lemma2_to64();
        lemma_log2_floor_below(n as nat, 64);
    }
    let mut m = n;
    let mut r: u32 = 0;
    while m >= 2
        invariant
            1 <= m <= n,
            r + log2_floor(m as nat) == log2_floor(n as nat),
            log2_floor(n as nat) < 64,
        decreases m,
    {
        m = m / 2;
        r = r + 1;
    }
    r
}

/// `std::sort(v.begin(), v.end(), comp)` with the libstdc++ introsort: the
/// result is `std_sort_spec`, step for step, so elements that compare equal
/// end up in the order the C++ library leaves them in.
pub fn std_sort<T: Clone, F: Fn(&T, &T) -> bool + Copy>(v: &mut [T], comp: F)
    requires
        strict_weak_order::<T, F>(comp),
        clone_is_exact::<T>(),
        old(v)@.len() <= isize::MAX,
    ensures
        final(v)@.len() == old(v)@.len(),
        final(v)@.to_multiset() == old(v)@.to_multiset(),
        sorted_between(comp, final(v)@, 0, final(v)@.len() as int),
        final(v)@ == std_sort_spec(comp, old(v)@),
{
    if v.is_empty() {
        return;
    }
    let z = lg(v.len());
    let depth = z * 2;
    introsort_loop(v, 0, v.len(), depth, comp);
    final_insertion_sort(v, 0, v.len(), comp);
}

/// Partitions `v[first..last)` until every part left unsorted has at most
/// `S_THRESHOLD` elements, falling back to heap sort once `depth_limit`
/// partitions deep.
fn introsort_loop<T: Clone, F: Fn(&T, &T) -> bool + Copy>(
    v: &mut [T],
    first: usize,
    last: usize,
    depth_limit: u32,
    comp: F,
)
    requires
        strict_weak_order::<T, F>(comp),
        clone_is_exact::<T>(),
        first <= last <= old(v)@.len(),
        old(v)@.len() <= isize::MAX,
    ensures
        final(v)@.to_multiset() == old(v)@.to_multiset(),
        same_outside(final(v)@, old(v)@, first as int, last as int),
        nearly_sorted(comp, final(v)@, first as int, last as int),
        final(v)@ == introsort_spec(comp, old(v)@, first as int, last as int, depth_limit as nat),
    decreases last - first,
{
    let ghost depth0 = depth_limit as nat;
    let ghost target = introsort_spec(comp, old(v)@, first as int, last as int, depth0);
    let mut hi = last;
    let mut depth = depth_limit;
    let ghost orig_last = last;
    let ghost f = first as int;
    while hi - first > S_THRESHOLD
        invariant
            strict_weak_order::<T, F>(comp),
            clone_is_exact::<T>(),
            first <= hi <= orig_last <= v@.len(),
            orig_last == last,
            f == first,
            v@.len() <= isize::MAX,
            v@.to_multiset() == old(v)@.to_multiset(),
            same_outside(v@, old(v)@, first as int, orig_last as int),
            nearly_sorted(comp, v@, hi as int, orig_last as int),
            forall|a: int, b: int|
                f <= a < hi <= b < orig_last ==> !comp_lt(comp, #[trigger] v@[b], #[trigger] v@[a]),
            introsort_spec(comp, v@, f, hi as int, depth as nat) == target,
            depth0 == depth_limit,
            target == introsort_spec(comp, old(v)@, first as int, last as int, depth0),
        decreases hi - first,
    {
        let ghost vb = v@;
        let ghost h = hi as int;
        if depth == 0 {
            proof {
                assert(introsort_spec(comp, vb, f, h, 0) == heap_sort_spec(comp, vb, f, h));
            }
            heap_sort(v, first, hi, comp);
            proof {
                lemma_same_outside_widen(v@, old(v)@, first as int, hi as int, orig_last as int);
                let vf = v@;
                lemma_range_perm(vf, vb, f, h);
                assert forall|i: int, j: int|
                    f <= i < j < orig_last && j - i >= S_THRESHOLD implies !comp_lt(
                    comp,
                    #[trigger] vf[j],
                    #[trigger] vf[i],
                ) by {
                    if j >= h {
                        assert(vf[j] == vb[j]);
                        if i < h {
                            assert(occurs_in(vf[i], vb, f, h));
                            let i2 = choose|i2: int| f <= i2 < h && vb[i2] == vf[i];
                            assert(!comp_lt(comp, vb[j], vb[i2]));
                        } else {
                            assert(vf[i] == vb[i]);
                        }
                    }
                }
            }
            return;
        }
        depth -= 1;
        let cut = unguarded_partition_pivot(v, first, hi, comp);
        let ghost vp = v@;
        assert(hi - cut < orig_last - first);
        introsort_loop(v, cut, hi, depth, comp);
        proof {
            let vr = v@;
            let c = cut as int;
            lemma_range_perm(vp, vb, f, h);
            lemma_range_perm(vr, vp, c, h);
            assert forall|i: int, j: int|
                c <= i < j < orig_last && j - i >= S_THRESHOLD implies !comp_lt(
                comp,
                #[trigger] vr[j],
                #[trigger] vr[i],
            ) by {
                if j >= h {
                    assert(vr[j] == vb[j]);
                    if i < h {
                        assert(occurs_in(vr[i], vp, c, h));
                        let i2 = choose|i2: int| c <= i2 < h && vp[i2] == vr[i];
                        assert(occurs_in(vp[i2], vb, f, h));
                        let i3 = choose|i3: int| f <= i3 < h && vb[i3] == vp[i2];
                        assert(!comp_lt(comp, vb[j], vb[i3]));
                    } else {
                        assert(vr[i] == vb[i]);
                    }
                }
            }
            assert forall|a: int, b: int| f <= a < c <= b < orig_last implies !comp_lt(
                comp,
                #[trigger] vr[b],
                #[trigger] vr[a],
            ) by {
                assert(vr[a] == vp[a]);
                if b < h {
                    assert(occurs_in(vr[b], vp, c, h));
                    let b2 = choose|b2: int| c <= b2 < h && vp[b2] == vr[b];
                    assert(!comp_lt(comp, vp[b2], vp[a]));
                } else {
                    assert(vr[b] == vb[b]);
                    assert(occurs_in(vp[a], vb, f, h));
                    let a2 = choose|a2: int| f <= a2 < h && vb[a2] == vp[a];
                    assert(!comp_lt(comp, vb[b], vb[a2]));
                }
            }
        }
        hi = cut;
    }
}

fn unguarded_partition_pivot<T: Clone, F: Fn(&T, &T) -> bool + Copy>(
    v: &mut [T],
    first: usize,
    last: usize,
    comp: F,
) -> (cut: usize)
    requires
        strict_weak_order::<T, F>(comp),
        first + S_THRESHOLD < last <= old(v)@.len(),
    ensures
        first < cut < last,
        final(v)@.to_multiset() == old(v)@.to_multiset(),
        same_outside(final(v)@, old(v)@, first as int, last as int),
        forall|a: int, b: int|
            first <= a < cut <= b < last ==> !comp_lt(comp, #[trigger] final(v)@[b], #[trigger] final(v)@[a]),
        (final(v)@, cut as int) == partition_at_pivot(comp, old(v)@, first as int, last as int),
{
    let mid = first + (last - first) / 2;
    move_median_to_first(v, first, first + 1, mid, last - 1, comp);
    let ghost pv = v@[first as int];
    proof {
        let s = v@;
        let f = first as int;
        if !comp_lt(comp, s[f + 1], pv) {
            unguarded_partition_sentinel(s, f + 1);
        } else if !comp_lt(comp, s[mid as int], pv) {
            unguarded_partition_sentinel(s, mid as int);
        } else {
            unguarded_partition_sentinel(s, last - 1);
        }
    }
    let cut = unguarded_partition(v, first + 1, last, first, comp);
    proof {
        let t = v@;
        assert(t[first as int] == pv);
        assert forall|a: int, b: int| first <= a < cut <= b < last implies !comp_lt(
            comp,
            #[trigger] t[b],
            #[trigger] t[a],
        ) by {
            assert(!comp_lt(comp, t[b], pv));
            if a > first {
                assert(!comp_lt(comp, pv, t[a]));
            }
        }
    }
    cut
}

/// Names a witness position for an existential (keeps the trigger local).
proof fn unguarded_partition_sentinel<T>(s: Seq<T>, k: int) {
}

/// Moves the median of `v[a]`, `v[b]`, `v[c]` to `v[result]`.
fn move_median_to_first<T: Clone, F: Fn(&T, &T) -> bool + Copy>(
    v: &mut [T],
    result: usize,
    a: usize,
    b: usize,
    c: usize,
    comp: F,
)
    requires
        strict_weak_order::<T, F>(comp),
        result < a < b < c < old(v)@.len(),
    ensures
        final(v)@.to_multiset() == old(v)@.to_multiset(),
        same_outside(final(v)@, old(v)@, result as int, c + 1),
        forall|k: int| result < k <= c && k != a && k != b && k != c ==> final(v)@[k] == old(v)@[k],
        final(v)@ == median_to_first(comp, old(v)@, result as int, a as int, b as int, c as int),
        !comp_lt(comp, final(v)@[a as int], final(v)@[result as int]) || !comp_lt(
            comp,
            final(v)@[b as int],
            final(v)@[result as int],
        ) || !comp_lt(comp, final(v)@[c as int], final(v)@[result as int]),
{
    proof {
        lemma_swap_multiset(v@, result as int, a as int);
        lemma_swap_multiset(v@, result as int, b as int);
        lemma_swap_multiset(v@, result as int, c as int);
    }
    let ghost s = v@;
    if call_lt(comp, &v[a], &v[b]) {
        if call_lt(comp, &v[b], &v[c]) {
            proof { lemma_asym(comp, s[b as int], s[c as int]); }
            slice_swap(v, result, b);
        } else if call_lt(comp, &v[a], &v[c]) {
            slice_swap(v, result, c);
        } else {
            proof { lemma_asym(comp, s[a as int], s[b as int]); }
            slice_swap(v, result, a);
        }
    } else if call_lt(comp, &v[a], &v[c]) {
        proof { lemma_asym(comp, s[a as int], s[c as int]); }
        slice_swap(v, result, a);
    } else if call_lt(comp, &v[b], &v[c]) {
        slice_swap(v, result, c);
    } else {
        slice_swap(v, result, b);
    }
}

/// Hoare partition of `v[first..last)` around the pivot `v[pivot]`; a position
/// at or after `first` holds an element that does not order before the pivot.
fn unguarded_partition<T: Clone, F: Fn(&T, &T) -> bool + Copy>(
    v: &mut [T],
    first: usize,
    last: usize,
    pivot: usize,
    comp: F,
) -> (cut: usize)
    requires
        strict_weak_order::<T, F>(comp),
        pivot + 1 == first,
        first < last <= old(v)@.len(),
        exists|k: int|
            first <= k < last && !comp_lt(comp, #[trigger] old(v)@[k], old(v)@[pivot as int]),
    ensures
        first <= cut < last,
        final(v)@.to_multiset() == old(v)@.to_multiset(),
        same_outside(final(v)@, old(v)@, first as int, last as int),
        forall|k: int|
            first <= k < cut ==> !comp_lt(comp, old(v)@[pivot as int], #[trigger] final(v)@[k]),
        forall|k: int|
            cut <= k < last ==> !comp_lt(comp, #[trigger] final(v)@[k], old(v)@[pivot as int]),
        (final(v)@, cut as int) == partition_from(
            comp,
            old(v)@,
            first as int,
            last as int,
            old(v)@[pivot as int],
        ),
{
    let ghost lo = first;
    let ghost hi = last;
    let ghost pv = v@[pivot as int];
    let ghost target = partition_from(comp, old(v)@, first as int, last as int, pv);
    let ghost mut sent: int = choose|k: int|
        first <= k < last && !comp_lt(comp, #[trigger] old(v)@[k], old(v)@[pivot as int]);
    let mut i = first;
    let mut j = last;
    loop
        invariant
            strict_weak_order::<T, F>(comp),
            lo == first,
            hi == last,
            pivot + 1 == lo,
            lo <= i <= sent < hi,
            pivot < j <= hi,
            hi <= v@.len(),
            v@[pivot as int] == pv,
            !comp_lt(comp, v@[sent], pv),
            v@.to_multiset() == old(v)@.to_multiset(),
            same_outside(v@, old(v)@, lo as int, hi as int),
            forall|k: int| lo <= k < i ==> !comp_lt(comp, pv, #[trigger] v@[k]),
            forall|k: int| j <= k < hi ==> !comp_lt(comp, #[trigger] v@[k], pv),
            partition_from(comp, v@, i as int, j as int, pv) == target,
            target == partition_from(comp, old(v)@, lo as int, hi as int, old(v)@[pivot as int]),
        decreases hi - i,
    {
        let ghost i0 = i;
        let ghost j0 = j;
        while call_lt(comp, &v[i], &v[pivot])
            invariant
                strict_weak_order::<T, F>(comp),
                i0 <= i,
                pivot + 1 == lo,
                lo <= i <= sent < hi,
                pivot < j <= hi,
                hi <= v@.len(),
                v@.to_multiset() == old(v)@.to_multiset(),
                same_outside(v@, old(v)@, lo as int, hi as int),
                v@[pivot as int] == pv,
                !comp_lt(comp, v@[sent], pv),
                forall|k: int| lo <= k < i ==> !comp_lt(comp, pv, #[trigger] v@[k]),
                forall|k: int| j <= k < hi ==> !comp_lt(comp, #[trigger] v@[k], pv),
                j == j0,
                partition_from(comp, v@, i0 as int, j0 as int, pv) == target,
                target == partition_from(comp, old(v)@, lo as int, hi as int, old(v)@[pivot as int]),
                scan_up(comp, v@, i as int, pv) == scan_up(comp, v@, i0 as int, pv),
            decreases sent - i,
        {
            proof {
                lemma_asym(comp, v@[i as int], pv);
            }
            i += 1;
        }
        proof {
            assert(i == scan_up(comp, v@, i0 as int, pv));
        }
        j -= 1;
        while call_lt(comp, &v[pivot], &v[j])
            invariant
                strict_weak_order::<T, F>(comp),
                i0 <= i,
                pivot + 1 == lo,
                lo <= i <= sent < hi,
                pivot <= j < hi,
                hi <= v@.len(),
                v@[pivot as int] == pv,
                !comp_lt(comp, v@[sent], pv),
                v@.to_multiset() == old(v)@.to_multiset(),
                same_outside(v@, old(v)@, lo as int, hi as int),
                forall|k: int| lo <= k < i ==> !comp_lt(comp, pv, #[trigger] v@[k]),
                forall|k: int| j < k < hi ==> !comp_lt(comp, #[trigger] v@[k], pv),
                !comp_lt(comp, v@[i as int], pv),
                partition_from(comp, v@, i0 as int, j0 as int, pv) == target,
                target == partition_from(comp, old(v)@, lo as int, hi as int, old(v)@[pivot as int]),
                i == scan_up(comp, v@, i0 as int, pv),
                scan_down(comp, v@, j as int, pv) == scan_down(comp, v@, j0 - 1, pv),
            decreases j,
        {
            proof {
                lemma_asym(comp, pv, v@[j as int]);
            }
            j -= 1;
        }
        proof {
            assert(j == scan_down(comp, v@, j0 - 1, pv));
        }
        if i >= j {
            proof {
                assert(partition_from(comp, v@, i0 as int, j0 as int, pv) == (v@, i as int));
            }
            return i;
        }
        let ghost before = v@;
        proof {
            lemma_swap_multiset(v@, i as int, j as int);
        }
        slice_swap(v, i, j);
        proof {
            sent = j as int;
        }
        i += 1;
    }
}

/// Sorts `v[first..last)`: sixteen elements by insertion, the rest by an
/// insertion that relies on the sorted prefix.
fn final_insertion_sort<T: Clone, F: Fn(&T, &T) -> bool + Copy>(
    v: &mut [T],
    first: usize,
    last: usize,
    comp: F,
)
    requires
        strict_weak_order::<T, F>(comp),
        clone_is_exact::<T>(),
        first == 0,
        first <= last <= old(v)@.len(),
    ensures
        final(v)@.to_multiset() == old(v)@.to_multiset(),
        same_outside(final(v)@, old(v)@, first as int, last as int),
        sorted_between(comp, final(v)@, first as int, last as int),
        final(v)@ == final_insertion_spec(comp, old(v)@, first as int, last as int),
{
    if last - first > S_THRESHOLD {
        insertion_sort(v, first, first + S_THRESHOLD, comp);
        unguarded_insertion_sort(v, first + S_THRESHOLD, last, comp);
    } else {
        insertion_sort(v, first, last, comp);
    }
}

fn insertion_sort<T: Clone, F: Fn(&T, &T) -> bool + Copy>(
    v: &mut [T],
    first: usize,
    last: usize,
    comp: F,
)
    requires
        strict_weak_order::<T, F>(comp),
        clone_is_exact::<T>(),
        first <= last <= old(v)@.len(),
    ensures
        final(v)@.to_multiset() == old(v)@.to_multiset(),
        same_outside(final(v)@, old(v)@, first as int, last as int),
        sorted_between(comp, final(v)@, first as int, last as int),
        final(v)@ == insertion_sort_spec(comp, old(v)@, first as int, last as int),
{
    if first == last {
        return;
    }
    let ghost target = insertion_sort_spec(comp, old(v)@, first as int, last as int);
    let mut i = first + 1;
    while i < last
        invariant
            strict_weak_order::<T, F>(comp),
            clone_is_exact::<T>(),
            first < i <= last <= v@.len(),
            v@.to_multiset() == old(v)@.to_multiset(),
            same_outside(v@, old(v)@, first as int, last as int),
            sorted_between(comp, v@, first as int, i as int),
            insertion_from(comp, v@, first as int, i as int, last as int) == target,
        decreases last - i,
    {
        if call_lt(comp, &v[i], &v[first]) {
            rotate_to_front(v, first, i, comp);
        } else {
            unguarded_linear_insert(v, i, Ghost(first as int), comp);
        }
        i += 1;
    }
}

/// The first branch of the insertion step: `v[i]` orders before `v[first]`,
/// so it moves to `first` and `v[first..i)` shifts one place right.
fn rotate_to_front<T: Clone, F: Fn(&T, &T) -> bool + Copy>(
    v: &mut [T],
    first: usize,
    i: usize,
    comp: F,
)
    requires
        strict_weak_order::<T, F>(comp),
        clone_is_exact::<T>(),
        first < i < old(v)@.len(),
        sorted_between(comp, old(v)@, first as int, i as int),
        comp_lt(comp, old(v)@[i as int], old(v)@[first as int]),
    ensures
        final(v)@.to_multiset() == old(v)@.to_multiset(),
        same_outside(final(v)@, old(v)@, first as int, i + 1),
        sorted_between(comp, final(v)@, first as int, i + 1),
        final(v)@ == moved_back(old(v)@, first as int, i as int),
{
    let ghost s = v@;
    let val = clone_exact(&v[i]);
    let mut j = i;
    proof {
        assert(v@.update(j as int, val) =~= s);
    }
    while j > first
        invariant
            strict_weak_order::<T, F>(comp),
            clone_is_exact::<T>(),
            first <= j <= i < v@.len(),
            val == s[i as int],
            v@.len() == s.len(),
            v@.update(j as int, val).to_multiset() == s.to_multiset(),
            forall|k: int| 0 <= k <= j || i < k < s.len() ==> #[trigger] v@[k] == s[k],
            forall|k: int| j < k <= i ==> #[trigger] v@[k] == s[k - 1],
        decreases j,
    {
        j -= 1;
        let x = clone_exact(&v[j]);
        proof {
            lemma_move_hole(v@, (j + 1) as int, j as int, val);
        }
        v[j + 1] = x;
    }
    proof {
        assert(v@.update(first as int, val) =~= v@.update(j as int, val));
    }
    v[first] = val;
    proof {
        let t = v@;
        assert(t =~= moved_back(s, first as int, i as int));
        assert forall|a: int, b: int| first <= a < b < i + 1 implies !comp_lt(
            comp,
            #[trigger] t[b],
            #[trigger] t[a],
        ) by {
            if a == first {
                // t[b] == s[b - 1], and s[first] does not order before s[b - 1]
                if comp_lt(comp, s[b - 1], val) {
                    if b - 1 > first {
                        assert(!comp_lt(comp, s[b - 1], s[first as int]));
                    }
                    assert(comp_lt(comp, s[b - 1], s[first as int]));
                }
            } else {
                assert(t[a] == s[a - 1]);
                assert(t[b] == s[b - 1]);
            }
        }
    }
}

fn unguarded_insertion_sort<T: Clone, F: Fn(&T, &T) -> bool + Copy>(
    v: &mut [T],
    first: usize,
    last: usize,
    comp: F,
)
    requires
        strict_weak_order::<T, F>(comp),
        clone_is_exact::<T>(),
        0 < first <= last <= old(v)@.len(),
        sorted_between(comp, old(v)@, 0, first as int),
    ensures
        final(v)@.to_multiset() == old(v)@.to_multiset(),
        same_outside(final(v)@, old(v)@, 0, last as int),
        sorted_between(comp, final(v)@, 0, last as int),
        final(v)@ == unguarded_insertion_from(comp, old(v)@, first as int, last as int),
{
    let ghost target = unguarded_insertion_from(comp, old(v)@, first as int, last as int);
    let mut i = first;
    while i < last
        invariant
            strict_weak_order::<T, F>(comp),
            clone_is_exact::<T>(),
            0 < first <= i <= last <= v@.len(),
            v@.to_multiset() == old(v)@.to_multiset(),
            same_outside(v@, old(v)@, 0, last as int),
            sorted_between(comp, v@, 0, i as int),
            unguarded_insertion_from(comp, v@, i as int, last as int) == target,
        decreases last - i,
    {
        unguarded_linear_insert(v, i, Ghost(0), comp);
        i += 1;
    }
}

/// Inserts `v[last]` into the sorted run `v[lo..last)`, moving left while it
/// orders before its neighbour; the walk stops at index 0, or earlier because
/// `v[lo]` does not order after the inserted value.
fn unguarded_linear_insert<T: Clone, F: Fn(&T, &T) -> bool + Copy>(
    v: &mut [T],
    last: usize,
    Ghost(lo): Ghost<int>,
    comp: F,
)
    requires
        strict_weak_order::<T, F>(comp),
        clone_is_exact::<T>(),
        0 <= lo < last < old(v)@.len(),
        sorted_between(comp, old(v)@, lo, last as int),
        lo == 0 || !comp_lt(comp, old(v)@[last as int], old(v)@[lo]),
    ensures
        final(v)@.to_multiset() == old(v)@.to_multiset(),
        same_outside(final(v)@, old(v)@, lo, last + 1),
        sorted_between(comp, final(v)@, lo, last + 1),
        final(v)@ == linear_insert_spec(comp, old(v)@, last as int),
{
    let ghost s = v@;
    let ghost orig = last as int;
    let val = clone_exact(&v[last]);
    let mut last = last;
    let mut next = last - 1;
    proof {
        assert(v@.update(last as int, val) =~= s);
    }
    loop
        invariant_except_break
            next + 1 == last,
        invariant
            strict_weak_order::<T, F>(comp),
            clone_is_exact::<T>(),
            lo <= last <= orig < s.len(),
            lo > 0 ==> lo < last,
            lo == 0 || !comp_lt(comp, val, s[lo]),
            val == s[orig],
            v@.len() == s.len(),
            sorted_between(comp, s, lo, orig),
            v@.update(last as int, val).to_multiset() == s.to_multiset(),
            forall|k: int| 0 <= k <= last || orig < k < s.len() ==> #[trigger] v@[k] == s[k],
            forall|k: int| last < k <= orig ==> #[trigger] v@[k] == s[k - 1],
            forall|k: int| last <= k < orig ==> comp_lt(comp, val, #[trigger] s[k]),
            insert_position(comp, s, last as int, val) == insert_position(comp, s, orig, val),
        ensures
            last == insert_position(comp, s, orig, val),
            lo <= last <= orig,
            v@.update(last as int, val).to_multiset() == s.to_multiset(),
            forall|k: int| 0 <= k <= last || orig < k < s.len() ==> #[trigger] v@[k] == s[k],
            forall|k: int| last < k <= orig ==> #[trigger] v@[k] == s[k - 1],
            forall|k: int| last <= k < orig ==> comp_lt(comp, val, #[trigger] s[k]),
            last == 0 || !comp_lt(comp, val, s[last - 1]),
        decreases last,
    {
        if !call_lt(comp, &val, &v[next]) {
            proof {
                assert(v@[next as int] == s[next as int]);
                assert(insert_position(comp, s, last as int, val) == last);
            }
            break;
        }
        let x = clone_exact(&v[next]);
        proof {
            lemma_move_hole(v@, last as int, next as int, val);
            assert(v@[next as int] == s[next as int]);
            assert(insert_position(comp, s, last as int, val) == insert_position(comp, s, next as int, val));
        }
        v[last] = x;
        last = next;
        if next == 0 {
            break;
        }
        next -= 1;
    }
    v[last] = val;
    proof {
        let t = v@;
        let k0 = last as int;
        assert(t =~= moved_back(s, k0, orig));
        assert forall|a: int, b: int| lo <= a < b < orig + 1 implies !comp_lt(
            comp,
            #[trigger] t[b],
            #[trigger] t[a],
        ) by {
            if b < k0 {
                assert(t[a] == s[a] && t[b] == s[b]);
            } else if b == k0 {
                // t[b] == val, t[a] == s[a] with a < k0
                assert(t[a] == s[a]);
                if a < k0 - 1 {
                    assert(!comp_lt(comp, s[k0 - 1], s[a]));
                }
            } else if a == k0 {
                assert(t[b] == s[b - 1]);
                lemma_asym(comp, val, s[b - 1]);
            } else if a < k0 {
                assert(t[a] == s[a]);
                assert(t[b] == s[b - 1]);
            } else {
                assert(t[a] == s[a - 1]);
                assert(t[b] == s[b - 1]);
            }
        }
    }
}

// ---------------- heap operations (depth-limit fallback) ----------------

/// The element at `i` does not order before the element at `j`.
pub open spec fn ge_at<T, F: Fn(&T, &T) -> bool>(comp: F, s: Seq<T>, i: int, j: int) -> bool {
    !comp_lt(comp, s[i], s[j])
}

/// Node `c` of the heap stored from `s[first]` does not order after its
/// parent `(c - 1) / 2`.
pub open spec fn heap_edge<T, F: Fn(&T, &T) -> bool>(comp: F, s: Seq<T>, first: int, c: int) -> bool {
    ge_at(comp, s, first + (c - 1) / 2, first + c)
}

/// `s[first..first + len)` is a max-heap in `comp`'s order on every link
/// from a parent at index `top` or beyond to its child.
pub open spec fn heap_from<T, F: Fn(&T, &T) -> bool>(
    comp: F,
    s: Seq<T>,
    first: int,
    len: int,
    top: int,
) -> bool {
    forall|c: int| 1 <= c < len && (c - 1) / 2 >= top ==> #[trigger] heap_edge(comp, s, first, c)
}

/// Node `h` lies in the subtree rooted at node `top`.
pub open spec fn descends(top: int, h: int) -> bool
    decreases h,
{
    if h <= top || h <= 0 {
        h == top
    } else {
        descends(top, (h - 1) / 2)
    }
}

/// The root of a heap does not order before any of its elements.
proof fn lemma_heap_root_max<T, F: Fn(&T, &T) -> bool>(comp: F, s: Seq<T>, first: int, len: int, k: int)
    requires
        strict_weak_order::<T, F>(comp),
        heap_from(comp, s, first, len, 0),
        0 <= k < len,
    ensures
        ge_at(comp, s, first, first + k),
    decreases k,
{
    if k > 0 {
        let p = (k - 1) / 2;
        lemma_heap_root_max(comp, s, first, len, p);
        assert(heap_edge(comp, s, first, k));
        if comp_lt(comp, s[first], s[first + k]) {
            assert(!comp_lt(comp, s[first], s[first + p]) && !comp_lt(comp, s[first + p], s[first + k]));
        }
    }
}


fn heap_sort<T: Clone, F: Fn(&T, &T) -> bool + Copy>(
    v: &mut [T],
    first: usize,
    last: usize,
    comp: F,
)
    requires
        strict_weak_order::<T, F>(comp),
        clone_is_exact::<T>(),
        first <= last <= old(v)@.len(),
        old(v)@.len() <= isize::MAX,
    ensures
        final(v)@.to_multiset() == old(v)@.to_multiset(),
        same_outside(final(v)@, old(v)@, first as int, last as int),
        sorted_between(comp, final(v)@, first as int, last as int),
        final(v)@ == heap_sort_spec(comp, old(v)@, first as int, last as int),
{
    make_heap(v, first, last, comp);
    let ghost target = heap_sort_spec(comp, old(v)@, first as int, last as int);
    let mut l = last;
    while l - first > 1
        invariant
            strict_weak_order::<T, F>(comp),
            clone_is_exact::<T>(),
            first <= l <= last <= v@.len(),
            v@.len() <= isize::MAX,
            v@.to_multiset() == old(v)@.to_multiset(),
            same_outside(v@, old(v)@, first as int, last as int),
            heap_from(comp, v@, first as int, l - first, 0),
            sorted_between(comp, v@, l as int, last as int),
            forall|a: int, b: int|
                first <= a < l <= b < last ==> !comp_lt(comp, #[trigger] v@[b], #[trigger] v@[a]),
            target == heap_sort_spec(comp, old(v)@, first as int, last as int),
            pop_heap_loop(comp, v@, first as int, l as int) == target,
        decreases l - first,
    {
        l -= 1;
        let ghost vb0 = v@;
        let ghost f = first as int;
        let ghost li = l as int;
        let value = clone_exact(&v[l]);
        let top = clone_exact(&v[first]);
        proof {
            lemma_move_hole(v@, l as int, first as int, value);
            assert(v@.update(l as int, value) =~= v@);
        }
        v[l] = top;
        let ghost vb1 = v@;
        proof {
            assert forall|c: int| 1 <= c < l - first && (c - 1) / 2 >= 1 implies #[trigger] heap_edge(
                comp,
                vb1,
                f,
                c,
            ) by {
                assert(heap_edge(comp, vb0, f, c));
            }
        }
        adjust_heap(v, first, 0, (l - first) as isize, value, comp);
        proof {
            let vf = v@;
            let filled = vb1.update(f, value);
            assert(same_outside(vf, filled, f, li)) by {
                assert forall|k: int| 0 <= k < vf.len() && !(f <= k < li) implies #[trigger] vf[k]
                    == filled[k] by {
                    assert(vf[k] == vb1[k]);
                }
            }
            lemma_range_perm(vf, filled, f, li);
            assert forall|a: int, b: int| first <= a < l <= b < last implies !comp_lt(
                comp,
                #[trigger] vf[b],
                #[trigger] vf[a],
            ) by {
                assert(occurs_in(vf[a], filled, f, li));
                let j = choose|j: int| f <= j < li && filled[j] == vf[a];
                let jj = if j == f { li } else { j };
                assert(vf[a] == vb0[jj]);
                if b == li {
                    assert(vf[b] == vb0[f]);
                    lemma_heap_root_max(comp, vb0, f, li + 1 - f, jj - f);
                } else {
                    assert(vf[b] == vb0[b]);
                    assert(!comp_lt(comp, vb0[b], vb0[jj]));
                }
            }
            assert forall|a: int, b: int| l <= a < b < last implies !comp_lt(
                comp,
                #[trigger] vf[b],
                #[trigger] vf[a],
            ) by {
                assert(vf[b] == vb0[b]);
                if a == li {
                    assert(vf[a] == vb0[f]);
                    assert(!comp_lt(comp, vb0[b], vb0[f]));
                } else {
                    assert(vf[a] == vb0[a]);
                }
            }
            assert(same_outside(vf, old(v)@, first as int, last as int)) by {
                assert forall|k: int| 0 <= k < vf.len() && !(first <= k < last) implies #[trigger] vf[k]
                    == old(v)@[k] by {
                    assert(vf[k] == vb1[k]);
                    assert(vb1[k] == vb0[k]);
                }
            }
        }
    }
}

fn make_heap<T: Clone, F: Fn(&T, &T) -> bool + Copy>(
    v: &mut [T],
    first: usize,
    last: usize,
    comp: F,
)
    requires
        strict_weak_order::<T, F>(comp),
        clone_is_exact::<T>(),
        first <= last <= old(v)@.len(),
        old(v)@.len() <= isize::MAX,
    ensures
        final(v)@.to_multiset() == old(v)@.to_multiset(),
        same_outside(final(v)@, old(v)@, first as int, last as int),
        heap_from(comp, final(v)@, first as int, last - first, 0),
        final(v)@ == make_heap_spec(comp, old(v)@, first as int, last - first),
{
    let len = (last - first) as isize;
    if len < 2 {
        return;
    }
    let mut parent = (len - 2) / 2;
    let ghost target = make_heap_spec(comp, old(v)@, first as int, last - first);
    loop
        invariant
            strict_weak_order::<T, F>(comp),
            clone_is_exact::<T>(),
            first <= last <= v@.len(),
            v@.len() <= isize::MAX,
            len == last - first,
            0 <= parent < len,
            v@.to_multiset() == old(v)@.to_multiset(),
            same_outside(v@, old(v)@, first as int, last as int),
            heap_from(comp, v@, first as int, len as int, parent + 1),
            target == make_heap_spec(comp, old(v)@, first as int, last - first),
            make_heap_from(comp, v@, first as int, len as int, parent as int) == target,
        decreases parent,
    {
        let value = clone_exact(&v[first + parent as usize]);
        proof {
            assert(v@.update(first + parent, value) =~= v@);
        }
        adjust_heap(v, first, parent, len, value, comp);
        if parent == 0 {
            return;
        }
        parent -= 1;
    }
}

/// Sifts the hole at `hole_index` down to a leaf and then pushes `value` up
/// from there, within the heap `v[first..first + len)`. Where every link
/// below the hole was a heap link, the subtree rooted at the hole is a heap
/// afterwards.
#[verifier::spinoff_prover]
#[verifier::rlimit(60)]
fn adjust_heap<T: Clone, F: Fn(&T, &T) -> bool + Copy>(
    v: &mut [T],
    first: usize,
    hole_index: isize,
    len: isize,
    value: T,
    comp: F,
)
    requires
        strict_weak_order::<T, F>(comp),
        clone_is_exact::<T>(),
        0 <= hole_index < len,
        first + len <= old(v)@.len(),
        old(v)@.len() <= isize::MAX,
    ensures
        final(v)@.to_multiset() == old(v)@.update(first + hole_index, value).to_multiset(),
        same_outside(final(v)@, old(v)@, first as int, first + len),
        heap_from(comp, old(v)@, first as int, len as int, hole_index + 1) ==> heap_from(
            comp,
            final(v)@,
            first as int,
            len as int,
            hole_index as int,
        ),
        final(v)@ == adjust_heap_spec(comp, old(v)@, first as int, len as int, hole_index as int, value),
{
    let ghost m = old(v)@.update(first + hole_index, value).to_multiset();
    let ghost pre = heap_from(comp, old(v)@, first as int, len as int, hole_index + 1);
    let ghost f = first as int;
    let ghost sd_target = sift_down(comp, old(v)@, f, len as int, hole_index as int);
    let ghost target = adjust_heap_spec(comp, old(v)@, f, len as int, hole_index as int, value);
    let top_index = hole_index;
    let mut hole_index = hole_index;
    let mut second_child = hole_index;
    proof {
        assert(descends(top_index as int, hole_index as int));
    }
    while second_child < (len - 1) / 2
        invariant
            strict_weak_order::<T, F>(comp),
            clone_is_exact::<T>(),
            0 <= top_index <= hole_index < len,
            second_child == hole_index,
            first + len <= v@.len(),
            v@.len() <= isize::MAX,
            v@.update(first + hole_index, value).to_multiset() == m,
            same_outside(v@, old(v)@, first as int, first + len),
            f == first,
            pre == heap_from(comp, old(v)@, first as int, len as int, top_index + 1),
            descends(top_index as int, hole_index as int),
            sd_target == sift_down(comp, old(v)@, f, len as int, top_index as int),
            target == adjust_heap_spec(comp, old(v)@, f, len as int, top_index as int, value),
            sift_down(comp, v@, f, len as int, hole_index as int) == sd_target,
            pre ==> forall|c: int|
                1 <= c < len && (c - 1) / 2 >= top_index && c != hole_index && (c - 1) / 2
                    != hole_index ==> #[trigger] heap_edge(comp, v@, f, c),
            pre && hole_index > top_index ==> (2 * hole_index + 1 < len ==> ge_at(
                comp,
                v@,
                f + (hole_index - 1) / 2,
                f + 2 * hole_index + 1,
            )) && (2 * hole_index + 2 < len ==> ge_at(
                comp,
                v@,
                f + (hole_index - 1) / 2,
                f + 2 * hole_index + 2,
            )),
        decreases len - hole_index,
    {
        let ghost h0 = hole_index as int;
        second_child = 2 * (second_child + 1);
        let right_lt_left = call_lt(
            comp,
            &v[first + second_child as usize],
            &v[first + (second_child - 1) as usize],
        );
        if right_lt_left {
            second_child -= 1;
        }
        let ghost vb = v@;
        let x = clone_exact(&v[first + second_child as usize]);
        proof {
            lemma_move_hole(v@, first + hole_index, first + second_child, value);
        }
        v[first + hole_index as usize] = x;
        hole_index = second_child;
        proof {
            let c = hole_index as int;
            let sib = if c == 2 * h0 + 1 { 2 * h0 + 2 } else { 2 * h0 + 1 };
            assert((c - 1) / 2 == h0);
            assert((sib - 1) / 2 == h0);
            if right_lt_left {
                lemma_asym(comp, vb[f + 2 * h0 + 2], vb[f + 2 * h0 + 1]);
            }
            assert(sift_down(comp, vb, f, len as int, h0) == sift_down(comp, v@, f, len as int, c));
            assert(ge_at(comp, v@, f + h0, f + sib));
            assert(descends(top_index as int, c));
            if pre {
                assert forall|e: int|
                    1 <= e < len && (e - 1) / 2 >= top_index && e != c && (e - 1) / 2
                        != c implies #[trigger] heap_edge(comp, v@, f, e) by {
                    if e == h0 {
                        assert(h0 > top_index);
                    } else if (e - 1) / 2 == h0 {
                        assert(e == sib);
                    } else {
                        assert(heap_edge(comp, vb, f, e));
                    }
                }
                if 2 * c + 1 < len {
                    assert(heap_edge(comp, vb, f, 2 * c + 1));
                }
                if 2 * c + 2 < len {
                    assert(heap_edge(comp, vb, f, 2 * c + 2));
                }
            }
        }
    }
    let ghost s1 = v@;
    let ghost h1 = hole_index as int;
    proof {
        assert((s1, h1) == sd_target);
    }
    if (len & 1) == 0 && second_child == (len - 2) / 2 {
        proof {
            assert((len & 1) == 0 ==> len % 2 == 0) by (bit_vector);
        }
        let ghost h0 = hole_index as int;
        second_child = 2 * (second_child + 1);
        let ghost vb = v@;
        let x = clone_exact(&v[first + (second_child - 1) as usize]);
        proof {
            lemma_move_hole(v@, first + hole_index, first + second_child - 1, value);
        }
        v[first + hole_index as usize] = x;
        hole_index = second_child - 1;
        proof {
            let c = hole_index as int;
            assert(c == len - 1);
            assert((c - 1) / 2 == h0);
            assert(descends(top_index as int, c));
            if pre {
                assert forall|e: int|
                    1 <= e < len && (e - 1) / 2 >= top_index && e != c && (e - 1) / 2
                        != c implies #[trigger] heap_edge(comp, v@, f, e) by {
                    if e == h0 {
                        assert(h0 > top_index);
                    } else {
                        assert(heap_edge(comp, vb, f, e));
                    }
                }
            }
        }
    } else {
        proof {
            assert((len & 1) != 0 ==> len % 2 == 1) by (bit_vector);
        }
    }
    proof {
        assert(2 * hole_index + 1 >= len);
        assert((v@, hole_index as int) == sift_last_child(s1, f, len as int, h1));
    }
    // push_heap
    let mut parent = (hole_index - 1) / 2;
    while hole_index > top_index && call_lt(comp, &v[first + parent as usize], &value)
        invariant
            strict_weak_order::<T, F>(comp),
            clone_is_exact::<T>(),
            0 <= top_index <= hole_index < len,
            hole_index > 0 ==> parent == (hole_index - 1) / 2,
            first + len <= v@.len(),
            v@.len() <= isize::MAX,
            v@.update(first + hole_index, value).to_multiset() == m,
            same_outside(v@, old(v)@, first as int, first + len),
            f == first,
            pre == heap_from(comp, old(v)@, first as int, len as int, top_index + 1),
            descends(top_index as int, hole_index as int),
            sd_target == sift_down(comp, old(v)@, f, len as int, top_index as int),
            target == adjust_heap_spec(comp, old(v)@, f, len as int, top_index as int, value),
            push_up(comp, v@, f, hole_index as int, top_index as int, value) == target,
            pre ==> forall|c: int|
                1 <= c < len && (c - 1) / 2 >= top_index && c != hole_index && (c - 1) / 2
                    != hole_index ==> #[trigger] heap_edge(comp, v@, f, c),
            pre && hole_index > top_index ==> (2 * hole_index + 1 < len ==> ge_at(
                comp,
                v@,
                f + (hole_index - 1) / 2,
                f + 2 * hole_index + 1,
            )) && (2 * hole_index + 2 < len ==> ge_at(
                comp,
                v@,
                f + (hole_index - 1) / 2,
                f + 2 * hole_index + 2,
            )),
            pre ==> (2 * hole_index + 1 < len ==> !comp_lt(comp, value, v@[f + 2 * hole_index + 1])) && (2
                * hole_index + 2 < len ==> !comp_lt(comp, value, v@[f + 2 * hole_index + 2])),
        decreases hole_index,
    {
        let ghost h0 = hole_index as int;
        let ghost vb = v@;
        let x = clone_exact(&v[first + parent as usize]);
        proof {
            lemma_move_hole(v@, first + hole_index, first + parent, value);
        }
        v[first + hole_index as usize] = x;
        hole_index = parent;
        parent = (hole_index - 1) / 2;
        proof {
            let p = hole_index as int;
            let sib = if h0 == 2 * p + 1 { 2 * p + 2 } else { 2 * p + 1 };
            assert(p == (h0 - 1) / 2);
            assert(h0 == 2 * p + 1 || h0 == 2 * p + 2);
            assert(p >= top_index) by {
                assert(descends(top_index as int, p));
                if p < top_index {
                    assert(false);
                }
            }
            assert(descends(top_index as int, p));
            lemma_asym(comp, vb[f + p], value);
            assert(push_up(comp, vb, f, h0, top_index as int, value) == push_up(
                comp,
                v@,
                f,
                p,
                top_index as int,
                value,
            ));
            if pre {
                assert forall|e: int|
                    1 <= e < len && (e - 1) / 2 >= top_index && e != p && (e - 1) / 2
                        != p implies #[trigger] heap_edge(comp, v@, f, e) by {
                    if (e - 1) / 2 == h0 {
                        assert(e == 2 * h0 + 1 || e == 2 * h0 + 2);
                    } else {
                        assert(heap_edge(comp, vb, f, e));
                    }
                }
                if sib < len {
                    assert(heap_edge(comp, vb, f, sib));
                    if comp_lt(comp, value, vb[f + sib]) {
                        assert(comp_lt(comp, vb[f + p], vb[f + sib]));
                    }
                }
                if p > top_index {
                    assert(descends(top_index as int, (p - 1) / 2));
                    assert((p - 1) / 2 >= top_index);
                    assert(heap_edge(comp, vb, f, p));
                    if sib < len {
                        assert(!comp_lt(comp, vb[f + (p - 1) / 2], vb[f + p]) && !comp_lt(
                            comp,
                            vb[f + p],
                            vb[f + sib],
                        ));
                    }
                }
            }
        }
    }
    let ghost vb = v@;
    let ghost h = hole_index as int;
    proof {
        assert(push_up(comp, vb, f, h, top_index as int, value) == vb.update(f + h, value));
    }
    v[first + hole_index as usize] = value;
    proof {
        if pre {
            assert forall|e: int| 1 <= e < len && (e - 1) / 2 >= top_index implies #[trigger] heap_edge(
                comp,
                v@,
                f,
                e,
            ) by {
                if e == h {
                    assert(h > top_index);
                } else if (e - 1) / 2 == h {
                    assert(e == 2 * h + 1 || e == 2 * h + 2);
                } else {
                    assert(heap_edge(comp, vb, f, e));
                }
            }
        }
    }
}

} // verus!
