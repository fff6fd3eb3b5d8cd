//! A priority queue: a binary max-heap in a vector, ordered by a
//! comparator that the caller supplies or by the order of the items.
//!
//! The heap is modelled by the multiset of its items. The comparator is
//! any function object that accepts every pair of items. What the heap
//! promises of the order of its items, it promises for every strict weak
//! order that the comparator decides: the contracts never ask which answer
//! the comparator can give, only what follows from one it gave.
use vstd::prelude::*;
use vstd::multiset::Multiset;
use vstd::seq_lib::group_to_multiset_ensures;
use vstd::std_specs::cmp::OrdSpec;
use vstd::laws_cmp::obeys_cmp;
use vstd::laws_cmp::obeys_cmp_ord;
use vstd::laws_cmp::obeys_cmp_partial_ord;
use vstd::laws_cmp::obeys_partial_cmp_spec_properties;
use vstd::laws_eq::obeys_eq_spec_properties;
use vstd::std_specs::cmp::PartialEqSpec;
use vstd::std_specs::cmp::PartialOrdSpec;
use std::cmp::Ordering;

verus! {

/// The index `i` as an integer.
spec fn at(i: usize) -> int {
    i as int
}

/// `s` with the items at `i` and `j` exchanged.
spec fn swapped<T>(s: Seq<T>, i: int, j: int) -> Seq<T> {
    s.update(i, s[j]).update(j, s[i])
}

/// Exchanging two items changes nothing in what a sequence holds.
proof fn lemma_swapped_holds_the_same<T>(s: Seq<T>, i: int, j: int)
    requires
        0 <= i < s.len(),
        0 <= j < s.len(),
    ensures
        swapped(s, i, j).to_multiset() == s.to_multiset(),
{
    broadcast use group_to_multiset_ensures;

    let mid = s.update(i, s[j]);
    assert(mid.to_multiset() == s.to_multiset().insert(s[j]).remove(s[i]));
    assert(swapped(s, i, j).to_multiset() == mid.to_multiset().insert(s[i]).remove(mid[j]));
    assert(s.to_multiset().count(s[i]) > 0) by {
        assert(s.contains(s[i]));
    }
    assert(s.to_multiset().count(s[j]) > 0) by {
        assert(s.contains(s[j]));
    }
    assert(swapped(s, i, j).to_multiset() =~= s.to_multiset());
}

/// An empty sequence holds nothing.
proof fn lemma_empty_holds_nothing<T>()
    ensures
        Seq::<T>::empty().to_multiset() == Multiset::<T>::empty(),
{
    broadcast use group_to_multiset_ensures;

    let s = Seq::<T>::empty();
    assert forall|v: T| s.to_multiset().count(v) == 0 by {
        assert(!s.contains(v));
    }
    assert(s.to_multiset() =~= Multiset::<T>::empty());
}

/// The comparator may be asked about every pair of items.
pub open spec fn accepts_every_pair<T, I: Fn(&T, &T) -> Ordering>(comparator: I) -> bool {
    forall|a: T, b: T| #[trigger] call_requires(comparator, (&a, &b))
}

/// The comparator decides the relation `less`: whatever it answers for
/// `a` against `b`, the answer is `Less` exactly where `less(a, b)`.
pub open spec fn decides<T, I: Fn(&T, &T) -> Ordering>(
    comparator: I,
    less: spec_fn(T, T) -> bool,
) -> bool {
    forall|a: T, b: T, o: Ordering| #[trigger]
        call_ensures(comparator, (&a, &b), o) ==> (o == Ordering::Less) == less(a, b)
}

/// `less` is a strict weak order: of two items at most one is less than
/// the other, and where `a` is not less than `b` and `b` not less than `c`,
/// `a` is not less than `c`.
pub open spec fn is_strict_weak_order<T>(less: spec_fn(T, T) -> bool) -> bool {
    &&& forall|a: T, b: T| #[trigger] less(a, b) ==> !less(b, a)
    &&& forall|a: T, b: T, c: T| !#[trigger] less(a, b) && !#[trigger] less(b, c) ==> !less(a, c)
}

/// No item of `s` from the index `lo` on is less than one of its children.
pub open spec fn ordered_from<T>(less: spec_fn(T, T) -> bool, s: Seq<T>, lo: int) -> bool {
    forall|j: int| 1 <= j < s.len() && lo <= (j - 1) / 2 ==> !less(s[(j - 1) / 2], #[trigger] s[j])
}

/// `s` is a heap: no item is less than one of its children.
pub open spec fn heap_ordered<T>(less: spec_fn(T, T) -> bool, s: Seq<T>) -> bool {
    ordered_from(less, s, 0)
}

/// `s` is a heap but for the item at `k`, which may be greater than its
/// parent: every other item is not greater than its parent, and the
/// children of `k` are not greater than the parent of `k`.
spec fn ordered_but_above<T>(less: spec_fn(T, T) -> bool, s: Seq<T>, k: int) -> bool {
    &&& forall|j: int| 1 <= j < s.len() && j != k ==> !less(s[(j - 1) / 2], #[trigger] s[j])
    &&& forall|j: int|
        1 <= j < s.len() && (j - 1) / 2 == k && k >= 1 ==> !less(s[(k - 1) / 2], #[trigger] s[j])
}

/// `s` is a heap from `lo` on but for the item at `k`, which may be less
/// than its children: every other item from `lo` on is not less than its
/// children, and the children of `k` are not greater than the parent of
/// `k`, where `k` lies after `lo`.
spec fn ordered_but_below<T>(
    less: spec_fn(T, T) -> bool,
    s: Seq<T>,
    lo: int,
    k: int,
) -> bool {
    &&& forall|j: int|
        1 <= j < s.len() && lo <= (j - 1) / 2 && (j - 1) / 2 != k ==> !less(
            s[(j - 1) / 2],
            #[trigger] s[j],
        )
    &&& forall|j: int|
        1 <= j < s.len() && (j - 1) / 2 == k && k > lo ==> !less(s[(k - 1) / 2], #[trigger] s[j])
}

/// A strict weak order is transitive.
pub proof fn lemma_less_transitive<T>(less: spec_fn(T, T) -> bool, a: T, b: T, c: T)
    requires
        is_strict_weak_order(less),
        less(a, b),
        less(b, c),
    ensures
        less(a, c),
{
    if !less(a, c) {
        assert(!less(c, b));
        assert(!less(a, b));
    }
}

/// The first item of a heap is a greatest one: it is less than no item.
pub proof fn lemma_root_is_greatest<T>(less: spec_fn(T, T) -> bool, s: Seq<T>, j: int)
    requires
        is_strict_weak_order(less),
        heap_ordered(less, s),
        0 <= j < s.len(),
    ensures
        !less(s[0], s[j]),
    decreases j,
{
    if j > 0 {
        lemma_root_is_greatest(less, s, (j - 1) / 2);
        assert(!less(s[(j - 1) / 2], s[j]));
    }
}

/// One step up: where the item at `k` is greater than its parent,
/// exchanging the two leaves a heap but for the item that is now at the
/// parent's index.
proof fn lemma_step_up<T>(less: spec_fn(T, T) -> bool, s: Seq<T>, k: int)
    requires
        is_strict_weak_order(less),
        1 <= k < s.len(),
        ordered_but_above(less, s, k),
        less(s[(k - 1) / 2], s[k]),
    ensures
        ordered_but_above(less, swapped(s, (k - 1) / 2, k), (k - 1) / 2),
{
    let p = (k - 1) / 2;
    let t = swapped(s, p, k);
    assert(!less(s[k], s[p]));
    assert forall|j: int| 1 <= j < t.len() && j != p implies !less(
        t[(j - 1) / 2],
        #[trigger] t[j],
    ) by {
        if j == k {
        } else if (j - 1) / 2 == k {
            assert(!less(s[(k - 1) / 2], s[j]));
        } else {
            assert(!less(s[(j - 1) / 2], s[j]));
        }
    }
    assert forall|j: int| 1 <= j < t.len() && (j - 1) / 2 == p && p >= 1 implies !less(
        t[(p - 1) / 2],
        #[trigger] t[j],
    ) by {
        assert(!less(s[(p - 1) / 2], s[p]));
        if j != k {
            assert(!less(s[(j - 1) / 2], s[j]));
        }
    }
}

/// One step down: where the item at `k` is less than its child at `m`,
/// and no child of `k` is greater than that one, exchanging the item with
/// the child at `m` leaves a heap from `lo` on but for the item that is now
/// at `m`.
proof fn lemma_step_down<T>(less: spec_fn(T, T) -> bool, s: Seq<T>, lo: int, k: int, m: int)
    requires
        is_strict_weak_order(less),
        0 <= lo <= k,
        m < s.len(),
        m == 2 * k + 1 || m == 2 * k + 2,
        ordered_but_below(less, s, lo, k),
        less(s[k], s[m]),
        forall|j: int| 1 <= j < s.len() && (j - 1) / 2 == k ==> !less(s[m], #[trigger] s[j]),
    ensures
        ordered_but_below(less, swapped(s, k, m), lo, m),
{
    let t = swapped(s, k, m);
    assert(!less(s[m], s[k]));
    assert forall|j: int| 1 <= j < t.len() && lo <= (j - 1) / 2 && (j - 1) / 2 != m implies !less(
        t[(j - 1) / 2],
        #[trigger] t[j],
    ) by {
        if j == m {
        } else if (j - 1) / 2 == k {
            assert(!less(s[m], s[j]));
        } else if j == k {
            assert(!less(s[(k - 1) / 2], s[m]));
        } else {
            assert(!less(s[(j - 1) / 2], s[j]));
        }
    }
    assert forall|j: int| 1 <= j < t.len() && (j - 1) / 2 == m && m > lo implies !less(
        t[(m - 1) / 2],
        #[trigger] t[j],
    ) by {
        assert(!less(s[(j - 1) / 2], s[j]));
    }
}

/// Index of the parent of the node at index `i` of the heap.
fn parent(i: usize) -> (p: usize)
    requires
        i >= 1,
    ensures
        p == (i - 1) / 2,
{
    (i - 1) / 2
}

/// Index of the left child of the node at index `i`.
fn left_child(i: usize) -> (c: usize)
    requires
        2 * i + 1 <= usize::MAX,
    ensures
        c == 2 * i + 1,
{
    i * 2 + 1
}

/// `<[T]>::swap`: exchanges the items at the indices `i` and `j` of the
/// vector and leaves every other item where it is.
#[verifier::external_body]
fn swap_items<T>(data: &mut Vec<T>, i: usize, j: usize)
    requires
        i < old(data)@.len(),
        j < old(data)@.len(),
    ensures
        final(data)@ == swapped(old(data)@, i as int, j as int),
{
    data.swap(i, j);
}

/// A binary max-heap of items of type `T`, ordered by a comparator of
/// type `I`.
pub struct BinaryHeap<T, I> {
    data: Vec<T>,
    comparator: I,
}

impl<T, I> View for BinaryHeap<T, I> {
    type V = Multiset<T>;

    /// What the heap holds.
    closed spec fn view(&self) -> Multiset<T> {
        self.data@.to_multiset()
    }
}

impl<T, I> BinaryHeap<T, I> {
    /// The items in the order in which the vector holds them.
    pub closed spec fn items(&self) -> Seq<T> {
        self.data@
    }

    /// The comparator.
    pub closed spec fn order(&self) -> I {
        self.comparator
    }

    /// The items are heap-ordered under `less`.
    pub open spec fn is_heap_by(&self, less: spec_fn(T, T) -> bool) -> bool {
        heap_ordered(less, self.items())
    }

    /// The heap holds what its vector holds.
    pub proof fn lemma_view(&self)
        ensures
            self@ == self.items().to_multiset(),
            self@.len() == self.items().len(),
    {
        broadcast use group_to_multiset_ensures;

    }

    /// Whether the heap holds nothing.
    pub fn is_empty(&self) -> (b: bool)
        ensures
            b == (self@.len() == 0),
    {
        proof {
            self.lemma_view();
        }
        self.data.is_empty()
    }

    /// The number of items that the heap holds.
    pub fn len(&self) -> (l: usize)
        ensures
            l == self@.len(),
    {
        proof {
            self.lemma_view();
        }
        self.data.len()
    }

    /// Whether `i` is the index of an item.
    fn contains_idx(&self, i: usize) -> (b: bool)
        ensures
            b == (i < self.items().len()),
    {
        i < self.data.len()
    }

    /// An empty heap ordered by `comparator`.
    pub fn with_comparator(comparator: I) -> (heap: BinaryHeap<T, I>) where
        I: Fn(&T, &T) -> Ordering,

        ensures
            heap.order() == comparator,
            heap@ == Multiset::<T>::empty(),
            forall|less: spec_fn(T, T) -> bool| #[trigger] heap.is_heap_by(less),
    {
        proof {
            lemma_empty_holds_nothing::<T>();
        }
        BinaryHeap { data: Vec::new(), comparator }
    }

    /// Whether the comparator answers `Less` for the item at `i` against
    /// the item at `j`.
    fn is_less(&self, i: usize, j: usize) -> (b: bool) where I: Fn(&T, &T) -> Ordering
        requires
            accepts_every_pair(self.order()),
            i < self.items().len(),
            j < self.items().len(),
        ensures
            forall|less: spec_fn(T, T) -> bool| #[trigger]
                decides(self.order(), less) ==> b == less(self.items()[at(i)], self.items()[at(j)]),
    {
        let o = (self.comparator)(&self.data[i], &self.data[j]);
        matches!(o, Ordering::Less)
    }

    /// Moves the item at `i` up until it is not greater than its parent.
    fn sift_up(&mut self, i: usize) where I: Fn(&T, &T) -> Ordering
        requires
            accepts_every_pair(old(self).order()),
            i < old(self).items().len(),
        ensures
            final(self).order() == old(self).order(),
            final(self)@ == old(self)@,
            forall|less: spec_fn(T, T) -> bool|
                #[trigger] decides(old(self).order(), less) && is_strict_weak_order(less)
                    && ordered_but_above(less, old(self).items(), at(i)) ==> heap_ordered(
                    less,
                    final(self).items(),
                ),
    {
        let ghost start = self.items();
        let ghost from = at(i);
        let mut i = i;
        while i != 0
            invariant
                self.order() == old(self).order(),
                accepts_every_pair(self.order()),
                self@ == old(self)@,
                i < self.items().len(),
                forall|less: spec_fn(T, T) -> bool|
                    #[trigger] decides(self.order(), less) && is_strict_weak_order(less)
                        && ordered_but_above(less, start, from) ==> ordered_but_above(
                        less,
                        self.items(),
                        at(i),
                    ),
            ensures
                self.order() == old(self).order(),
                self@ == old(self)@,
                forall|less: spec_fn(T, T) -> bool|
                    #[trigger] decides(self.order(), less) && is_strict_weak_order(less)
                        && ordered_but_above(less, start, from) ==> heap_ordered(
                        less,
                        self.items(),
                    ),
            decreases i,
        {
            let parent_i = parent(i);
            if self.is_less(parent_i, i) {
                proof {
                    let now = self.items();
                    assert forall|less: spec_fn(T, T) -> bool|
                        #[trigger] decides(self.order(), less) && is_strict_weak_order(less)
                            && ordered_but_above(less, start, from) implies ordered_but_above(
                        less,
                        swapped(now, at(parent_i), at(i)),
                        at(parent_i),
                    ) by {
                        lemma_step_up(less, now, at(i));
                    }
                    lemma_swapped_holds_the_same(now, at(parent_i), at(i));
                }
                swap_items(&mut self.data, parent_i, i);
                i = parent_i;
            } else {
                break;
            }
        }
    }

    /// Moves the item at `i` down until it is not less than its children.
    fn sift_down(&mut self, i: usize) where I: Fn(&T, &T) -> Ordering
        requires
            accepts_every_pair(old(self).order()),
        ensures
            final(self).order() == old(self).order(),
            final(self)@ == old(self)@,
            final(self).items().len() == old(self).items().len(),
            forall|less: spec_fn(T, T) -> bool|
                #[trigger] decides(old(self).order(), less) && is_strict_weak_order(less)
                    && ordered_from(less, old(self).items(), at(i) + 1) ==> ordered_from(
                    less,
                    final(self).items(),
                    at(i),
                ),
    {
        let ghost start = self.items();
        let ghost lo = at(i);
        let mut i = i;
        loop
            invariant
                self.order() == old(self).order(),
                accepts_every_pair(self.order()),
                self@ == old(self)@,
                self.items().len() == start.len(),
                0 <= lo <= i,
                forall|less: spec_fn(T, T) -> bool|
                    #[trigger] decides(self.order(), less) && is_strict_weak_order(less)
                        && ordered_from(less, start, lo + 1) ==> ordered_but_below(
                        less,
                        self.items(),
                        lo,
                        at(i),
                    ),
            ensures
                self.order() == old(self).order(),
                self@ == old(self)@,
                self.items().len() == start.len(),
                forall|less: spec_fn(T, T) -> bool|
                    #[trigger] decides(self.order(), less) && is_strict_weak_order(less)
                        && ordered_from(less, start, lo + 1) ==> ordered_from(
                        less,
                        self.items(),
                        lo,
                    ),
            decreases self.items().len() - i,
        {
            if i >= self.data.len() / 2 {
                break;
            }
            let lc_i = left_child(i);
            let left_is_greater = self.is_less(i, lc_i);
            let mut max_idx = if left_is_greater {
                lc_i
            } else {
                i
            };
            let rc_i = lc_i + 1;
            if self.contains_idx(rc_i) && self.is_less(max_idx, rc_i) {
                max_idx = rc_i;
            }
            if max_idx == i {
                break;
            }
            proof {
                let now = self.items();
                assert forall|less: spec_fn(T, T) -> bool|
                    #[trigger] decides(self.order(), less) && is_strict_weak_order(less)
                        && ordered_from(less, start, lo + 1) implies ordered_but_below(
                    less,
                    swapped(now, at(i), at(max_idx)),
                    lo,
                    at(max_idx),
                ) by {
                    if max_idx == rc_i && left_is_greater {
                        lemma_less_transitive(less, now[at(i)], now[at(lc_i)], now[at(rc_i)]);
                    }
                    lemma_step_down(less, now, lo, at(i), at(max_idx));
                }
                lemma_swapped_holds_the_same(now, at(i), at(max_idx));
            }
            swap_items(&mut self.data, i, max_idx);
            i = max_idx;
        }
    }

    /// Makes a heap of the items in whatever order they stand.
    fn build_heap(&mut self) where I: Fn(&T, &T) -> Ordering
        requires
            accepts_every_pair(old(self).order()),
        ensures
            final(self).order() == old(self).order(),
            final(self)@ == old(self)@,
            forall|less: spec_fn(T, T) -> bool|
                #[trigger] decides(old(self).order(), less) && is_strict_weak_order(less)
                    ==> final(self).is_heap_by(less),
    {
        if self.data.len() < 2 {
            return;
        }
        let last_internal = (self.data.len() - 2) / 2;
        let mut i = last_internal + 1;
        while i > 0
            invariant
                self.order() == old(self).order(),
                accepts_every_pair(self.order()),
                self@ == old(self)@,
                self.items().len() == old(self).items().len(),
                forall|less: spec_fn(T, T) -> bool|
                    #[trigger] decides(self.order(), less) && is_strict_weak_order(less)
                        ==> ordered_from(less, self.items(), at(i)),
            decreases i,
        {
            i -= 1;
            self.sift_down(i);
        }
    }

    /// A heap of the items of `data`, ordered by `comparator`.
    pub fn from_with_comparator(data: Vec<T>, comparator: I) -> (heap: BinaryHeap<T, I>) where
        I: Fn(&T, &T) -> Ordering,

        requires
            accepts_every_pair(comparator),
        ensures
            heap.order() == comparator,
            heap@ == data@.to_multiset(),
            forall|less: spec_fn(T, T) -> bool|
                #[trigger] decides(comparator, less) && is_strict_weak_order(less)
                    ==> heap.is_heap_by(less),
    {
        let mut ans = BinaryHeap { data, comparator };
        ans.build_heap();
        ans
    }

    /// Adds `v` to the heap.
    pub fn push(&mut self, v: T) where I: Fn(&T, &T) -> Ordering
        requires
            accepts_every_pair(old(self).order()),
        ensures
            final(self).order() == old(self).order(),
            final(self)@ == old(self)@.insert(v),
            forall|less: spec_fn(T, T) -> bool|
                #[trigger] decides(old(self).order(), less) && is_strict_weak_order(less) && old(
                    self,
                ).is_heap_by(less) ==> final(self).is_heap_by(less),
    {
        broadcast use group_to_multiset_ensures;

        self.data.push(v);
        self.sift_up(self.data.len() - 1);
    }

    /// Takes a greatest item out of the heap: one that is less than no
    /// item of the heap. `None` when the heap is empty.
    pub fn pop(&mut self) -> (item: Option<T>) where I: Fn(&T, &T) -> Ordering
        requires
            accepts_every_pair(old(self).order()),
        ensures
            final(self).order() == old(self).order(),
            match item {
                Some(x) => old(self)@ == final(self)@.insert(x),
                None => old(self)@.len() == 0 && final(self)@ == old(self)@,
            },
            forall|less: spec_fn(T, T) -> bool|
                #[trigger] decides(old(self).order(), less) && is_strict_weak_order(less) && old(
                    self,
                ).is_heap_by(less) ==> {
                    &&& final(self).is_heap_by(less)
                    &&& match item {
                        Some(x) => forall|y: T| old(self)@.contains(y) ==> !less(x, y),
                        None => true,
                    }
                },
    {
        broadcast use group_to_multiset_ensures;

        if self.data.is_empty() {
            return None;
        }
        let ghost before = self.data@;
        let ans = self.data.swap_remove(0);
        proof {
            let moved = before.update(0, before.last());
            assert(self.data@ == moved.drop_last());
            assert(moved.drop_last() == moved.remove(moved.len() - 1));
            assert(before.contains(before[0]));
            assert(before.contains(before.last()));
            assert(before.to_multiset() =~= self.data@.to_multiset().insert(ans));
            assert forall|less: spec_fn(T, T) -> bool|
                #[trigger] decides(self.order(), less) && is_strict_weak_order(less)
                    && heap_ordered(less, before) implies (forall|y: T|
                before.to_multiset().contains(y) ==> !less(ans, y)) && ordered_from(
                less,
                self.data@,
                1,
            ) by {
                assert forall|y: T| before.to_multiset().contains(y) implies !less(ans, y) by {
                    assert(before.contains(y));
                    let j = choose|j: int| 0 <= j < before.len() && before[j] == y;
                    lemma_root_is_greatest(less, before, j);
                }
                assert forall|j: int|
                    1 <= j < self.data@.len() && 1 <= (j - 1) / 2 implies !less(
                    self.data@[(j - 1) / 2],
                    #[trigger] self.data@[j],
                ) by {
                    assert(!less(before[(j - 1) / 2], before[j]));
                }
            }
        }
        self.sift_down(0);
        Some(ans)
    }
}

/// Stands in the place of the comparator's type where a heap that is
/// ordered by the order of its items is asked for by path, as in
/// `BinaryHeap::from(data)`. The heap that is built holds a comparator of
/// its own.
pub struct Natural;

/// The order of the items of type `T`.
pub open spec fn natural_less<T: Ord>() -> spec_fn(T, T) -> bool {
    |a: T, b: T| a.cmp_spec(&b) == Ordering::Less
}

/// An order that keeps the laws of `Ord` is a strict weak order.
pub proof fn lemma_natural_order<T: Ord>()
    requires
        obeys_cmp::<T>(),
    ensures
        is_strict_weak_order(natural_less::<T>()),
{
    reveal(obeys_cmp_ord);
    reveal(obeys_cmp_partial_ord);
    reveal(obeys_partial_cmp_spec_properties);
    reveal(obeys_eq_spec_properties);
    let less = natural_less::<T>();
    assert forall|a: T, b: T| #[trigger] less(a, b) implies !less(b, a) by {
        assert(a.partial_cmp_spec(&b) == Some(a.cmp_spec(&b)));
        assert(b.partial_cmp_spec(&a) == Some(b.cmp_spec(&a)));
    }
    assert forall|a: T, b: T, c: T| !#[trigger] less(a, b) && !#[trigger] less(b, c) implies !less(
        a,
        c,
    ) by {
        assert(a.partial_cmp_spec(&b) == Some(a.cmp_spec(&b)));
        assert(b.partial_cmp_spec(&c) == Some(b.cmp_spec(&c)));
        assert(a.partial_cmp_spec(&c) == Some(a.cmp_spec(&c)));
        assert(c.partial_cmp_spec(&a) == Some(c.cmp_spec(&a)));
        assert(c.partial_cmp_spec(&b) == Some(c.cmp_spec(&b)));
        assert(b.partial_cmp_spec(&a) == Some(b.cmp_spec(&a)));
        if a.cmp_spec(&c) == Ordering::Less {
            assert(c.partial_cmp_spec(&a) == Some(Ordering::Greater));
            if a.cmp_spec(&b) == Ordering::Equal {
                assert(a.eq_spec(&b));
                if b.cmp_spec(&c) == Ordering::Equal {
                    assert(b.eq_spec(&c));
                    assert(a.eq_spec(&c));
                } else {
                    assert(c.partial_cmp_spec(&b) == Some(Ordering::Less));
                    assert(a.partial_cmp_spec(&b) == Some(Ordering::Less));
                }
            } else {
                if b.cmp_spec(&c) == Ordering::Equal {
                    assert(b.eq_spec(&c));
                    assert(c.eq_spec(&b));
                    assert(c.partial_cmp_spec(&b) == Some(Ordering::Greater));
                } else {
                    assert(a.partial_cmp_spec(&c) == Some(Ordering::Greater));
                }
            }
        }
    }
}

impl<T: Ord> BinaryHeap<T, Natural> {
    /// The order of the items, as a comparator.
    pub fn comparator(a: &T, b: &T) -> (o: Ordering)
        ensures
            T::obeys_cmp_spec() ==> o == a.cmp_spec(b),
    {
        a.cmp(b)
    }

    /// A heap of the items of `data`, ordered by the order of the items.
    pub fn from(data: Vec<T>) -> (heap: BinaryHeap<T, impl Fn(&T, &T) -> Ordering>)
        requires
            obeys_cmp::<T>(),
        ensures
            accepts_every_pair(heap.order()),
            decides(heap.order(), natural_less::<T>()),
            heap.is_heap_by(natural_less::<T>()),
            heap@ == data@.to_multiset(),
    {
        proof {
            reveal(obeys_cmp_ord);
            lemma_natural_order::<T>();
            assert(decides(Self::comparator, natural_less::<T>()));
        }
        BinaryHeap::from_with_comparator(data, Self::comparator)
    }

    /// An empty heap, ordered by the order of the items.
    pub fn new() -> (heap: BinaryHeap<T, impl Fn(&T, &T) -> Ordering>)
        requires
            obeys_cmp::<T>(),
        ensures
            accepts_every_pair(heap.order()),
            decides(heap.order(), natural_less::<T>()),
            heap.is_heap_by(natural_less::<T>()),
            heap@ == Multiset::<T>::empty(),
    {
        proof {
            reveal(obeys_cmp_ord);
            assert(decides(Self::comparator, natural_less::<T>()));
        }
        BinaryHeap::with_comparator(Self::comparator)
    }
}

} // verus!
