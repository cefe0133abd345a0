//! A binary max-heap of variables ordered by an activity key, with a position
//! index so that a variable's key can be changed in place.
//!
//! Keys are `u64` values compared as integers; a caller that scores variables
//! by non-negative floating-point activities passes their bit patterns, which
//! order the same way.
use vstd::prelude::*;
use crate::lit::{Var, MAX_VARS};

verus! {

/// The position value of a variable that is not in the heap.
pub const NOT_IN_HEAP: u32 = 0xffff_ffffu32;

pub open spec fn parent(j: int) -> int {
    (j - 1) / 2
}

/// Entry `j` has a key no larger than its parent's.
pub open spec fn le_parent(keys: Seq<u64>, a: Seq<Var>, j: int) -> bool {
    keys[a[j] as int] <= keys[a[parent(j)] as int]
}

pub open spec fn heap_ordered(keys: Seq<u64>, a: Seq<Var>) -> bool {
    forall|j: int| 1 <= j < a.len() ==> #[trigger] le_parent(keys, a, j)
}

/// The array that moving the entry at `i` down gives: while a child has a
/// larger key, the entry trades places with its child of larger key (the
/// left one when the two are equal).
pub open spec fn sift_down_spec(keys: Seq<u64>, a: Seq<Var>, i: int) -> Seq<Var>
    decreases a.len() - i,
{
    let l = 2 * i + 1;
    let r = l + 1;
    if i < 0 || l >= a.len() {
        a
    } else {
        let c = if r < a.len() && keys[a[r] as int] > keys[a[l] as int] {
            r
        } else {
            l
        };
        if keys[a[c] as int] <= keys[a[i] as int] {
            a
        } else {
            sift_down_spec(keys, a.update(i, a[c]).update(c, a[i]), c)
        }
    }
}

/// The array that moving the entry at `i` up gives: while its parent has a
/// smaller key, the entry trades places with its parent.
pub open spec fn sift_up_spec(keys: Seq<u64>, a: Seq<Var>, i: int) -> Seq<Var>
    decreases i,
{
    if i <= 0 {
        a
    } else {
        let p = parent(i);
        if keys[a[i] as int] <= keys[a[p] as int] {
            a
        } else {
            sift_up_spec(keys, a.update(i, a[p]).update(p, a[i]), p)
        }
    }
}

pub struct VarHeap {
    activity: Vec<u64>,
    heap: Vec<Var>,
    heap_pos: Vec<u32>,
}

impl VarHeap {
    /// Number of variables the heap was made for.
    pub closed spec fn num_vars(&self) -> nat {
        self.activity@.len()
    }

    pub proof fn lemma_keys_len(&self)
        ensures
            self.keys().len() == self.num_vars(),
    {
    }

    /// The activity key of every variable.
    pub closed spec fn keys(&self) -> Seq<u64> {
        self.activity@
    }

    /// The variables currently in the heap.
    pub closed spec fn contents(&self) -> Set<Var> {
        Set::new(|v: Var| v < self.heap_pos@.len() && self.heap_pos@[v as int] != NOT_IN_HEAP)
    }

    /// The heap array, root first.
    pub closed spec fn order(&self) -> Seq<Var> {
        self.heap@
    }

    /// The index structure without the ordering: positions and array agree,
    /// except that the array slot `hole` may hold anything and the variable
    /// `x` (meant for that slot) may have a stale position.
    spec fn indexed_except(&self, hole: int, x: int) -> bool {
        let n = self.activity@.len();
        &&& n <= MAX_VARS
        &&& self.heap_pos@.len() == n
        &&& self.heap@.len() <= n
        &&& forall|j: int|
            0 <= j < self.heap@.len() && j != hole ==> (#[trigger] self.heap@[j]) < n
                && self.heap_pos@[self.heap@[j] as int] == j && self.heap@[j] != x
        &&& forall|v: int|
            0 <= v < n && v != x && #[trigger] self.heap_pos@[v] != NOT_IN_HEAP ==> self.heap_pos@[v]
                < self.heap@.len() && self.heap_pos@[v] != hole && self.heap@[self.heap_pos@[v] as int]
                == v
    }

    pub closed spec fn wf(&self) -> bool {
        &&& self.indexed_except(-1, -1)
        &&& heap_ordered(self.activity@, self.heap@)
    }

    /// An empty heap over `n` variables, all with key zero.
    pub fn new(n: u32) -> (h: Self)
        requires
            n <= MAX_VARS,
        ensures
            h.wf(),
            h.num_vars() == n,
            h.contents() == Set::<Var>::empty(),
            forall|v: int| 0 <= v < n ==> #[trigger] h.keys()[v] == 0,
    {
        let mut activity: Vec<u64> = Vec::new();
        let mut heap_pos: Vec<u32> = Vec::new();
        let mut i: u32 = 0;
        while i < n
            invariant
                i <= n,
                activity@.len() == i,
                heap_pos@.len() == i,
                forall|v: int| 0 <= v < i ==> #[trigger] activity@[v] == 0,
                forall|v: int| 0 <= v < i ==> #[trigger] heap_pos@[v] == NOT_IN_HEAP,
            decreases n - i,
        {
            activity.push(0);
            heap_pos.push(NOT_IN_HEAP);
            i = i + 1;
        }
        let h = VarHeap { activity, heap: Vec::new(), heap_pos };
        assert(h.contents() =~= Set::<Var>::empty());
        h
    }

    /// The number of variables in the heap.
    pub fn len(&self) -> (r: usize)
        requires
            self.wf(),
        ensures
            r == self.contents().len(),
    {
        proof {
            self.lemma_contents();
        }
        self.heap.len()
    }

    pub fn is_empty(&self) -> (r: bool)
        requires
            self.wf(),
        ensures
            r == (self.contents() == Set::<Var>::empty()),
    {
        proof {
            self.lemma_contents();
            if self.heap@.len() > 0 {
                assert(self.contents().contains(self.heap@[0]));
            } else {
                assert(self.contents() =~= Set::<Var>::empty());
            }
        }
        self.heap.len() == 0
    }

    pub fn contains(&self, v: Var) -> (r: bool)
        requires
            self.wf(),
            v < self.num_vars(),
        ensures
            r == self.contents().contains(v),
    {
        self.heap_pos[v as usize] != NOT_IN_HEAP
    }

    pub fn activity(&self, v: Var) -> (k: u64)
        requires
            self.wf(),
            v < self.num_vars(),
        ensures
            k == self.keys()[v as int],
    {
        self.activity[v as usize]
    }

    /// The contents are exactly the variables listed in the heap array,
    /// each once.
    pub proof fn lemma_contents(&self)
        requires
            self.wf(),
        ensures
            self.contents() == self.order().to_set(),
            self.order().no_duplicates(),
            self.contents().finite(),
            self.contents().len() == self.order().len(),
            forall|v: Var| #[trigger] self.contents().contains(v) ==> v < self.num_vars(),
    {
        assert forall|v: Var| self.contents().contains(v) implies self.heap@.to_set().contains(v) by {
            assert(self.heap@[self.heap_pos@[v as int] as int] == v);
        }
        assert forall|v: Var| self.heap@.to_set().contains(v) implies self.contents().contains(v) by {
            let j = choose|j: int| 0 <= j < self.heap@.len() && self.heap@[j] == v;
            assert(self.heap_pos@[self.heap@[j] as int] == j);
        }
        assert(self.contents() =~= self.heap@.to_set());
        assert forall|i: int, j: int|
            0 <= i < self.heap@.len() && 0 <= j < self.heap@.len() && i != j implies self.heap@[i]
            != self.heap@[j] by {
            assert(self.heap_pos@[self.heap@[i] as int] == i);
            assert(self.heap_pos@[self.heap@[j] as int] == j);
        }
        self.heap@.unique_seq_to_set();
    }

    /// A variable outside the heap leaves room for it.
    proof fn lemma_len_below(&self, v: Var)
        requires
            self.wf(),
            v < self.num_vars(),
            !self.contents().contains(v),
        ensures
            self.heap@.len() < self.num_vars(),
    {
        let a = self.heap@.map_values(|w: Var| w as int);
        assert forall|i: int, j: int| 0 <= i < a.len() && 0 <= j < a.len() && i != j implies a[i]
            != a[j] by {
            assert(self.heap_pos@[self.heap@[i] as int] == i);
            assert(self.heap_pos@[self.heap@[j] as int] == j);
        }
        a.unique_seq_to_set();
        let r = vstd::set_lib::set_int_range(0, self.num_vars() as int).remove(v as int);
        vstd::set_lib::lemma_int_range(0, self.num_vars() as int);
        assert forall|w: int| a.to_set().contains(w) implies r.contains(w) by {
            let j = choose|j: int| 0 <= j < a.len() && a[j] == w;
            assert(self.heap_pos@[self.heap@[j] as int] == j);
            assert(self.contents().contains(self.heap@[j]));
        }
        vstd::set_lib::lemma_len_subset(a.to_set(), r);
    }

    /// In an ordered heap array, every entry's key is at most the root's.
    proof fn lemma_root_max(keys: Seq<u64>, a: Seq<Var>, j: int)
        requires
            heap_ordered(keys, a),
            0 <= j < a.len(),
        ensures
            keys[a[j] as int] <= keys[a[0] as int],
        decreases j,
    {
        if j > 0 {
            assert(le_parent(keys, a, j));
            Self::lemma_root_max(keys, a, parent(j));
        }
    }

    /// Moves the entry at `i` towards the root until its parent's key is at
    /// least its own.  Every other parent/child pair must already be ordered,
    /// and the children of `i` must be no larger than the parent of `i`.
    fn sift_up(&mut self, i: usize)
        requires
            i < old(self).heap@.len(),
            old(self).indexed_except(-1, -1),
            forall|j: int|
                1 <= j < old(self).heap@.len() && j != i ==> #[trigger] le_parent(
                    old(self).activity@,
                    old(self).heap@,
                    j,
                ),
            i > 0 ==> forall|j: int|
                1 <= j < old(self).heap@.len() && parent(j) == i ==> #[trigger] old(
                    self,
                ).activity@[old(self).heap@[j] as int] <= old(self).activity@[old(
                    self,
                ).heap@[parent(i as int)] as int],
        ensures
            final(self).wf(),
            final(self).activity@ == old(self).activity@,
            final(self).heap@.len() == old(self).heap@.len(),
            final(self).contents() == old(self).contents(),
            i == 0 || le_parent(old(self).activity@, old(self).heap@, i as int) ==> final(self).heap@
                == old(self).heap@,
            final(self).heap@ == sift_up_spec(old(self).activity@, old(self).heap@, i as int),
    {
        let x = self.heap[i];
        if i == 0 || self.activity[x as usize] <= self.activity[self.heap[(i - 1) / 2] as usize] {
            proof {
                assert forall|j: int| 1 <= j < self.heap@.len() implies #[trigger] le_parent(
                    self.activity@,
                    self.heap@,
                    j,
                ) by {}
                assert(self.contents() =~= old(self).contents());
            }
            return;
        }
        let ghost i0 = i as int;
        let mut i = i;
        proof {
            assert(self.heap@.update(i as int, x) =~= self.heap@);
        }
        while i > 0
            invariant
                i < self.heap@.len(),
                self.heap@.len() == old(self).heap@.len(),
                self.activity@ == old(self).activity@,
                self.heap_pos@.len() == old(self).heap_pos@.len(),
                (x as int) < self.activity@.len(),
                self.indexed_except(i as int, x as int),
                self.heap_pos@[x as int] != NOT_IN_HEAP,
                forall|v: int|
                    0 <= v < self.activity@.len() ==> (#[trigger] self.heap_pos@[v] == NOT_IN_HEAP) == (
                    old(self).heap_pos@[v] == NOT_IN_HEAP),
                forall|j: int|
                    1 <= j < self.heap@.len() && j != i ==> #[trigger] le_parent(
                        self.activity@,
                        self.heap@.update(i as int, x),
                        j,
                    ),
                i > 0 ==> forall|j: int|
                    1 <= j < self.heap@.len() && parent(j) == i ==> #[trigger] self.activity@[self.heap@[j] as int]
                        <= self.activity@[self.heap@[parent(i as int)] as int],
                sift_up_spec(old(self).activity@, old(self).heap@, i0) == sift_up_spec(
                    self.activity@,
                    self.heap@.update(i as int, x),
                    i as int,
                ),
            ensures
                i == 0 || self.activity@[x as int] <= self.activity@[self.heap@[parent(i as int)] as int],
                sift_up_spec(old(self).activity@, old(self).heap@, i0) == self.heap@.update(i as int, x),
            decreases i,
        {
            let p = (i - 1) / 2;
            if self.activity[x as usize] <= self.activity[self.heap[p] as usize] {
                break;
            }
            let hp = self.heap[p];
            let ghost a = self.heap@.update(i as int, x);
            self.heap.set(i, hp);
            self.heap_pos.set(hp as usize, i as u32);
            proof {
                let b = self.heap@.update(p as int, x);
                assert(b =~= a.update(i as int, hp).update(p as int, x));
                assert(b =~= a.update(i as int, a[p as int]).update(p as int, a[i as int]));
                assert forall|j: int| 1 <= j < b.len() && j != p implies #[trigger] le_parent(
                    self.activity@,
                    b,
                    j,
                ) by {
                    if j == i {
                    } else if parent(j) == i {
                        assert(self.heap@[j] == old(self).heap@[j] || true);
                    } else if parent(j) == p {
                        assert(le_parent(self.activity@, a, j));
                    } else {
                        assert(le_parent(self.activity@, a, j));
                    }
                }
                if p > 0 {
                    assert forall|j: int|
                        1 <= j < self.heap@.len() && parent(j) == p implies #[trigger] self.activity@[self.heap@[j] as int]
                        <= self.activity@[self.heap@[parent(p as int)] as int] by {
                        assert(le_parent(self.activity@, a, p as int));
                        if j != i {
                            assert(le_parent(self.activity@, a, j));
                        }
                    }
                }
            }
            i = p;
        }
        let ghost a = self.heap@.update(i as int, x);
        self.heap.set(i, x);
        self.heap_pos.set(x as usize, i as u32);
        proof {
            assert(self.heap@ =~= a);
            assert forall|j: int| 1 <= j < self.heap@.len() implies #[trigger] le_parent(
                self.activity@,
                self.heap@,
                j,
            ) by {
                if j != i {
                    assert(le_parent(self.activity@, a, j));
                }
            }
            assert(self.contents() =~= old(self).contents());
        }
    }

    /// Moves the entry at `i` away from the root, swapping it with its larger
    /// child, until no child has a larger key.  Every parent/child pair whose
    /// parent is not `i` must already be ordered, and the children of `i`
    /// must be no larger than the parent of `i`.
    fn sift_down(&mut self, i: usize)
        requires
            i < old(self).heap@.len(),
            old(self).indexed_except(-1, -1),
            forall|j: int|
                1 <= j < old(self).heap@.len() && parent(j) != i ==> #[trigger] le_parent(
                    old(self).activity@,
                    old(self).heap@,
                    j,
                ),
            i > 0 ==> forall|j: int|
                1 <= j < old(self).heap@.len() && parent(j) == i ==> #[trigger] old(
                    self,
                ).activity@[old(self).heap@[j] as int] <= old(self).activity@[old(
                    self,
                ).heap@[parent(i as int)] as int],
        ensures
            final(self).wf(),
            final(self).activity@ == old(self).activity@,
            final(self).heap@.len() == old(self).heap@.len(),
            final(self).contents() == old(self).contents(),
            final(self).heap@ == sift_down_spec(old(self).activity@, old(self).heap@, i as int),
    {
        let x = self.heap[i];
        let n = self.heap.len();
        let ghost i0 = i as int;
        let mut i = i;
        proof {
            assert(self.heap@.update(i as int, x) =~= self.heap@);
        }
        loop
            invariant
                i < self.heap@.len(),
                n == self.heap@.len(),
                self.heap@.len() == old(self).heap@.len(),
                self.activity@ == old(self).activity@,
                self.heap_pos@.len() == old(self).heap_pos@.len(),
                (x as int) < self.activity@.len(),
                self.indexed_except(i as int, x as int),
                self.heap_pos@[x as int] != NOT_IN_HEAP,
                forall|v: int|
                    0 <= v < self.activity@.len() ==> (#[trigger] self.heap_pos@[v] == NOT_IN_HEAP) == (
                    old(self).heap_pos@[v] == NOT_IN_HEAP),
                forall|j: int|
                    1 <= j < self.heap@.len() && parent(j) != i ==> #[trigger] le_parent(
                        self.activity@,
                        self.heap@.update(i as int, x),
                        j,
                    ),
                i > 0 ==> forall|j: int|
                    1 <= j < self.heap@.len() && parent(j) == i ==> #[trigger] self.activity@[self.heap@[j] as int]
                        <= self.activity@[self.heap@[parent(i as int)] as int],
                sift_down_spec(old(self).activity@, old(self).heap@, i0) == sift_down_spec(
                    self.activity@,
                    self.heap@.update(i as int, x),
                    i as int,
                ),
            ensures
                forall|j: int|
                    1 <= j < self.heap@.len() && parent(j) == i ==> #[trigger] self.activity@[self.heap@[j] as int]
                        <= self.activity@[x as int],
                sift_down_spec(old(self).activity@, old(self).heap@, i0) == self.heap@.update(i as int, x),
            decreases n - i,
        {
            let l = 2 * i + 1;
            if l >= n {
                break;
            }
            let r = l + 1;
            let child = if r < n && self.activity[self.heap[r] as usize] > self.activity[self.heap[l] as usize] {
                r
            } else {
                l
            };
            if self.activity[self.heap[child] as usize] <= self.activity[x as usize] {
                proof {
                    assert forall|j: int|
                        1 <= j < self.heap@.len() && parent(j) == i implies #[trigger] self.activity@[self.heap@[j] as int]
                        <= self.activity@[x as int] by {
                        assert(j == l || j == r);
                    }
                }
                break;
            }
            let hc = self.heap[child];
            let ghost a = self.heap@.update(i as int, x);
            self.heap.set(i, hc);
            self.heap_pos.set(hc as usize, i as u32);
            proof {
                let b = self.heap@.update(child as int, x);
                assert(b =~= a.update(i as int, hc).update(child as int, x));
                assert(a[l as int] == self.heap@[l as int] || l == i);
                assert(b =~= a.update(i as int, a[child as int]).update(child as int, a[i as int]));
                assert forall|j: int| 1 <= j < b.len() && parent(j) != child implies #[trigger] le_parent(
                    self.activity@,
                    b,
                    j,
                ) by {
                    if j == i {
                    } else if j == child {
                    } else if parent(j) == i {
                        assert(j == l || j == r);
                    } else {
                        assert(le_parent(self.activity@, a, j));
                    }
                }
                assert forall|j: int|
                    1 <= j < self.heap@.len() && parent(j) == child implies #[trigger] self.activity@[self.heap@[j] as int]
                    <= self.activity@[self.heap@[parent(child as int)] as int] by {
                    assert(le_parent(self.activity@, a, j));
                }
            }
            i = child;
        }
        let ghost a = self.heap@.update(i as int, x);
        self.heap.set(i, x);
        self.heap_pos.set(x as usize, i as u32);
        proof {
            assert(self.heap@ =~= a);
            assert forall|j: int| 1 <= j < self.heap@.len() implies #[trigger] le_parent(
                self.activity@,
                self.heap@,
                j,
            ) by {
                if parent(j) != i {
                    assert(le_parent(self.activity@, a, j));
                }
            }
            assert(self.contents() =~= old(self).contents());
        }
    }

    /// Adds `v` to the heap; a variable already in the heap stays where it is.
    pub fn insert(&mut self, v: Var)
        requires
            old(self).wf(),
            v < old(self).num_vars(),
        ensures
            final(self).wf(),
            final(self).num_vars() == old(self).num_vars(),
            final(self).keys() == old(self).keys(),
            final(self).contents() == old(self).contents().insert(v),
            old(self).contents().contains(v) ==> final(self).order() == old(self).order(),
            !old(self).contents().contains(v) && (forall|w: Var| #[trigger] old(self).contents().contains(w)
                ==> old(self).keys()[v as int] <= old(self).keys()[w as int]) ==> final(self).order()
                == old(self).order().push(v),
            !old(self).contents().contains(v) ==> final(self).order() == sift_up_spec(
                old(self).keys(),
                old(self).order().push(v),
                old(self).order().len() as int,
            ),
    {
        if self.heap_pos[v as usize] != NOT_IN_HEAP {
            proof {
                assert(old(self).contents().insert(v) =~= old(self).contents());
            }
            return;
        }
        let i = self.heap.len();
        proof {
            self.lemma_len_below(v);
        }
        self.heap.push(v);
        self.heap_pos.set(v as usize, i as u32);
        proof {
            assert forall|j: int|
                1 <= j < self.heap@.len() && j != i implies #[trigger] le_parent(
                self.activity@,
                self.heap@,
                j,
            ) by {
                assert(le_parent(old(self).activity@, old(self).heap@, j));
            }
            if i > 0 && forall|w: Var| #[trigger] old(self).contents().contains(w) ==> old(self).keys()[v as int]
                <= old(self).keys()[w as int] {
                let w = self.heap@[parent(i as int)];
                assert(old(self).heap@[parent(i as int)] == w);
                assert(old(self).contents().contains(w));
                assert(le_parent(self.activity@, self.heap@, i as int));
            }
            assert(self.heap@ == old(self).heap@.push(v));
        }
        self.sift_up(i);
        proof {
            assert(self.contents() =~= old(self).contents().insert(v));
        }
    }

    /// Removes and returns the variable at the root, one with the largest key;
    /// `None` when the heap is empty.
    pub fn remove_top(&mut self) -> (r: Option<Var>)
        requires
            old(self).wf(),
        ensures
            final(self).wf(),
            final(self).num_vars() == old(self).num_vars(),
            final(self).keys() == old(self).keys(),
            r is None <==> old(self).contents() == Set::<Var>::empty(),
            r is None ==> final(self).contents() == old(self).contents(),
            r matches Some(x) ==> {
                &&& old(self).order().len() > 0
                &&& x == old(self).order()[0]
                &&& old(self).contents().contains(x)
                &&& final(self).contents() == old(self).contents().remove(x)
                &&& final(self).order() == if old(self).order().len() == 1 {
                    Seq::<Var>::empty()
                } else {
                    sift_down_spec(
                        old(self).keys(),
                        old(self).order().update(0, old(self).order().last()).drop_last(),
                        0,
                    )
                }
                &&& forall|w: Var| #[trigger]
                    old(self).contents().contains(w) ==> old(self).keys()[w as int]
                        <= old(self).keys()[x as int]
            },
    {
        proof {
            self.lemma_contents();
        }
        if self.heap.len() == 0 {
            proof {
                assert(self.contents() =~= Set::<Var>::empty());
            }
            return None;
        }
        proof {
            assert(self.contents().contains(self.heap@[0]));
            assert forall|w: Var| #[trigger] self.contents().contains(w) implies self.activity@[w as int]
                <= self.activity@[self.heap@[0] as int] by {
                Self::lemma_root_max(self.activity@, self.heap@, self.heap_pos@[w as int] as int);
            }
        }
        let x = self.heap[0];
        self.heap_pos.set(x as usize, NOT_IN_HEAP);
        let last = self.heap.len() - 1;
        if last > 0 {
            let y = self.heap[last];
            self.heap.set(0, y);
            self.heap_pos.set(y as usize, 0);
            self.heap.pop();
            proof {
                assert forall|j: int|
                    1 <= j < self.heap@.len() && parent(j) != 0 implies #[trigger] le_parent(
                    self.activity@,
                    self.heap@,
                    j,
                ) by {
                    assert(le_parent(old(self).activity@, old(self).heap@, j));
                }
            }
            self.sift_down(0);
        } else {
            self.heap.pop();
        }
        proof {
            assert(self.contents() =~= old(self).contents().remove(x));
        }
        Some(x)
    }

    /// Gives `v` the key `key` and restores the heap order.
    pub fn set_activity(&mut self, v: Var, key: u64)
        requires
            old(self).wf(),
            v < old(self).num_vars(),
        ensures
            final(self).wf(),
            final(self).num_vars() == old(self).num_vars(),
            final(self).keys() == old(self).keys().update(v as int, key),
            final(self).contents() == old(self).contents(),
            !old(self).contents().contains(v) ==> final(self).order() == old(self).order(),
            forall|j: int|
                0 <= j < old(self).order().len() && old(self).order()[j] == v ==> final(self).order() == if key
                    >= old(self).keys()[v as int] {
                    sift_up_spec(final(self).keys(), old(self).order(), j)
                } else {
                    sift_down_spec(final(self).keys(), old(self).order(), j)
                },
    {
        let old_key = self.activity[v as usize];
        self.activity.set(v as usize, key);
        let pos = self.heap_pos[v as usize];
        if pos == NOT_IN_HEAP {
            proof {
                assert forall|j: int| 1 <= j < self.heap@.len() implies #[trigger] le_parent(
                    self.activity@,
                    self.heap@,
                    j,
                ) by {
                    assert(le_parent(old(self).activity@, old(self).heap@, j));
                }
                assert(self.contents() =~= old(self).contents());
            }
            return;
        }
        let i = pos as usize;
        proof {
            assert forall|j: int| 1 <= j < self.heap@.len() && j != i && parent(j) != i implies #[trigger] le_parent(
                self.activity@,
                self.heap@,
                j,
            ) by {
                assert(le_parent(old(self).activity@, old(self).heap@, j));
            }
            if i > 0 {
                assert forall|j: int|
                    1 <= j < self.heap@.len() && parent(j) == i implies #[trigger] self.activity@[self.heap@[j] as int]
                    <= self.activity@[self.heap@[parent(i as int)] as int] by {
                    assert(le_parent(old(self).activity@, old(self).heap@, j));
                    assert(le_parent(old(self).activity@, old(self).heap@, i as int));
                }
            }
        }
        if key >= old_key {
            proof {
                assert forall|j: int| 1 <= j < self.heap@.len() && j != i implies #[trigger] le_parent(
                    self.activity@,
                    self.heap@,
                    j,
                ) by {
                    assert(le_parent(old(self).activity@, old(self).heap@, j));
                }
            }
            self.sift_up(i);
        } else {
            proof {
                assert forall|j: int| 1 <= j < self.heap@.len() && parent(j) != i implies #[trigger] le_parent(
                    self.activity@,
                    self.heap@,
                    j,
                ) by {
                    assert(le_parent(old(self).activity@, old(self).heap@, j));
                }
            }
            self.sift_down(i);
        }
    }

    /// Whether the heap array is ordered by the current keys.
    fn is_ordered(&self) -> (r: bool)
        requires
            self.indexed_except(-1, -1),
        ensures
            r == heap_ordered(self.activity@, self.heap@),
    {
        let n = self.heap.len();
        let mut j: usize = 1;
        while j < n
            invariant
                1 <= j,
                n == self.heap@.len(),
                self.indexed_except(-1, -1),
                forall|k: int| 1 <= k < j && k < n ==> #[trigger] le_parent(self.activity@, self.heap@, k),
            decreases n - j,
        {
            if self.activity[self.heap[j] as usize] > self.activity[self.heap[(j - 1) / 2] as usize] {
                assert(!le_parent(self.activity@, self.heap@, j as int));
                return false;
            }
            j = j + 1;
        }
        true
    }

    /// Replaces every key.  When the new keys order the heap array as the old
    /// ones did (as scaling all keys by the same factor does), the array is
    /// kept as it is; otherwise the heap is rebuilt from its variables.
    pub fn rekey(&mut self, keys: Vec<u64>)
        requires
            old(self).wf(),
            keys@.len() == old(self).num_vars(),
        ensures
            final(self).wf(),
            final(self).num_vars() == old(self).num_vars(),
            final(self).keys() == keys@,
            final(self).contents() == old(self).contents(),
            heap_ordered(keys@, old(self).order()) ==> final(self).order() == old(self).order(),
    {
        self.activity = keys;
        if self.is_ordered() {
            proof {
                assert(self.contents() =~= old(self).contents());
            }
            return;
        }
        let vars = self.heap.clone();
        let mut k: usize = 0;
        while k < vars.len()
            invariant
                vars@ == old(self).heap@,
                k <= vars@.len(),
                self.activity@ == keys@,
                self.heap@ == old(self).heap@,
                self.heap_pos@.len() == old(self).heap_pos@.len(),
                forall|j: int| 0 <= j < k ==> #[trigger] self.heap_pos@[vars@[j] as int] == NOT_IN_HEAP,
                forall|v: int|
                    0 <= v < self.heap_pos@.len() && #[trigger] self.heap_pos@[v] != NOT_IN_HEAP ==> self.heap_pos@[v]
                        == old(self).heap_pos@[v],
                forall|j: int| k <= j < vars@.len() ==> #[trigger] self.heap_pos@[vars@[j] as int] == j,
                old(self).indexed_except(-1, -1),
            decreases vars@.len() - k,
        {
            self.heap_pos.set(vars[k] as usize, NOT_IN_HEAP);
            k = k + 1;
        }
        self.heap = Vec::new();
        proof {
            assert forall|v: int|
                0 <= v < self.heap_pos@.len() implies #[trigger] self.heap_pos@[v] == NOT_IN_HEAP by {
                if self.heap_pos@[v] != NOT_IN_HEAP {
                    let p = old(self).heap_pos@[v] as int;
                    assert(vars@[p] == v);
                }
            }
            assert(self.contents() =~= Set::<Var>::empty());
        }
        let mut k: usize = 0;
        while k < vars.len()
            invariant
                vars@ == old(self).heap@,
                k <= vars@.len(),
                self.wf(),
                self.activity@ == keys@,
                self.num_vars() == old(self).num_vars(),
                self.contents() == vars@.subrange(0, k as int).to_set(),
                old(self).indexed_except(-1, -1),
            decreases vars@.len() - k,
        {
            self.insert(vars[k]);
            proof {
                assert(vars@.subrange(0, k + 1) =~= vars@.subrange(0, k as int).push(vars@[k as int]));
                broadcast use vstd::seq_lib::group_seq_properties;
                assert(vars@.subrange(0, k + 1).to_set() =~= vars@.subrange(0, k as int).to_set().insert(vars@[k as int]));
            }
            k = k + 1;
        }
        proof {
            old(self).lemma_contents();
            assert(vars@.subrange(0, vars@.len() as int) =~= vars@);
        }
    }
}

} // verus!
