//! A small, embeddable tracing garbage collector for heap values whose
//! reference graph may contain cycles.
//!
//! The collector ([`GC`]) owns an arena of slots. Each occupied slot is a
//! *block*: a header (mark flag and next-link, kept in dedicated arrays so
//! the mark can be flipped without touching the payload) together with a
//! payload supplied by the host. Blocks are threaded into a singly linked
//! allocation list through their next-links; `head` and `tail` bound the
//! list and a ghost sequence records its order for the proofs.
//!
//! A [`GCObj`] is a copyable, non-owning handle naming one block. Handles
//! never keep a block alive: liveness is decided solely by `mark`, which
//! walks the graph reported by the [`trace::Trace`] tracers from a root
//! set the host supplies, and by `sweep`, which reclaims every unmarked
//! block and clears the marks of the survivors.

use vstd::prelude::*;

pub mod collect;
pub mod trace;

pub use crate::trace::Trace;

use core::marker::PhantomData;
use vstd::pervasive::VecAdditionalExecFns;

verus! {

/// A non-owning handle to one managed block.
///
/// Handles are freely copyable; copying never touches the block. A handle
/// identifies its block by slot index, so two handles denote the same
/// block exactly when their [`id`](GCObj::id)s agree. A handle does not
/// extend the block's lifetime: once a collection reclaims the block, the
/// handle is dangling and the host must not use it again.
pub struct GCObj<T> {
    idx: usize,
    _payload: PhantomData<T>,
}

impl<T> GCObj<T> {
    /// The identity of the block this handle points at.
    pub closed spec fn id(&self) -> usize {
        self.idx
    }
}

impl<T> Clone for GCObj<T> {
    fn clone(&self) -> (other: Self)
        ensures
            other == *self,
    {
        GCObj { idx: self.idx, _payload: PhantomData }
    }
}

impl<T> Copy for GCObj<T> {

}

impl<T: Trace> Trace for GCObj<T> {
    /// A handle's only edge is the block it points at.
    open spec fn edges(&self) -> Seq<usize> {
        seq![self.id()]
    }

    fn trace(&self) -> (out: Vec<usize>) {
        let mut out: Vec<usize> = Vec::new();
        out.push(self.idx);
        proof {
            assert(out@ =~= seq![self.id()]);
        }
        out
    }
}

/// The collector: an arena of slots threaded into a singly linked
/// allocation list.
///
/// `marks`, `nexts` and `datas` are parallel arrays: slot `i`'s header is
/// `(marks[i], nexts[i])` and its payload lives in `datas[i]`. A slot
/// whose payload is `None` is unallocated and listed in `free`; a slot
/// whose payload is `Some` is a block on the allocation list. The ghost
/// `order` holds the list's block identifiers front to back.
pub struct GC<T: Trace> {
    pub(crate) marks: Vec<bool>,
    pub(crate) nexts: Vec<Option<usize>>,
    pub(crate) datas: Vec<Option<T>>,
    pub(crate) head: Option<usize>,
    pub(crate) tail: Option<usize>,
    pub(crate) free: Vec<usize>,
    pub(crate) order: Ghost<Seq<usize>>,
}

impl<T: Trace> GC<T> {
    /// The identifiers of the blocks on the allocation list, front to back.
    pub closed spec fn blocks(&self) -> Seq<usize> {
        self.order@
    }

    /// Whether block `i` is on the allocation list.
    pub open spec fn in_list(&self, i: usize) -> bool {
        self.blocks().contains(i)
    }

    /// The payload of block `i` (meaningful only when `i` is on the list).
    pub closed spec fn data_at(&self, i: usize) -> T {
        self.datas@[i as int].unwrap()
    }

    /// The mark flag of block `i`.
    pub closed spec fn marked_at(&self, i: usize) -> bool {
        self.marks@[i as int]
    }

    /// The next-link of block `i`.
    pub closed spec fn next_of(&self, i: usize) -> Option<usize> {
        self.nexts@[i as int]
    }

    /// The first block of the allocation list, if any.
    pub closed spec fn head_id(&self) -> Option<usize> {
        self.head
    }

    /// The last block of the allocation list, if any.
    pub closed spec fn tail_id(&self) -> Option<usize> {
        self.tail
    }

    /// How many slots the arena holds, allocated or free. This only grows
    /// when `allocate` finds no reclaimed slot to reuse.
    pub closed spec fn slot_count(&self) -> nat {
        self.datas@.len()
    }

    /// Whether slot `i` holds no payload: a reclaimed block's payload has
    /// been destroyed and its slot waits in the free list for reuse.
    pub closed spec fn slot_free(&self, i: usize) -> bool {
        self.datas@[i as int] is None
    }

    /// Mark quiescence: outside an in-progress collection every block on
    /// the list is unmarked.
    pub open spec fn quiescent(&self) -> bool {
        forall|i: usize| self.in_list(i) ==> !(#[trigger] self.marked_at(i))
    }

    /// Every identifier in `es` names a block on the allocation list.
    pub open spec fn valid_edges(&self, es: Seq<usize>) -> bool {
        forall|k: int| 0 <= k < es.len() ==> self.in_list(#[trigger] es[k])
    }

    /// The collector's structural invariant. Established by `new` and
    /// preserved by every operation:
    /// - the header arrays and the payload array have the same length;
    /// - the list order visits distinct, occupied slots, its next-links
    ///   chain each block to the following one and the last link is none;
    /// - `head` and `tail` are the first and last listed block, both none
    ///   exactly when the list is empty;
    /// - the free slots are exactly the unoccupied ones, each recorded
    ///   once, so that list length plus free count is the arena size;
    /// - every edge reported by a listed payload names a listed block.
    pub closed spec fn wf(&self) -> bool {
        let n = self.datas@.len() as int;
        &&& self.marks@.len() == n
        &&& self.nexts@.len() == n
        &&& self.order@.no_duplicates()
        &&& forall|k: int| 0 <= k < self.order@.len() ==> (#[trigger] self.order@[k]) < n
        &&& forall|k: int|
            0 <= k < self.order@.len() - 1 ==> self.nexts@[(#[trigger] self.order@[k]) as int]
                == Some(self.order@[k + 1])
        &&& (self.order@.len() > 0 ==> self.nexts@[self.order@.last() as int] is None)
        &&& self.head == (if self.order@.len() == 0 {
            Option::<usize>::None
        } else {
            Some(self.order@[0])
        })
        &&& self.tail == (if self.order@.len() == 0 {
            Option::<usize>::None
        } else {
            Some(self.order@.last())
        })
        &&& self.free@.no_duplicates()
        &&& forall|k: int|
            0 <= k < self.free@.len() ==> (#[trigger] self.free@[k]) < n && self.datas@[self.free@[k] as int] is None
        &&& forall|i: usize|
            i < n ==> ((#[trigger] self.datas@[i as int]) is Some <==> self.order@.contains(i))
        &&& forall|i: usize|
            i < n && (#[trigger] self.datas@[i as int]) is None ==> self.free@.contains(i)
        &&& self.order@.len() + self.free@.len() == n
        &&& forall|k: int|
            0 <= k < self.order@.len() ==> self.valid_edges(
                self.data_at(#[trigger] self.order@[k]).edges(),
            )
    }

    /// A listed block's slot is in bounds and occupied.
    pub(crate) proof fn lemma_in_list_bounds(&self, i: usize)
        requires
            self.wf(),
            self.in_list(i),
        ensures
            i < self.datas@.len(),
            self.datas@[i as int] is Some,
            self.marks@.len() == self.datas@.len(),
            self.nexts@.len() == self.datas@.len(),
    {
        let k = choose|k: int| 0 <= k < self.order@.len() && self.order@[k] == i;
        assert(self.order@[k] < self.datas@.len());
    }

    /// A listed block's edges all name listed blocks.
    pub proof fn lemma_listed_edges_valid(&self, i: usize)
        requires
            self.wf(),
            self.in_list(i),
        ensures
            self.valid_edges(self.data_at(i).edges()),
    {
        let k = choose|k: int| 0 <= k < self.order@.len() && self.order@[k] == i;
        assert(self.valid_edges(self.data_at(self.order@[k]).edges()));
    }

    /// List well-formedness: following the next-links from `head` visits
    /// each listed block exactly once, in list order, and ends at `tail`,
    /// whose next-link is none.
    pub proof fn lemma_list_well_formed(&self)
        requires
            self.wf(),
        ensures
            self.blocks().no_duplicates(),
            self.head_id() == (if self.blocks().len() == 0 {
                Option::<usize>::None
            } else {
                Some(self.blocks()[0])
            }),
            self.tail_id() == (if self.blocks().len() == 0 {
                Option::<usize>::None
            } else {
                Some(self.blocks().last())
            }),
            forall|k: int|
                0 <= k < self.blocks().len() - 1 ==> self.next_of(#[trigger] self.blocks()[k])
                    == Some(self.blocks()[k + 1]),
            self.blocks().len() > 0 ==> self.next_of(self.blocks().last()) is None,
    {
    }

    /// Empty-list coherence: `head` is none exactly when `tail` is none.
    pub proof fn lemma_empty_coherence(&self)
        requires
            self.wf(),
        ensures
            self.head_id() is None <==> self.tail_id() is None,
    {
    }

    /// Construct an empty collector: no blocks, no slots, `head` and
    /// `tail` both none.
    pub fn new() -> (gc: GC<T>)
        ensures
            gc.wf(),
            gc.quiescent(),
            gc.blocks() == Seq::<usize>::empty(),
            gc.slot_count() == 0,
            gc.head_id() is None,
            gc.tail_id() is None,
    {
        let gc = GC {
            marks: Vec::new(),
            nexts: Vec::new(),
            datas: Vec::new(),
            head: None,
            tail: None,
            free: Vec::new(),
            order: Ghost(Seq::empty()),
        };
        proof {
            assert(gc.blocks() =~= Seq::<usize>::empty());
        }
        gc
    }

    /// Allocate a block holding `data`, append it at the tail of the
    /// allocation list and return a handle to it.
    ///
    /// Every handle already stored inside `data` must point at a listed
    /// block. The new block starts unmarked, every existing block keeps
    /// its payload and mark, and a reclaimed slot is reused when one is
    /// free, so the arena only grows when the list already fills it.
    pub fn allocate(&mut self, data: T) -> (h: GCObj<T>)
        requires
            old(self).wf(),
            old(self).valid_edges(data.edges()),
        ensures
            final(self).wf(),
            final(self).blocks() == old(self).blocks().push(h.id()),
            !old(self).in_list(h.id()),
            final(self).in_list(h.id()),
            final(self).data_at(h.id()) == data,
            !final(self).marked_at(h.id()),
            forall|i: usize|
                old(self).in_list(i) ==> final(self).in_list(i) && final(self).data_at(i) == old(
                    self,
                ).data_at(i) && final(self).marked_at(i) == old(self).marked_at(i),
            old(self).quiescent() ==> final(self).quiescent(),
            final(self).slot_count() == (if old(self).blocks().len() < old(self).slot_count() {
                old(self).slot_count()
            } else {
                old(self).slot_count() + 1
            }),
    {
        let ghost pre = *old(self);
        let idx: usize;
        if self.free.len() > 0 {
            let i = self.free.pop().unwrap();
            self.datas.set(i, Some(data));
            self.marks.set(i, false);
            self.nexts.set(i, None);
            idx = i;
            proof {
                assert(pre.datas@[i as int] is None);
                assert(!pre.order@.contains(i));
            }
        } else {
            idx = self.datas.len();
            self.datas.push(Some(data));
            self.marks.push(false);
            self.nexts.push(None);
            proof {
                assert(!pre.order@.contains(idx));
            }
        }
        match self.tail {
            None => {
                self.head = Some(idx);
                self.tail = Some(idx);
            },
            Some(t) => {
                proof {
                    assert(pre.order@.len() > 0 && t == pre.order@.last());
                    assert(pre.order@.contains(t));
                    assert(t < pre.datas@.len());
                }
                self.nexts.set(t, Some(idx));
                self.tail = Some(idx);
            },
        }
        proof {
            self.order@ = pre.order@.push(idx);
        }
        let h = GCObj { idx, _payload: PhantomData };
        proof {
            let o = self.order@;
            assert(o.last() == idx);
            assert forall|k: int| 0 <= k < o.len() implies (#[trigger] o[k])
                < self.datas@.len() by {
                if k < pre.order@.len() {
                    assert(pre.order@[k] < pre.datas@.len());
                }
            }
            assert(o.no_duplicates()) by {
                assert(forall|k: int|
                    0 <= k < pre.order@.len() ==> #[trigger] o[k] == pre.order@[k]);
            }
            assert forall|j: usize|
                j < self.datas@.len() implies ((#[trigger] self.datas@[j as int]) is Some
                <==> o.contains(j)) by {
                if j == idx {
                    assert(o[o.len() - 1] == idx);
                    assert(o.contains(idx));
                } else {
                    if self.datas@[j as int] is Some {
                        assert(pre.datas@[j as int] is Some);
                        let k = choose|k: int| 0 <= k < pre.order@.len() && pre.order@[k] == j;
                        assert(o[k] == j);
                    }
                    if o.contains(j) {
                        let k = choose|k: int| 0 <= k < o.len() && o[k] == j;
                        assert(o[o.len() - 1] == idx);
                        assert(k < o.len() - 1);
                        assert(pre.order@.contains(j));
                    }
                }
            }
            assert forall|j: usize|
                j < self.datas@.len() && (#[trigger] self.datas@[j as int]) is None implies self
                .free@.contains(j) by {
                assert(pre.datas@[j as int] is None);
                let k = choose|k: int| 0 <= k < pre.free@.len() && pre.free@[k] == j;
                if pre.order@.len() < pre.datas@.len() {
                    assert(pre.free@[pre.free@.len() - 1] == idx);
                    assert(k < pre.free@.len() - 1);
                    assert(self.free@[k] == j);
                }
            }
            assert forall|k: int| 0 <= k < o.len() implies self.valid_edges(
                self.data_at(#[trigger] o[k]).edges(),
            ) by {
                let es = self.data_at(o[k]).edges();
                if k < pre.order@.len() {
                    assert(pre.order@.contains(o[k]));
                    assert(self.data_at(o[k]) == pre.data_at(o[k]));
                    assert(pre.valid_edges(pre.data_at(pre.order@[k]).edges()));
                    assert forall|m: int| 0 <= m < es.len() implies self.in_list(
                        #[trigger] es[m],
                    ) by {
                        assert(pre.in_list(es[m]));
                        let j = choose|j: int|
                            0 <= j < pre.order@.len() && pre.order@[j] == es[m];
                        assert(o[j] == es[m]);
                    }
                } else {
                    assert(o[k] == idx);
                    assert(self.data_at(idx) == data);
                    assert forall|m: int| 0 <= m < es.len() implies self.in_list(
                        #[trigger] es[m],
                    ) by {
                        assert(pre.in_list(es[m]));
                        let j = choose|j: int|
                            0 <= j < pre.order@.len() && pre.order@[j] == es[m];
                        assert(o[j] == es[m]);
                    }
                }
            }
            assert forall|i: usize| pre.in_list(i) implies self.in_list(i) && self.data_at(i)
                == pre.data_at(i) && self.marked_at(i) == pre.marked_at(i) by {
                let k = choose|k: int| 0 <= k < pre.order@.len() && pre.order@[k] == i;
                assert(o[k] == i);
                assert(pre.order@[k] < pre.datas@.len());
            }
            assert(self.wf());
            if pre.quiescent() {
                assert forall|i: usize| self.in_list(i) implies !(#[trigger] self.marked_at(
                    i,
                )) by {
                    if i != idx {
                        let k = choose|k: int| 0 <= k < o.len() && o[k] == i;
                        assert(k < o.len() - 1);
                        assert(pre.in_list(i));
                        assert(pre.marked_at(i) == false);
                    }
                }
            }
        }
        h
    }

    /// Read the payload of the block `h` points at. The handle must be
    /// live, that is, its block must still be on the allocation list.
    pub fn get(&self, h: &GCObj<T>) -> (r: &T)
        requires
            self.wf(),
            self.in_list(h.id()),
        ensures
            *r == self.data_at(h.id()),
    {
        proof {
            self.lemma_in_list_bounds(h.id());
        }
        self.datas[h.idx].as_ref().unwrap()
    }

    /// Replace the payload of the block `h` points at. Every handle
    /// stored inside the new payload must point at a listed block. The
    /// list, the marks and all other payloads are untouched.
    pub fn put(&mut self, h: &GCObj<T>, data: T)
        requires
            old(self).wf(),
            old(self).in_list(h.id()),
            old(self).valid_edges(data.edges()),
        ensures
            final(self).wf(),
            final(self).blocks() == old(self).blocks(),
            final(self).data_at(h.id()) == data,
            forall|i: usize|
                final(self).in_list(i) ==> final(self).marked_at(i) == old(self).marked_at(i),
            forall|i: usize|
                final(self).in_list(i) && i != h.id() ==> final(self).data_at(i) == old(
                    self,
                ).data_at(i),
            old(self).quiescent() ==> final(self).quiescent(),
            final(self).slot_count() == old(self).slot_count(),
    {
        let ghost pre = *old(self);
        proof {
            self.lemma_in_list_bounds(h.id());
        }
        self.datas.set(h.idx, Some(data));
        proof {
            let o = self.order@;
            assert forall|j: usize|
                j < self.datas@.len() implies ((#[trigger] self.datas@[j as int]) is Some
                <==> o.contains(j)) by {
                if j != h.id() {
                    assert(self.datas@[j as int] == pre.datas@[j as int]);
                }
            }
            assert forall|k: int| 0 <= k < o.len() implies self.valid_edges(
                self.data_at(#[trigger] o[k]).edges(),
            ) by {
                if o[k] == h.id() {
                    assert(self.data_at(o[k]) == data);
                } else {
                    assert(self.data_at(o[k]) == pre.data_at(o[k]));
                    assert(pre.valid_edges(pre.data_at(pre.order@[k]).edges()));
                }
            }
            assert(self.wf());
            if pre.quiescent() {
                assert forall|i: usize| self.in_list(i) implies !(#[trigger] self.marked_at(
                    i,
                )) by {
                    assert(pre.in_list(i));
                    assert(!pre.marked_at(i));
                }
            }
        }
    }

    /// The number of blocks on the allocation list.
    pub fn len(&self) -> (n: usize)
        requires
            self.wf(),
        ensures
            n == self.blocks().len(),
    {
        self.datas.len() - self.free.len()
    }

    /// The number of slots the arena holds, allocated or free. Reclaimed
    /// slots are reused by `allocate`, so repeated allocate-and-collect
    /// cycles do not grow this.
    pub fn slots(&self) -> (n: usize)
        ensures
            n == self.slot_count(),
    {
        self.datas.len()
    }

    /// Whether the block `h` points at is (still) on the allocation list.
    pub fn contains(&self, h: &GCObj<T>) -> (r: bool)
        requires
            self.wf(),
        ensures
            r == self.in_list(h.id()),
    {
        let ghost o = self.order@;
        let mut cur = self.head;
        let ghost mut k: int = 0;
        while cur.is_some()
            invariant
                self.wf(),
                o == self.order@,
                0 <= k <= o.len(),
                cur == (if k == o.len() {
                    Option::<usize>::None
                } else {
                    Some(o[k])
                }),
                forall|m: int| 0 <= m < k ==> #[trigger] o[m] != h.id(),
            decreases o.len() - k,
        {
            let i = cur.unwrap();
            if i == h.idx {
                proof {
                    assert(o[k] == h.id());
                }
                return true;
            }
            proof {
                assert(o.contains(o[k]));
                self.lemma_in_list_bounds(o[k]);
            }
            cur = self.nexts[i];
            proof {
                if k == o.len() - 1 {
                    assert(self.nexts@[o.last() as int] is None);
                } else {
                    assert(self.nexts@[o[k] as int] == Some(o[k + 1]));
                }
                k = k + 1;
            }
        }
        proof {
            if self.in_list(h.id()) {
                let m = choose|m: int| 0 <= m < o.len() && o[m] == h.id();
                assert(o[m] != h.id());
            }
        }
        false
    }

    /// Whether the block `h` points at is marked. The handle must be
    /// live. Between collections this is always false.
    pub fn marked(&self, h: &GCObj<T>) -> (r: bool)
        requires
            self.wf(),
            self.in_list(h.id()),
        ensures
            r == self.marked_at(h.id()),
    {
        proof {
            self.lemma_in_list_bounds(h.id());
        }
        self.marks[h.idx]
    }
}

} // verus!
