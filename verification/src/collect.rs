//! Collection: reachability, the mark pass and the sweep pass.

use vstd::prelude::*;

use crate::GC;
use crate::GCObj;
use crate::trace::Trace;

verus! {

/// The block identifiers a sequence of root handles points at.
pub open spec fn root_ids<T>(roots: Seq<GCObj<T>>) -> Seq<usize> {
    roots.map_values(|r: GCObj<T>| r.id())
}

/// Pushing keeps every element present, and adds the pushed one.
proof fn lemma_contains_after_push(s: Seq<usize>, x: usize, y: usize)
    requires
        s.contains(y) || y == x,
    ensures
        s.push(x).contains(y),
{
    if s.contains(y) {
        let m = choose|m: int| 0 <= m < s.len() && s[m] == y;
        assert(s.push(x)[m] == y);
    } else {
        assert(s.push(x)[s.len() as int] == x);
    }
}

impl<T: Trace> GC<T> {
    /// Block `a` is on the list and its payload holds a handle to `b`.
    pub open spec fn edge(&self, a: usize, b: usize) -> bool {
        self.in_list(a) && self.data_at(a).edges().contains(b)
    }

    /// `p` walks the heap graph: consecutive entries are joined by edges.
    pub open spec fn is_path(&self, p: Seq<usize>) -> bool {
        forall|k: int| 0 <= k < p.len() - 1 ==> self.edge(#[trigger] p[k], p[k + 1])
    }

    /// Block `i` is transitively reachable from the given roots: some
    /// non-empty path starts at a root and ends at `i`. A root reaches
    /// itself through the one-entry path.
    pub open spec fn reaches(&self, roots: Seq<usize>, i: usize) -> bool {
        exists|p: Seq<usize>|
            p.len() > 0 && roots.contains(p[0]) && self.is_path(p) && p.last() == i
    }

    /// The marked blocks are closed under heap edges: every edge out of a
    /// marked listed block leads to a marked listed block. This holds
    /// trivially when nothing is marked, and `mark` establishes it for
    /// the reachable set.
    pub open spec fn marks_closed(&self) -> bool {
        forall|i: usize, k: int|
            self.in_list(i) && self.marked_at(i) && 0 <= k < self.data_at(i).edges().len()
                ==> self.in_list(#[trigger] self.data_at(i).edges()[k]) && self.marked_at(
                self.data_at(i).edges()[k],
            )
    }

    /// Extending a path by one edge preserves reachability.
    pub proof fn lemma_reaches_step(&self, roots: Seq<usize>, a: usize, b: usize)
        requires
            self.reaches(roots, a),
            self.edge(a, b),
        ensures
            self.reaches(roots, b),
    {
        let p = choose|p: Seq<usize>|
            p.len() > 0 && roots.contains(p[0]) && self.is_path(p) && p.last() == a;
        let q = p.push(b);
        assert forall|k: int| 0 <= k < q.len() - 1 implies self.edge(#[trigger] q[k], q[k + 1]) by {
            if k < p.len() - 1 {
                assert(self.edge(p[k], p[k + 1]));
            } else {
                assert(q[k] == p.last());
            }
        }
        assert(q.last() == b);
        assert(self.reaches(roots, b));
    }

    /// Every block on a path out of the roots is itself reachable.
    pub proof fn lemma_path_prefix_reaches(&self, roots: Seq<usize>, p: Seq<usize>, k: int)
        requires
            p.len() > 0,
            roots.contains(p[0]),
            self.is_path(p),
            0 <= k < p.len(),
        ensures
            self.reaches(roots, p[k]),
    {
        let q = p.take(k + 1);
        assert(q[0] == p[0]);
        assert forall|m: int| 0 <= m < q.len() - 1 implies self.edge(#[trigger] q[m], q[m + 1]) by {
            assert(self.edge(p[m], p[m + 1]));
        }
        assert(q.last() == p[k]);
        assert(self.reaches(roots, p[k]));
    }

    /// A reachable block is on the allocation list, provided the roots
    /// are.
    pub proof fn lemma_reaches_in_list(&self, roots: Seq<usize>, i: usize)
        requires
            self.wf(),
            forall|k: int| 0 <= k < roots.len() ==> self.in_list(#[trigger] roots[k]),
            self.reaches(roots, i),
        ensures
            self.in_list(i),
    {
        let p = choose|p: Seq<usize>|
            p.len() > 0 && roots.contains(p[0]) && self.is_path(p) && p.last() == i;
        let r = choose|k: int| 0 <= k < roots.len() && roots[k] == p[0];
        assert(self.in_list(p[0]));
        self.lemma_path_tail_in_list(p, p.len() - 1);
    }

    /// The two states have the same list, payloads, links and slots; only
    /// the marks may differ.
    pub(crate) open spec fn same_but_marks(a: Self, b: Self) -> bool {
        &&& b.order@ == a.order@
        &&& b.datas@ == a.datas@
        &&& b.nexts@ == a.nexts@
        &&& b.head == a.head
        &&& b.tail == a.tail
        &&& b.free@ == a.free@
        &&& b.marks@.len() == a.marks@.len()
    }

    /// The listed blocks that are not marked: the measure that shrinks as
    /// `mark` floods the heap.
    pub(crate) open spec fn unmarked(&self) -> Set<usize> {
        self.blocks().to_set().filter(|i: usize| !self.marked_at(i))
    }

    /// Every edge out of block `i` leads to a marked block.
    pub(crate) open spec fn edges_marked(&self, i: usize) -> bool {
        forall|m: int|
            0 <= m < self.data_at(i).edges().len() ==> self.marked_at(
                #[trigger] self.data_at(i).edges()[m],
            )
    }

    proof fn lemma_unmarked_finite(&self)
        ensures
            self.unmarked().finite(),
    {
        broadcast use vstd::seq_lib::seq_to_set_is_finite;

        self.blocks().to_set().lemma_len_filter(|i: usize| !self.marked_at(i));
    }

    /// Marking one unmarked listed block strictly shrinks the unmarked
    /// set.
    proof fn lemma_mark_shrinks(pre: Self, post: Self, e: usize)
        requires
            pre.wf(),
            Self::same_but_marks(pre, post),
            post.marks@ == pre.marks@.update(e as int, true),
            pre.in_list(e),
            !pre.marked_at(e),
        ensures
            post.unmarked().len() < pre.unmarked().len(),
    {
        broadcast use vstd::set::group_set_axioms;
        broadcast use vstd::seq_lib::seq_to_set_is_finite;

        pre.lemma_unmarked_finite();
        pre.lemma_in_list_bounds(e);
        assert(post.unmarked() =~= pre.unmarked().remove(e)) by {
            assert forall|x: usize| post.unmarked().contains(x) == pre.unmarked().remove(
                e,
            ).contains(x) by {
                if x != e && pre.blocks().contains(x) {
                    pre.lemma_in_list_bounds(x);
                    assert(post.marked_at(x) == pre.marked_at(x));
                }
            }
        }
        assert(pre.unmarked().contains(e));
        assert(pre.unmarked().len() == post.unmarked().len() + 1);
    }

    /// Reachability only depends on the list and the payloads, not on the
    /// marks.
    pub(crate) proof fn lemma_same_reaches(a: Self, b: Self, roots: Seq<usize>, i: usize)
        requires
            b.order@ == a.order@,
            b.datas@ == a.datas@,
        ensures
            a.reaches(roots, i) == b.reaches(roots, i),
    {
        if a.reaches(roots, i) {
            let p = choose|p: Seq<usize>|
                p.len() > 0 && roots.contains(p[0]) && a.is_path(p) && p.last() == i;
            assert forall|k: int| 0 <= k < p.len() - 1 implies b.edge(
                #[trigger] p[k],
                p[k + 1],
            ) by {
                assert(a.edge(p[k], p[k + 1]));
            }
            assert(b.is_path(p) && p.last() == i);
            assert(b.reaches(roots, i));
        }
        if b.reaches(roots, i) {
            let p = choose|p: Seq<usize>|
                p.len() > 0 && roots.contains(p[0]) && b.is_path(p) && p.last() == i;
            assert forall|k: int| 0 <= k < p.len() - 1 implies a.edge(
                #[trigger] p[k],
                p[k + 1],
            ) by {
                assert(b.edge(p[k], p[k + 1]));
            }
            assert(a.is_path(p) && p.last() == i);
            assert(a.reaches(roots, i));
        }
    }

    /// Every block on a path out of marked roots is marked, provided the
    /// marked blocks are closed under edges.
    proof fn lemma_path_marked(&self, roots: Seq<usize>, p: Seq<usize>, k: int)
        requires
            self.wf(),
            self.marks_closed(),
            forall|m: int|
                0 <= m < roots.len() ==> self.in_list(#[trigger] roots[m]) && self.marked_at(
                    roots[m],
                ),
            p.len() > 0,
            roots.contains(p[0]),
            self.is_path(p),
            0 <= k < p.len(),
        ensures
            self.in_list(p[k]) && self.marked_at(p[k]),
        decreases k,
    {
        if k == 0 {
            let m = choose|m: int| 0 <= m < roots.len() && roots[m] == p[0];
            assert(self.in_list(roots[m]) && self.marked_at(roots[m]));
        } else {
            self.lemma_path_marked(roots, p, k - 1);
            assert(self.edge(p[k - 1], p[k]));
            let es = self.data_at(p[k - 1]).edges();
            let m = choose|m: int| 0 <= m < es.len() && es[m] == p[k];
            assert(self.in_list(es[m]) && self.marked_at(es[m]));
        }
    }

    /// A marked set that contains the roots and is closed under edges
    /// covers everything reachable.
    proof fn lemma_closed_reaches(&self, roots: Seq<usize>)
        requires
            self.wf(),
            self.marks_closed(),
            forall|m: int|
                0 <= m < roots.len() ==> self.in_list(#[trigger] roots[m]) && self.marked_at(
                    roots[m],
                ),
        ensures
            forall|i: usize| self.reaches(roots, i) ==> self.marked_at(i),
    {
        assert forall|i: usize| self.reaches(roots, i) implies self.marked_at(i) by {
            let p = choose|p: Seq<usize>|
                p.len() > 0 && roots.contains(p[0]) && self.is_path(p) && p.last() == i;
            self.lemma_path_marked(roots, p, p.len() - 1);
        }
    }

    /// The mark pass. Starting from the supplied root handles, flood the
    /// heap graph reported by the tracers, setting the mark of every
    /// block visited. A block already marked is not revisited, which is
    /// what makes cyclic graphs terminate.
    ///
    /// The collector must be quiescent (no stale marks) and every root
    /// must be live. On return exactly the blocks transitively reachable
    /// from the roots are marked; the list itself, the payloads and the
    /// free slots are untouched.
    pub fn mark(&mut self, roots: &Vec<GCObj<T>>)
        requires
            old(self).wf(),
            old(self).quiescent(),
            forall|k: int|
                0 <= k < roots@.len() ==> old(self).in_list((#[trigger] roots@[k]).id()),
        ensures
            final(self).wf(),
            final(self).blocks() == old(self).blocks(),
            final(self).slot_count() == old(self).slot_count(),
            forall|i: usize|
                final(self).in_list(i) ==> final(self).data_at(i) == old(self).data_at(i),
            forall|i: usize|
                final(self).in_list(i) ==> (final(self).marked_at(i) <==> old(self).reaches(
                    root_ids(roots@),
                    i,
                )),
            final(self).marks_closed(),
    {
        let ghost pre = *old(self);
        let ghost rids = root_ids(roots@);
        let mut stack: Vec<usize> = Vec::new();
        let mut r: usize = 0;
        while r < roots.len()
            invariant
                self.wf(),
                Self::same_but_marks(pre, *self),
                pre.wf(),
                pre.quiescent(),
                rids == root_ids(roots@),
                r <= roots@.len(),
                forall|k: int|
                    0 <= k < roots@.len() ==> pre.in_list((#[trigger] roots@[k]).id()),
                forall|k: int|
                    0 <= k < stack@.len() ==> self.in_list(#[trigger] stack@[k])
                        && self.marked_at(stack@[k]),
                forall|i: usize|
                    self.in_list(i) && #[trigger] self.marked_at(i) ==> stack@.contains(i),
                forall|i: usize|
                    self.in_list(i) && #[trigger] self.marked_at(i) ==> pre.reaches(rids, i),
                forall|k: int|
                    0 <= k < r ==> self.marked_at((#[trigger] roots@[k]).id()),
            decreases roots@.len() - r,
        {
            let i = roots[r].idx;
            proof {
                assert(roots@[r as int].id() == i);
                assert(pre.in_list(i));
                assert(self.in_list(i));
                self.lemma_in_list_bounds(i);
            }
            if !self.marks[i] {
                let ghost before = *self;
                let ghost s0 = stack@;
                self.marks.set(i, true);
                stack.push(i);
                proof {
                    assert(rids[r as int] == i);
                    assert(rids.contains(i));
                    let p = seq![i];
                    assert(p.last() == i && p[0] == i);
                    assert(pre.is_path(p));
                    assert(pre.reaches(rids, i));
                    assert forall|x: usize|
                        self.in_list(x) && #[trigger] self.marked_at(x) implies stack@.contains(
                        x,
                    ) by {
                        if x == i {
                            lemma_contains_after_push(s0, i, i);
                        } else {
                            self.lemma_in_list_bounds(x);
                            assert(before.marked_at(x));
                            assert(s0.contains(x));
                            lemma_contains_after_push(s0, i, x);
                        }
                    }
                    assert forall|x: usize|
                        self.in_list(x) && #[trigger] self.marked_at(x) implies pre.reaches(
                        rids,
                        x,
                    ) by {
                        if x != i {
                            self.lemma_in_list_bounds(x);
                            assert(before.marked_at(x));
                        }
                    }
                }
            }
            r = r + 1;
        }
        proof {
            assert forall|k: int| 0 <= k < roots@.len() implies self.marked_at(
                (#[trigger] roots@[k]).id(),
            ) by {}
        }
        while stack.len() > 0
            invariant
                self.wf(),
                Self::same_but_marks(pre, *self),
                pre.wf(),
                rids == root_ids(roots@),
                forall|k: int|
                    0 <= k < roots@.len() ==> pre.in_list((#[trigger] roots@[k]).id()),
                forall|k: int|
                    0 <= k < stack@.len() ==> self.in_list(#[trigger] stack@[k])
                        && self.marked_at(stack@[k]),
                forall|i: usize|
                    self.in_list(i) && #[trigger] self.marked_at(i) ==> pre.reaches(rids, i),
                forall|i: usize|
                    self.in_list(i) && #[trigger] self.marked_at(i) && !stack@.contains(i)
                        ==> self.edges_marked(i),
                forall|k: int|
                    0 <= k < roots@.len() ==> self.marked_at((#[trigger] roots@[k]).id()),
            decreases self.unmarked().len(), stack@.len(),
        {
            let ghost s_head = stack@;
            let i = stack.pop().unwrap();
            let ghost s_pop = stack@;
            let ghost u_pop = self.unmarked().len();
            proof {
                assert(s_head[s_head.len() - 1] == i);
                assert(self.in_list(i) && self.marked_at(i));
                self.lemma_in_list_bounds(i);
                assert forall|x: usize|
                    self.in_list(x) && #[trigger] self.marked_at(x) && !stack@.contains(x) && x
                        != i implies self.edges_marked(x) by {
                    if s_head.contains(x) {
                        let m = choose|m: int| 0 <= m < s_head.len() && s_head[m] == x;
                        assert(m < s_head.len() - 1);
                        assert(s_pop[m] == x);
                        assert(false);
                    }
                }
            }
            let es = self.datas[i].as_ref().unwrap().trace();
            proof {
                self.lemma_listed_edges_valid(i);
                assert(es@ == self.data_at(i).edges());
            }
            let mut j: usize = 0;
            while j < es.len()
                invariant
                    self.wf(),
                    Self::same_but_marks(pre, *self),
                    pre.wf(),
                    rids == root_ids(roots@),
                    forall|k: int|
                        0 <= k < roots@.len() ==> pre.in_list((#[trigger] roots@[k]).id()),
                    self.in_list(i) && self.marked_at(i),
                    es@ == self.data_at(i).edges(),
                    forall|k: int| 0 <= k < es@.len() ==> self.in_list(#[trigger] es@[k]),
                    j <= es@.len(),
                    forall|m: int| 0 <= m < j ==> self.marked_at(#[trigger] es@[m]),
                    forall|k: int|
                        0 <= k < stack@.len() ==> self.in_list(#[trigger] stack@[k])
                            && self.marked_at(stack@[k]),
                    forall|x: usize|
                        self.in_list(x) && #[trigger] self.marked_at(x) ==> pre.reaches(rids, x),
                    forall|x: usize|
                        self.in_list(x) && #[trigger] self.marked_at(x) && !stack@.contains(x)
                            && x != i ==> self.edges_marked(x),
                    forall|k: int|
                        0 <= k < roots@.len() ==> self.marked_at((#[trigger] roots@[k]).id()),
                    self.unmarked().len() <= u_pop,
                    self.unmarked().len() == u_pop ==> stack@ == s_pop,
                decreases es@.len() - j,
            {
                let e = es[j];
                proof {
                    assert(es@[j as int] == e);
                    assert(self.in_list(e));
                    self.lemma_in_list_bounds(e);
                }
                if !self.marks[e] {
                    let ghost before = *self;
                    let ghost s0 = stack@;
                    self.marks.set(e, true);
                    stack.push(e);
                    proof {
                        Self::lemma_mark_shrinks(before, *self, e);
                        assert(pre.reaches(rids, i));
                        assert(pre.edge(i, e)) by {
                            assert(pre.data_at(i) == self.data_at(i));
                            assert(self.data_at(i).edges()[j as int] == e);
                            assert(pre.data_at(i).edges().contains(e));
                        }
                        pre.lemma_reaches_step(rids, i, e);
                        assert forall|x: usize|
                            self.in_list(x) && #[trigger] self.marked_at(x) implies pre.reaches(
                            rids,
                            x,
                        ) by {
                            if x != e {
                                self.lemma_in_list_bounds(x);
                                assert(before.marked_at(x));
                            }
                        }
                        assert forall|x: usize|
                            self.in_list(x) && #[trigger] self.marked_at(x) && !stack@.contains(
                            x,
                        ) && x != i implies self.edges_marked(x) by {
                            assert(stack@ == s0.push(e));
                            lemma_contains_after_push(s0, e, e);
                            assert(x != e);
                            self.lemma_in_list_bounds(x);
                            assert(before.marked_at(x));
                            if s0.contains(x) {
                                lemma_contains_after_push(s0, e, x);
                                assert(false);
                            }
                            assert(before.edges_marked(x));
                            assert forall|m: int|
                                0 <= m < self.data_at(x).edges().len() implies self.marked_at(
                                #[trigger] self.data_at(x).edges()[m],
                            ) by {
                                assert(before.data_at(x) == self.data_at(x));
                                let t = before.data_at(x).edges()[m];
                                assert(before.marked_at(t));
                                before.lemma_listed_edges_valid(x);
                                assert(before.in_list(t));
                                before.lemma_in_list_bounds(t);
                                assert(self.marked_at(t));
                            }
                        }
                    }
                }
                j = j + 1;
            }
            proof {
                assert forall|x: usize|
                    self.in_list(x) && #[trigger] self.marked_at(x) && !stack@.contains(
                    x,
                ) implies self.edges_marked(x) by {
                    if x == i {
                        assert(forall|m: int|
                            0 <= m < es@.len() ==> self.marked_at(#[trigger] es@[m]));
                    }
                }
            }
        }
        proof {
            assert(self.marks_closed()) by {
                assert forall|i: usize, k: int|
                    self.in_list(i) && self.marked_at(i) && 0 <= k < self.data_at(
                        i,
                    ).edges().len() implies self.in_list(#[trigger] self.data_at(i).edges()[k])
                    && self.marked_at(self.data_at(i).edges()[k]) by {
                    assert(!stack@.contains(i));
                    assert(self.edges_marked(i));
                    self.lemma_listed_edges_valid(i);
                }
            }
            assert forall|k: int|
                0 <= k < rids.len() implies self.in_list(#[trigger] rids[k]) && self.marked_at(
                rids[k],
            ) by {
                assert(rids[k] == (roots@[k]).id());
            }
            self.lemma_closed_reaches(rids);
            assert forall|i: usize| self.in_list(i) implies (self.marked_at(i) <==> pre.reaches(
                rids,
                i,
            )) by {
                Self::lemma_same_reaches(pre, *self, rids, i);
            }
        }
    }

    /// The identifiers in `s` whose blocks are marked in `self`.
    pub open spec fn marked_of(&self, s: Seq<usize>) -> Seq<usize> {
        s.filter(|i: usize| self.marked_at(i))
    }

    /// Membership in the marked selection is membership plus the mark.
    proof fn lemma_marked_of_membership(&self, s: Seq<usize>, x: usize)
        ensures
            self.marked_of(s).contains(x) <==> (s.contains(x) && self.marked_at(x)),
        decreases s.len(),
    {
        reveal_with_fuel(Seq::filter, 2);
        if s.len() == 0 {
        } else {
            self.lemma_marked_of_membership(s.drop_last(), x);
            let sub = self.marked_of(s.drop_last());
            let whole = self.marked_of(s);
            if s.contains(x) && self.marked_at(x) {
                if x == s.last() {
                    assert(whole[whole.len() - 1] == x);
                } else {
                    let m = choose|m: int| 0 <= m < s.len() && s[m] == x;
                    assert(s.drop_last()[m] == x);
                    assert(sub.contains(x));
                    let m2 = choose|m2: int| 0 <= m2 < sub.len() && sub[m2] == x;
                    assert(whole[m2] == x);
                }
            }
            if whole.contains(x) {
                let m = choose|m: int| 0 <= m < whole.len() && whole[m] == x;
                if self.marked_at(s.last()) && m == whole.len() - 1 {
                    assert(x == s.last());
                    assert(s[s.len() - 1] == x);
                } else {
                    assert(sub[m] == x);
                    assert(s.drop_last().contains(x));
                    let m2 = choose|m2: int|
                        0 <= m2 < s.drop_last().len() && s.drop_last()[m2] == x;
                    assert(s[m2] == x);
                }
            }
        }
    }

    /// Selecting from a duplicate-free sequence stays duplicate-free.
    proof fn lemma_marked_of_no_duplicates(&self, s: Seq<usize>)
        requires
            s.no_duplicates(),
        ensures
            self.marked_of(s).no_duplicates(),
        decreases s.len(),
    {
        reveal_with_fuel(Seq::filter, 2);
        if s.len() == 0 {
        } else {
            assert(s.drop_last().no_duplicates());
            self.lemma_marked_of_no_duplicates(s.drop_last());
            let sub = self.marked_of(s.drop_last());
            let whole = self.marked_of(s);
            if self.marked_at(s.last()) {
                assert(!sub.contains(s.last())) by {
                    self.lemma_marked_of_membership(s.drop_last(), s.last());
                    if s.drop_last().contains(s.last()) {
                        let m = choose|m: int|
                            0 <= m < s.drop_last().len() && s.drop_last()[m] == s.last();
                        assert(s[m] == s[s.len() - 1]);
                    }
                }
                assert forall|a: int, b: int|
                    0 <= a < b < whole.len() implies whole[a] != whole[b] by {
                    if b < whole.len() - 1 {
                        assert(sub[a] != sub[b]);
                    } else {
                        assert(sub[a] == whole[a]);
                        if whole[a] == s.last() {
                            assert(sub.contains(s.last()));
                        }
                    }
                }
            }
        }
    }

    /// Taking one more block extends the marked selection by that block
    /// exactly when it is marked.
    proof fn lemma_marked_of_step(&self, s: Seq<usize>, k: int)
        requires
            0 <= k < s.len(),
        ensures
            self.marked_of(s.take(k + 1)) == (if self.marked_at(s[k]) {
                self.marked_of(s.take(k)).push(s[k])
            } else {
                self.marked_of(s.take(k))
            }),
    {
        reveal_with_fuel(Seq::filter, 2);
        let t = s.take(k + 1);
        assert(t.drop_last() =~= s.take(k));
        assert(t.last() == s[k]);
    }

    /// The sweep pass. Walk the allocation list once with a predecessor
    /// cursor: a marked block survives and its mark is cleared; an
    /// unmarked block is unlinked (its predecessor's next-link, or
    /// `head`, skips it; `tail` retreats to the predecessor when the last
    /// block goes), its payload is destroyed and its slot is released for
    /// reuse.
    ///
    /// The marks must be closed under heap edges — true both right after
    /// `mark` and when nothing is marked at all — so that no survivor is
    /// left holding a handle to a reclaimed block. On return the list
    /// holds exactly the blocks that were marked, in their old order,
    /// with their payloads intact and every mark cleared.
    pub fn sweep(&mut self)
        requires
            old(self).wf(),
            old(self).marks_closed(),
        ensures
            final(self).wf(),
            final(self).quiescent(),
            final(self).blocks() == old(self).marked_of(old(self).blocks()),
            final(self).slot_count() == old(self).slot_count(),
            forall|i: usize|
                old(self).in_list(i) && old(self).marked_at(i) ==> final(self).in_list(i)
                    && final(self).data_at(i) == old(self).data_at(i),
            forall|i: usize|
                old(self).in_list(i) && !old(self).marked_at(i) ==> !final(self).in_list(i)
                    && final(self).slot_free(i),
            forall|i: usize| final(self).in_list(i) ==> old(self).in_list(i),
    {
        let ghost pre = *old(self);
        let ghost o = pre.order@;
        let ghost n = pre.datas@.len() as int;
        let mut pred: Option<usize> = None;
        let mut cur = self.head;
        let ghost mut k: int = 0;
        let ghost mut kept: Seq<usize> = Seq::empty();
        proof {
            assert(o.take(0) =~= Seq::<usize>::empty());
            reveal_with_fuel(Seq::filter, 1);
            assert(kept == pre.marked_of(o.take(0)));
        }
        while cur.is_some()
            invariant
                pre.wf(),
                pre.marks_closed(),
                o == pre.order@,
                n == pre.datas@.len(),
                self.datas@.len() == n,
                self.marks@.len() == n,
                self.nexts@.len() == n,
                0 <= k <= o.len(),
                kept == pre.marked_of(o.take(k)),
                cur == (if k == o.len() {
                    Option::<usize>::None
                } else {
                    Some(o[k])
                }),
                pred == (if kept.len() == 0 {
                    Option::<usize>::None
                } else {
                    Some(kept.last())
                }),
                forall|m: int| 0 <= m < kept.len() ==> (#[trigger] kept[m]) < n,
                forall|m: int|
                    0 <= m < kept.len() - 1 ==> self.nexts@[(#[trigger] kept[m]) as int] == Some(
                        kept[m + 1],
                    ),
                (if kept.len() == 0 {
                    self.head == cur
                } else {
                    self.head == Some(kept[0]) && self.nexts@[kept.last() as int] == cur
                }),
                (if k < o.len() {
                    self.tail == pre.tail
                } else {
                    self.tail == (if kept.len() == 0 {
                        Option::<usize>::None
                    } else {
                        Some(kept.last())
                    })
                }),
                forall|m: int| 0 <= m < kept.len() ==> !self.marks@[(#[trigger] kept[m]) as int],
                forall|m: int|
                    0 <= m < kept.len() ==> self.datas@[(#[trigger] kept[m]) as int]
                        == pre.datas@[kept[m] as int],
                forall|m: int|
                    k <= m < o.len() ==> self.nexts@[(#[trigger] o[m]) as int] == pre.nexts@[o[m]
                        as int] && self.datas@[o[m] as int] == pre.datas@[o[m] as int]
                        && self.marks@[o[m] as int] == pre.marks@[o[m] as int],
                forall|m: int|
                    0 <= m < k && !pre.marked_at(#[trigger] o[m]) ==> self.datas@[o[m] as int]
                        is None,
                forall|x: usize|
                    x < n && !o.contains(x) ==> self.datas@[x as int] == pre.datas@[x as int],
                self.free@.no_duplicates(),
                forall|m: int|
                    0 <= m < self.free@.len() ==> (#[trigger] self.free@[m]) < n
                        && self.datas@[self.free@[m] as int] is None,
                forall|x: usize|
                    x < n && (#[trigger] self.datas@[x as int]) is None ==> self.free@.contains(
                        x,
                    ),
                self.free@.len() == pre.free@.len() + k - kept.len(),
            decreases o.len() - k,
        {
            let i = cur.unwrap();
            proof {
                assert(o[k] == i);
                assert(i < n);
                pre.lemma_marked_of_step(o, k);
            }
            if self.marks[i] {
                self.marks.set(i, false);
                cur = self.nexts[i];
                pred = Some(i);
                proof {
                    assert(pre.marked_at(i));
                    let kept2 = kept.push(i);
                    assert(kept2 == pre.marked_of(o.take(k + 1)));
                    assert(kept2.last() == i);
                    if k == o.len() - 1 {
                        assert(self.nexts@[i as int] == pre.nexts@[o[o.len() - 1] as int]);
                        assert(pre.nexts@[o.last() as int] is None);
                    } else {
                        assert(self.nexts@[i as int] == Some(o[k + 1]));
                    }
                    assert forall|m: int|
                        0 <= m < kept2.len() - 1 implies self.nexts@[(#[trigger] kept2[m]) as int]
                        == Some(kept2[m + 1]) by {
                        if m < kept.len() - 1 {
                            assert(kept2[m] == kept[m] && kept2[m + 1] == kept[m + 1]);
                        } else {
                            assert(kept2[m] == kept.last() && kept2[m + 1] == i);
                        }
                    }
                    kept = kept2;
                    k = k + 1;
                }
            } else {
                let nxt = self.nexts[i];
                proof {
                    assert(!pre.marked_at(i));
                    assert(self.nexts@[i as int] == pre.nexts@[o[k] as int]);
                    if k == o.len() - 1 {
                        assert(pre.nexts@[o.last() as int] is None);
                    } else {
                        assert(nxt == Some(o[k + 1]));
                    }
                }
                match pred {
                    Some(p) => {
                        proof {
                            assert(p == kept.last());
                            assert(kept.len() > 0 && kept[kept.len() - 1] == p);
                            assert(p < n);
                        }
                        self.nexts.set(p, nxt);
                        proof {
                            pre.lemma_marked_of_membership(o.take(k), p);
                            let mp = choose|mp: int|
                                0 <= mp < o.take(k).len() && o.take(k)[mp] == p;
                            assert(o[mp] == p);
                            assert forall|m: int| k + 1 <= m < o.len() implies o[m] != p by {
                                assert(o[m] != o[mp]);
                            }
                        }
                    },
                    None => {
                        self.head = nxt;
                    },
                }
                if nxt.is_none() {
                    self.tail = pred;
                }
                cur = nxt;
                proof {
                    assert(i < n);
                    assert(self.datas@[i as int] == pre.datas@[o[k] as int]);
                    assert(pre.datas@[i as int] is Some);
                }
                self.datas.set(i, None);
                let ghost f0 = self.free@;
                self.free.push(i);
                proof {
                    assert(self.free@ == f0.push(i));
                    assert(!f0.contains(i)) by {
                        if f0.contains(i) {
                            let m = choose|m: int| 0 <= m < f0.len() && f0[m] == i;
                            assert(f0[m] < n && self.datas@[f0[m] as int] is None);
                        }
                    }
                    assert forall|a: int, b: int|
                        0 <= a < b < self.free@.len() implies self.free@[a] != self.free@[b] by {
                        if b < self.free@.len() - 1 {
                            assert(f0[a] != f0[b]);
                        } else {
                            if f0[a] == i {
                                assert(f0.contains(i));
                            }
                        }
                    }
                    assert forall|x: usize|
                        x < n && (#[trigger] self.datas@[x as int]) is None implies self
                        .free@.contains(x) by {
                        if x == i {
                            assert(self.free@[self.free@.len() - 1] == i);
                        } else {
                            assert(f0.contains(x));
                            let m = choose|m: int| 0 <= m < f0.len() && f0[m] == x;
                            assert(self.free@[m] == x);
                        }
                    }
                    assert(kept == pre.marked_of(o.take(k + 1)));
                    assert forall|m: int| k + 1 <= m < o.len() implies o[m] != i by {
                        assert(o[m] != o[k]);
                    }
                    k = k + 1;
                }
            }
        }
        proof {
            assert(k == o.len());
            assert(o.take(k) =~= o);
            self.order@ = kept;
            pre.lemma_marked_of_no_duplicates(o);
            assert forall|m: int| 0 <= m < kept.len() implies pre.in_list(#[trigger] kept[m])
                && pre.marked_at(kept[m]) by {
                assert(kept.contains(kept[m]));
                pre.lemma_marked_of_membership(o, kept[m]);
            }
            assert forall|x: usize|
                x < n implies ((#[trigger] self.datas@[x as int]) is Some <==> kept.contains(
                x,
            )) by {
                pre.lemma_marked_of_membership(o, x);
                if o.contains(x) {
                    let m = choose|m: int| 0 <= m < o.len() && o[m] == x;
                    if pre.marked_at(x) {
                        pre.lemma_marked_of_membership(o, x);
                        assert(kept.contains(x));
                        let m2 = choose|m2: int| 0 <= m2 < kept.len() && kept[m2] == x;
                        assert(self.datas@[kept[m2] as int] == pre.datas@[kept[m2] as int]);
                        assert(pre.datas@[x as int] is Some);
                    } else {
                        assert(self.datas@[o[m] as int] is None);
                    }
                } else {
                    assert(self.datas@[x as int] == pre.datas@[x as int]);
                    assert(!(pre.datas@[x as int] is Some));
                    if kept.contains(x) {
                        assert(o.contains(x));
                    }
                }
            }
            assert forall|m: int| 0 <= m < kept.len() implies self.valid_edges(
                self.data_at(#[trigger] kept[m]).edges(),
            ) by {
                let x = kept[m];
                assert(self.datas@[x as int] == pre.datas@[x as int]);
                assert(self.data_at(x) == pre.data_at(x));
                let es = pre.data_at(x).edges();
                assert forall|e: int| 0 <= e < es.len() implies self.in_list(
                    #[trigger] es[e],
                ) by {
                    assert(pre.in_list(es[e]) && pre.marked_at(es[e]));
                    pre.lemma_marked_of_membership(o, es[e]);
                    assert(kept.contains(es[e]));
                }
            }
            assert(self.wf());
            assert forall|i: usize| self.in_list(i) implies !(#[trigger] self.marked_at(i)) by {
                let m = choose|m: int| 0 <= m < kept.len() && kept[m] == i;
                assert(!self.marks@[kept[m] as int]);
            }
            assert forall|i: usize|
                pre.in_list(i) && pre.marked_at(i) implies self.in_list(i) && self.data_at(i)
                == pre.data_at(i) by {
                pre.lemma_marked_of_membership(o, i);
                assert(kept.contains(i));
                let m = choose|m: int| 0 <= m < kept.len() && kept[m] == i;
                assert(self.datas@[kept[m] as int] == pre.datas@[kept[m] as int]);
            }
            assert forall|i: usize|
                pre.in_list(i) && !pre.marked_at(i) implies !self.in_list(i) && self.slot_free(
                i,
            ) by {
                pre.lemma_marked_of_membership(o, i);
                let m = choose|m: int| 0 <= m < o.len() && o[m] == i;
                assert(self.datas@[o[m] as int] is None);
            }
            assert forall|i: usize| self.in_list(i) implies pre.in_list(i) by {
                pre.lemma_marked_of_membership(o, i);
            }
        }
    }

    /// The identifiers in `s` whose blocks `pre` reaches from `roots`,
    /// in their order in `s`.
    pub open spec fn reachable_of(pre: Self, roots: Seq<usize>, s: Seq<usize>) -> Seq<usize>
        decreases s.len(),
    {
        if s.len() == 0 {
            Seq::empty()
        } else if pre.reaches(roots, s.last()) {
            Self::reachable_of(pre, roots, s.drop_last()).push(s.last())
        } else {
            Self::reachable_of(pre, roots, s.drop_last())
        }
    }

    /// When the marks agree with reachability on every element of `s`,
    /// selecting the marked blocks selects the reachable ones.
    proof fn lemma_marked_of_is_reachable_of(&self, pre: Self, roots: Seq<usize>, s: Seq<usize>)
        requires
            forall|m: int|
                0 <= m < s.len() ==> (self.marked_at(#[trigger] s[m]) <==> pre.reaches(
                    roots,
                    s[m],
                )),
        ensures
            self.marked_of(s) == Self::reachable_of(pre, roots, s),
        decreases s.len(),
    {
        reveal_with_fuel(Seq::filter, 2);
        if s.len() > 0 {
            self.lemma_marked_of_is_reachable_of(pre, roots, s.drop_last());
        }
    }

    /// When every element of `s` is reachable, nothing is dropped.
    proof fn lemma_reachable_of_all(pre: Self, roots: Seq<usize>, s: Seq<usize>)
        requires
            forall|m: int| 0 <= m < s.len() ==> pre.reaches(roots, #[trigger] s[m]),
        ensures
            Self::reachable_of(pre, roots, s) == s,
        decreases s.len(),
    {
        if s.len() > 0 {
            Self::lemma_reachable_of_all(pre, roots, s.drop_last());
            assert(Self::reachable_of(pre, roots, s.drop_last()).push(s.last()) =~= s);
        }
    }

    /// What one full collection does: afterwards the collector is
    /// well-formed and quiescent, the list holds exactly the blocks that
    /// were reachable from the roots before the collection (in their old
    /// order, with their payloads intact), and no slot was leaked.
    pub open spec fn collect_post(pre: Self, post: Self, roots: Seq<usize>) -> bool {
        &&& post.wf()
        &&& post.quiescent()
        &&& post.slot_count() == pre.slot_count()
        &&& post.blocks() == Self::reachable_of(pre, roots, pre.blocks())
        &&& forall|i: usize|
            pre.in_list(i) ==> ((#[trigger] post.in_list(i)) <==> pre.reaches(roots, i))
        &&& forall|i: usize|
            pre.in_list(i) && !pre.reaches(roots, i) ==> #[trigger] post.slot_free(i)
        &&& forall|i: usize| #[trigger] post.in_list(i) ==> pre.in_list(i)
        &&& forall|i: usize| #[trigger] post.in_list(i) ==> post.data_at(i) == pre.data_at(i)
    }

    /// A full collection: `mark(roots)` then `sweep()`.
    ///
    /// Reachability preserves liveness: every block transitively
    /// reachable from the roots survives with its payload intact, and
    /// every other block is destroyed, its slot released for reuse.
    pub fn collect(&mut self, roots: &Vec<GCObj<T>>)
        requires
            old(self).wf(),
            old(self).quiescent(),
            forall|k: int|
                0 <= k < roots@.len() ==> old(self).in_list((#[trigger] roots@[k]).id()),
        ensures
            Self::collect_post(*old(self), *final(self), root_ids(roots@)),
    {
        let ghost pre = *old(self);
        let ghost rids = root_ids(roots@);
        self.mark(roots);
        let ghost s1 = *self;
        self.sweep();
        proof {
            assert forall|m: int|
                0 <= m < pre.blocks().len() implies (s1.marked_at(
                #[trigger] pre.blocks()[m],
            ) <==> pre.reaches(rids, pre.blocks()[m])) by {
                let x = pre.blocks()[m];
                assert(pre.blocks().contains(x));
                assert(s1.in_list(x));
            }
            s1.lemma_marked_of_is_reachable_of(pre, rids, pre.blocks());
            assert(self.blocks() == Self::reachable_of(pre, rids, pre.blocks()));
            assert forall|i: usize|
                pre.in_list(i) implies ((#[trigger] self.in_list(i)) <==> pre.reaches(
                rids,
                i,
            )) by {
                assert(s1.in_list(i));
            }
        }
    }

    /// Idempotence of collection: collecting twice with the same roots,
    /// with no mutation in between, leaves the list unchanged the second
    /// time — same blocks in the same order, same payloads.
    pub proof fn lemma_collect_idempotent(s0: Self, s1: Self, s2: Self, roots: Seq<usize>)
        requires
            s0.wf(),
            forall|k: int| 0 <= k < roots.len() ==> s0.in_list(#[trigger] roots[k]),
            Self::collect_post(s0, s1, roots),
            Self::collect_post(s1, s2, roots),
        ensures
            s2.blocks() == s1.blocks(),
            forall|i: usize| #[trigger] s2.in_list(i) ==> s2.data_at(i) == s1.data_at(i),
    {
        assert forall|m: int| 0 <= m < s1.blocks().len() implies s1.reaches(
            roots,
            #[trigger] s1.blocks()[m],
        ) by {
            let i = s1.blocks()[m];
            assert(s1.blocks().contains(i));
            assert(s1.in_list(i));
            assert(s0.in_list(i) && s0.reaches(roots, i));
            let p = choose|p: Seq<usize>|
                p.len() > 0 && roots.contains(p[0]) && s0.is_path(p) && p.last() == i;
            assert forall|k: int| 0 <= k < p.len() - 1 implies s1.edge(
                #[trigger] p[k],
                p[k + 1],
            ) by {
                s0.lemma_path_prefix_reaches(roots, p, k);
                s0.lemma_path_prefix_reaches(roots, p, k + 1);
                let r = choose|r: int| 0 <= r < roots.len() && roots[r] == p[0];
                s0.lemma_reaches_in_list(roots, p[k]);
                assert(s1.in_list(p[k]) && s1.in_list(p[k + 1]));
                assert(s1.data_at(p[k]) == s0.data_at(p[k]));
                assert(s0.edge(p[k], p[k + 1]));
            }
            assert(s1.is_path(p));
            assert(s1.reaches(roots, i));
        }
        Self::lemma_reachable_of_all(s1, roots, s1.blocks());
        assert(s2.blocks() == s1.blocks());
    }

    /// Along a path whose first block is listed, every block is listed.
    proof fn lemma_path_tail_in_list(&self, p: Seq<usize>, k: int)
        requires
            self.wf(),
            p.len() > 0,
            self.in_list(p[0]),
            self.is_path(p),
            0 <= k < p.len(),
        ensures
            self.in_list(p[k]),
        decreases k,
    {
        if k > 0 {
            self.lemma_path_tail_in_list(p, k - 1);
            assert(self.edge(p[k - 1], p[k]));
            self.lemma_listed_edges_valid(p[k - 1]);
            let es = self.data_at(p[k - 1]).edges();
            let m = choose|m: int| 0 <= m < es.len() && es[m] == p[k];
            assert(self.in_list(es[m]));
        }
    }
}

} // verus!
