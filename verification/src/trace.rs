//! The tracer protocol: how the collector learns which handles a stored
//! value contains.
//!
//! A type stored in the managed heap implements [`Trace`]. Its `trace`
//! method reports the identifier of every managed handle held directly
//! inside the value (not the handles that are only reachable through
//! another managed block; those are found when that block is traced).
//! The collector drives the traversal itself, so a tracer never touches
//! mark state: it only enumerates edges.

use vstd::prelude::*;

use crate::GCObj;

verus! {

/// The edge lists of a sequence of values, concatenated in order.
pub open spec fn seq_edges<T: Trace>(s: Seq<T>) -> Seq<usize>
    decreases s.len(),
{
    if s.len() == 0 {
        Seq::empty()
    } else {
        seq_edges(s.drop_last()) + s.last().edges()
    }
}

/// A capability attached to a value type: enumerate every managed handle
/// stored directly inside a value of that type.
///
/// Hosts implement this for their own composite types by composing the
/// built-in tracers below. An implementation must report every handle the
/// value holds: an omitted edge makes a live block invisible to `mark`
/// and leads to its reclamation.
pub trait Trace {
    /// The block identifiers of the handles held directly inside `self`.
    ///
    /// Every tracer in this crate overrides this to say exactly what its
    /// `trace` returns, and `trace`'s contract ties the two together. An
    /// implementation compiled without verification is never checked
    /// against it: such a host keeps the collector's guarantees only by
    /// making `trace` report every handle its values hold.
    open spec fn edges(&self) -> Seq<usize> {
        Seq::empty()
    }

    /// Enumerate the handles held directly inside `self`.
    fn trace(&self) -> (out: Vec<usize>)
        ensures
            out@ == self.edges(),
    ;
}

impl Trace for bool {
    open spec fn edges(&self) -> Seq<usize> {
        Seq::empty()
    }

    fn trace(&self) -> (out: Vec<usize>) {
        Vec::new()
    }
}

impl Trace for i8 {
    open spec fn edges(&self) -> Seq<usize> {
        Seq::empty()
    }

    fn trace(&self) -> (out: Vec<usize>) {
        Vec::new()
    }
}

impl Trace for i16 {
    open spec fn edges(&self) -> Seq<usize> {
        Seq::empty()
    }

    fn trace(&self) -> (out: Vec<usize>) {
        Vec::new()
    }
}

impl Trace for i32 {
    open spec fn edges(&self) -> Seq<usize> {
        Seq::empty()
    }

    fn trace(&self) -> (out: Vec<usize>) {
        Vec::new()
    }
}

impl Trace for i64 {
    open spec fn edges(&self) -> Seq<usize> {
        Seq::empty()
    }

    fn trace(&self) -> (out: Vec<usize>) {
        Vec::new()
    }
}

impl Trace for u8 {
    open spec fn edges(&self) -> Seq<usize> {
        Seq::empty()
    }

    fn trace(&self) -> (out: Vec<usize>) {
        Vec::new()
    }
}

impl Trace for u16 {
    open spec fn edges(&self) -> Seq<usize> {
        Seq::empty()
    }

    fn trace(&self) -> (out: Vec<usize>) {
        Vec::new()
    }
}

impl Trace for u32 {
    open spec fn edges(&self) -> Seq<usize> {
        Seq::empty()
    }

    fn trace(&self) -> (out: Vec<usize>) {
        Vec::new()
    }
}

impl Trace for u64 {
    open spec fn edges(&self) -> Seq<usize> {
        Seq::empty()
    }

    fn trace(&self) -> (out: Vec<usize>) {
        Vec::new()
    }
}

impl Trace for usize {
    open spec fn edges(&self) -> Seq<usize> {
        Seq::empty()
    }

    fn trace(&self) -> (out: Vec<usize>) {
        Vec::new()
    }
}

impl Trace for isize {
    open spec fn edges(&self) -> Seq<usize> {
        Seq::empty()
    }

    fn trace(&self) -> (out: Vec<usize>) {
        Vec::new()
    }
}

impl<T: Trace> Trace for Option<T> {
    open spec fn edges(&self) -> Seq<usize> {
        match self {
            Some(v) => v.edges(),
            None => Seq::empty(),
        }
    }

    fn trace(&self) -> (out: Vec<usize>) {
        match self {
            Some(v) => v.trace(),
            None => Vec::new(),
        }
    }
}

impl<T: Trace> Trace for Vec<T> {
    open spec fn edges(&self) -> Seq<usize> {
        seq_edges(self@)
    }

    fn trace(&self) -> (out: Vec<usize>) {
        let mut out: Vec<usize> = Vec::new();
        let mut k: usize = 0;
        while k < self.len()
            invariant
                k <= self@.len(),
                out@ == seq_edges(self@.take(k as int)),
            decreases self@.len() - k,
        {
            let mut e = self[k].trace();
            proof {
                let prefix = self@.take(k + 1 as int);
                assert(prefix.drop_last() =~= self@.take(k as int));
                assert(prefix.last() == self@[k as int]);
                assert(seq_edges(prefix) == seq_edges(self@.take(k as int)) + self@[k as int].edges());
            }
            out.append(&mut e);
            k = k + 1;
        }
        proof {
            assert(self@.take(self@.len() as int) =~= self@);
        }
        out
    }
}

} // verus!
