use crate::tape::EventReplay;
use smallvec::SmallVec;
use vstd::prelude::*;

verus! {

/// Branch indices held in a `smallvec::SmallVec` (inline up to four, on the
/// heap past that): the path part of a relative position in the tree.
#[verifier::external_body]
#[derive(Debug, PartialEq, Eq, Hash)]
pub struct SmallPath {
    items: SmallVec<[usize; 4]>,
}

impl Clone for SmallPath {
    /// Calls `SmallVec::clone`: the copy holds the same items.
    #[verifier::external_body]
    fn clone(&self) -> (r: Self)
        ensures
            small_path_items(r) == small_path_items(*self),
    {
        SmallPath { items: self.items.clone() }
    }
}

/// The branch indices a small path holds, in order.
pub uninterp spec fn small_path_items(v: SmallPath) -> Seq<usize>;

/// The largest length from which `SmallVec::push` and `extend` still grow
/// the buffer without overflowing its byte size on any target.
pub open spec fn small_path_room() -> int {
    usize::MAX as int / 32
}

/// Calls `SmallVec::new`: the result holds no items.
#[verifier::external_body]
fn small_path_new() -> (r: SmallPath)
    ensures
        small_path_items(r) == Seq::<usize>::empty(),
{
    SmallPath { items: SmallVec::new() }
}

/// Calls `SmallVec::from_slice`: the result holds a copy of the slice.
#[verifier::external_body]
fn small_path_from_slice(s: &[usize]) -> (r: SmallPath)
    ensures
        small_path_items(r) == s@,
{
    SmallPath { items: SmallVec::from_slice(s) }
}

/// Calls `SmallVec::len`: the number of items.
#[verifier::external_body]
fn small_path_len(v: &SmallPath) -> (r: usize)
    ensures
        r == small_path_items(*v).len(),
{
    v.items.len()
}

/// Calls `SmallVec::as_slice`: the items, in order.
#[verifier::external_body]
fn small_path_as_slice(v: &SmallPath) -> (r: &[usize])
    ensures
        r@ == small_path_items(*v),
{
    v.items.as_slice()
}

/// Calls `SmallVec::push`, which appends one item; it panics only when the
/// grown buffer's size would overflow, which the length bound rules out.
#[verifier::external_body]
fn small_path_push(v: &mut SmallPath, item: usize)
    requires
        small_path_items(*old(v)).len() < small_path_room(),
    ensures
        small_path_items(*final(v)) == small_path_items(*old(v)).push(item),
{
    v.items.push(item)
}

/// Calls `SmallVec::extend` with the copied items of a slice, which appends
/// them in order; the length bound rules out its capacity-overflow panic.
#[verifier::external_body]
fn small_path_extend(v: &mut SmallPath, s: &[usize])
    requires
        small_path_items(*old(v)).len() + s@.len() <= small_path_room(),
    ensures
        small_path_items(*final(v)) == small_path_items(*old(v)) + s@,
{
    v.items.extend(s.iter().copied())
}

/// Calls `SmallVec::drain` on the range `..count` and drops the drained
/// items: the first `count` items are removed. It panics when `count`
/// exceeds the length, which the precondition rules out.
#[verifier::external_body]
fn small_path_drain_front(v: &mut SmallPath, count: usize)
    requires
        count <= small_path_items(*old(v)).len(),
    ensures
        small_path_items(*final(v)) == small_path_items(*old(v)).skip(count as int),
{
    v.items.drain(..count);
}

/// A position in the tree relative to the root of a given generation: the
/// branch indices that lead from that root down to the position.
#[derive(Clone, Debug, PartialEq, Eq, Hash)]
pub struct RelativePath {
    generation: u64,
    path: SmallPath,
}

impl RelativePath {
    /// The generation of the root that the path starts from.
    pub closed spec fn origin(&self) -> u64 {
        self.generation
    }

    /// The branch indices from that root, in order.
    pub closed spec fn steps(&self) -> Seq<usize> {
        small_path_items(self.path)
    }

    pub fn new(generation: u64) -> (r: Self)
        ensures
            r.origin() == generation,
            r.steps() == Seq::<usize>::empty(),
    {
        Self { generation, path: small_path_new() }
    }

    pub fn new_from(generation: u64, path: &[usize]) -> (r: Self)
        ensures
            r.origin() == generation,
            r.steps() == path@,
    {
        Self { generation, path: small_path_from_slice(path) }
    }

    pub fn generation(&self) -> (r: u64)
        ensures
            r == self.origin(),
    {
        self.generation
    }

    pub fn len(&self) -> (r: usize)
        ensures
            r == self.steps().len(),
    {
        small_path_len(&self.path)
    }

    pub fn as_slice(&self) -> (r: &[usize])
        ensures
            r@ == self.steps(),
    {
        small_path_as_slice(&self.path)
    }

    /// Re-anchors the path at a later root: drops the first steps, which the
    /// root has since moved along, and records the new generation.
    pub fn rebase(&mut self, generation: u64)
        requires
            old(self).origin() <= generation,
            generation - old(self).origin() <= old(self).steps().len(),
        ensures
            final(self).origin() == generation,
            final(self).steps() == old(self).steps().skip(generation - old(self).origin()),
    {
        let count: u64 = generation - self.generation;
        let n: usize = small_path_len(&self.path);
        assert(count <= n);
        let count: usize = count as usize;
        small_path_drain_front(&mut self.path, count);
        self.generation = generation;
    }
}

impl EventReplay for RelativePath {
    type EventType = usize;

    open spec fn events(&self) -> Seq<usize> {
        self.steps()
    }

    open spec fn capacity() -> nat {
        small_path_room() as nat
    }

    /// A path from the original root with no steps.
    fn empty() -> (r: Self)
        ensures
            r.origin() == 0,
            r.steps() == Seq::<usize>::empty(),
    {
        RelativePath::new(0)
    }

    /// Appends a step; the generation stays.
    fn push(&mut self, event: usize)
        ensures
            final(self).origin() == old(self).origin(),
            final(self).steps() == old(self).steps().push(event),
    {
        small_path_push(&mut self.path, event)
    }

    /// Whether `other`'s branch indices start with this path's; the
    /// generations are not compared.
    fn is_prefix_of(&self, other: &Self) -> (r: bool)
        ensures
            r == self.steps().is_prefix_of(other.steps()),
    {
        let mine = small_path_as_slice(&self.path);
        let theirs = small_path_as_slice(&other.path);
        if mine.len() > theirs.len() {
            return false;
        }
        let mut i: usize = 0;
        while i < mine.len()
            invariant
                mine@ == self.steps(),
                theirs@ == other.steps(),
                mine@.len() <= theirs@.len(),
                i <= mine@.len(),
                forall|j: int| 0 <= j < i ==> mine@[j] == theirs@[j],
            decreases mine@.len() - i,
        {
            if mine[i] != theirs[i] {
                assert(mine@ != theirs@.subrange(0, mine@.len() as int));
                return false;
            }
            i = i + 1;
        }
        assert(mine@ =~= theirs@.subrange(0, mine@.len() as int));
        true
    }

    /// Appends the steps of `slice`; the generation stays.
    fn extend_with_slice(&mut self, slice: &[usize])
        ensures
            final(self).origin() == old(self).origin(),
            final(self).steps() == old(self).steps() + slice@,
    {
        small_path_extend(&mut self.path, slice)
    }
}

} // verus!
