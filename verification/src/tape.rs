use std::cmp::Ordering;
use vstd::prelude::*;

verus! {

/// A replayable recording: a sequence of events that can be extended and
/// compared by prefix.
pub trait EventReplay: Sized {
    type EventType;

    /// The events recorded, oldest first.
    spec fn events(&self) -> Seq<Self::EventType>;

    /// How many events a recording can hold.
    spec fn capacity() -> nat;

    /// A recording with no events.
    fn empty() -> (r: Self)
        ensures
            r.events() =~= Seq::<Self::EventType>::empty(),
    ;

    fn push(&mut self, event: Self::EventType)
        requires
            old(self).events().len() < Self::capacity(),
        ensures
            final(self).events() == old(self).events().push(event),
    ;

    fn is_prefix_of(&self, other: &Self) -> (r: bool)
        ensures
            r == self.events().is_prefix_of(other.events()),
    ;

    fn extend_with_slice(&mut self, slice: &[Self::EventType])
        requires
            old(self).events().len() + slice@.len() <= Self::capacity(),
        ensures
            final(self).events() == old(self).events() + slice@,
    ;
}

/// A recording that can list every recording one event longer.
pub trait DynamicEventReplay: EventReplay where Self::EventType: StaticEvent {
    /// The recordings that extend this one by each event, in branching order.
    fn children(&self) -> (r: Vec<Self>)
        requires
            self.events().len() < Self::capacity(),
        ensures
            r@.len() == Self::EventType::variants().len(),
            forall|i: int|
                0 <= i < r@.len() ==> #[trigger] r@[i].events() == self.events().push(
                    Self::EventType::variants()[i],
                ),
    ;
}

/// An event type with a fixed, ordered, finite set of values: the branching
/// alternatives at every node of the reduction tree.
pub trait StaticEvent: Sized {
    /// All values of the type, in branching order.
    spec fn variants() -> Seq<Self>;

    fn variant_count() -> (n: usize)
        ensures
            n == Self::variants().len(),
    ;

    fn variant(index: usize) -> (e: Self)
        requires
            index < Self::variants().len(),
        ensures
            e == Self::variants()[index as int],
    ;
}

/// The rules by which a scheduler judges the interpretations that workers
/// report.
pub trait SelectionPolicy<S> {
    /// `s` rules out its whole subtree.
    spec fn rejects(s: S) -> bool;

    /// `s` is good enough to move the search below it at once.
    spec fn accepts(s: S) -> bool;

    /// `a` is strictly worse than `b`.
    spec fn ranks_below(a: S, b: S) -> bool;

    /// `Less` when `a` ranks below `b`, `Greater` when `b` ranks below `a`,
    /// `Equal` when neither does.
    fn compare(a: &S, b: &S) -> (o: Ordering)
        ensures
            (o == Ordering::Less) == Self::ranks_below(*a, *b),
            (o == Ordering::Greater) == Self::ranks_below(*b, *a),
            (o == Ordering::Equal) == (!Self::ranks_below(*a, *b) && !Self::ranks_below(*b, *a)),
    ;

    fn may_reject(s: &S) -> (r: bool)
        ensures
            r == Self::rejects(*s),
    ;

    fn may_accept(s: &S) -> (r: bool)
        ensures
            r == Self::accepts(*s),
    ;
}

} // verus!

verus! {

/// Whether the policy ranks `a` strictly below `b`.
pub fn is_worse<S, P: SelectionPolicy<S>>(a: &S, b: &S) -> (r: bool)
    ensures
        r == P::ranks_below(*a, *b),
{
    match P::compare(a, b) {
        Ordering::Less => true,
        _ => false,
    }
}

/// A recording is a prefix of itself extended by any events: what `push`
/// or `extend_with_slice` produce, `is_prefix_of` recognises.
pub proof fn lemma_extension_is_prefix<T: EventReplay>(before: T, after: T, added: Seq<T::EventType>)
    requires
        after.events() == before.events() + added,
    ensures
        before.events().is_prefix_of(after.events()),
{
    assert(before.events() =~= after.events().subrange(0, before.events().len() as int));
}

} // verus!
