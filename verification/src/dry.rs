use crate::tape::{DynamicEventReplay, EventReplay, StaticEvent};
use im::Vector;
use vstd::prelude::*;

verus! {

#[verifier::external_type_specification]
#[verifier::external_body]
#[verifier::reject_recursive_types(A)]
pub struct ExVector<A>(Vector<A>);

/// A branching choice: whether to take the step (`true`) or not.
#[derive(Debug, Default, Clone, Copy, PartialEq, Eq, PartialOrd, Ord, Hash)]
pub struct MockEvent(pub bool);

/// The flags of the events an `im::Vector` of events holds, in order.
pub uninterp spec fn mock_vector_flags(v: Vector<MockEvent>) -> Seq<bool>;

/// Calls `Vector::new`: the result holds no events.
#[verifier::external_body]
fn mock_vector_new() -> (r: Vector<MockEvent>)
    ensures
        mock_vector_flags(r) == Seq::<bool>::empty(),
{
    Vector::new()
}

/// Calls `Vector::clone`: the copy holds the same events.
#[verifier::external_body]
fn mock_vector_clone(v: &Vector<MockEvent>) -> (r: Vector<MockEvent>)
    ensures
        mock_vector_flags(r) == mock_vector_flags(*v),
{
    v.clone()
}

/// Calls `Vector::len`: the number of events.
#[verifier::external_body]
fn mock_vector_len(v: &Vector<MockEvent>) -> (r: usize)
    ensures
        r == mock_vector_flags(*v).len(),
{
    v.len()
}

/// Calls `Vector::get` and copies the event out: the event at `index`, or
/// `None` past the end.
#[verifier::external_body]
fn mock_vector_get(v: &Vector<MockEvent>, index: usize) -> (r: Option<MockEvent>)
    ensures
        index < mock_vector_flags(*v).len() ==> r == Some(MockEvent(mock_vector_flags(*v)[index as int])),
        index >= mock_vector_flags(*v).len() ==> r is None,
{
    v.get(index).copied()
}

/// Calls `Vector::push_back`, which appends the event; it panics only when
/// the length would overflow, which the precondition rules out.
#[verifier::external_body]
fn mock_vector_push_back(v: &mut Vector<MockEvent>, e: MockEvent)
    requires
        mock_vector_flags(*old(v)).len() < usize::MAX,
    ensures
        mock_vector_flags(*final(v)) == mock_vector_flags(*old(v)).push(e.0),
{
    v.push_back(e)
}

/// Calls `Extend::extend` of `Vector` with the copied events of a slice,
/// which pushes them at the back in order; the length bound rules out its
/// overflow panic.
#[verifier::external_body]
fn mock_vector_extend(v: &mut Vector<MockEvent>, s: &[MockEvent])
    requires
        mock_vector_flags(*old(v)).len() + s@.len() <= usize::MAX,
    ensures
        mock_vector_flags(*final(v)) == mock_vector_flags(*old(v)) + s@.map_values(
            |e: MockEvent| e.0,
        ),
{
    v.extend(s.iter().copied())
}

/// The events of a path whose flags are `flags`.
pub open spec fn mock_events(flags: Seq<bool>) -> Seq<MockEvent> {
    flags.map_values(|b: bool| MockEvent(b))
}

/// A recording of branching choices, held in a persistent `im::Vector`.
#[derive(Debug, Default, PartialEq, Eq, Hash)]
pub struct MockPath {
    pub p: Vector<MockEvent>,
}

impl Clone for MockPath {
    fn clone(&self) -> (r: Self)
        ensures
            r.events() == self.events(),
    {
        self.duplicate()
    }
}

impl MockPath {
    /// A second recording of the same events.
    pub fn duplicate(&self) -> (r: MockPath)
        ensures
            r.events() == self.events(),
    {
        MockPath { p: mock_vector_clone(&self.p) }
    }

    /// The number of events recorded.
    pub fn len(&self) -> (r: usize)
        ensures
            r == self.events().len(),
    {
        mock_vector_len(&self.p)
    }

    /// The event at `index`, if there is one.
    pub fn get(&self, index: usize) -> (r: Option<MockEvent>)
        ensures
            index < self.events().len() ==> r == Some(self.events()[index as int]),
            index >= self.events().len() ==> r is None,
    {
        mock_vector_get(&self.p, index)
    }
}

impl EventReplay for MockPath {
    type EventType = MockEvent;

    open spec fn events(&self) -> Seq<MockEvent> {
        mock_events(mock_vector_flags(self.p))
    }

    open spec fn capacity() -> nat {
        usize::MAX as nat
    }

    fn empty() -> (r: Self) {
        let r = MockPath { p: mock_vector_new() };
        assert(r.events() =~= Seq::<MockEvent>::empty());
        r
    }

    fn push(&mut self, event: MockEvent) {
        mock_vector_push_back(&mut self.p, event);
        assert(self.events() =~= old(self).events().push(event));
    }

    fn is_prefix_of(&self, other: &Self) -> (r: bool) {
        let n = mock_vector_len(&self.p);
        let m = mock_vector_len(&other.p);
        if n > m {
            return false;
        }
        let mut i: usize = 0;
        while i < n
            invariant
                n == self.events().len(),
                m == other.events().len(),
                n <= m,
                i <= n,
                forall|j: int| 0 <= j < i ==> self.events()[j] == other.events()[j],
            decreases n - i,
        {
            let a = mock_vector_get(&self.p, i);
            let b = mock_vector_get(&other.p, i);
            match (a, b) {
                (Some(x), Some(y)) => {
                    if x.0 != y.0 {
                        assert(self.events()[i as int] != other.events().subrange(
                            0,
                            n as int,
                        )[i as int]);
                        return false;
                    }
                },
                _ => {},
            }
            i = i + 1;
        }
        assert(self.events() =~= other.events().subrange(0, n as int));
        true
    }

    fn extend_with_slice(&mut self, slice: &[MockEvent]) {
        mock_vector_extend(&mut self.p, slice);
        assert(self.events() =~= old(self).events() + slice@);
    }
}

impl StaticEvent for MockEvent {
    open spec fn variants() -> Seq<MockEvent> {
        seq![MockEvent(true), MockEvent(false)]
    }

    fn variant_count() -> (n: usize) {
        2
    }

    fn variant(index: usize) -> (e: MockEvent) {
        if index == 0 {
            MockEvent(true)
        } else {
            MockEvent(false)
        }
    }
}

impl DynamicEventReplay for MockPath {
    fn children(&self) -> (r: Vec<MockPath>) {
        let mut r: Vec<MockPath> = Vec::new();
        let n = MockEvent::variant_count();
        let mut k: usize = 0;
        while k < n
            invariant
                n == MockEvent::variants().len(),
                self.events().len() < MockPath::capacity(),
                k <= n,
                r@.len() == k,
                forall|i: int|
                    0 <= i < k ==> #[trigger] r@[i].events() == self.events().push(
                        MockEvent::variants()[i],
                    ),
            decreases n - k,
        {
            let mut child = self.duplicate();
            child.push(MockEvent::variant(k));
            r.push(child);
            k = k + 1;
        }
        r
    }
}

/// The interpretation a worker gives a path: whether the bug still shows.
#[derive(Debug, Default, PartialEq, Eq, PartialOrd, Ord, Clone, Copy)]
pub struct MockInterpretation(pub bool);

/// The number of taken steps among `events`.
pub open spec fn taken_count(events: Seq<MockEvent>) -> nat
    decreases events.len(),
{
    if events.len() == 0 {
        0
    } else {
        taken_count(events.drop_last()) + if events.last().0 {
            1nat
        } else {
            0nat
        }
    }
}

/// The verdict of the stand-in oracle: the path shows the bug when it takes
/// an odd number of steps.
pub fn mock_oracle(path: &MockPath) -> (r: bool)
    ensures
        r == (taken_count(path.events()) % 2 == 1),
{
    let n = path.len();
    let mut count: usize = 0;
    let mut i: usize = 0;
    while i < n
        invariant
            n == path.events().len(),
            i <= n,
            count == taken_count(path.events().take(i as int)),
            count <= i,
        decreases n - i,
    {
        assert(path.events().take(i as int) =~= path.events().take(i + 1).drop_last());
        if let Some(e) = path.get(i) {
            if e.0 {
                count = count + 1;
            }
        }
        i = i + 1;
    }
    assert(path.events().take(n as int) =~= path.events());
    count % 2 == 1
}

/// The taken count is the number of taken events, wherever they stand.
pub proof fn lemma_taken_count_counts(events: Seq<MockEvent>)
    ensures
        taken_count(events) == events.filter(|e: MockEvent| e.0).len(),
    decreases events.len(),
{
    reveal(Seq::filter);
    if events.len() > 0 {
        lemma_taken_count_counts(events.drop_last());
    }
}

/// A step put in front of a path adds one to the taken count exactly when
/// it is taken: the count does not depend on where a step stands.
pub proof fn lemma_taken_count_prepend(e: MockEvent, events: Seq<MockEvent>)
    ensures
        taken_count(seq![e] + events) == taken_count(events) + if e.0 {
            1nat
        } else {
            0nat
        },
    decreases events.len(),
{
    if events.len() > 0 {
        assert((seq![e] + events).drop_last() =~= seq![e] + events.drop_last());
        assert((seq![e] + events).last() == events.last());
        lemma_taken_count_prepend(e, events.drop_last());
    } else {
        assert((seq![e] + events).drop_last() =~= Seq::<MockEvent>::empty());
        assert((seq![e] + events).last() == e);
        assert(taken_count(Seq::<MockEvent>::empty()) == 0);
    }
}

} // verus!
