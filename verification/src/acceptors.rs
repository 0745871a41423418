use crate::breadth_first::strict_weak_order;
use crate::ddmin::DDMinEvent;
use crate::dry::MockInterpretation;
use crate::reduce::MockInterpretationResult;
use crate::tape::SelectionPolicy;
use std::cmp::Ordering;
use vstd::prelude::*;

verus! {

/// Accepts a path whose interpretation is `true` and rejects one whose
/// interpretation is `false`.
pub struct BooleanAcceptor;

impl SelectionPolicy<MockInterpretation> for BooleanAcceptor {
    open spec fn rejects(s: MockInterpretation) -> bool {
        !s.0
    }

    open spec fn accepts(s: MockInterpretation) -> bool {
        s.0
    }

    /// `false` orders before `true`.
    open spec fn ranks_below(a: MockInterpretation, b: MockInterpretation) -> bool {
        !a.0 && b.0
    }

    fn compare(a: &MockInterpretation, b: &MockInterpretation) -> (o: Ordering) {
        match (a.0, b.0) {
            (false, true) => Ordering::Less,
            (true, false) => Ordering::Greater,
            _ => Ordering::Equal,
        }
    }

    fn may_reject(s: &MockInterpretation) -> (r: bool) {
        !s.0
    }

    fn may_accept(s: &MockInterpretation) -> (r: bool) {
        s.0
    }
}

/// Rejects dead paths, never accepts at once, and prefers shorter valid
/// queries.
pub struct MockResultInterpretor;

impl SelectionPolicy<MockInterpretationResult> for MockResultInterpretor {
    open spec fn rejects(s: MockInterpretationResult) -> bool {
        s is Dead
    }

    open spec fn accepts(s: MockInterpretationResult) -> bool {
        false
    }

    /// A dead result ranks below a valid one, and a longer valid query below
    /// a shorter one.
    open spec fn ranks_below(a: MockInterpretationResult, b: MockInterpretationResult) -> bool {
        match (a, b) {
            (
                MockInterpretationResult::Valid { length: l1 },
                MockInterpretationResult::Valid { length: l2 },
            ) => l2 < l1,
            (MockInterpretationResult::Dead, MockInterpretationResult::Valid { .. }) => true,
            _ => false,
        }
    }

    fn compare(a: &MockInterpretationResult, b: &MockInterpretationResult) -> (o: Ordering) {
        match (a, b) {
            (
                MockInterpretationResult::Valid { length: l1 },
                MockInterpretationResult::Valid { length: l2 },
            ) => {
                if *l2 < *l1 {
                    Ordering::Less
                } else if *l2 == *l1 {
                    Ordering::Equal
                } else {
                    Ordering::Greater
                }
            },
            (MockInterpretationResult::Dead, MockInterpretationResult::Dead) => Ordering::Equal,
            (MockInterpretationResult::Valid { .. }, MockInterpretationResult::Dead) => {
                Ordering::Greater
            },
            (MockInterpretationResult::Dead, MockInterpretationResult::Valid { .. }) => {
                Ordering::Less
            },
        }
    }

    fn may_reject(s: &MockInterpretationResult) -> (r: bool) {
        match s {
            MockInterpretationResult::Dead => true,
            _ => false,
        }
    }

    fn may_accept(s: &MockInterpretationResult) -> (r: bool) {
        false
    }
}

/// Judges delta-debugging outcomes: a dead outcome (`false`) rules its
/// branch out, a live one (`true`) is taken at once.
pub struct DDMinPolicy;

impl SelectionPolicy<DDMinEvent> for DDMinPolicy {
    open spec fn rejects(s: DDMinEvent) -> bool {
        !s.0
    }

    open spec fn accepts(s: DDMinEvent) -> bool {
        s.0
    }

    /// A dead outcome orders before a live one.
    open spec fn ranks_below(a: DDMinEvent, b: DDMinEvent) -> bool {
        !a.0 && b.0
    }

    fn compare(a: &DDMinEvent, b: &DDMinEvent) -> (o: Ordering) {
        match (a.0, b.0) {
            (false, true) => Ordering::Less,
            (true, false) => Ordering::Greater,
            _ => Ordering::Equal,
        }
    }

    fn may_reject(s: &DDMinEvent) -> (r: bool) {
        s.is_dead()
    }

    fn may_accept(s: &DDMinEvent) -> (r: bool) {
        !s.is_dead()
    }
}

/// How `MockResultInterpretor` ranks results: one valid query ranks below
/// another exactly when it is longer, a dead result ranks below every valid
/// one, and nothing ranks below a dead result.
pub proof fn lemma_mock_ranking(l1: usize, l2: usize)
    ensures
        MockResultInterpretor::ranks_below(
            MockInterpretationResult::Valid { length: l1 },
            MockInterpretationResult::Valid { length: l2 },
        ) <==> l2 < l1,
        MockResultInterpretor::ranks_below(
            MockInterpretationResult::Dead,
            MockInterpretationResult::Valid { length: l2 },
        ),
        !MockResultInterpretor::ranks_below(
            MockInterpretationResult::Valid { length: l1 },
            MockInterpretationResult::Dead,
        ),
        !MockResultInterpretor::ranks_below(
            MockInterpretationResult::Dead,
            MockInterpretationResult::Dead,
        ),
{
}

/// `MockResultInterpretor` and `BooleanAcceptor` rank results by strict weak
/// orders, so the walk that moves the root down picks the earliest of the
/// best children under them.
pub proof fn lemma_rankings_are_weak_orders()
    ensures
        strict_weak_order::<MockInterpretationResult, MockResultInterpretor>(),
        strict_weak_order::<MockInterpretation, BooleanAcceptor>(),
{
}

} // verus!
