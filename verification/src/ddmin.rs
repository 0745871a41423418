use crate::tape::{DynamicEventReplay, EventReplay, StaticEvent};
use vstd::prelude::*;

verus! {

/// A delta-debugging choice: keep the chunk under test (`true`) or drop it.
#[derive(Clone, Copy, PartialEq, Eq, PartialOrd, Ord, Debug, Default, Hash)]
pub struct DDMinEvent(pub bool);

impl From<bool> for DDMinEvent {
    fn from(value: bool) -> (r: Self) {
        Self(value)
    }
}

impl vstd::std_specs::convert::FromSpecImpl<bool> for DDMinEvent {
    open spec fn obeys_from_spec() -> bool {
        true
    }

    open spec fn from_spec(v: bool) -> Self {
        DDMinEvent(v)
    }
}

impl DDMinEvent {
    /// A `false` choice ends its branch.
    pub fn is_dead(&self) -> (r: bool)
        ensures
            r == !self.0,
    {
        !self.0
    }
}

impl StaticEvent for DDMinEvent {
    open spec fn variants() -> Seq<DDMinEvent> {
        seq![DDMinEvent(true), DDMinEvent(false)]
    }

    fn variant_count() -> (n: usize) {
        2
    }

    fn variant(index: usize) -> (e: DDMinEvent) {
        if index == 0 {
            DDMinEvent(true)
        } else {
            DDMinEvent(false)
        }
    }
}

/// A recording of delta-debugging choices.
#[derive(Debug, Default, Clone, PartialEq, Eq, Hash)]
pub struct DDMinPath(pub Vec<DDMinEvent>);

impl DDMinPath {
    /// The choices as plain booleans.
    pub fn to_list(&self) -> (r: Vec<bool>)
        ensures
            r@ == self.0@.map_values(|e: DDMinEvent| e.0),
    {
        let mut r: Vec<bool> = Vec::new();
        let mut i: usize = 0;
        while i < self.0.len()
            invariant
                i <= self.0@.len(),
                r@ == self.0@.take(i as int).map_values(|e: DDMinEvent| e.0),
            decreases self.0@.len() - i,
        {
            r.push(self.0[i].0);
            i = i + 1;
            assert(r@ =~= self.0@.take(i as int).map_values(|e: DDMinEvent| e.0));
        }
        assert(self.0@.take(self.0@.len() as int) =~= self.0@);
        r
    }

    /// A new recording with `event` appended.
    pub fn extend(&self, event: DDMinEvent) -> (r: Self)
        requires
            self.0@.len() < usize::MAX,
        ensures
            r.0@ == self.0@.push(event),
    {
        let mut v: Vec<DDMinEvent> = Vec::new();
        let mut i: usize = 0;
        while i < self.0.len()
            invariant
                i <= self.0@.len(),
                v@ == self.0@.take(i as int),
            decreases self.0@.len() - i,
        {
            v.push(self.0[i]);
            i = i + 1;
            assert(v@ =~= self.0@.take(i as int));
        }
        assert(self.0@.take(self.0@.len() as int) =~= self.0@);
        v.push(event);
        DDMinPath(v)
    }
}

impl EventReplay for DDMinPath {
    type EventType = DDMinEvent;

    open spec fn events(&self) -> Seq<DDMinEvent> {
        self.0@
    }

    open spec fn capacity() -> nat {
        usize::MAX as nat
    }

    fn empty() -> (r: Self) {
        DDMinPath(Vec::new())
    }

    fn push(&mut self, event: DDMinEvent) {
        self.0.push(event);
    }

    fn is_prefix_of(&self, other: &Self) -> (r: bool) {
        if self.0.len() > other.0.len() {
            return false;
        }
        let mut i: usize = 0;
        while i < self.0.len()
            invariant
                self.0@.len() <= other.0@.len(),
                i <= self.0@.len(),
                forall|j: int| 0 <= j < i ==> self.0@[j] == other.0@[j],
            decreases self.0@.len() - i,
        {
            if self.0[i].0 != other.0[i].0 {
                assert(self.0@ != other.0@.subrange(0, self.0@.len() as int));
                return false;
            }
            i = i + 1;
        }
        assert(self.0@ =~= other.0@.subrange(0, self.0@.len() as int));
        true
    }

    fn extend_with_slice(&mut self, slice: &[DDMinEvent]) {
        let ghost start = self.0@;
        let mut i: usize = 0;
        while i < slice.len()
            invariant
                i <= slice@.len(),
                start.len() + slice@.len() <= usize::MAX,
                self.0@ == start + slice@.take(i as int),
            decreases slice@.len() - i,
        {
            self.0.push(slice[i]);
            i = i + 1;
            assert(self.0@ =~= start + slice@.take(i as int));
        }
        assert(slice@.take(slice@.len() as int) =~= slice@);
    }
}

impl DynamicEventReplay for DDMinPath {
    fn children(&self) -> (r: Vec<DDMinPath>) {
        let mut r: Vec<DDMinPath> = Vec::new();
        let n = DDMinEvent::variant_count();
        let mut k: usize = 0;
        while k < n
            invariant
                n == DDMinEvent::variants().len(),
                self.events().len() < DDMinPath::capacity(),
                k <= n,
                r@.len() == k,
                forall|i: int|
                    0 <= i < k ==> #[trigger] r@[i].events() == self.events().push(
                        DDMinEvent::variants()[i],
                    ),
            decreases n - k,
        {
            let child = self.extend(DDMinEvent::variant(k));
            r.push(child);
            k = k + 1;
        }
        r
    }
}

} // verus!
