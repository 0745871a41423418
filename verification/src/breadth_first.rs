use crate::relative_path::RelativePath;
use crate::sync::Canceable;
use crate::tape::{is_worse, EventReplay, SelectionPolicy, StaticEvent};
use crate::scheduled::ScheduledStep;
use crate::step_scheduler::StepScheduler;
use std::collections::VecDeque;
use std::marker::PhantomData;
use vstd::prelude::*;

verus! {

/// What a finished child tells its parent about moving the search below it.
pub enum Advanceable {
    /// The child is good enough: the parent may hand over at once.
    Force,
    /// The child does not decide on its own.
    May,
}

/// A scheduled task in the reduction tree, held in the scheduler's arena and
/// named there by its index.
pub struct TreeNode<C, S, const N: usize> {
    children: Vec<Option<usize>>,
    token: C,
    generation: u64,
    result: Option<S>,
    parent: Option<usize>,
    slot: usize,
}

/// The children of the current root of the reduction tree.
pub struct Tree<const N: usize> {
    children: Vec<Option<usize>>,
}

/// `n` empty child slots.
pub open spec fn empty_slots(n: nat) -> Seq<Option<usize>> {
    Seq::new(n, |k: int| None::<usize>)
}

impl<C, S, const N: usize> TreeNode<C, S, N> {
    /// The arena index of the task in each branch below this one, if scheduled.
    pub closed spec fn child_slots(&self) -> Seq<Option<usize>> {
        self.children@
    }

    /// The interpretation a worker reported for the task, if any.
    pub closed spec fn outcome(&self) -> Option<S> {
        self.result
    }

    /// The depth of the task below the original root.
    pub closed spec fn level(&self) -> u64 {
        self.generation
    }

    /// The arena index of the task this one branched from, if it has one.
    pub closed spec fn up(&self) -> Option<usize> {
        self.parent
    }

    /// The branch taken below the parent.
    pub closed spec fn branch(&self) -> usize {
        self.slot
    }

    /// The cancellation token the task was scheduled with.
    pub closed spec fn token_of(&self) -> C {
        self.token
    }

    pub fn new(token: C, generation: u64) -> (r: Self)
        ensures
            r.child_slots() == empty_slots(N as nat),
            r.outcome() is None,
            r.level() == generation,
            r.up() is None,
            r.branch() == 0,
            r.token_of() == token,
    {
        let children = empty_children(N);
        Self { children, token, generation, result: None, parent: None, slot: 0 }
    }
}

fn empty_children(n: usize) -> (r: Vec<Option<usize>>)
    ensures
        r@ == empty_slots(n as nat),
{
    let mut v: Vec<Option<usize>> = Vec::new();
    let mut k: usize = 0;
    while k < n
        invariant
            k <= n,
            v@ == empty_slots(k as nat),
        decreases n - k,
    {
        v.push(None);
        k = k + 1;
        assert(v@ =~= empty_slots(k as nat));
    }
    assert(v@ =~= empty_slots(n as nat));
    v
}

/// The reported interpretation of the task at `j`, if `j` names a task that
/// has one.
pub open spec fn result_at<C, S, const N: usize>(nodes: Seq<TreeNode<C, S, N>>, j: int) -> Option<
    S,
> {
    if 0 <= j < nodes.len() {
        nodes[j].outcome()
    } else {
        None
    }
}

/// Branch `k` holds a task whose result is in.
pub open spec fn slot_done<C, S, const N: usize>(
    nodes: Seq<TreeNode<C, S, N>>,
    children: Seq<Option<usize>>,
    k: int,
) -> bool {
    children[k] is Some && result_at(nodes, children[k]->0 as int) is Some
}

/// Branch `k` holds a task whose result the policy accepts.
pub open spec fn slot_accepted<C, S, const N: usize, P: SelectionPolicy<S>>(
    nodes: Seq<TreeNode<C, S, N>>,
    children: Seq<Option<usize>>,
    k: int,
) -> bool {
    slot_done(nodes, children, k) && P::accepts(result_at(nodes, children[k]->0 as int)->0)
}

/// A parent with these children may hand the search over to one of them:
/// some child is accepted, or every branch has a finished child.
pub open spec fn ready_to_advance<C, S, const N: usize, P: SelectionPolicy<S>>(
    nodes: Seq<TreeNode<C, S, N>>,
    children: Seq<Option<usize>>,
) -> bool {
    ||| exists|k: int| 0 <= k < children.len() && slot_accepted::<C, S, N, P>(nodes, children, k)
    ||| forall|k: int| 0 <= k < children.len() ==> slot_done(nodes, children, k)
}

/// The best finished child among branches `k..`, given the best `best` among
/// the branches before: rejected children never count, the first accepted
/// one wins at once, and otherwise a child replaces the best so far only if
/// the best so far ranks below it. Returns the branch and the task.
pub open spec fn best_from<C, S, const N: usize, P: SelectionPolicy<S>>(
    nodes: Seq<TreeNode<C, S, N>>,
    children: Seq<Option<usize>>,
    k: int,
    best: Option<(usize, usize)>,
) -> Option<(usize, usize)>
    decreases children.len() - k,
{
    if 0 <= k < children.len() {
        if slot_done(nodes, children, k) && !P::rejects(
            result_at(nodes, children[k]->0 as int)->0,
        ) {
            let j = children[k]->0;
            let r = result_at(nodes, j as int)->0;
            if P::accepts(r) {
                Some((k as usize, j))
            } else if best is None || P::ranks_below(result_at(nodes, (best->0).1 as int)->0, r) {
                best_from::<C, S, N, P>(nodes, children, k + 1, Some((k as usize, j)))
            } else {
                best_from::<C, S, N, P>(nodes, children, k + 1, best)
            }
        } else {
            best_from::<C, S, N, P>(nodes, children, k + 1, best)
        }
    } else {
        best
    }
}

/// The best finished child among all branches.
pub open spec fn best_child<C, S, const N: usize, P: SelectionPolicy<S>>(
    nodes: Seq<TreeNode<C, S, N>>,
    children: Seq<Option<usize>>,
) -> Option<(usize, usize)> {
    best_from::<C, S, N, P>(nodes, children, 0, None)
}

/// From the task at `start`, keep moving to the best child while the task
/// is ready to advance. Returns the branches taken and the task reached.
pub open spec fn descend<C, S, const N: usize, P: SelectionPolicy<S>>(
    nodes: Seq<TreeNode<C, S, N>>,
    start: int,
) -> (Seq<usize>, int)
    decreases nodes.len() - start,
{
    if 0 <= start < nodes.len() && ready_to_advance::<C, S, N, P>(nodes, nodes[start].child_slots()) {
        match best_child::<C, S, N, P>(nodes, nodes[start].child_slots()) {
            Some(b) => {
                if start < b.1 < nodes.len() {
                    let rest = descend::<C, S, N, P>(nodes, b.1 as int);
                    (seq![b.0] + rest.0, rest.1)
                } else {
                    (Seq::empty(), start)
                }
            },
            None => (Seq::empty(), start),
        }
    } else {
        (Seq::empty(), start)
    }
}

/// Whether these children let their parent advance (see `ready_to_advance`).
fn children_may_advance<C, S, const N: usize, P: SelectionPolicy<S>>(
    children: &Vec<Option<usize>>,
    nodes: &Vec<TreeNode<C, S, N>>,
) -> (r: bool)
    ensures
        r == ready_to_advance::<C, S, N, P>(nodes@, children@),
{
    let mut may_advance = true;
    let mut k: usize = 0;
    while k < children.len()
        invariant
            k <= children@.len(),
            may_advance == forall|i: int| 0 <= i < k ==> slot_done(nodes@, children@, i),
            forall|i: int| 0 <= i < k ==> !slot_accepted::<C, S, N, P>(nodes@, children@, i),
        decreases children@.len() - k,
    {
        match children[k] {
            None => {
                may_advance = false;
                assert(!slot_done(nodes@, children@, k as int));
            },
            Some(j) => {
                if j >= nodes.len() {
                    may_advance = false;
                    assert(!slot_done(nodes@, children@, k as int));
                } else {
                    match &nodes[j].result {
                        None => {
                            may_advance = false;
                            assert(!slot_done(nodes@, children@, k as int));
                        },
                        Some(r) => match advanceable::<S, P>(r) {
                            Advanceable::May => {
                                assert(slot_done(nodes@, children@, k as int));
                            },
                            Advanceable::Force => {
                                assert(slot_accepted::<C, S, N, P>(nodes@, children@, k as int));
                                return true;
                            },
                        },
                    }
                }
            },
        }
        assert(may_advance ==> slot_done(nodes@, children@, k as int));
        assert(!may_advance ==> !(forall|i: int| 0 <= i < k + 1 ==> slot_done(nodes@, children@, i)));
        k = k + 1;
    }
    may_advance
}

/// The signal a finished child with result `r` gives its parent.
fn advanceable<S, P: SelectionPolicy<S>>(r: &S) -> (a: Advanceable)
    ensures
        a is Force <==> P::accepts(*r),
{
    if P::may_accept(r) {
        Advanceable::Force
    } else {
        Advanceable::May
    }
}

/// The best finished child (see `best_child`): its branch and its task.
fn find_best<C, S, const N: usize, P: SelectionPolicy<S>>(
    children: &Vec<Option<usize>>,
    nodes: &Vec<TreeNode<C, S, N>>,
) -> (r: Option<(usize, usize)>)
    ensures
        r == best_child::<C, S, N, P>(nodes@, children@),
{
    let mut best: Option<(usize, usize)> = None;
    let mut k: usize = 0;
    while k < children.len()
        invariant
            k <= children@.len(),
            best_from::<C, S, N, P>(nodes@, children@, k as int, best) == best_child::<
                C,
                S,
                N,
                P,
            >(nodes@, children@),
            best matches Some(b) ==> result_at(nodes@, b.1 as int) is Some && b.1 < nodes@.len(),
        decreases children@.len() - k,
    {
        if let Some(j) = children[k] {
            if j < nodes.len() {
                if let Some(r) = &nodes[j].result {
                    if !P::may_reject(r) {
                        if P::may_accept(r) {
                            return Some((k, j));
                        }
                        let replace = match best {
                            None => true,
                            Some(b) => match &nodes[b.1].result {
                                Some(br) => is_worse::<S, P>(br, r),
                                None => true,
                            },
                        };
                        if replace {
                            best = Some((k, j));
                        }
                    }
                }
            }
        }
        k = k + 1;
    }
    best
}

impl<C, S, const N: usize> TreeNode<C, S, N> {
    /// Whether the search may move below the node (see `ready_to_advance`).
    pub fn may_advcance<P: SelectionPolicy<S>>(&self, nodes: &Vec<TreeNode<C, S, N>>) -> (r: bool)
        ensures
            r == ready_to_advance::<C, S, N, P>(nodes@, self.child_slots()),
    {
        children_may_advance::<C, S, N, P>(&self.children, nodes)
    }

    /// Walks down from the task at `start`, moving to the best child while the
    /// current task may advance. Returns the branches taken and the index of
    /// the task reached.
    pub fn walk_subtree<P: SelectionPolicy<S>>(nodes: &Vec<TreeNode<C, S, N>>, start: usize) -> (r: (
        Vec<usize>,
        usize,
    ))
        ensures
            r.0@ == descend::<C, S, N, P>(nodes@, start as int).0,
            r.1 == descend::<C, S, N, P>(nodes@, start as int).1,
    {
        let mut acc: Vec<usize> = Vec::new();
        let mut lowest: usize = start;
        loop
            invariant
                start <= lowest,
                descend::<C, S, N, P>(nodes@, start as int).0 == acc@ + descend::<C, S, N, P>(
                    nodes@,
                    lowest as int,
                ).0,
                descend::<C, S, N, P>(nodes@, start as int).1 == descend::<C, S, N, P>(
                    nodes@,
                    lowest as int,
                ).1,
            decreases nodes@.len() - lowest,
        {
            if lowest >= nodes.len() {
                assert(acc@ + Seq::<usize>::empty() =~= acc@);
                return (acc, lowest);
            }
            if !nodes[lowest].may_advcance::<P>(nodes) {
                assert(acc@ + Seq::<usize>::empty() =~= acc@);
                return (acc, lowest);
            }
            match find_best::<C, S, N, P>(&nodes[lowest].children, nodes) {
                Some(b) => {
                    if lowest < b.1 && b.1 < nodes.len() {
                        let ghost rest = descend::<C, S, N, P>(nodes@, b.1 as int);
                        assert(acc@.push(b.0) + rest.0 =~= acc@ + (seq![b.0] + rest.0));
                        acc.push(b.0);
                        lowest = b.1;
                    } else {
                        assert(acc@ + Seq::<usize>::empty() =~= acc@);
                        return (acc, lowest);
                    }
                },
                None => {
                    assert(acc@ + Seq::<usize>::empty() =~= acc@);
                    return (acc, lowest);
                },
            }
        }
    }
}

impl<const N: usize> Tree<N> {
    /// The children of the current root.
    pub closed spec fn slots(&self) -> Seq<Option<usize>> {
        self.children@
    }

    /// Whether the search may move below the current root.
    pub fn may_advcance<C, S, P: SelectionPolicy<S>>(&self, nodes: &Vec<TreeNode<C, S, N>>) -> (r:
        bool)
        ensures
            r == ready_to_advance::<C, S, N, P>(nodes@, self.slots()),
    {
        children_may_advance::<C, S, N, P>(&self.children, nodes)
    }
}

/// The first empty slot among `children[k..]`.
pub open spec fn first_free_from(children: Seq<Option<usize>>, k: int) -> Option<usize>
    decreases children.len() - k,
{
    if 0 <= k < children.len() {
        if children[k] is None {
            Some(k as usize)
        } else {
            first_free_from(children, k + 1)
        }
    } else {
        None
    }
}

/// What `first_free_from` finds: the first empty slot at or after `k`, or
/// none when every later slot is full.
pub proof fn lemma_first_free_from(children: Seq<Option<usize>>, k: int)
    requires
        0 <= k,
        children.len() <= usize::MAX,
    ensures
        match first_free_from(children, k) {
            Some(x) => {
                &&& k <= x < children.len()
                &&& children[x as int] is None
                &&& forall|y: int| k <= y < x ==> children[y] is Some
            },
            None => forall|y: int| k <= y < children.len() ==> children[y] is Some,
        },
    decreases children.len() - k,
{
    if k < children.len() && children[k] is Some {
        lemma_first_free_from(children, k + 1);
    }
}

/// The first empty slot among the children.
pub open spec fn first_free(children: Seq<Option<usize>>) -> Option<usize> {
    first_free_from(children, 0)
}

/// The branch indices from the original root down to the task at `i`,
/// following the recorded parents.
pub open spec fn path_to<C, S, const N: usize>(nodes: Seq<TreeNode<C, S, N>>, i: int) -> Seq<usize>
    decreases i,
{
    if 0 <= i < nodes.len() {
        match nodes[i].up() {
            Some(p) => {
                if 0 <= p < i {
                    path_to(nodes, p as int).push(nodes[i].branch())
                } else {
                    seq![nodes[i].branch()]
                }
            },
            None => seq![nodes[i].branch()],
        }
    } else {
        Seq::empty()
    }
}

/// The task at `i` still hangs in the tree: it is a child of the current
/// root (`anchor`, whose children are `roots`), or its parent still holds it
/// and hangs in the tree. Only such tasks are worth running.
pub open spec fn hangs<C, S, const N: usize>(
    nodes: Seq<TreeNode<C, S, N>>,
    roots: Seq<Option<usize>>,
    anchor: Option<usize>,
    i: int,
) -> bool
    decreases i,
{
    if 0 <= i < nodes.len() {
        let n = nodes[i];
        if n.up() == anchor && n.branch() < roots.len() && roots[n.branch() as int] == Some(
            i as usize,
        ) {
            true
        } else if n.up() is Some && 0 <= n.up()->0 < i {
            let p = n.up()->0 as int;
            &&& n.branch() < nodes[p].child_slots().len()
            &&& nodes[p].child_slots()[n.branch() as int] == Some(i as usize)
            &&& hangs(nodes, roots, anchor, p)
        } else {
            false
        }
    } else {
        false
    }
}

/// A breadth-first scheduler over the tree of speculative reduction steps.
///
/// Every task is a path of branch choices below the current root. Workers
/// take tasks with `next` and report interpretations with `put_result`;
/// once every child of the root has a result (or one is accepted), the root
/// moves down to the best child and then as far below it as results allow,
/// and every task off the new root's subtree is cancelled.
pub struct BFScheduler<T, E, C, S, P, const N: usize> {
    current_root: Vec<usize>,
    root_node: Option<usize>,
    root_generation: u64,
    tasks: Tree<N>,
    nodes: Vec<TreeNode<C, S, N>>,
    frontier: VecDeque<(RelativePath, usize)>,
    cancelled_tasks: Ghost<Set<usize>>,
    rejected_tasks: Ghost<Set<usize>>,
    _result: PhantomData<(T, E, S, P)>,
}

impl<T, E, C, S, P, const N: usize> BFScheduler<T, E, C, S, P, N> where
    C: Canceable,
    T: EventReplay<EventType = E>,
    E: StaticEvent,
    P: SelectionPolicy<S>,
 {
    /// The branch indices from the original root to the current root.
    pub closed spec fn root_path(&self) -> Seq<usize> {
        self.current_root@
    }

    /// The depth of the current root; `u64::MAX` once the search is done.
    pub closed spec fn root_gen(&self) -> u64 {
        self.root_generation
    }

    /// The task the current root is, if the root has moved.
    pub closed spec fn anchor(&self) -> Option<usize> {
        self.root_node
    }

    /// The children of the current root.
    pub closed spec fn roots(&self) -> Seq<Option<usize>> {
        self.tasks.children@
    }

    /// Every task ever scheduled, by index.
    pub closed spec fn arena(&self) -> Seq<TreeNode<C, S, N>> {
        self.nodes@
    }

    /// The tasks waiting for more children, in breadth-first order.
    pub closed spec fn pending(&self) -> Seq<usize> {
        self.frontier@.map_values(|e: (RelativePath, usize)| e.1)
    }

    /// The tasks whose tokens the scheduler has signalled.
    pub closed spec fn signalled(&self) -> Set<usize> {
        self.cancelled_tasks@
    }

    /// The tasks for which a result that rejects them was once recorded.
    pub closed spec fn ever_rejected(&self) -> Set<usize> {
        self.rejected_tasks@
    }

    /// Each task whose token has been signalled is exactly one that has
    /// left the tree, and `cancel` has been called on the token of each.
    pub open spec fn signals_ok(&self) -> bool {
        &&& self.signalled() == Set::new(|i: usize| i < self.arena().len() && !self.live(i as int))
        &&& forall|i: usize|
            #![trigger self.signalled().contains(i)]
            self.signalled().contains(i) ==> call_ensures(
                C::cancel,
                (&self.arena()[i as int].token_of(),),
                (),
            )
    }

    /// The task at `i` still hangs in the tree.
    pub open spec fn live(&self, i: int) -> bool {
        hangs(self.arena(), self.roots(), self.anchor(), i)
    }

    /// The events of the path to the task at `i`.
    pub open spec fn path_events(&self, i: int) -> Seq<E> {
        path_to(self.arena(), i).map_values(|x: usize| E::variants()[x as int])
    }

    /// The search has been told to stop.
    pub open spec fn done(&self) -> bool {
        self.root_gen() == u64::MAX
    }

    /// The task at `i` can take another child: it hangs in the tree, no
    /// reported result rejects it, and one of its slots is empty.
    pub open spec fn viable(&self, i: int) -> bool {
        &&& 0 <= i < self.arena().len()
        &&& self.live(i)
        &&& !(self.arena()[i].outcome() is Some && P::rejects(self.arena()[i].outcome()->0))
        &&& first_free(self.arena()[i].child_slots()) is Some
    }

    /// The position of the first viable task in `pending()[q..]`.
    pub open spec fn first_viable_from(&self, q: int) -> Option<int>
        decreases self.pending().len() - q,
    {
        if 0 <= q < self.pending().len() {
            if self.viable(self.pending()[q] as int) {
                Some(q)
            } else {
                self.first_viable_from(q + 1)
            }
        } else {
            None
        }
    }

    /// The frontier entry `e` locates its task relative to the current root.
    pub closed spec fn entry_ok(&self, e: (RelativePath, usize)) -> bool {
        &&& e.1 < self.nodes@.len()
        &&& self.live(e.1 as int) ==> {
            &&& e.0.origin() <= self.root_generation
            &&& self.current_root@.take(e.0.origin() as int) + e.0.steps() == path_to(
                self.nodes@,
                e.1 as int,
            )
        }
    }

    /// The shape that every task keeps from its creation on.
    pub closed spec fn node_ok(&self, i: int) -> bool {
        let n = self.nodes@[i];
        &&& n.children@.len() == N
        &&& n.slot < N
        &&& n.parent matches Some(p) ==> p < i
        &&& path_to(self.nodes@, i).len() == n.generation
        &&& path_to(self.nodes@, i).len() <= i + 1
        &&& forall|x: int|
            0 <= x < path_to(self.nodes@, i).len() ==> #[trigger] path_to(self.nodes@, i)[x] < N
        &&& forall|k: int|
            0 <= k < N && #[trigger] n.children@[k] is Some ==> {
                let j = n.children@[k]->0;
                &&& i < j < self.nodes@.len()
                &&& self.nodes@[j as int].parent == Some(i as usize)
                &&& self.nodes@[j as int].slot == k
            }
    }

    /// The scheduler's invariant.
    pub closed spec fn wf(&self) -> bool {
        &&& E::variants().len() == N
        &&& self.nodes@.len() < usize::MAX
        &&& self.tasks.children@.len() == N
        &&& forall|i: int| 0 <= i < self.nodes@.len() ==> #[trigger] self.node_ok(i)
        &&& forall|k: int|
            0 <= k < N && #[trigger] self.tasks.children@[k] is Some ==> {
                let j = self.tasks.children@[k]->0;
                &&& j < self.nodes@.len()
                &&& self.nodes@[j as int].parent == self.root_node
                &&& self.nodes@[j as int].slot == k
            }
        &&& forall|q: int|
            0 <= q < self.frontier@.len() ==> #[trigger] self.entry_ok(self.frontier@[q])
        &&& if self.root_generation == u64::MAX {
            &&& forall|k: int| 0 <= k < N ==> #[trigger] self.tasks.children@[k] is None
            &&& self.frontier@.len() == 0
        } else {
            &&& self.root_generation == self.current_root@.len()
            &&& forall|x: int|
                0 <= x < self.current_root@.len() ==> #[trigger] self.current_root@[x] < N
            &&& match self.root_node {
                Some(l) => l < self.nodes@.len() && path_to(self.nodes@, l as int)
                    == self.current_root@,
                None => self.current_root@.len() == 0,
            }
        }
    }

    pub fn new() -> (r: Self)
        requires
            E::variants().len() == N,
        ensures
            r.wf(),
            r.root_path() == Seq::<usize>::empty(),
            r.root_gen() == 0,
            r.anchor() is None,
            r.roots() == empty_slots(N as nat),
            r.arena().len() == 0,
            r.pending().len() == 0,
            r.signalled() == Set::<usize>::empty(),
            r.signals_ok(),
            r.rejected_closed(),
            r.queue_ok(),
            r.slots_ok(),
            r.laws_hold(),
    {
        let children = empty_children(N);
        let r = Self {
            current_root: Vec::new(),
            root_node: None,
            root_generation: 0,
            tasks: Tree { children },
            nodes: Vec::new(),
            frontier: VecDeque::new(),
            cancelled_tasks: Ghost(Set::empty()),
            rejected_tasks: Ghost(Set::empty()),
            _result: PhantomData,
        };
        assert(r.pending() =~= Seq::<usize>::empty());
        assert(r.signalled() =~= Set::new(|i: usize| i < r.arena().len() && !r.live(i as int)));
        r
    }
}

/// Task `j` sits in the same place, and is held by its parent and by the
/// root children in the same way, in both arenas.
pub open spec fn agree_at<C, S, const N: usize>(
    n1: Seq<TreeNode<C, S, N>>,
    r1: Seq<Option<usize>>,
    n2: Seq<TreeNode<C, S, N>>,
    r2: Seq<Option<usize>>,
    j: int,
) -> bool {
    &&& 0 <= j < n1.len()
    &&& j < n2.len()
    &&& n1[j].up() == n2[j].up()
    &&& n1[j].branch() == n2[j].branch()
    &&& (n1[j].branch() < r1.len() && r1[n1[j].branch() as int] == Some(j as usize)) == (
    n2[j].branch() < r2.len() && r2[n2[j].branch() as int] == Some(j as usize))
    &&& (n1[j].up() is Some && 0 <= n1[j].up()->0 < j) ==> {
        let p = n1[j].up()->0 as int;
        let b = n1[j].branch() as int;
        (b < n1[p].child_slots().len() && n1[p].child_slots()[b] == Some(j as usize)) == (b
            < n2[p].child_slots().len() && n2[p].child_slots()[b] == Some(j as usize))
    }
}

/// Where two arenas agree on every task up to `i`, `i` hangs in one exactly
/// when it hangs in the other.
pub proof fn lemma_hangs_frame<C, S, const N: usize>(
    n1: Seq<TreeNode<C, S, N>>,
    r1: Seq<Option<usize>>,
    n2: Seq<TreeNode<C, S, N>>,
    r2: Seq<Option<usize>>,
    anchor: Option<usize>,
    i: int,
)
    requires
        0 <= i,
        forall|j: int| 0 <= j <= i ==> #[trigger] agree_at(n1, r1, n2, r2, j),
    ensures
        hangs(n1, r1, anchor, i) == hangs(n2, r2, anchor, i),
    decreases i,
{
    assert(agree_at(n1, r1, n2, r2, i));
    if n1[i].up() is Some && 0 <= n1[i].up()->0 < i {
        lemma_hangs_frame(n1, r1, n2, r2, anchor, n1[i].up()->0 as int);
    }
}

/// Where two arenas agree on the parents and branches of every task up to
/// `i`, the paths to `i` are the same.
pub proof fn lemma_path_frame<C, S, const N: usize>(
    n1: Seq<TreeNode<C, S, N>>,
    n2: Seq<TreeNode<C, S, N>>,
    i: int,
)
    requires
        0 <= i < n1.len(),
        i < n2.len(),
        forall|j: int|
            0 <= j <= i ==> #[trigger] n1[j].up() == n2[j].up() && n1[j].branch() == n2[j].branch(),
    ensures
        path_to(n1, i) == path_to(n2, i),
    decreases i,
{
    assert(n1[i].up() == n2[i].up() && n1[i].branch() == n2[i].branch());
    if n1[i].up() is Some && 0 <= n1[i].up()->0 < i {
        lemma_path_frame(n1, n2, n1[i].up()->0 as int);
    }
}

impl<T, E, C, S, P, const N: usize> BFScheduler<T, E, C, S, P, N> where
    C: Canceable,
    T: EventReplay<EventType = E>,
    E: StaticEvent,
    P: SelectionPolicy<S>,
 {
    /// Two schedulers with the same tree but different queues: every judgement
    /// on tasks agrees, and the second keeps the invariant when each of its
    /// queue entries is in order.
    proof fn lemma_same_tree(s0: &Self, s1: &Self)
        requires
            s0.nodes@ == s1.nodes@,
            s0.tasks.children@ == s1.tasks.children@,
            s0.current_root@ == s1.current_root@,
            s0.root_node == s1.root_node,
            s0.root_generation == s1.root_generation,
        ensures
            forall|i: int| #[trigger] s0.node_ok(i) == s1.node_ok(i),
            forall|e: (RelativePath, usize)| #[trigger] s0.entry_ok(e) == s1.entry_ok(e),
            forall|i: int| #[trigger] s0.live(i) == s1.live(i),
            forall|i: int| #[trigger] s0.viable(i) == s1.viable(i),
            s0.wf() && (forall|q: int|
                0 <= q < s1.frontier@.len() ==> #[trigger] s1.entry_ok(s1.frontier@[q])) && (
            s1.root_generation == u64::MAX ==> s1.frontier@.len() == 0) ==> s1.wf(),
    {
        assert forall|i: int| #[trigger] s0.node_ok(i) == s1.node_ok(i) by {}
        assert forall|e: (RelativePath, usize)| #[trigger] s0.entry_ok(e) == s1.entry_ok(e) by {}
        if s0.wf() {
            assert forall|i: int| 0 <= i < s1.nodes@.len() implies #[trigger] s1.node_ok(i) by {
                assert(s0.node_ok(i));
            }
        }
    }

    /// Two schedulers that differ at most in their record of signalled
    /// tasks: the second keeps the invariant of the first.
    proof fn lemma_record_only(s0: &Self, s1: &Self)
        requires
            s0.wf(),
            s0.nodes@ == s1.nodes@,
            s0.tasks.children@ == s1.tasks.children@,
            s0.current_root@ == s1.current_root@,
            s0.root_node == s1.root_node,
            s0.root_generation == s1.root_generation,
            s0.frontier@ == s1.frontier@,
        ensures
            s1.wf(),
            forall|i: int| #![trigger s1.live(i)] s1.live(i) == s0.live(i),
    {
        Self::lemma_same_tree(s0, s1);
        assert forall|q: int| 0 <= q < s1.frontier@.len() implies #[trigger] s1.entry_ok(
            s1.frontier@[q],
        ) by {
            assert(s0.entry_ok(s0.frontier@[q]));
        }
    }

    /// A task's level is the length of its path, and while the search runs
    /// the root's depth is the length of the root path.
    pub proof fn lemma_levels(&self)
        requires
            self.wf(),
        ensures
            forall|i: int|
                0 <= i < self.arena().len() ==> #[trigger] self.arena()[i].level() == path_to(
                    self.arena(),
                    i,
                ).len(),
            !self.done() ==> self.root_gen() == self.root_path().len(),
    {
        assert forall|i: int|
            0 <= i < self.arena().len() implies #[trigger] self.arena()[i].level() == path_to(
            self.arena(),
            i,
        ).len() by {
            assert(self.node_ok(i));
        }
    }

    /// A task that hangs in the tree lies strictly below the current root.
    pub proof fn lemma_live_below_root(&self, i: int)
        requires
            self.wf(),
            !self.done(),
            self.live(i),
        ensures
            self.root_path().is_prefix_of(path_to(self.arena(), i)),
            path_to(self.arena(), i).len() > self.root_path().len(),
        decreases i,
    {
        let n = self.nodes@[i];
        assert(self.node_ok(i));
        if n.parent == self.root_node && n.slot < self.tasks.children@.len()
            && self.tasks.children@[n.slot as int] == Some(i as usize) {
            match self.root_node {
                Some(l) => {
                    assert(path_to(self.nodes@, i) == path_to(self.nodes@, l as int).push(n.slot));
                },
                None => {},
            }
            assert(self.current_root@ =~= path_to(self.nodes@, i).subrange(
                0,
                self.current_root@.len() as int,
            ));
        } else {
            let p = n.parent->0 as int;
            self.lemma_live_below_root(p);
            assert(path_to(self.nodes@, i) == path_to(self.nodes@, p).push(n.slot));
            assert(self.current_root@ =~= path_to(self.nodes@, i).subrange(
                0,
                self.current_root@.len() as int,
            ));
        }
    }
}

/// The first empty slot among the children (see `first_free`).
fn first_free_slot(children: &Vec<Option<usize>>) -> (r: Option<usize>)
    ensures
        r == first_free(children@),
{
    let mut k: usize = 0;
    while k < children.len()
        invariant
            k <= children@.len(),
            first_free_from(children@, k as int) == first_free(children@),
        decreases children@.len() - k,
    {
        if children[k].is_none() {
            return Some(k);
        }
        k = k + 1;
    }
    None
}

impl<T, E, C, S, P, const N: usize> BFScheduler<T, E, C, S, P, N> where
    C: Canceable,
    T: EventReplay<EventType = E>,
    E: StaticEvent,
    P: SelectionPolicy<S>,
 {
    /// Whether the task at `id` still hangs in the tree (see `hangs`).
    fn is_live(&self, id: usize) -> (r: bool)
        requires
            self.wf(),
        ensures
            r == self.live(id as int),
    {
        if id >= self.nodes.len() {
            return false;
        }
        let mut cur: usize = id;
        loop
            invariant
                self.wf(),
                cur < self.nodes@.len(),
                self.live(id as int) == self.live(cur as int),
            decreases cur,
        {
            let ghost i = cur as int;
            assert(self.node_ok(i));
            let n = &self.nodes[cur];
            let slot = n.slot;
            let in_roots = match self.tasks.children[slot] {
                Some(j) => j == cur,
                None => false,
            };
            let same_anchor = match (n.parent, self.root_node) {
                (Some(a), Some(b)) => a == b,
                (None, None) => true,
                _ => false,
            };
            if same_anchor && in_roots {
                return true;
            }
            match n.parent {
                Some(p) => {
                    assert(self.node_ok(p as int));
                    let held = match self.nodes[p].children[slot] {
                        Some(j) => j == cur,
                        None => false,
                    };
                    if held {
                        assert(self.live(cur as int) == self.live(p as int));
                        cur = p;
                    } else {
                        return false;
                    }
                },
                None => {
                    return false;
                },
            }
        }
    }

    /// Builds the recording for the current root followed by `steps`.
    fn replay(&self, steps: &[usize]) -> (t: T)
        requires
            self.wf(),
            !self.done(),
            forall|x: int| 0 <= x < steps@.len() ==> #[trigger] steps@[x] < N,
            self.root_path().len() + steps@.len() <= T::capacity(),
        ensures
            t.events() == (self.root_path() + steps@).map_values(|x: usize| E::variants()[x as int]),
    {
        let ghost all = self.root_path() + steps@;
        let mut t = T::empty();
        let mut x: usize = 0;
        while x < self.current_root.len()
            invariant
                self.wf(),
                !self.done(),
                self.root_path().len() + steps@.len() <= T::capacity(),
                all == self.root_path() + steps@,
                x <= self.current_root@.len(),
                t.events() == all.take(x as int).map_values(|y: usize| E::variants()[y as int]),
            decreases self.current_root@.len() - x,
        {
            let b = self.current_root[x];
            t.push(E::variant(b));
            assert(all.take(x + 1).map_values(|y: usize| E::variants()[y as int]) =~= all.take(
                x as int,
            ).map_values(|y: usize| E::variants()[y as int]).push(E::variants()[b as int]));
            x = x + 1;
        }
        let mut y: usize = 0;
        while y < steps.len()
            invariant
                self.wf(),
                all == self.root_path() + steps@,
                forall|z: int| 0 <= z < steps@.len() ==> #[trigger] steps@[z] < N,
                self.root_path().len() + steps@.len() <= T::capacity(),
                y <= steps@.len(),
                t.events() == all.take(self.root_path().len() + y).map_values(
                    |z: usize| E::variants()[z as int],
                ),
            decreases steps@.len() - y,
        {
            let b = steps[y];
            t.push(E::variant(b));
            assert(all.take(self.root_path().len() + y + 1).map_values(
                |z: usize| E::variants()[z as int],
            ) =~= all.take(self.root_path().len() + y).map_values(
                |z: usize| E::variants()[z as int],
            ).push(E::variants()[b as int]));
            y = y + 1;
        }
        assert(all.take(all.len() as int) =~= all);
        t
    }
}

impl<T, E, C, S, P, const N: usize> BFScheduler<T, E, C, S, P, N> where
    C: Canceable,
    T: EventReplay<EventType = E>,
    E: StaticEvent,
    P: SelectionPolicy<S>,
 {
    /// The path of `under`, the parent of a new task (the current root when
    /// `None`).
    pub open spec fn parent_path(&self, under: Option<usize>) -> Seq<usize> {
        match under {
            None => self.root_path(),
            Some(p) => path_to(self.arena(), p as int),
        }
    }

    /// Schedules a new task with `token` in slot `k` below `under` (the
    /// current root when `None`).
    fn add_task(&mut self, token: C, under: Option<usize>, k: usize) -> (id: usize)
        requires
            old(self).wf(),
            !old(self).done(),
            old(self).nodes@.len() + 1 < usize::MAX,
            k < N,
            match under {
                None => old(self).tasks.children@[k as int] is None,
                Some(p) => {
                    &&& p < old(self).nodes@.len()
                    &&& old(self).live(p as int)
                    &&& old(self).nodes@[p as int].children@[k as int] is None
                },
            },
        ensures
            id == old(self).nodes@.len(),
            final(self).wf(),
            final(self).nodes@.len() == id + 1,
            final(self).current_root@ == old(self).current_root@,
            final(self).root_node == old(self).root_node,
            final(self).root_generation == old(self).root_generation,
            final(self).frontier@ == old(self).frontier@,
            final(self).live(id as int),
            forall|i: int| 0 <= i < id ==> final(self).live(i) == old(self).live(i),
            forall|i: int|
                0 <= i < id ==> path_to(final(self).nodes@, i) == path_to(old(self).nodes@, i),
            path_to(final(self).nodes@, id as int) == old(self).parent_path(under).push(k),
            final(self).nodes@[id as int].result is None,
            final(self).nodes@[id as int].children@ == empty_slots(N as nat),
            final(self).nodes@[id as int].parent == (match under {
                None => old(self).root_node,
                Some(p) => Some(p),
            }),
            final(self).nodes@[id as int].slot == k,
            final(self).nodes@[id as int].token == token,
            final(self).signalled() == old(self).signalled(),
            final(self).ever_rejected() == old(self).ever_rejected(),
            match under {
                None => {
                    &&& final(self).tasks.children@ == old(self).tasks.children@.update(
                        k as int,
                        Some(id),
                    )
                    &&& forall|i: int| 0 <= i < id ==> final(self).nodes@[i] == old(self).nodes@[i]
                },
                Some(p) => {
                    &&& final(self).tasks.children@ == old(self).tasks.children@
                    &&& forall|i: int|
                        0 <= i < id && i != p ==> final(self).nodes@[i] == old(self).nodes@[i]
                    &&& final(self).nodes@[p as int].children@ == old(
                        self,
                    ).nodes@[p as int].children@.update(k as int, Some(id))
                    &&& final(self).nodes@[p as int].result == old(self).nodes@[p as int].result
                    &&& final(self).nodes@[p as int].generation == old(
                        self,
                    ).nodes@[p as int].generation
                    &&& final(self).nodes@[p as int].parent == old(self).nodes@[p as int].parent
                    &&& final(self).nodes@[p as int].slot == old(self).nodes@[p as int].slot
                    &&& final(self).nodes@[p as int].token == old(self).nodes@[p as int].token
                },
            },
    {
        let id = self.nodes.len();
        let generation: u64 = match under {
            None => self.root_generation + 1,
            Some(p) => {
                assert(self.node_ok(p as int));
                self.nodes[p].generation + 1
            },
        };
        let mut node = TreeNode::new(token, generation);
        node.parent = match under {
            None => self.root_node,
            Some(p) => Some(p),
        };
        node.slot = k;
        self.nodes.push(node);
        match under {
            None => {
                self.tasks.children.set(k, Some(id));
            },
            Some(p) => {
                self.nodes[p].children.set(k, Some(id));
            },
        }
        proof {
            let n1 = old(self).nodes@;
            let n2 = self.nodes@;
            let r1 = old(self).tasks.children@;
            let r2 = self.tasks.children@;
            assert forall|j: int| 0 <= j < id implies n2[j].up() == n1[j].up() && n2[j].branch()
                == n1[j].branch() by {}
            assert forall|i: int| 0 <= i < id implies path_to(n2, i) == path_to(n1, i) by {
                lemma_path_frame(n1, n2, i);
            }
            assert forall|j: int| 0 <= j < id implies #[trigger] agree_at(n1, r1, n2, r2, j) by {
                assert(old(self).node_ok(j));
            }
            assert forall|i: int| 0 <= i < id implies self.live(i) == old(self).live(i) by {
                lemma_hangs_frame(n1, r1, n2, r2, self.root_node, i);
            }
            match under {
                None => {
                    match self.root_node {
                        Some(l) => {
                            assert(path_to(n2, id as int) == path_to(n2, l as int).push(k));
                        },
                        None => {
                            assert(path_to(n2, id as int) =~= seq![k]);
                            assert(old(self).current_root@.push(k) =~= seq![k]);
                        },
                    }
                },
                Some(p) => {
                    assert(path_to(n2, id as int) == path_to(n2, p as int).push(k));
                },
            }
            assert(self.live(id as int));
            assert forall|i: int| 0 <= i < n2.len() implies #[trigger] self.node_ok(i) by {
                if i < id {
                    assert(old(self).node_ok(i));
                    let c1 = n1[i].children@;
                    let c2 = n2[i].children@;
                    assert forall|kk: int| 0 <= kk < N && #[trigger] c2[kk] is Some implies {
                        let j = c2[kk]->0;
                        &&& i < j < n2.len()
                        &&& n2[j as int].parent == Some(i as usize)
                        &&& n2[j as int].slot == kk
                    } by {
                        if c1[kk] is Some {
                            assert(c2[kk] == c1[kk]);
                        }
                    }
                    assert(c2.len() == N);
                    assert(n2[i].slot < N);
                    assert(n2[i].parent matches Some(pp) ==> pp < i);
                    assert(path_to(n2, i) == path_to(n1, i));
                    assert(path_to(n2, i).len() == n2[i].generation);
                    assert(path_to(n2, i).len() <= i + 1);
                    assert forall|x: int| 0 <= x < path_to(n2, i).len() implies #[trigger] path_to(
                        n2,
                        i,
                    )[x] < N by {
                        assert(path_to(n1, i)[x] < N);
                    }
                } else {
                    match under {
                        None => {},
                        Some(p) => {
                            assert(old(self).node_ok(p as int));
                        },
                    }
                    assert(i == id);
                    match under {
                        None => {
                            match self.root_node {
                                Some(l) => {
                                    assert(old(self).node_ok(l as int));
                                },
                                None => {},
                            }
                        },
                        Some(p) => {
                            assert(old(self).node_ok(p as int));
                        },
                    }
                    assert(n2[i].children@ == empty_slots(N as nat));
                    assert(path_to(n2, i).len() == n2[i].generation);
                    assert(path_to(n2, i).len() <= i + 1);
                    let path = path_to(n2, i);
                    assert forall|x: int| 0 <= x < path.len() implies #[trigger] path[x] < N by {
                        match under {
                            None => {},
                            Some(p) => {
                                assert(old(self).node_ok(p as int));
                                if x < path.len() - 1 {
                                    assert(path[x] == path_to(n1, p as int)[x]);
                                }
                            },
                        }
                    }
                }
            }
            assert forall|q: int| 0 <= q < self.frontier@.len() implies #[trigger] self.entry_ok(
                self.frontier@[q],
            ) by {
                assert(old(self).entry_ok(self.frontier@[q]));
            }
            match self.root_node {
                Some(l) => {
                    assert(path_to(n2, l as int) == path_to(n1, l as int));
                },
                None => {},
            }
        }
        id
    }
}

fn copy_steps(steps: &[usize]) -> (r: Vec<usize>)
    ensures
        r@ == steps@,
{
    let mut r: Vec<usize> = Vec::new();
    let mut x: usize = 0;
    while x < steps.len()
        invariant
            x <= steps@.len(),
            r@ == steps@.take(x as int),
        decreases steps@.len() - x,
    {
        r.push(steps[x]);
        x = x + 1;
        assert(r@ =~= steps@.take(x as int));
    }
    assert(steps@.take(steps@.len() as int) =~= steps@);
    r
}

impl<T, E, C, S, P, const N: usize> BFScheduler<T, E, C, S, P, N> where
    C: Canceable,
    T: EventReplay<EventType = E>,
    E: StaticEvent,
    P: SelectionPolicy<S>,
 {
    /// Hands out the next task in breadth-first order, scheduled with
    /// `token`: the first empty slot below the current root, else the first
    /// empty slot of the first pending task that still hangs in the tree and
    /// is not rejected. Pending tasks passed over on the way are dropped from
    /// the queue. When no task can take a child, the token comes back.
    pub fn next(&mut self, token: C) -> (r: Result<ScheduledStep<T, usize>, C>)
        requires
            old(self).wf(),
            !old(self).done(),
            old(self).arena().len() + 1 < usize::MAX,
            old(self).arena().len() < T::capacity(),
        ensures
            old(self).next_effect(*final(self), token, r),
    {
        let ghost s_start = *self;
        let current_gen = self.root_generation;
        proof {
            lemma_first_free_from(self.tasks.children@, 0);
        }
        match first_free_slot(&self.tasks.children) {
            Some(k) => {
                let id = self.add_task(token, None, k);
                let mut one: Vec<usize> = Vec::new();
                one.push(k);
                let rel = RelativePath::new_from(current_gen, one.as_slice());
                proof {
                    assert(self.node_ok(id as int));
                    assert(path_to(self.nodes@, id as int) =~= self.current_root@ + one@);
                }
                let stem = self.replay(one.as_slice());
                let ghost before = self.frontier@;
                let ghost s1 = *self;
                self.frontier.push_back((rel, id));
                proof {
                    Self::lemma_same_tree(&s1, self);
                    assert(self.frontier@ == before.push((rel, id)));
                    assert(self.pending() =~= old(self).pending().push(id));
                    assert(self.current_root@.take(current_gen as int) =~= self.current_root@);
                    assert(path_to(self.nodes@, id as int) =~= self.current_root@ + one@);
                    assert(self.current_root@ =~= path_to(self.nodes@, id as int).subrange(
                        0,
                        self.current_root@.len() as int,
                    ));
                    assert(self.node_ok(id as int));
                    assert forall|q: int| 0 <= q < self.frontier@.len() implies #[trigger] self.entry_ok(
                        self.frontier@[q],
                    ) by {
                        if q < before.len() {
                            assert(self.frontier@[q] == before[q]);
                            assert(s1.entry_ok(s1.frontier@[q]));
                        }
                    }
                }
                return Ok(ScheduledStep::new(stem, id));
            },
            None => {},
        }
        let ghost mut popped: int = 0;
        loop
            invariant
                self.wf(),
                !self.done(),
                self.nodes@ == old(self).nodes@,
                self.nodes@.len() + 1 < usize::MAX,
                self.nodes@.len() < T::capacity(),
                self.tasks.children@ == old(self).tasks.children@,
                self.current_root@ == old(self).current_root@,
                self.root_node == old(self).root_node,
                self.root_generation == old(self).root_generation,
                self.cancelled_tasks == old(self).cancelled_tasks,
                self.rejected_tasks == old(self).rejected_tasks,
                first_free(old(self).roots()) is None,
                s_start == *old(self),
                0 <= popped <= old(self).frontier@.len(),
                self.frontier@ == old(self).frontier@.skip(popped),
                old(self).first_viable_from(popped) == old(self).first_viable_from(0),
            decreases self.frontier@.len(),
        {
            let ghost prev = self.frontier@;
            let ghost s0 = *self;
            match self.frontier.pop_front() {
                None => {
                    proof {
                        assert(self.frontier@ =~= s0.frontier@);
                        Self::lemma_same_tree(&s0, self);
                        assert(popped == old(self).frontier@.len());
                        assert(self.pending() =~= Seq::<usize>::empty());
                    }
                    return Err(token);
                },
                Some(entry) => {
                    let (rel, parent) = entry;
                    proof {
                        assert(prev[0] == entry);
                        assert(old(self).pending()[popped] == parent);
                        Self::lemma_same_tree(&s0, self);
                        assert forall|q: int| 0 <= q < self.frontier@.len() implies #[trigger] self.entry_ok(
                            self.frontier@[q],
                        ) by {
                            assert(self.frontier@[q] == prev[q + 1]);
                            assert(s0.entry_ok(s0.frontier@[q + 1]));
                        }
                        assert(self.wf());
                        assert(self.frontier@ =~= old(self).frontier@.skip(popped + 1));
                        assert(self.entry_ok(entry)) by {
                            assert(s0.entry_ok(s0.frontier@[0]));
                        }
                    }
                    let ghost q = popped;
                    proof {
                        popped = popped + 1;
                    }
                    if !self.is_live(parent) {
                        continue;
                    }
                    let rejected = match &self.nodes[parent].result {
                        Some(r) => P::may_reject(r),
                        None => false,
                    };
                    if rejected {
                        continue;
                    }
                    proof {
                        assert(self.node_ok(parent as int));
                        lemma_first_free_from(self.nodes@[parent as int].children@, 0);
                    }
                    match first_free_slot(&self.nodes[parent].children) {
                        None => {
                            continue;
                        },
                        Some(k) => {
                            proof {
                                assert(self.viable(parent as int));
                                assert(old(self).first_viable_from(q) == Some(q));
                                assert(self.node_ok(parent as int));
                                self.lemma_live_below_root(parent as int);
                            }
                            let current_gen = self.root_generation;
                            let mut rel = rel;
                            if rel.generation() < current_gen {
                                rel.rebase(current_gen);
                            }
                            let ghost parent_path = path_to(self.nodes@, parent as int);
                            proof {
                                Self::lemma_same_tree(&s_start, self);
                                assert(rel.origin() == current_gen);
                                assert(self.current_root@ + rel.steps() =~= parent_path);
                            }
                            let id = self.add_task(token, Some(parent), k);
                            let mut steps = copy_steps(rel.as_slice());
                            steps.push(k);
                            let child_path = RelativePath::new_from(
                                rel.generation(),
                                steps.as_slice(),
                            );
                            proof {
                                assert forall|x: int| 0 <= x < steps@.len() implies #[trigger] steps@[x]
                                    < N by {
                                    if x < steps@.len() - 1 {
                                        assert(steps@[x] == parent_path[self.current_root@.len()
                                            + x]);
                                    }
                                }
                            }
                            proof {
                                assert(self.node_ok(id as int));
                                assert(path_to(self.nodes@, id as int) =~= self.current_root@
                                    + steps@);
                            }
                            let stem = self.replay(steps.as_slice());
                            let ghost mid = self.frontier@;
                            let ghost s1 = *self;
                            self.frontier.push_front((rel, parent));
                            self.frontier.push_back((child_path, id));
                            proof {
                                Self::lemma_same_tree(&s1, self);
                                assert(self.frontier@ =~= seq![(rel, parent)] + mid.push(
                                    (child_path, id),
                                ));
                                assert(self.pending() =~= seq![parent] + old(self).pending().skip(
                                    q + 1,
                                ) + seq![id]);
                                assert(path_to(self.nodes@, id as int) =~= self.current_root@
                                    + steps@);
                                assert(self.current_root@ =~= path_to(self.nodes@, id as int).subrange(
                                    0,
                                    self.current_root@.len() as int,
                                ));
                                assert(self.node_ok(id as int));
                                assert forall|qq: int| 0 <= qq < self.frontier@.len() implies #[trigger] self.entry_ok(
                                    self.frontier@[qq],
                                ) by {
                                    if 0 < qq < self.frontier@.len() - 1 {
                                        assert(self.frontier@[qq] == mid[qq - 1]);
                                        assert(s1.entry_ok(s1.frontier@[qq - 1]));
                                    } else if qq == 0 {
                                        assert(self.frontier@[qq] == (rel, parent));
                                        assert(self.current_root@.take(rel.origin() as int)
                                            =~= self.current_root@);
                                        assert(self.entry_ok((rel, parent)));
                                    } else {
                                        assert(self.frontier@[qq] == (child_path, id));
                                        assert(self.current_root@.take(rel.origin() as int)
                                            =~= self.current_root@);
                                        assert(self.entry_ok((child_path, id)));
                                    }
                                }
                            }
                            return Ok(ScheduledStep::new(stem, id));
                        },
                    }
                },
            }
        }
    }
}

/// The task at `i` lies strictly below the task at `x`: following recorded
/// parents up from `i` reaches `x`.
pub open spec fn below<C, S, const N: usize>(nodes: Seq<TreeNode<C, S, N>>, i: int, x: int) -> bool
    decreases i,
{
    if 0 <= i < nodes.len() && nodes[i].up() is Some && 0 <= nodes[i].up()->0 < i {
        let p = nodes[i].up()->0 as int;
        p == x || below(nodes, p, x)
    } else {
        false
    }
}

/// The task at `i` is the task at `j`, or lies below it with every parent on
/// the way up still holding the child it branched to, and with none of those
/// parents being `stop`. These are the tasks a walk down from `j` along held
/// children reaches, when it goes no further than `stop`.
pub open spec fn held<C, S, const N: usize>(
    nodes: Seq<TreeNode<C, S, N>>,
    i: int,
    j: int,
    stop: Option<usize>,
) -> bool
    decreases i,
{
    if i == j {
        0 <= j < nodes.len()
    } else if 0 <= i < nodes.len() && nodes[i].up() is Some && 0 <= nodes[i].up()->0 < i {
        let p = nodes[i].up()->0 as int;
        &&& nodes[i].branch() < nodes[p].child_slots().len()
        &&& nodes[p].child_slots()[nodes[i].branch() as int] == Some(i as usize)
        &&& nodes[i].up() != stop
        &&& held(nodes, p, j, stop)
    } else {
        false
    }
}

/// The task at `i` is held (see `held`) from one of the tasks in the first
/// `k` entries of `slots`.
pub open spec fn held_in<C, S, const N: usize>(
    nodes: Seq<TreeNode<C, S, N>>,
    slots: Seq<Option<usize>>,
    i: int,
    stop: Option<usize>,
    k: int,
) -> bool
    decreases k,
{
    if k <= 0 {
        false
    } else {
        ||| held_in(nodes, slots, i, stop, k - 1)
        ||| (slots[k - 1] is Some && held(nodes, i, slots[k - 1]->0 as int, stop))
    }
}

/// A held task is no higher than the task it is held from.
pub proof fn lemma_held_bounds<C, S, const N: usize>(
    nodes: Seq<TreeNode<C, S, N>>,
    i: int,
    j: int,
    stop: Option<usize>,
)
    requires
        held(nodes, i, j, stop),
    ensures
        0 <= j <= i < nodes.len(),
    decreases i,
{
    if i != j {
        lemma_held_bounds(nodes, nodes[i].up()->0 as int, j, stop);
    }
}

/// A walk that may not pass through its own start reaches only the start.
pub proof fn lemma_held_stop_at_start<C, S, const N: usize>(
    nodes: Seq<TreeNode<C, S, N>>,
    i: int,
    j: usize,
)
    requires
        held(nodes, i, j as int, Some(j)),
    ensures
        i == j,
    decreases i,
{
    if i != j {
        lemma_held_stop_at_start(nodes, nodes[i].up()->0 as int, j);
    }
}

/// Held from the task in entry `m` means held from one of the first `k`.
pub proof fn lemma_held_in_intro<C, S, const N: usize>(
    nodes: Seq<TreeNode<C, S, N>>,
    slots: Seq<Option<usize>>,
    i: int,
    stop: Option<usize>,
    k: int,
    m: int,
)
    requires
        0 <= m < k,
        slots[m] is Some,
        held(nodes, i, slots[m]->0 as int, stop),
    ensures
        held_in(nodes, slots, i, stop, k),
    decreases k,
{
    if m < k - 1 {
        lemma_held_in_intro(nodes, slots, i, stop, k - 1, m);
    }
}

/// The entry that a task held from one of the first `k` entries is held from.
pub proof fn lemma_held_in_elim<C, S, const N: usize>(
    nodes: Seq<TreeNode<C, S, N>>,
    slots: Seq<Option<usize>>,
    i: int,
    stop: Option<usize>,
    k: int,
) -> (m: int)
    requires
        held_in(nodes, slots, i, stop, k),
    ensures
        0 <= m < k,
        slots[m] is Some,
        held(nodes, i, slots[m]->0 as int, stop),
    decreases k,
{
    if slots[k - 1] is Some && held(nodes, i, slots[k - 1]->0 as int, stop) {
        k - 1
    } else {
        lemma_held_in_elim(nodes, slots, i, stop, k - 1)
    }
}

/// Held from a child that its parent `j` holds means held from `j`, when
/// the walk may pass through `j`.
pub proof fn lemma_held_extend<C, S, const N: usize>(
    nodes: Seq<TreeNode<C, S, N>>,
    i: int,
    c: int,
    j: int,
    stop: Option<usize>,
)
    requires
        held(nodes, i, c, stop),
        0 <= j < c,
        nodes[c].up() is Some,
        nodes[c].up()->0 == j,
        nodes[c].branch() < nodes[j].child_slots().len(),
        nodes[j].child_slots()[nodes[c].branch() as int] == Some(c as usize),
        stop != nodes[c].up(),
    ensures
        held(nodes, i, j, stop),
    decreases i,
{
    lemma_held_bounds(nodes, i, c, stop);
    assert(held(nodes, j, j, stop));
    if i != c {
        let p = nodes[i].up()->0 as int;
        lemma_held_bounds(nodes, p, c, stop);
        lemma_held_extend(nodes, p, c, j, stop);
    }
}

/// Where the walk starts at `r`, which is not below `keep`, stopping at
/// `keep` leaves out exactly the tasks below `keep`.
pub proof fn lemma_held_stop<C, S, const N: usize>(
    nodes: Seq<TreeNode<C, S, N>>,
    i: int,
    r: int,
    keep: usize,
)
    requires
        0 <= r,
        !below(nodes, r, keep as int),
    ensures
        held(nodes, i, r, Some(keep)) == (held(nodes, i, r, None) && !below(nodes, i, keep as int)),
    decreases i,
{
    if i != r && 0 <= i < nodes.len() && nodes[i].up() is Some && 0 <= nodes[i].up()->0 < i {
        lemma_held_stop(nodes, nodes[i].up()->0 as int, r, keep);
    }
}

/// `lemma_held_stop` over the first `k` entries of `slots`.
pub proof fn lemma_held_in_stop<C, S, const N: usize>(
    nodes: Seq<TreeNode<C, S, N>>,
    slots: Seq<Option<usize>>,
    i: int,
    keep: usize,
    k: int,
)
    requires
        forall|m: int|
            0 <= m < k && #[trigger] slots[m] is Some ==> !below(nodes, slots[m]->0 as int, keep as int),
    ensures
        held_in(nodes, slots, i, Some(keep), k) == (held_in(nodes, slots, i, None, k) && !below(
            nodes,
            i,
            keep as int,
        )),
    decreases k,
{
    if k > 0 {
        lemma_held_in_stop(nodes, slots, i, keep, k - 1);
        if slots[k - 1] is Some {
            lemma_held_stop(nodes, i, slots[k - 1]->0 as int, keep);
        }
    }
}

impl<T, E, C, S, P, const N: usize> BFScheduler<T, E, C, S, P, N> where
    C: Canceable,
    T: EventReplay<EventType = E>,
    E: StaticEvent,
    P: SelectionPolicy<S>,
 {
    /// A task below `x` has a longer path than `x`.
    pub proof fn lemma_below_deeper(&self, i: int, x: int)
        requires
            self.wf(),
            below(self.arena(), i, x),
        ensures
            0 <= x < i,
            path_to(self.arena(), i).len() > path_to(self.arena(), x).len(),
        decreases i,
    {
        let p = self.nodes@[i].parent->0 as int;
        assert(path_to(self.nodes@, i) == path_to(self.nodes@, p).push(self.nodes@[i].slot));
        if p != x {
            self.lemma_below_deeper(p, x);
        }
    }

    /// No two tasks that hang in the tree replay the same path.
    pub proof fn lemma_live_paths_distinct(&self, i: int, j: int)
        requires
            self.wf(),
            self.live(i),
            self.live(j),
            path_to(self.arena(), i) == path_to(self.arena(), j),
        ensures
            i == j,
        decreases i + j,
    {
        if self.done() {
            self.lemma_done_nothing_live(i);
        }
        assert(self.node_ok(i));
        assert(self.node_ok(j));
        let ni = self.nodes@[i];
        let nj = self.nodes@[j];
        let pi = path_to(self.nodes@, i);
        let root_i = ni.parent == self.root_node && self.tasks.children@[ni.slot as int] == Some(
            i as usize,
        );
        let root_j = nj.parent == self.root_node && self.tasks.children@[nj.slot as int] == Some(
            j as usize,
        );
        self.lemma_live_below_root(i);
        self.lemma_live_below_root(j);
        if root_i {
            match self.root_node {
                Some(l) => {
                    assert(pi == path_to(self.nodes@, l as int).push(ni.slot));
                },
                None => {
                    assert(pi == seq![ni.slot]);
                },
            }
        }
        if root_j {
            match self.root_node {
                Some(l) => {
                    assert(path_to(self.nodes@, j) == path_to(self.nodes@, l as int).push(nj.slot));
                },
                None => {
                    assert(path_to(self.nodes@, j) == seq![nj.slot]);
                },
            }
        }
        if !root_i {
            let p = ni.parent->0 as int;
            assert(pi == path_to(self.nodes@, p).push(ni.slot));
            self.lemma_live_below_root(p);
        }
        if !root_j {
            let q = nj.parent->0 as int;
            assert(path_to(self.nodes@, j) == path_to(self.nodes@, q).push(nj.slot));
            self.lemma_live_below_root(q);
        }
        if !root_i && !root_j {
            let p = ni.parent->0 as int;
            let q = nj.parent->0 as int;
            assert(path_to(self.nodes@, p) =~= pi.drop_last());
            assert(path_to(self.nodes@, q) =~= pi.drop_last());
            self.lemma_live_paths_distinct(p, q);
            assert(ni.slot == pi.last());
            assert(nj.slot == pi.last());
        } else if root_i && root_j {
            assert(ni.slot == pi.last());
            assert(nj.slot == pi.last());
        } else if root_i {
            let q = nj.parent->0 as int;
            assert(path_to(self.nodes@, q) =~= pi.drop_last());
        } else {
            let p = ni.parent->0 as int;
            assert(path_to(self.nodes@, p) =~= pi.drop_last());
        }
    }

    /// The current root's own task no longer hangs in the tree.
    pub proof fn lemma_anchor_gone(&self)
        requires
            self.wf(),
            !self.done(),
        ensures
            self.anchor() matches Some(l) ==> !self.live(l as int),
    {
        if let Some(l) = self.root_node {
            if self.live(l as int) {
                self.lemma_live_below_root(l as int);
            }
        }
    }

    /// Once the search is done, no task hangs in the tree.
    pub proof fn lemma_done_nothing_live(&self, i: int)
        requires
            self.wf(),
            self.done(),
        ensures
            !self.live(i),
        decreases i,
    {
        if 0 <= i < self.nodes@.len() {
            assert(self.node_ok(i));
            let n = self.nodes@[i];
            assert(self.tasks.children@[n.slot as int] is None);
            if n.parent is Some && n.parent->0 < i {
                self.lemma_done_nothing_live(n.parent->0 as int);
            }
        }
    }

    /// Apart from `j` itself, the tasks held from `j` are those held from
    /// one of its children.
    proof fn lemma_held_split(&self, i: int, j: int, stop: Option<usize>)
        requires
            self.wf(),
            0 <= j < self.nodes@.len(),
            stop != Some(j as usize),
            i != j,
        ensures
            held(self.nodes@, i, j, stop) == held_in(
                self.nodes@,
                self.nodes@[j].children@,
                i,
                stop,
                N as int,
            ),
        decreases i,
    {
        let nodes = self.nodes@;
        let slots = nodes[j].children@;
        assert(self.node_ok(j));
        if held(nodes, i, j, stop) {
            let p = nodes[i].parent->0 as int;
            let m = nodes[i].slot as int;
            if p == j {
                assert(held(nodes, i, i, stop));
                lemma_held_in_intro(nodes, slots, i, stop, N as int, m);
            } else {
                lemma_held_bounds(nodes, p, j, stop);
                self.lemma_held_split(p, j, stop);
                let m2 = lemma_held_in_elim(nodes, slots, p, stop, N as int);
                let c = slots[m2]->0 as int;
                lemma_held_bounds(nodes, p, c, stop);
                assert(held(nodes, i, c, stop));
                lemma_held_in_intro(nodes, slots, i, stop, N as int, m2);
            }
        }
        if held_in(nodes, slots, i, stop, N as int) {
            let m = lemma_held_in_elim(nodes, slots, i, stop, N as int);
            let c = slots[m]->0 as int;
            assert(slots[m] is Some);
            lemma_held_extend(nodes, i, c, j, stop);
        }
    }

    /// Below a task that hangs in the tree, the tasks held from it are
    /// itself and the tasks below it that hang in the tree.
    proof fn lemma_held_live(&self, x: int, i: int)
        requires
            self.wf(),
            !self.done(),
            self.live(x),
        ensures
            held(self.nodes@, i, x, None) == (i == x || (self.live(i) && below(self.nodes@, i, x))),
        decreases i,
    {
        if i != x && 0 <= i < self.nodes@.len() {
            assert(self.node_ok(i));
            let n = self.nodes@[i];
            if n.parent is Some && n.parent->0 < i {
                let p = n.parent->0 as int;
                self.lemma_held_live(x, p);
                if n.parent == self.root_node && self.tasks.children@[n.slot as int] == Some(
                    i as usize,
                ) {
                    self.lemma_anchor_gone();
                    if below(self.nodes@, p, x) {
                        self.lemma_below_deeper(p, x);
                        self.lemma_live_below_root(x);
                        assert(path_to(self.nodes@, p) == self.current_root@);
                    }
                }
            }
        }
    }

    /// A task hangs in the tree exactly when it is held from a child of the
    /// current root.
    proof fn lemma_live_held_in_roots(&self, i: int)
        requires
            self.wf(),
        ensures
            self.live(i) == held_in(self.nodes@, self.tasks.children@, i, None, N as int),
        decreases i,
    {
        let nodes = self.nodes@;
        let roots = self.tasks.children@;
        if self.done() {
            self.lemma_done_nothing_live(i);
            if held_in(nodes, roots, i, None, N as int) {
                let m = lemma_held_in_elim(nodes, roots, i, None, N as int);
                assert(roots[m] is None);
            }
        } else {
            if self.live(i) {
                assert(self.node_ok(i));
                let n = nodes[i];
                if n.parent == self.root_node && n.slot < roots.len() && roots[n.slot as int] == Some(
                    i as usize,
                ) {
                    assert(held(nodes, i, i, None));
                    lemma_held_in_intro(nodes, roots, i, None, N as int, n.slot as int);
                } else {
                    let p = n.parent->0 as int;
                    self.lemma_live_held_in_roots(p);
                    let m = lemma_held_in_elim(nodes, roots, p, None, N as int);
                    let r = roots[m]->0 as int;
                    lemma_held_bounds(nodes, p, r, None);
                    assert(held(nodes, i, r, None));
                    lemma_held_in_intro(nodes, roots, i, None, N as int, m);
                }
            }
            if held_in(nodes, roots, i, None, N as int) {
                let m = lemma_held_in_elim(nodes, roots, i, None, N as int);
                let r = roots[m]->0 as int;
                assert(roots[m] is Some);
                assert(self.live(r));
                self.lemma_held_live(r, i);
            }
        }
    }

    /// No child of the current root lies below a task that hangs in the tree.
    proof fn lemma_root_child_not_below(&self, m: int, x: int)
        requires
            self.wf(),
            !self.done(),
            self.live(x),
            0 <= m < N,
            self.tasks.children@[m] is Some,
        ensures
            !below(self.nodes@, self.tasks.children@[m]->0 as int, x),
    {
        let r = self.tasks.children@[m]->0 as int;
        assert(self.node_ok(r));
        if below(self.nodes@, r, x) {
            self.lemma_below_deeper(r, x);
            self.lemma_live_below_root(x);
            match self.root_node {
                Some(l) => {
                    assert(path_to(self.nodes@, r) == path_to(self.nodes@, l as int).push(
                        m as usize,
                    ));
                },
                None => {
                    assert(path_to(self.nodes@, r) == seq![m as usize]);
                },
            }
        }
    }

    /// Signals the token of the task at `j` and of every task below it that
    /// its parent still holds; returns those tasks.
    fn cancel_subtree(&self, j: usize) -> (cut: Ghost<Set<usize>>)
        requires
            self.wf(),
            j < self.nodes@.len(),
        ensures
            cut@ == Set::new(|i: usize| held(self.nodes@, i as int, j as int, None)),
            forall|i: usize|
                #![trigger cut@.contains(i)]
                cut@.contains(i) ==> call_ensures(C::cancel, (&self.nodes@[i as int].token,), ()),
        decreases self.nodes@.len() - j,
    {
        proof {
            assert(self.node_ok(j as int));
        }
        self.nodes[j].token.cancel();
        let ghost mut acc: Set<usize> = Set::empty().insert(j);
        let mut k: usize = 0;
        while k < self.nodes[j].children.len()
            invariant
                self.wf(),
                j < self.nodes@.len(),
                self.node_ok(j as int),
                k <= self.nodes@[j as int].children@.len(),
                acc == Set::new(
                    |i: usize|
                        i == j || held_in(
                            self.nodes@,
                            self.nodes@[j as int].children@,
                            i as int,
                            None,
                            k as int,
                        ),
                ),
                forall|i: usize|
                    #![trigger acc.contains(i)]
                    acc.contains(i) ==> call_ensures(C::cancel, (&self.nodes@[i as int].token,), ()),
            decreases self.nodes@[j as int].children@.len() - k,
        {
            let ghost slots = self.nodes@[j as int].children@;
            if let Some(c) = self.nodes[j].children[k] {
                proof {
                    assert(slots[k as int] is Some);
                }
                let sub = self.cancel_subtree(c);
                proof {
                    acc = acc.union(sub@);
                }
            }
            proof {
                assert(acc =~= Set::new(
                    |i: usize|
                        i == j || held_in(self.nodes@, slots, i as int, None, k as int + 1),
                ));
            }
            k = k + 1;
        }
        proof {
            assert forall|i: usize| #[trigger]
                acc.contains(i) == held(self.nodes@, i as int, j as int, None) by {
                if i != j {
                    self.lemma_held_split(i as int, j as int, None);
                }
            }
            assert(acc =~= Set::new(|i: usize| held(self.nodes@, i as int, j as int, None)));
        }
        Ghost(acc)
    }

    /// Signals the token of the task at `j` and, unless `j` is `keep`, of every
    /// task below it that its parent still holds, going no further down than
    /// `keep`; returns those tasks.
    fn cancel_outside(&self, j: usize, keep: usize) -> (cut: Ghost<Set<usize>>)
        requires
            self.wf(),
            j < self.nodes@.len(),
        ensures
            cut@ == Set::new(|i: usize| held(self.nodes@, i as int, j as int, Some(keep))),
            forall|i: usize|
                #![trigger cut@.contains(i)]
                cut@.contains(i) ==> call_ensures(C::cancel, (&self.nodes@[i as int].token,), ()),
        decreases self.nodes@.len() - j,
    {
        proof {
            assert(self.node_ok(j as int));
        }
        self.nodes[j].token.cancel();
        let ghost mut acc: Set<usize> = Set::empty().insert(j);
        if j == keep {
            proof {
                assert forall|i: usize| #[trigger]
                    acc.contains(i) == held(self.nodes@, i as int, j as int, Some(keep)) by {
                    if held(self.nodes@, i as int, j as int, Some(keep)) {
                        lemma_held_stop_at_start(self.nodes@, i as int, j);
                    }
                }
                assert(acc =~= Set::new(
                    |i: usize| held(self.nodes@, i as int, j as int, Some(keep)),
                ));
            }
            return Ghost(acc);
        }
        let mut k: usize = 0;
        while k < self.nodes[j].children.len()
            invariant
                self.wf(),
                j < self.nodes@.len(),
                j != keep,
                self.node_ok(j as int),
                k <= self.nodes@[j as int].children@.len(),
                acc == Set::new(
                    |i: usize|
                        i == j || held_in(
                            self.nodes@,
                            self.nodes@[j as int].children@,
                            i as int,
                            Some(keep),
                            k as int,
                        ),
                ),
                forall|i: usize|
                    #![trigger acc.contains(i)]
                    acc.contains(i) ==> call_ensures(C::cancel, (&self.nodes@[i as int].token,), ()),
            decreases self.nodes@[j as int].children@.len() - k,
        {
            let ghost slots = self.nodes@[j as int].children@;
            if let Some(c) = self.nodes[j].children[k] {
                proof {
                    assert(slots[k as int] is Some);
                }
                let sub = self.cancel_outside(c, keep);
                proof {
                    acc = acc.union(sub@);
                }
            }
            proof {
                assert(acc =~= Set::new(
                    |i: usize|
                        i == j || held_in(self.nodes@, slots, i as int, Some(keep), k as int + 1),
                ));
            }
            k = k + 1;
        }
        proof {
            assert forall|i: usize| #[trigger]
                acc.contains(i) == held(self.nodes@, i as int, j as int, Some(keep)) by {
                if i != j {
                    self.lemma_held_split(i as int, j as int, Some(keep));
                }
            }
            assert(acc =~= Set::new(|i: usize| held(self.nodes@, i as int, j as int, Some(keep))));
        }
        Ghost(acc)
    }

    /// After `x` lets go of all its children, exactly the tasks below `x`
    /// stop hanging in the tree.
    proof fn lemma_prune(s0: &Self, s1: &Self, x: int, i: int)
        requires
            s0.wf(),
            !s0.done(),
            s0.live(x),
            s1.nodes@.len() == s0.nodes@.len(),
            s1.tasks.children@ == s0.tasks.children@,
            s1.root_node == s0.root_node,
            s1.nodes@[x].children@ == empty_slots(N as nat),
            s1.nodes@[x].parent == s0.nodes@[x].parent,
            s1.nodes@[x].slot == s0.nodes@[x].slot,
            forall|j: int| 0 <= j < s0.nodes@.len() && j != x ==> s1.nodes@[j] == s0.nodes@[j],
        ensures
            s1.live(i) == (s0.live(i) && !below(s0.arena(), i, x)),
        decreases i,
    {
        if 0 <= i < s0.nodes@.len() {
            assert(s0.node_ok(i));
            let n = s0.nodes@[i];
            let n1 = s1.nodes@[i];
            assert(n1.parent == n.parent && n1.slot == n.slot);
            if n.parent is Some && n.parent->0 < i {
                let p = n.parent->0 as int;
                Self::lemma_prune(s0, s1, x, p);
                if n.parent == s0.root_node && s0.tasks.children@[n.slot as int] == Some(
                    i as usize,
                ) {
                    // a child of the current root: never below a live task
                    s0.lemma_anchor_gone();
                    if below(s0.arena(), i, x) {
                        if p != x {
                            s0.lemma_below_deeper(p, x);
                        }
                        s0.lemma_live_below_root(x);
                        assert(path_to(s0.nodes@, p) == s0.current_root@);
                    }
                }
            }
        }
    }

    /// Lets go of every child of the task at `x` and signals the tokens of the
    /// tasks below it.
    fn prune_children(&mut self, x: usize)
        requires
            old(self).wf(),
            !old(self).done(),
            old(self).live(x as int),
        ensures
            final(self).wf(),
            final(self).nodes@.len() == old(self).nodes@.len(),
            final(self).nodes@[x as int].children@ == empty_slots(N as nat),
            final(self).nodes@[x as int].result == old(self).nodes@[x as int].result,
            final(self).nodes@[x as int].generation == old(self).nodes@[x as int].generation,
            final(self).nodes@[x as int].parent == old(self).nodes@[x as int].parent,
            final(self).nodes@[x as int].slot == old(self).nodes@[x as int].slot,
            final(self).nodes@[x as int].token == old(self).nodes@[x as int].token,
            forall|j: int|
                0 <= j < old(self).nodes@.len() && j != x ==> final(self).nodes@[j] == old(
                    self,
                ).nodes@[j],
            final(self).tasks.children@ == old(self).tasks.children@,
            final(self).current_root@ == old(self).current_root@,
            final(self).root_node == old(self).root_node,
            final(self).root_generation == old(self).root_generation,
            final(self).frontier@ == old(self).frontier@,
            forall|i: int|
                #![trigger final(self).live(i)]
                final(self).live(i) == (old(self).live(i) && !below(old(self).arena(), i, x as int)),
            final(self).ever_rejected() == old(self).ever_rejected(),
            final(self).signalled() == old(self).signalled().union(
                Set::new(|i: usize| old(self).live(i as int) && below(old(self).arena(), i as int, x as int)),
            ),
            forall|i: usize|
                #![trigger old(self).live(i as int)]
                old(self).live(i as int) && below(old(self).arena(), i as int, x as int)
                    ==> call_ensures(C::cancel, (&old(self).nodes@[i as int].token,), ()),
    {
        proof {
            assert(self.node_ok(x as int));
        }
        let ghost mut acc: Set<usize> = Set::empty();
        let ghost s_pre = *self;
        let mut k: usize = 0;
        while k < self.nodes[x].children.len()
            invariant
                *self == s_pre,
                s_pre == *old(self),
                self.wf(),
                x < self.nodes@.len(),
                self.node_ok(x as int),
                k <= self.nodes@[x as int].children@.len(),
                acc == Set::new(
                    |i: usize|
                        held_in(self.nodes@, self.nodes@[x as int].children@, i as int, None, k as int),
                ),
                forall|i: usize|
                    #![trigger acc.contains(i)]
                    acc.contains(i) ==> call_ensures(C::cancel, (&self.nodes@[i as int].token,), ()),
            decreases self.nodes@[x as int].children@.len() - k,
        {
            let ghost slots = self.nodes@[x as int].children@;
            if let Some(c) = self.nodes[x].children[k] {
                proof {
                    assert(slots[k as int] is Some);
                }
                let sub = self.cancel_subtree(c);
                proof {
                    acc = acc.union(sub@);
                }
            }
            proof {
                assert(acc =~= Set::new(
                    |i: usize| held_in(self.nodes@, slots, i as int, None, k as int + 1),
                ));
            }
            k = k + 1;
        }
        proof {
            assert forall|i: usize| #[trigger] acc.contains(i) == (self.live(i as int) && below(
                self.nodes@,
                i as int,
                x as int,
            )) by {
                self.lemma_held_live(x as int, i as int);
                if i as int != x as int {
                    self.lemma_held_split(i as int, x as int, None);
                } else if below(self.nodes@, x as int, x as int) {
                    self.lemma_below_deeper(x as int, x as int);
                } else if acc.contains(i) {
                    let m = lemma_held_in_elim(self.nodes@, self.nodes@[x as int].children@, i as int, None, N as int);
                    let c = self.nodes@[x as int].children@[m]->0 as int;
                    lemma_held_bounds(self.nodes@, i as int, c, None);
                }
            }
            assert(acc =~= Set::new(|i: usize| self.live(i as int) && below(self.arena(), i as int, x as int)));
            assert forall|i: usize|
                #![trigger self.live(i as int)]
                self.live(i as int) && below(self.arena(), i as int, x as int) implies call_ensures(
                C::cancel,
                (&self.nodes@[i as int].token,),
                (),
            ) by {
                assert(acc.contains(i));
            }
        }
        let ghost s0 = *self;
        let cleared = empty_children(N);
        self.nodes[x].children = cleared;
        proof {
            assert forall|i: int| #![trigger self.live(i)] self.live(i) == (s0.live(i) && !below(
                s0.arena(),
                i,
                x as int,
            )) by {
                Self::lemma_prune(&s0, self, x as int, i);
            }
            assert forall|i: int| 0 <= i < self.nodes@.len() implies #[trigger] self.node_ok(i) by {
                assert(s0.node_ok(i));
                assert forall|j: int| 0 <= j <= i implies #[trigger] self.nodes@[j].parent
                    == s0.nodes@[j].parent && self.nodes@[j].slot == s0.nodes@[j].slot by {}
                lemma_path_frame(s0.nodes@, self.nodes@, i);
                if i != x {
                    assert(self.nodes@[i] == s0.nodes@[i]);
                }
            }
            assert forall|q: int| 0 <= q < self.frontier@.len() implies #[trigger] self.entry_ok(
                self.frontier@[q],
            ) by {
                let e = self.frontier@[q];
                assert(s0.entry_ok(e));
                if self.live(e.1 as int) {
                    assert forall|j: int| 0 <= j <= e.1 implies #[trigger] self.nodes@[j].parent
                        == s0.nodes@[j].parent && self.nodes@[j].slot == s0.nodes@[j].slot by {}
                    lemma_path_frame(s0.nodes@, self.nodes@, e.1 as int);
                }
            }
            match self.root_node {
                Some(l) => {
                    assert forall|j: int| 0 <= j <= l implies #[trigger] self.nodes@[j].parent
                        == s0.nodes@[j].parent && self.nodes@[j].slot == s0.nodes@[j].slot by {}
                    lemma_path_frame(s0.nodes@, self.nodes@, l as int);
                },
                None => {},
            }
        }
        let ghost s2 = *self;
        self.cancelled_tasks = Ghost(self.cancelled_tasks@.union(acc));
        proof {
            Self::lemma_record_only(&s2, self);
        }
    }
}

/// What `best_from` can return: the best so far, or a finished, unrejected
/// child held in one of the branches.
pub proof fn lemma_best_from<C, S, const N: usize, P: SelectionPolicy<S>>(
    nodes: Seq<TreeNode<C, S, N>>,
    children: Seq<Option<usize>>,
    k: int,
    best: Option<(usize, usize)>,
)
    requires
        0 <= k,
        children.len() <= usize::MAX,
    ensures
        ({
            let r = best_from::<C, S, N, P>(nodes, children, k, best);
            ||| r == best
            ||| r matches Some(b) && {
                &&& b.0 < children.len()
                &&& children[b.0 as int] == Some(b.1)
                &&& result_at(nodes, b.1 as int) is Some
                &&& !P::rejects(result_at(nodes, b.1 as int)->0)
            }
        }),
    decreases children.len() - k,
{
    if k < children.len() {
        if slot_done(nodes, children, k) && !P::rejects(result_at(nodes, children[k]->0 as int)->0) {
            let j = children[k]->0;
            let r = result_at(nodes, j as int)->0;
            if P::accepts(r) {
            } else if best is None || P::ranks_below(result_at(nodes, (best->0).1 as int)->0, r) {
                lemma_best_from::<C, S, N, P>(nodes, children, k + 1, Some((k as usize, j)));
            } else {
                lemma_best_from::<C, S, N, P>(nodes, children, k + 1, best);
            }
        } else {
            lemma_best_from::<C, S, N, P>(nodes, children, k + 1, best);
        }
    }
}

/// `best_from` stops at the first branch from `k` on whose finished child
/// the policy accepts without rejecting it.
proof fn lemma_best_from_first_accepted<C, S, const N: usize, P: SelectionPolicy<S>>(
    nodes: Seq<TreeNode<C, S, N>>,
    children: Seq<Option<usize>>,
    k: int,
    best: Option<(usize, usize)>,
    k0: int,
)
    requires
        0 <= k <= k0 < children.len(),
        children.len() <= usize::MAX,
        slot_done(nodes, children, k0),
        !P::rejects(result_at(nodes, children[k0]->0 as int)->0),
        P::accepts(result_at(nodes, children[k0]->0 as int)->0),
        forall|x: int|
            k <= x < k0 && #[trigger] slot_done(nodes, children, x) && !P::rejects(
                result_at(nodes, children[x]->0 as int)->0,
            ) ==> !P::accepts(result_at(nodes, children[x]->0 as int)->0),
    ensures
        best_from::<C, S, N, P>(nodes, children, k, best) == Some((k0 as usize, children[k0]->0)),
    decreases k0 - k,
{
    if k < k0 {
        if slot_done(nodes, children, k) && !P::rejects(result_at(nodes, children[k]->0 as int)->0) {
            let j = children[k]->0;
            let r = result_at(nodes, j as int)->0;
            if best is None || P::ranks_below(result_at(nodes, (best->0).1 as int)->0, r) {
                lemma_best_from_first_accepted::<C, S, N, P>(
                    nodes,
                    children,
                    k + 1,
                    Some((k as usize, j)),
                    k0,
                );
            } else {
                lemma_best_from_first_accepted::<C, S, N, P>(nodes, children, k + 1, best, k0);
            }
        } else {
            lemma_best_from_first_accepted::<C, S, N, P>(nodes, children, k + 1, best, k0);
        }
    }
}

/// The policy's ranking is a strict weak order: never both ways round, and
/// whenever `a` ranks below `c`, every `b` ranks above `a` or below `c`.
pub open spec fn strict_weak_order<S, P: SelectionPolicy<S>>() -> bool {
    &&& forall|a: S, b: S| #[trigger] P::ranks_below(a, b) ==> !P::ranks_below(b, a)
    &&& forall|a: S, b: S, c: S|
        #![trigger P::ranks_below(a, c), P::ranks_below(a, b)]
        #![trigger P::ranks_below(a, c), P::ranks_below(b, c)]
        P::ranks_below(a, c) ==> P::ranks_below(a, b) || P::ranks_below(b, c)
}

/// Branch `x` holds a finished child that its result does not reject.
pub open spec fn candidate<C, S, const N: usize, P: SelectionPolicy<S>>(
    nodes: Seq<TreeNode<C, S, N>>,
    children: Seq<Option<usize>>,
    x: int,
) -> bool {
    slot_done(nodes, children, x) && !P::rejects(result_at(nodes, children[x]->0 as int)->0)
}

/// With no accepted branch from `k` on, `best_from` returns a finished,
/// unrejected child that no later such child ranks above, and, where the
/// ranking is a strict weak order, that every earlier such child ranks
/// below; it returns nothing only when there is no such child at all.
proof fn lemma_best_from_unaccepted<C, S, const N: usize, P: SelectionPolicy<S>>(
    nodes: Seq<TreeNode<C, S, N>>,
    children: Seq<Option<usize>>,
    k: int,
    best: Option<(usize, usize)>,
)
    requires
        0 <= k <= children.len(),
        children.len() <= usize::MAX,
        forall|x: int|
            k <= x < children.len() && #[trigger] candidate::<C, S, N, P>(nodes, children, x)
                ==> !P::accepts(result_at(nodes, children[x]->0 as int)->0),
        best is None ==> forall|x: int|
            0 <= x < k ==> !#[trigger] candidate::<C, S, N, P>(nodes, children, x),
        best matches Some(b) ==> {
            &&& b.0 < k
            &&& candidate::<C, S, N, P>(nodes, children, b.0 as int)
            &&& b.1 == children[b.0 as int]->0
            &&& forall|x: int|
                b.0 < x < k && #[trigger] candidate::<C, S, N, P>(nodes, children, x)
                    ==> !P::ranks_below(
                    result_at(nodes, b.1 as int)->0,
                    result_at(nodes, children[x]->0 as int)->0,
                )
            &&& strict_weak_order::<S, P>() ==> forall|x: int|
                0 <= x < b.0 && #[trigger] candidate::<C, S, N, P>(nodes, children, x)
                    ==> P::ranks_below(
                    result_at(nodes, children[x]->0 as int)->0,
                    result_at(nodes, b.1 as int)->0,
                )
        },
    ensures
        ({
            let r = best_from::<C, S, N, P>(nodes, children, k, best);
            &&& r is None ==> forall|x: int|
                0 <= x < children.len() ==> !#[trigger] candidate::<C, S, N, P>(nodes, children, x)
            &&& r matches Some(b) ==> {
                &&& b.0 < children.len()
                &&& candidate::<C, S, N, P>(nodes, children, b.0 as int)
                &&& b.1 == children[b.0 as int]->0
                &&& forall|x: int|
                    b.0 < x < children.len() && #[trigger] candidate::<C, S, N, P>(
                        nodes,
                        children,
                        x,
                    ) ==> !P::ranks_below(
                        result_at(nodes, b.1 as int)->0,
                        result_at(nodes, children[x]->0 as int)->0,
                    )
                &&& strict_weak_order::<S, P>() ==> forall|x: int|
                    0 <= x < b.0 && #[trigger] candidate::<C, S, N, P>(nodes, children, x)
                        ==> P::ranks_below(
                        result_at(nodes, children[x]->0 as int)->0,
                        result_at(nodes, b.1 as int)->0,
                    )
            }
        }),
    decreases children.len() - k,
{
    if k < children.len() {
        if candidate::<C, S, N, P>(nodes, children, k) {
            let j = children[k]->0;
            let r = result_at(nodes, j as int)->0;
            if best is None || P::ranks_below(result_at(nodes, (best->0).1 as int)->0, r) {
                let nb = Some((k as usize, j));
                if best is Some {
                    let b = best->0;
                    let rb = result_at(nodes, b.1 as int)->0;
                    if strict_weak_order::<S, P>() {
                        assert forall|x: int|
                            0 <= x < k && #[trigger] candidate::<C, S, N, P>(nodes, children, x)
                                implies P::ranks_below(
                            result_at(nodes, children[x]->0 as int)->0,
                            r,
                        ) by {
                            let rx = result_at(nodes, children[x]->0 as int)->0;
                            if x < b.0 {
                                assert(P::ranks_below(rx, rb));
                                if !P::ranks_below(rx, r) {
                                    assert(P::ranks_below(r, rb));
                                }
                            } else if x > b.0 {
                                assert(!P::ranks_below(rb, rx));
                                assert(P::ranks_below(rb, rx) || P::ranks_below(rx, r));
                            }
                        }
                    }
                }
                lemma_best_from_unaccepted::<C, S, N, P>(nodes, children, k + 1, nb);
            } else {
                lemma_best_from_unaccepted::<C, S, N, P>(nodes, children, k + 1, best);
            }
        } else {
            lemma_best_from_unaccepted::<C, S, N, P>(nodes, children, k + 1, best);
        }
    }
}

/// The result of the task in branch `k` of `children`, if that branch
/// holds a task whose result is in.
pub open spec fn branch_result<C, S, const N: usize>(
    nodes: Seq<TreeNode<C, S, N>>,
    children: Seq<Option<usize>>,
    k: int,
) -> Option<S> {
    if 0 <= k < children.len() && children[k] is Some {
        result_at(nodes, children[k]->0 as int)
    } else {
        None
    }
}

/// The search may move below a task with these children: some finished
/// child is accepted or every branch has a finished child, and some
/// finished child is not rejected.
pub open spec fn can_move_below<C, S, const N: usize, P: SelectionPolicy<S>>(
    nodes: Seq<TreeNode<C, S, N>>,
    ch: Seq<Option<usize>>,
) -> bool {
    &&& (exists|k: int|
        #[trigger] branch_result(nodes, ch, k) is Some && P::accepts(branch_result(nodes, ch, k)->0))
        || (forall|k: int| 0 <= k < ch.len() ==> #[trigger] branch_result(nodes, ch, k) is Some)
    &&& exists|k: int|
        #[trigger] branch_result(nodes, ch, k) is Some && !P::rejects(branch_result(nodes, ch, k)->0)
}

/// Branch `b` is the right one to move to among these children: it holds a
/// finished child that is not rejected; it is the first accepted one when
/// some finished child is accepted; and otherwise no later finished,
/// unrejected child ranks above it and, where the ranking is a strict weak
/// order, every earlier one ranks below it (the earliest of the best).
pub open spec fn best_branch<C, S, const N: usize, P: SelectionPolicy<S>>(
    nodes: Seq<TreeNode<C, S, N>>,
    ch: Seq<Option<usize>>,
    b: int,
) -> bool {
    let rb = branch_result(nodes, ch, b);
    let some_accepted = exists|k: int|
        #[trigger] branch_result(nodes, ch, k) is Some && !P::rejects(branch_result(nodes, ch, k)->0)
            && P::accepts(branch_result(nodes, ch, k)->0);
    &&& 0 <= b < ch.len()
    &&& rb is Some
    &&& !P::rejects(rb->0)
    &&& some_accepted ==> {
        &&& P::accepts(rb->0)
        &&& forall|k: int|
            0 <= k < b && #[trigger] branch_result(nodes, ch, k) is Some && !P::rejects(
                branch_result(nodes, ch, k)->0,
            ) ==> !P::accepts(branch_result(nodes, ch, k)->0)
    }
    &&& !some_accepted ==> forall|k: int|
        b < k && #[trigger] branch_result(nodes, ch, k) is Some && !P::rejects(
            branch_result(nodes, ch, k)->0,
        ) ==> !P::ranks_below(rb->0, branch_result(nodes, ch, k)->0)
    &&& !some_accepted && strict_weak_order::<S, P>() ==> forall|k: int|
        0 <= k < b && #[trigger] branch_result(nodes, ch, k) is Some && !P::rejects(
            branch_result(nodes, ch, k)->0,
        ) ==> P::ranks_below(branch_result(nodes, ch, k)->0, rb->0)
}

/// Which child the search moves to from a task with children `ch`: it may
/// move exactly when `can_move_below` holds, and then to the task in a
/// branch that `best_branch` describes.
pub proof fn lemma_best_child_choice<C, S, const N: usize, P: SelectionPolicy<S>>(
    nodes: Seq<TreeNode<C, S, N>>,
    ch: Seq<Option<usize>>,
)
    requires
        ch.len() <= usize::MAX,
    ensures
        can_move_below::<C, S, N, P>(nodes, ch) == (ready_to_advance::<C, S, N, P>(nodes, ch)
            && best_child::<C, S, N, P>(nodes, ch) is Some),
        best_child::<C, S, N, P>(nodes, ch) matches Some(b) ==> {
            &&& best_branch::<C, S, N, P>(nodes, ch, b.0 as int)
            &&& b.1 == ch[b.0 as int]->0
        },
{

    assert forall|k: int| 0 <= k < ch.len() implies (#[trigger] slot_done(nodes, ch, k)
        == branch_result(nodes, ch, k) is Some) && (slot_done(nodes, ch, k) ==> result_at(
        nodes,
        ch[k]->0 as int,
    ) == branch_result(nodes, ch, k)) by {}
    let ready = (exists|k: int|
        #[trigger] branch_result(nodes, ch, k) is Some && P::accepts(branch_result(nodes, ch, k)->0))
        || (forall|k: int| 0 <= k < ch.len() ==> #[trigger] branch_result(nodes, ch, k) is Some);
    assert(ready == ready_to_advance::<C, S, N, P>(nodes, ch)) by {
        if ready_to_advance::<C, S, N, P>(nodes, ch) {
            if exists|k: int| 0 <= k < ch.len() && slot_accepted::<C, S, N, P>(nodes, ch, k) {
                let k = choose|k: int| 0 <= k < ch.len() && slot_accepted::<C, S, N, P>(nodes, ch, k);
                assert(slot_done(nodes, ch, k));
            } else {
                assert forall|k: int| 0 <= k < ch.len() implies #[trigger] branch_result(
                    nodes,
                    ch,
                    k,
                ) is Some by {
                    assert(slot_done(nodes, ch, k));
                }
            }
        }
        if ready {
            if exists|k: int|
                #[trigger] branch_result(nodes, ch, k) is Some && P::accepts(
                    branch_result(nodes, ch, k)->0,
                ) {
                let k = choose|k: int|
                    #[trigger] branch_result(nodes, ch, k) is Some && P::accepts(
                        branch_result(nodes, ch, k)->0,
                    );
                assert(slot_done(nodes, ch, k));
                assert(slot_accepted::<C, S, N, P>(nodes, ch, k));
            } else {
                assert forall|k: int| 0 <= k < ch.len() implies slot_done(nodes, ch, k) by {
                    assert(branch_result(nodes, ch, k) is Some);
                }
            }
        }
    }
    let acc = |k: int|
        branch_result(nodes, ch, k) is Some && !P::rejects(branch_result(nodes, ch, k)->0)
            && P::accepts(branch_result(nodes, ch, k)->0);
    if exists|k: int|
        #[trigger] branch_result(nodes, ch, k) is Some && !P::rejects(branch_result(nodes, ch, k)->0)
            && P::accepts(branch_result(nodes, ch, k)->0) {
        let k1 = choose|k: int|
            #[trigger] branch_result(nodes, ch, k) is Some && !P::rejects(
                branch_result(nodes, ch, k)->0,
            ) && P::accepts(branch_result(nodes, ch, k)->0);
        assert(acc(k1));
        let k0 = lemma_first_index(acc, k1);
        assert(slot_done(nodes, ch, k0));
        assert forall|x: int|
            0 <= x < k0 && #[trigger] slot_done(nodes, ch, x) && !P::rejects(
                result_at(nodes, ch[x]->0 as int)->0,
            ) implies !P::accepts(result_at(nodes, ch[x]->0 as int)->0) by {
            assert(!acc(x));
        }
        lemma_best_from_first_accepted::<C, S, N, P>(nodes, ch, 0, None, k0);
        assert(ready);
        assert forall|k: int|
            0 <= k < k0 && #[trigger] branch_result(nodes, ch, k) is Some && !P::rejects(
                branch_result(nodes, ch, k)->0,
            ) implies !P::accepts(branch_result(nodes, ch, k)->0) by {
            assert(!acc(k));
        }
    } else {
        assert forall|x: int|
            0 <= x < ch.len() && #[trigger] candidate::<C, S, N, P>(nodes, ch, x) implies !P::accepts(
            result_at(nodes, ch[x]->0 as int)->0,
        ) by {
            assert(slot_done(nodes, ch, x));
            assert(branch_result(nodes, ch, x) is Some);
        }
        lemma_best_from_unaccepted::<C, S, N, P>(nodes, ch, 0, None);
        let r = best_from::<C, S, N, P>(nodes, ch, 0, None);
        if r is None {
            assert forall|k: int|
                #[trigger] branch_result(nodes, ch, k) is Some implies P::rejects(
                branch_result(nodes, ch, k)->0,
            ) by {
                assert(slot_done(nodes, ch, k));
                assert(!candidate::<C, S, N, P>(nodes, ch, k));
            }
        } else {
            let b = r->0;
            assert(slot_done(nodes, ch, b.0 as int));
            assert forall|k: int|
                b.0 < k && #[trigger] branch_result(nodes, ch, k) is Some && !P::rejects(
                    branch_result(nodes, ch, k)->0,
                ) implies !P::ranks_below(
                branch_result(nodes, ch, b.0 as int)->0,
                branch_result(nodes, ch, k)->0,
            ) by {
                assert(slot_done(nodes, ch, k));
                assert(candidate::<C, S, N, P>(nodes, ch, k));
            }
            if strict_weak_order::<S, P>() {
                assert forall|k: int|
                    0 <= k < b.0 && #[trigger] branch_result(nodes, ch, k) is Some && !P::rejects(
                        branch_result(nodes, ch, k)->0,
                    ) implies P::ranks_below(
                    branch_result(nodes, ch, k)->0,
                    branch_result(nodes, ch, b.0 as int)->0,
                ) by {
                    assert(slot_done(nodes, ch, k));
                    assert(candidate::<C, S, N, P>(nodes, ch, k));
                }
            }
        }
    }
}

/// One step of the walk that moves the root down (`walk_subtree`, which
/// computes `descend`), stated over the children of the task at `start` and
/// their results: when the search may move below `start`
/// (`can_move_below`), accepted or not, the walk moves to the child in a
/// branch that `best_branch` describes and goes on as a walk from that
/// child would; otherwise it stays at `start`.
pub proof fn lemma_walk_step<C, S, const N: usize, P: SelectionPolicy<S>>(
    nodes: Seq<TreeNode<C, S, N>>,
    start: int,
)
    requires
        0 <= start < nodes.len(),
        nodes[start].child_slots().len() <= usize::MAX,
        forall|k: int|
            0 <= k < nodes[start].child_slots().len() && #[trigger] nodes[start].child_slots()[k] is Some
                ==> start < nodes[start].child_slots()[k]->0 < nodes.len(),
    ensures
        ({
            let ch = nodes[start].child_slots();
            let d = descend::<C, S, N, P>(nodes, start);
            &&& can_move_below::<C, S, N, P>(nodes, ch) ==> {
                let b = d.0[0] as int;
                let next = descend::<C, S, N, P>(nodes, ch[b]->0 as int);
                &&& d.0.len() >= 1
                &&& best_branch::<C, S, N, P>(nodes, ch, b)
                &&& d.0 == seq![d.0[0]] + next.0
                &&& d.1 == next.1
            }
            &&& !can_move_below::<C, S, N, P>(nodes, ch) ==> d.0.len() == 0 && d.1 == start
        }),
{
    let ch = nodes[start].child_slots();
    lemma_best_child_choice::<C, S, N, P>(nodes, ch);
    match best_child::<C, S, N, P>(nodes, ch) {
        Some(b) => {
            assert(ch[b.0 as int] is Some);
        },
        None => {},
    }
}

/// The first index up to `k` that `f` holds at, where it holds at `k`.
proof fn lemma_first_index(f: spec_fn(int) -> bool, k: int) -> (k0: int)
    requires
        0 <= k,
        f(k),
    ensures
        0 <= k0 <= k,
        f(k0),
        forall|x: int| 0 <= x < k0 ==> !#[trigger] f(x),
    decreases k,
{
    if k == 0 {
        0
    } else if exists|x: int| 0 <= x < k && #[trigger] f(x) {
        let x = choose|x: int| 0 <= x < k && #[trigger] f(x);
        lemma_first_index(f, x)
    } else {
        k
    }
}

/// Being below is transitive.
pub proof fn lemma_below_trans<C, S, const N: usize>(
    nodes: Seq<TreeNode<C, S, N>>,
    i: int,
    m: int,
    x: int,
)
    requires
        below(nodes, i, m),
        below(nodes, m, x),
    ensures
        below(nodes, i, x),
    decreases i,
{
    let p = nodes[i].up()->0 as int;
    if p != m {
        lemma_below_trans(nodes, p, m, x);
    }
}

impl<T, E, C, S, P, const N: usize> BFScheduler<T, E, C, S, P, N> where
    C: Canceable,
    T: EventReplay<EventType = E>,
    E: StaticEvent,
    P: SelectionPolicy<S>,
 {
    /// Walking down from a task that hangs in the tree stays in the tree and
    /// follows the path: the task reached is `start` or below it, hangs in
    /// the tree, and its path extends `start`'s by the branches taken.
    proof fn lemma_descend(&self, start: int)
        requires
            self.wf(),
            !self.done(),
            self.live(start),
        ensures
            ({
                let d = descend::<C, S, N, P>(self.arena(), start);
                &&& start <= d.1 < self.arena().len()
                &&& d.1 == start || below(self.arena(), d.1, start)
                &&& self.live(d.1)
                &&& path_to(self.arena(), d.1) == path_to(self.arena(), start) + d.0
            }),
        decreases self.nodes@.len() - start,
    {
        let nodes = self.nodes@;
        let d = descend::<C, S, N, P>(nodes, start);
        assert(self.node_ok(start));
        if ready_to_advance::<C, S, N, P>(nodes, nodes[start].child_slots()) {
            match best_child::<C, S, N, P>(nodes, nodes[start].child_slots()) {
                Some(b) => {
                    lemma_best_from::<C, S, N, P>(nodes, nodes[start].child_slots(), 0, None);
                    let j = b.1 as int;
                    assert(nodes[start].children@[b.0 as int] == Some(b.1));
                    assert(start < j < nodes.len());
                    assert(self.live(j));
                    assert(path_to(nodes, j) == path_to(nodes, start).push(b.0));
                    self.lemma_descend(j);
                    let rest = descend::<C, S, N, P>(nodes, j);
                    assert(path_to(nodes, start) + d.0 =~= path_to(nodes, j) + rest.0);
                    if rest.1 != j {
                        lemma_below_trans(nodes, rest.1, j, start);
                    }
                },
                None => {
                    assert(path_to(nodes, start) + d.0 =~= path_to(nodes, start));
                },
            }
        } else {
            assert(path_to(nodes, start) + d.0 =~= path_to(nodes, start));
        }
    }

    /// Moving the root down to the task `l`, which hangs in the tree, leaves
    /// exactly the tasks below `l` hanging.
    proof fn lemma_advance(s0: &Self, s1: &Self, l: int, i: int)
        requires
            s0.wf(),
            !s0.done(),
            s0.live(l),
            s1.nodes@ == s0.nodes@,
            s1.root_node == Some(l as usize),
            s1.tasks.children@ == s0.nodes@[l].children@,
        ensures
            s1.live(i) == (s0.live(i) && below(s0.arena(), i, l)),
        decreases i,
    {
        if 0 <= i < s0.nodes@.len() {
            assert(s0.node_ok(i));
            let n = s0.nodes@[i];
            if n.parent is Some && n.parent->0 < i {
                let p = n.parent->0 as int;
                Self::lemma_advance(s0, s1, l, p);
                assert(s0.node_ok(p));
                let linked = s0.nodes@[p].children@[n.slot as int] == Some(i as usize);
                if p == l && linked {
                    assert(s1.live(i));
                    assert(s0.live(i));
                    assert(below(s0.arena(), i, l));
                } else if p == l {
                    s0.lemma_anchor_gone();
                    assert(!s1.live(i));
                    assert(!s0.live(i));
                } else {
                    assert(s1.live(i) == (linked && s1.live(p)));
                    assert(below(s0.arena(), i, l) == below(s0.arena(), p, l));
                    let a0 = n.parent == s0.root_node && s0.tasks.children@[n.slot as int] == Some(
                        i as usize,
                    );
                    assert(s0.live(i) == (a0 || (linked && s0.live(p))));
                    if a0 && below(s0.arena(), p, l) {
                        // an old child of the root cannot lie below a task in the tree
                        s0.lemma_below_deeper(p, l);
                        s0.lemma_live_below_root(l);
                        assert(path_to(s0.nodes@, p) == s0.current_root@);
                    }
                }
            } else {
                if n.parent is None && s0.tasks.children@[n.slot as int] == Some(i as usize) {
                    assert(s0.root_node is None);
                }
            }
        }
    }

    /// Records `event` as the result of the live task at `id`.
    fn record_result(&mut self, id: usize, event: S)
        requires
            old(self).wf(),
            !old(self).done(),
            id < old(self).nodes@.len(),
        ensures
            final(self).wf(),
            final(self).nodes@.len() == old(self).nodes@.len(),
            final(self).nodes@[id as int].result == Some(event),
            final(self).nodes@[id as int].children == old(self).nodes@[id as int].children,
            final(self).nodes@[id as int].generation == old(self).nodes@[id as int].generation,
            final(self).nodes@[id as int].parent == old(self).nodes@[id as int].parent,
            final(self).nodes@[id as int].slot == old(self).nodes@[id as int].slot,
            final(self).nodes@[id as int].token == old(self).nodes@[id as int].token,
            forall|j: int|
                0 <= j < old(self).nodes@.len() && j != id ==> final(self).nodes@[j] == old(
                    self,
                ).nodes@[j],
            final(self).tasks.children@ == old(self).tasks.children@,
            final(self).current_root@ == old(self).current_root@,
            final(self).root_node == old(self).root_node,
            final(self).root_generation == old(self).root_generation,
            final(self).frontier@ == old(self).frontier@,
            forall|i: int| #![trigger final(self).live(i)] final(self).live(i) == old(self).live(i),
            final(self).signalled() == old(self).signalled(),
            final(self).ever_rejected() == old(self).ever_rejected(),
    {
        let ghost s0 = *self;
        self.nodes[id].result = Some(event);
        proof {
            let n1 = s0.nodes@;
            let n2 = self.nodes@;
            assert forall|j: int| 0 <= j < n1.len() implies #[trigger] agree_at(
                n1,
                s0.tasks.children@,
                n2,
                self.tasks.children@,
                j,
            ) by {
                assert(s0.node_ok(j));
            }
            assert forall|i: int| #![trigger self.live(i)] self.live(i) == s0.live(i) by {
                if 0 <= i < n1.len() {
                    lemma_hangs_frame(
                        n1,
                        s0.tasks.children@,
                        n2,
                        self.tasks.children@,
                        self.root_node,
                        i,
                    );
                }
            }
            assert forall|j: int| 0 <= j < n1.len() implies #[trigger] n2[j].up() == n1[j].up()
                && n2[j].branch() == n1[j].branch() by {}
            assert forall|i: int| 0 <= i < n2.len() implies #[trigger] self.node_ok(i) by {
                assert(s0.node_ok(i));
                lemma_path_frame(n1, n2, i);
            }
            assert forall|q: int| 0 <= q < self.frontier@.len() implies #[trigger] self.entry_ok(
                self.frontier@[q],
            ) by {
                let e = self.frontier@[q];
                assert(s0.entry_ok(e));
                lemma_path_frame(n1, n2, e.1 as int);
            }
            match self.root_node {
                Some(l) => {
                    lemma_path_frame(n1, n2, l as int);
                },
                None => {},
            }
        }
    }

    /// Moves the root down to the live task `lowest`, whose path extends the
    /// current root's by `steps`, and signals the tokens of every task that
    /// falls out of the tree.
    fn advance_root(&mut self, lowest: usize, steps: Vec<usize>)
        requires
            old(self).wf(),
            !old(self).done(),
            old(self).live(lowest as int),
            path_to(old(self).nodes@, lowest as int) == old(self).current_root@ + steps@,
        ensures
            final(self).wf(),
            final(self).nodes@ == old(self).nodes@,
            final(self).frontier@ == old(self).frontier@,
            final(self).root_node == Some(lowest),
            final(self).current_root@ == path_to(old(self).nodes@, lowest as int),
            final(self).root_generation == old(self).nodes@[lowest as int].generation,
            final(self).tasks.children@ == old(self).nodes@[lowest as int].children@,
            forall|i: int|
                #![trigger final(self).live(i)]
                final(self).live(i) == (old(self).live(i) && below(
                    old(self).arena(),
                    i,
                    lowest as int,
                )),
            final(self).ever_rejected() == old(self).ever_rejected(),
            final(self).signalled() == old(self).signalled().union(
                Set::new(
                    |i: usize|
                        old(self).live(i as int) && !below(old(self).arena(), i as int, lowest as int),
                ),
            ),
            forall|i: usize|
                #![trigger old(self).live(i as int)]
                old(self).live(i as int) && !below(old(self).arena(), i as int, lowest as int)
                    ==> call_ensures(C::cancel, (&old(self).nodes@[i as int].token,), ()),
    {
        let ghost s0 = *self;
        proof {
            assert(self.node_ok(lowest as int));
            self.lemma_live_below_root(lowest as int);
        }
        let ghost mut acc: Set<usize> = Set::empty();
        let mut k: usize = 0;
        while k < self.tasks.children.len()
            invariant
                self.wf(),
                *self == s0,
                k <= N,
                self.tasks.children@.len() == N,
                acc == Set::new(
                    |i: usize|
                        held_in(self.nodes@, self.tasks.children@, i as int, Some(lowest), k as int),
                ),
                forall|i: usize|
                    #![trigger acc.contains(i)]
                    acc.contains(i) ==> call_ensures(C::cancel, (&self.nodes@[i as int].token,), ()),
            decreases self.tasks.children@.len() - k,
        {
            if let Some(r) = self.tasks.children[k] {
                let sub = self.cancel_outside(r, lowest);
                proof {
                    acc = acc.union(sub@);
                }
            }
            proof {
                assert(acc =~= Set::new(
                    |i: usize|
                        held_in(self.nodes@, self.tasks.children@, i as int, Some(lowest), k as int + 1),
                ));
            }
            k = k + 1;
        }
        proof {
            assert forall|m: int|
                0 <= m < N && #[trigger] self.tasks.children@[m] is Some implies !below(
                self.nodes@,
                self.tasks.children@[m]->0 as int,
                lowest as int,
            ) by {
                self.lemma_root_child_not_below(m, lowest as int);
            }
            assert forall|i: usize| #[trigger] acc.contains(i) == (self.live(i as int) && !below(
                self.nodes@,
                i as int,
                lowest as int,
            )) by {
                lemma_held_in_stop(self.nodes@, self.tasks.children@, i as int, lowest, N as int);
                self.lemma_live_held_in_roots(i as int);
            }
            assert(acc =~= Set::new(
                |i: usize| self.live(i as int) && !below(self.arena(), i as int, lowest as int),
            ));
            assert forall|i: usize|
                #![trigger self.live(i as int)]
                self.live(i as int) && !below(self.arena(), i as int, lowest as int) implies call_ensures(
                C::cancel,
                (&self.nodes@[i as int].token,),
                (),
            ) by {
                assert(acc.contains(i));
            }
        }
        self.cancelled_tasks = Ghost(self.cancelled_tasks@.union(acc));
        proof {
            Self::lemma_record_only(&s0, self);
        }
        let ghost s_sig = *self;
        self.root_generation = self.nodes[lowest].generation;
        let mut x: usize = 0;
        while x < steps.len()
            invariant
                x <= steps@.len(),
                self.current_root@ == s0.current_root@ + steps@.take(x as int),
                self.nodes@ == s0.nodes@,
                self.frontier@ == s0.frontier@,
                self.root_generation == s0.nodes@[lowest as int].generation,
                self.cancelled_tasks == s_sig.cancelled_tasks,
                self.rejected_tasks == s_sig.rejected_tasks,
            decreases steps@.len() - x,
        {
            self.current_root.push(steps[x]);
            x = x + 1;
            assert(self.current_root@ =~= s0.current_root@ + steps@.take(x as int));
        }
        assert(steps@.take(steps@.len() as int) =~= steps@);
        let children = copy_steps_opt(&self.nodes[lowest].children);
        self.tasks.children = children;
        self.root_node = Some(lowest);
        proof {
            let l = lowest as int;
            assert forall|i: int| #![trigger self.live(i)] self.live(i) == (s0.live(i) && below(
                s0.arena(),
                i,
                l,
            )) by {
                Self::lemma_advance(&s0, self, l, i);
            }
            assert forall|i: int| 0 <= i < self.nodes@.len() implies #[trigger] self.node_ok(i) by {
                assert(s0.node_ok(i));
            }
            assert forall|q: int| 0 <= q < self.frontier@.len() implies #[trigger] self.entry_ok(
                self.frontier@[q],
            ) by {
                let e = self.frontier@[q];
                assert(s0.entry_ok(e));
                if self.live(e.1 as int) {
                    assert(self.current_root@.take(e.0.origin() as int) =~= s0.current_root@.take(
                        e.0.origin() as int,
                    ));
                }
            }
            assert forall|x: int| 0 <= x < self.current_root@.len() implies #[trigger] self.current_root@[x] < N by {
                assert(path_to(s0.nodes@, l)[x] < N);
            }
        }
    }
}

fn copy_steps_opt(v: &Vec<Option<usize>>) -> (r: Vec<Option<usize>>)
    ensures
        r@ == v@,
{
    let mut r: Vec<Option<usize>> = Vec::new();
    let mut x: usize = 0;
    while x < v.len()
        invariant
            x <= v@.len(),
            r@ == v@.take(x as int),
        decreases v@.len() - x,
    {
        r.push(v[x]);
        x = x + 1;
        assert(r@ =~= v@.take(x as int));
    }
    assert(v@.take(v@.len() as int) =~= v@);
    r
}

impl<T, E, C, S, P, const N: usize> BFScheduler<T, E, C, S, P, N> where
    C: Canceable,
    T: EventReplay<EventType = E>,
    E: StaticEvent,
    P: SelectionPolicy<S>,
 {
    /// The root moves when a result comes in for a child of the current root
    /// (`item_level` is one below it), the root is ready to advance, and some
    /// child is worth moving to; `nodes` hold the results as they stand then.
    pub open spec fn advances(
        &self,
        nodes: Seq<TreeNode<C, S, N>>,
        item_level: u64,
    ) -> bool {
        &&& item_level == self.root_gen() + 1
        &&& ready_to_advance::<C, S, N, P>(nodes, self.roots())
        &&& best_child::<C, S, N, P>(nodes, self.roots()) is Some
    }

    /// Where the root moves to: the best child of the current root, then on
    /// down (see `descend`). Returns the branches taken and the task reached.
    pub open spec fn new_root(&self, nodes: Seq<TreeNode<C, S, N>>) -> (Seq<usize>, int) {
        let b = best_child::<C, S, N, P>(nodes, self.roots())->0;
        let d = descend::<C, S, N, P>(nodes, b.1 as int);
        (seq![b.0] + d.0, d.1)
    }

    /// Records a worker's interpretation `event` for the task of `path`.
    ///
    /// A task that no longer hangs in the tree is ignored. Otherwise its
    /// result is set; a rejected result cuts every child off the task; and
    /// when the task is a child of the root and the root is ready to advance,
    /// the root moves to the best child and on down, keeping only the tasks
    /// below the new root.
    #[verifier::rlimit(40)]
    #[verifier::spinoff_prover]
    pub fn put_result(&mut self, path: ScheduledStep<T, usize>, event: S)
        requires
            old(self).wf(),
        ensures
            old(self).put_result_effect(*final(self), path, event),
    {
        let id: usize = *path.meta();
        if !self.is_live(id) {
            proof {
                assert(self.signalled().union(
                    Set::new(|i: usize| self.live(i as int) && !self.live(i as int)),
                ) =~= self.signalled());
            }
            return;
        }
        proof {
            if self.done() {
                self.lemma_done_nothing_live(id as int);
            }
        }
        let ghost s0 = *self;
        let current_generation = self.root_generation;
        let item_gen = self.nodes[id].generation;
        let rejected = P::may_reject(&event);
        self.record_result(id, event);
        if rejected {
            let ghost s_r = *self;
            self.rejected_tasks = Ghost(self.rejected_tasks@.insert(id));
            proof {
                Self::lemma_record_only(&s_r, self);
            }
        }
        let ghost s_rec = *self;
        if rejected {
            self.prune_children(id);
        }
        let ghost s1 = *self;
        proof {
            assert forall|j: int| 0 <= j < s0.nodes@.len() implies #[trigger] s_rec.nodes@[j].parent
                == s0.nodes@[j].parent by {}
            assert forall|i: int| #![trigger self.live(i)] self.live(i) == (s0.live(i) && !(rejected
                && below(s0.arena(), i, id as int))) by {
                lemma_below_frame(s0.arena(), s_rec.arena(), i, id as int);
            }
            assert(self.signalled() =~= s0.signalled().union(
                Set::new(|i: usize| s0.live(i as int) && !self.live(i as int)),
            ));
            assert forall|i: usize|
                #![trigger s0.live(i as int)]
                s0.live(i as int) && !self.live(i as int) implies call_ensures(
                C::cancel,
                (&self.nodes@[i as int].token,),
                (),
            ) by {
                lemma_below_frame(s0.arena(), s_rec.arena(), i as int, id as int);
                assert(s_rec.live(i as int));
            }
        }
        if item_gen == current_generation + 1 && self.tasks.may_advcance::<C, S, P>(&self.nodes) {
            match find_best::<C, S, N, P>(&self.tasks.children, &self.nodes) {
                None => {},
                Some(b) => {
                    proof {
                        lemma_best_from::<C, S, N, P>(self.nodes@, self.tasks.children@, 0, None);
                        let j = b.1 as int;
                        assert(self.tasks.children@[b.0 as int] == Some(b.1));
                        assert(self.node_ok(j));
                        assert(self.live(j));
                        match self.root_node {
                            Some(l) => {
                                assert(path_to(self.nodes@, j) == path_to(self.nodes@, l as int).push(
                                    b.0,
                                ));
                            },
                            None => {
                                assert(path_to(self.nodes@, j) =~= seq![b.0]);
                            },
                        }
                        assert(path_to(self.nodes@, j) == self.current_root@.push(b.0));
                        self.lemma_descend(j);
                    }
                    let (tail, lowest) = TreeNode::walk_subtree::<P>(&self.nodes, b.1);
                    let mut steps: Vec<usize> = Vec::new();
                    steps.push(b.0);
                    let mut x: usize = 0;
                    while x < tail.len()
                        invariant
                            x <= tail@.len(),
                            steps@ == seq![b.0] + tail@.take(x as int),
                        decreases tail@.len() - x,
                    {
                        steps.push(tail[x]);
                        x = x + 1;
                        assert(steps@ =~= seq![b.0] + tail@.take(x as int));
                    }
                    proof {
                        assert(tail@.take(tail@.len() as int) =~= tail@);
                        assert(path_to(self.nodes@, lowest as int) =~= self.current_root@ + steps@);
                    }
                    self.advance_root(lowest, steps);
                    proof {
                        assert(s0.current_root@ =~= self.current_root@.subrange(
                            0,
                            s0.current_root@.len() as int,
                        ));
                        let d = descend::<C, S, N, P>(s1.nodes@, b.1 as int);
                        assert forall|i: int| #![trigger self.live(i)] self.live(i) == (s0.live(i)
                            && !(rejected && below(s0.arena(), i, id as int)) && below(
                            s0.arena(),
                            i,
                            d.1,
                        )) by {
                            assert(s1.live(i) == (s0.live(i) && !(rejected && below(
                                s0.arena(),
                                i,
                                id as int,
                            ))));
                            assert forall|j: int| 0 <= j < s0.nodes@.len() implies #[trigger] s1.nodes@[j].parent
                                == s0.nodes@[j].parent by {}
                            lemma_below_frame(s0.arena(), s1.arena(), i, d.1);
                        }
                        assert(self.signalled() =~= s0.signalled().union(
                            Set::new(|i: usize| s0.live(i as int) && !self.live(i as int)),
                        ));
                        assert(s1.live(d.1));
                        assert(s0.live(d.1));
                        assert(s1.node_ok(lowest as int));
                        assert(self.root_generation < u64::MAX);
                        assert forall|i: usize|
                            #![trigger s0.live(i as int)]
                            s0.live(i as int) && !self.live(i as int) implies call_ensures(
                            C::cancel,
                            (&self.nodes@[i as int].token,),
                            (),
                        ) by {
                            if s1.live(i as int) {
                                assert(!below(s1.arena(), i as int, lowest as int));
                            }
                        }
                    }
                },
            }
        }
    }
}

/// Being below depends on the recorded parents alone.
pub proof fn lemma_below_frame<C, S, const N: usize>(
    n1: Seq<TreeNode<C, S, N>>,
    n2: Seq<TreeNode<C, S, N>>,
    i: int,
    x: int,
)
    requires
        n1.len() == n2.len(),
        forall|j: int| 0 <= j < n1.len() ==> #[trigger] n2[j].up() == n1[j].up(),
    ensures
        below(n1, i, x) == below(n2, i, x),
    decreases i,
{
    if 0 <= i < n1.len() && n1[i].up() is Some && 0 <= n1[i].up()->0 < i {
        assert(n2[i].up() == n1[i].up());
        lemma_below_frame(n1, n2, n1[i].up()->0 as int, x);
    } else if 0 <= i < n1.len() {
        assert(n2[i].up() == n1[i].up());
    }
}

impl<T, E, C, S, P, const N: usize> BFScheduler<T, E, C, S, P, N> where
    C: Canceable,
    T: EventReplay<EventType = E>,
    E: StaticEvent,
    P: SelectionPolicy<S>,
 {
    /// Stops the search: no task hangs in the tree any more, every token of
    /// a task that did is signalled, and the queue is emptied.
    pub fn notify_done(&mut self)
        requires
            old(self).wf(),
        ensures
            old(self).notify_done_effect(*final(self)),
    {
        let ghost s_pre = *self;
        let ghost mut acc: Set<usize> = Set::empty();
        let mut k: usize = 0;
        while k < self.tasks.children.len()
            invariant
                self.wf(),
                *self == s_pre,
                s_pre == *old(self),
                k <= N,
                self.tasks.children@.len() == N,
                acc == Set::new(
                    |i: usize| held_in(self.nodes@, self.tasks.children@, i as int, None, k as int),
                ),
                forall|i: usize|
                    #![trigger acc.contains(i)]
                    acc.contains(i) ==> call_ensures(C::cancel, (&self.nodes@[i as int].token,), ()),
            decreases self.tasks.children@.len() - k,
        {
            if let Some(r) = self.tasks.children[k] {
                let sub = self.cancel_subtree(r);
                proof {
                    acc = acc.union(sub@);
                }
            }
            proof {
                assert(acc =~= Set::new(
                    |i: usize|
                        held_in(self.nodes@, self.tasks.children@, i as int, None, k as int + 1),
                ));
            }
            k = k + 1;
        }
        proof {
            assert forall|i: usize| #[trigger] acc.contains(i) == self.live(i as int) by {
                self.lemma_live_held_in_roots(i as int);
            }
            assert(acc =~= Set::new(|i: usize| self.live(i as int)));
            assert forall|i: usize| #![trigger self.live(i as int)] self.live(i as int) implies call_ensures(
                C::cancel,
                (&self.nodes@[i as int].token,),
                (),
            ) by {
                assert(acc.contains(i));
            }
        }
        self.cancelled_tasks = Ghost(self.cancelled_tasks@.union(acc));
        proof {
            Self::lemma_record_only(&s_pre, self);
        }
        let ghost s0 = *self;
        self.root_generation = u64::MAX;
        self.frontier.clear();
        self.tasks.children = empty_children(N);
        proof {
            assert(self.pending() =~= Seq::<usize>::empty());
            assert forall|i: int| 0 <= i < self.nodes@.len() implies #[trigger] self.node_ok(i) by {
                assert(s0.node_ok(i));
            }
            assert forall|i: int| !self.live(i) by {
                self.lemma_done_nothing_live(i);
            }
        }
    }

    /// Whether the work on `item` can be dropped: its task no longer hangs in
    /// the tree (then always), or its token has been signalled.
    pub fn is_cancelled(&self, item: &ScheduledStep<T, usize>) -> (r: bool)
        requires
            self.wf(),
        ensures
            !self.live(item.metadata() as int) ==> r,
            self.live(item.metadata() as int) ==> call_ensures(
                C::is_cancelled,
                (&self.arena()[item.metadata() as int].token_of(),),
                r,
            ),
    {
        let id = *item.meta();
        if !self.is_live(id) {
            return true;
        }
        let signalled = self.nodes[id].token.is_cancelled();
        self.cancellation_verdict(item, signalled)
    }

    /// The verdict of `is_cancelled` given what the task's token answered:
    /// cancelled when the task no longer hangs in the tree or the token was
    /// signalled.
    pub fn cancellation_verdict(&self, item: &ScheduledStep<T, usize>, token_signalled: bool) -> (r:
        bool)
        requires
            self.wf(),
        ensures
            r == (!self.live(item.metadata() as int) || token_signalled),
    {
        !self.is_live(*item.meta()) || token_signalled
    }

    /// Whether the search has been told to stop.
    pub fn is_done(&self) -> (r: bool)
        ensures
            r == self.done(),
    {
        self.root_generation == u64::MAX
    }

    /// How many tasks have been scheduled so far.
    pub fn task_count(&self) -> (r: usize)
        ensures
            r == self.arena().len(),
    {
        self.nodes.len()
    }

    /// The branch indices from the original root to the current root.
    pub fn root_branches(&self) -> (r: Vec<usize>)
        ensures
            r@ == self.root_path(),
    {
        copy_steps(self.current_root.as_slice())
    }
}

impl<T, E, C, S, P, const N: usize> BFScheduler<T, E, C, S, P, N> where
    C: Canceable,
    T: EventReplay<EventType = E>,
    E: StaticEvent,
    P: SelectionPolicy<S>,
 {
    /// What `next(token)` does to this scheduler: `after` is the scheduler
    /// afterwards and `r` the result. The first empty slot below the current
    /// root is filled, else the first empty slot of the first pending task
    /// that is viable; the tasks passed over leave the queue. With neither,
    /// the token comes back and the queue is emptied.
    pub open spec fn next_effect(
        &self,
        after: Self,
        token: C,
        r: Result<ScheduledStep<T, usize>, C>,
    ) -> bool {
        let id = self.arena().len() as usize;
        &&& after.wf()
        &&& after.signalled() == self.signalled()
        &&& after.ever_rejected() == self.ever_rejected()
        &&& after.root_path() == self.root_path()
        &&& after.root_gen() == self.root_gen()
        &&& after.anchor() == self.anchor()
        &&& match first_free(self.roots()) {
            Some(k) => {
                &&& r is Ok
                &&& after.roots() == self.roots().update(k as int, Some(id))
                &&& after.arena()[id as int].up() == self.anchor()
                &&& after.arena()[id as int].branch() == k
                &&& after.pending() == self.pending().push(id)
                &&& forall|i: int| 0 <= i < id ==> after.arena()[i] == self.arena()[i]
            },
            None => {
                &&& after.roots() == self.roots()
                &&& match self.first_viable_from(0) {
                    Some(q) => {
                        let p = self.pending()[q];
                        let k = first_free(self.arena()[p as int].child_slots())->0;
                        &&& r is Ok
                        &&& after.arena()[id as int].up() == Some(p)
                        &&& after.arena()[id as int].branch() == k
                        &&& after.arena()[p as int].child_slots() == self.arena()[p as int].child_slots().update(
                            k as int,
                            Some(id),
                        )
                        &&& after.arena()[p as int].outcome() == self.arena()[p as int].outcome()
                        &&& after.arena()[p as int].up() == self.arena()[p as int].up()
                        &&& after.arena()[p as int].branch() == self.arena()[p as int].branch()
                        &&& after.arena()[p as int].level() == self.arena()[p as int].level()
                        &&& after.arena()[p as int].token_of() == self.arena()[p as int].token_of()
                        &&& forall|i: int|
                            0 <= i < id && i != p ==> after.arena()[i] == self.arena()[i]
                        &&& after.pending() == seq![p] + self.pending().skip(q + 1) + seq![id]
                    },
                    None => {
                        &&& r == Err::<ScheduledStep<T, usize>, C>(token)
                        &&& after.arena() == self.arena()
                        &&& after.pending() == Seq::<usize>::empty()
                    },
                }
            },
        }
        &&& r matches Ok(step) ==> {
            &&& step.metadata() == id
            &&& after.arena().len() == id + 1
            &&& after.live(id as int)
            &&& after.arena()[id as int].outcome() is None
            &&& after.arena()[id as int].child_slots() == empty_slots(N as nat)
            &&& after.arena()[id as int].token_of() == token
            &&& step.recorded().events() == after.path_events(id as int)
            &&& forall|i: int| 0 <= i < id ==> after.live(i) == self.live(i)
            &&& after.root_path().is_prefix_of(path_to(after.arena(), id as int))
            &&& path_to(after.arena(), id as int).len() == after.arena()[id as int].level()
            &&& after.arena()[id as int].up() != self.anchor() ==> {
                let p = after.arena()[id as int].up()->0 as int;
                &&& after.arena()[id as int].up() is Some
                &&& self.live(p)
                &&& !(self.arena()[p].outcome() is Some && P::rejects(
                    self.arena()[p].outcome()->0,
                ))
            }
        }
    }

    /// What `put_result(path, event)` does to this scheduler: `after` is the
    /// scheduler afterwards. A task that no longer hangs in the tree is
    /// ignored. Otherwise its result is set; a rejected result cuts every
    /// child off the task; and when the task is a child of the root and the
    /// root is ready to advance, the root moves to the best child and on
    /// down, keeping only the tasks below the new root. The token of every
    /// task that leaves the tree, the new root's own included, is signalled,
    /// and no other.
    pub open spec fn put_result_effect(
        &self,
        after: Self,
        path: ScheduledStep<T, usize>,
        event: S,
    ) -> bool {
        let id = path.metadata() as int;
        &&& after.wf()
        &&& !self.done() ==> !after.done()
        &&& after.signalled() == self.signalled().union(
            Set::new(|i: usize| self.live(i as int) && !after.live(i as int)),
        )
        &&& forall|i: usize|
            #![trigger self.live(i as int)]
            self.live(i as int) && !after.live(i as int) ==> call_ensures(
                C::cancel,
                (&after.arena()[i as int].token_of(),),
                (),
            )
        &&& after.ever_rejected() == (if self.live(id) && P::rejects(event) {
            self.ever_rejected().insert(path.metadata())
        } else {
            self.ever_rejected()
        })
        &&& after.pending() == self.pending()
        &&& after.arena().len() == self.arena().len()
        &&& self.root_path().is_prefix_of(after.root_path())
        &&& self.root_gen() <= after.root_gen()
        &&& if !self.live(id) {
            &&& after.signalled() == self.signalled()
            &&& after.arena() == self.arena()
            &&& after.roots() == self.roots()
            &&& after.anchor() == self.anchor()
            &&& after.root_path() == self.root_path()
            &&& after.root_gen() == self.root_gen()
        } else {
            let rejected = P::rejects(event);
            let item = self.arena()[id];
            let nodes = after.arena();
            let adv = self.advances(nodes, item.level());
            let dest = self.new_root(nodes);
            &&& nodes[id].outcome() == Some(event)
            &&& nodes[id].child_slots() == (if rejected {
                empty_slots(N as nat)
            } else {
                item.child_slots()
            })
            &&& nodes[id].level() == item.level()
            &&& nodes[id].up() == item.up()
            &&& nodes[id].branch() == item.branch()
            &&& nodes[id].token_of() == item.token_of()
            &&& forall|j: int| 0 <= j < nodes.len() && j != id ==> nodes[j] == self.arena()[j]
            &&& if adv {
                &&& self.live(dest.1)
                &&& after.anchor() == Some(dest.1 as usize)
                &&& after.root_path() == self.root_path() + dest.0
                &&& after.root_gen() == nodes[dest.1].level()
                &&& after.roots() == nodes[dest.1].child_slots()
            } else {
                &&& after.roots() == self.roots()
                &&& after.anchor() == self.anchor()
                &&& after.root_path() == self.root_path()
                &&& after.root_gen() == self.root_gen()
            }
            &&& forall|i: int|
                #![trigger after.live(i)]
                after.live(i) == (self.live(i) && !(rejected && below(self.arena(), i, id)) && (
                adv ==> below(self.arena(), i, dest.1)))
        }
    }

    /// What `notify_done()` does to this scheduler: `after` is the scheduler
    /// afterwards. The search is done, no task hangs in the tree, the queue
    /// is empty, and the token of every task that hung in the tree has been
    /// signalled.
    pub open spec fn notify_done_effect(&self, after: Self) -> bool {
        &&& after.wf()
        &&& after.done()
        &&& after.root_path() == self.root_path()
        &&& after.anchor() == self.anchor()
        &&& after.arena() == self.arena()
        &&& after.roots() == empty_slots(N as nat)
        &&& after.pending() == Seq::<usize>::empty()
        &&& forall|i: int| !after.live(i)
        &&& after.signalled() == self.signalled().union(Set::new(|i: usize| self.live(i as int)))
        &&& forall|i: usize|
            #![trigger self.live(i as int)]
            self.live(i as int) ==> call_ensures(C::cancel, (&after.arena()[i as int].token_of(),), ())
        &&& after.ever_rejected() == self.ever_rejected()
    }
}

impl<T, E, C, S, P, const N: usize> BFScheduler<T, E, C, S, P, N> where
    C: Canceable,
    T: EventReplay<EventType = E>,
    E: StaticEvent,
    P: SelectionPolicy<S>,
 {
    /// The root only grows: after any `put_result` the old root path is a
    /// prefix of the new one, and a step that `next` hands out afterwards
    /// lies strictly below the new root, and so below the old one too.
    pub proof fn lemma_root_grows_and_bounds_next(
        s0: Self,
        s1: Self,
        s2: Self,
        x: ScheduledStep<T, usize>,
        r: S,
        t: C,
        step: ScheduledStep<T, usize>,
    )
        requires
            s0.wf(),
            s0.put_result_effect(s1, x, r),
            s1.next_effect(s2, t, Ok(step)),
        ensures
            s0.root_path().is_prefix_of(s1.root_path()),
            s1.root_path().is_prefix_of(path_to(s2.arena(), step.metadata() as int)),
            path_to(s2.arena(), step.metadata() as int).len() > s1.root_path().len(),
            s0.root_path().is_prefix_of(path_to(s2.arena(), step.metadata() as int)),
    {
        let id = step.metadata() as int;
        if s2.done() {
            s2.lemma_done_nothing_live(id);
        }
        s2.lemma_live_below_root(id);
        let p = path_to(s2.arena(), id);
        assert(s0.root_path() =~= p.subrange(0, s0.root_path().len() as int)) by {
            assert(s0.root_path() =~= s1.root_path().subrange(0, s0.root_path().len() as int));
        }
    }

    /// Two schedulers that agree on everything the contracts observe agree on
    /// which pending task is viable first.
    proof fn lemma_first_viable_same(s0: Self, s1: Self, q: int)
        requires
            s1.arena() == s0.arena(),
            s1.roots() == s0.roots(),
            s1.anchor() == s0.anchor(),
            s1.pending() == s0.pending(),
        ensures
            s1.first_viable_from(q) == s0.first_viable_from(q),
        decreases s0.pending().len() - q,
    {
        if 0 <= q < s0.pending().len() {
            assert(s1.viable(s0.pending()[q] as int) == s0.viable(s0.pending()[q] as int));
            Self::lemma_first_viable_same(s0, s1, q + 1);
        }
    }

    /// A result for a task that no longer hangs in the tree has no observable
    /// effect: every later `next`, `put_result` and `notify_done` behaves as
    /// it would have without it, every task is as live as before, and no
    /// token is signalled.
    pub proof fn lemma_stale_result_unobservable(
        s0: Self,
        s1: Self,
        x: ScheduledStep<T, usize>,
        r: S,
    )
        requires
            s0.wf(),
            !s0.live(x.metadata() as int),
            s0.put_result_effect(s1, x, r),
        ensures
            forall|i: int| #[trigger] s1.live(i) == s0.live(i),
            s1.signalled() == s0.signalled(),
            forall|after: Self, t: C, res: Result<ScheduledStep<T, usize>, C>|
                #[trigger] s1.next_effect(after, t, res) == s0.next_effect(after, t, res),
            forall|after: Self, y: ScheduledStep<T, usize>, e: S|
                #[trigger] s1.put_result_effect(after, y, e) == s0.put_result_effect(after, y, e),
            forall|after: Self| #[trigger] s1.notify_done_effect(after) == s0.notify_done_effect(after),
    {
        Self::lemma_first_viable_same(s0, s1, 0);
        assert forall|i: int| #[trigger] s1.live(i) == s0.live(i) by {}
        assert(s1.signalled() == s0.signalled());
        assert forall|i: int| #[trigger] s1.path_events(i) == s0.path_events(i) by {}
        assert forall|after: Self, t: C, res: Result<ScheduledStep<T, usize>, C>|
            #[trigger] s1.next_effect(after, t, res) == s0.next_effect(after, t, res) by {}
        assert forall|after: Self, y: ScheduledStep<T, usize>, e: S|
            #[trigger] s1.put_result_effect(after, y, e) == s0.put_result_effect(after, y, e) by {
            assert(Set::new(|i: usize| s1.live(i as int) && !after.live(i as int)) =~= Set::new(
                |i: usize| s0.live(i as int) && !after.live(i as int),
            ));
        }
        assert forall|after: Self| #[trigger]
            s1.notify_done_effect(after) == s0.notify_done_effect(after) by {
            assert(Set::new(|i: usize| s1.live(i as int)) =~= Set::new(
                |i: usize| s0.live(i as int),
            ));
        }
    }

    /// Calling `notify_done` twice is observably the same as calling it once:
    /// the second call signals no further token.
    pub proof fn lemma_notify_done_idempotent(s0: Self, s1: Self, s2: Self)
        requires
            s0.notify_done_effect(s1),
            s1.notify_done_effect(s2),
        ensures
            s2.arena() == s1.arena(),
            s2.roots() == s1.roots(),
            s2.anchor() == s1.anchor(),
            s2.root_path() == s1.root_path(),
            s2.root_gen() == s1.root_gen(),
            s2.pending() == s1.pending(),
            forall|i: int| #[trigger] s2.live(i) == s1.live(i),
            s2.signalled() == s1.signalled(),
    {
        assert(s2.signalled() =~= s1.signalled());
    }

    /// `next` signals no token, and keeps every token signalled exactly when
    /// its task has left the tree; the token of a step it hands out is not
    /// signalled.
    pub proof fn lemma_next_keeps_signals(
        s0: Self,
        s1: Self,
        token: C,
        r: Result<ScheduledStep<T, usize>, C>,
    )
        requires
            s0.wf(),
            s0.signals_ok(),
            s0.next_effect(s1, token, r),
        ensures
            s1.signals_ok(),
            r matches Ok(step) ==> !s1.signalled().contains(step.metadata()),
    {
        assert(s1.signalled() =~= Set::new(
            |i: usize| i < s1.arena().len() && !s1.live(i as int),
        ));
    }

    /// `put_result` keeps every token signalled exactly when its task has
    /// left the tree.
    pub proof fn lemma_put_result_keeps_signals(
        s0: Self,
        s1: Self,
        path: ScheduledStep<T, usize>,
        event: S,
    )
        requires
            s0.wf(),
            s0.signals_ok(),
            s0.put_result_effect(s1, path, event),
        ensures
            s1.signals_ok(),
    {
        assert(s1.signalled() =~= Set::new(
            |i: usize| i < s1.arena().len() && !s1.live(i as int),
        ));
    }

    /// While a task that hangs in the tree holds a result that rejects it, no
    /// task below it hangs in the tree.
    pub open spec fn rejected_closed(&self) -> bool {
        forall|x: int, i: int|
            #[trigger] below(self.arena(), i, x) && self.live(x) && self.live(i) ==> !(
            self.arena()[x].outcome() is Some && P::rejects(self.arena()[x].outcome()->0))
    }

    /// What a result does to the root. For a child of the current root, the
    /// root moves exactly when, with the result in, the search may move below
    /// the root (`can_move_below` over the root's children); it then moves to
    /// the child in a branch that `best_branch` describes and walks on from it
    /// as `walk_subtree` does. A result for a task deeper down, or one for
    /// which the search may not move, leaves the root where it is.
    pub proof fn lemma_put_result_root_move(
        s0: Self,
        s1: Self,
        path: ScheduledStep<T, usize>,
        event: S,
    )
        requires
            s0.wf(),
            s0.live(path.metadata() as int),
            s0.put_result_effect(s1, path, event),
        ensures
            ({
                let id = path.metadata() as int;
                let ch = s0.roots();
                let nodes = s1.arena();
                let n0 = s0.root_path().len();
                let moves = s0.arena()[id].up() == s0.anchor() && can_move_below::<C, S, N, P>(
                    nodes,
                    ch,
                );
                &&& moves ==> {
                    let b = s1.root_path()[n0 as int] as int;
                    let d = descend::<C, S, N, P>(nodes, ch[b]->0 as int);
                    &&& s1.root_path().len() > n0
                    &&& best_branch::<C, S, N, P>(nodes, ch, b)
                    &&& s1.root_path() == s0.root_path() + seq![b as usize] + d.0
                    &&& s1.anchor() == Some(d.1 as usize)
                }
                &&& !moves ==> {
                    &&& s1.root_path() == s0.root_path()
                    &&& s1.anchor() == s0.anchor()
                    &&& s1.roots() == s0.roots()
                }
            }),
    {
        let id = path.metadata() as int;
        let ch = s0.roots();
        let nodes = s1.arena();
        if s0.done() {
            s0.lemma_done_nothing_live(id);
        }
        s0.lemma_levels();
        assert(s0.node_ok(id));
        let n = s0.nodes@[id];
        // a child of the root is one level below it; any other task lies deeper
        if n.parent == s0.root_node && s0.tasks.children@[n.slot as int] == Some(id as usize) {
            match s0.root_node {
                Some(l) => {
                    assert(path_to(s0.nodes@, id) == path_to(s0.nodes@, l as int).push(n.slot));
                },
                None => {},
            }
            assert(n.generation == s0.root_generation + 1);
        } else {
            let p = n.parent->0 as int;
            s0.lemma_live_below_root(p);
            assert(path_to(s0.nodes@, id) == path_to(s0.nodes@, p).push(n.slot));
            if n.parent == s0.root_node {
                s0.lemma_anchor_gone();
            }
            assert(n.generation != s0.root_generation + 1);
        }
        lemma_best_child_choice::<C, S, N, P>(nodes, ch);
        match best_child::<C, S, N, P>(nodes, ch) {
            Some(b) => {
                let d = descend::<C, S, N, P>(nodes, b.1 as int);
                assert(s0.root_path() + (seq![b.0] + d.0) =~= s0.root_path() + seq![b.0] + d.0);
            },
            None => {},
        }
    }

    /// `next` keeps rejected branches closed: the step it hands out lies
    /// below no task in the tree whose result rejects it.
    pub proof fn lemma_next_keeps_rejected_closed(
        s0: Self,
        s1: Self,
        token: C,
        r: Result<ScheduledStep<T, usize>, C>,
    )
        requires
            s0.wf(),
            s0.rejected_closed(),
            s0.next_effect(s1, token, r),
        ensures
            s1.rejected_closed(),
            r matches Ok(step) ==> forall|x: int|
                #![trigger s0.live(x), s0.arena()[x]]
                s0.live(x) && s0.arena()[x].outcome() is Some && P::rejects(
                    s0.arena()[x].outcome()->0,
                ) ==> !below(s1.arena(), step.metadata() as int, x),
    {
        let n0 = s0.arena();
        let n1 = s1.arena();
        if s0.done() {
            assert forall|x: int| !s0.live(x) by {
                s0.lemma_done_nothing_live(x);
            }
        }
        if r is Ok {
            let id = n0.len() as int;
            assert forall|j: int| 0 <= j < n0.len() implies #[trigger] n1[j].up() == n0[j].up() by {}
            assert forall|x: int, i: int|
                #[trigger] below(n1, i, x) && s1.live(x) && s1.live(i) implies !(
                n1[x].outcome() is Some && P::rejects(n1[x].outcome()->0)) by {
                Self::lemma_next_step_avoids(s0, s1, token, r, x, i);
            }
            assert forall|x: int|
                #![trigger s0.live(x), s0.arena()[x]]
                s0.live(x) && s0.arena()[x].outcome() is Some && P::rejects(
                    s0.arena()[x].outcome()->0,
                ) implies !below(s1.arena(), id, x) by {
                if below(n1, id, x) {
                    Self::lemma_next_step_avoids(s0, s1, token, r, x, id);
                }
            }
        }
    }

    /// After `next` hands out a step, no task in the tree lies below a task
    /// in the tree whose result rejects it.
    proof fn lemma_next_step_avoids(
        s0: Self,
        s1: Self,
        token: C,
        r: Result<ScheduledStep<T, usize>, C>,
        x: int,
        i: int,
    )
        requires
            s0.wf(),
            !s0.done(),
            s0.rejected_closed(),
            s0.next_effect(s1, token, r),
            r is Ok,
            below(s1.arena(), i, x),
            s1.live(x),
            s1.live(i),
        ensures
            !(s1.arena()[x].outcome() is Some && P::rejects(s1.arena()[x].outcome()->0)),
    {
        let n0 = s0.arena();
        let n1 = s1.arena();
        let id = n0.len() as int;
        s1.lemma_below_deeper(i, x);
        if x < id {
            if i < id {
                lemma_below_prefix_frame(n0, n1, i, x);
                assert(s0.live(x) && s0.live(i));
            } else {
                let u = n1[id].up();
                if u != s0.anchor() {
                    let p = u->0 as int;
                    assert(s1.node_ok(id));
                    if p != x {
                        assert(below(n1, p, x));
                        lemma_below_prefix_frame(n0, n1, p, x);
                    }
                } else {
                    assert(s1.node_ok(id));
                    s1.lemma_anchor_gone();
                    match s1.root_node {
                        Some(a) => {
                            assert(a as int != x);
                            assert(below(n1, a as int, x));
                            s1.lemma_below_deeper(a as int, x);
                            s1.lemma_live_below_root(x);
                            assert(s1.node_ok(a as int));
                        },
                        None => {},
                    }
                }
            }
        }
    }

    /// `put_result` keeps rejected branches closed.
    pub proof fn lemma_put_result_keeps_rejected_closed(
        s0: Self,
        s1: Self,
        path: ScheduledStep<T, usize>,
        event: S,
    )
        requires
            s0.wf(),
            s0.rejected_closed(),
            s0.put_result_effect(s1, path, event),
        ensures
            s1.rejected_closed(),
    {
        let n0 = s0.arena();
        let n1 = s1.arena();
        let id = path.metadata() as int;
        assert forall|j: int| 0 <= j < n0.len() implies #[trigger] n1[j].up() == n0[j].up() by {}
        assert forall|x: int, i: int|
            #[trigger] below(n1, i, x) && s1.live(x) && s1.live(i) implies !(n1[x].outcome() is Some
            && P::rejects(n1[x].outcome()->0)) by {
            lemma_below_frame(n0, n1, i, x);
            assert(s0.live(x) && s0.live(i));
        }
    }

    /// `notify_done` keeps rejected branches closed.
    pub proof fn lemma_notify_done_keeps_rejected_closed(s0: Self, s1: Self)
        requires
            s0.notify_done_effect(s1),
        ensures
            s1.rejected_closed(),
    {
    }

    /// Every task in the tree that can take another child waits in the
    /// queue, unless a result once rejected it; and every task in the tree
    /// whose result rejects it is recorded as once rejected.
    pub open spec fn queue_ok(&self) -> bool {
        &&& forall|i: int|
            #![trigger self.live(i)]
            self.live(i) && first_free(self.arena()[i].child_slots()) is Some
                && !self.ever_rejected().contains(i as usize) ==> self.pending().contains(i as usize)
        &&& forall|i: int|
            #![trigger self.live(i)]
            self.live(i) && self.arena()[i].outcome() is Some && P::rejects(
                self.arena()[i].outcome()->0,
            ) ==> self.ever_rejected().contains(i as usize)
    }

    /// What `first_viable_from(q)` finds: the first viable queue position
    /// from `q` on, none before it.
    pub proof fn lemma_first_viable_from(&self, q: int)
        requires
            0 <= q,
        ensures
            match self.first_viable_from(q) {
                Some(v) => {
                    &&& q <= v < self.pending().len()
                    &&& self.viable(self.pending()[v] as int)
                    &&& forall|w: int|
                        q <= w < v ==> !#[trigger] self.viable(self.pending()[w] as int)
                },
                None => forall|w: int|
                    q <= w < self.pending().len() ==> !#[trigger] self.viable(
                        self.pending()[w] as int,
                    ),
            },
        decreases self.pending().len() - q,
    {
        if q < self.pending().len() && !self.viable(self.pending()[q] as int) {
            self.lemma_first_viable_from(q + 1);
        }
    }

    /// `next` keeps every task that can take a child in the queue, unless a
    /// result once rejected it. It gives its token back only when every
    /// child of the root is scheduled and every task in the tree that can
    /// take a child was once rejected.
    pub proof fn lemma_next_keeps_queue(
        s0: Self,
        s1: Self,
        token: C,
        r: Result<ScheduledStep<T, usize>, C>,
    )
        requires
            s0.wf(),
            s0.queue_ok(),
            s0.next_effect(s1, token, r),
        ensures
            s1.queue_ok(),
            r is Err ==> {
                &&& first_free(s0.roots()) is None
                &&& forall|i: int|
                    #![trigger s0.live(i)]
                    s0.live(i) && first_free(s0.arena()[i].child_slots()) is Some
                        ==> s0.ever_rejected().contains(i as usize)
            },
    {
        let n0 = s0.arena();
        let n1 = s1.arena();
        let id = n0.len() as int;
        let q0 = s0.pending();
        let q1 = s1.pending();
        s0.lemma_first_viable_from(0);
        match first_free(s0.roots()) {
            Some(k) => {
                assert forall|i: int|
                    #![trigger s1.live(i)]
                    s1.live(i) && first_free(n1[i].child_slots()) is Some
                        && !s1.ever_rejected().contains(i as usize) implies q1.contains(i as usize) by {
                    if i < id {
                        assert(s0.live(i));
                        let w = choose|w: int| 0 <= w < q0.len() && q0[w] == i as usize;
                        assert(q1[w] == i as usize);
                    } else {
                        assert(q1[q0.len() as int] == i as usize);
                    }
                }
                assert forall|i: int|
                    #![trigger s1.live(i)]
                    s1.live(i) && n1[i].outcome() is Some && P::rejects(n1[i].outcome()->0)
                        implies s1.ever_rejected().contains(i as usize) by {
                    if i < id {
                        assert(s0.live(i));
                    }
                }
            },
            None => {
                match s0.first_viable_from(0) {
                    Some(v) => {
                        let p = q0[v];
                        assert forall|i: int|
                            #![trigger s1.live(i)]
                            s1.live(i) && first_free(n1[i].child_slots()) is Some
                                && !s1.ever_rejected().contains(i as usize) implies q1.contains(
                            i as usize,
                        ) by {
                            if i == p as int {
                                assert(q1[0] == p);
                            } else if i < id {
                                assert(s0.live(i));
                                assert(n1[i] == n0[i]);
                                let w = choose|w: int| 0 <= w < q0.len() && q0[w] == i as usize;
                                if w < v {
                                    assert(!s0.viable(q0[w] as int));
                                } else {
                                    assert(w != v);
                                    assert(q1[w - v] == i as usize);
                                }
                            } else {
                                assert(q1[q1.len() - 1] == i as usize);
                            }
                        }
                        assert forall|i: int|
                            #![trigger s1.live(i)]
                            s1.live(i) && n1[i].outcome() is Some && P::rejects(n1[i].outcome()->0)
                                implies s1.ever_rejected().contains(i as usize) by {
                            if i < id {
                                assert(s0.live(i));
                            }
                        }
                    },
                    None => {
                        assert forall|i: int|
                            #![trigger s0.live(i)]
                            s0.live(i) && first_free(n0[i].child_slots()) is Some
                                implies s0.ever_rejected().contains(i as usize) by {
                            if !s0.ever_rejected().contains(i as usize) {
                                let w = choose|w: int| 0 <= w < q0.len() && q0[w] == i as usize;
                                assert(!s0.viable(q0[w] as int));
                            }
                        }
                        assert forall|i: int| #[trigger] s1.live(i) == s0.live(i) by {}
                    },
                }
            },
        }
    }

    /// Where no task in the tree that can take a child was ever rejected,
    /// `next` gives its token back exactly when every child of the root is
    /// scheduled and no task in the tree can take a child.
    pub proof fn lemma_next_err_exact(
        s0: Self,
        s1: Self,
        token: C,
        r: Result<ScheduledStep<T, usize>, C>,
    )
        requires
            s0.wf(),
            s0.queue_ok(),
            s0.next_effect(s1, token, r),
            forall|i: int| #[trigger] s0.viable(i) ==> !s0.ever_rejected().contains(i as usize),
        ensures
            (r is Err) == (first_free(s0.roots()) is None && forall|i: int| !#[trigger] s0.viable(i)),
    {
        Self::lemma_next_keeps_queue(s0, s1, token, r);
        s0.lemma_first_viable_from(0);
        if r is Err {
            assert forall|i: int| !#[trigger] s0.viable(i) by {
                if s0.viable(i) {
                    assert(s0.live(i));
                }
            }
        }
    }

    /// `put_result` keeps every task that can take a child in the queue,
    /// unless a result once rejected it.
    pub proof fn lemma_put_result_keeps_queue(
        s0: Self,
        s1: Self,
        path: ScheduledStep<T, usize>,
        event: S,
    )
        requires
            s0.wf(),
            s0.queue_ok(),
            s0.put_result_effect(s1, path, event),
        ensures
            s1.queue_ok(),
    {
        let n0 = s0.arena();
        let n1 = s1.arena();
        assert forall|i: int|
            #![trigger s1.live(i)]
            s1.live(i) && first_free(n1[i].child_slots()) is Some
                && !s1.ever_rejected().contains(i as usize) implies s1.pending().contains(
            i as usize,
        ) by {
            assert(s0.live(i));
        }
        assert forall|i: int|
            #![trigger s1.live(i)]
            s1.live(i) && n1[i].outcome() is Some && P::rejects(n1[i].outcome()->0)
                implies s1.ever_rejected().contains(i as usize) by {
            assert(s0.live(i));
        }
    }

    /// `notify_done` keeps the queue in order.
    pub proof fn lemma_notify_done_keeps_queue(s0: Self, s1: Self)
        requires
            s0.notify_done_effect(s1),
        ensures
            s1.queue_ok(),
    {
    }

    /// Each branch below a task is scheduled at most once unless a result
    /// once rejected that task: no two tasks ever scheduled share a parent
    /// and a branch otherwise. While the search runs, a task below the
    /// current root, or below a task in the tree, that no result ever
    /// rejected is still held in its branch.
    pub open spec fn slots_ok(&self) -> bool {
        &&& forall|i: int, j: int|
            #![trigger self.arena()[i], self.arena()[j]]
            0 <= i < j < self.arena().len() && self.arena()[i].up() == self.arena()[j].up()
                && self.arena()[i].branch() == self.arena()[j].branch() ==> {
                &&& self.arena()[i].up() is Some
                &&& self.ever_rejected().contains(self.arena()[i].up()->0)
            }
        &&& forall|i: int|
            #![trigger self.arena()[i]]
            0 <= i < self.arena().len() && !self.done() ==> {
                let n = self.arena()[i];
                &&& n.up() == self.anchor() && !(n.up() is Some && self.ever_rejected().contains(
                    n.up()->0,
                )) ==> self.roots()[n.branch() as int] == Some(i as usize)
                &&& n.up() is Some && self.live(n.up()->0 as int) && !self.ever_rejected().contains(
                    n.up()->0,
                ) ==> self.arena()[n.up()->0 as int].child_slots()[n.branch() as int] == Some(
                    i as usize,
                )
            }
    }

    /// `next` schedules each branch at most once, as `slots_ok` says.
    pub proof fn lemma_next_keeps_slots(
        s0: Self,
        s1: Self,
        token: C,
        r: Result<ScheduledStep<T, usize>, C>,
    )
        requires
            s0.wf(),
            !s0.done(),
            s0.slots_ok(),
            s0.next_effect(s1, token, r),
        ensures
            s1.slots_ok(),
    {
        let n0 = s0.arena();
        let n1 = s1.arena();
        let id = n0.len() as int;
        s1.lemma_anchor_gone();
        if r is Ok {
            // where the new task goes: its parent and its branch
            let (up, k) = match first_free(s0.roots()) {
                Some(k) => (s0.anchor(), k),
                None => {
                    let v = s0.first_viable_from(0)->0;
                    let p = s0.pending()[v];
                    (Some(p), first_free(n0[p as int].child_slots())->0)
                },
            };
            s0.lemma_first_viable_from(0);
            lemma_first_free_from(s0.roots(), 0);
            assert(n1[id].up() == up && n1[id].branch() == k);
            if up != s0.anchor() {
                let p = up->0 as int;
                assert(s0.viable(p));
                assert(s0.node_ok(p));
                lemma_first_free_from(n0[p].child_slots(), 0);
                assert(n0[p].child_slots()[k as int] is None);
            } else {
                assert(s0.roots()[k as int] is None);
            }
            assert forall|i: int, j: int|
                #![trigger n1[i], n1[j]]
                0 <= i < j < n1.len() && n1[i].up() == n1[j].up() && n1[i].branch() == n1[j].branch()
                    implies n1[i].up() is Some && s1.ever_rejected().contains(n1[i].up()->0) by {
                assert(n0[i].up() == n1[i].up() && n0[i].branch() == n1[i].branch());
                if j < id {
                    assert(n0[j].up() == n1[j].up() && n0[j].branch() == n1[j].branch());
                } else {
                    assert(s0.node_ok(i));
                }
            }
            assert forall|i: int| #![trigger n1[i]] 0 <= i < n1.len() && !s1.done() implies {
                let n = n1[i];
                &&& n.up() == s1.anchor() && !(n.up() is Some && s1.ever_rejected().contains(
                    n.up()->0,
                )) ==> s1.roots()[n.branch() as int] == Some(i as usize)
                &&& n.up() is Some && s1.live(n.up()->0 as int) && !s1.ever_rejected().contains(
                    n.up()->0,
                ) ==> n1[n.up()->0 as int].child_slots()[n.branch() as int] == Some(i as usize)
            } by {
                assert(s1.node_ok(i));
                if i < id {
                    assert(n0[i].up() == n1[i].up() && n0[i].branch() == n1[i].branch());
                    assert(s0.node_ok(i));
                    let n = n1[i];
                    if n.up() is Some && s1.live(n.up()->0 as int) {
                        assert(s0.live(n.up()->0 as int));
                    }
                }
            }
        } else {
            assert forall|i: int| #[trigger] s1.live(i) == s0.live(i) by {}
            assert forall|i: int, j: int|
                #![trigger n1[i], n1[j]]
                0 <= i < j < n1.len() && n1[i].up() == n1[j].up() && n1[i].branch() == n1[j].branch()
                    implies n1[i].up() is Some && s1.ever_rejected().contains(n1[i].up()->0) by {
                assert(n0[i] == n1[i] && n0[j] == n1[j]);
            }
            assert forall|i: int| #![trigger n1[i]] 0 <= i < n1.len() && !s1.done() implies {
                let n = n1[i];
                &&& n.up() == s1.anchor() && !(n.up() is Some && s1.ever_rejected().contains(
                    n.up()->0,
                )) ==> s1.roots()[n.branch() as int] == Some(i as usize)
                &&& n.up() is Some && s1.live(n.up()->0 as int) && !s1.ever_rejected().contains(
                    n.up()->0,
                ) ==> n1[n.up()->0 as int].child_slots()[n.branch() as int] == Some(i as usize)
            } by {
                assert(n0[i] == n1[i]);
            }
        }
    }

    /// `put_result` keeps each branch scheduled at most once, as `slots_ok`
    /// says.
    pub proof fn lemma_put_result_keeps_slots(
        s0: Self,
        s1: Self,
        path: ScheduledStep<T, usize>,
        event: S,
    )
        requires
            s0.wf(),
            s0.slots_ok(),
            s0.put_result_effect(s1, path, event),
        ensures
            s1.slots_ok(),
    {
        let n0 = s0.arena();
        let n1 = s1.arena();
        let id = path.metadata() as int;
        if s0.done() && s0.live(id) {
            s0.lemma_done_nothing_live(id);
        }
        assert forall|i: int| #![trigger n1[i]] 0 <= i < n1.len() implies n1[i].up() == n0[i].up()
            && n1[i].branch() == n0[i].branch() by {}
        assert forall|i: int, j: int|
            #![trigger n1[i], n1[j]]
            0 <= i < j < n1.len() && n1[i].up() == n1[j].up() && n1[i].branch() == n1[j].branch()
                implies n1[i].up() is Some && s1.ever_rejected().contains(n1[i].up()->0) by {
            assert(n0[i].up() == n1[i].up() && n0[i].branch() == n1[i].branch());
            assert(n0[j].up() == n1[j].up() && n0[j].branch() == n1[j].branch());
        }
        assert forall|i: int| #![trigger n1[i]] 0 <= i < n1.len() && !s1.done() implies {
            let n = n1[i];
            &&& n.up() == s1.anchor() && !(n.up() is Some && s1.ever_rejected().contains(
                n.up()->0,
            )) ==> s1.roots()[n.branch() as int] == Some(i as usize)
            &&& n.up() is Some && s1.live(n.up()->0 as int) && !s1.ever_rejected().contains(
                n.up()->0,
            ) ==> n1[n.up()->0 as int].child_slots()[n.branch() as int] == Some(i as usize)
        } by {
            assert(n0[i].up() == n1[i].up() && n0[i].branch() == n1[i].branch());
            if s0.done() {
                assert(s1.root_gen() == s0.root_gen());
            }
            let n = n1[i];
            if n.up() is Some {
                let x = n.up()->0 as int;
                assert(s0.node_ok(i));
                if s1.live(x) {
                    assert(s0.live(x));
                }
            }
        }
    }

    /// `notify_done` keeps each branch scheduled at most once.
    pub proof fn lemma_notify_done_keeps_slots(s0: Self, s1: Self)
        requires
            s0.slots_ok(),
            s0.notify_done_effect(s1),
        ensures
            s1.slots_ok(),
    {
    }

    /// Two different tasks ever scheduled replay different paths, unless a
    /// result once rejected a task above one of them.
    pub proof fn lemma_scheduled_paths_distinct(&self, i: int, j: int)
        requires
            self.wf(),
            self.slots_ok(),
            0 <= i < self.arena().len(),
            0 <= j < self.arena().len(),
            i != j,
            path_to(self.arena(), i) == path_to(self.arena(), j),
        ensures
            exists|x: usize| #[trigger]
                self.ever_rejected().contains(x) && below(self.arena(), i, x as int),
        decreases i + j,
    {
        let nodes = self.nodes@;
        assert(self.node_ok(i));
        assert(self.node_ok(j));
        let ni = nodes[i];
        let nj = nodes[j];
        let pi = path_to(nodes, i);
        match ni.parent {
            Some(a) => {
                assert(pi == path_to(nodes, a as int).push(ni.slot));
                match nj.parent {
                    Some(b) => {
                        assert(path_to(nodes, j) == path_to(nodes, b as int).push(nj.slot));
                        assert(path_to(nodes, a as int) =~= pi.drop_last());
                        assert(path_to(nodes, b as int) =~= pi.drop_last());
                        assert(ni.slot == pi.last());
                        assert(nj.slot == path_to(nodes, j).last());
                        assert(ni.slot == nj.slot);
                        if a == b {
                            if i < j {
                                assert(self.arena()[i].up() == self.arena()[j].up());
                            } else {
                                assert(self.arena()[j].up() == self.arena()[i].up());
                            }
                            assert(self.ever_rejected().contains(a) && below(
                                self.arena(),
                                i,
                                a as int,
                            ));
                        } else {
                            self.lemma_scheduled_paths_distinct(a as int, b as int);
                            let x = choose|x: usize| #[trigger]
                                self.ever_rejected().contains(x) && below(
                                    self.arena(),
                                    a as int,
                                    x as int,
                                );
                            assert(self.ever_rejected().contains(x) && below(
                                self.arena(),
                                i,
                                x as int,
                            ));
                        }
                    },
                    None => {
                        assert(self.node_ok(a as int));
                        assert(path_to(nodes, a as int).len() >= 1);
                        assert(path_to(nodes, j) == seq![nj.slot]);
                    },
                }
            },
            None => {
                assert(pi == seq![ni.slot]);
                match nj.parent {
                    Some(b) => {
                        assert(self.node_ok(b as int));
                        assert(path_to(nodes, j) == path_to(nodes, b as int).push(nj.slot));
                        assert(path_to(nodes, b as int).len() >= 1);
                    },
                    None => {
                        assert(path_to(nodes, j) == seq![nj.slot]);
                        assert(ni.slot == pi[0]);
                        assert(nj.slot == path_to(nodes, j)[0]);
                        assert(ni.slot == nj.slot);
                        if i < j {
                            assert(self.arena()[i].up() == self.arena()[j].up());
                        } else {
                            assert(self.arena()[j].up() == self.arena()[i].up());
                        }
                    },
                }
            },
        }
    }

    /// The laws every state of a scheduler keeps: its invariant, the record
    /// of signalled tokens, closed rejected branches, the queue and the
    /// branches scheduled at most once.
    pub open spec fn laws_hold(&self) -> bool {
        &&& self.wf()
        &&& self.signals_ok()
        &&& self.rejected_closed()
        &&& self.queue_ok()
        &&& self.slots_ok()
    }

    /// One call of `next`, `put_result` or `notify_done` takes this
    /// scheduler to `after`.
    #[verifier::opaque]
    pub open spec fn moves_to(&self, after: Self) -> bool {
        ||| exists|t: C, r: Result<ScheduledStep<T, usize>, C>|
            !self.done() && #[trigger] self.next_effect(after, t, r)
        ||| exists|x: ScheduledStep<T, usize>, e: S| #[trigger] self.put_result_effect(after, x, e)
        ||| self.notify_done_effect(after)
    }

    /// Each state of `run` comes from the one before by one call.
    pub open spec fn is_run(run: Seq<Self>) -> bool {
        &&& run.len() >= 1
        &&& forall|k: int| 0 <= k < run.len() - 1 ==> #[trigger] run[k].moves_to(run[k + 1])
    }

    /// One call keeps every law, and the root only grows.
    pub proof fn lemma_call_keeps_laws(s0: Self, s1: Self)
        requires
            s0.laws_hold(),
            s0.moves_to(s1),
        ensures
            s1.laws_hold(),
            s0.root_path().is_prefix_of(s1.root_path()),
    {
        reveal(BFScheduler::moves_to);
        if exists|t: C, r: Result<ScheduledStep<T, usize>, C>|
            !s0.done() && #[trigger] s0.next_effect(s1, t, r) {
            let (t, r) = choose|t: C, r: Result<ScheduledStep<T, usize>, C>|
                !s0.done() && #[trigger] s0.next_effect(s1, t, r);
            Self::lemma_next_keeps_signals(s0, s1, t, r);
            Self::lemma_next_keeps_rejected_closed(s0, s1, t, r);
            Self::lemma_next_keeps_queue(s0, s1, t, r);
            Self::lemma_next_keeps_slots(s0, s1, t, r);
            assert(s0.root_path().is_prefix_of(s1.root_path()));
        } else if exists|x: ScheduledStep<T, usize>, e: S| #[trigger] s0.put_result_effect(s1, x, e) {
            let (x, e) = choose|x: ScheduledStep<T, usize>, e: S| #[trigger]
                s0.put_result_effect(s1, x, e);
            Self::lemma_put_result_keeps_signals(s0, s1, x, e);
            Self::lemma_put_result_keeps_rejected_closed(s0, s1, x, e);
            Self::lemma_put_result_keeps_queue(s0, s1, x, e);
            Self::lemma_put_result_keeps_slots(s0, s1, x, e);
        } else {
            Self::lemma_notify_done_keeps_signals(s0, s1);
            Self::lemma_notify_done_keeps_rejected_closed(s0, s1);
            Self::lemma_notify_done_keeps_queue(s0, s1);
            Self::lemma_notify_done_keeps_slots(s0, s1);
            assert(s0.root_path().is_prefix_of(s1.root_path()));
        }
    }

    /// Along any run of calls from a state where the laws hold (such as a
    /// new scheduler), every state keeps the laws, so a rejected branch
    /// stays closed for as long as its result rejects it, each branch is
    /// scheduled at most once unless its task was once rejected, and every
    /// task that left the tree had its token cancelled; and the root only
    /// grows.
    pub proof fn lemma_run(run: Seq<Self>)
        requires
            Self::is_run(run),
            run[0].laws_hold(),
        ensures
            forall|k: int| 0 <= k < run.len() ==> #[trigger] run[k].laws_hold(),
            forall|i: int, j: int|
                0 <= i <= j < run.len() ==> #[trigger] run[i].root_path().is_prefix_of(
                    run[j].root_path(),
                ),
        decreases run.len(),
    {
        if run.len() > 1 {
            let n = run.len() - 1;
            let front = run.drop_last();
            assert forall|k: int| 0 <= k < front.len() - 1 implies #[trigger] front[k].moves_to(
                front[k + 1],
            ) by {
                assert(run[k].moves_to(run[k + 1]));
            }
            Self::lemma_run(front);
            let m = n - 1;
            assert(run[m].moves_to(run[m + 1]));
            assert(run[m] == front[m]);
            Self::lemma_call_keeps_laws(run[m], run[n]);
            assert forall|k: int| 0 <= k < run.len() implies #[trigger] run[k].laws_hold() by {
                if k < n {
                    assert(run[k] == front[k]);
                }
            }
            assert forall|i: int, j: int|
                0 <= i <= j < run.len() implies #[trigger] run[i].root_path().is_prefix_of(
                run[j].root_path(),
            ) by {
                if j < n {
                    assert(run[i] == front[i] && run[j] == front[j]);
                } else if i < n {
                    assert(run[i] == front[i]);
                    assert(front[i].root_path().is_prefix_of(front[m].root_path()));
                    assert(run[i].root_path() =~= run[n].root_path().subrange(
                        0,
                        run[i].root_path().len() as int,
                    ));
                }
            }
        }
    }

    /// Along any run of calls from a state where the laws hold, every task
    /// that hangs in the tree at a later state, every step handed out
    /// included, lies strictly below every earlier root.
    pub proof fn lemma_run_below_roots(run: Seq<Self>, i: int, j: int, x: int)
        requires
            Self::is_run(run),
            run[0].laws_hold(),
            0 <= i <= j < run.len(),
            run[j].live(x),
        ensures
            run[i].root_path().is_prefix_of(path_to(run[j].arena(), x)),
            path_to(run[j].arena(), x).len() > run[i].root_path().len(),
    {
        Self::lemma_run(run);
        assert(run[j].laws_hold());
        assert(run[i].root_path().is_prefix_of(run[j].root_path()));
        if run[j].done() {
            run[j].lemma_done_nothing_live(x);
        }
        run[j].lemma_live_below_root(x);
        assert(run[i].root_path() =~= path_to(run[j].arena(), x).subrange(
            0,
            run[i].root_path().len() as int,
        ));
    }

    /// `notify_done` keeps every token signalled exactly when its task has
    /// left the tree; afterwards the token of every task ever handed out is
    /// signalled.
    pub proof fn lemma_notify_done_keeps_signals(s0: Self, s1: Self)
        requires
            s0.wf(),
            s0.signals_ok(),
            s0.notify_done_effect(s1),
        ensures
            s1.signals_ok(),
            forall|i: usize| i < s1.arena().len() ==> #[trigger] s1.signalled().contains(i),
    {
        assert(s1.signalled() =~= Set::new(
            |i: usize| i < s1.arena().len() && !s1.live(i as int),
        ));
    }
}

/// The branches of the `k`-th task (counting from 0) in breadth-first order
/// over `n` branches per task: first the `n` paths of length one, then the
/// `n * n` of length two, and so on, each length in increasing order of its
/// branches.
pub open spec fn bfs_path(n: nat, k: nat) -> Seq<usize>
    decreases k,
{
    if n == 0 || k < n {
        seq![k as usize]
    } else {
        proof {
            lemma_bfs_split(n as int, k as int);
        }
        bfs_path(n, (k / n - 1) as nat).push((k % n) as usize)
    }
}

/// The number of branch `s` of task `i` in breadth-first order over `n`
/// branches per task.
pub open spec fn bfs_child(n: int, i: int, s: int) -> int {
    n * (i + 1) + s
}

/// Task `k`, from the `n`-th on, is branch `k % n` of task `k / n - 1`.
pub proof fn lemma_bfs_split(n: int, k: int)
    requires
        1 <= n <= k,
    ensures
        0 <= k / n - 1 < k,
        k == n * (k / n - 1 + 1) + k % n,
        0 <= k % n < n,
{
    vstd::arithmetic::div_mod::lemma_fundamental_div_mod(k, n);
    vstd::arithmetic::div_mod::lemma_mod_pos_bound(k, n);
    vstd::arithmetic::div_mod::lemma_div_is_ordered(n, k, n);
    vstd::arithmetic::div_mod::lemma_fundamental_div_mod_converse(n, n, 1, 0);
    let q = k / n;
    assert(n * q >= q) by (nonlinear_arith)
        requires
            n >= 1,
            q >= 1,
    ;
}

/// Branch `s` of task `i` is task `n * (i + 1) + s`.
pub proof fn lemma_bfs_child(n: int, i: int, s: int)
    requires
        1 <= n,
        0 <= i,
        0 <= s < n,
    ensures
        (n * (i + 1) + s) / n - 1 == i,
        (n * (i + 1) + s) % n == s,
        n * (i + 1) + s >= n,
{
    assert(n * (i + 1) == (i + 1) * n && n * (i + 1) >= n) by (nonlinear_arith)
        requires
            n >= 1,
            i >= 0,
    ;
    vstd::arithmetic::div_mod::lemma_fundamental_div_mod_converse(n * (i + 1) + s, n, i + 1, s);
}

impl<T, E, C, S, P, const N: usize> BFScheduler<T, E, C, S, P, N> where
    C: Canceable,
    T: EventReplay<EventType = E>,
    E: StaticEvent,
    P: SelectionPolicy<S>,
 {
    /// The first task of the queue while `k` tasks have been handed out and
    /// no result has come in.
    spec fn fresh_front(k: int) -> int {
        if k <= N {
            0
        } else {
            (k - 1) / (N as int) - 1
        }
    }

    /// The scheduler as `k` calls of `next` on a new scheduler leave it: task
    /// `i` is branch `i % N` of task `i / N - 1` (of the root for `i < N`),
    /// every branch numbered below `k` is scheduled, no result has come in,
    /// and the queue holds the tasks from `fresh_front(k)` on.
    spec fn fresh_after(&self, k: int) -> bool {
        let n = N as int;
        &&& self.wf()
        &&& !self.done()
        &&& self.anchor() is None
        &&& self.arena().len() == k
        &&& forall|s: int|
            0 <= s < n ==> #[trigger] self.roots()[s] == (if s < k {
                Some(s as usize)
            } else {
                None
            })
        &&& forall|i: int|
            0 <= i < k ==> {
                &&& #[trigger] self.arena()[i].up() == (if i < n {
                    None
                } else {
                    Some((i / n - 1) as usize)
                })
                &&& self.arena()[i].branch() == (i % n) as usize
                &&& self.arena()[i].outcome() is None
                &&& self.arena()[i].child_slots().len() == n
                &&& forall|s: int|
                    0 <= s < n ==> #[trigger] self.arena()[i].child_slots()[s] == (if bfs_child(n, i, s)
                        < k {
                        Some((bfs_child(n, i, s)) as usize)
                    } else {
                        None
                    })
            }
        &&& self.pending() == Seq::new(
            (k - Self::fresh_front(k)) as nat,
            |q: int| (Self::fresh_front(k) + q) as usize,
        )
    }

    /// Every task handed out so far hangs in the tree and replays its
    /// breadth-first path.
    proof fn lemma_fresh_live(&self, k: int, i: int)
        requires
            N >= 1,
            self.fresh_after(k),
            0 <= i < k,
        ensures
            self.live(i),
            path_to(self.arena(), i) == bfs_path(N as nat, i as nat),
        decreases i,
    {
        let n = N as int;
        assert(self.arena()[i].up() == (if i < n {
            None
        } else {
            Some((i / n - 1) as usize)
        }));
        if i < n {
            vstd::arithmetic::div_mod::lemma_small_mod(i as nat, n as nat);
            assert(self.roots()[i] == Some(i as usize));
        } else {
            lemma_bfs_split(n, i);
            let p = i / n - 1;
            self.lemma_fresh_live(k, p);
            assert(self.arena()[p].child_slots()[i % n] == Some(i as usize));
        }
    }

    /// From the state `k` calls leave, one more call of `next` hands out
    /// task `k` and leaves the state of `k + 1` calls.
    proof fn lemma_fresh_step(
        s0: Self,
        s1: Self,
        k: int,
        token: C,
        r: Result<ScheduledStep<T, usize>, C>,
    )
        requires
            N >= 1,
            s0.fresh_after(k),
            s0.next_effect(s1, token, r),
        ensures
            r matches Ok(step) && step.metadata() == k,
            s1.fresh_after(k + 1),
    {
        if k < N {
            Self::lemma_fresh_step_root(s0, s1, k, token, r);
        } else {
            Self::lemma_fresh_step_queue(s0, s1, k, token, r);
        }
    }

    /// `lemma_fresh_step` while the root still has an empty branch.
    #[verifier::rlimit(30)]
    proof fn lemma_fresh_step_root(
        s0: Self,
        s1: Self,
        k: int,
        token: C,
        r: Result<ScheduledStep<T, usize>, C>,
    )
        requires
            N >= 1,
            s0.fresh_after(k),
            k < N,
            s0.next_effect(s1, token, r),
        ensures
            r matches Ok(step) && step.metadata() == k,
            s1.fresh_after(k + 1),
    {
        let n = N as int;
        let n0 = s0.arena();
        let n1 = s1.arena();
        lemma_first_free_from(s0.roots(), 0);
        assert forall|i: int| 0 <= i < k implies #[trigger] s0.live(i) by {
            s0.lemma_fresh_live(k, i);
        }
        assert(s0.roots()[k] is None);
        assert(first_free(s0.roots()) == Some(k as usize));
        vstd::arithmetic::div_mod::lemma_small_mod(k as nat, n as nat);
        assert forall|i: int, s: int| 0 <= i <= k && 0 <= s < n implies #[trigger] bfs_child(n, i, s) >= k + 1 by {
            lemma_bfs_child(n, i, s);
        }
        assert(s1.pending() =~= Seq::new(
            (k + 1 - Self::fresh_front(k + 1)) as nat,
            |q: int| (Self::fresh_front(k + 1) + q) as usize,
        ));
        assert forall|s: int| 0 <= s < n implies #[trigger] s1.roots()[s] == (if s < k + 1 {
            Some(s as usize)
        } else {
            None
        }) by {}
        assert forall|i: int| 0 <= i < k + 1 implies {
            &&& #[trigger] n1[i].up() == (if i < n {
                None
            } else {
                Some((i / n - 1) as usize)
            })
            &&& n1[i].branch() == (i % n) as usize
            &&& n1[i].outcome() is None
            &&& n1[i].child_slots().len() == n
            &&& forall|s: int|
                0 <= s < n ==> #[trigger] n1[i].child_slots()[s] == (if bfs_child(n, i, s) < k + 1 {
                    Some((bfs_child(n, i, s)) as usize)
                } else {
                    None
                })
        } by {
            assert(s1.node_ok(i));
            if i < k {
                assert(n0[i].up() == n1[i].up());
            }
        }
    }

    /// `lemma_fresh_step` once every branch of the root is scheduled.
    #[verifier::rlimit(30)]
    proof fn lemma_fresh_step_queue(
        s0: Self,
        s1: Self,
        k: int,
        token: C,
        r: Result<ScheduledStep<T, usize>, C>,
    )
        requires
            N >= 1,
            s0.fresh_after(k),
            k >= N,
            s0.next_effect(s1, token, r),
        ensures
            r matches Ok(step) && step.metadata() == k,
            s1.fresh_after(k + 1),
    {
        let n = N as int;
        let n0 = s0.arena();
        let n1 = s1.arena();
        lemma_first_free_from(s0.roots(), 0);
        assert forall|i: int| 0 <= i < k implies #[trigger] s0.live(i) by {
            s0.lemma_fresh_live(k, i);
        }
        assert(forall|s: int| 0 <= s < n ==> s0.roots()[s] is Some);
        assert(first_free(s0.roots()) is None);
        lemma_bfs_split(n, k);
        let p = k / n - 1;
        let lo = Self::fresh_front(k);
        if k > n {
            lemma_bfs_split(n, k - 1);
            vstd::arithmetic::div_mod::lemma_div_is_ordered(k - 1, k, n);
        }
        assert(0 <= lo <= p);
        // the tasks before `p` in the queue have every branch scheduled
        assert forall|i: int, s: int| 0 <= i < p && 0 <= s < n implies #[trigger] bfs_child(n, i, s) < k by {
            assert(bfs_child(n, i, s) < n * (p + 1)) by (nonlinear_arith)
                requires
                    n >= 1,
                    0 <= i < p,
                    0 <= s < n,
            ;
        }
        assert forall|s: int| 0 <= s < n implies (#[trigger] bfs_child(n, p, s) < k) == (s < k % n) by {}
        assert(n0[p].up() == (if p < n {
            None
        } else {
            Some((p / n - 1) as usize)
        }));
        assert(bfs_child(n, p, k % n) == k);
        lemma_first_free_from(n0[p].child_slots(), 0);
        assert(n0[p].child_slots()[k % n] is None);
        assert(first_free(n0[p].child_slots()) == Some((k % n) as usize));
        assert(s0.viable(p));
        s0.lemma_first_viable_from(0);
        assert(s0.pending()[p - lo] == p as usize);
        assert forall|w: int| 0 <= w < p - lo implies !#[trigger] s0.viable(s0.pending()[w] as int) by {
            let i = lo + w;
            assert(s0.pending()[w] == i as usize);
            assert(n0[i].up() == (if i < n {
                None
            } else {
                Some((i / n - 1) as usize)
            }));
            assert forall|s: int| 0 <= s < n implies n0[i].child_slots()[s] is Some by {
                assert(bfs_child(n, i, s) < k);
            }
            lemma_first_free_from(n0[i].child_slots(), 0);
        }
        assert(s0.first_viable_from(0) == Some(p - lo));
        assert forall|i: int, s: int|
            0 <= i <= k && 0 <= s < n && #[trigger] bfs_child(n, i, s) == k implies i == p && s == k
                % n by {
            lemma_bfs_child(n, i, s);
        }
        assert forall|s: int| 0 <= s < n implies #[trigger] bfs_child(n, k, s) >= k + 1 by {
            lemma_bfs_child(n, k, s);
        }
        assert(s1.pending() =~= Seq::new(
            (k + 1 - Self::fresh_front(k + 1)) as nat,
            |q: int| (Self::fresh_front(k + 1) + q) as usize,
        ));
        assert forall|i: int| 0 <= i < k + 1 implies {
            &&& #[trigger] n1[i].up() == (if i < n {
                None
            } else {
                Some((i / n - 1) as usize)
            })
            &&& n1[i].branch() == (i % n) as usize
            &&& n1[i].outcome() is None
            &&& n1[i].child_slots().len() == n
            &&& forall|s: int|
                0 <= s < n ==> #[trigger] n1[i].child_slots()[s] == (if bfs_child(n, i, s) < k + 1 {
                    Some((bfs_child(n, i, s)) as usize)
                } else {
                    None
                })
        } by {
            assert(s1.node_ok(i));
            if i < k {
                assert(n0[i].up() == n1[i].up());
            }
        }
    }

    /// From a new scheduler, the `m`-th of a run of `next` calls with no other
    /// call between them hands out task `m` with the `m`-th path in
    /// breadth-first order: the run `states` starts at a scheduler as `new`
    /// returns it, and each call takes `tokens[m]` and returns `results[m]`.
    pub proof fn lemma_breadth_first(
        states: Seq<Self>,
        tokens: Seq<C>,
        results: Seq<Result<ScheduledStep<T, usize>, C>>,
    )
        requires
            N >= 1,
            states.len() == tokens.len() + 1,
            results.len() == tokens.len(),
            states[0].wf(),
            states[0].root_path() == Seq::<usize>::empty(),
            states[0].root_gen() == 0,
            states[0].anchor() is None,
            states[0].roots() == empty_slots(N as nat),
            states[0].arena().len() == 0,
            states[0].pending().len() == 0,
            forall|m: int|
                0 <= m < tokens.len() ==> #[trigger] states[m].next_effect(
                    states[m + 1],
                    tokens[m],
                    results[m],
                ),
        ensures
            forall|m: int|
                0 <= m < results.len() ==> {
                    &&& #[trigger] results[m] matches Ok(step) && step.metadata() == m
                        && step.recorded().events() == bfs_path(N as nat, m as nat).map_values(
                        |x: usize| E::variants()[x as int],
                    )
                    &&& path_to(states[m + 1].arena(), m) == bfs_path(N as nat, m as nat)
                    &&& states[m + 1].live(m)
                },
        decreases tokens.len(),
    {
        if tokens.len() == 0 {
            return;
        }
        let m = tokens.len() - 1;
        Self::lemma_breadth_first(states.drop_last(), tokens.drop_last(), results.drop_last());
        assert(states[0].pending() =~= Seq::new(0, |q: int| q as usize));
        assert forall|x: int| 0 <= x < N implies #[trigger] states[0].roots()[x] == (if x < 0 {
            Some(x as usize)
        } else {
            None
        }) by {}
        assert(!states[0].done());
        assert(Self::fresh_front(0) == 0);
        assert(states[0].pending() =~= Seq::new(
            (0 - Self::fresh_front(0)) as nat,
            |q: int| (Self::fresh_front(0) + q) as usize,
        ));
        assert(states[0].fresh_after(0));
        assert forall|j: int| 0 <= j <= m implies #[trigger] states[j].fresh_after(j) by {
            Self::lemma_fresh_chain(states, tokens, results, j);
        }
        assert(states[m].next_effect(states[m + 1], tokens[m], results[m]));
        Self::lemma_fresh_step(states[m], states[m + 1], m, tokens[m], results[m]);
        states[m + 1].lemma_fresh_live(m + 1, m);
        assert forall|j: int| 0 <= j < results.len() implies {
            &&& #[trigger] results[j] matches Ok(step) && step.metadata() == j
                && step.recorded().events() == bfs_path(N as nat, j as nat).map_values(
                |x: usize| E::variants()[x as int],
            )
            &&& path_to(states[j + 1].arena(), j) == bfs_path(N as nat, j as nat)
            &&& states[j + 1].live(j)
        } by {
            if j < m {
                assert(states.drop_last()[j + 1] == states[j + 1]);
                assert(results.drop_last()[j] == results[j]);
            }
        }
    }

    /// Each state of such a run is the state that its number of calls leaves.
    proof fn lemma_fresh_chain(
        states: Seq<Self>,
        tokens: Seq<C>,
        results: Seq<Result<ScheduledStep<T, usize>, C>>,
        j: int,
    )
        requires
            N >= 1,
            states.len() == tokens.len() + 1,
            results.len() == tokens.len(),
            states[0].fresh_after(0),
            forall|m: int|
                0 <= m < tokens.len() ==> #[trigger] states[m].next_effect(
                    states[m + 1],
                    tokens[m],
                    results[m],
                ),
            0 <= j <= tokens.len(),
        ensures
            states[j].fresh_after(j),
        decreases j,
    {
        if j > 0 {
            Self::lemma_fresh_chain(states, tokens, results, j - 1);
            assert(states[j - 1].next_effect(states[j - 1 + 1], tokens[j - 1], results[j - 1]));
            Self::lemma_fresh_step(states[j - 1], states[j], j - 1, tokens[j - 1], results[j - 1]);
        }
    }
}

/// Being below a task among the first `n1.len()` tasks depends only on the
/// parents of those tasks.
pub proof fn lemma_below_prefix_frame<C, S, const N: usize>(
    n1: Seq<TreeNode<C, S, N>>,
    n2: Seq<TreeNode<C, S, N>>,
    i: int,
    x: int,
)
    requires
        n1.len() <= n2.len(),
        0 <= i < n1.len(),
        forall|j: int| 0 <= j < n1.len() ==> #[trigger] n2[j].up() == n1[j].up(),
    ensures
        below(n1, i, x) == below(n2, i, x),
    decreases i,
{
    assert(n2[i].up() == n1[i].up());
    if n1[i].up() is Some && 0 <= n1[i].up()->0 < i {
        lemma_below_prefix_frame(n1, n2, n1[i].up()->0 as int, x);
    }
}

impl<T, E, C, S, P, const N: usize> BFScheduler<T, E, C, S, P, N> where
    C: Canceable,
    T: EventReplay<EventType = E>,
    E: StaticEvent,
    P: SelectionPolicy<S>,
 {
    /// Walking down from a task that is neither `x` nor below it, while `x`
    /// holds a rejected result, never reaches `x` or anything below it.
    proof fn lemma_descend_avoids(&self, start: int, x: int)
        requires
            self.wf(),
            0 <= start < self.arena().len(),
            0 <= x < self.arena().len(),
            start != x,
            !below(self.arena(), start, x),
            self.arena()[x].outcome() is Some,
            P::rejects(self.arena()[x].outcome()->0),
        ensures
            ({
                let d = descend::<C, S, N, P>(self.arena(), start).1;
                start <= d < self.arena().len() && d != x && !below(self.arena(), d, x)
            }),
        decreases self.nodes@.len() - start,
    {
        let nodes = self.nodes@;
        assert(self.node_ok(start));
        if ready_to_advance::<C, S, N, P>(nodes, nodes[start].child_slots()) {
            match best_child::<C, S, N, P>(nodes, nodes[start].child_slots()) {
                Some(b) => {
                    lemma_best_from::<C, S, N, P>(nodes, nodes[start].child_slots(), 0, None);
                    let j = b.1 as int;
                    if start < j < nodes.len() {
                        assert(nodes[start].children@[b.0 as int] == Some(b.1));
                        assert(self.node_ok(j));
                        assert(j != x);
                        assert(!below(nodes, j, x));
                        self.lemma_descend_avoids(j, x);
                    }
                },
                None => {},
            }
        }
    }

    /// A rejected branch is closed: once a result that the policy rejects is
    /// recorded for a task in the tree, the next step handed out is neither a
    /// child of that task nor anywhere below it.
    pub proof fn lemma_rejected_branch_closed(
        s0: Self,
        s1: Self,
        s2: Self,
        x: ScheduledStep<T, usize>,
        r: S,
        t: C,
        step: ScheduledStep<T, usize>,
    )
        requires
            s0.wf(),
            s0.live(x.metadata() as int),
            P::rejects(r),
            s0.put_result_effect(s1, x, r),
            s1.next_effect(s2, t, Ok(step)),
        ensures
            s2.arena()[step.metadata() as int].up() != Some(x.metadata()),
            !below(s2.arena(), step.metadata() as int, x.metadata() as int),
    {
        let xi = x.metadata() as int;
        let id = step.metadata() as int;
        let n0 = s0.arena();
        let n1 = s1.arena();
        let n2 = s2.arena();
        if s0.done() {
            s0.lemma_done_nothing_live(xi);
        }
        assert(s0.node_ok(xi));
        assert forall|j: int| 0 <= j < n1.len() implies #[trigger] n1[j].up() == n0[j].up() by {}
        assert forall|j: int| 0 <= j < n1.len() implies #[trigger] n2[j].up() == n1[j].up() by {}
        let u = n2[id].up();
        assert(s2.node_ok(id));
        if u != s1.anchor() {
            let p = u->0 as int;
            assert(s1.live(p));
            assert(p != xi);
            assert(!below(n0, p, xi));
            lemma_below_frame(n0, n1, p, xi);
            lemma_below_prefix_frame(n1, n2, p, xi);
        } else {
            // a child of the current root
            s0.lemma_anchor_gone();
            let nodes = n1;
            let adv = s0.advances(nodes, n0[xi].level());
            if adv {
                let b = best_child::<C, S, N, P>(nodes, s0.roots())->0;
                lemma_best_from::<C, S, N, P>(nodes, s0.roots(), 0, None);
                let j = b.1 as int;
                assert(s0.roots()[b.0 as int] == Some(b.1));
                assert(n0[j].up() == s0.anchor());
                assert(j != xi);
                if below(n1, j, xi) {
                    lemma_below_frame(n0, n1, j, xi);
                    match s0.anchor() {
                        Some(a) => {
                            s0.lemma_below_deeper(a as int, xi);
                            s0.lemma_live_below_root(xi);
                            assert(s0.node_ok(a as int));
                        },
                        None => {},
                    }
                }
                assert(s1.wf());
                s1.lemma_descend_avoids(j, xi);
                let d = descend::<C, S, N, P>(nodes, j).1;
                assert(u == Some(d as usize));
                assert(!below(n1, d, xi));
                lemma_below_prefix_frame(n1, n2, d, xi);
            } else {
                match s0.anchor() {
                    Some(a) => {
                        assert(s0.node_ok(a as int));
                        assert(a as int != xi);
                        if below(n0, a as int, xi) {
                            s0.lemma_below_deeper(a as int, xi);
                            s0.lemma_live_below_root(xi);
                        }
                        lemma_below_frame(n0, n1, a as int, xi);
                        lemma_below_prefix_frame(n1, n2, a as int, xi);
                    },
                    None => {},
                }
            }
        }
    }
}

impl<T, E, C, S, P, const N: usize> StepScheduler<T, C> for BFScheduler<T, E, C, S, P, N> where
    C: Canceable,
    T: EventReplay<EventType = E>,
    E: StaticEvent,
    P: SelectionPolicy<S>,
 {
    type StateInterpretation = S;

    type ItemMeta = usize;

    open spec fn ready(&self) -> bool {
        self.wf()
    }

    open spec fn can_hand_out(&self) -> bool {
        &&& !self.done()
        &&& self.arena().len() + 1 < usize::MAX
        &&& self.arena().len() < T::capacity()
    }

    fn next(&mut self, token: C) -> (r: Result<ScheduledStep<T, usize>, C>)
        ensures
            old(self).next_effect(*final(self), token, r),
    {
        BFScheduler::next(self, token)
    }

    fn put_result(&mut self, path: ScheduledStep<T, usize>, event: S)
        ensures
            old(self).put_result_effect(*final(self), path, event),
    {
        BFScheduler::put_result(self, path, event)
    }

    fn notify_done(&mut self)
        ensures
            old(self).notify_done_effect(*final(self)),
    {
        BFScheduler::notify_done(self)
    }

    fn is_cancelled(&self, item: &ScheduledStep<T, usize>) -> (r: bool)
        ensures
            !self.live(item.metadata() as int) ==> r,
            self.live(item.metadata() as int) ==> call_ensures(
                C::is_cancelled,
                (&self.arena()[item.metadata() as int].token_of(),),
                r,
            ),
    {
        BFScheduler::is_cancelled(self, item)
    }
}

} // verus!
