use crate::dry::{MockEvent, MockPath};
use crate::tape::EventReplay;
use vstd::prelude::*;

verus! {

/// What the stand-in oracle makes of a query: it no longer shows the bug,
/// or it does and has this many tokens.
#[derive(Debug, Clone, Copy, PartialEq, Eq)]
pub enum MockInterpretationResult {
    Dead,
    Valid { length: usize },
}

/// The tokens a query must keep for the bug to show.
pub const CRITICAL_TOKENS: [u16; 23] = [
    4,
    11,
    22,
    33,
    78,
    42,
    90,
    2342,
    123,
    22,
    23444,
    19829,
    21333,
    11,
    1,
    2183,
    9902,
    23947,
    12843,
    23,
    55,
    1,
    233,
];

/// The query keeps every critical token.
pub open spec fn keeps_critical(query: Seq<u16>) -> bool {
    forall|i: int| 0 <= i < 23 ==> query.contains(#[trigger] CRITICAL_TOKENS@[i])
}

/// The stand-in oracle's verdict on a query.
pub open spec fn oracle_verdict(query: Seq<u16>) -> MockInterpretationResult {
    if keeps_critical(query) {
        MockInterpretationResult::Valid { length: query.len() as usize }
    } else {
        MockInterpretationResult::Dead
    }
}

/// Calls `std::hint::black_box`, which returns its argument unchanged while
/// keeping the compiler from assuming anything about it.
#[verifier::external_body]
fn opaque_i32(x: i32) -> (r: i32)
    ensures
        r == x,
{
    std::hint::black_box(x)
}

fn slice_contains(query: &[u16], token: u16) -> (r: bool)
    ensures
        r == query@.contains(token),
{
    let mut i: usize = 0;
    while i < query.len()
        invariant
            i <= query@.len(),
            forall|j: int| 0 <= j < i ==> query@[j] != token,
        decreases query@.len() - i,
    {
        if query[i] == token {
            assert(query@[i as int] == token);
            return true;
        }
        i = i + 1;
    }
    false
}

/// The stand-in oracle: after a fixed amount of busy work, a query shows the
/// bug exactly when it keeps every critical token.
pub fn oracle(query: &[u16]) -> (r: MockInterpretationResult)
    ensures
        r == oracle_verdict(query@),
{
    let mut x: i32 = 0;
    let mut n: u32 = 0;
    while n < 5_000_000
        decreases 5_000_000 - n,
    {
        x = x.wrapping_add(1);
        x = opaque_i32(x);
        n = n + 1;
    }
    let mut i: usize = 0;
    while i < 23
        invariant
            i <= 23,
            forall|j: int| 0 <= j < i ==> query@.contains(#[trigger] CRITICAL_TOKENS@[j]),
        decreases 23 - i,
    {
        if !slice_contains(query, CRITICAL_TOKENS[i]) {
            return MockInterpretationResult::Dead;
        }
        i = i + 1;
    }
    MockInterpretationResult::Valid { length: query.len() }
}

/// The items of `query` that survive the removals that `flags` choose:
/// item `i` goes when flag `i` exists and is `true`.
pub open spec fn kept_items(flags: Seq<MockEvent>, query: Seq<u16>) -> Seq<u16>
    decreases query.len(),
{
    if query.len() == 0 {
        Seq::empty()
    } else {
        let i = query.len() - 1;
        let rest = kept_items(flags, query.drop_last());
        if i < flags.len() && flags[i].0 {
            rest
        } else {
            rest.push(query.last())
        }
    }
}

/// Applies the removals that `path` chooses to `base_query`.
pub fn algo(path: &MockPath, base_query: &mut Vec<u16>)
    ensures
        final(base_query)@ == kept_items(path.events(), old(base_query)@),
{
    let mut kept_items_vec: Vec<u16> = Vec::new();
    let mut i: usize = 0;
    while i < base_query.len()
        invariant
            i <= base_query@.len(),
            base_query@ == old(base_query)@,
            kept_items_vec@ == kept_items(path.events(), base_query@.take(i as int)),
        decreases base_query@.len() - i,
    {
        let val = base_query[i];
        let should_remove = match path.get(i) {
            Some(e) => e.0,
            None => false,
        };
        assert(base_query@.take(i + 1).drop_last() =~= base_query@.take(i as int));
        if !should_remove {
            kept_items_vec.push(val);
        }
        i = i + 1;
    }
    assert(base_query@.take(base_query@.len() as int) =~= base_query@);
    *base_query = kept_items_vec;
}

/// Runs the stand-in oracle on the query that `path` leaves of
/// `base_query`; a path longer than the query is dead.
pub fn do_algo(path: &MockPath, base_query: Vec<u16>) -> (r: MockInterpretationResult)
    ensures
        r == if path.events().len() > base_query@.len() {
            MockInterpretationResult::Dead
        } else {
            oracle_verdict(kept_items(path.events(), base_query@))
        },
{
    let mut base_query = base_query;
    if path.len() > base_query.len() {
        return MockInterpretationResult::Dead;
    }
    algo(path, &mut base_query);
    oracle(base_query.as_slice())
}

/// The smallest query seen so far that still shows the bug.
#[derive(Debug, Default)]
pub struct Minimal(pub Vec<u16>);

impl Minimal {
    /// Keeps `query` when nothing is kept yet or it is shorter than the one
    /// kept.
    pub fn offer(&mut self, query: &[u16])
        ensures
            final(self).0@ == if old(self).0@.len() > query@.len() || old(self).0@.len() == 0 {
                query@
            } else {
                old(self).0@
            },
    {
        if self.0.len() > query.len() || self.0.len() == 0 {
            let mut copy: Vec<u16> = Vec::new();
            let mut i: usize = 0;
            while i < query.len()
                invariant
                    i <= query@.len(),
                    copy@ == query@.take(i as int),
                decreases query@.len() - i,
            {
                copy.push(query[i]);
                i = i + 1;
                assert(copy@ =~= query@.take(i as int));
            }
            assert(query@.take(query@.len() as int) =~= query@);
            self.0 = copy;
        }
    }
}

/// One step of the xorshift generator that seeds the benchmark's base query
/// (shifts 13, 7 and 17).
pub open spec fn xorshift_step(seed: u64) -> u64 {
    let a = seed ^ ((seed << 13u64) as u64);
    let b = a ^ (a >> 7u64);
    b ^ ((b << 17u64) as u64)
}

/// Advances the generator by one step.
pub fn next_seed(seed: u64) -> (r: u64)
    ensures
        r == xorshift_step(seed),
{
    let a: u64 = seed ^ (seed << 13u64);
    let b: u64 = a ^ (a >> 7u64);
    b ^ (b << 17u64)
}

/// The position in a query of `query_len` tokens that a seed picks.
pub fn seed_index(seed: u64, query_len: usize) -> (r: usize)
    requires
        query_len > 0,
    ensures
        r == (seed as usize) % query_len,
        r < query_len,
{
    (seed as usize) % query_len
}

/// Puts the critical token `val` at position `idx` of the query, unless a
/// critical token already sits there; says whether it did.
pub fn place_critical(query: &mut Vec<u16>, idx: usize, val: u16) -> (placed: bool)
    requires
        idx < old(query)@.len(),
    ensures
        placed == !CRITICAL_TOKENS@.contains(old(query)@[idx as int]),
        final(query)@ == (if placed {
            old(query)@.update(idx as int, val)
        } else {
            old(query)@
        }),
{
    if slice_contains(&CRITICAL_TOKENS, query[idx]) {
        false
    } else {
        query.set(idx, val);
        true
    }
}

/// The stand-in oracle finds a query valid, with its length, exactly when
/// the query holds every token listed as critical; a query missing any one
/// of them is dead.
pub proof fn lemma_oracle_verdict_exact(query: Seq<u16>)
    ensures
        oracle_verdict(query) == (if forall|t: u16|
            CRITICAL_TOKENS@.contains(t) ==> #[trigger] query.contains(t) {
            MockInterpretationResult::Valid { length: query.len() as usize }
        } else {
            MockInterpretationResult::Dead
        }),
{
    if keeps_critical(query) {
        assert forall|t: u16| CRITICAL_TOKENS@.contains(t) implies #[trigger] query.contains(t) by {
            let i = choose|i: int| 0 <= i < CRITICAL_TOKENS@.len() && CRITICAL_TOKENS@[i] == t;
            assert(query.contains(CRITICAL_TOKENS@[i]));
        }
    } else {
        let i = choose|i: int| 0 <= i < 23 && !query.contains(#[trigger] CRITICAL_TOKENS@[i]);
        assert(CRITICAL_TOKENS@.contains(CRITICAL_TOKENS@[i]));
    }
}

/// What `algo` keeps of a query, by position: item `i` stays exactly when
/// the path has no event `i` or event `i` is not taken, and the items that
/// stay keep their order.
pub proof fn lemma_kept_items_by_position(flags: Seq<MockEvent>, query: Seq<u16>)
    ensures
        kept_items(flags, query) == Seq::new(query.len(), |i: int| (i, query[i])).filter(
            |p: (int, u16)| !(p.0 < flags.len() && flags[p.0].0),
        ).map_values(|p: (int, u16)| p.1),
    decreases query.len(),
{
    reveal(Seq::filter);
    let pairs = Seq::new(query.len(), |i: int| (i, query[i]));
    if query.len() > 0 {
        let rest = query.drop_last();
        lemma_kept_items_by_position(flags, rest);
        assert(pairs.drop_last() =~= Seq::new(rest.len(), |i: int| (i, rest[i])));
        let keep = |p: (int, u16)| !(p.0 < flags.len() && flags[p.0].0);
        let sub = pairs.drop_last().filter(keep);
        assert(sub.push(pairs.last()).map_values(|p: (int, u16)| p.1) =~= sub.map_values(
            |p: (int, u16)| p.1,
        ).push(query.last()));
    } else {
        assert(pairs.filter(|p: (int, u16)| !(p.0 < flags.len() && flags[p.0].0)) =~= pairs);
    }
}

} // verus!
