//! Pools of 16-bit identifiers.
//!
//! A pool is modelled by the set of identifiers that are free to be handed
//! out. An identifier that is not in that set is outstanding.

use std::collections::HashSet;
use vstd::std_specs::iter::IteratorSpec;
use vstd::prelude::*;

verus! {

broadcast use vstd::std_specs::hash::group_hash_axioms;

/// How many identifiers exist: every value of `u16`.
pub const ID_UNIVERSE: usize = 65536;

/// Every set of identifiers is finite and holds at most `ID_UNIVERSE` members.
pub proof fn lemma_id_set_bounded(s: Set<u16>)
    ensures
        s.finite(),
        s.len() <= ID_UNIVERSE,
        s.len() == ID_UNIVERSE <==> s == Set::<u16>::full(),
{
    let full = Set::<u16>::full();
    lemma_full_len();
    assert(s.subset_of(full));
    vstd::set_lib::lemma_set_subset_finite(full, s);
    vstd::set_lib::lemma_len_subset(s, full);
    if s.len() == ID_UNIVERSE {
        vstd::set_lib::lemma_subset_equality(s, full);
    }
}

/// The full universe holds exactly `ID_UNIVERSE` identifiers.
pub proof fn lemma_full_len()
    ensures
        Set::<u16>::full().finite(),
        Set::<u16>::full().len() == ID_UNIVERSE,
{
    <u16 as vstd::set_lib::FiniteFull>::full_properties();
    vstd::set_lib::range_set_properties::<u16>(0u16, 65535u16);
    assert(Set::<u16>::full() =~= Set::<u16>::range(0u16, 65535u16).insert(65535u16));
}

/// One call on a pool together with what it returned.
pub enum PoolCall {
    /// `get_id`, with its result.
    Get(Option<u16>),
    /// `return_id` of an identifier, with its result.
    Return(u16, bool),
}

/// Whether a pool whose free set is `free` may answer the call in this way.
pub open spec fn call_allowed(free: Set<u16>, call: PoolCall) -> bool {
    match call {
        PoolCall::Get(Some(id)) => free.contains(id),
        PoolCall::Get(None) => free.is_empty(),
        PoolCall::Return(id, accepted) => accepted == !free.contains(id),
    }
}

/// The free set that the call leaves behind.
pub open spec fn free_after_call(free: Set<u16>, call: PoolCall) -> Set<u16> {
    match call {
        PoolCall::Get(Some(id)) => free.remove(id),
        PoolCall::Get(None) => free,
        PoolCall::Return(id, _) => free.insert(id),
    }
}

/// The free set after a history of calls on a pool that started full.
pub open spec fn free_after(history: Seq<PoolCall>) -> Set<u16>
    decreases history.len(),
{
    if history.len() == 0 {
        Set::<u16>::full()
    } else {
        free_after_call(free_after(history.drop_last()), history.last())
    }
}

/// Whether every call of the history was answered as the pool's contract allows,
/// on a pool that started full.
pub open spec fn history_allowed(history: Seq<PoolCall>) -> bool
    decreases history.len(),
{
    history.len() == 0 || (history_allowed(history.drop_last()) && call_allowed(
        free_after(history.drop_last()),
        history.last(),
    ))
}

/// The identifiers that the history handed out and did not get back.
pub open spec fn outstanding_after(history: Seq<PoolCall>) -> Set<u16>
    decreases history.len(),
{
    if history.len() == 0 {
        Set::<u16>::empty()
    } else {
        let before = outstanding_after(history.drop_last());
        match history.last() {
            PoolCall::Get(Some(id)) => before.insert(id),
            PoolCall::Get(None) => before,
            PoolCall::Return(id, _) => before.remove(id),
        }
    }
}

/// After any allowed history on a pool that started full, the free identifiers
/// and the outstanding ones split the universe: an identifier is free exactly
/// when it is not outstanding.
pub proof fn lemma_free_and_outstanding_split(history: Seq<PoolCall>)
    requires
        history_allowed(history),
    ensures
        free_after(history) == Set::<u16>::full().difference(outstanding_after(history)),
        free_after(history).len() + outstanding_after(history).len() == ID_UNIVERSE,
    decreases history.len(),
{
    let free = free_after(history);
    let out = outstanding_after(history);
    if history.len() > 0 {
        lemma_free_and_outstanding_split(history.drop_last());
    }
    assert(free =~= Set::<u16>::full().difference(out));
    lemma_id_set_bounded(out);
    lemma_id_set_bounded(free);
    lemma_full_len();
    assert(free.disjoint(out));
    vstd::set_lib::lemma_set_disjoint_lens(free, out);
    assert(free.union(out) =~= Set::<u16>::full());
}

/// What each further call does after an allowed history on a pool that started
/// full. `get_id` never hands out an identifier that is outstanding, and gives
/// `None` exactly when every identifier is outstanding. `return_id` of an
/// identifier that is not outstanding is refused and leaves the pool as it was.
pub proof fn lemma_next_call(history: Seq<PoolCall>, call: PoolCall)
    requires
        history_allowed(history.push(call)),
    ensures
        call matches PoolCall::Get(Some(id)) ==> !outstanding_after(history).contains(id)
            && outstanding_after(history.push(call)) == outstanding_after(history).insert(id),
        call matches PoolCall::Get(None) ==> outstanding_after(history) == Set::<u16>::full(),
        call is Get && outstanding_after(history) == Set::<u16>::full() ==> call
            == PoolCall::Get(None),
        call matches PoolCall::Return(id, accepted) ==> accepted == outstanding_after(
            history,
        ).contains(id),
        call matches PoolCall::Return(id, accepted) ==> !outstanding_after(history).contains(id)
            ==> !accepted && free_after(history.push(call)) == free_after(history)
            && outstanding_after(history.push(call)) == outstanding_after(history),
{
    let next = history.push(call);
    assert(next.drop_last() == history);
    assert(next.last() == call);
    lemma_free_and_outstanding_split(history);
    let free = free_after(history);
    let out = outstanding_after(history);
    match call {
        PoolCall::Get(Some(id)) => {},
        PoolCall::Get(None) => {
            assert(out =~= Set::<u16>::full());
        },
        PoolCall::Return(id, accepted) => {
            if !out.contains(id) {
                assert(free.insert(id) =~= free);
                assert(out.remove(id) =~= out);
            }
        },
    }
}

/// Giving back an identifier that is free already is refused and changes
/// nothing, however often it is tried.
pub proof fn lemma_return_free_id_again(free: Set<u16>, id: u16)
    requires
        free.contains(id),
    ensures
        call_allowed(free, PoolCall::Return(id, false)),
        !call_allowed(free, PoolCall::Return(id, true)),
        free_after_call(free, PoolCall::Return(id, false)) == free,
        free_after_call(free_after_call(free, PoolCall::Return(id, false)), PoolCall::Return(id, false))
            == free,
        free_after_call(free, PoolCall::Return(id, false)).len() == free.len(),
{
    assert(free.insert(id) =~= free);
}

/// The identifier that a call handed out, if it handed one out.
pub open spec fn handed_out(call: PoolCall) -> Option<u16> {
    match call {
        PoolCall::Get(id) => id,
        PoolCall::Return(_, _) => None,
    }
}

/// Draining a full pool: when a history holds nothing but `get_id` calls, the
/// first `ID_UNIVERSE` of them hand out identifiers that are pairwise
/// different, and every later one gives `None`.
pub proof fn lemma_drain_full_pool(history: Seq<PoolCall>)
    requires
        history_allowed(history),
        forall|i: int| 0 <= i < history.len() ==> history[i] is Get,
    ensures
        forall|i: int|
            0 <= i < history.len() ==> (handed_out(#[trigger] history[i]) is None <==> i
                >= ID_UNIVERSE),
        forall|i: int, j: int|
            0 <= i < j < history.len() && handed_out(#[trigger] history[i]) is Some && handed_out(
                #[trigger] history[j],
            ) is Some ==> handed_out(history[i]) != handed_out(history[j]),
        forall|i: int|
            0 <= i < history.len() && handed_out(history[i]) is Some ==> !free_after(
                history,
            ).contains(handed_out(#[trigger] history[i]).unwrap()),
        free_after(history).len() == if history.len() <= ID_UNIVERSE {
            ID_UNIVERSE - history.len()
        } else {
            0
        },
    decreases history.len(),
{
    lemma_full_len();
    if history.len() > 0 {
        let earlier = history.drop_last();
        assert(forall|i: int| 0 <= i < earlier.len() ==> earlier[i] == history[i]);
        lemma_drain_full_pool(earlier);
        let free = free_after(earlier);
        lemma_id_set_bounded(free);
        match history.last() {
            PoolCall::Get(Some(id)) => {
                assert(free.len() > 0);
            },
            PoolCall::Get(None) => {
                assert(free.len() == 0);
            },
            PoolCall::Return(_, _) => {},
        }
    }
}

/// A source of scarce 16-bit identifiers.
pub trait IdPool {
    /// The identifiers that are free to be handed out.
    spec fn available(&self) -> Set<u16>;

    /// Whether every identifier is outstanding.
    fn is_empty(&self) -> (empty: bool)
        ensures
            empty == self.available().is_empty(),
    ;

    /// The number of identifiers that are free.
    fn len(&self) -> (n: usize)
        ensures
            n == self.available().len(),
    ;

    /// Makes every identifier free again.
    fn clear(&mut self)
        ensures
            final(self).available() == Set::<u16>::full(),
    ;

    /// Hands out some free identifier, which is then outstanding, or `None`
    /// when there is none. Which of the free identifiers comes is not fixed.
    fn get_id(&mut self) -> (id: Option<u16>)
        ensures
            call_allowed(old(self).available(), PoolCall::Get(id)),
            final(self).available() == free_after_call(old(self).available(), PoolCall::Get(id)),
    ;

    /// Gives an identifier back. The result is `false`, and nothing changes,
    /// when the identifier was free already.
    fn return_id(&mut self, id: u16) -> (accepted: bool)
        ensures
            call_allowed(old(self).available(), PoolCall::Return(id, accepted)),
            final(self).available() == free_after_call(
                old(self).available(),
                PoolCall::Return(id, accepted),
            ),
    ;
}

/// An identifier pool kept in memory as a hash set of the free identifiers.
#[derive(Debug)]
pub struct MemoryIdPool {
    available_ids: HashSet<u16>,
}

impl View for MemoryIdPool {
    type V = Set<u16>;

    closed spec fn view(&self) -> Set<u16> {
        self.available_ids@
    }
}

impl MemoryIdPool {
    /// A pool in which every identifier is free.
    pub fn new() -> (pool: Self)
        ensures
            pool@ == Set::<u16>::full(),
    {
        let mut pool = MemoryIdPool { available_ids: HashSet::new() };
        pool.clear();
        pool
    }

    /// A pool in which exactly the given identifiers are free.
    pub fn with_available(ids: &[u16]) -> (pool: Self)
        ensures
            pool@ == ids@.to_set(),
    {
        let mut available_ids: HashSet<u16> = HashSet::new();
        let mut i: usize = 0;
        while i < ids.len()
            invariant
                i <= ids.len(),
                available_ids@ == ids@.take(i as int).to_set(),
            decreases ids.len() - i,
        {
            available_ids.insert(ids[i]);
            proof {
                assert(ids@.take(i + 1) == ids@.take(i as int).push(ids@[i as int]));
                ids@.take(i as int).lemma_push_to_set_commute(ids@[i as int]);
            }
            i += 1;
        }
        proof {
            assert(ids@.take(ids.len() as int) == ids@);
        }
        MemoryIdPool { available_ids }
    }

    /// Whether the identifier is free.
    pub fn contains(&self, id: u16) -> (free: bool)
        ensures
            free == self@.contains(id),
    {
        self.available_ids.contains(&id)
    }

    /// Takes one chosen identifier out of the free set. The result is `false`,
    /// and nothing changes, when the identifier was outstanding already.
    pub fn reserve(&mut self, id: u16) -> (taken: bool)
        ensures
            taken == old(self)@.contains(id),
            final(self)@ == old(self)@.remove(id),
    {
        self.available_ids.remove(&id)
    }
}

impl Clone for MemoryIdPool {
    /// A pool with the same free identifiers.
    fn clone(&self) -> (copy: Self)
        ensures
            copy@ == self@,
    {
        let mut available_ids: HashSet<u16> = HashSet::new();
        for id in walk: self.available_ids.iter()
            invariant
                walk.seq().unref().to_set() == self.available_ids@,
                available_ids@ == walk.seq().unref().take(walk.index()).to_set(),
                walk.index() == walk.seq().len() ==> available_ids@ == self.available_ids@,
        {
            proof {
                let all = walk.seq().unref();
                assert(all.take(walk.index() + 1) =~= all.take(walk.index()).push(*id));
                all.take(walk.index()).lemma_push_to_set_commute(*id);
                assert(all.take(all.len() as int) =~= all);
            }
            available_ids.insert(*id);
        }
        MemoryIdPool { available_ids }
    }
}

impl IdPool for MemoryIdPool {
    open spec fn available(&self) -> Set<u16> {
        self@
    }

    fn is_empty(&self) -> (empty: bool) {
        self.available_ids.is_empty()
    }

    fn len(&self) -> (n: usize) {
        self.available_ids.len()
    }

    fn clear(&mut self) {
        self.available_ids.clear();
        let mut next: u32 = 0;
        while next <= 65535
            invariant
                next <= 65536,
                forall|id: u16| self.available_ids@.contains(id) <==> (id as u32) < next,
            decreases 65536 - next,
        {
            self.available_ids.insert(next as u16);
            next += 1;
        }
        assert(self.available_ids@ =~= Set::<u16>::full());
    }

    fn get_id(&mut self) -> (id: Option<u16>) {
        let found = first_of(&self.available_ids);
        if let Some(id) = found {
            self.available_ids.remove(&id);
        }
        found
    }

    fn return_id(&mut self, id: u16) -> (accepted: bool) {
        self.available_ids.insert(id)
    }
}

/// The identifier that a walk over the set meets first, if the set has any.
fn first_of(ids: &HashSet<u16>) -> (found: Option<u16>)
    ensures
        match found {
            Some(id) => ids@.contains(id),
            None => ids@.is_empty(),
        },
{
    for id in walk: ids.iter()
        invariant
            walk.index() == 0,
            walk.seq().unref().to_set() == ids@,
            walk.seq().len() == ids@.len(),
    {
        return Some(*id);
    }
    None
}

} // verus!
