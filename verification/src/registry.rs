//! The aggregation hub registry: owns the chain-name -> chain-unit map,
//! creates units lazily, replaces units found dead by the liveness probe,
//! removes entries only on an identity-matched drop notification, and routes
//! producer/subscriber messages to the resolved unit.
//!
//! The registry decides; the host performs. Every operation returns plain
//! values describing the action to take (spawn a unit, forward a payload), and
//! the host's mailbox loop carries them out and feeds observations (a probe
//! that found a unit terminated, a drop notification) back in.

use vstd::prelude::*;

use crate::dense_map::{DenseMap, SlotsModel, spec_insert, spec_remove, spec_get};
use crate::handles::{FeedHandle, NodeDetails, ProducerCallback, UnitHandle};

verus! {

/// One entry of the chain map: an immutable, case-sensitive chain name and
/// the handle of the unit currently serving it.
pub struct ChainEntry {
    pub name: String,
    pub unit: UnitHandle,
}

/// Mathematical model of the registry: the chain map, the set of unit ids the
/// liveness probe has reported terminated, the next fresh unit id, and the
/// slot registry of administrative feed handles.
#[verifier::ext_equal]
pub struct RegistryModel {
    pub chains: Map<Seq<char>, nat>,
    pub dead: Set<nat>,
    pub next: nat,
    pub feeds: SlotsModel<FeedHandle>,
}

impl RegistryModel {
    /// Well-formedness: every stored or terminated unit id was minted before
    /// `next`, so a freshly minted id can never collide with one of them.
    pub open spec fn wf(self) -> bool {
        &&& forall|c: Seq<char>| #[trigger] self.chains.contains_key(c) ==> self.chains[c] < self.next
        &&& forall|id: nat| #[trigger] self.dead.contains(id) ==> id < self.next
        &&& self.feeds.wf()
    }

    /// The entry for a chain both exists and designates a unit the probe has
    /// not reported terminated.
    pub open spec fn chain_live(self, c: Seq<char>) -> bool {
        self.chains.contains_key(c) && !self.dead.contains(self.chains[c])
    }
}

/// Effect of resolving a chain: a live entry is returned untouched; an absent
/// entry, or one whose unit has terminated, is overwritten with a freshly
/// minted unit. Returns the new model, the resolved unit id, and whether a
/// unit was created.
pub open spec fn spec_find_or_create(m: RegistryModel, c: Seq<char>) -> (RegistryModel, nat, bool) {
    if m.chain_live(c) {
        (m, m.chains[c], false)
    } else {
        (
            RegistryModel {
                chains: m.chains.insert(c, m.next),
                dead: m.dead,
                next: m.next + 1,
                feeds: m.feeds,
            },
            m.next,
            true,
        )
    }
}

/// Effect of a drop notification: the entry is removed only if it still
/// designates the reporting unit itself; otherwise nothing changes. Returns
/// the new model and whether the entry was removed.
pub open spec fn spec_drop_chain(m: RegistryModel, c: Seq<char>, sender: nat) -> (
    RegistryModel,
    bool,
) {
    if m.chains.contains_key(c) && m.chains[c] == sender {
        (
            RegistryModel { chains: m.chains.remove(c), dead: m.dead, next: m.next, feeds: m.feeds },
            true,
        )
    } else {
        (m, false)
    }
}

/// Effect of the liveness probe reporting a unit terminated: the id joins the
/// dead set; the map itself is reconciled only at the next resolution.
pub open spec fn spec_mark_dead(m: RegistryModel, id: nat) -> RegistryModel {
    RegistryModel { chains: m.chains, dead: m.dead.insert(id), next: m.next, feeds: m.feeds }
}

/// The chain map a sequence of entries denotes: later entries shadow earlier
/// ones, though under [`unique_names`] no shadowing ever happens.
pub open spec fn entries_map(s: Seq<ChainEntry>) -> Map<Seq<char>, nat>
    decreases s.len(),
{
    if s.len() == 0 {
        Map::empty()
    } else {
        entries_map(s.drop_last()).insert(s.last().name@, s.last().unit.id as nat)
    }
}

/// No two entries carry the same chain name.
pub open spec fn unique_names(s: Seq<ChainEntry>) -> bool {
    forall|i: int, j: int| 0 <= i < j < s.len() ==> s[i].name@ != s[j].name@
}

/// The set of unit ids a sequence of termination reports denotes.
pub open spec fn dead_set_of(s: Seq<u64>) -> Set<nat> {
    Set::new(|id: nat| exists|i: int| 0 <= i < s.len() && (#[trigger] s[i]) as nat == id)
}

proof fn lemma_dead_set_push(s: Seq<u64>, x: u64)
    ensures
        dead_set_of(s.push(x)) == dead_set_of(s).insert(x as nat),
{
    assert forall|id: nat| #[trigger]
        dead_set_of(s.push(x)).contains(id) implies dead_set_of(s).insert(
        x as nat,
    ).contains(id) by {
        let i = choose|i: int| 0 <= i < s.push(x).len() && s.push(x)[i] as nat == id;
        if i < s.len() {
            assert(s[i] as nat == id);
        }
    }
    assert forall|id: nat| #[trigger]
        dead_set_of(s).insert(x as nat).contains(id) implies dead_set_of(s.push(x)).contains(
        id,
    ) by {
        if id == x as nat {
            assert(s.push(x)[s.len() as int] as nat == id);
        } else {
            let i = choose|i: int| 0 <= i < s.len() && s[i] as nat == id;
            assert(s.push(x)[i] as nat == id);
        }
    }
    assert(dead_set_of(s.push(x)) =~= dead_set_of(s).insert(x as nat));
}

proof fn lemma_entries_map_contains(s: Seq<ChainEntry>, c: Seq<char>)
    ensures
        entries_map(s).contains_key(c) <==> exists|i: int|
            0 <= i < s.len() && (#[trigger] s[i]).name@ == c,
    decreases s.len(),
{
    if s.len() > 0 {
        lemma_entries_map_contains(s.drop_last(), c);
        if s.last().name@ == c {
            assert(s[s.len() - 1].name@ == c);
        } else {
            if exists|i: int| 0 <= i < s.len() && (#[trigger] s[i]).name@ == c {
                let i = choose|i: int| 0 <= i < s.len() && (#[trigger] s[i]).name@ == c;
                assert(s.drop_last()[i].name@ == c);
            }
            if exists|i: int| 0 <= i < s.drop_last().len() && (#[trigger] s.drop_last()[i]).name@
                == c {
                let i = choose|i: int|
                    0 <= i < s.drop_last().len() && (#[trigger] s.drop_last()[i]).name@ == c;
                assert(s[i].name@ == c);
            }
        }
    }
}

proof fn lemma_entries_map_value(s: Seq<ChainEntry>, i: int)
    requires
        unique_names(s),
        0 <= i < s.len(),
    ensures
        entries_map(s).contains_key(s[i].name@),
        entries_map(s)[s[i].name@] == s[i].unit.id as nat,
    decreases s.len(),
{
    if i < s.len() - 1 {
        assert(unique_names(s.drop_last())) by {
            assert(forall|p: int, q: int|
                0 <= p < q < s.drop_last().len() ==> s.drop_last()[p] == s[p]
                    && s.drop_last()[q] == s[q]);
        }
        lemma_entries_map_value(s.drop_last(), i);
        assert(s.drop_last()[i] == s[i]);
        assert(s[i].name@ != s.last().name@);
    }
}

proof fn lemma_entries_map_update(s: Seq<ChainEntry>, i: int, e: ChainEntry)
    requires
        unique_names(s),
        0 <= i < s.len(),
        e.name@ == s[i].name@,
    ensures
        entries_map(s.update(i, e)) == entries_map(s).insert(e.name@, e.unit.id as nat),
    decreases s.len(),
{
    let su = s.update(i, e);
    if i == s.len() - 1 {
        assert(su.drop_last() =~= s.drop_last());
        assert(su.last() == e);
        assert(entries_map(su) =~= entries_map(s).insert(e.name@, e.unit.id as nat));
    } else {
        assert(su.drop_last() =~= s.drop_last().update(i, e));
        assert(unique_names(s.drop_last())) by {
            assert(forall|p: int, q: int|
                0 <= p < q < s.drop_last().len() ==> s.drop_last()[p] == s[p]
                    && s.drop_last()[q] == s[q]);
        }
        assert(s.drop_last()[i] == s[i]);
        lemma_entries_map_update(s.drop_last(), i, e);
        assert(su.last() == s.last());
        assert(e.name@ != s.last().name@);
        assert(entries_map(su) =~= entries_map(s).insert(e.name@, e.unit.id as nat));
    }
}

proof fn lemma_entries_map_remove(s: Seq<ChainEntry>, i: int)
    requires
        unique_names(s),
        0 <= i < s.len(),
    ensures
        entries_map(s.remove(i)) == entries_map(s).remove(s[i].name@),
    decreases s.len(),
{
    let sr = s.remove(i);
    let c = s[i].name@;
    if i == s.len() - 1 {
        assert(sr =~= s.drop_last());
        lemma_entries_map_contains(s.drop_last(), c);
        assert(forall|j: int| 0 <= j < s.drop_last().len() ==> s.drop_last()[j] == s[j]);
        assert(!entries_map(s.drop_last()).contains_key(c));
        assert(entries_map(sr) =~= entries_map(s).remove(c));
    } else {
        assert(sr.len() == s.len() - 1);
        assert(sr.last() == s.last());
        assert(sr.drop_last() =~= s.drop_last().remove(i));
        assert(unique_names(s.drop_last())) by {
            assert(forall|p: int, q: int|
                0 <= p < q < s.drop_last().len() ==> s.drop_last()[p] == s[p]
                    && s.drop_last()[q] == s[q]);
        }
        assert(s.drop_last()[i] == s[i]);
        lemma_entries_map_remove(s.drop_last(), i);
        assert(c != s.last().name@);
        assert(entries_map(sr) =~= entries_map(s).remove(c));
    }
}

/// Message from a producer connection once all node details are known: the
/// payload is to be forwarded to the unit serving `chain`, unchanged.
pub struct AddNode {
    pub node: NodeDetails,
    pub chain: String,
    pub rec: ProducerCallback,
}

/// Message from a chain unit that has lost all of its nodes. `sender` is the
/// reporting unit's own handle: the entry is removed only if it still
/// designates that very unit, so a drop raced by a fresh replacement cannot
/// evict the replacement.
pub struct DropChain {
    pub chain: String,
    pub sender: UnitHandle,
}

/// Message from a subscriber connection asking to follow a chain.
pub struct Subscribe {
    pub chain: String,
    pub feed: FeedHandle,
}

/// Outbound command the host performs after [`Aggregator::route_add_node`]:
/// if `created`, spawn a unit for `chain` under handle `unit` (with a
/// back-reference to the registry) before delivering; then deliver `node` and
/// `rec` to `unit`, exactly as they arrived.
pub struct ForwardAddNode {
    pub unit: UnitHandle,
    pub created: bool,
    pub chain: String,
    pub node: NodeDetails,
    pub rec: ProducerCallback,
}

/// Outbound command the host performs after [`Aggregator::subscribe`]: spawn
/// the unit first if `created`, then deliver the subscription to it. Fan-out
/// delivery past that point is the unit's own business.
pub struct ForwardSubscribe {
    pub unit: UnitHandle,
    pub created: bool,
    pub chain: String,
    pub feed: FeedHandle,
}

/// The aggregation hub. See [`RegistryModel`] for the abstract state it
/// maintains.
pub struct Aggregator {
    chains: Vec<ChainEntry>,
    feeds: DenseMap<FeedHandle>,
    dead: Vec<u64>,
    next_unit: u64,
}

impl View for Aggregator {
    type V = RegistryModel;

    closed spec fn view(&self) -> RegistryModel {
        RegistryModel {
            chains: entries_map(self.chains@),
            dead: dead_set_of(self.dead@),
            next: self.next_unit as nat,
            feeds: self.feeds@,
        }
    }
}

impl Aggregator {
    /// Representation invariant: chain names are unique, every stored or dead
    /// unit id is below the mint counter, and the feed registry is
    /// well-formed.
    pub closed spec fn inv(self) -> bool {
        &&& unique_names(self.chains@)
        &&& forall|i: int|
            0 <= i < self.chains@.len() ==> (#[trigger] self.chains@[i]).unit.id < self.next_unit
        &&& forall|i: int| 0 <= i < self.dead@.len() ==> (#[trigger] self.dead@[i]) < self.next_unit
        &&& self.feeds@.wf()
    }

    /// An empty registry: no chains, no terminated units, no feeds.
    pub fn new() -> (r: Aggregator)
        ensures
            r.inv(),
            r@.chains == Map::<Seq<char>, nat>::empty(),
            r@.dead == Set::<nat>::empty(),
            r@.next == 0,
            r@.feeds.slots == Seq::<Option<FeedHandle>>::empty(),
            r@.feeds.retired == Seq::<usize>::empty(),
    {
        let r = Aggregator {
            chains: Vec::new(),
            feeds: DenseMap::new(),
            dead: Vec::new(),
            next_unit: 0,
        };
        proof {
            assert(r@.dead =~= Set::<nat>::empty());
        }
        r
    }

    /// Index of the entry for a chain, if there is one. With unique names the
    /// entry found is the one the chain map designates.
    fn find_entry(&self, chain: &String) -> (r: Option<usize>)
        requires
            self.inv(),
        ensures
            match r {
                Some(i) => {
                    &&& 0 <= i < self.chains@.len()
                    &&& self.chains@[i as int].name@ == chain@
                    &&& self@.chains.contains_key(chain@)
                    &&& self@.chains[chain@] == self.chains@[i as int].unit.id as nat
                },
                None => !self@.chains.contains_key(chain@),
            },
    {
        let n = self.chains.len();
        let mut i: usize = 0;
        while i < n
            invariant
                self.inv(),
                n == self.chains@.len(),
                0 <= i <= n,
                forall|j: int| 0 <= j < i ==> (#[trigger] self.chains@[j]).name@ != chain@,
            decreases n - i,
        {
            if self.chains[i].name == *chain {
                proof {
                    lemma_entries_map_value(self.chains@, i as int);
                }
                return Some(i);
            }
            i = i + 1;
        }
        proof {
            lemma_entries_map_contains(self.chains@, chain@);
        }
        None
    }

    /// Whether the liveness probe has reported this unit id terminated.
    fn is_dead(&self, id: u64) -> (r: bool)
        ensures
            r == self@.dead.contains(id as nat),
    {
        let n = self.dead.len();
        let mut i: usize = 0;
        while i < n
            invariant
                n == self.dead@.len(),
                0 <= i <= n,
                forall|j: int| 0 <= j < i ==> (#[trigger] self.dead@[j]) != id,
            decreases n - i,
        {
            if self.dead[i] == id {
                proof {
                    assert(self.dead@[i as int] as nat == id as nat);
                }
                return true;
            }
            i = i + 1;
        }
        proof {
            if self@.dead.contains(id as nat) {
                let j = choose|j: int| 0 <= j < self.dead@.len() && self.dead@[j] as nat == id as nat;
                assert(self.dead@[j] != id);
                assert(false);
            }
        }
        false
    }

    /// The handle currently stored for a chain, live or not; `None` when the
    /// chain has no entry. Read-only: the host uses it to pick the handle
    /// whose liveness it should probe.
    pub fn lookup(&self, chain: &String) -> (r: Option<UnitHandle>)
        requires
            self.inv(),
        ensures
            match r {
                Some(h) => self@.chains.contains_key(chain@) && self@.chains[chain@] == h.id as nat,
                None => !self@.chains.contains_key(chain@),
            },
    {
        match self.find_entry(chain) {
            Some(i) => Some(self.chains[i].unit),
            None => None,
        }
    }

    /// Whether another unit handle can still be minted. Exhaustion of the
    /// handle space is an unrecoverable, process-level fault for the host: a
    /// registry that cannot spawn children has no reduced mode to fall back
    /// to.
    pub fn can_mint(&self) -> (r: bool)
        ensures
            r == (self@.next < u64::MAX),
    {
        self.next_unit < u64::MAX
    }

    /// Whether this registry minted the given handle. Only observations about
    /// minted handles can be recorded by [`Aggregator::mark_dead`].
    pub fn is_minted(&self, unit: UnitHandle) -> (r: bool)
        ensures
            r == ((unit.id as nat) < self@.next),
    {
        unit.id < self.next_unit
    }

    /// Resolve a chain name to a live unit, creating one if the entry is
    /// absent or its unit has terminated. Returns the handle and whether a
    /// unit was created (`true` tells the host to spawn the unit before
    /// forwarding to it). A repeated call for an unchanged, still-live chain
    /// returns the identical handle and mutates nothing.
    pub fn lazy_chain(&mut self, chain: String) -> (r: (UnitHandle, bool))
        requires
            old(self).inv(),
            old(self)@.next < u64::MAX,
        ensures
            final(self).inv(),
            ({
                let (m1, id, created) = spec_find_or_create(old(self)@, chain@);
                &&& final(self)@ == m1
                &&& r.0.id as nat == id
                &&& r.1 == created
            }),
    {
        let ghost cv = chain@;
        let found = self.find_entry(&chain);
        if let Some(i) = found {
            let u = self.chains[i].unit;
            if !self.is_dead(u.id) {
                proof {
                    assert(old(self)@.chain_live(cv));
                }
                return (u, false);
            }
        }
        let h = UnitHandle { id: self.next_unit };
        self.next_unit = self.next_unit + 1;
        proof {
            assert(!old(self)@.chain_live(cv));
        }
        match found {
            Some(i) => {
                proof {
                    lemma_entries_map_update(
                        self.chains@,
                        i as int,
                        ChainEntry { name: chain, unit: h },
                    );
                }
                self.chains[i] = ChainEntry { name: chain, unit: h };
                proof {
                    assert forall|p: int, q: int|
                        0 <= p < q < self.chains@.len() implies self.chains@[p].name@
                        != self.chains@[q].name@ by {
                        assert(old(self).chains@[p].name@ != old(self).chains@[q].name@);
                    }
                    assert(self@ =~= spec_find_or_create(old(self)@, cv).0);
                }
            },
            None => {
                proof {
                    lemma_entries_map_contains(self.chains@, cv);
                }
                self.chains.push(ChainEntry { name: chain, unit: h });
                proof {
                    assert(self.chains@.drop_last() =~= old(self).chains@);
                    assert forall|p: int, q: int|
                        0 <= p < q < self.chains@.len() implies self.chains@[p].name@
                        != self.chains@[q].name@ by {
                        if q < self.chains@.len() - 1 {
                            assert(old(self).chains@[p].name@ != old(self).chains@[q].name@);
                        } else {
                            assert(self.chains@[p] == old(self).chains@[p]);
                        }
                    }
                    assert(self@ =~= spec_find_or_create(old(self)@, cv).0);
                }
            },
        }
        (h, true)
    }

    /// Record what the host's liveness probe observed: the unit owning this
    /// handle has stopped running. The map itself is reconciled lazily, at
    /// the next resolution of that chain.
    pub fn mark_dead(&mut self, unit: UnitHandle)
        requires
            old(self).inv(),
            (unit.id as nat) < old(self)@.next,
        ensures
            final(self).inv(),
            final(self)@ == spec_mark_dead(old(self)@, unit.id as nat),
    {
        proof {
            lemma_dead_set_push(self.dead@, unit.id);
        }
        self.dead.push(unit.id);
        proof {
            assert(self@ =~= spec_mark_dead(old(self)@, unit.id as nat));
        }
    }

    /// Route a node registration: resolve the chain's unit (creating one if
    /// needed) and hand back the forwarding command. Fire-and-forget for the
    /// producer; `node` and `rec` pass through unchanged, addressed to
    /// whichever unit is current now that the call completed.
    pub fn route_add_node(&mut self, msg: AddNode) -> (fwd: ForwardAddNode)
        requires
            old(self).inv(),
            old(self)@.next < u64::MAX,
        ensures
            final(self).inv(),
            ({
                let (m1, id, created) = spec_find_or_create(old(self)@, msg.chain@);
                &&& final(self)@ == m1
                &&& fwd.unit.id as nat == id
                &&& fwd.created == created
            }),
            fwd.node == msg.node,
            fwd.rec == msg.rec,
            fwd.chain@ == msg.chain@,
    {
        let AddNode { node, chain, rec } = msg;
        let chain_copy = chain.clone();
        let (unit, created) = self.lazy_chain(chain);
        ForwardAddNode { unit, created, chain: chain_copy, node, rec }
    }

    /// Route a subscription the same way node registrations are routed:
    /// through the per-chain unit resolved (or created) for the named chain.
    /// The subscriber handle passes through unchanged.
    pub fn subscribe(&mut self, msg: Subscribe) -> (fwd: ForwardSubscribe)
        requires
            old(self).inv(),
            old(self)@.next < u64::MAX,
        ensures
            final(self).inv(),
            ({
                let (m1, id, created) = spec_find_or_create(old(self)@, msg.chain@);
                &&& final(self)@ == m1
                &&& fwd.unit.id as nat == id
                &&& fwd.created == created
            }),
            fwd.feed == msg.feed,
            fwd.chain@ == msg.chain@,
    {
        let Subscribe { chain, feed } = msg;
        let chain_copy = chain.clone();
        let (unit, created) = self.lazy_chain(chain);
        ForwardSubscribe { unit, created, chain: chain_copy, feed }
    }

    /// Process a drop notification: remove the entry only if it still
    /// designates the reporting unit itself. Returns whether the entry was
    /// removed, so the host can emit its diagnostic record on success; a
    /// stale report (the entry was already replaced, or is gone) is a silent
    /// no-op.
    pub fn handle_chain_empty(&mut self, msg: DropChain) -> (removed: bool)
        requires
            old(self).inv(),
        ensures
            final(self).inv(),
            ({
                let (m1, rem) = spec_drop_chain(old(self)@, msg.chain@, msg.sender.id as nat);
                &&& final(self)@ == m1
                &&& removed == rem
            }),
    {
        let DropChain { chain, sender } = msg;
        let ghost cv = chain@;
        match self.find_entry(&chain) {
            Some(i) => {
                if self.chains[i].unit.id == sender.id {
                    proof {
                        lemma_entries_map_remove(self.chains@, i as int);
                    }
                    self.chains.remove(i);
                    proof {
                        assert forall|p: int, q: int|
                            0 <= p < q < self.chains@.len() implies self.chains@[p].name@
                            != self.chains@[q].name@ by {
                            let s = old(self).chains@;
                            let pp: int = if p < i { p } else { p + 1 };
                            let qq: int = if q < i { q } else { q + 1 };
                            assert(self.chains@[p] == s[pp]);
                            assert(self.chains@[q] == s[qq]);
                            assert(s[pp].name@ != s[qq].name@);
                        }
                        assert(self@ =~= spec_drop_chain(old(self)@, cv, sender.id as nat).0);
                    }
                    true
                } else {
                    false
                }
            },
            None => false,
        }
    }

    /// Admit an administrative feed handle into the slot registry; returns
    /// its stable slot. Chains, dead set and mint counter are untouched.
    pub fn connect_feed(&mut self, feed: FeedHandle) -> (slot: usize)
        requires
            old(self).inv(),
            old(self)@.feeds.slots.len() < usize::MAX,
        ensures
            final(self).inv(),
            final(self)@.feeds == spec_insert(old(self)@.feeds, feed).0,
            slot as int == spec_insert(old(self)@.feeds, feed).1,
            final(self)@.chains == old(self)@.chains,
            final(self)@.dead == old(self)@.dead,
            final(self)@.next == old(self)@.next,
    {
        self.feeds.insert(feed)
    }

    /// Free a feed slot; a no-op if it is out of range or already freed. No
    /// other feed moves or is renumbered.
    pub fn disconnect_feed(&mut self, slot: usize)
        requires
            old(self).inv(),
        ensures
            final(self).inv(),
            final(self)@.feeds == spec_remove(old(self)@.feeds, slot as int),
            final(self)@.chains == old(self)@.chains,
            final(self)@.dead == old(self)@.dead,
            final(self)@.next == old(self)@.next,
    {
        self.feeds.remove(slot)
    }

    /// The feed stored at a slot, if the slot exists and is live.
    pub fn feed_at(&self, slot: usize) -> (r: Option<FeedHandle>)
        ensures
            r == spec_get(self@.feeds, slot as int),
    {
        self.feeds.get(slot)
    }

    /// Restartable iteration over the live feed slots; see
    /// [`DenseMap::next_live`].
    pub fn next_feed(&self, start: usize) -> (r: Option<usize>)
        ensures
            match r {
                Some(i) => start <= i < self@.feeds.slots.len() && self@.feeds.slots[i as int]
                    is Some && forall|j: int| start <= j < i ==> self@.feeds.slots[j] is None,
                None => forall|j: int|
                    start <= j < self@.feeds.slots.len() ==> self@.feeds.slots[j] is None,
            },
    {
        self.feeds.next_live(start)
    }
}

/// The representation invariant implies well-formedness of the model every
/// contract speaks of.
pub proof fn lemma_inv_wf(a: Aggregator)
    requires
        a.inv(),
    ensures
        a@.wf(),
{
    assert forall|c: Seq<char>| #[trigger] a@.chains.contains_key(c) implies a@.chains[c]
        < a@.next by {
        lemma_entries_map_contains(a.chains@, c);
        let i = choose|i: int| 0 <= i < a.chains@.len() && (#[trigger] a.chains@[i]).name@ == c;
        lemma_entries_map_value(a.chains@, i);
    }
    assert forall|id: nat| #[trigger] a@.dead.contains(id) implies id < a@.next by {
        let j = choose|j: int| 0 <= j < a.dead@.len() && (#[trigger] a.dead@[j]) as nat == id;
    }
}

/// Single-live-unit invariant: resolving a chain preserves well-formedness
/// and leaves the map holding exactly one handle for that chain — the
/// returned one, which the probe has not reported terminated — while every
/// other chain's entry is exactly as before. A dead handle discovered at
/// lookup is replaced in place, never left beside its successor.
pub proof fn lemma_single_live_unit(m: RegistryModel, c: Seq<char>)
    requires
        m.wf(),
    ensures
        ({
            let (m1, id, created) = spec_find_or_create(m, c);
            &&& m1.wf()
            &&& m1.chain_live(c)
            &&& m1.chains.contains_key(c)
            &&& m1.chains[c] == id
            &&& !m1.dead.contains(id)
            &&& forall|c2: Seq<char>|
                c2 != c ==> (#[trigger] m1.chains.contains_key(c2) <==> m.chains.contains_key(c2))
            &&& forall|c2: Seq<char>|
                c2 != c && #[trigger] m1.chains.contains_key(c2) ==> m1.chains[c2] == m.chains[c2]
        }),
{
}

/// Termination reports and identity-guarded drops also preserve
/// well-formedness, so every reachable registry state is well-formed.
pub proof fn lemma_wf_preserved(m: RegistryModel, c: Seq<char>, id: nat)
    requires
        m.wf(),
    ensures
        id < m.next ==> spec_mark_dead(m, id).wf(),
        spec_drop_chain(m, c, id).0.wf(),
{
}

/// Idempotent resolution: two consecutive resolutions of the same chain with
/// nothing in between return the identical unit id, and the second one
/// creates nothing and changes nothing.
pub proof fn lemma_idempotent_resolution(m: RegistryModel, c: Seq<char>)
    requires
        m.wf(),
    ensures
        ({
            let (m1, id1, created1) = spec_find_or_create(m, c);
            let (m2, id2, created2) = spec_find_or_create(m1, c);
            &&& m2 == m1
            &&& id2 == id1
            &&& created2 == false
        }),
{
    lemma_single_live_unit(m, c);
}

/// Stale-drop race: create a unit, have the probe report it dead, create its
/// replacement, and only then process the old unit's drop notification. The
/// identity guard makes the drop a no-op: the chain still resolves to the
/// replacement, which is a genuinely different unit.
pub proof fn lemma_stale_drop(m: RegistryModel, c: Seq<char>)
    requires
        m.wf(),
    ensures
        ({
            let (ma, h1, _created1) = spec_find_or_create(m, c);
            let mb = spec_mark_dead(ma, h1);
            let (mc, h2, created2) = spec_find_or_create(mb, c);
            let (md, removed) = spec_drop_chain(mc, c, h1);
            &&& created2
            &&& h2 != h1
            &&& !removed
            &&& md == mc
            &&& md.chains.contains_key(c)
            &&& md.chains[c] == h2
        }),
{
    lemma_single_live_unit(m, c);
}

} // verus!
