//! Slot registry: a dense, stable-indexed collection of handles with O(1)
//! insert and remove and restartable iteration. Removal never shifts or
//! renumbers other live entries; a freed slot is yielded again only after an
//! insertion explicitly reuses it.

use vstd::prelude::*;

verus! {

/// Mathematical model of a [`DenseMap`]: the slot array, where `None` marks a
/// freed slot, and the stack of freed slot indices awaiting reuse.
#[verifier::ext_equal]
pub struct SlotsModel<T> {
    pub slots: Seq<Option<T>>,
    pub retired: Seq<usize>,
}

impl<T> SlotsModel<T> {
    /// Well-formedness: the slot array is addressable by machine indices,
    /// every retired index points at a freed slot inside the array, no index
    /// is retired twice, and every freed slot is retired.
    pub open spec fn wf(self) -> bool {
        &&& self.slots.len() <= usize::MAX
        &&& forall|i: int|
            0 <= i < self.retired.len() ==> (#[trigger] self.retired[i]) < self.slots.len()
        &&& forall|i: int|
            0 <= i < self.retired.len() ==> self.slots[#[trigger] self.retired[i] as int] is None
        &&& forall|i: int, j: int|
            0 <= i < j < self.retired.len() ==> self.retired[i] != self.retired[j]
        &&& forall|s: int|
            0 <= s < self.slots.len() && self.slots[s] is None ==> self.retired.contains(
                s as usize,
            )
    }

    /// Number of live (occupied) slots.
    pub open spec fn live_count(self) -> nat {
        count_live(self.slots)
    }
}

/// How many entries of a slot array are occupied.
pub open spec fn count_live<T>(s: Seq<Option<T>>) -> nat
    decreases s.len(),
{
    if s.len() == 0 {
        0
    } else {
        count_live(s.drop_last()) + if s.last() is Some {
            1nat
        } else {
            0nat
        }
    }
}

/// Effect of an insertion: the most recently freed slot is reused, otherwise
/// the array grows by one. Returns the new model and the slot that now holds
/// the value.
pub open spec fn spec_insert<T>(m: SlotsModel<T>, v: T) -> (SlotsModel<T>, int) {
    if m.retired.len() > 0 {
        let i = m.retired.last() as int;
        (SlotsModel { slots: m.slots.update(i, Some(v)), retired: m.retired.drop_last() }, i)
    } else {
        (SlotsModel { slots: m.slots.push(Some(v)), retired: m.retired }, m.slots.len() as int)
    }
}

/// Effect of a removal: a live slot is freed and retired; anything else is a
/// no-op. No other slot moves.
pub open spec fn spec_remove<T>(m: SlotsModel<T>, i: int) -> SlotsModel<T> {
    if 0 <= i < m.slots.len() && m.slots[i] is Some {
        SlotsModel { slots: m.slots.update(i, None), retired: m.retired.push(i as usize) }
    } else {
        m
    }
}

/// Value held at a slot, if the slot exists and is live.
pub open spec fn spec_get<T>(m: SlotsModel<T>, i: int) -> Option<T> {
    if 0 <= i < m.slots.len() {
        m.slots[i]
    } else {
        None
    }
}

proof fn lemma_count_live_update<T>(s: Seq<Option<T>>, i: int, v: Option<T>)
    requires
        0 <= i < s.len(),
    ensures
        count_live(s.update(i, v)) == count_live(s) + (if v is Some {
            1int
        } else {
            0int
        }) - (if s[i] is Some {
            1int
        } else {
            0int
        }),
    decreases s.len(),
{
    let su = s.update(i, v);
    if i == s.len() - 1 {
        assert(su.drop_last() =~= s.drop_last());
    } else {
        assert(su.drop_last() =~= s.drop_last().update(i, v));
        lemma_count_live_update(s.drop_last(), i, v);
    }
}

proof fn lemma_count_live_push<T>(s: Seq<Option<T>>, v: Option<T>)
    ensures
        count_live(s.push(v)) == count_live(s) + (if v is Some {
            1int
        } else {
            0int
        }),
{
    assert(s.push(v).drop_last() =~= s);
}

/// Insertion preserves well-formedness, fills exactly the returned slot with
/// the value, leaves every other slot unchanged, and raises the live count by
/// one.
pub proof fn lemma_insert<T>(m: SlotsModel<T>, v: T)
    requires
        m.wf(),
        m.slots.len() < usize::MAX,
    ensures
        ({
            let (m1, slot) = spec_insert(m, v);
            &&& m1.wf()
            &&& 0 <= slot < m1.slots.len()
            &&& m.slots.len() <= m1.slots.len()
            &&& m1.slots[slot] == Some(v)
            &&& forall|j: int| 0 <= j < m.slots.len() && j != slot ==> m1.slots[j] == m.slots[j]
            &&& m1.live_count() == m.live_count() + 1
        }),
{
    let (m1, slot) = spec_insert(m, v);
    if m.retired.len() > 0 {
        let r = m.retired;
        assert(r[r.len() - 1] < m.slots.len());
        assert(m.slots[r[r.len() - 1] as int] is None);
        lemma_count_live_update(m.slots, slot, Some(v));
        assert forall|s: int|
            0 <= s < m1.slots.len() && m1.slots[s] is None implies m1.retired.contains(
            s as usize,
        ) by {
            assert(m.slots[s] is None);
            let j = choose|j: int| 0 <= j < r.len() && r[j] == s as usize;
            assert(j < r.len() - 1);
            assert(m1.retired[j] == s as usize);
        }
    } else {
        lemma_count_live_push(m.slots, Some(v));
        assert forall|s: int|
            0 <= s < m1.slots.len() && m1.slots[s] is None implies m1.retired.contains(
            s as usize,
        ) by {
            assert(s < m.slots.len() && m.slots[s] is None);
            assert(m.retired.contains(s as usize));
        }
    }
}

/// Removing a live slot preserves well-formedness, frees exactly that slot,
/// leaves every other slot unchanged, and lowers the live count by one.
pub proof fn lemma_remove_live<T>(m: SlotsModel<T>, i: int)
    requires
        m.wf(),
        0 <= i < m.slots.len(),
        m.slots[i] is Some,
    ensures
        ({
            let m1 = spec_remove(m, i);
            &&& m1.wf()
            &&& m1.slots.len() == m.slots.len()
            &&& m1.slots[i] is None
            &&& forall|j: int| 0 <= j < m.slots.len() && j != i ==> m1.slots[j] == m.slots[j]
            &&& m1.live_count() + 1 == m.live_count()
        }),
{
    let m1 = spec_remove(m, i);
    lemma_count_live_update(m.slots, i, None);
    assert forall|k: int| 0 <= k < m.retired.len() implies m.retired[k] != i as usize by {
        assert(m.slots[m.retired[k] as int] is None);
    }
    assert forall|s: int|
        0 <= s < m1.slots.len() && m1.slots[s] is None implies m1.retired.contains(s as usize) by {
        if s == i {
            assert(m1.retired[m1.retired.len() - 1] == s as usize);
        } else {
            let j = choose|j: int| 0 <= j < m.retired.len() && m.retired[j] == s as usize;
            assert(m1.retired[j] == s as usize);
        }
    }
}

/// Removing a freed or out-of-range slot changes nothing.
pub proof fn lemma_remove_noop<T>(m: SlotsModel<T>, i: int)
    requires
        !(0 <= i < m.slots.len() && m.slots[i] is Some),
    ensures
        spec_remove(m, i) == m,
{
}

/// A handle inserted and then removed again leaves no trace: its slot is
/// freed, every other slot reads as before, and the live count is back where
/// it started.
pub proof fn lemma_insert_then_remove<T>(m: SlotsModel<T>, v: T)
    requires
        m.wf(),
        m.slots.len() < usize::MAX,
    ensures
        ({
            let (m1, slot) = spec_insert(m, v);
            let m2 = spec_remove(m1, slot);
            &&& m2.wf()
            &&& spec_get(m2, slot) == None::<T>
            &&& forall|j: int| 0 <= j < m.slots.len() && j != slot ==> m2.slots[j] == m.slots[j]
            &&& m2.live_count() == m.live_count()
        }),
{
    let (m1, slot) = spec_insert(m, v);
    lemma_insert(m, v);
    lemma_remove_live(m1, slot);
}

/// The slot registry. Externally owned handles are stored under stable
/// indices; see [`SlotsModel`] for the abstract state.
pub struct DenseMap<T> {
    slots: Vec<Option<T>>,
    retired: Vec<usize>,
}

impl<T> View for DenseMap<T> {
    type V = SlotsModel<T>;

    closed spec fn view(&self) -> SlotsModel<T> {
        SlotsModel { slots: self.slots@, retired: self.retired@ }
    }
}

impl<T> DenseMap<T> {
    /// An empty registry, trivially well-formed.
    pub fn new() -> (r: Self)
        ensures
            r@.wf(),
            r@.slots == Seq::<Option<T>>::empty(),
            r@.retired == Seq::<usize>::empty(),
    {
        DenseMap { slots: Vec::new(), retired: Vec::new() }
    }

    /// Number of slots the registry currently addresses, live or freed.
    pub fn slot_count(&self) -> (n: usize)
        ensures
            n == self@.slots.len(),
    {
        self.slots.len()
    }

    /// Store a handle, reusing the most recently freed slot if one exists;
    /// returns the slot now holding it. O(1): no other entry moves.
    pub fn insert(&mut self, v: T) -> (slot: usize)
        requires
            old(self)@.wf(),
            old(self)@.slots.len() < usize::MAX,
        ensures
            final(self)@ == spec_insert(old(self)@, v).0,
            slot as int == spec_insert(old(self)@, v).1,
            final(self)@.wf(),
    {
        proof {
            lemma_insert(old(self)@, v);
        }
        match self.retired.pop() {
            Some(i) => {
                self.slots[i] = Some(v);
                proof {
                    assert(self@ =~= spec_insert(old(self)@, v).0);
                }
                i
            },
            None => {
                let i = self.slots.len();
                self.slots.push(Some(v));
                i
            },
        }
    }

    /// Free a slot; a no-op if the slot is out of range or already freed.
    /// O(1): no other entry moves or is renumbered.
    pub fn remove(&mut self, slot: usize)
        requires
            old(self)@.wf(),
        ensures
            final(self)@ == spec_remove(old(self)@, slot as int),
            final(self)@.wf(),
    {
        if slot < self.slots.len() {
            let live = self.slots[slot].is_some();
            if live {
                proof {
                    lemma_remove_live(self@, slot as int);
                }
                self.slots[slot] = None;
                self.retired.push(slot);
                proof {
                    assert(self@ =~= spec_remove(old(self)@, slot as int));
                }
            }
        }
    }

    /// Read the handle at a slot, if the slot exists and is live.
    pub fn get(&self, slot: usize) -> (r: Option<T>) where T: Copy
        ensures
            r == spec_get(self@, slot as int),
    {
        if slot < self.slots.len() {
            self.slots[slot]
        } else {
            None
        }
    }

    /// Restartable iteration: the first live slot at or after `start`, or
    /// `None` when no live slot remains. Iterating from each answer plus one
    /// visits every live slot exactly once and never yields a freed one.
    pub fn next_live(&self, start: usize) -> (r: Option<usize>)
        ensures
            match r {
                Some(i) => start <= i < self@.slots.len() && self@.slots[i as int] is Some
                    && forall|j: int| start <= j < i ==> self@.slots[j] is None,
                None => forall|j: int| start <= j < self@.slots.len() ==> self@.slots[j] is None,
            },
    {
        let mut i = start;
        while i < self.slots.len()
            invariant
                start <= i,
                forall|j: int| start <= j < i ==> self@.slots[j] is None,
            decreases self@.slots.len() - i,
        {
            if self.slots[i].is_some() {
                return Some(i);
            }
            i = i + 1;
        }
        None
    }
}

} // verus!
