use vstd::prelude::*;

verus! {

/// One storage cell of an `IDBasedVec`: a generation counter (`iteration`)
/// and an optional payload. The counter advances whenever the payload is
/// stored or cleared, so identifiers minted for an earlier occupancy of the
/// cell can be told apart from the current one.
#[derive(Clone, Debug)]
pub struct Slot<T> {
    pub iteration: usize,
    pub item: Option<T>,
}

/// The generation counter after one transition: it advances by one, except
/// at the top of its range, where it stays put. A slot whose counter has
/// reached the top is never handed out again by `IDBasedVec::push`, so
/// generations of live identifiers are never reused.
pub open spec fn advance(i: usize) -> usize {
    if i < usize::MAX {
        (i + 1) as usize
    } else {
        i
    }
}

impl<T> Slot<T> {
    pub fn new() -> (s: Slot<T>)
        ensures
            s.iteration == 0,
            s.item is None,
    {
        Slot { iteration: 0, item: None }
    }

    /// Stores `item`, returning the previous payload; the generation advances.
    pub fn put(&mut self, item: Option<T>) -> (prev: Option<T>)
        ensures
            final(self).iteration == advance(old(self).iteration),
            final(self).item == item,
            prev == old(self).item,
    {
        if self.iteration < usize::MAX {
            self.iteration = self.iteration + 1;
        }
        let mut tmp = item;
        core::mem::swap(&mut self.item, &mut tmp);
        tmp
    }

    pub fn is_some(&self) -> (r: bool)
        ensures
            r == (self.item is Some),
    {
        self.item.is_some()
    }

    pub fn is_none(&self) -> (r: bool)
        ensures
            r == (self.item is None),
    {
        self.item.is_none()
    }
}

/// A stable handle into an `IDBasedVec`: the index of a slot together with
/// the generation the slot had when the handle was minted.
#[derive(Clone, Copy, Debug, PartialEq, Eq, Structural)]
pub struct Identifier {
    pub iteration: usize,
    pub vec_id: usize,
}

impl Identifier {
    pub fn new(iteration: usize, vec_id: usize) -> (id: Identifier)
        ensures
            id.iteration == iteration,
            id.vec_id == vec_id,
    {
        Identifier { iteration, vec_id }
    }

    pub fn iteration(&self) -> (r: usize)
        ensures
            r == self.iteration,
    {
        self.iteration
    }

    pub fn slot(&self) -> (r: usize)
        ensures
            r == self.vec_id,
    {
        self.vec_id
    }
}

/// A growable store of slots that hands out a stable `Identifier` for each
/// inserted value. Removing a value frees its slot for reuse, but the
/// generation counter makes every handle minted for an earlier occupancy
/// invalid forever.
#[derive(Clone, Debug)]
pub struct IDBasedVec<T> {
    data: Vec<Slot<T>>,
}

/// The first slot at or after `i` that is free for a new value: its payload
/// is empty and its generation counter has room to advance. If there is
/// none, this is the sequence's length (a new slot will be appended).
pub open spec fn spec_free_slot_from<T>(s: Seq<Slot<T>>, i: int) -> int
    decreases s.len() - i,
{
    if i < 0 || i >= s.len() {
        s.len() as int
    } else if s[i].item is None && s[i].iteration < usize::MAX {
        i
    } else {
        spec_free_slot_from(s, i + 1)
    }
}

/// The first free slot lies between `i` and the sequence's end.
pub proof fn lemma_free_slot_range<T>(s: Seq<Slot<T>>, i: int)
    requires
        0 <= i <= s.len(),
    ensures
        i <= spec_free_slot_from(s, i) <= s.len(),
    decreases s.len() - i,
{
    if i < s.len() && !(s[i].item is None && s[i].iteration < usize::MAX) {
        lemma_free_slot_range(s, i + 1);
    }
}

/// The slot sequence after pushing one value: the first free slot (or a
/// fresh one appended at the end) receives the value, with its generation
/// advanced.
pub open spec fn spec_push<T>(s: Seq<Slot<T>>, value: T) -> Seq<Slot<T>> {
    let f = spec_free_slot_from(s, 0);
    if f == s.len() {
        s.push(Slot { iteration: 1, item: Some(value) })
    } else {
        s.update(f, Slot { iteration: advance(s[f].iteration), item: Some(value) })
    }
}

/// The identifier minted by pushing one value onto `s`.
pub open spec fn spec_push_id<T>(s: Seq<Slot<T>>) -> Identifier {
    let f = spec_free_slot_from(s, 0);
    if f == s.len() {
        Identifier { iteration: 1, vec_id: f as usize }
    } else {
        Identifier { iteration: advance(s[f].iteration), vec_id: f as usize }
    }
}

/// The slot sequence after pushing each value of `values` in order.
pub open spec fn spec_push_all<T>(s: Seq<Slot<T>>, values: Seq<T>) -> Seq<Slot<T>>
    decreases values.len(),
{
    if values.len() == 0 {
        s
    } else {
        spec_push_all(spec_push(s, values[0]), values.drop_first())
    }
}

/// The identifiers minted by pushing each value of `values` in order.
pub open spec fn spec_push_ids<T>(s: Seq<Slot<T>>, values: Seq<T>) -> Seq<Identifier>
    decreases values.len(),
{
    if values.len() == 0 {
        Seq::empty()
    } else {
        seq![spec_push_id::<T>(s)] + spec_push_ids(spec_push(s, values[0]), values.drop_first())
    }
}

/// Pushing a value never disturbs a slot that is occupied: every owned
/// identifier stays owned, its payload unchanged.
pub proof fn lemma_push_preserves_owned<T>(s: Seq<Slot<T>>, id: Identifier, v: T)
    requires
        id.vec_id < s.len(),
        s[id.vec_id as int].item is Some,
    ensures
        spec_push(s, v)[id.vec_id as int] == s[id.vec_id as int],
        spec_push(s, v).len() >= s.len(),
{
    let f = spec_free_slot_from(s, 0);
    lemma_free_slot_range(s, 0);
    if f < s.len() {
        lemma_free_slot_is_free(s, 0);
        assert(f != id.vec_id);
    }
}

impl<T> IDBasedVec<T> {
    /// The mathematical model of the store: its slots, in order.
    pub closed spec fn slots(&self) -> Seq<Slot<T>> {
        self.data@
    }

    /// An identifier is owned exactly when its slot exists, is occupied,
    /// and still carries the generation recorded in the identifier.
    pub open spec fn spec_owns(&self, id: Identifier) -> bool {
        &&& id.vec_id < self.slots().len()
        &&& self.slots()[id.vec_id as int].iteration == id.iteration
        &&& self.slots()[id.vec_id as int].item is Some
    }

    pub fn new() -> (v: IDBasedVec<T>)
        ensures
            v.slots() == Seq::<Slot<T>>::empty(),
    {
        IDBasedVec { data: Vec::new() }
    }

    /// Stores `value` in the first free slot (or a fresh one) and returns a
    /// stable identifier for it.
    pub fn push(&mut self, value: T) -> (id: Identifier)
        ensures
            final(self).slots() == spec_push(old(self).slots(), value),
            id == spec_push_id::<T>(old(self).slots()),
            id.vec_id as int == spec_free_slot_from(old(self).slots(), 0),
            final(self).slots()[id.vec_id as int].item == Some(value),
            final(self).spec_owns(id),
    {
        let slot_id = self.get_free_slot();
        let _ = self.put(slot_id, Some(value));
        let id = Identifier::new(self.slot_iteration_or_zero(slot_id), slot_id);
        proof {
            assert(self.slots() =~= spec_push(old(self).slots(), value));
        }
        id
    }

    /// Pushes every value in order, returning the identifiers in the same
    /// order.
    pub fn push_mul(&mut self, values: Vec<T>) -> (ids: Vec<Identifier>)
        ensures
            final(self).slots() == spec_push_all(old(self).slots(), values@),
            ids@ == spec_push_ids(old(self).slots(), values@),
            ids@.len() == values@.len(),
            forall|k: int|
                #![trigger ids@[k]]
                0 <= k < values@.len() ==> spec_slots_owns(final(self).slots(), ids@[k])
                    && final(self).slots()[ids@[k].vec_id as int].item == Some(values@[k]),
    {
        let mut values = values;
        let ghost all = values@;
        let mut ids: Vec<Identifier> = Vec::new();
        assert(all.skip(0) =~= all);
        proof {
            lemma_spec_push_ids_len(old(self).slots(), all);
        }
        while values.len() > 0
            invariant
                values@ == all.skip(ids@.len() as int),
                ids@.len() <= all.len(),
                self.slots() == spec_push_all(old(self).slots(), all.take(ids@.len() as int)),
                ids@ == spec_push_ids(old(self).slots(), all).take(ids@.len() as int),
                spec_push_ids(old(self).slots(), all).len() == all.len(),
                forall|k: int|
                    #![trigger ids@[k]]
                    0 <= k < ids@.len() ==> spec_slots_owns(self.slots(), ids@[k])
                        && self.slots()[ids@[k].vec_id as int].item == Some(all[k]),
            decreases values.len(),
        {
            let ghost prev_done = all.take(ids@.len() as int);
            let ghost prev_ids = ids@;
            let ghost prev_slots = self.slots();
            let v = values.remove(0);
            assert(v == all[ids@.len() as int]);
            let id = self.push(v);
            ids.push(id);
            proof {
                let done = all.take(ids@.len() as int);
                assert(done.drop_last() =~= prev_done);
                assert(done.last() == v);
                lemma_spec_push_all_snoc(old(self).slots(), done);
                lemma_spec_push_ids_at(old(self).slots(), all, prev_ids.len() as int);
                assert(ids@ =~= spec_push_ids(old(self).slots(), all).take(ids@.len() as int));
                assert forall|k: int|
                    #![trigger ids@[k]]
                    0 <= k < ids@.len() implies spec_slots_owns(self.slots(), ids@[k])
                    && self.slots()[ids@[k].vec_id as int].item == Some(all[k]) by {
                    if k < prev_ids.len() {
                        assert(ids@[k] == prev_ids[k]);
                        lemma_push_preserves_owned(prev_slots, prev_ids[k], v);
                    }
                }
                assert(values@ =~= all.skip(ids@.len() as int));
            }
        }
        proof {
            assert(all.take(ids@.len() as int) =~= all);
            assert(spec_push_ids(old(self).slots(), all).take(ids@.len() as int)
                =~= spec_push_ids(old(self).slots(), all));
        }
        ids
    }

    pub fn get(&self, id: Identifier) -> (r: Option<&T>)
        ensures
            match r {
                Some(v) => self.spec_owns(id) && Some(*v) == self.slots()[id.vec_id as int].item,
                None => !self.spec_owns(id),
            },
    {
        if self.owns_item(id) {
            self.data[id.vec_id].item.as_ref()
        } else {
            None
        }
    }

    /// Looks up many identifiers, keeping the payloads of the owned ones in
    /// order.
    pub fn get_mul(&self, ids: &Vec<Identifier>) -> (r: Vec<&T>)
        ensures
            deref_views(r@) == spec_got(self.slots(), ids@),
    {
        let mut r: Vec<&T> = Vec::new();
        let mut i: usize = 0;
        proof {
            assert(ids@.take(0) =~= Seq::<Identifier>::empty());
        }
        while i < ids.len()
            invariant
                i <= ids@.len(),
                deref_views(r@) == spec_got(self.slots(), ids@.take(i as int)),
            decreases ids@.len() - i,
        {
            let ghost prev = r@;
            match self.get(ids[i]) {
                Some(v) => { r.push(v); },
                None => {},
            }
            i = i + 1;
            proof {
                let cur = ids@.take(i as int);
                assert(cur.drop_last() =~= ids@.take(i - 1));
                assert(cur.last() == ids@[i - 1]);
                assert(deref_views(r@) =~= spec_got(self.slots(), cur));
            }
        }
        proof {
            assert(ids@.take(ids@.len() as int) =~= ids@);
        }
        r
    }

    /// A mutable borrow of the payload of an owned identifier; the
    /// generation does not change, so the identifier stays valid.
    pub fn get_mut(&mut self, id: Identifier) -> (r: Option<&mut T>)
        ensures
            old(self).spec_owns(id) ==> {
                &&& r is Some
                &&& *r.unwrap() == old(self).slots()[id.vec_id as int].item->Some_0
                &&& final(self).slots() == old(self).slots().update(
                    id.vec_id as int,
                    (Slot { iteration: id.iteration, item: Some(*final(r.unwrap())) }),
                )
            },
            !old(self).spec_owns(id) ==> r is None && *final(self) == *old(self),
    {
        if self.owns_item(id) {
            let slot = &mut self.data[id.vec_id];
            slot.item.as_mut()
        } else {
            None
        }
    }

    /// Replaces the payload of an owned identifier in place; the generation
    /// does not change, so the identifier stays valid.
    pub fn replace_item(&mut self, id: Identifier, value: T) -> (r: bool)
        ensures
            r == old(self).spec_owns(id),
            old(self).spec_owns(id) ==> final(self).slots() == old(self).slots().update(
                id.vec_id as int,
                (Slot { iteration: id.iteration, item: Some(value) }),
            ),
            !old(self).spec_owns(id) ==> *final(self) == *old(self),
    {
        if self.owns_item(id) {
            let it = self.data[id.vec_id].iteration;
            self.data.set(id.vec_id, Slot { iteration: it, item: Some(value) });
            true
        } else {
            false
        }
    }

    /// Every owned identifier whose payload satisfies the predicate, in
    /// ascending slot order. The enumeration order is deterministic: callers
    /// rely on it for positional sorting.
    pub fn find_elements<F: Fn(&T) -> bool>(&self, f: F) -> (r: Vec<Identifier>)
        requires
            forall|t: &T| #[trigger] f.requires((t,)),
        ensures
            forall|k: int|
                #![trigger r@[k]]
                0 <= k < r@.len() ==> self.spec_owns(r@[k]) && f.ensures(
                    (&self.slots()[r@[k].vec_id as int].item->Some_0,),
                    true,
                ),
            forall|k1: int, k2: int|
                0 <= k1 < k2 < r@.len() ==> r@[k1].vec_id < r@[k2].vec_id,
            forall|j: int|
                0 <= j < self.slots().len() && self.slots()[j].item is Some && !(exists|k: int|
                    0 <= k < r@.len() && r@[k].vec_id == j) ==> f.ensures(
                    (&self.slots()[j].item->Some_0,),
                    false,
                ),
    {
        let mut r: Vec<Identifier> = Vec::new();
        let mut j: usize = 0;
        while j < self.data.len()
            invariant
                j <= self.slots().len(),
                forall|t: &T| #[trigger] f.requires((t,)),
                forall|k: int|
                    #![trigger r@[k]]
                    0 <= k < r@.len() ==> self.spec_owns(r@[k]) && r@[k].vec_id < j && f.ensures(
                        (&self.slots()[r@[k].vec_id as int].item->Some_0,),
                        true,
                    ),
                forall|k1: int, k2: int|
                    0 <= k1 < k2 < r@.len() ==> r@[k1].vec_id < r@[k2].vec_id,
                forall|i: int|
                    0 <= i < j && self.slots()[i].item is Some && !(exists|k: int|
                        0 <= k < r@.len() && r@[k].vec_id == i) ==> f.ensures(
                        (&self.slots()[i].item->Some_0,),
                        false,
                    ),
            decreases self.slots().len() - j,
        {
            let ghost prev_r = r@;
            match self.data[j].item.as_ref() {
                Some(v) => {
                    let keep = f(v);
                    proof {
                        assert(*v == self.slots()[j as int].item->Some_0);
                    }
                    if keep {
                        let it = self.data[j].iteration;
                        r.push(Identifier::new(it, j));
                        proof {
                            assert(r@[r@.len() - 1].vec_id == j);
                            assert forall|i: int|
                                0 <= i < j + 1 && self.slots()[i].item is Some && !(exists|k: int|
                                    0 <= k < r@.len() && r@[k].vec_id == i) implies f.ensures(
                                (&self.slots()[i].item->Some_0,),
                                false,
                            ) by {
                                assert(i < j);
                                assert forall|k: int| 0 <= k < prev_r.len() implies prev_r[k].vec_id
                                    != i by {
                                    assert(r@[k] == prev_r[k]);
                                }
                            }
                        }
                    } else {
                        proof {
                            assert(f.ensures((&self.slots()[j as int].item->Some_0,), false));
                        }
                    }
                },
                None => {},
            }
            j = j + 1;
        }
        r
    }

    /// Every owned identifier, in ascending slot order.
    pub fn current_elements(&self) -> (r: Vec<Identifier>)
        ensures
            r@ == spec_current_ids(self.slots()),
            forall|k: int| #![trigger r@[k]] 0 <= k < r@.len() ==> self.spec_owns(r@[k]),
            forall|k1: int, k2: int|
                0 <= k1 < k2 < r@.len() ==> r@[k1].vec_id < r@[k2].vec_id,
            forall|j: int|
                0 <= j < self.slots().len() && self.slots()[j].item is Some ==> exists|k: int|
                    0 <= k < r@.len() && r@[k].vec_id == j,
    {
        let mut r: Vec<Identifier> = Vec::new();
        let mut j: usize = 0;
        proof {
            assert(self.slots().take(0) =~= Seq::<Slot<T>>::empty());
        }
        while j < self.data.len()
            invariant
                j <= self.slots().len(),
                r@ == spec_current_ids(self.slots().take(j as int)),
                forall|k: int|
                    #![trigger r@[k]]
                    0 <= k < r@.len() ==> self.spec_owns(r@[k]) && r@[k].vec_id < j,
                forall|k1: int, k2: int|
                    0 <= k1 < k2 < r@.len() ==> r@[k1].vec_id < r@[k2].vec_id,
                forall|i: int|
                    0 <= i < j && self.slots()[i].item is Some ==> exists|k: int|
                        0 <= k < r@.len() && r@[k].vec_id == i,
            decreases self.slots().len() - j,
        {
            let ghost prev_r = r@;
            if self.data[j].item.is_some() {
                let it = self.data[j].iteration;
                r.push(Identifier::new(it, j));
                proof {
                    assert(r@ == prev_r.push(Identifier { iteration: it, vec_id: j }));
                    assert(r@[r@.len() - 1].vec_id == j);
                }
            }
            proof {
                let cur = self.slots().take(j + 1);
                assert(cur.drop_last() =~= self.slots().take(j as int));
                assert(cur.last() == self.slots()[j as int]);
                assert(r@ =~= spec_current_ids(cur));
            }
            proof {
                assert forall|i: int|
                    0 <= i < j + 1 && self.slots()[i].item is Some implies exists|k: int|
                    0 <= k < r@.len() && r@[k].vec_id == i by {
                    if i < j {
                        let k0 = choose|k: int| 0 <= k < prev_r.len() && prev_r[k].vec_id == i;
                        assert(r@[k0].vec_id == i);
                    } else {
                        assert(r@[r@.len() - 1].vec_id == i);
                    }
                }
                assert forall|k: int| 0 <= k < r@.len() implies #[trigger] self.spec_owns(r@[k])
                    && r@[k].vec_id < j + 1 by {
                    if k < prev_r.len() {
                        assert(r@[k] == prev_r[k]);
                        assert(self.spec_owns(prev_r[k]));
                    }
                }
                assert forall|k1: int, k2: int| 0 <= k1 < k2 < r@.len() implies r@[k1].vec_id
                    < r@[k2].vec_id by {
                    if k2 < prev_r.len() {
                        assert(r@[k1] == prev_r[k1] && r@[k2] == prev_r[k2]);
                    } else if k1 < prev_r.len() {
                        assert(r@[k1] == prev_r[k1]);
                        assert(self.spec_owns(prev_r[k1]) && prev_r[k1].vec_id < j);
                    }
                }
            }
            j = j + 1;
        }
        proof {
            assert(self.slots().take(self.slots().len() as int) =~= self.slots());
        }
        r
    }

    /// Removes and returns the payload of an owned identifier; the slot
    /// becomes free with its generation advanced, so the identifier is
    /// invalid from now on.
    pub fn extract(&mut self, id: Identifier) -> (r: Option<T>)
        ensures
            old(self).spec_owns(id) ==> {
                &&& r == old(self).slots()[id.vec_id as int].item
                &&& final(self).slots() == old(self).slots().update(
                    id.vec_id as int,
                    (Slot { iteration: advance(id.iteration), item: None }),
                )
            },
            !old(self).spec_owns(id) ==> r is None && *final(self) == *old(self),
    {
        if self.owns_item(id) {
            self.put(id.vec_id, None)
        } else {
            None
        }
    }

    /// Extracts every given identifier in order, keeping the payloads of
    /// the owned ones.
    pub fn extract_mul(&mut self, ids: &Vec<Identifier>) -> (r: Vec<T>)
        ensures
            final(self).slots() == spec_extract_all(old(self).slots(), ids@),
            r@ == spec_extracted_upto(old(self).slots(), ids@, ids@.len() as int),
    {
        let mut r: Vec<T> = Vec::new();
        let mut i: usize = 0;
        while i < ids.len()
            invariant
                i <= ids@.len(),
                r@ == spec_extracted_upto(old(self).slots(), ids@, i as int),
                self.slots() == spec_extract_all_upto(old(self).slots(), ids@, i as int),
            decreases ids@.len() - i,
        {
            proof {
                lemma_spec_extract_all_upto_step(old(self).slots(), ids@, i as int);
            }
            match self.extract(ids[i]) {
                Some(v) => { r.push(v); },
                None => {},
            }
            i = i + 1;
        }
        proof {
            lemma_spec_extract_all_is_upto(old(self).slots(), ids@, ids@.len() as int);
            assert(ids@.take(ids@.len() as int) =~= ids@);
        }
        r
    }

    pub fn owns_item(&self, id: Identifier) -> (r: bool)
        ensures
            r == self.spec_owns(id),
    {
        id.vec_id < self.data.len() && id.iteration == self.data[id.vec_id].iteration
            && self.data[id.vec_id].is_some()
    }

    /// The identifier currently associated with a slot index, if the slot
    /// exists (whether or not it is occupied).
    pub fn get_id_by_slot(&self, slot: usize) -> (r: Option<Identifier>)
        ensures
            match r {
                Some(id) => slot < self.slots().len() && id.vec_id == slot && id.iteration
                    == self.slots()[slot as int].iteration,
                None => slot >= self.slots().len(),
            },
    {
        match self.get_slot(slot) {
            Some(slot_ref) => Some(Identifier::new(slot_ref.iteration, slot)),
            None => None,
        }
    }

    pub fn get_slot(&self, slot: usize) -> (r: Option<&Slot<T>>)
        ensures
            match r {
                Some(s) => slot < self.slots().len() && *s == self.slots()[slot as int],
                None => slot >= self.slots().len(),
            },
    {
        if slot >= self.data.len() {
            return None;
        }
        Some(&self.data[slot])
    }

    /// A borrowing walk over the stored values, in ascending slot order.
    pub fn iter(&self) -> (r: VecRefIter<'_, T>)
        ensures
            r.spec_slot() == 0,
            r.spec_slots() == self.slots(),
    {
        VecRefIter { slot: 0, vec: self }
    }

    /// A mutable borrow of a slot itself; a caller that stores or clears a
    /// payload through it advances the generation by `Slot::put`'s own
    /// contract.
    pub fn get_slot_mut(&mut self, slot: usize) -> (r: Option<&mut Slot<T>>)
        ensures
            slot < old(self).slots().len() ==> {
                &&& r is Some
                &&& *r.unwrap() == old(self).slots()[slot as int]
                &&& final(self).slots() == old(self).slots().update(
                    slot as int,
                    *final(r.unwrap()),
                )
            },
            slot >= old(self).slots().len() ==> r is None && *final(self) == *old(self),
    {
        if slot >= self.data.len() {
            return None;
        }
        Some(&mut self.data[slot])
    }

    pub fn slots_count(&self) -> (r: usize)
        ensures
            r == self.slots().len(),
    {
        self.data.len()
    }

    /// True when no slot holds a value.
    pub fn empty(&self) -> (r: bool)
        ensures
            r == (forall|j: int| 0 <= j < self.slots().len() ==> self.slots()[j].item is None),
    {
        let mut j: usize = 0;
        while j < self.data.len()
            invariant
                j <= self.slots().len(),
                forall|i: int| 0 <= i < j ==> self.slots()[i].item is None,
            decreases self.slots().len() - j,
        {
            if self.data[j].item.is_some() {
                return false;
            }
            j = j + 1;
        }
        true
    }

    /// Drains every payload, in ascending slot order; the store keeps its
    /// slots, all freed with advanced generations.
    pub fn drain_items(&mut self) -> (r: Vec<T>)
        ensures
            r@ == spec_items(old(self).slots()),
            final(self).slots().len() == old(self).slots().len(),
            forall|j: int|
                0 <= j < final(self).slots().len() ==> final(self).slots()[j].item is None,
    {
        let mut r: Vec<T> = Vec::new();
        let mut j: usize = 0;
        while j < self.data.len()
            invariant
                j <= self.slots().len(),
                self.slots().len() == old(self).slots().len(),
                forall|i: int| j <= i < self.slots().len() ==> self.slots()[i] == old(
                    self,
                ).slots()[i],
                forall|i: int| 0 <= i < j ==> self.slots()[i].item is None,
                r@ == spec_items(old(self).slots().take(j as int)),
            decreases self.slots().len() - j,
        {
            let ghost prev = old(self).slots().take(j as int);
            let s = &mut self.data[j];
            let v = s.put(None);
            match v {
                Some(v) => { r.push(v); },
                None => {},
            }
            j = j + 1;
            proof {
                let cur = old(self).slots().take(j as int);
                assert(cur.drop_last() == prev);
                lemma_spec_items_snoc(cur);
            }
        }
        proof {
            assert(old(self).slots().take(self.slots().len() as int) == old(self).slots());
        }
        r
    }

    fn put(&mut self, slot: usize, item: Option<T>) -> (r: Option<T>)
        ensures
            slot < old(self).slots().len() ==> {
                &&& r == old(self).slots()[slot as int].item
                &&& final(self).slots() == old(self).slots().update(
                    slot as int,
                    (Slot {
                        iteration: advance(old(self).slots()[slot as int].iteration),
                        item: item,
                    }),
                )
            },
            slot >= old(self).slots().len() ==> r is None && *final(self) == *old(self),
    {
        if slot >= self.data.len() {
            return None;
        }
        let s = &mut self.data[slot];
        s.put(item)
    }

    fn slot_iteration_or_zero(&self, slot: usize) -> (r: usize)
        ensures
            slot < self.slots().len() ==> r == self.slots()[slot as int].iteration,
            slot >= self.slots().len() ==> r == 0,
    {
        if slot >= self.data.len() {
            return 0;
        }
        self.data[slot].iteration
    }

    fn get_free_slot(&mut self) -> (r: usize)
        ensures
            final(self).slots().len() == if spec_free_slot_from(old(self).slots(), 0) == old(
                self,
            ).slots().len() {
                old(self).slots().len() + 1
            } else {
                old(self).slots().len()
            },
            r == spec_free_slot_from(old(self).slots(), 0),
            forall|j: int| 0 <= j < old(self).slots().len() ==> final(self).slots()[j] == old(
                self,
            ).slots()[j],
            r < final(self).slots().len(),
            final(self).slots()[r as int].item is None,
            final(self).slots()[r as int].iteration < usize::MAX,
            r == old(self).slots().len() ==> final(self).slots()[r as int].iteration == 0,
    {
        let mut i: usize = 0;
        while i < self.data.len()
            invariant
                i <= self.slots().len(),
                spec_free_slot_from(self.slots(), 0) == spec_free_slot_from(
                    self.slots(),
                    i as int,
                ),
            decreases self.slots().len() - i,
        {
            if self.data[i].item.is_none() && self.data[i].iteration < usize::MAX {
                return i;
            }
            i = i + 1;
        }
        self.data.push(Slot::new());
        self.data.len() - 1
    }
}

/// The first occupied slot at or after `i`, if any.
pub open spec fn spec_next_occupied<T>(s: Seq<Slot<T>>, i: int) -> Option<int>
    decreases s.len() - i,
{
    if i < 0 || i >= s.len() {
        None
    } else if s[i].item is Some {
        Some(i)
    } else {
        spec_next_occupied(s, i + 1)
    }
}

/// A draining walk over a store: values come out in ascending slot order,
/// each freeing its slot. Stepped with an explicit `next` method.
#[derive(Debug)]
pub struct VecIter<T> {
    slot: usize,
    vec: IDBasedVec<T>,
}

impl<T> VecIter<T> {
    pub closed spec fn spec_slot(&self) -> usize {
        self.slot
    }

    pub closed spec fn spec_slots(&self) -> Seq<Slot<T>> {
        self.vec.slots()
    }

    /// Starts a draining walk.
    pub fn new(vec: IDBasedVec<T>) -> (r: VecIter<T>)
        ensures
            r.spec_slot() == 0,
            r.spec_slots() == vec.slots(),
    {
        VecIter { slot: 0, vec }
    }

    /// The same walk, naming each slot as it is drained.
    pub fn enumerate_slots(self) -> (r: VecIterSlotted<T>)
        ensures
            r.spec_slot() == self.spec_slot(),
            r.spec_slots() == self.spec_slots(),
    {
        VecIterSlotted { slot: self.slot, vec: self.vec }
    }

    /// The next stored value, its slot freed.
    pub fn next(&mut self) -> (r: Option<T>)
        ensures
            (match spec_next_occupied(old(self).spec_slots(), old(self).spec_slot() as int) {
                Some(j) => {
                    &&& r == old(self).spec_slots()[j].item
                    &&& final(self).spec_slot() == j + 1
                    &&& final(self).spec_slots() == old(self).spec_slots().update(
                        j,
                        (Slot { iteration: advance(old(self).spec_slots()[j].iteration), item: None }),
                    )
                },
                None => r is None && final(self).spec_slot() == old(self).spec_slot()
                    && final(self).spec_slots() == old(self).spec_slots(),
            }),
    {
        let n = self.vec.slots_count();
        let mut j = self.slot;
        while j < n
            invariant
                n == self.spec_slots().len(),
                *self == *old(self),
                self.spec_slot() <= j,
                spec_next_occupied(self.spec_slots(), self.spec_slot() as int)
                    == spec_next_occupied(self.spec_slots(), j as int),
            decreases n - j,
        {
            let occupied = match self.vec.get_slot(j) {
                Some(s) => s.item.is_some(),
                None => false,
            };
            if occupied {
                let id = match self.vec.get_id_by_slot(j) {
                    Some(id) => id,
                    None => Identifier::new(0, 0),
                };
                let r = self.vec.extract(id);
                self.slot = j + 1;
                return r;
            }
            j = j + 1;
        }
        None
    }
}

/// A draining walk that also names each slot: values come out in ascending
/// slot order as `(slot index, value)` pairs.
#[derive(Debug)]
pub struct VecIterSlotted<T> {
    slot: usize,
    vec: IDBasedVec<T>,
}

impl<T> VecIterSlotted<T> {
    pub closed spec fn spec_slot(&self) -> usize {
        self.slot
    }

    pub closed spec fn spec_slots(&self) -> Seq<Slot<T>> {
        self.vec.slots()
    }

    /// The next stored value with its slot index, the slot freed.
    pub fn next(&mut self) -> (r: Option<(usize, T)>)
        ensures
            (match spec_next_occupied(old(self).spec_slots(), old(self).spec_slot() as int) {
                Some(j) => {
                    let p = r->Some_0;
                    &&& r is Some
                    &&& p.0 == j
                    &&& Some(p.1) == old(self).spec_slots()[j].item
                    &&& final(self).spec_slot() == j + 1
                    &&& final(self).spec_slots() == old(self).spec_slots().update(
                        j,
                        (Slot {
                            iteration: advance(old(self).spec_slots()[j].iteration),
                            item: None,
                        }),
                    )
                },
                None => r is None && final(self).spec_slot() == old(self).spec_slot()
                    && final(self).spec_slots() == old(self).spec_slots(),
            }),
    {
        let n = self.vec.slots_count();
        let mut j = self.slot;
        while j < n
            invariant
                n == self.spec_slots().len(),
                *self == *old(self),
                self.spec_slot() <= j,
                spec_next_occupied(self.spec_slots(), self.spec_slot() as int)
                    == spec_next_occupied(self.spec_slots(), j as int),
            decreases n - j,
        {
            let occupied = match self.vec.get_slot(j) {
                Some(s) => s.item.is_some(),
                None => false,
            };
            if occupied {
                let id = match self.vec.get_id_by_slot(j) {
                    Some(id) => id,
                    None => Identifier::new(0, 0),
                };
                let r = self.vec.extract(id);
                self.slot = j + 1;
                return match r {
                    Some(v) => Some((j, v)),
                    None => None,
                };
            }
            j = j + 1;
        }
        None
    }
}

/// A borrowing walk over a store: the stored values are visited in
/// ascending slot order, the store untouched. Stepped with an explicit
/// `next` method.
#[derive(Debug)]
pub struct VecRefIter<'a, T> {
    slot: usize,
    vec: &'a IDBasedVec<T>,
}

impl<'a, T> VecRefIter<'a, T> {
    pub closed spec fn spec_slot(&self) -> usize {
        self.slot
    }

    pub closed spec fn spec_slots(&self) -> Seq<Slot<T>> {
        self.vec.slots()
    }

    /// The same walk, naming each slot as it is visited.
    pub fn enumerate_slots(self) -> (r: VecRefIterSlotted<'a, T>)
        ensures
            r.spec_slot() == self.spec_slot(),
            r.spec_slots() == self.spec_slots(),
    {
        VecRefIterSlotted { slot: self.slot, vec: self.vec }
    }

    /// The next stored value, borrowed.
    pub fn next(&mut self) -> (r: Option<&'a T>)
        ensures
            final(self).spec_slots() == old(self).spec_slots(),
            (match spec_next_occupied(old(self).spec_slots(), old(self).spec_slot() as int) {
                Some(j) => {
                    &&& r is Some
                    &&& Some(*r.unwrap()) == old(self).spec_slots()[j].item
                    &&& final(self).spec_slot() == j + 1
                },
                None => r is None && final(self).spec_slot() == old(self).spec_slot(),
            }),
    {
        let n = self.vec.slots_count();
        let mut j = self.slot;
        while j < n
            invariant
                n == self.spec_slots().len(),
                *self == *old(self),
                self.spec_slot() <= j,
                spec_next_occupied(self.spec_slots(), self.spec_slot() as int)
                    == spec_next_occupied(self.spec_slots(), j as int),
            decreases n - j,
        {
            let found = match self.vec.get_slot(j) {
                Some(s) => s.item.as_ref(),
                None => None,
            };
            match found {
                Some(v) => {
                    self.slot = j + 1;
                    return Some(v);
                },
                None => {},
            }
            j = j + 1;
        }
        None
    }
}

/// The identifiers of the occupied slots, in ascending slot order.
pub open spec fn spec_current_ids<T>(s: Seq<Slot<T>>) -> Seq<Identifier>
    decreases s.len(),
{
    if s.len() == 0 {
        Seq::empty()
    } else {
        spec_current_ids(s.drop_last()) + (if s.last().item is Some {
            seq![Identifier { iteration: s.last().iteration, vec_id: (s.len() - 1) as usize }]
        } else {
            Seq::empty()
        })
    }
}

/// A borrowing walk that also names each slot: `(slot index, value)` pairs
/// in ascending slot order, the store untouched.
#[derive(Debug)]
pub struct VecRefIterSlotted<'a, T> {
    slot: usize,
    vec: &'a IDBasedVec<T>,
}

impl<'a, T> VecRefIterSlotted<'a, T> {
    pub closed spec fn spec_slot(&self) -> usize {
        self.slot
    }

    pub closed spec fn spec_slots(&self) -> Seq<Slot<T>> {
        self.vec.slots()
    }

    /// The next stored value with its slot index, borrowed.
    pub fn next(&mut self) -> (r: Option<(usize, &'a T)>)
        ensures
            final(self).spec_slots() == old(self).spec_slots(),
            (match spec_next_occupied(old(self).spec_slots(), old(self).spec_slot() as int) {
                Some(j) => {
                    let p = r->Some_0;
                    &&& r is Some
                    &&& p.0 == j
                    &&& Some(*p.1) == old(self).spec_slots()[j].item
                    &&& final(self).spec_slot() == j + 1
                },
                None => r is None && final(self).spec_slot() == old(self).spec_slot(),
            }),
    {
        let n = self.vec.slots_count();
        let mut j = self.slot;
        while j < n
            invariant
                n == self.spec_slots().len(),
                *self == *old(self),
                self.spec_slot() <= j,
                spec_next_occupied(self.spec_slots(), self.spec_slot() as int)
                    == spec_next_occupied(self.spec_slots(), j as int),
            decreases n - j,
        {
            let found = match self.vec.get_slot(j) {
                Some(s) => s.item.as_ref(),
                None => None,
            };
            match found {
                Some(v) => {
                    self.slot = j + 1;
                    return Some((j, v));
                },
                None => {},
            }
            j = j + 1;
        }
        None
    }
}

/// Ownership of an identifier, over a plain slot sequence.
pub open spec fn spec_slots_owns<T>(s: Seq<Slot<T>>, id: Identifier) -> bool {
    &&& id.vec_id < s.len()
    &&& s[id.vec_id as int].iteration == id.iteration
    &&& s[id.vec_id as int].item is Some
}

/// Identifier invalidation: push a value (getting one identifier), extract
/// it, and push a new value that lands in the freed slot (getting a second
/// identifier). The first identifier is then disowned and the second owned,
/// although both point at the same slot.
pub proof fn lemma_identifier_invalidation<T>(s0: Seq<Slot<T>>, v1: T, v2: T)
    requires
        s0.len() < usize::MAX,
        ({
            let s1 = spec_push(s0, v1);
            let s2 = spec_extract_one(s1, spec_push_id::<T>(s0));
            spec_push_id::<T>(s2).vec_id == spec_push_id::<T>(s0).vec_id
        }),
    ensures
        ({
            let id1 = spec_push_id::<T>(s0);
            let s1 = spec_push(s0, v1);
            let s2 = spec_extract_one(s1, id1);
            let id2 = spec_push_id::<T>(s2);
            let s3 = spec_push(s2, v2);
            &&& !spec_slots_owns(s3, id1)
            &&& spec_slots_owns(s3, id2)
            &&& id1.vec_id == id2.vec_id
        }),
{
    let id1 = spec_push_id::<T>(s0);
    let s1 = spec_push(s0, v1);
    let s2 = spec_extract_one(s1, id1);
    let id2 = spec_push_id::<T>(s2);
    let s3 = spec_push(s2, v2);
    let f = spec_free_slot_from(s0, 0);
    let f2 = spec_free_slot_from(s2, 0);
    lemma_free_slot_range(s0, 0);
    lemma_free_slot_range(s2, 0);
    assert(id1.vec_id == f);
    assert(s1[f].iteration == id1.iteration && s1[f].item is Some);
    assert(s2 == s1.update(f, Slot { iteration: advance(id1.iteration), item: None }));
    assert(s2[f].iteration == advance(id1.iteration) && s2[f].item is None);
    assert(id2.vec_id == f2 as usize);
    assert(f2 == f);
    assert(f2 < s2.len());
    lemma_free_slot_is_free(s2, 0);
    assert(s2[f].iteration < usize::MAX);
    assert(id2.iteration == advance(s2[f].iteration));
    assert(id1.iteration < id2.iteration);
    assert(s3[f].iteration == id2.iteration && s3[f].item is Some);
}

/// The slot the free-slot search lands on, when within the store, is empty
/// with room in its counter.
pub proof fn lemma_free_slot_is_free<T>(s: Seq<Slot<T>>, i: int)
    requires
        0 <= i,
        spec_free_slot_from(s, i) < s.len(),
    ensures
        s[spec_free_slot_from(s, i)].item is None,
        s[spec_free_slot_from(s, i)].iteration < usize::MAX,
    decreases s.len() - i,
{
    if i < s.len() && !(s[i].item is None && s[i].iteration < usize::MAX) {
        lemma_free_slot_is_free(s, i + 1);
    } else if i >= s.len() {
        lemma_free_slot_range(s, i);
    }
}

/// The values a list of references points at.
pub open spec fn deref_views<T>(v: Seq<&T>) -> Seq<T> {
    v.map(|i: int, x: &T| *x)
}

/// The payloads the owned identifiers name, in the identifiers' order.
pub open spec fn spec_got<T>(s: Seq<Slot<T>>, ids: Seq<Identifier>) -> Seq<T>
    decreases ids.len(),
{
    if ids.len() == 0 {
        Seq::empty()
    } else {
        spec_got(s, ids.drop_last()) + (if spec_slots_owns(s, ids.last()) {
            seq![s[ids.last().vec_id as int].item->Some_0]
        } else {
            Seq::empty()
        })
    }
}

/// The payloads a sequential extraction of the first `n` identifiers hands
/// back: each identifier yields its payload while it is still owned when
/// its turn comes.
pub open spec fn spec_extracted_upto<T>(s: Seq<Slot<T>>, ids: Seq<Identifier>, n: int) -> Seq<T>
    decreases n,
{
    if n <= 0 {
        Seq::empty()
    } else {
        let state = spec_extract_all_upto(s, ids, n - 1);
        spec_extracted_upto(s, ids, n - 1) + (if spec_slots_owns(state, ids[n - 1]) {
            seq![state[ids[n - 1].vec_id as int].item->Some_0]
        } else {
            Seq::empty()
        })
    }
}

/// In a store where every slot is occupied, the walk of current
/// identifiers is slot-by-slot: the `k`-th names slot `k`.
pub proof fn lemma_current_ids_full<T>(s: Seq<Slot<T>>)
    requires
        forall|j: int| #![trigger s[j]] 0 <= j < s.len() ==> s[j].item is Some,
    ensures
        spec_current_ids(s).len() == s.len(),
        forall|k: int|
            #![trigger spec_current_ids(s)[k]]
            0 <= k < s.len() ==> spec_current_ids(s)[k] == (Identifier {
                iteration: s[k].iteration,
                vec_id: k as usize,
            }),
    decreases s.len(),
{
    if s.len() > 0 {
        let sd = s.drop_last();
        assert forall|j: int| #![trigger sd[j]] 0 <= j < sd.len() implies sd[j].item is Some by {
            assert(sd[j] == s[j]);
        }
        lemma_current_ids_full(sd);
        assert forall|k: int|
            #![trigger spec_current_ids(s)[k]]
            0 <= k < s.len() implies spec_current_ids(s)[k] == (Identifier {
            iteration: s[k].iteration,
            vec_id: k as usize,
        }) by {
            if k < s.len() - 1 {
                assert(spec_current_ids(s)[k] == spec_current_ids(sd)[k]);
                assert(sd[k] == s[k]);
            }
        }
    }
}

/// Batch pushes never disturb occupied slots: what is occupied stays as it
/// was, and anything newly occupied holds one of the pushed values.
pub proof fn lemma_push_all_frame<T>(s: Seq<Slot<T>>, vs: Seq<T>)
    ensures
        spec_push_all(s, vs).len() >= s.len(),
        forall|j: int|
            #![trigger spec_push_all(s, vs)[j]]
            0 <= j < s.len() && s[j].item is Some ==> spec_push_all(s, vs)[j] == s[j],
        forall|j: int|
            #![trigger spec_push_all(s, vs)[j]]
            0 <= j < spec_push_all(s, vs).len() && spec_push_all(s, vs)[j].item is Some ==> ((j
                < s.len() && spec_push_all(s, vs)[j] == s[j]) || vs.contains(
                spec_push_all(s, vs)[j].item->Some_0,
            )),
    decreases vs.len(),
{
    if vs.len() > 0 {
        let s1 = spec_push(s, vs[0]);
        let f = spec_free_slot_from(s, 0);
        lemma_free_slot_range(s, 0);
        if f < s.len() {
            lemma_free_slot_is_free(s, 0);
        }
        lemma_push_all_frame(s1, vs.drop_first());
        let out = spec_push_all(s1, vs.drop_first());
        assert(spec_push_all(s, vs) == out);
        assert forall|j: int|
            #![trigger out[j]]
            0 <= j < s.len() && s[j].item is Some implies out[j] == s[j] by {
            assert(s1[j] == s[j]);
        }
        assert forall|j: int|
            #![trigger out[j]]
            0 <= j < out.len() && out[j].item is Some implies ((j < s.len() && out[j] == s[j])
                || vs.contains(out[j].item->Some_0)) by {
            if !(j < s1.len() && out[j] == s1[j]) {
                let i = choose|i: int|
                    0 <= i < vs.drop_first().len() && vs.drop_first()[i] == out[j].item->Some_0;
                assert(vs[i + 1] == out[j].item->Some_0);
            } else {
                if j == f {
                    assert(s1[j].item->Some_0 == vs[0]);
                    assert(vs.contains(vs[0]));
                } else if j < s.len() {
                    assert(s1[j] == s[j]);
                }
            }
        }
    }
}

/// The payloads of the occupied slots, in ascending slot order.
pub open spec fn spec_items<T>(s: Seq<Slot<T>>) -> Seq<T>
    decreases s.len(),
{
    if s.len() == 0 {
        Seq::empty()
    } else {
        match s.last().item {
            Some(v) => spec_items(s.drop_last()).push(v),
            None => spec_items(s.drop_last()),
        }
    }
}

proof fn lemma_spec_items_snoc<T>(s: Seq<Slot<T>>)
    requires
        s.len() > 0,
    ensures
        spec_items(s) == match s.last().item {
            Some(v) => spec_items(s.drop_last()).push(v),
            None => spec_items(s.drop_last()),
        },
{
}

/// The slot sequence after extracting each identifier of `ids` in order.
pub open spec fn spec_extract_one<T>(s: Seq<Slot<T>>, id: Identifier) -> Seq<Slot<T>> {
    if id.vec_id < s.len() && s[id.vec_id as int].iteration == id.iteration && s[id.vec_id
        as int].item is Some {
        s.update(id.vec_id as int, Slot { iteration: advance(id.iteration), item: None })
    } else {
        s
    }
}

pub open spec fn spec_extract_all<T>(s: Seq<Slot<T>>, ids: Seq<Identifier>) -> Seq<Slot<T>>
    decreases ids.len(),
{
    if ids.len() == 0 {
        s
    } else {
        spec_extract_all(spec_extract_one(s, ids[0]), ids.drop_first())
    }
}

/// The slot sequence after extracting only the first `n` identifiers.
pub open spec fn spec_extract_all_upto<T>(s: Seq<Slot<T>>, ids: Seq<Identifier>, n: int) -> Seq<
    Slot<T>,
>
    decreases n,
{
    if n <= 0 {
        s
    } else {
        spec_extract_one(spec_extract_all_upto(s, ids, n - 1), ids[n - 1])
    }
}

proof fn lemma_spec_extract_all_upto_step<T>(s: Seq<Slot<T>>, ids: Seq<Identifier>, i: int)
    requires
        0 <= i < ids.len(),
    ensures
        spec_extract_one(spec_extract_all_upto(s, ids, i), ids[i]) == spec_extract_all_upto(
            s,
            ids,
            i + 1,
        ),
{
}

proof fn lemma_spec_extract_all_is_upto<T>(s: Seq<Slot<T>>, ids: Seq<Identifier>, n: int)
    requires
        0 <= n <= ids.len(),
    ensures
        spec_extract_all_upto(s, ids, n) == spec_extract_all(s, ids.take(n)),
    decreases n,
{
    if n > 0 {
        lemma_spec_extract_all_is_upto(s, ids, n - 1);
        assert(ids.take(n).drop_last() == ids.take(n - 1));
        lemma_spec_extract_all_snoc(s, ids.take(n));
    }
}

proof fn lemma_spec_extract_all_snoc<T>(s: Seq<Slot<T>>, ids: Seq<Identifier>)
    requires
        ids.len() > 0,
    ensures
        spec_extract_all(s, ids) == spec_extract_one(
            spec_extract_all(s, ids.drop_last()),
            ids.last(),
        ),
    decreases ids.len(),
{
    if ids.len() == 1 {
        assert(ids.drop_last() =~= Seq::<Identifier>::empty());
        assert(ids.drop_first() =~= Seq::<Identifier>::empty());
        assert(spec_extract_all(spec_extract_one(s, ids[0]), ids.drop_first())
            == spec_extract_one(s, ids[0]));
        assert(spec_extract_all(s, ids.drop_last()) == s);
    } else {
        lemma_spec_extract_all_snoc(spec_extract_one(s, ids[0]), ids.drop_first());
        assert(ids.drop_first().drop_last() =~= ids.drop_last().drop_first());
        assert(ids.drop_first().last() == ids.last());
        assert(ids.drop_last().len() > 0);
        assert(ids.drop_last()[0] == ids[0]);
        assert(spec_extract_all(s, ids.drop_last()) == spec_extract_all(
            spec_extract_one(s, ids[0]),
            ids.drop_last().drop_first(),
        ));
    }
}

/// A property of every stored payload survives draining: each element of
/// `spec_items(s)` comes from an occupied slot of `s`.
pub proof fn lemma_spec_items_all<T>(s: Seq<Slot<T>>, p: spec_fn(T) -> bool)
    requires
        forall|j: int|
            #![trigger s[j]]
            0 <= j < s.len() && s[j].item is Some ==> p(s[j].item->Some_0),
    ensures
        forall|k: int| #![trigger spec_items(s)[k]] 0 <= k < spec_items(s).len() ==> p(
            spec_items(s)[k],
        ),
    decreases s.len(),
{
    if s.len() > 0 {
        lemma_spec_items_all(s.drop_last(), p);
        assert(s[s.len() - 1] == s.last());
        assert forall|k: int| 0 <= k < spec_items(s).len() implies p(spec_items(s)[k]) by {
            match s.last().item {
                Some(v) => {
                    if k < spec_items(s.drop_last()).len() {
                        assert(spec_items(s)[k] == spec_items(s.drop_last())[k]);
                    } else {
                        assert(spec_items(s)[k] == v);
                    }
                },
                None => {
                    assert(spec_items(s)[k] == spec_items(s.drop_last())[k]);
                },
            }
        }
    }
}

/// A property of every occupied payload is kept by pushing values that also
/// satisfy it.
pub proof fn lemma_spec_push_all_pred<T>(s: Seq<Slot<T>>, values: Seq<T>, p: spec_fn(T) -> bool)
    requires
        forall|j: int|
            #![trigger s[j]]
            0 <= j < s.len() && s[j].item is Some ==> p(s[j].item->Some_0),
        forall|k: int| #![trigger values[k]] 0 <= k < values.len() ==> p(values[k]),
    ensures
        forall|j: int|
            #![trigger spec_push_all(s, values)[j]]
            0 <= j < spec_push_all(s, values).len() && spec_push_all(s, values)[j].item
                is Some ==> p(spec_push_all(s, values)[j].item->Some_0),
    decreases values.len(),
{
    if values.len() > 0 {
        let s1 = spec_push(s, values[0]);
        lemma_free_slot_range(s, 0);
        assert forall|j: int|
            #![trigger s1[j]]
            0 <= j < s1.len() && s1[j].item is Some implies p(s1[j].item->Some_0) by {
            let f = spec_free_slot_from(s, 0);
            if j != f {
                assert(s1[j] == s[j]);
            }
        }
        assert forall|k: int|
            #![trigger values.drop_first()[k]]
            0 <= k < values.drop_first().len() implies p(values.drop_first()[k]) by {
            assert(values.drop_first()[k] == values[k + 1]);
        }
        lemma_spec_push_all_pred(s1, values.drop_first(), p);
    }
}

/// In a store whose slots are all occupied, the first free slot is the end.
pub proof fn lemma_free_slot_all_occupied<T>(s: Seq<Slot<T>>, i: int)
    requires
        0 <= i <= s.len(),
        forall|j: int| #![trigger s[j]] 0 <= j < s.len() ==> s[j].item is Some,
    ensures
        spec_free_slot_from(s, i) == s.len(),
    decreases s.len() - i,
{
    if i < s.len() {
        lemma_free_slot_all_occupied(s, i + 1);
    }
}

/// Pushing values into a store whose slots are all occupied appends them:
/// the stored payloads are the old ones followed by the new ones.
pub proof fn lemma_push_all_into_full<T>(s: Seq<Slot<T>>, vs: Seq<T>)
    requires
        forall|j: int| #![trigger s[j]] 0 <= j < s.len() ==> s[j].item is Some,
    ensures
        spec_items(spec_push_all(s, vs)) == spec_items(s) + vs,
        spec_push_all(s, vs).len() == s.len() + vs.len(),
        forall|j: int|
            #![trigger spec_push_all(s, vs)[j]]
            0 <= j < s.len() ==> spec_push_all(s, vs)[j] == s[j],
        forall|i: int|
            #![trigger vs[i]]
            0 <= i < vs.len() ==> spec_push_all(s, vs)[s.len() + i] == (Slot {
                iteration: 1usize,
                item: Some(vs[i]),
            }),
        forall|j: int|
            #![trigger spec_push_all(s, vs)[j]]
            0 <= j < spec_push_all(s, vs).len() ==> spec_push_all(s, vs)[j].item is Some,
    decreases vs.len(),
{
    if vs.len() == 0 {
        assert(spec_items(s) + vs =~= spec_items(s));
    } else {
        lemma_free_slot_all_occupied(s, 0);
        let s1 = spec_push(s, vs[0]);
        assert(s1 == s.push(Slot { iteration: 1, item: Some(vs[0]) }));
        assert(s1.drop_last() =~= s);
        assert(spec_items(s1) == spec_items(s).push(vs[0]));
        assert forall|j: int| #![trigger s1[j]] 0 <= j < s1.len() implies s1[j].item is Some by {
            if j < s.len() {
                assert(s1[j] == s[j]);
            }
        }
        lemma_push_all_into_full(s1, vs.drop_first());
        assert(spec_items(s) + vs =~= spec_items(s).push(vs[0]) + vs.drop_first());
        assert forall|i: int| #![trigger vs[i]] 0 <= i < vs.len() implies spec_push_all(s, vs)[s.len()
            + i] == (Slot { iteration: 1usize, item: Some(vs[i]) }) by {
            if i == 0 {
                assert(spec_push_all(s1, vs.drop_first())[s.len() as int] == s1[s.len() as int]);
            } else {
                assert(vs.drop_first()[i - 1] == vs[i]);
                assert(spec_push_all(s1, vs.drop_first())[s1.len() + (i - 1)] == (Slot {
                    iteration: 1usize,
                    item: Some(vs.drop_first()[i - 1]),
                }));
            }
        }
    }
}

/// The identifier list of a batch push, element by element: the `k`-th
/// identifier is minted from the store after the first `k` pushes; the list
/// is as long as the batch.
pub proof fn lemma_spec_push_ids_at<T>(s: Seq<Slot<T>>, values: Seq<T>, k: int)
    requires
        0 <= k < values.len(),
    ensures
        spec_push_ids(s, values).len() == values.len(),
        spec_push_ids(s, values)[k] == spec_push_id::<T>(spec_push_all(s, values.take(k))),
    decreases k,
{
    lemma_spec_push_ids_len(s, values);
    if k == 0 {
        assert(values.take(0) =~= Seq::<T>::empty());
    } else {
        let s1 = spec_push(s, values[0]);
        lemma_spec_push_ids_at(s1, values.drop_first(), k - 1);
        assert(spec_push_ids(s, values)[k] == spec_push_ids(s1, values.drop_first())[k - 1]);
        assert(values.drop_first().take(k - 1) =~= values.take(k).drop_first());
        assert(values.take(k)[0] == values[0]);
        assert(spec_push_all(s, values.take(k)) == spec_push_all(
            s1,
            values.take(k).drop_first(),
        ));
    }
}

proof fn lemma_spec_push_ids_len<T>(s: Seq<Slot<T>>, values: Seq<T>)
    ensures
        spec_push_ids(s, values).len() == values.len(),
    decreases values.len(),
{
    if values.len() > 0 {
        lemma_spec_push_ids_len(spec_push(s, values[0]), values.drop_first());
    }
}

proof fn lemma_spec_push_all_snoc<T>(s: Seq<Slot<T>>, values: Seq<T>)
    requires
        values.len() > 0,
    ensures
        spec_push_all(s, values) == spec_push(
            spec_push_all(s, values.drop_last()),
            values.last(),
        ),
    decreases values.len(),
{
    if values.len() == 1 {
        assert(values.drop_last() =~= Seq::<T>::empty());
        assert(values.drop_first() =~= Seq::<T>::empty());
        assert(spec_push_all(spec_push(s, values[0]), values.drop_first()) == spec_push(
            s,
            values[0],
        ));
        assert(spec_push_all(s, values.drop_last()) == s);
    } else {
        lemma_spec_push_all_snoc(spec_push(s, values[0]), values.drop_first());
        assert(values.drop_first().drop_last() =~= values.drop_last().drop_first());
        assert(values.drop_first().last() == values.last());
        assert(values.drop_last().len() > 0);
        assert(values.drop_last()[0] == values[0]);
        assert(spec_push_all(s, values.drop_last()) == spec_push_all(
            spec_push(s, values[0]),
            values.drop_last().drop_first(),
        ));
    }
}

} // verus!
