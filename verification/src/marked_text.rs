use vstd::prelude::*;
use vstd::string::StrSliceExecFns;
use vstd::string::StringExecFns;

use crate::id_based_vec::advance;
use crate::id_based_vec::lemma_free_slot_range;
use crate::id_based_vec::lemma_spec_items_all;
use crate::id_based_vec::spec_free_slot_from;
use crate::id_based_vec::spec_items;
use crate::id_based_vec::spec_push;
use crate::id_based_vec::spec_push_all;
use crate::id_based_vec::IDBasedVec;
use crate::id_based_vec::Identifier;
use crate::id_based_vec::Slot;

verus! {

/// A tagged half-open range `[start, end)` of character positions into an
/// owning document's text. The `flag` is an opaque payload.
#[derive(Debug)]
pub struct Mark<T> {
    pub flag: T,
    pub start: usize,
    pub end: usize,
}

impl<T> Mark<T> {
    pub fn new(flag: T, start: usize, end: usize) -> (m: Mark<T>)
        ensures
            m.flag == flag,
            m.start == start,
            m.end == end,
    {
        Mark { flag, start, end }
    }

    pub fn flag(&self) -> (r: &T)
        ensures
            *r == self.flag,
    {
        &self.flag
    }

    pub fn start(&self) -> (r: usize)
        ensures
            r == self.start,
    {
        self.start
    }

    pub fn end(&self) -> (r: usize)
        ensures
            r == self.end,
    {
        self.end
    }
}

/// A malformed mark request: the range leaves the text, or ends before it
/// starts.
#[derive(Clone, Copy, Debug, PartialEq, Eq, Structural)]
pub enum MarkError {
    InvalidRange,
}

/// True when `m`'s range lies within `[lo, hi]` at both ends: the condition
/// under which a cascade removal takes `m` with it.
pub open spec fn nested_in<T>(m: Mark<T>, lo: int, hi: int) -> bool {
    &&& m.start >= lo
    &&& m.start <= hi
    &&& m.end >= lo
    &&& m.end <= hi
}

/// One endpoint after text at `pivot` grows or shrinks by `delta`:
/// endpoints past the pivot move with the edit. An endpoint that a
/// shrinking edit would carry left of the pivot stops at the pivot: plain
/// addition there would leave the half-open range model (a position below
/// the splice point, or below zero), breaking the documented invariant that
/// every mark keeps `start <= end <= len` across mutating operations. Only
/// a mark partially overlapping the edited span can reach this case; such
/// overlaps have no defined sub-mark meaning, and the pivot is the nearest
/// position that keeps the invariant.
pub open spec fn spec_shift_point(e: int, pivot: int, delta: int) -> int {
    if e > pivot {
        if e + delta < pivot {
            pivot
        } else {
            e + delta
        }
    } else {
        e
    }
}

/// A mark with both endpoints shifted.
pub open spec fn spec_shift_mark<T>(m: Mark<T>, pivot: int, delta: int) -> Mark<T> {
    Mark {
        flag: m.flag,
        start: spec_shift_point(m.start as int, pivot, delta) as usize,
        end: spec_shift_point(m.end as int, pivot, delta) as usize,
    }
}

/// The mark slots after every nested mark (other than the one in
/// `keep_slot`) is removed.
pub open spec fn spec_remove_nested<T>(
    s: Seq<Slot<Mark<T>>>,
    keep_slot: int,
    lo: int,
    hi: int,
) -> Seq<Slot<Mark<T>>> {
    Seq::new(
        s.len(),
        |j: int|
            if j != keep_slot && s[j].item is Some && nested_in(s[j].item->Some_0, lo, hi) {
                Slot { iteration: advance(s[j].iteration), item: None }
            } else {
                s[j]
            },
    )
}

/// The mark slots after every mark is shifted around `pivot` by `delta`.
pub open spec fn spec_shift_all<T>(s: Seq<Slot<Mark<T>>>, pivot: int, delta: int) -> Seq<
    Slot<Mark<T>>,
> {
    Seq::new(
        s.len(),
        |j: int|
            match s[j].item {
                Some(m) => Slot {
                    iteration: s[j].iteration,
                    item: Some(spec_shift_mark(m, pivot, delta)),
                },
                None => s[j],
            },
    )
}

/// The mark slots of a document just before a replacement's own marks are
/// spliced in: nested marks are gone, every other mark is shifted, and the
/// target mark spans exactly where the replacement text will sit.
pub open spec fn spec_replace_base<T>(
    s: Seq<Slot<Mark<T>>>,
    target_slot: int,
    m: Mark<T>,
    rep_len: int,
) -> Seq<Slot<Mark<T>>> {
    let delta = rep_len - (m.end - m.start);
    Seq::new(
        s.len(),
        |j: int|
            if j == target_slot {
                Slot {
                    iteration: s[j].iteration,
                    item: Some(
                        Mark { flag: m.flag, start: m.start, end: (m.start + rep_len) as usize },
                    ),
                }
            } else if s[j].item is Some {
                if nested_in(s[j].item->Some_0, m.start as int, m.end as int) {
                    Slot { iteration: advance(s[j].iteration), item: None }
                } else {
                    Slot {
                        iteration: s[j].iteration,
                        item: Some(spec_shift_mark(s[j].item->Some_0, m.start as int, delta)),
                    }
                }
            } else {
                s[j]
            },
    )
}

/// The marks of a replacement document, rebased so that position zero of the
/// replacement falls at `at` in the host document.
pub open spec fn spec_offset_marks<T>(items: Seq<Mark<T>>, at: int) -> Seq<Mark<T>> {
    items.map(
        |i: int, m: Mark<T>|
            Mark { flag: m.flag, start: (m.start + at) as usize, end: (m.end + at) as usize },
    )
}

/// A string annotated with an arena of byte-range marks. Marks may nest;
/// content replacement rebases every remaining mark automatically.
#[derive(Debug)]
pub struct MarkedText<T> {
    text: String,
    marks: IDBasedVec<Mark<T>>,
}

impl<T> MarkedText<T> {
    /// The document's text, as a sequence of characters.
    pub closed spec fn spec_text(&self) -> Seq<char> {
        self.text@
    }

    /// The document's mark store, slot by slot.
    pub closed spec fn spec_marks(&self) -> Seq<Slot<Mark<T>>> {
        self.marks.slots()
    }

    pub open spec fn spec_owns_mark(&self, id: Identifier) -> bool {
        &&& id.vec_id < self.spec_marks().len()
        &&& self.spec_marks()[id.vec_id as int].iteration == id.iteration
        &&& self.spec_marks()[id.vec_id as int].item is Some
    }

    /// Well-formedness: every mark's range lies within the text and does not
    /// end before it starts.
    pub open spec fn wf(&self) -> bool {
        forall|j: int|
            #![trigger self.spec_marks()[j]]
            0 <= j < self.spec_marks().len() && self.spec_marks()[j].item is Some ==> {
                &&& self.spec_marks()[j].item->Some_0.start <= self.spec_marks()[j].item->Some_0.end
                &&& self.spec_marks()[j].item->Some_0.end <= self.spec_text().len()
            }
    }

    pub fn new(text: String) -> (d: MarkedText<T>)
        ensures
            d.spec_text() == text@,
            d.spec_marks() == Seq::<Slot<Mark<T>>>::empty(),
            d.wf(),
    {
        MarkedText { text, marks: IDBasedVec::new() }
    }

    /// Places a mark over `[start, end)`, unless the range leaves the text
    /// or is turned around: then nothing changes and `InvalidRange` comes
    /// back.
    pub fn set_mark(&mut self, flag: T, start: usize, end: usize) -> (r: Result<
        Identifier,
        MarkError,
    >)
        ensures
            end <= old(self).spec_text().len() && start <= end ==> {
                &&& r is Ok
                &&& final(self).spec_marks() == spec_push(
                    old(self).spec_marks(),
                    (Mark { flag, start, end }),
                )
                &&& final(self).spec_owns_mark(r->Ok_0)
                &&& final(self).spec_marks()[r->Ok_0.vec_id as int].item == Some(
                    Mark { flag, start, end },
                )
            },
            !(end <= old(self).spec_text().len() && start <= end) ==> r == Result::<
                Identifier,
                MarkError,
            >::Err(MarkError::InvalidRange) && final(self).spec_text() == old(self).spec_text()
                && final(self).spec_marks() == old(self).spec_marks(),
            final(self).spec_text() == old(self).spec_text(),
            old(self).wf() ==> final(self).wf(),
    {
        if end > self.text.as_str().unicode_len() {
            return Err(MarkError::InvalidRange);
        }
        if end < start {
            return Err(MarkError::InvalidRange);
        }
        let id = self.marks.push(Mark { flag, start, end });
        proof {
            assert(self.spec_marks() == spec_push(
                old(self).spec_marks(),
                (Mark { flag, start, end }),
            ));
            let f = spec_free_slot_from(old(self).spec_marks(), 0);
            lemma_free_slot_range(old(self).spec_marks(), 0);
            assert(end <= self.spec_text().len());
            if old(self).wf() {
                assert forall|j: int|
                    #![trigger self.spec_marks()[j]]
                    0 <= j < self.spec_marks().len() && self.spec_marks()[j].item
                        is Some implies {
                    &&& self.spec_marks()[j].item->Some_0.start
                        <= self.spec_marks()[j].item->Some_0.end
                    &&& self.spec_marks()[j].item->Some_0.end <= self.spec_text().len()
                } by {
                    if j != f {
                        assert(self.spec_marks()[j] == old(self).spec_marks()[j]);
                    } else {
                        assert(self.spec_marks()[j].item == Some(Mark { flag, start, end }));
                    }
                }
            }
        }
        Ok(id)
    }

    pub fn text(&self) -> (r: &String)
        ensures
            r@ == self.spec_text(),
    {
        &self.text
    }

    pub fn text_mut(&mut self) -> (r: &mut String)
        ensures
            r@ == old(self).spec_text(),
            final(self).spec_text() == final(r)@,
            final(self).spec_marks() == old(self).spec_marks(),
    {
        &mut self.text
    }

    pub fn text_move(self) -> (r: String)
        ensures
            r@ == self.spec_text(),
    {
        self.text
    }

    pub fn marks(&self) -> (r: &IDBasedVec<Mark<T>>)
        ensures
            r.slots() == self.spec_marks(),
    {
        &self.marks
    }

    pub fn marks_mut(&mut self) -> (r: &mut IDBasedVec<Mark<T>>)
        ensures
            r.slots() == old(self).spec_marks(),
            final(self).spec_marks() == final(r).slots(),
            final(self).spec_text() == old(self).spec_text(),
    {
        &mut self.marks
    }

    /// The mark an identifier points at, while it is owned.
    pub fn get_mark(&self, id: Identifier) -> (r: Option<&Mark<T>>)
        ensures
            match r {
                Some(m) => self.spec_owns_mark(id) && Some(*m) == self.spec_marks()[id.vec_id
                    as int].item,
                None => !self.spec_owns_mark(id),
            },
    {
        self.marks.get(id)
    }

    /// Every owned mark identifier whose mark satisfies the predicate, in
    /// ascending slot order.
    pub fn get_marks_by<F: Fn(&Mark<T>) -> bool>(&self, f: F) -> (r: Vec<Identifier>)
        requires
            forall|m: &Mark<T>| #[trigger] f.requires((m,)),
        ensures
            forall|k: int|
                #![trigger r@[k]]
                0 <= k < r@.len() ==> self.spec_owns_mark(r@[k]) && f.ensures(
                    (&self.spec_marks()[r@[k].vec_id as int].item->Some_0,),
                    true,
                ),
            forall|k1: int, k2: int|
                0 <= k1 < k2 < r@.len() ==> r@[k1].vec_id < r@[k2].vec_id,
            forall|j: int|
                0 <= j < self.spec_marks().len() && self.spec_marks()[j].item is Some && !(
                exists|k: int| 0 <= k < r@.len() && r@[k].vec_id == j) ==> f.ensures(
                    (&self.spec_marks()[j].item->Some_0,),
                    false,
                ),
    {
        self.marks.find_elements(f)
    }

    /// Removes a mark; with `remove_sub_marks` set, every mark nested inside
    /// its range goes first.
    pub fn remove_mark(&mut self, mark_id: Identifier, remove_sub_marks: bool)
        ensures
            old(self).spec_owns_mark(mark_id) ==> {
                let lo = old(self).spec_marks()[mark_id.vec_id as int].item->Some_0.start as int;
                let hi = old(self).spec_marks()[mark_id.vec_id as int].item->Some_0.end as int;
                let base = if remove_sub_marks {
                    spec_remove_nested(old(self).spec_marks(), mark_id.vec_id as int, lo, hi)
                } else {
                    old(self).spec_marks()
                };
                final(self).spec_marks() == base.update(
                    mark_id.vec_id as int,
                    (Slot { iteration: advance(mark_id.iteration), item: None }),
                )
            },
            !old(self).spec_owns_mark(mark_id) && remove_sub_marks ==> final(self).spec_marks()
                == old(self).spec_marks(),
            !old(self).spec_owns_mark(mark_id) && !remove_sub_marks ==> final(self).spec_marks()
                == old(self).spec_marks(),
            final(self).spec_text() == old(self).spec_text(),
    {
        if remove_sub_marks {
            self.remove_sub_marks(mark_id);
        }
        let _ = self.extract_mark(mark_id);
        proof {
            if !old(self).spec_owns_mark(mark_id) {
                assert(final(self).spec_marks() =~= old(self).spec_marks());
            }
        }
    }

    /// Removes every mark strictly nested within the given mark's range
    /// (other slots only); without an owned identifier nothing happens.
    pub fn remove_sub_marks(&mut self, main_mark_id: Identifier)
        ensures
            old(self).spec_owns_mark(main_mark_id) ==> final(self).spec_marks()
                == spec_remove_nested(
                old(self).spec_marks(),
                main_mark_id.vec_id as int,
                old(self).spec_marks()[main_mark_id.vec_id as int].item->Some_0.start as int,
                old(self).spec_marks()[main_mark_id.vec_id as int].item->Some_0.end as int,
            ),
            !old(self).spec_owns_mark(main_mark_id) ==> final(self).spec_marks() == old(
                self,
            ).spec_marks(),
            final(self).spec_text() == old(self).spec_text(),
    {
        let main_mark = self.marks.get(main_mark_id);
        if main_mark.is_none() {
            return ;
        }
        let lo = main_mark.unwrap().start;
        let hi = main_mark.unwrap().end;
        let ghost orig = self.spec_marks();
        let mut j: usize = 0;
        while j < self.marks.slots_count()
            invariant
                self.spec_text() == old(self).spec_text(),
                self.spec_marks().len() == orig.len(),
                j <= orig.len(),
                forall|i: int|
                    #![trigger self.spec_marks()[i]]
                    0 <= i < orig.len() ==> self.spec_marks()[i] == (if i < j && i
                        != main_mark_id.vec_id && orig[i].item is Some && nested_in(
                        orig[i].item->Some_0,
                        lo as int,
                        hi as int,
                    ) {
                        Slot { iteration: advance(orig[i].iteration), item: None }
                    } else {
                        orig[i]
                    }),
            decreases orig.len() - j,
        {
            let should_remove = match self.marks.get_slot(j) {
                Some(slot) => match slot.item.as_ref() {
                    Some(m) => j != main_mark_id.slot() && m.start >= lo && m.start <= hi && m.end
                        >= lo && m.end <= hi,
                    None => false,
                },
                None => false,
            };
            if should_remove {
                let id = self.marks.get_id_by_slot(j).unwrap();
                let _ = self.marks.extract(id);
            }
            j = j + 1;
        }
        proof {
            assert(self.spec_marks() =~= spec_remove_nested(
                orig,
                main_mark_id.vec_id as int,
                lo as int,
                hi as int,
            ));
        }
    }

    /// Shifts every mark endpoint past `start` by `shift`, per endpoint: a
    /// mark straddling `start` is resized, not moved. An endpoint that the
    /// shift would carry left of `start` stops there.
    pub fn shift_marks(&mut self, start: usize, shift: isize)
        requires
            shift >= 0 ==> forall|j: int|
                #![trigger old(self).spec_marks()[j]]
                0 <= j < old(self).spec_marks().len() && old(self).spec_marks()[j].item
                    is Some ==> old(self).spec_marks()[j].item->Some_0.end + shift <= usize::MAX
                    && old(self).spec_marks()[j].item->Some_0.start + shift <= usize::MAX,
        ensures
            final(self).spec_marks() == spec_shift_all(
                old(self).spec_marks(),
                start as int,
                shift as int,
            ),
            final(self).spec_text() == old(self).spec_text(),
    {
        let ghost orig = self.spec_marks();
        let mut j: usize = 0;
        while j < self.marks.slots_count()
            invariant
                self.spec_text() == old(self).spec_text(),
                self.spec_marks().len() == orig.len(),
                j <= orig.len(),
                shift >= 0 ==> forall|i: int|
                    #![trigger orig[i]]
                    0 <= i < orig.len() && orig[i].item is Some ==> orig[i].item->Some_0.end
                        + shift <= usize::MAX && orig[i].item->Some_0.start + shift <= usize::MAX,
                forall|i: int|
                    #![trigger self.spec_marks()[i]]
                    0 <= i < orig.len() ==> self.spec_marks()[i] == (if i < j {
                        spec_shift_all(orig, start as int, shift as int)[i]
                    } else {
                        orig[i]
                    }),
            decreases orig.len() - j,
        {
            let id_opt = self.marks.get_id_by_slot(j);
            let id = id_opt.unwrap();
            if self.marks.owns_item(id) {
                match self.marks.get_mut(id) {
                    Some(m) => {
                        proof {
                            assert(orig[j as int].item is Some);
                        }
                        if m.start > start {
                            m.start = shift_point(m.start, start, shift);
                        }
                        if m.end > start {
                            m.end = shift_point(m.end, start, shift);
                        }
                    },
                    None => {},
                }
            }
            proof {
                assert(self.spec_marks()[j as int] == spec_shift_all(
                    orig,
                    start as int,
                    shift as int,
                )[j as int]);
            }
            j = j + 1;
        }
        proof {
            assert(self.spec_marks() =~= spec_shift_all(orig, start as int, shift as int));
        }
    }

    /// The core mutating primitive: splices the replacement document's text
    /// over the target mark's range. Marks nested in the target are removed;
    /// every other mark is rebased around the edit; the target grows or
    /// shrinks to span exactly the inserted text; and the replacement's own
    /// marks come along as nested children. With an identifier that is not
    /// owned, nothing changes. When the expanded text could not be
    /// represented, nothing changes and `false` comes back.
    pub fn replace_mark_content(&mut self, id: Identifier, replace_to: MarkedText<T>) -> (r: bool)
        requires
            old(self).wf(),
            replace_to.wf(),
        ensures
            !old(self).spec_owns_mark(id) ==> r && final(self).spec_text() == old(
                self,
            ).spec_text() && final(self).spec_marks() == old(self).spec_marks(),
            old(self).spec_owns_mark(id) && old(self).spec_text().len()
                + replace_to.spec_text().len() > isize::MAX ==> !r && final(self).spec_text()
                == old(self).spec_text() && final(self).spec_marks() == old(self).spec_marks(),
            old(self).spec_owns_mark(id) && old(self).spec_text().len()
                + replace_to.spec_text().len() <= isize::MAX ==> r && ({
                let m = old(self).spec_marks()[id.vec_id as int].item->Some_0;
                let rep_len = replace_to.spec_text().len() as int;
                &&& final(self).spec_text() == old(self).spec_text().take(m.start as int)
                    + replace_to.spec_text() + old(self).spec_text().skip(m.end as int)
                &&& final(self).spec_marks() == spec_push_all(
                    spec_replace_base(old(self).spec_marks(), id.vec_id as int, m, rep_len),
                    spec_offset_marks(spec_items(replace_to.spec_marks()), m.start as int),
                )
            }),
            final(self).wf(),
    {
        let mark = match self.marks.get(id) {
            Some(m) => m,
            None => {
                return true;
            },
        };
        let mstart = mark.start;
        let mend = mark.end;
        let rep_len = replace_to.text.as_str().unicode_len();
        let own_len = self.text.as_str().unicode_len();
        if rep_len > isize::MAX as usize || own_len > isize::MAX as usize - rep_len {
            return false;
        }
        let ghost orig = self.spec_marks();
        let ghost m = orig[id.vec_id as int].item->Some_0;

        self.remove_sub_marks(id);
        let shift: isize = (rep_len as isize) - ((mend - mstart) as isize);
        proof {
            if shift >= 0 {
                assert forall|j: int|
                    #![trigger self.spec_marks()[j]]
                    0 <= j < self.spec_marks().len() && self.spec_marks()[j].item
                        is Some implies self.spec_marks()[j].item->Some_0.end + shift <= usize::MAX
                    && self.spec_marks()[j].item->Some_0.start + shift <= usize::MAX by {
                    assert(self.spec_marks()[j].item == orig[j].item);
                    assert(orig[j].item->Some_0.end <= own_len);
                }
            }
        }
        self.shift_marks(mstart, shift);
        let ghost marks2 = self.spec_marks();

        let mut new_text = String::new();
        new_text.append(self.text.as_str().substring_char(0, mstart));
        new_text.append(replace_to.text.as_str());
        new_text.append(self.text.as_str().substring_char(mend, own_len));
        self.text = new_text;

        match self.marks.get_mut(id) {
            Some(mk) => {
                mk.start = mstart;
                mk.end = mstart + rep_len;
            },
            None => {},
        }
        proof {
            assert(self.spec_marks() =~= spec_replace_base(
                orig,
                id.vec_id as int,
                m,
                rep_len as int,
            ));
        }
        let ghost base = self.spec_marks();

        let MarkedText { text: _rep_text, marks: mut rep_marks } = replace_to;
        let ghost rep_slots = rep_marks.slots();
        let items = rep_marks.drain_items();
        let mut off_items: Vec<Mark<T>> = Vec::new();
        let mut items = items;
        let ghost all_items = items@;
        proof {
            lemma_spec_items_all(
                rep_slots,
                |mm: Mark<T>| mm.start <= mm.end && mm.end <= rep_len,
            );
        }
        while items.len() > 0
            invariant
                all_items == spec_items(rep_slots),
                forall|k: int|
                    #![trigger all_items[k]]
                    0 <= k < all_items.len() ==> all_items[k].start <= all_items[k].end
                        && all_items[k].end <= rep_len,
                mstart + rep_len <= isize::MAX,
                items@ == all_items.skip(off_items@.len() as int),
                off_items@ == spec_offset_marks(all_items, mstart as int).take(
                    off_items@.len() as int,
                ),
                off_items@.len() <= all_items.len(),
            decreases items.len(),
        {
            let mm = items.remove(0);
            proof {
                assert(mm == all_items[off_items@.len() as int]);
            }
            off_items.push(Mark { flag: mm.flag, start: mm.start + mstart, end: mm.end + mstart });
            proof {
                assert(off_items@ =~= spec_offset_marks(all_items, mstart as int).take(
                    off_items@.len() as int,
                ));
                assert(items@ =~= all_items.skip(off_items@.len() as int));
            }
        }
        proof {
            assert(off_items@ =~= spec_offset_marks(all_items, mstart as int));
        }
        let _ = self.marks.push_mul(off_items);
        proof {
            let new_len = old(self).spec_text().len() - (m.end - m.start) + rep_len;
            let p = |mm: Mark<T>| mm.start <= mm.end && mm.end <= new_len;
            lemma_replace_base_wf::<T>(
                orig,
                id.vec_id as int,
                m,
                rep_len as int,
                old(self).spec_text().len() as int,
            );
            assert forall|k: int|
                #![trigger spec_offset_marks(all_items, mstart as int)[k]]
                0 <= k < spec_offset_marks(all_items, mstart as int).len() implies p(
                spec_offset_marks(all_items, mstart as int)[k],
            ) by {
                assert(all_items[k].end <= rep_len);
            }
            crate::id_based_vec::lemma_spec_push_all_pred(
                base,
                spec_offset_marks(all_items, mstart as int),
                p,
            );
            assert(self.spec_text().len() == new_len);
        }
        true
    }

    /// Empties the text behind a mark: replacing its content with nothing.
    pub fn delete_mark_content(&mut self, id: Identifier) -> (r: bool)
        requires
            old(self).wf(),
        ensures
            !old(self).spec_owns_mark(id) ==> r && final(self).spec_text() == old(
                self,
            ).spec_text() && final(self).spec_marks() == old(self).spec_marks(),
            old(self).spec_owns_mark(id) && old(self).spec_text().len() > isize::MAX ==> !r
                && final(self).spec_text() == old(self).spec_text() && final(self).spec_marks()
                == old(self).spec_marks(),
            old(self).spec_owns_mark(id) && old(self).spec_text().len() <= isize::MAX ==> r && ({
                let m = old(self).spec_marks()[id.vec_id as int].item->Some_0;
                &&& final(self).spec_text() == old(self).spec_text().take(m.start as int) + old(
                    self,
                ).spec_text().skip(m.end as int)
                &&& final(self).spec_marks() == spec_replace_base(
                    old(self).spec_marks(),
                    id.vec_id as int,
                    m,
                    0,
                )
            }),
            final(self).wf(),
    {
        let r = self.replace_mark_content(id, MarkedText::new(String::new()));
        proof {
            if old(self).spec_owns_mark(id) && old(self).spec_text().len() <= isize::MAX {
                let m = old(self).spec_marks()[id.vec_id as int].item->Some_0;
                assert(spec_items(Seq::<Slot<Mark<T>>>::empty()) =~= Seq::<Mark<T>>::empty());
                assert(spec_offset_marks(Seq::<Mark<T>>::empty(), m.start as int) =~= Seq::<
                    Mark<T>,
                >::empty());
                assert(final(self).spec_text() =~= old(self).spec_text().take(m.start as int)
                    + old(self).spec_text().skip(m.end as int));
            }
        }
        r
    }

    /// Empties the text behind a mark and removes the (now empty) mark
    /// itself, without cascading.
    pub fn delete_mark_and_content(&mut self, id: Identifier) -> (r: bool)
        requires
            old(self).wf(),
        ensures
            !old(self).spec_owns_mark(id) ==> r && final(self).spec_text() == old(
                self,
            ).spec_text() && final(self).spec_marks() == old(self).spec_marks(),
            old(self).spec_owns_mark(id) && old(self).spec_text().len() > isize::MAX ==> !r
                && final(self).spec_text() == old(self).spec_text() && final(self).spec_marks()
                == old(self).spec_marks(),
            old(self).spec_owns_mark(id) && old(self).spec_text().len() <= isize::MAX ==> r && ({
                let m = old(self).spec_marks()[id.vec_id as int].item->Some_0;
                &&& final(self).spec_text() == old(self).spec_text().take(m.start as int) + old(
                    self,
                ).spec_text().skip(m.end as int)
                &&& final(self).spec_marks() == spec_replace_base(
                    old(self).spec_marks(),
                    id.vec_id as int,
                    m,
                    0,
                ).update(id.vec_id as int, (Slot { iteration: advance(id.iteration), item: None }))
            }),
            final(self).wf(),
    {
        let r = self.delete_mark_content(id);
        if r {
            self.remove_mark(id, false);
        }
        proof {
            if !old(self).spec_owns_mark(id) {
                assert(final(self).spec_marks() =~= old(self).spec_marks());
            }
        }
        r
    }

    /// Extracts a mark from the store, freeing its slot.
    pub fn extract_mark(&mut self, id: Identifier) -> (r: Option<Mark<T>>)
        ensures
            old(self).spec_owns_mark(id) ==> {
                &&& r == old(self).spec_marks()[id.vec_id as int].item
                &&& final(self).spec_marks() == old(self).spec_marks().update(
                    id.vec_id as int,
                    (Slot { iteration: advance(id.iteration), item: None }),
                )
            },
            !old(self).spec_owns_mark(id) ==> r is None && final(self).spec_marks() == old(
                self,
            ).spec_marks(),
            final(self).spec_text() == old(self).spec_text(),
    {
        self.marks.extract(id)
    }
}

/// The identifiers of the occupied marks carrying the given target, in
/// ascending slot order.
pub open spec fn spec_flag_ids(s: Seq<Slot<Mark<String>>>, fl: Seq<char>) -> Seq<Identifier>
    decreases s.len(),
{
    if s.len() == 0 {
        Seq::empty()
    } else {
        spec_flag_ids(s.drop_last(), fl) + (if s.last().item is Some
            && s.last().item->Some_0.flag@ == fl {
            seq![Identifier { iteration: s.last().iteration, vec_id: (s.len() - 1) as usize }]
        } else {
            Seq::empty()
        })
    }
}

impl MarkedText<String> {
    /// Every owned mark identifier whose flag equals `flag`, in ascending
    /// slot order.
    pub fn get_marks_by_flag(&self, flag: &String) -> (r: Vec<Identifier>)
        ensures
            r@ == spec_flag_ids(self.spec_marks(), flag@),
            forall|k: int|
                #![trigger r@[k]]
                0 <= k < r@.len() ==> self.spec_owns_mark(r@[k]) && self.spec_marks()[r@[k].vec_id
                    as int].item->Some_0.flag@ == flag@,
            forall|k1: int, k2: int|
                0 <= k1 < k2 < r@.len() ==> r@[k1].vec_id < r@[k2].vec_id,
            forall|j: int|
                0 <= j < self.spec_marks().len() && self.spec_marks()[j].item is Some
                    && self.spec_marks()[j].item->Some_0.flag@ == flag@ ==> exists|k: int|
                    0 <= k < r@.len() && r@[k].vec_id == j,
    {
        let flag_eq = |m: &Mark<String>| -> (b: bool)
            ensures
                b == (m.flag@ == flag@),
            {
                m.flag == *flag
            };
        let r = self.get_marks_by(flag_eq);
        proof {
            assert forall|j: int|
                0 <= j < self.spec_marks().len() && self.spec_marks()[j].item is Some
                    && self.spec_marks()[j].item->Some_0.flag@ == flag@ implies exists|k: int|
                0 <= k < r@.len() && r@[k].vec_id == j by {
                if !(exists|k: int| 0 <= k < r@.len() && r@[k].vec_id == j) {
                    assert(false);
                }
            }
            lemma_flag_ids_canonical(self.spec_marks(), flag@, r@);
        }
        r
    }

    /// A fresh document with the same text and the same marks, stored in a
    /// newly built arena (mark payloads in the same order; slot generations
    /// start over).
    pub fn duplicate(&self) -> (r: MarkedText<String>)
        ensures
            r.spec_text() == self.spec_text(),
            spec_items(r.spec_marks()) == spec_items(self.spec_marks()),
            self.wf() ==> r.wf(),
    {
        let mut r: MarkedText<String> = MarkedText::new(self.text.clone());
        let mut items: Vec<Mark<String>> = Vec::new();
        let mut j: usize = 0;
        while j < self.marks.slots_count()
            invariant
                j <= self.spec_marks().len(),
                items@ == spec_items(self.spec_marks().take(j as int)),
            decreases self.spec_marks().len() - j,
        {
            let ghost prev = self.spec_marks().take(j as int);
            match self.marks.get_slot(j) {
                Some(slot) => {
                    match slot.item.as_ref() {
                        Some(m) => {
                            items.push(Mark { flag: m.flag.clone(), start: m.start, end: m.end });
                        },
                        None => {},
                    }
                },
                None => {},
            }
            j = j + 1;
            proof {
                let cur = self.spec_marks().take(j as int);
                assert(cur.drop_last() == prev);
                assert(cur.last() == self.spec_marks()[j - 1]);
            }
        }
        proof {
            assert(self.spec_marks().take(self.spec_marks().len() as int) == self.spec_marks());
        }
        let ghost its = items@;
        let _ = r.marks.push_mul(items);
        proof {
            crate::id_based_vec::lemma_push_all_into_full(Seq::<Slot<Mark<String>>>::empty(), its);
            assert(spec_items(Seq::<Slot<Mark<String>>>::empty()) + its =~= its);
            if self.wf() {
                lemma_spec_items_all(
                    self.spec_marks(),
                    |mm: Mark<String>|
                        mm.start <= mm.end && mm.end <= self.spec_text().len(),
                );
                assert forall|k: int|
                    #![trigger r.spec_marks()[k]]
                    0 <= k < r.spec_marks().len() && r.spec_marks()[k].item is Some implies {
                    &&& r.spec_marks()[k].item->Some_0.start <= r.spec_marks()[k].item->Some_0.end
                    &&& r.spec_marks()[k].item->Some_0.end <= r.spec_text().len()
                } by {
                    assert(r.spec_marks()[k] == (Slot { iteration: 1usize, item: Some(its[k]) }));
                    assert(spec_items(self.spec_marks())[k] == its[k]);
                }
            }
        }
        r
    }
}

/// A list of identifiers that is strictly ascending by slot, names exactly
/// the occupied marks carrying the target, and covers them all, is the
/// canonical target list.
proof fn lemma_flag_ids_canonical(
    s: Seq<Slot<Mark<String>>>,
    fl: Seq<char>,
    r: Seq<Identifier>,
)
    requires
        forall|k: int|
            #![trigger r[k]]
            0 <= k < r.len() ==> r[k].vec_id < s.len() && s[r[k].vec_id as int].iteration
                == r[k].iteration && s[r[k].vec_id as int].item is Some && s[r[k].vec_id
                as int].item->Some_0.flag@ == fl,
        forall|k1: int, k2: int| 0 <= k1 < k2 < r.len() ==> r[k1].vec_id < r[k2].vec_id,
        forall|j: int|
            0 <= j < s.len() && s[j].item is Some && s[j].item->Some_0.flag@ == fl ==> exists|
                k: int,
            |
                0 <= k < r.len() && r[k].vec_id == j,
    ensures
        r == spec_flag_ids(s, fl),
    decreases s.len(),
{
    if s.len() == 0 {
        assert(r.len() == 0) by {
            if r.len() > 0 {
                assert(r[0].vec_id < s.len());
            }
        }
        assert(r =~= spec_flag_ids(s, fl));
    } else {
        let j = s.len() - 1;
        let sd = s.drop_last();
        if s.last().item is Some && s.last().item->Some_0.flag@ == fl {
            let kw = choose|k: int| 0 <= k < r.len() && r[k].vec_id == j;
            assert(kw == r.len() - 1) by {
                if kw < r.len() - 1 {
                    assert(r[kw].vec_id < r[r.len() - 1].vec_id);
                    assert(r[r.len() - 1].vec_id < s.len());
                }
            }
            let rd = r.drop_last();
            assert forall|k: int|
                #![trigger rd[k]]
                0 <= k < rd.len() implies rd[k].vec_id < sd.len() && sd[rd[k].vec_id
                as int].iteration == rd[k].iteration && sd[rd[k].vec_id as int].item is Some
                && sd[rd[k].vec_id as int].item->Some_0.flag@ == fl by {
                assert(rd[k] == r[k]);
                assert(r[k].vec_id < r[r.len() - 1].vec_id);
                assert(sd[rd[k].vec_id as int] == s[rd[k].vec_id as int]);
            }
            assert forall|i: int|
                0 <= i < sd.len() && sd[i].item is Some && sd[i].item->Some_0.flag@
                    == fl implies exists|k: int| 0 <= k < rd.len() && rd[k].vec_id == i by {
                assert(sd[i] == s[i]);
                let k0 = choose|k: int| 0 <= k < r.len() && r[k].vec_id == i;
                assert(k0 < r.len() - 1) by {
                    if k0 == r.len() - 1 {
                        assert(r[k0].vec_id == j);
                    }
                }
                assert(rd[k0].vec_id == i);
            }
            lemma_flag_ids_canonical(sd, fl, rd);
            assert(r[r.len() - 1] == (Identifier {
                iteration: s.last().iteration,
                vec_id: (s.len() - 1) as usize,
            }));
            assert(r =~= spec_flag_ids(s, fl));
        } else {
            assert forall|k: int|
                #![trigger r[k]]
                0 <= k < r.len() implies r[k].vec_id < sd.len() && sd[r[k].vec_id
                as int].iteration == r[k].iteration && sd[r[k].vec_id as int].item is Some && sd[
            r[k].vec_id as int].item->Some_0.flag@ == fl by {
                assert(r[k].vec_id != j);
                assert(sd[r[k].vec_id as int] == s[r[k].vec_id as int]);
            }
            assert forall|i: int|
                0 <= i < sd.len() && sd[i].item is Some && sd[i].item->Some_0.flag@
                    == fl implies exists|k: int| 0 <= k < r.len() && r[k].vec_id == i by {
                assert(sd[i] == s[i]);
            }
            lemma_flag_ids_canonical(sd, fl, r);
            assert(r =~= spec_flag_ids(s, fl));
        }
    }
}

/// After a replacement's base transform, every mark fits the new text
/// length and keeps its endpoints ordered.
proof fn lemma_replace_base_wf<T>(
    orig: Seq<Slot<Mark<T>>>,
    slot: int,
    m: Mark<T>,
    rep_len: int,
    old_len: int,
)
    requires
        0 <= slot < orig.len(),
        orig[slot].item == Some(m),
        rep_len >= 0,
        m.start <= m.end <= old_len,
        old_len + rep_len <= usize::MAX,
        forall|j: int|
            #![trigger orig[j]]
            0 <= j < orig.len() && orig[j].item is Some ==> orig[j].item->Some_0.start
                <= orig[j].item->Some_0.end && orig[j].item->Some_0.end <= old_len,
    ensures
        forall|j: int|
            #![trigger spec_replace_base(orig, slot, m, rep_len)[j]]
            0 <= j < spec_replace_base(orig, slot, m, rep_len).len() && spec_replace_base(
                orig,
                slot,
                m,
                rep_len,
            )[j].item is Some ==> {
                let e = spec_replace_base(orig, slot, m, rep_len)[j].item->Some_0;
                e.start <= e.end && e.end <= old_len - (m.end - m.start) + rep_len
            },
{
    let base = spec_replace_base(orig, slot, m, rep_len);
    let delta = rep_len - (m.end - m.start);
    let new_len = old_len - (m.end - m.start) + rep_len;
    assert forall|j: int|
        #![trigger base[j]]
        0 <= j < base.len() && base[j].item is Some implies {
        let e = base[j].item->Some_0;
        e.start <= e.end && e.end <= new_len
    } by {
        if j != slot && orig[j].item is Some && !nested_in(
            orig[j].item->Some_0,
            m.start as int,
            m.end as int,
        ) {
            let e = orig[j].item->Some_0;
            assert(e.start <= e.end && e.end <= old_len);
            assert(0 <= spec_shift_point(e.start as int, m.start as int, delta) <= usize::MAX);
            assert(0 <= spec_shift_point(e.end as int, m.start as int, delta) <= usize::MAX);
            assert(spec_shift_point(e.start as int, m.start as int, delta) <= spec_shift_point(
                e.end as int,
                m.start as int,
                delta,
            ));
            assert(spec_shift_point(e.end as int, m.start as int, delta) <= new_len);
        }
    }
}

/// Adds a signed offset to an unsigned position, as mark shifting does when
/// text grows or shrinks.
pub fn add_isize_to_usize(a: usize, b: isize) -> (r: usize)
    requires
        a + b >= 0,
        a + b <= usize::MAX,
    ensures
        r == a + b,
{
    if b >= 0 {
        a + (b as usize)
    } else {
        let nb: usize = ((-(b + 1)) as usize) + 1;
        a - nb
    }
}

/// One endpoint shifted with the stop-at-pivot rule of `spec_shift_point`,
/// for endpoints known to sit past the pivot.
fn shift_point(e: usize, pivot: usize, shift: isize) -> (r: usize)
    requires
        e > pivot,
        shift >= 0 ==> e + shift <= usize::MAX,
    ensures
        r == spec_shift_point(e as int, pivot as int, shift as int),
{
    if shift >= 0 {
        e + (shift as usize)
    } else {
        let down: usize = ((-(shift + 1)) as usize) + 1;
        if e - pivot >= down {
            e - down
        } else {
            pivot
        }
    }
}

} // verus!
