//! The slot store and settings store, modelled as one state machine.
//!
//! A [`Store`] value is the abstract state of everything this
//! subsystem owns on disk: the slot files under the save root, the
//! single settings file under the config root, and at most one
//! in-flight temporary file of a write that has not yet been renamed
//! into place. Each operation is a verified transition; the
//! surrounding binary mirrors every transition one to one with the
//! corresponding filesystem action, so what is proved here is exactly
//! the protocol the disk sees.
//!
//! A write is two-phased, matching the write-temporary-then-rename
//! strategy: `begin_write_slot` models the temporary file being
//! written (no slot changes yet), `commit_write_slot` models the
//! rename (the slot changes in one step), and `abort_write_slot`
//! models a crash or cleanup in between (no slot ever changes). A
//! reader therefore never observes a half-written slot.

use vstd::prelude::*;
use crate::errors::StoreError;
use crate::ident::{check_identifier, valid_identifier};
use crate::listing::{
    insert_sorted, lemma_insert_distinct, lemma_insert_membership, sorted_newest_first, info_lt,
    SaveInfo,
};

verus! {

/// One stored slot: identifier, opaque payload, and last-modified
/// time in whole seconds since the epoch.
pub struct SlotEntry {
    pub slot: String,
    pub payload: String,
    pub timestamp: u64,
}

/// The abstract content of one slot file.
pub ghost struct SlotView {
    pub payload: Seq<char>,
    pub timestamp: u64,
}

/// The abstract content of the in-flight temporary file.
pub ghost struct PendingView {
    pub slot: Seq<char>,
    pub payload: Seq<char>,
    pub timestamp: u64,
}

/// The abstract content of one stored entry.
pub open spec fn entry_view(e: SlotEntry) -> SlotView {
    SlotView { payload: e.payload@, timestamp: e.timestamp }
}

/// The listing metadata of one stored entry.
pub open spec fn info_of(e: SlotEntry) -> SaveInfo {
    SaveInfo { slot: e.slot, timestamp: e.timestamp }
}

/// No two entries name the same slot.
pub open spec fn unique_slots(s: Seq<SlotEntry>) -> bool {
    forall|i: int, j: int|
        0 <= i < j < s.len() ==> (#[trigger] s[i]).slot@ != (#[trigger] s[j]).slot@
}

/// The slot map a sequence of entries denotes: each identifier bound
/// to the content of its file.
pub open spec fn slots_map_of(s: Seq<SlotEntry>) -> Map<Seq<char>, SlotView>
    decreases s.len(),
{
    if s.len() == 0 {
        Map::empty()
    } else {
        slots_map_of(s.drop_last()).insert(s.last().slot@, entry_view(s.last()))
    }
}

proof fn lemma_map_of_absent(s: Seq<SlotEntry>, k: Seq<char>)
    requires
        forall|i: int| 0 <= i < s.len() ==> (#[trigger] s[i]).slot@ != k,
    ensures
        !slots_map_of(s).contains_key(k),
    decreases s.len(),
{
    if s.len() > 0 {
        assert(forall|i: int| 0 <= i < s.drop_last().len()
            ==> (#[trigger] s.drop_last()[i]).slot@ != k);
        lemma_map_of_absent(s.drop_last(), k);
        assert(s.last().slot@ != k);
    }
}

proof fn lemma_map_of_lookup(s: Seq<SlotEntry>, i: int)
    requires
        unique_slots(s),
        0 <= i < s.len(),
    ensures
        slots_map_of(s).contains_key(s[i].slot@),
        slots_map_of(s)[s[i].slot@] == entry_view(s[i]),
    decreases s.len(),
{
    if i == s.len() - 1 {
        assert(s.last() == s[i]);
    } else {
        assert(forall|a: int, b: int| 0 <= a < b < s.drop_last().len()
            ==> (#[trigger] s.drop_last()[a]).slot@ != (#[trigger] s.drop_last()[b]).slot@);
        lemma_map_of_lookup(s.drop_last(), i);
        assert(s.drop_last()[i] == s[i]);
        assert(s.last().slot@ != s[i].slot@);
    }
}

proof fn lemma_map_of_push(s: Seq<SlotEntry>, e: SlotEntry)
    ensures
        slots_map_of(s.push(e)) == slots_map_of(s).insert(e.slot@, entry_view(e)),
{
    let t = s.push(e);
    assert(t.drop_last() =~= s);
    assert(t.last() == e);
}

proof fn lemma_map_of_remove(s: Seq<SlotEntry>, i: int)
    requires
        unique_slots(s),
        0 <= i < s.len(),
    ensures
        slots_map_of(s.remove(i)) == slots_map_of(s).remove(s[i].slot@),
    decreases s.len(),
{
    let k = s[i].slot@;
    s.remove_ensures(i);
    if i == s.len() - 1 {
        assert(s.remove(i) =~= s.drop_last());
        assert(forall|j: int| 0 <= j < s.drop_last().len()
            ==> (#[trigger] s.drop_last()[j]).slot@ != k);
        lemma_map_of_absent(s.drop_last(), k);
        assert(slots_map_of(s).remove(k) =~= slots_map_of(s.drop_last()));
    } else {
        let dl = s.drop_last();
        assert(forall|a: int, b: int| 0 <= a < b < dl.len()
            ==> (#[trigger] dl[a]).slot@ != (#[trigger] dl[b]).slot@);
        lemma_map_of_remove(dl, i);
        assert(dl[i] == s[i]);
        assert(s.remove(i).drop_last() =~= dl.remove(i));
        assert(s.remove(i).last() == s.last());
        assert(s.last().slot@ != k);
        assert(slots_map_of(dl).remove(k).insert(s.last().slot@, entry_view(s.last()))
            =~= slots_map_of(dl).insert(s.last().slot@, entry_view(s.last())).remove(k));
    }
}

/// The whole persisted state of one installation.
pub struct Store {
    slots: Vec<SlotEntry>,
    pending: Option<SlotEntry>,
    settings: Option<String>,
    pending_settings: Option<String>,
}

impl Store {
    /// The slot map: every stored identifier bound to its payload and
    /// timestamp.
    pub closed spec fn slots_view(&self) -> Map<Seq<char>, SlotView> {
        slots_map_of(self.slots@)
    }

    /// The settings blob, if one was ever written.
    pub closed spec fn settings_view(&self) -> Option<Seq<char>> {
        match self.settings {
            Some(s) => Some(s@),
            None => None,
        }
    }

    /// The in-flight temporary file of a slot write between its two
    /// phases, if any.
    pub closed spec fn pending_view(&self) -> Option<PendingView> {
        match self.pending {
            Some(p) => Some(PendingView { slot: p.slot@, payload: p.payload@, timestamp: p.timestamp }),
            None => None,
        }
    }

    /// The in-flight temporary file of a settings write between its
    /// two phases, if any.
    pub closed spec fn pending_settings_view(&self) -> Option<Seq<char>> {
        match self.pending_settings {
            Some(s) => Some(s@),
            None => None,
        }
    }

    /// Internal well-formedness: one file per identifier, and only
    /// identifiers that passed sanitisation are ever stored.
    pub closed spec fn wf(&self) -> bool {
        &&& unique_slots(self.slots@)
        &&& forall|i: int| 0 <= i < self.slots@.len()
            ==> valid_identifier((#[trigger] self.slots@[i]).slot@)
        &&& match self.pending {
            Some(p) => valid_identifier(p.slot@),
            None => true,
        }
    }

    /// A freshly resolved installation: no slots, no settings, no
    /// write in flight.
    pub fn new() -> (s: Store)
        ensures
            s.wf(),
            s.slots_view() == Map::<Seq<char>, SlotView>::empty(),
            s.settings_view() is None,
            s.pending_view() is None,
            s.pending_settings_view() is None,
    {
        Store { slots: Vec::new(), pending: None, settings: None, pending_settings: None }
    }

    /// The index of the entry holding `slot`, if any.
    fn find_slot(&self, slot: &str) -> (r: Option<usize>)
        ensures
            match r {
                Some(i) => i < self.slots@.len() && self.slots@[i as int].slot@ == slot@,
                None => forall|i: int| 0 <= i < self.slots@.len()
                    ==> (#[trigger] self.slots@[i]).slot@ != slot@,
            },
    {
        let key = String::from_str(slot);
        let n = self.slots.len();
        let mut i: usize = 0;
        while i < n
            invariant
                n == self.slots@.len(),
                0 <= i <= n,
                key@ == slot@,
                forall|j: int| 0 <= j < i ==> (#[trigger] self.slots@[j]).slot@ != slot@,
            decreases n - i,
        {
            if self.slots[i].slot == key {
                return Some(i);
            }
            i += 1;
        }
        None
    }

    /// Reads the payload stored under an identifier. Never creates a
    /// file: an absent slot is `NotFound`, never an empty payload.
    pub fn read_slot(&self, slot: &str) -> (r: Result<String, StoreError>)
        requires
            self.wf(),
        ensures
            !valid_identifier(slot@) ==> r is Err && r->Err_0 == StoreError::InvalidIdentifier,
            valid_identifier(slot@) && self.slots_view().contains_key(slot@) ==> r is Ok
                && r->Ok_0@ == self.slots_view()[slot@].payload,
            valid_identifier(slot@) && !self.slots_view().contains_key(slot@) ==> r is Err
                && r->Err_0 == StoreError::NotFound,
    {
        if !check_identifier(slot) {
            return Err(StoreError::InvalidIdentifier);
        }
        match self.find_slot(slot) {
            Some(i) => {
                proof {
                    lemma_map_of_lookup(self.slots@, i as int);
                }
                Ok(self.slots[i].payload.clone())
            },
            None => {
                proof {
                    lemma_map_of_absent(self.slots@, slot@);
                }
                Err(StoreError::NotFound)
            },
        }
    }

    /// Whether a slot exists; absence is a normal `false`, not an
    /// error.
    pub fn slot_exists(&self, slot: &str) -> (r: Result<bool, StoreError>)
        requires
            self.wf(),
        ensures
            !valid_identifier(slot@) ==> r is Err && r->Err_0 == StoreError::InvalidIdentifier,
            valid_identifier(slot@) ==> r is Ok
                && r->Ok_0 == self.slots_view().contains_key(slot@),
    {
        if !check_identifier(slot) {
            return Err(StoreError::InvalidIdentifier);
        }
        match self.find_slot(slot) {
            Some(i) => {
                proof {
                    lemma_map_of_lookup(self.slots@, i as int);
                }
                Ok(true)
            },
            None => {
                proof {
                    lemma_map_of_absent(self.slots@, slot@);
                }
                Ok(false)
            },
        }
    }

    /// Replaces or creates the entry for `e.slot`.
    fn upsert_slot(&mut self, e: SlotEntry)
        requires
            old(self).wf(),
            valid_identifier(e.slot@),
        ensures
            final(self).wf(),
            final(self).slots_view() == old(self).slots_view().insert(e.slot@, entry_view(e)),
            final(self).settings_view() == old(self).settings_view(),
            final(self).pending == old(self).pending,
            final(self).pending_settings == old(self).pending_settings,
    {
        let ghost pre = self.slots@;
        let k_found = self.find_slot(e.slot.as_str());
        match k_found {
            Some(i) => {
                proof {
                    lemma_map_of_remove(pre, i as int);
                }
                let _removed = self.slots.remove(i);
                proof {
                    pre.remove_ensures(i as int);
                    let mid = self.slots@;
                    assert(forall|a: int, b: int| 0 <= a < b < mid.len()
                        ==> (#[trigger] mid[a]).slot@ != (#[trigger] mid[b]).slot@) by {
                        assert forall|a: int, b: int| 0 <= a < b < mid.len() implies
                            (#[trigger] mid[a]).slot@ != (#[trigger] mid[b]).slot@ by {
                            let oa: int = if a < i as int { a } else { a + 1 };
                            let ob: int = if b < i as int { b } else { b + 1 };
                            assert(mid[a] == pre[oa] && mid[b] == pre[ob]);
                        }
                    }
                    assert forall|j: int| 0 <= j < mid.len() implies
                        (#[trigger] mid[j]).slot@ != e.slot@ by {
                        let oj: int = if j < i as int { j } else { j + 1 };
                        assert(mid[j] == pre[oj]);
                        if oj != i as int {
                            assert(pre[oj].slot@ != pre[i as int].slot@);
                        }
                    }
                    assert forall|j: int| 0 <= j < mid.len() implies
                        valid_identifier((#[trigger] mid[j]).slot@) by {
                        let oj: int = if j < i as int { j } else { j + 1 };
                        assert(mid[j] == pre[oj]);
                    }
                }
                let ghost mid = self.slots@;
                self.slots.push(e);
                proof {
                    lemma_map_of_push(mid, e);
                    assert(slots_map_of(pre).remove(e.slot@).insert(e.slot@, entry_view(e))
                        =~= slots_map_of(pre).insert(e.slot@, entry_view(e)));
                    assert(forall|j: int| 0 <= j < self.slots@.len() - 1
                        ==> #[trigger] self.slots@[j] == mid[j]);
                }
            },
            None => {
                self.slots.push(e);
                proof {
                    lemma_map_of_push(pre, e);
                    assert(forall|j: int| 0 <= j < self.slots@.len() - 1
                        ==> #[trigger] self.slots@[j] == pre[j]);
                }
            },
        }
    }

    /// First phase of a write: the payload is written to the slot's
    /// temporary file. No slot file changes, so a crash here loses
    /// nothing. An identifier that could escape the save root is
    /// rejected before anything is touched.
    pub fn begin_write_slot(&mut self, slot: &str, payload: String, timestamp: u64)
        -> (r: Result<(), StoreError>)
        requires
            old(self).wf(),
        ensures
            final(self).wf(),
            final(self).slots_view() == old(self).slots_view(),
            final(self).settings_view() == old(self).settings_view(),
            final(self).pending_settings_view() == old(self).pending_settings_view(),
            !valid_identifier(slot@) ==> r is Err && r->Err_0 == StoreError::InvalidIdentifier
                && final(self).pending_view() == old(self).pending_view(),
            valid_identifier(slot@) ==> r is Ok
                && final(self).pending_view()
                    == Some(PendingView { slot: slot@, payload: payload@, timestamp }),
    {
        if !check_identifier(slot) {
            return Err(StoreError::InvalidIdentifier);
        }
        self.pending = Some(SlotEntry { slot: String::from_str(slot), payload, timestamp });
        Ok(())
    }

    /// Second phase of a write: the temporary file is renamed over the
    /// slot file, replacing its whole content in one step.
    pub fn commit_write_slot(&mut self)
        requires
            old(self).wf(),
            old(self).pending_view() is Some,
        ensures
            final(self).wf(),
            final(self).pending_view() is None,
            final(self).settings_view() == old(self).settings_view(),
            final(self).pending_settings_view() == old(self).pending_settings_view(),
            match old(self).pending_view() {
                Some(pv) => final(self).slots_view() == old(self).slots_view().insert(
                    pv.slot,
                    SlotView { payload: pv.payload, timestamp: pv.timestamp },
                ),
                None => false,
            },
    {
        let p = self.pending.take();
        match p {
            Some(e) => {
                proof {
                    assert(entry_view(e) == SlotView { payload: e.payload@, timestamp: e.timestamp });
                }
                self.upsert_slot(e);
            },
            None => {},
        }
    }

    /// A crash, or a deliberate cleanup, between the two phases: the
    /// temporary file disappears and every slot file is exactly as it
    /// was.
    pub fn abort_write_slot(&mut self)
        requires
            old(self).wf(),
        ensures
            final(self).wf(),
            final(self).pending_view() is None,
            final(self).slots_view() == old(self).slots_view(),
            final(self).settings_view() == old(self).settings_view(),
            final(self).pending_settings_view() == old(self).pending_settings_view(),
    {
        self.pending = None;
    }

    /// Replaces a slot's payload in its entirety, creating the slot on
    /// first write. The two-phase strategy makes the replacement
    /// atomic: no reader ever sees a mixture of old and new content.
    pub fn write_slot(&mut self, slot: &str, payload: String, timestamp: u64)
        -> (r: Result<(), StoreError>)
        requires
            old(self).wf(),
        ensures
            final(self).wf(),
            final(self).settings_view() == old(self).settings_view(),
            !valid_identifier(slot@) ==> r is Err && r->Err_0 == StoreError::InvalidIdentifier
                && final(self).slots_view() == old(self).slots_view()
                && final(self).pending_view() == old(self).pending_view(),
            final(self).pending_settings_view() == old(self).pending_settings_view(),
            valid_identifier(slot@) ==> r is Ok
                && final(self).slots_view() == old(self).slots_view().insert(
                    slot@,
                    SlotView { payload: payload@, timestamp },
                )
                && final(self).pending_view() is None,
    {
        let r = self.begin_write_slot(slot, payload, timestamp);
        match r {
            Ok(_) => {
                self.commit_write_slot();
                Ok(())
            },
            Err(e) => Err(e),
        }
    }

    /// Removes a slot's file. Deleting an absent slot succeeds and
    /// changes nothing: delete is idempotent.
    pub fn delete_slot(&mut self, slot: &str) -> (r: Result<(), StoreError>)
        requires
            old(self).wf(),
        ensures
            final(self).wf(),
            final(self).settings_view() == old(self).settings_view(),
            final(self).pending_view() == old(self).pending_view(),
            final(self).pending_settings_view() == old(self).pending_settings_view(),
            !valid_identifier(slot@) ==> r is Err && r->Err_0 == StoreError::InvalidIdentifier
                && final(self).slots_view() == old(self).slots_view(),
            valid_identifier(slot@) ==> r is Ok
                && final(self).slots_view() == old(self).slots_view().remove(slot@),
    {
        if !check_identifier(slot) {
            return Err(StoreError::InvalidIdentifier);
        }
        let ghost pre = self.slots@;
        match self.find_slot(slot) {
            Some(i) => {
                proof {
                    lemma_map_of_remove(pre, i as int);
                    pre.remove_ensures(i as int);
                }
                let _removed = self.slots.remove(i);
                proof {
                    let mid = self.slots@;
                    assert forall|a: int, b: int| 0 <= a < b < mid.len() implies
                        (#[trigger] mid[a]).slot@ != (#[trigger] mid[b]).slot@ by {
                        let oa: int = if a < i as int { a } else { a + 1 };
                        let ob: int = if b < i as int { b } else { b + 1 };
                        assert(mid[a] == pre[oa] && mid[b] == pre[ob]);
                    }
                    assert forall|j: int| 0 <= j < mid.len() implies
                        valid_identifier((#[trigger] mid[j]).slot@) by {
                        let oj: int = if j < i as int { j } else { j + 1 };
                        assert(mid[j] == pre[oj]);
                    }
                }
                Ok(())
            },
            None => {
                proof {
                    lemma_map_of_absent(pre, slot@);
                    assert(slots_map_of(pre).remove(slot@) =~= slots_map_of(pre));
                }
                Ok(())
            },
        }
    }

    /// The metadata of one slot, following the same absence rules as
    /// `read_slot`.
    pub fn slot_info(&self, slot: &str) -> (r: Result<SaveInfo, StoreError>)
        requires
            self.wf(),
        ensures
            !valid_identifier(slot@) ==> r is Err && r->Err_0 == StoreError::InvalidIdentifier,
            valid_identifier(slot@) && self.slots_view().contains_key(slot@) ==> r is Ok
                && r->Ok_0.slot@ == slot@
                && r->Ok_0.timestamp == self.slots_view()[slot@].timestamp,
            valid_identifier(slot@) && !self.slots_view().contains_key(slot@) ==> r is Err
                && r->Err_0 == StoreError::NotFound,
    {
        if !check_identifier(slot) {
            return Err(StoreError::InvalidIdentifier);
        }
        match self.find_slot(slot) {
            Some(i) => {
                proof {
                    lemma_map_of_lookup(self.slots@, i as int);
                }
                Ok(SaveInfo {
                    slot: self.slots[i].slot.clone(),
                    timestamp: self.slots[i].timestamp,
                })
            },
            None => {
                proof {
                    lemma_map_of_absent(self.slots@, slot@);
                }
                Err(StoreError::NotFound)
            },
        }
    }

    /// Lists every stored slot with its metadata, newest first, ties
    /// by identifier ascending. The listing is exactly the stored
    /// slots: nothing missing, nothing extra, no duplicates, and an
    /// empty store lists as an empty sequence, never an error.
    pub fn list_slots(&self) -> (r: Result<Vec<SaveInfo>, StoreError>)
        requires
            self.wf(),
        ensures
            r is Ok,
            sorted_newest_first(r->Ok_0@),
            forall|i: int, j: int| 0 <= i < j < r->Ok_0@.len()
                ==> info_lt(#[trigger] r->Ok_0@[i], #[trigger] r->Ok_0@[j]),
            forall|j: int| 0 <= j < r->Ok_0@.len()
                ==> self.slots_view().contains_key((#[trigger] r->Ok_0@[j]).slot@)
                    && r->Ok_0@[j].timestamp == self.slots_view()[r->Ok_0@[j].slot@].timestamp,
            forall|k: Seq<char>| self.slots_view().contains_key(k)
                ==> exists|j: int| 0 <= j < r->Ok_0@.len() && (#[trigger] r->Ok_0@[j]).slot@ == k,
    {
        let ghost s = self.slots@;
        let mut out: Vec<SaveInfo> = Vec::new();
        let n = self.slots.len();
        let mut idx: usize = 0;
        while idx < n
            invariant
                self.wf(),
                s == self.slots@,
                n == s.len(),
                0 <= idx <= n,
                sorted_newest_first(out@),
                forall|j: int| #![trigger out@[j]] 0 <= j < out@.len() ==> exists|i: int|
                    0 <= i < idx && out@[j] == info_of(#[trigger] s[i]),
                forall|i: int| 0 <= i < idx ==> out@.contains(info_of(#[trigger] s[i])),
                forall|a: int, b: int| 0 <= a < b < out@.len()
                    ==> (#[trigger] out@[a]).slot@ != (#[trigger] out@[b]).slot@,
            decreases n - idx,
        {
            let info = SaveInfo {
                slot: self.slots[idx].slot.clone(),
                timestamp: self.slots[idx].timestamp,
            };
            proof {
                assert(info == info_of(s[idx as int]));
            }
            let ghost before = out@;
            insert_sorted(&mut out, info);
            proof {
                let pos = choose|pos: int|
                    0 <= pos <= before.len() && out@ == before.insert(pos, info);
                lemma_insert_membership(before, pos, info);
                assert(out@ == before.insert(pos, info));
                assert(forall|x: SaveInfo|
                    #[trigger] out@.contains(x) <==> (before.contains(x) || x == info));
                assert forall|j: int| 0 <= j < before.len() implies
                    (#[trigger] before[j]).slot@ != info.slot@ by {
                    let i = choose|i: int| 0 <= i < idx && before[j] == info_of(s[i]);
                    assert(before[j].slot@ == s[i].slot@);
                    assert(s[i].slot@ != s[idx as int].slot@);
                }
                lemma_insert_distinct(before, pos, info);
                assert forall|j: int| #![trigger out@[j]] 0 <= j < out@.len() implies exists|i: int|
                    0 <= i < idx + 1 && out@[j] == info_of(#[trigger] s[i]) by {
                    assert(out@.contains(out@[j]));
                    if out@[j] == info {
                        assert(out@[j] == info_of(s[idx as int]));
                    } else {
                        assert(before.contains(out@[j]));
                        let jj = choose|jj: int| 0 <= jj < before.len() && before[jj] == out@[j];
                        let i = choose|i: int| 0 <= i < idx && before[jj] == info_of(s[i]);
                        assert(out@[j] == info_of(s[i]));
                    }
                }
                assert forall|i: int| 0 <= i < idx + 1 implies
                    out@.contains(info_of(#[trigger] s[i])) by {
                    if i < idx {
                        assert(before.contains(info_of(s[i])));
                    } else {
                        assert(out@.contains(info));
                    }
                }
            }
            idx += 1;
        }
        proof {
            assert forall|j: int| 0 <= j < out@.len() implies
                self.slots_view().contains_key((#[trigger] out@[j]).slot@)
                    && out@[j].timestamp == self.slots_view()[out@[j].slot@].timestamp by {
                let i = choose|i: int| 0 <= i < n && out@[j] == info_of(s[i]);
                lemma_map_of_lookup(s, i);
                assert(out@[j].slot@ == s[i].slot@);
                assert(out@[j].timestamp == s[i].timestamp);
            }
            assert forall|k: Seq<char>| self.slots_view().contains_key(k) implies
                exists|j: int| 0 <= j < out@.len() && (#[trigger] out@[j]).slot@ == k by {
                if forall|i: int| 0 <= i < s.len() ==> (#[trigger] s[i]).slot@ != k {
                    lemma_map_of_absent(s, k);
                }
                let i = choose|i: int| 0 <= i < s.len() && (#[trigger] s[i]).slot@ == k;
                assert(out@.contains(info_of(s[i])));
                let j = choose|j: int| 0 <= j < out@.len() && out@[j] == info_of(s[i]);
                assert(out@[j].slot@ == k);
            }
        }
        Ok(out)
    }

    /// First phase of a settings write: the payload is written to the
    /// settings temporary file. The settings blob itself does not
    /// change, so a crash here loses nothing. Never touches any slot
    /// file.
    pub fn begin_write_settings(&mut self, payload: String) -> (r: Result<(), StoreError>)
        requires
            old(self).wf(),
        ensures
            final(self).wf(),
            r is Ok,
            final(self).slots_view() == old(self).slots_view(),
            final(self).settings_view() == old(self).settings_view(),
            final(self).pending_view() == old(self).pending_view(),
            final(self).pending_settings_view() == Some(payload@),
    {
        self.pending_settings = Some(payload);
        Ok(())
    }

    /// Second phase of a settings write: the temporary file is renamed
    /// over the settings file, replacing its whole content in one
    /// step.
    pub fn commit_write_settings(&mut self)
        requires
            old(self).wf(),
            old(self).pending_settings_view() is Some,
        ensures
            final(self).wf(),
            final(self).settings_view() == old(self).pending_settings_view(),
            final(self).pending_settings_view() is None,
            final(self).slots_view() == old(self).slots_view(),
            final(self).pending_view() == old(self).pending_view(),
    {
        let p = self.pending_settings.take();
        match p {
            Some(s) => {
                self.settings = Some(s);
            },
            None => {},
        }
    }

    /// A crash, or a deliberate cleanup, between the two phases of a
    /// settings write: the temporary file disappears and the settings
    /// blob is exactly as it was.
    pub fn abort_write_settings(&mut self)
        requires
            old(self).wf(),
        ensures
            final(self).wf(),
            final(self).pending_settings_view() is None,
            final(self).slots_view() == old(self).slots_view(),
            final(self).settings_view() == old(self).settings_view(),
            final(self).pending_view() == old(self).pending_view(),
    {
        self.pending_settings = None;
    }

    /// Replaces the settings blob in its entirety, creating it on
    /// first write, with the same two-phase atomic strategy as a slot
    /// write. Never touches any slot file.
    pub fn write_settings(&mut self, payload: String) -> (r: Result<(), StoreError>)
        requires
            old(self).wf(),
        ensures
            final(self).wf(),
            r is Ok,
            final(self).settings_view() == Some(payload@),
            final(self).slots_view() == old(self).slots_view(),
            final(self).pending_view() == old(self).pending_view(),
            final(self).pending_settings_view() is None,
    {
        let r = self.begin_write_settings(payload);
        match r {
            Ok(_) => {
                self.commit_write_settings();
                Ok(())
            },
            Err(e) => Err(e),
        }
    }

    /// Reads the settings blob; before any write it is `NotFound`,
    /// never an empty payload. Never touches any slot file.
    pub fn read_settings(&self) -> (r: Result<String, StoreError>)
        requires
            self.wf(),
        ensures
            self.settings_view() is Some ==> r is Ok && Some(r->Ok_0@) == self.settings_view(),
            self.settings_view() is None ==> r is Err && r->Err_0 == StoreError::NotFound,
    {
        match &self.settings {
            Some(s) => Ok(s.clone()),
            None => Err(StoreError::NotFound),
        }
    }
}

/// Round-trip: writing a payload under an identifier and then reading
/// that identifier returns exactly that payload, whatever was stored
/// before.
pub proof fn lemma_write_then_read(
    m: Map<Seq<char>, SlotView>,
    id: Seq<char>,
    payload: Seq<char>,
    timestamp: u64,
)
    ensures
        m.insert(id, (SlotView { payload, timestamp })).contains_key(id),
        m.insert(id, (SlotView { payload, timestamp }))[id].payload == payload,
{
}

/// Idempotent delete: removing an identifier that holds no file leaves
/// the slot map exactly as it was.
pub proof fn lemma_delete_absent_is_noop(m: Map<Seq<char>, SlotView>, id: Seq<char>)
    requires
        !m.contains_key(id),
    ensures
        m.remove(id) == m,
{
    assert(m.remove(id) =~= m);
}

/// Atomicity of the rename step: committing a write replaces the one
/// written slot and leaves every other slot exactly as it was — no
/// slot is ever a mixture of old and new content. (The phase before
/// the rename changes no slot at all: `begin_write_slot` and
/// `abort_write_slot` keep the slot map unchanged by their contracts.)
pub proof fn lemma_commit_replaces_exactly_one(
    m: Map<Seq<char>, SlotView>,
    id: Seq<char>,
    payload: Seq<char>,
    timestamp: u64,
)
    ensures
        m.insert(id, (SlotView { payload, timestamp }))[id]
            == (SlotView { payload, timestamp }),
        forall|k: Seq<char>| k != id
            ==> m.insert(id, (SlotView { payload, timestamp })).contains_key(k)
                == m.contains_key(k),
        forall|k: Seq<char>| k != id && m.contains_key(k)
            ==> m.insert(id, (SlotView { payload, timestamp }))[k] == m[k],
{
}

} // verus!
