//! Per-set wiring: the whole mutation-domain state of one preference set,
//! and the ordered steps its host runs once per tick.
//!
//! The host owns the loop and the background workers; this module owns the
//! decisions. Each tick the host hands in what it observed of the
//! background read and takes back at most one save task to carry away;
//! everything between — applying a finished load, the save debounce, the
//! spending of the change flags — is [`PrefsState::tick`].

use vstd::prelude::*;

use crate::laws::lemma_load_result_shape;
use crate::pipeline::{
    build_load_batch, opt_record, spec_load_result, LoadPoll, LoadState, SaveTask,
};
use crate::status::{PrefsSettings, PrefsStatus};
use crate::value::{
    clone_set, lemma_same_kind_refl, matches_schema, same_kind, FieldModel, FieldValue, PrefField,
    PreferenceSet,
};

verus! {

/// Whether any field changed this tick.
pub open spec fn any_changed(ch: Seq<bool>) -> bool {
    exists|i: int| 0 <= i < ch.len() && ch[i]
}

/// The whole mutation-domain state of one preference set: the declared
/// defaults, the live fields with their change flags, the status the host
/// reads, and the load pipeline's state. Background work never touches a
/// value of this type; it crosses in and out by value.
pub struct PrefsState {
    /// The declared fields with their default values: the schema.
    pub defaults: PreferenceSet,
    /// Every field's current value.
    pub current: PreferenceSet,
    /// One changed-since-last-tick flag per field.
    pub changed: Vec<bool>,
    /// Where this set's record is persisted.
    pub settings: PrefsSettings,
    /// The status the host can gate on.
    pub status: PrefsStatus,
    /// Whether the status itself flipped this tick: the save debounce.
    pub status_changed: bool,
    /// The startup load's state.
    pub load: LoadState,
}

impl PrefsState {
    /// Well-formed: one flag per field, and the current values instantiate
    /// the declared schema.
    pub open spec fn wf(self) -> bool {
        &&& self.changed@.len() == self.defaults@.len()
        &&& matches_schema(self.current@, self.defaults@)
    }

    /// Installs one preference set: every field at its default, status not
    /// loaded, no load scheduled yet. Installation counts as a change of
    /// every field and of the status itself, which is what the save
    /// debounce expects on the first tick.
    pub fn register(defaults: PreferenceSet, settings: PrefsSettings) -> (r: PrefsState)
        ensures
            r.wf(),
            r.defaults@ == defaults@,
            r.current@ == defaults@,
            r.changed@.len() == defaults@.len(),
            forall|i: int| 0 <= i < r.changed@.len() ==> r.changed@[i],
            !r.status.loaded,
            r.status_changed,
            r.load is Idle,
            r.settings == settings,
    {
        let current = clone_set(&defaults);
        let n = defaults.fields.len();
        let mut changed: Vec<bool> = Vec::new();
        let mut i: usize = 0;
        while i < n
            invariant
                i <= n,
                changed@.len() == i as int,
                forall|k: int| 0 <= k < i ==> changed@[k],
            decreases n - i,
        {
            changed.push(true);
            i += 1;
        }
        proof {
            assert forall|j: int| 0 <= j < defaults@.len() implies same_kind(
                (#[trigger] defaults@[j]).value,
                defaults@[j].value,
            ) by {
                lemma_same_kind_refl(defaults@[j].value);
            }
        }
        PrefsState {
            current,
            defaults,
            changed,
            settings,
            status: PrefsStatus::default(),
            status_changed: true,
            load: LoadState::Idle,
        }
    }

    /// Schedules the startup load: the background read is now in flight.
    pub fn start_load(&mut self)
        requires
            old(self).load is Idle,
        ensures
            final(self).load is Running,
            final(self).defaults == old(self).defaults,
            final(self).current == old(self).current,
            final(self).changed == old(self).changed,
            final(self).settings == old(self).settings,
            final(self).status == old(self).status,
            final(self).status_changed == old(self).status_changed,
    {
        self.load = LoadState::Running;
    }

    /// The host writes one field and it is marked changed. A field keeps
    /// its name and its declared kind for the program's lifetime.
    pub fn set_field(&mut self, i: usize, v: FieldValue)
        requires
            old(self).wf(),
            i < old(self).defaults@.len(),
            same_kind(v@, old(self).defaults@[i as int].value),
        ensures
            final(self).wf(),
            final(self).current@ == old(self).current@.update(
                i as int,
                (FieldModel { name: old(self).current@[i as int].name, value: v@ }),
            ),
            final(self).changed@ == old(self).changed@.update(i as int, true),
            final(self).defaults == old(self).defaults,
            final(self).settings == old(self).settings,
            final(self).status == old(self).status,
            final(self).status_changed == old(self).status_changed,
            final(self).load == old(self).load,
    {
        proof {
            assert(self.current@[i as int] == self.current.fields@[i as int]@);
        }
        let name = self.current.fields[i].name.clone();
        self.current.fields.set(i, PrefField { name, value: v });
        self.changed.set(i, true);
        proof {
            assert(self.current@ =~= old(self).current@.update(
                i as int,
                FieldModel { name: old(self).current@[i as int].name, value: v@ },
            ));
            assert(self.changed@ =~= old(self).changed@.update(i as int, true));
        }
    }

    /// The tick's poll step: a read that finished while the load is in
    /// flight becomes the pending mutation batch, without blocking. A poll
    /// at any other time changes nothing.
    pub fn poll_load(&mut self, poll: LoadPoll)
        ensures
            old(self).load is Running ==> (poll matches LoadPoll::Ready(rd) ==> (
            final(self).load matches LoadState::Completed(b) && b.values@ == spec_load_result(
                old(self).defaults@,
                opt_record(rd),
            ))),
            !(old(self).load is Running && poll is Ready) ==> final(self).load == old(self).load,
            final(self).defaults == old(self).defaults,
            final(self).current == old(self).current,
            final(self).changed == old(self).changed,
            final(self).settings == old(self).settings,
            final(self).status == old(self).status,
            final(self).status_changed == old(self).status_changed,
    {
        let is_running = match &self.load {
            LoadState::Running => true,
            _ => false,
        };
        if is_running {
            match poll {
                LoadPoll::Ready(rd) => {
                    let b = build_load_batch(&self.defaults, rd);
                    self.load = LoadState::Completed(b);
                },
                LoadPoll::Pending => {},
            }
        }
    }

    /// The tick's apply step: a pending batch is written into the fields,
    /// all of them in one pass, and then the status flips to loaded. The
    /// batch's writes count as changes, as does the status flip. Without a
    /// pending batch nothing moves.
    pub fn apply_load(&mut self)
        requires
            old(self).wf(),
            (old(self).load matches LoadState::Completed(b) ==> matches_schema(
                b.values@,
                old(self).defaults@,
            )),
        ensures
            final(self).wf(),
            (old(self).load matches LoadState::Completed(b) ==> final(self).current@ == b.values@
                && final(self).status.loaded && final(self).status_changed
                && final(self).load is Applied
                && final(self).changed@.len() == old(self).changed@.len()
                && (forall|i: int| 0 <= i < final(self).changed@.len() ==> final(self).changed@[i])),
            !(old(self).load is Completed) ==> *final(self) == *old(self),
            final(self).defaults == old(self).defaults,
            final(self).settings == old(self).settings,
            old(self).status.loaded ==> final(self).status.loaded,
    {
        let mut vals_opt: Option<PreferenceSet> = None;
        match &self.load {
            LoadState::Completed(b) => {
                vals_opt = Some(clone_set(&b.values));
            },
            _ => {},
        }
        match vals_opt {
            Some(vals) => {
                self.current = vals;
                self.load = LoadState::Applied;
                self.status.loaded = true;
                self.status_changed = true;
                let n = self.changed.len();
                let mut ch: Vec<bool> = Vec::new();
                let mut i: usize = 0;
                while i < n
                    invariant
                        i <= n,
                        ch@.len() == i as int,
                        forall|k: int| 0 <= k < i ==> ch@[k],
                    decreases n - i,
                {
                    ch.push(true);
                    i += 1;
                }
                self.changed = ch;
            },
            None => {},
        }
    }

    /// The per-tick save decision, run strictly after the apply step. No
    /// changed field, no save. A status flip this tick — a load just
    /// landed, so the fields' changes are loaded values, not user edits —
    /// no save. Otherwise exactly one save task, however many fields
    /// changed, carrying a snapshot of every field's current value.
    pub fn save_trigger(&self) -> (r: Option<SaveTask>)
        requires
            self.wf(),
        ensures
            (r is Some) == (any_changed(self.changed@) && !self.status_changed),
            (r matches Some(t) ==> t.snapshot@ == self.current@),
    {
        let n = self.changed.len();
        let mut any = false;
        let mut i: usize = 0;
        while i < n
            invariant
                i <= n,
                n == self.changed@.len(),
                any == (exists|k: int| 0 <= k < i && self.changed@[k]),
            decreases n - i,
        {
            if self.changed[i] {
                any = true;
            }
            i += 1;
        }
        if !any {
            return None;
        }
        if self.status_changed {
            return None;
        }
        Some(SaveTask { snapshot: clone_set(&self.current) })
    }

    /// The tick's last step: the change flags and the status flip are
    /// spent, so the next tick starts clean.
    pub fn end_tick(&mut self)
        ensures
            final(self).changed@.len() == old(self).changed@.len(),
            forall|i: int| 0 <= i < final(self).changed@.len() ==> !final(self).changed@[i],
            !final(self).status_changed,
            final(self).defaults == old(self).defaults,
            final(self).current == old(self).current,
            final(self).settings == old(self).settings,
            final(self).status == old(self).status,
            final(self).load == old(self).load,
    {
        let n = self.changed.len();
        let mut ch: Vec<bool> = Vec::new();
        let mut i: usize = 0;
        while i < n
            invariant
                i <= n,
                ch@.len() == i as int,
                forall|k: int| 0 <= k < i ==> !ch@[k],
            decreases n - i,
        {
            ch.push(false);
            i += 1;
        }
        self.changed = ch;
        self.status_changed = false;
    }

    /// One tick of the orchestrator's schedule, in order: poll the load
    /// and apply a finished batch, run the save trigger, spend the tick's
    /// flags.
    ///
    /// The tick that applies a load spawns no save task, though every
    /// field moved from its default to its loaded value. A tick in which
    /// no field changed spawns none either. Any other tick with at least
    /// one changed field spawns exactly one, whose snapshot holds every
    /// field's value after all of the tick's mutations.
    pub fn tick(&mut self, poll: LoadPoll) -> (r: Option<SaveTask>)
        requires
            old(self).wf(),
            !(old(self).load is Completed),
        ensures
            final(self).wf(),
            final(self).defaults == old(self).defaults,
            final(self).settings == old(self).settings,
            old(self).load is Running ==> (poll matches LoadPoll::Ready(rd) ==> (
                final(self).current@ == spec_load_result(old(self).defaults@, opt_record(rd))
                && final(self).status.loaded && final(self).load is Applied && r is None)),
            !(old(self).load is Running && poll is Ready) ==> (
                final(self).current == old(self).current
                && final(self).status == old(self).status
                && final(self).load == old(self).load
                && ((r is Some) == (any_changed(old(self).changed@) && !old(self).status_changed))),
            (r matches Some(t) ==> t.snapshot@ == final(self).current@),
            final(self).changed@.len() == old(self).changed@.len(),
            forall|i: int| 0 <= i < final(self).changed@.len() ==> !final(self).changed@[i],
            !final(self).status_changed,
            old(self).status.loaded ==> final(self).status.loaded,
    {
        let ghost gpoll = poll;
        self.poll_load(poll);
        proof {
            match gpoll {
                LoadPoll::Ready(rd) => {
                    lemma_load_result_shape(old(self).defaults@, opt_record(rd));
                },
                LoadPoll::Pending => {},
            }
        }
        self.apply_load();
        let r = self.save_trigger();
        self.end_tick();
        r
    }
}

} // verus!
