//! The registry: named, kind-checked state slots with a map model, and the
//! two channel endpoints — building outbound envelopes and applying inbound
//! ones.

use vstd::prelude::*;

use crate::json::{encode_value, parse_value, spec_encode, spec_parse};
use crate::json::lemma_parse_well_kinded;
use crate::model::{kind_of, storable, InternalModel, InternalState, Kind, StateUpdate, StateValue, SyncError, ValModel};
use vstd::string::StringExecFns;

verus! {

/// One key binding in the registry.
struct Entry {
    key: String,
    value: StateValue,
}

/// Each key is bound at most once.
spec fn keys_unique(s: Seq<Entry>) -> bool {
    forall|i: int, j: int| 0 <= i < j < s.len() ==> s[i].key@ != s[j].key@
}

/// The map a sequence of bindings denotes: later bindings win.
spec fn entries_map(s: Seq<Entry>) -> Map<Seq<char>, ValModel>
    decreases s.len(),
{
    if s.len() == 0 {
        Map::empty()
    } else {
        entries_map(s.drop_last()).insert(s.last().key@, s.last().value@)
    }
}

proof fn lemma_entries_map_index(s: Seq<Entry>, i: int)
    requires
        keys_unique(s),
        0 <= i < s.len(),
    ensures
        entries_map(s).dom().contains(s[i].key@),
        entries_map(s)[s[i].key@] == s[i].value@,
    decreases s.len(),
{
    if i < s.len() - 1 {
        let a = s.drop_last();
        assert(keys_unique(a)) by {
            assert(forall|x: int, y: int|
                0 <= x < y < a.len() ==> a[x] == s[x] && a[y] == s[y]);
        }
        assert(a[i] == s[i]);
        lemma_entries_map_index(a, i);
        assert(s[i].key@ != s.last().key@);
    }
}

proof fn lemma_entries_map_absent(s: Seq<Entry>, k: Seq<char>)
    requires
        forall|i: int| 0 <= i < s.len() ==> s[i].key@ != k,
    ensures
        !entries_map(s).dom().contains(k),
    decreases s.len(),
{
    if s.len() > 0 {
        let a = s.drop_last();
        assert(forall|i: int| 0 <= i < a.len() ==> a[i] == s[i]);
        lemma_entries_map_absent(a, k);
        assert(s[s.len() - 1].key@ != k);
    }
}

proof fn lemma_entries_map_update(s: Seq<Entry>, i: int, e: Entry)
    requires
        keys_unique(s),
        0 <= i < s.len(),
        e.key@ == s[i].key@,
    ensures
        entries_map(s.update(i, e)) == entries_map(s).insert(e.key@, e.value@),
        keys_unique(s.update(i, e)),
    decreases s.len(),
{
    let s2 = s.update(i, e);
    assert(keys_unique(s2)) by {
        assert(forall|x: int| 0 <= x < s.len() ==> s2[x].key@ == s[x].key@);
    }
    if i == s.len() - 1 {
        assert(s2.drop_last() =~= s.drop_last());
        assert(s2.last() == e);
        assert(entries_map(s.drop_last()).insert(s.last().key@, s.last().value@).insert(
            e.key@,
            e.value@,
        ) =~= entries_map(s.drop_last()).insert(e.key@, e.value@));
    } else {
        let a = s.drop_last();
        assert(keys_unique(a)) by {
            assert(forall|x: int, y: int|
                0 <= x < y < a.len() ==> a[x] == s[x] && a[y] == s[y]);
        }
        assert(a[i] == s[i]);
        lemma_entries_map_update(a, i, e);
        assert(s2.drop_last() =~= a.update(i, e));
        assert(s2.last() == s.last());
        assert(s[i].key@ != s.last().key@);
        assert(entries_map(a).insert(e.key@, e.value@).insert(s.last().key@, s.last().value@)
            =~= entries_map(a).insert(s.last().key@, s.last().value@).insert(e.key@, e.value@));
    }
}

proof fn lemma_entries_map_push(s: Seq<Entry>, e: Entry)
    ensures
        entries_map(s.push(e)) == entries_map(s).insert(e.key@, e.value@),
{
    assert(s.push(e).drop_last() =~= s);
    assert(s.push(e).last() == e);
}

/// A handle on a value read from the registry: the snapshot taken while the
/// registry granted exclusive access to the slot.
#[derive(Clone)]
pub struct Item<T> {
    value: T,
}

impl<T> Item<T> {
    /// The value the handle holds.
    pub closed spec fn val(&self) -> T {
        self.value
    }

    /// Access to the held value.
    pub fn lock(&self) -> (r: &T)
        ensures
            *r == self.val(),
    {
        &self.value
    }

    /// Gives up the handle for the value itself.
    pub fn into_inner(self) -> (r: T)
        ensures
            r == self.val(),
    {
        self.value
    }
}

/// One outbound publication: the topic it goes out on and the envelope.
pub struct Emission {
    pub topic: String,
    pub update: StateUpdate,
}

/// One inbound dispatch rule: envelopes whose name equals `key` are decoded
/// at `kind` and applied under that key.
pub struct Handler {
    pub key: String,
    pub kind: Kind,
}

/// The kind the first matching handler assigns to `name`, if any handler
/// matches.
pub open spec fn lookup_handler(t: Seq<Handler>, name: Seq<char>) -> Option<Kind>
    decreases t.len(),
{
    if t.len() == 0 {
        None
    } else if t[0].key@ == name {
        Some(t[0].kind)
    } else {
        lookup_handler(t.drop_first(), name)
    }
}

/// What handling one inbound envelope did.
#[derive(Clone, Copy, PartialEq, Eq, Structural, Debug)]
pub enum InboundOutcome {
    Applied,
    UnknownKey,
    DroppedMalformed,
    DroppedMismatch,
}

/// The state registry: a map from string keys to kind-tagged values. Its
/// model is the map from key characters to value models; each key is bound
/// at most once.
pub struct Syncer {
    entries: Vec<Entry>,
}

impl View for Syncer {
    type V = Map<Seq<char>, ValModel>;

    closed spec fn view(&self) -> Map<Seq<char>, ValModel> {
        entries_map(self.entries@)
    }
}

impl Syncer {
    /// Well-formedness: each key is bound at most once.
    pub closed spec fn wf(&self) -> bool {
        keys_unique(self.entries@)
    }

    /// A fresh registry with no bindings.
    pub fn new() -> (s: Syncer)
        ensures
            s.wf(),
            s@ == Map::<Seq<char>, ValModel>::empty(),
    {
        let s = Syncer { entries: Vec::new() };
        proof {
            assert(s@ =~= Map::<Seq<char>, ValModel>::empty());
        }
        s
    }

    /// The index of the binding for `key`, if the key is bound.
    fn find(&self, key: &str) -> (r: Option<usize>)
        ensures
            match r {
                Some(i) => i < self.entries@.len() && self.entries@[i as int].key@ == key@,
                None => forall|j: int|
                    0 <= j < self.entries@.len() ==> self.entries@[j].key@ != key@,
            },
    {
        let k = key.to_owned();
        let n = self.entries.len();
        let mut i: usize = 0;
        while i < n
            invariant
                i <= n,
                n == self.entries@.len(),
                k@ == key@,
                forall|j: int| 0 <= j < i ==> self.entries@[j].key@ != key@,
            decreases n - i,
        {
            if self.entries[i].key == k {
                return Some(i);
            }
            i = i + 1;
        }
        None
    }

    /// Inserts or wholesale-replaces the binding for `key`. Always succeeds;
    /// an existing binding is overwritten whatever its kind.
    pub fn set(&mut self, key: &str, value: StateValue)
        requires
            old(self).wf(),
        ensures
            final(self).wf(),
            final(self)@ == old(self)@.insert(key@, value@),
    {
        let ghost s0 = self.entries@;
        match self.find(key) {
            Some(i) => {
                self.entries[i].value = value;
                proof {
                    lemma_entries_map_update(s0, i as int, self.entries@[i as int]);
                    assert(self.entries@ =~= s0.update(i as int, self.entries@[i as int]));
                }
            },
            None => {
                let k = key.to_owned();
                self.entries.push(Entry { key: k, value });
                proof {
                    let e = self.entries@.last();
                    assert(self.entries@ =~= s0.push(e));
                    lemma_entries_map_push(s0, e);
                    assert(keys_unique(s0.push(e))) by {
                        assert(forall|x: int| 0 <= x < s0.len() ==> s0.push(e)[x] == s0[x]);
                    }
                }
            },
        }
    }

    /// Replaces the value for `key` when the existing binding has the same
    /// kind; binds the key as `set` does when it is unbound. On a kind
    /// mismatch the registry is unchanged and the mismatch is reported.
    pub fn update(&mut self, key: &str, new_value: StateValue) -> (r: Result<(), SyncError>)
        requires
            old(self).wf(),
        ensures
            final(self).wf(),
            r is Ok <==> (!old(self)@.dom().contains(key@) || kind_of(old(self)@[key@])
                == kind_of(new_value@)),
            r is Ok ==> final(self)@ == old(self)@.insert(key@, new_value@),
            r is Err ==> final(self)@ == old(self)@ && r == Err::<(), SyncError>(
                SyncError::TypeMismatch,
            ),
    {
        let ghost s0 = self.entries@;
        match self.find(key) {
            Some(i) => {
                proof {
                    lemma_entries_map_index(s0, i as int);
                }
                let existing_kind = self.entries[i].value.kind();
                let new_kind = new_value.kind();
                if existing_kind == new_kind {
                    self.entries[i].value = new_value;
                    proof {
                        lemma_entries_map_update(s0, i as int, self.entries@[i as int]);
                        assert(self.entries@ =~= s0.update(i as int, self.entries@[i as int]));
                    }
                    Ok(())
                } else {
                    Err(SyncError::TypeMismatch)
                }
            },
            None => {
                proof {
                    lemma_entries_map_absent(s0, key@);
                }
                self.set(key, new_value);
                Ok(())
            },
        }
    }

    /// Parses `payload` at `kind` and applies it as an `update`. A malformed
    /// payload is dropped: the registry is unchanged and the failure is
    /// reported, so one bad remote message cannot corrupt existing state.
    pub fn update_string(&mut self, key: &str, kind: Kind, payload: &str) -> (r: Result<
        (),
        SyncError,
    >)
        requires
            old(self).wf(),
        ensures
            final(self).wf(),
            match spec_parse(kind, payload@) {
                None => r == Err::<(), SyncError>(SyncError::Malformed) && final(self)@ == old(
                    self,
                )@,
                Some(m) => {
                    &&& (r is Ok <==> (!old(self)@.dom().contains(key@) || kind_of(
                        old(self)@[key@],
                    ) == kind))
                    &&& (r is Ok ==> final(self)@ == old(self)@.insert(key@, m))
                    &&& (r is Err ==> final(self)@ == old(self)@ && r == Err::<(), SyncError>(
                        SyncError::TypeMismatch,
                    ))
                },
            },
    {
        match parse_value(kind, payload) {
            Some(v) => {
                proof {
                    lemma_parse_well_kinded(kind, payload@);
                }
                self.update(key, v)
            },
            None => Err(SyncError::Malformed),
        }
    }

    /// A snapshot handle for the value bound to `key`: granted when the key
    /// is bound and the binding has the requested kind, refused with the
    /// exact reason otherwise.
    pub fn get(&self, key: &str, kind: Kind) -> (r: Result<Item<StateValue>, SyncError>)
        requires
            self.wf(),
        ensures
            r is Ok <==> (self@.dom().contains(key@) && kind_of(self@[key@]) == kind),
            r matches Ok(item) ==> item.val()@ == self@[key@],
            r == Err::<Item<StateValue>, SyncError>(SyncError::KeyMissing)
                <==> !self@.dom().contains(key@),
            r == Err::<Item<StateValue>, SyncError>(SyncError::TypeMismatch)
                <==> (self@.dom().contains(key@) && kind_of(self@[key@]) != kind),
    {
        match self.find(key) {
            Some(i) => {
                proof {
                    lemma_entries_map_index(self.entries@, i as int);
                }
                let existing_kind = self.entries[i].value.kind();
                if existing_kind == kind {
                    let value = self.entries[i].value.clone();
                    Ok(Item { value })
                } else {
                    Err(SyncError::TypeMismatch)
                }
            },
            None => {
                proof {
                    lemma_entries_map_absent(self.entries@, key@);
                }
                Err(SyncError::KeyMissing)
            },
        }
    }

    /// Builds the outbound publication for `name`: an envelope carrying the
    /// current value's wire encoding, addressed to the per-key topic
    /// `<name>_update`. Emission is a separate, explicit step — no update
    /// triggers it by itself — which is what keeps remote updates from
    /// echoing back out.
    pub fn emit(&self, name: &str) -> (r: Result<Emission, SyncError>)
        requires
            self.wf(),
        ensures
            r is Ok <==> self@.dom().contains(name@),
            r matches Ok(em) ==> em.update.name@ == name@ && em.update.value@ == spec_encode(
                self@[name@],
            ) && em.update.version is None && em.topic@ == name@ + "_update"@,
            r is Err ==> r == Err::<Emission, SyncError>(SyncError::KeyMissing),
    {
        match self.find(name) {
            Some(i) => {
                proof {
                    lemma_entries_map_index(self.entries@, i as int);
                }
                let value = encode_value(&self.entries[i].value);
                let topic = name.to_owned().concat("_update");
                Ok(
                    Emission {
                        topic,
                        update: StateUpdate { version: None, name: name.to_owned(), value },
                    },
                )
            },
            None => {
                proof {
                    lemma_entries_map_absent(self.entries@, name@);
                }
                Err(SyncError::KeyMissing)
            },
        }
    }

    /// Applies one inbound envelope: looks up the handler registered for the
    /// envelope's name, decodes the payload at the handler's kind, and
    /// writes the decoded value. An unknown name is ignored, a malformed
    /// payload or a kind mismatch leaves the registry unchanged, and
    /// applying never publishes, so a remote update cannot loop back.
    pub fn apply_envelope(&mut self, handlers: &Vec<Handler>, envelope: &StateUpdate) -> (r:
        InboundOutcome)
        requires
            old(self).wf(),
        ensures
            final(self).wf(),
            match lookup_handler(handlers@, envelope.name@) {
                None => r == InboundOutcome::UnknownKey && final(self)@ == old(self)@,
                Some(kind) => match spec_parse(kind, envelope.value@) {
                    None => r == InboundOutcome::DroppedMalformed && final(self)@ == old(self)@,
                    Some(m) => if !old(self)@.dom().contains(envelope.name@) || kind_of(
                        old(self)@[envelope.name@],
                    ) == kind {
                        r == InboundOutcome::Applied && final(self)@ == old(self)@.insert(
                            envelope.name@,
                            m,
                        )
                    } else {
                        r == InboundOutcome::DroppedMismatch && final(self)@ == old(self)@
                    },
                },
            },
    {
        let n = handlers.len();
        let mut i: usize = 0;
        let mut found: Option<Kind> = None;
        proof {
            assert(handlers@.skip(0) =~= handlers@);
        }
        while i < n && found.is_none()
            invariant
                i <= n,
                n == handlers@.len(),
                match found {
                    None => lookup_handler(handlers@, envelope.name@) == lookup_handler(
                        handlers@.skip(i as int),
                        envelope.name@,
                    ),
                    Some(k) => lookup_handler(handlers@, envelope.name@) == Some(k),
                },
            decreases n - i, (if found is None { 1int } else { 0int }),
        {
            proof {
                assert(handlers@.skip(i as int)[0] == handlers@[i as int]);
                assert(handlers@.skip(i as int).drop_first() =~= handlers@.skip((i + 1) as int));
            }
            if handlers[i].key == envelope.name {
                found = Some(handlers[i].kind);
            } else {
                i = i + 1;
            }
        }
        proof {
            if found is None {
                assert(handlers@.skip(i as int).len() == 0);
            }
        }
        match found {
            None => InboundOutcome::UnknownKey,
            Some(kind) => {
                match self.update_string(envelope.name.as_str(), kind, envelope.value.as_str()) {
                    Ok(()) => InboundOutcome::Applied,
                    Err(e) => {
                        if e == SyncError::Malformed {
                            InboundOutcome::DroppedMalformed
                        } else {
                            InboundOutcome::DroppedMismatch
                        }
                    },
                }
            },
        }
    }
}

proof fn lemma_entries_map_values(s: Seq<Entry>, k: Seq<char>)
    requires
        entries_map(s).dom().contains(k),
    ensures
        exists|i: int| 0 <= i < s.len() && s[i].key@ == k && s[i].value@ == entries_map(s)[k],
    decreases s.len(),
{
    if s.len() == 0 {
        assert(false);
    } else if k == s.last().key@ {
        assert(s[s.len() - 1].key@ == k && s[s.len() - 1].value@ == entries_map(s)[k]);
    } else {
        let a = s.drop_last();
        lemma_entries_map_values(a, k);
        let i = choose|i: int| 0 <= i < a.len() && a[i].key@ == k && a[i].value@ == entries_map(
            a,
        )[k];
        assert(s[i] == a[i]);
    }
}

impl Syncer {
    /// Every value the registry holds is storable, so every value `emit`
    /// publishes survives the round trip through `update_string`.
    pub proof fn values_storable(&self, k: Seq<char>)
        requires
            self@.dom().contains(k),
        ensures
            storable(self@[k]),
    {
        lemma_entries_map_values(self.entries@, k);
        let i = choose|i: int|
            0 <= i < self.entries@.len() && self.entries@[i].key@ == k && self.entries@[i].value@
                == self@[k];
        let v = self.entries@[i].value;
        assert(storable(v@));
    }
}

/// Handles the greet command: marks the application state under the
/// `InternalState` key authenticated, keeping the stored name, and returns
/// the greeting for `name`.
pub fn greet(syncer: &mut Syncer, name: &str) -> (r: Result<String, SyncError>)
    requires
        old(syncer).wf(),
    ensures
        final(syncer).wf(),
        r is Ok <==> (old(syncer)@.dom().contains("InternalState"@) && old(
            syncer,
        )@["InternalState"@] matches ValModel::Internal(_)),
        r matches Ok(msg) ==> msg@ == "Hello, "@ + name@ + "! You've been greeted from Rust!"@,
        old(syncer)@.dom().contains("InternalState"@) ==> (old(syncer)@["InternalState"@] matches
            ValModel::Internal(im) ==> final(syncer)@ == old(syncer)@.insert(
            "InternalState"@,
            ValModel::Internal(InternalModel { authenticated: true, name: im.name }),
        )),
        r is Err ==> final(syncer)@ == old(syncer)@,
        r == Err::<String, SyncError>(SyncError::KeyMissing) <==> !old(syncer)@.dom().contains(
            "InternalState"@,
        ),
{
    match syncer.get("InternalState", Kind::Internal) {
        Ok(item) => {
            let current = item.lock();
            match current {
                StateValue::Internal(st) => {
                    let updated = InternalState { authenticated: true, name: st.name.clone() };
                    match syncer.update("InternalState", StateValue::Internal(updated)) {
                        Ok(()) => {},
                        Err(e) => {
                            return Err(e);
                        },
                    }
                    let greeting = "Hello, ".to_owned().concat(name).concat(
                        "! You've been greeted from Rust!",
                    );
                    Ok(greeting)
                },
                _ => Err(SyncError::TypeMismatch),
            }
        },
        Err(e) => Err(e),
    }
}

} // verus!
