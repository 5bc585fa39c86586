//! The data model: state values, their mathematical models, kinds, errors,
//! and the update envelope that crosses the synchronization channel.

use vstd::prelude::*;

verus! {

/// The kind of a state value. Once a key is bound to a kind, typed access
/// for that key must name the same kind; a mismatch is reported as an error
/// instead of being assumed away.
#[derive(Clone, Copy, PartialEq, Eq, Structural, Debug)]
pub enum Kind {
    Int,
    Text,
    Flag,
    Internal,
}

/// Backend-visible application state synchronized with the frontend.
#[derive(Debug)]
pub struct InternalState {
    pub authenticated: bool,
    pub name: String,
}

/// One state value as stored in the registry: a tagged union of the known
/// state kinds, so that recovering a typed value is a checked match rather
/// than an unchecked cast.
pub enum StateValue {
    Int(i64),
    Text(String),
    Flag(bool),
    Internal(InternalState),
}

/// Mathematical model of an `InternalState`.
pub struct InternalModel {
    pub authenticated: bool,
    pub name: Seq<char>,
}

/// Mathematical model of a `StateValue`: the same tagged union over
/// unbounded integers and character sequences.
pub enum ValModel {
    Int(int),
    Text(Seq<char>),
    Flag(bool),
    Internal(InternalModel),
}

impl View for InternalState {
    type V = InternalModel;

    open spec fn view(&self) -> InternalModel {
        InternalModel { authenticated: self.authenticated, name: self.name@ }
    }
}

impl View for StateValue {
    type V = ValModel;

    open spec fn view(&self) -> ValModel {
        match self {
            StateValue::Int(i) => ValModel::Int(*i as int),
            StateValue::Text(s) => ValModel::Text(s@),
            StateValue::Flag(b) => ValModel::Flag(*b),
            StateValue::Internal(st) => ValModel::Internal(st@),
        }
    }
}

/// The kind a model value falls under.
pub open spec fn kind_of(m: ValModel) -> Kind {
    match m {
        ValModel::Int(_) => Kind::Int,
        ValModel::Text(_) => Kind::Text,
        ValModel::Flag(_) => Kind::Flag,
        ValModel::Internal(_) => Kind::Internal,
    }
}

/// A model integer that fits the stored representation.
pub open spec fn in_i64_range(i: int) -> bool {
    i64::MIN <= i <= i64::MAX
}

/// A model value the registry can hold: its integers fit the stored
/// representation. The view of every stored value is storable.
pub open spec fn storable(m: ValModel) -> bool {
    m matches ValModel::Int(i) ==> in_i64_range(i)
}

impl StateValue {
    /// The kind of this value.
    pub fn kind(&self) -> (k: Kind)
        ensures
            k == kind_of(self@),
    {
        match self {
            StateValue::Int(_) => Kind::Int,
            StateValue::Text(_) => Kind::Text,
            StateValue::Flag(_) => Kind::Flag,
            StateValue::Internal(_) => Kind::Internal,
        }
    }
}

impl Clone for InternalState {
    fn clone(&self) -> (r: Self)
        ensures
            r == *self,
    {
        InternalState { authenticated: self.authenticated, name: self.name.clone() }
    }
}

impl Clone for StateValue {
    fn clone(&self) -> (r: Self)
        ensures
            r == *self,
    {
        match self {
            StateValue::Int(i) => StateValue::Int(*i),
            StateValue::Text(s) => StateValue::Text(s.clone()),
            StateValue::Flag(b) => StateValue::Flag(*b),
            StateValue::Internal(st) => StateValue::Internal(st.clone()),
        }
    }
}

/// How a registry operation can fail. The reference for each variant:
/// a missing key on typed read, a kind mismatch between the stored slot
/// and the requested kind, and a payload that does not parse.
#[derive(Clone, Copy, PartialEq, Eq, Structural, Debug)]
pub enum SyncError {
    KeyMissing,
    TypeMismatch,
    Malformed,
}

/// The wire message carrying one key's full-value replacement: an optional
/// version counter (advisory, reserved for future ordering), the registry
/// key, and the serialized encoding of the new value.
#[derive(Debug)]
pub struct StateUpdate {
    pub version: Option<u128>,
    pub name: String,
    pub value: String,
}

impl Clone for StateUpdate {
    fn clone(&self) -> (r: Self)
        ensures
            r == *self,
    {
        StateUpdate {
            version: self.version,
            name: self.name.clone(),
            value: self.value.clone(),
        }
    }
}

} // verus!
