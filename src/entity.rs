use vstd::prelude::*;

verus! {

/// Handle for an entity in the entity component system.
///
/// `uid` is the identity of the entity: the store never hands out the same
/// value twice, and never hands out zero. `idx` is the slot that the entity's
/// data occupies in every container; slots are recycled after an entity is
/// removed, so a handle is matched against a slot by its `uid`.
#[derive(Copy, Clone, PartialEq, Eq, Structural, Hash, PartialOrd, Ord, Debug)]
pub struct Entity {
    pub(crate) uid: u32,
    pub(crate) idx: u32,
}

impl Entity {
    pub open(crate) spec fn spec_uid(&self) -> u32 {
        self.uid
    }

    pub open(crate) spec fn spec_idx(&self) -> u32 {
        self.idx
    }

    /// The handle with identity `uid` and slot `idx`, as `uid` and `idx`
    /// read them back; for rebuilding saved handles.
    pub fn from_parts(uid: u32, idx: u32) -> (r: Entity)
        ensures
            r.uid() == uid,
            r.idx() == idx,
    {
        Entity { uid, idx }
    }

    /// The identity value of this handle.
    #[verifier::when_used_as_spec(spec_uid)]
    pub fn uid(&self) -> (r: u32)
        ensures
            r == self.spec_uid(),
    {
        self.uid
    }

    /// The slot this handle refers to.
    #[verifier::when_used_as_spec(spec_idx)]
    pub fn idx(&self) -> (r: u32)
        ensures
            r == self.spec_idx(),
    {
        self.idx
    }
}

} // verus!
