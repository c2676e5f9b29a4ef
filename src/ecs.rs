//! Values the entity-component layers built on the allocator share: entity
//! identifiers, runtime type information and errors.
use vstd::prelude::*;
use std::any::TypeId;

verus! {

/// An entity identifier: a slot index and the version of that slot, bumped
/// each time the slot is reused.
#[derive(Clone, Copy, Debug, PartialEq, Eq, Structural, Hash)]
pub struct Id {
    idx: u32,
    ver: u32,
}

impl Id {
    pub closed spec fn spec_index(&self) -> nat {
        self.idx as nat
    }

    pub closed spec fn spec_version(&self) -> nat {
        self.ver as nat
    }

    pub fn new(idx: u32, ver: u32) -> (r: Id)
        ensures
            r.spec_index() == idx,
            r.spec_version() == ver,
    {
        Id { idx, ver }
    }

    pub fn index(&self) -> (r: usize)
        ensures
            r == self.spec_index(),
    {
        self.idx as usize
    }

    pub fn version(&self) -> (r: usize)
        ensures
            r == self.spec_version(),
    {
        self.ver as usize
    }
}

#[verifier::external_type_specification]
#[verifier::external_body]
pub struct ExTypeId(TypeId);

/// Relies on `TypeId::of`: the identifier of `D`, the same for every use of
/// the type.
#[verifier::external_body]
fn type_id_of<D: ?Sized + 'static>() -> TypeId {
    TypeId::of::<D>()
}

/// Runtime information on a type: its identifier, name and size.
#[derive(Clone, Copy, Debug)]
pub struct Type {
    id: TypeId,
    name: &'static str,
    size: usize,
}

impl Type {
    pub closed spec fn spec_id(&self) -> TypeId {
        self.id
    }

    pub closed spec fn spec_name(&self) -> Seq<char> {
        self.name@
    }

    pub closed spec fn spec_size(&self) -> nat {
        self.size as nat
    }

    /// The information on `D`, under the readable `name` the caller gives
    /// it (such as the compiler's name for the type).
    pub fn of<D: 'static>(name: &'static str) -> (r: Type)
        ensures
            r.spec_size() == vstd::layout::size_of::<D>(),
            r.spec_name() == name@,
    {
        Type { id: type_id_of::<D>(), name, size: core::mem::size_of::<D>() }
    }

    pub fn id(&self) -> (r: TypeId)
        ensures
            r == self.spec_id(),
    {
        self.id
    }

    pub fn name(&self) -> (r: &'static str)
        ensures
            r@ == self.spec_name(),
    {
        self.name
    }

    /// Size in bytes of a value of the type.
    pub fn size(&self) -> (r: usize)
        ensures
            r == self.spec_size(),
    {
        self.size
    }
}

/// What can go wrong in the entity-component layers.
#[derive(Clone, Copy, Debug, PartialEq, Eq, Structural)]
pub enum Error {
    /// More entity identifiers than can exist at once.
    IdOverflow,
    /// An entity identifier that is not alive.
    InvalidId,
    /// A type given twice.
    DuplicateType,
    /// Types that do not match.
    MissmatchType,
    /// A lock that cannot be taken: the same thread may already hold it.
    DeadLock,
}

impl Error {
    /// The message that describes the error.
    pub fn message(&self) -> (r: &'static str)
        ensures
            *self == Error::IdOverflow ==> r@ == "too many entity ids exist at once"@,
            *self == Error::InvalidId ==> r@ == "invalid entity id"@,
            *self == Error::DuplicateType ==> r@ == "duplicate type"@,
            *self == Error::MissmatchType ==> r@ == "mismatched type"@,
            *self == Error::DeadLock ==> r@ == "deadlock"@,
    {
        match self {
            Error::IdOverflow => "too many entity ids exist at once",
            Error::InvalidId => "invalid entity id",
            Error::DuplicateType => "duplicate type",
            Error::MissmatchType => "mismatched type",
            Error::DeadLock => "deadlock",
        }
    }
}

} // verus!
