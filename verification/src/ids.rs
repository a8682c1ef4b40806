//! Object identifiers and object types.
use vstd::prelude::*;
use crate::endian::{u32_be, u32_of_be, u32_to_be_bytes, u32_from_be_bytes, lemma_u32_be_roundtrip};
use crate::error::ProtocolError;

verus! {

/// The kind of a game object.
#[derive(Copy, Clone, PartialEq, Eq, Hash, Debug, Structural)]
pub enum ObjectType {
    Laser,
    Ship,
    Asteroid,
    Skybox,
    Hook,
    Planet,
    Cloud,
}

/// The byte that stands for an object type in memory (its declaration index).
pub open spec fn object_type_repr(t: ObjectType) -> u8 {
    match t {
        ObjectType::Laser => 0,
        ObjectType::Ship => 1,
        ObjectType::Asteroid => 2,
        ObjectType::Skybox => 3,
        ObjectType::Hook => 4,
        ObjectType::Planet => 5,
        ObjectType::Cloud => 6,
    }
}

/// The object type that a received byte is read as, if any.
///
/// Each type's in-memory byte (0 to 6) names that type; every other byte is rejected.
pub open spec fn object_type_of_byte(val: u8) -> Option<ObjectType> {
    if val == 0 {
        Some(ObjectType::Laser)
    } else if val == 1 {
        Some(ObjectType::Ship)
    } else if val == 2 {
        Some(ObjectType::Asteroid)
    } else if val == 3 {
        Some(ObjectType::Skybox)
    } else if val == 4 {
        Some(ObjectType::Hook)
    } else if val == 5 {
        Some(ObjectType::Planet)
    } else if val == 6 {
        Some(ObjectType::Cloud)
    } else {
        None
    }
}

impl ObjectType {
    /// Reads an object type from its byte, failing on a byte that names none.
    pub fn try_from_u8(val: u8) -> (res: Result<ObjectType, ProtocolError>)
        ensures
            match object_type_of_byte(val) {
                Some(t) => res == Ok::<ObjectType, ProtocolError>(t),
                None => res == Err::<ObjectType, ProtocolError>(ProtocolError::InvalidObjectType(val)),
            },
    {
        match val {
            0 => Ok(ObjectType::Laser),
            1 => Ok(ObjectType::Ship),
            2 => Ok(ObjectType::Asteroid),
            3 => Ok(ObjectType::Skybox),
            4 => Ok(ObjectType::Hook),
            5 => Ok(ObjectType::Planet),
            6 => Ok(ObjectType::Cloud),
            _ => Err(ProtocolError::InvalidObjectType(val)),
        }
    }

    /// The object type whose in-memory byte is `val`, which must be between 0 and 5
    /// inclusive.
    pub fn from_unchecked(val: u8) -> (res: ObjectType)
        requires
            val <= 5,
        ensures
            object_type_repr(res) == val,
    {
        match val {
            0 => ObjectType::Laser,
            1 => ObjectType::Ship,
            2 => ObjectType::Asteroid,
            3 => ObjectType::Skybox,
            4 => ObjectType::Hook,
            _ => ObjectType::Planet,
        }
    }

    /// The in-memory byte of this object type, which is what is sent over the network.
    pub fn to_u8(&self) -> (res: u8)
        ensures
            res == object_type_repr(*self),
    {
        match self {
            ObjectType::Laser => 0,
            ObjectType::Ship => 1,
            ObjectType::Asteroid => 2,
            ObjectType::Skybox => 3,
            ObjectType::Hook => 4,
            ObjectType::Planet => 5,
            ObjectType::Cloud => 6,
        }
    }

    /// Returns `true` if the object type has no rigid body, that is if it is an entity only.
    pub fn is_non_physical(&self) -> (res: bool)
        ensures
            res <==> (*self == ObjectType::Cloud || *self == ObjectType::Skybox),
    {
        matches!(self, ObjectType::Cloud | ObjectType::Skybox)
    }
}

/// Identifies a game object. Identifiers wrap around after `u32::MAX`.
#[derive(Copy, Clone, PartialEq, Eq, Hash, Debug, Structural)]
pub struct ObjectId {
    id: u32,
}

impl View for ObjectId {
    type V = u32;

    closed spec fn view(&self) -> u32 {
        self.id
    }
}

/// The identifier with value `v`.
pub closed spec fn object_id_from(v: u32) -> ObjectId {
    ObjectId { id: v }
}

/// The identifier made from a value has that value.
pub broadcast proof fn lemma_object_id_from(v: u32)
    ensures
        #[trigger] object_id_from(v)@ == v,
{
}

/// Two identifiers with the same value are the same identifier.
pub broadcast proof fn lemma_object_id_ext(a: ObjectId, b: ObjectId)
    ensures
        #[trigger] a@ == #[trigger] b@ ==> a == b,
{
}

/// The value of the identifier that follows `v`, wrapping after `u32::MAX`.
pub open spec fn wrapping_next(v: u32, n: u32) -> u32 {
    ((v + n) % 0x1_0000_0000) as u32
}

impl Default for ObjectId {
    /// The identifier zero.
    fn default() -> (res: ObjectId)
        ensures
            res@ == 0,
    {
        ObjectId { id: 0 }
    }
}

impl ObjectId {
    pub fn new(id: u32) -> (res: ObjectId)
        ensures
            res@ == id,
    {
        ObjectId { id }
    }

    /// Gets the next object ID after this one
    pub fn next(&self) -> (res: ObjectId)
        ensures
            res@ == wrapping_next(self@, 1),
    {
        ObjectId { id: self.id.wrapping_add(1) }
    }

    /// Gets the current object ID and consumes (increments) it
    pub fn consume(&mut self) -> (res: ObjectId)
        ensures
            res == *old(self),
            final(self)@ == wrapping_next(old(self)@, 1),
    {
        let id = self.id;
        self.id = self.id.wrapping_add(1);
        ObjectId { id }
    }

    /// Converts this ID to the ID n ids after this one
    pub fn incr(self, n: u32) -> (res: ObjectId)
        ensures
            res@ == wrapping_next(self@, n),
    {
        ObjectId { id: self.id.wrapping_add(n) }
    }

    /// Converts this ID to its big endian byte representation
    pub fn to_be_bytes(&self) -> (res: [u8; 4])
        ensures
            res@ == u32_be(self@),
    {
        u32_to_be_bytes(self.id)
    }

    /// Creates an `ObjectId` from its big endian byte representation
    pub fn from_be_bytes(bytes: [u8; 4]) -> (res: ObjectId)
        ensures
            res@ == u32_of_be(bytes@),
    {
        ObjectId { id: u32_from_be_bytes(bytes) }
    }

    pub fn as_underlying_type(&self) -> (res: u32)
        ensures
            res == self@,
    {
        self.id
    }
}

/// Reading back the big-endian bytes of an identifier gives the identifier.
pub proof fn lemma_object_id_bytes_roundtrip(id: ObjectId)
    ensures
        u32_of_be(u32_be(id@)) == id@,
{
    lemma_u32_be_roundtrip(id@);
}

} // verus!
