use vstd::prelude::*;

verus! {

/// The one-byte wire tags of the format.
#[allow(non_camel_case_types)]
#[derive(Clone, Copy, Debug, PartialEq, Eq, Structural)]
pub enum ErlTermTag {
    SMALL_INTEGER_EXT,
    INTEGER_EXT,
    FLOAT_EXT,
    ATOM_EXT,
    REFERENCE_EXT,
    PORT_EXT,
    PID_EXT,
    SMALL_TUPLE_EXT,
    LARGE_TUPLE_EXT,
    MAP_EXT,
    NIL_EXT,
    STRING_EXT,
    LIST_EXT,
    BINARY_EXT,
    SMALL_BIG_EXT,
    LARGE_BIG_EXT,
    NEW_REFERENCE_EXT,
    SMALL_ATOM_EXT,
    FUN_EXT,
    NEW_FUN_EXT,
    EXPORT_EXT,
    BIT_BINARY_EXT,
    NEW_FLOAT_EXT,
    ATOM_UTF8_EXT,
    SMALL_ATOM_UTF8_EXT,
}

/// The tag that a byte names, if any.
pub open spec fn tag_of(b: u8) -> Option<ErlTermTag> {
    match b {
        97 => Some(ErlTermTag::SMALL_INTEGER_EXT),
        98 => Some(ErlTermTag::INTEGER_EXT),
        99 => Some(ErlTermTag::FLOAT_EXT),
        100 => Some(ErlTermTag::ATOM_EXT),
        101 => Some(ErlTermTag::REFERENCE_EXT),
        102 => Some(ErlTermTag::PORT_EXT),
        103 => Some(ErlTermTag::PID_EXT),
        104 => Some(ErlTermTag::SMALL_TUPLE_EXT),
        105 => Some(ErlTermTag::LARGE_TUPLE_EXT),
        116 => Some(ErlTermTag::MAP_EXT),
        106 => Some(ErlTermTag::NIL_EXT),
        107 => Some(ErlTermTag::STRING_EXT),
        108 => Some(ErlTermTag::LIST_EXT),
        109 => Some(ErlTermTag::BINARY_EXT),
        110 => Some(ErlTermTag::SMALL_BIG_EXT),
        111 => Some(ErlTermTag::LARGE_BIG_EXT),
        114 => Some(ErlTermTag::NEW_REFERENCE_EXT),
        115 => Some(ErlTermTag::SMALL_ATOM_EXT),
        117 => Some(ErlTermTag::FUN_EXT),
        112 => Some(ErlTermTag::NEW_FUN_EXT),
        113 => Some(ErlTermTag::EXPORT_EXT),
        77 => Some(ErlTermTag::BIT_BINARY_EXT),
        70 => Some(ErlTermTag::NEW_FLOAT_EXT),
        118 => Some(ErlTermTag::ATOM_UTF8_EXT),
        119 => Some(ErlTermTag::SMALL_ATOM_UTF8_EXT),
        _ => None,
    }
}

impl ErlTermTag {
    /// The byte that stands for this tag on the wire.
    pub open spec fn byte(self) -> u8 {
        match self {
            ErlTermTag::SMALL_INTEGER_EXT => 97,
            ErlTermTag::INTEGER_EXT => 98,
            ErlTermTag::FLOAT_EXT => 99,
            ErlTermTag::ATOM_EXT => 100,
            ErlTermTag::REFERENCE_EXT => 101,
            ErlTermTag::PORT_EXT => 102,
            ErlTermTag::PID_EXT => 103,
            ErlTermTag::SMALL_TUPLE_EXT => 104,
            ErlTermTag::LARGE_TUPLE_EXT => 105,
            ErlTermTag::MAP_EXT => 116,
            ErlTermTag::NIL_EXT => 106,
            ErlTermTag::STRING_EXT => 107,
            ErlTermTag::LIST_EXT => 108,
            ErlTermTag::BINARY_EXT => 109,
            ErlTermTag::SMALL_BIG_EXT => 110,
            ErlTermTag::LARGE_BIG_EXT => 111,
            ErlTermTag::NEW_REFERENCE_EXT => 114,
            ErlTermTag::SMALL_ATOM_EXT => 115,
            ErlTermTag::FUN_EXT => 117,
            ErlTermTag::NEW_FUN_EXT => 112,
            ErlTermTag::EXPORT_EXT => 113,
            ErlTermTag::BIT_BINARY_EXT => 77,
            ErlTermTag::NEW_FLOAT_EXT => 70,
            ErlTermTag::ATOM_UTF8_EXT => 118,
            ErlTermTag::SMALL_ATOM_UTF8_EXT => 119,
        }
    }

    /// Reads a wire byte as a tag; `None` for a byte outside the tag set.
    pub fn from_u8(b: u8) -> (r: Option<ErlTermTag>)
        ensures
            r == tag_of(b),
    {
        match b {
            97 => Some(ErlTermTag::SMALL_INTEGER_EXT),
            98 => Some(ErlTermTag::INTEGER_EXT),
            99 => Some(ErlTermTag::FLOAT_EXT),
            100 => Some(ErlTermTag::ATOM_EXT),
            101 => Some(ErlTermTag::REFERENCE_EXT),
            102 => Some(ErlTermTag::PORT_EXT),
            103 => Some(ErlTermTag::PID_EXT),
            104 => Some(ErlTermTag::SMALL_TUPLE_EXT),
            105 => Some(ErlTermTag::LARGE_TUPLE_EXT),
            116 => Some(ErlTermTag::MAP_EXT),
            106 => Some(ErlTermTag::NIL_EXT),
            107 => Some(ErlTermTag::STRING_EXT),
            108 => Some(ErlTermTag::LIST_EXT),
            109 => Some(ErlTermTag::BINARY_EXT),
            110 => Some(ErlTermTag::SMALL_BIG_EXT),
            111 => Some(ErlTermTag::LARGE_BIG_EXT),
            114 => Some(ErlTermTag::NEW_REFERENCE_EXT),
            115 => Some(ErlTermTag::SMALL_ATOM_EXT),
            117 => Some(ErlTermTag::FUN_EXT),
            112 => Some(ErlTermTag::NEW_FUN_EXT),
            113 => Some(ErlTermTag::EXPORT_EXT),
            77 => Some(ErlTermTag::BIT_BINARY_EXT),
            70 => Some(ErlTermTag::NEW_FLOAT_EXT),
            118 => Some(ErlTermTag::ATOM_UTF8_EXT),
            119 => Some(ErlTermTag::SMALL_ATOM_UTF8_EXT),
            _ => None,
        }
    }

    /// The wire byte of this tag.
    pub fn to_u8(self) -> (r: u8)
        ensures
            r == self.byte(),
            tag_of(r) == Some(self),
    {
        match self {
            ErlTermTag::SMALL_INTEGER_EXT => 97,
            ErlTermTag::INTEGER_EXT => 98,
            ErlTermTag::FLOAT_EXT => 99,
            ErlTermTag::ATOM_EXT => 100,
            ErlTermTag::REFERENCE_EXT => 101,
            ErlTermTag::PORT_EXT => 102,
            ErlTermTag::PID_EXT => 103,
            ErlTermTag::SMALL_TUPLE_EXT => 104,
            ErlTermTag::LARGE_TUPLE_EXT => 105,
            ErlTermTag::MAP_EXT => 116,
            ErlTermTag::NIL_EXT => 106,
            ErlTermTag::STRING_EXT => 107,
            ErlTermTag::LIST_EXT => 108,
            ErlTermTag::BINARY_EXT => 109,
            ErlTermTag::SMALL_BIG_EXT => 110,
            ErlTermTag::LARGE_BIG_EXT => 111,
            ErlTermTag::NEW_REFERENCE_EXT => 114,
            ErlTermTag::SMALL_ATOM_EXT => 115,
            ErlTermTag::FUN_EXT => 117,
            ErlTermTag::NEW_FUN_EXT => 112,
            ErlTermTag::EXPORT_EXT => 113,
            ErlTermTag::BIT_BINARY_EXT => 77,
            ErlTermTag::NEW_FLOAT_EXT => 70,
            ErlTermTag::ATOM_UTF8_EXT => 118,
            ErlTermTag::SMALL_ATOM_UTF8_EXT => 119,
        }
    }
}

/// Every tag's byte reads back as that tag, and a byte that names a tag is
/// that tag's byte.
pub proof fn lemma_tag_byte(t: ErlTermTag, b: u8)
    ensures
        tag_of(t.byte()) == Some(t),
        tag_of(b) == Some(t) ==> t.byte() == b,
{
}

} // verus!
