//! The twelve field types of a directory entry.

use vstd::prelude::*;
use crate::error::TiffParserError;

verus! {

/// The element type of an entry's value array.
#[derive(Debug, Clone, Copy, PartialEq, Eq, Structural)]
pub enum Field {
    Byte,
    Ascii,
    Short,
    Long,
    Rational,
    Sbyte,
    Undefined,
    Sshort,
    Slong,
    Srational,
    Float,
    Double,
}

/// The field type that a type code names, if it names one.
pub open spec fn field_of_code(code: u16) -> Option<Field> {
    if code == 1 {
        Some(Field::Byte)
    } else if code == 2 {
        Some(Field::Ascii)
    } else if code == 3 {
        Some(Field::Short)
    } else if code == 4 {
        Some(Field::Long)
    } else if code == 5 {
        Some(Field::Rational)
    } else if code == 6 {
        Some(Field::Sbyte)
    } else if code == 7 {
        Some(Field::Undefined)
    } else if code == 8 {
        Some(Field::Sshort)
    } else if code == 9 {
        Some(Field::Slong)
    } else if code == 10 {
        Some(Field::Srational)
    } else if code == 11 {
        Some(Field::Float)
    } else if code == 12 {
        Some(Field::Double)
    } else {
        None
    }
}

impl Field {
    /// The type code under which this field type is stored.
    pub open spec fn code(self) -> u16 {
        match self {
            Field::Byte => 1,
            Field::Ascii => 2,
            Field::Short => 3,
            Field::Long => 4,
            Field::Rational => 5,
            Field::Sbyte => 6,
            Field::Undefined => 7,
            Field::Sshort => 8,
            Field::Slong => 9,
            Field::Srational => 10,
            Field::Float => 11,
            Field::Double => 12,
        }
    }

    /// The number of bytes that one element of this type occupies.
    pub open spec fn width(self) -> nat {
        match self {
            Field::Byte | Field::Ascii | Field::Sbyte | Field::Undefined => 1,
            Field::Short | Field::Sshort => 2,
            Field::Long | Field::Slong | Field::Float => 4,
            Field::Rational | Field::Srational | Field::Double => 8,
        }
    }

    /// Looks a type code up. Codes 1 to 12 name a field type; every other
    /// code is refused and handed back in the error.
    pub fn from_u16(field: u16) -> (r: Result<Field, TiffParserError>)
        ensures
            match field_of_code(field) {
                Some(f) => r == Ok::<Field, TiffParserError>(f),
                None => r == Err::<Field, TiffParserError>(TiffParserError::UnknownFieldType(field)),
            },
    {
        match field {
            1 => Ok(Field::Byte),
            2 => Ok(Field::Ascii),
            3 => Ok(Field::Short),
            4 => Ok(Field::Long),
            5 => Ok(Field::Rational),
            6 => Ok(Field::Sbyte),
            7 => Ok(Field::Undefined),
            8 => Ok(Field::Sshort),
            9 => Ok(Field::Slong),
            10 => Ok(Field::Srational),
            11 => Ok(Field::Float),
            12 => Ok(Field::Double),
            field => Err(TiffParserError::UnknownFieldType(field)),
        }
    }

    /// The byte width of one element.
    pub fn size(&self) -> (r: usize)
        ensures
            r == self.width(),
    {
        match self {
            Field::Byte | Field::Ascii | Field::Sbyte | Field::Undefined => 1,
            Field::Short | Field::Sshort => 2,
            Field::Long | Field::Slong | Field::Float => 4,
            Field::Rational | Field::Srational | Field::Double => 8,
        }
    }
}

/// A type code names a field type exactly when it is the code of one, and
/// then it names that one.
pub proof fn lemma_code_round_trip(f: Field)
    ensures
        field_of_code(f.code()) == Some(f),
        1 <= f.code() <= 12,
{
}

/// Every code outside 1 to 12 names no field type.
pub proof fn lemma_unknown_codes(code: u16)
    ensures
        field_of_code(code) is None <==> !(1 <= code <= 12),
{
}

} // verus!
