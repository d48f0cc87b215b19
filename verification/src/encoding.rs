//! The four-byte encapsulation header that starts every CDR payload.

use crate::cdr_error::{CdrError, CdrResult};
use crate::wire::Endianness;
use vstd::prelude::*;

verus! {

/// Which CDR version the payload follows.
#[derive(Debug, Clone, Copy, PartialEq, Eq, Structural)]
pub enum CdrRepresentation {
    Xcdr1,
    Xcdr2,
}

/// Representation and byte order announced by the encapsulation header.
pub struct CdrEncoding {
    pub cdr_representation: CdrRepresentation,
    pub endianness: Endianness,
}

/// The representation identifier that the header carries for a representation and byte order.
pub open spec fn representation_id(r: CdrRepresentation, e: Endianness) -> u16 {
    match (r, e) {
        (CdrRepresentation::Xcdr1, Endianness::Big) => 0x0000,
        (CdrRepresentation::Xcdr1, Endianness::Little) => 0x0001,
        (CdrRepresentation::Xcdr2, Endianness::Big) => 0x0002,
        (CdrRepresentation::Xcdr2, Endianness::Little) => 0x0003,
    }
}

/// The representation and byte order that a representation identifier stands for, if any.
pub open spec fn representation_of_id(id: u16) -> Option<(CdrRepresentation, Endianness)> {
    if id == 0x0000 {
        Some((CdrRepresentation::Xcdr1, Endianness::Big))
    } else if id == 0x0001 {
        Some((CdrRepresentation::Xcdr1, Endianness::Little))
    } else if id == 0x0002 {
        Some((CdrRepresentation::Xcdr2, Endianness::Big))
    } else if id == 0x0003 {
        Some((CdrRepresentation::Xcdr2, Endianness::Little))
    } else {
        None
    }
}

/// The identifier in the first two header bytes, big endian.
pub open spec fn header_id(data: Seq<u8>) -> u16 {
    (data[0] as int * 256 + data[1] as int) as u16
}

/// The four header bytes: the identifier big endian, then two zero option bytes.
pub open spec fn header_bytes(r: CdrRepresentation, e: Endianness) -> Seq<u8> {
    seq![0u8, representation_id(r, e) as u8, 0u8, 0u8]
}

/// What `CdrEncoding::parse` gives for `data`: the announced representation and byte order,
/// or the error.
pub open spec fn parse_outcome(data: Seq<u8>) -> Result<(CdrRepresentation, Endianness), CdrError> {
    if data.len() < 4 {
        Err(
            CdrError::InputTooShort {
                context: "CdrEncoding::parse",
                min_len: 4,
                actual_len: data.len() as usize,
            },
        )
    } else {
        match representation_of_id(header_id(data)) {
            Some(re) => Ok(re),
            None => Err(CdrError::InvalidRepresentation(header_id(data))),
        }
    }
}

impl CdrEncoding {
    /// The header bytes for `value`.
    pub fn serialize(value: &Self) -> (bytes: Vec<u8>)
        ensures
            bytes@ == header_bytes(value.cdr_representation, value.endianness),
    {
        let rep: u16 = match (&value.cdr_representation, &value.endianness) {
            (CdrRepresentation::Xcdr1, Endianness::Big) => 0x0000u16,
            (CdrRepresentation::Xcdr1, Endianness::Little) => 0x0001u16,
            (CdrRepresentation::Xcdr2, Endianness::Big) => 0x0002u16,
            (CdrRepresentation::Xcdr2, Endianness::Little) => 0x0003u16,
        };
        let mut bytes: Vec<u8> = Vec::with_capacity(4);
        bytes.push((rep / 256) as u8);
        bytes.push((rep % 256) as u8);
        bytes.push(0u8);
        bytes.push(0u8);
        assert(bytes@ =~= header_bytes(value.cdr_representation, value.endianness));
        bytes
    }

    /// Reads the header at the start of `data`; on success returns it with the bytes after it.
    pub fn parse(data: &[u8]) -> (r: CdrResult<(Self, &[u8])>)
        ensures
            match parse_outcome(data@) {
                Ok((rep, e)) => r matches Ok((enc, rest)) && enc.cdr_representation == rep
                    && enc.endianness == e && rest@ == data@.subrange(4, data@.len() as int),
                Err(err) => r == Err::<(Self, &[u8]), CdrError>(err),
            },
    {
        if data.len() < 4 {
            return Err(
                CdrError::InputTooShort {
                    context: "CdrEncoding::parse",
                    min_len: 4,
                    actual_len: data.len(),
                },
            );
        }
        let rep: u16 = (data[0] as u16) * 256 + (data[1] as u16);
        let rest = &data[4..data.len()];
        if rep == 0x0000 {
            Ok(
                (
                    Self {
                        cdr_representation: CdrRepresentation::Xcdr1,
                        endianness: Endianness::Big,
                    },
                    rest,
                ),
            )
        } else if rep == 0x0001 {
            Ok(
                (
                    Self {
                        cdr_representation: CdrRepresentation::Xcdr1,
                        endianness: Endianness::Little,
                    },
                    rest,
                ),
            )
        } else if rep == 0x0002 {
            Ok(
                (
                    Self {
                        cdr_representation: CdrRepresentation::Xcdr2,
                        endianness: Endianness::Big,
                    },
                    rest,
                ),
            )
        } else if rep == 0x0003 {
            Ok(
                (
                    Self {
                        cdr_representation: CdrRepresentation::Xcdr2,
                        endianness: Endianness::Little,
                    },
                    rest,
                ),
            )
        } else {
            Err(CdrError::InvalidRepresentation(rep))
        }
    }
}

/// Parsing the header that `serialize` writes gives back the same representation and byte
/// order, and nothing after it.
pub proof fn law_header_round_trip(r: CdrRepresentation, e: Endianness)
    ensures
        parse_outcome(header_bytes(r, e)) == Ok::<(CdrRepresentation, Endianness), CdrError>((r, e)),
        header_bytes(r, e).subrange(4, 4).len() == 0,
{
}

/// A header that parses is rewritten by `serialize` with the same identifier; only the
/// option bytes may differ (they are written as zero).
pub proof fn law_header_reserialize(data: Seq<u8>)
    requires
        parse_outcome(data) is Ok,
    ensures
        ({
            let (r, e) = parse_outcome(data)->Ok_0;
            &&& header_bytes(r, e)[0] == data[0]
            &&& header_bytes(r, e)[1] == data[1]
            &&& header_bytes(r, e)[2] == 0
            &&& header_bytes(r, e)[3] == 0
        }),
{
}

} // verus!
