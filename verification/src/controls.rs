//! Field controls: the nine leading bytes of a data descriptive field.
//!
//! One digit for the data-structure code, one for the data-type code, two
//! auxiliary characters, two printable-graphics characters, and a three-byte
//! truncated-escape-sequence code.

use vstd::prelude::*;

use vstd::utf8::{decode_utf8, valid_utf8};

use crate::error::{Error, ErrorKind};
use crate::text::parse_to_string;

verus! {

/// How a field's data is structured.
#[derive(Debug, PartialEq, Eq, Structural, Clone, Copy)]
pub enum DataStructureCode {
    /// Single data item.
    SDI,
    /// Linear structure.
    LS,
    /// Multi-dimensional structure.
    MDS,
}

/// What kind of data a field carries.
#[derive(Debug, PartialEq, Eq, Structural, Clone, Copy)]
pub enum DataTypeCode {
    /// Character string.
    CS,
    /// Implicit point.
    IP,
    /// Explicit point (real).
    EP,
    /// Binary form.
    BF,
    /// Mixed data types.
    MDT,
}

/// The lexical level announced by the truncated escape sequence.
#[derive(Debug, PartialEq, Eq, Structural, Clone, Copy)]
pub enum TruncEscSeq {
    /// Lexical level 0.
    LE0,
    /// Lexical level 1.
    LE1,
    /// Lexical level 2.
    LE2,
}

/// The data-structure code a digit byte denotes, if any.
pub open spec fn dsc_of(b: u8) -> Option<DataStructureCode> {
    if b == 48 {
        Some(DataStructureCode::SDI)
    } else if b == 49 {
        Some(DataStructureCode::LS)
    } else if b == 50 {
        Some(DataStructureCode::MDS)
    } else {
        None
    }
}

/// The data-type code a digit byte denotes, if any.
pub open spec fn dtc_of(b: u8) -> Option<DataTypeCode> {
    if b == 48 {
        Some(DataTypeCode::CS)
    } else if b == 49 {
        Some(DataTypeCode::IP)
    } else if b == 50 {
        Some(DataTypeCode::EP)
    } else if b == 53 {
        Some(DataTypeCode::BF)
    } else if b == 54 {
        Some(DataTypeCode::MDT)
    } else {
        None
    }
}

/// The escape-sequence level a three-byte region denotes, if any: `"   "`,
/// `"-A "` or `"%/A"`.
pub open spec fn tes_of(s: Seq<u8>) -> Option<TruncEscSeq> {
    if s =~= seq![32u8, 32u8, 32u8] {
        Some(TruncEscSeq::LE0)
    } else if s =~= seq![45u8, 65u8, 32u8] {
        Some(TruncEscSeq::LE1)
    } else if s =~= seq![37u8, 47u8, 65u8] {
        Some(TruncEscSeq::LE2)
    } else {
        None
    }
}

impl DataStructureCode {
    /// Decodes the one-digit data-structure code.
    pub fn from_byte(b: u8) -> (r: Option<DataStructureCode>)
        ensures
            r == dsc_of(b),
    {
        if b == 48 {
            Some(DataStructureCode::SDI)
        } else if b == 49 {
            Some(DataStructureCode::LS)
        } else if b == 50 {
            Some(DataStructureCode::MDS)
        } else {
            None
        }
    }
}

impl DataTypeCode {
    /// Decodes the one-digit data-type code.
    pub fn from_byte(b: u8) -> (r: Option<DataTypeCode>)
        ensures
            r == dtc_of(b),
    {
        if b == 48 {
            Some(DataTypeCode::CS)
        } else if b == 49 {
            Some(DataTypeCode::IP)
        } else if b == 50 {
            Some(DataTypeCode::EP)
        } else if b == 53 {
            Some(DataTypeCode::BF)
        } else if b == 54 {
            Some(DataTypeCode::MDT)
        } else {
            None
        }
    }
}

impl TruncEscSeq {
    /// Decodes the three-byte truncated-escape-sequence code.
    pub fn from_bytes(s: &[u8]) -> (r: Option<TruncEscSeq>)
        ensures
            r == tes_of(s@),
    {
        if s.len() == 3 {
            let (a, b, c) = (s[0], s[1], s[2]);
            if a == 32 && b == 32 && c == 32 {
                proof {
                    assert(s@ =~= seq![32u8, 32u8, 32u8]);
                }
                Some(TruncEscSeq::LE0)
            } else if a == 45 && b == 65 && c == 32 {
                proof {
                    assert(s@ =~= seq![45u8, 65u8, 32u8]);
                }
                Some(TruncEscSeq::LE1)
            } else if a == 37 && b == 47 && c == 65 {
                proof {
                    assert(s@ =~= seq![37u8, 47u8, 65u8]);
                }
                Some(TruncEscSeq::LE2)
            } else {
                None
            }
        } else {
            None
        }
    }
}

/// The per-field structural flags of one data descriptive field.
#[derive(Debug)]
pub struct FieldControls {
    /// Data-structure code.
    pub dsc: DataStructureCode,
    /// Data-type code.
    pub dtc: DataTypeCode,
    /// Auxiliary controls.
    pub aux: String,
    /// Printable graphics.
    pub prt: String,
    /// Truncated escape sequence.
    pub tes: TruncEscSeq,
}

impl PartialEq for FieldControls {
    fn eq(&self, o: &FieldControls) -> (r: bool) {
        self.dsc == o.dsc && self.dtc == o.dtc && self.aux == o.aux && self.prt == o.prt
            && self.tes == o.tes
    }
}

impl vstd::std_specs::cmp::PartialEqSpecImpl for FieldControls {
    open spec fn obeys_eq_spec() -> bool {
        true
    }

    open spec fn eq_spec(&self, o: &FieldControls) -> bool {
        &&& self.dsc == o.dsc
        &&& self.dtc == o.dtc
        &&& self.aux@ == o.aux@
        &&& self.prt@ == o.prt@
        &&& self.tes == o.tes
    }
}

/// A field-control region is well-formed: recognized structure and type
/// codes, text in the auxiliary and printable-graphics positions, and a
/// recognized escape-sequence code filling the rest.
pub open spec fn fc_ok(b: Seq<u8>) -> bool {
    &&& dsc_of(b[0]) is Some
    &&& dtc_of(b[1]) is Some
    &&& valid_utf8(b.subrange(2, 4))
    &&& valid_utf8(b.subrange(4, 6))
    &&& tes_of(b.subrange(6, b.len() as int)) is Some
}

/// `fc` holds exactly the flags the field-control region `b` encodes.
pub open spec fn fc_is(b: Seq<u8>, fc: FieldControls) -> bool {
    &&& Some(fc.dsc) == dsc_of(b[0])
    &&& Some(fc.dtc) == dtc_of(b[1])
    &&& fc.aux@ == decode_utf8(b.subrange(2, 4))
    &&& fc.prt@ == decode_utf8(b.subrange(4, 6))
    &&& Some(fc.tes) == tes_of(b.subrange(6, b.len() as int))
}

/// Decoding field controls is a function of the input bytes alone: two
/// results decoded from the same region agree in every flag.
pub proof fn lemma_field_controls_deterministic(b: Seq<u8>, f1: FieldControls, f2: FieldControls)
    requires
        fc_is(b, f1),
        fc_is(b, f2),
    ensures
        f1.dsc == f2.dsc,
        f1.dtc == f2.dtc,
        f1.aux@ == f2.aux@,
        f1.prt@ == f2.prt@,
        f1.tes == f2.tes,
{
}

/// Decodes a field-control region: one data-structure digit, one data-type
/// digit, two auxiliary characters, two printable-graphics characters, and
/// the escape-sequence code in whatever bytes remain.
///
/// Succeeds exactly when every sub-field is recognized, and then every flag
/// of the result is pinned to its offsets.
pub fn parse_field_controls(byte: &[u8]) -> (r: Result<FieldControls, Error>)
    requires
        byte@.len() >= 7,
    ensures
        r is Ok <==> fc_ok(byte@),
        r matches Ok(fc) ==> fc_is(byte@, fc),
        r matches Err(e) ==> (e.kind is BadFieldControl || e.kind is Utf),
{
    let dsc = match DataStructureCode::from_byte(byte[0]) {
        Some(v) => v,
        None => {
            let txt = match parse_to_string(vstd::slice::slice_subrange(byte, 0, 1)) {
                Ok(t) => t,
                Err(e) => {
                    return Err(e);
                },
            };
            return Err(
                Error::new(ErrorKind::BadDataStructureCode(txt)).wrap(ErrorKind::BadFieldControl),
            );
        },
    };
    let dtc = match DataTypeCode::from_byte(byte[1]) {
        Some(v) => v,
        None => {
            let txt = match parse_to_string(vstd::slice::slice_subrange(byte, 1, 2)) {
                Ok(t) => t,
                Err(e) => {
                    return Err(e);
                },
            };
            return Err(
                Error::new(ErrorKind::BadDataTypeCode(txt)).wrap(ErrorKind::BadFieldControl),
            );
        },
    };
    let aux = match parse_to_string(vstd::slice::slice_subrange(byte, 2, 4)) {
        Ok(v) => v,
        Err(e) => {
            return Err(e);
        },
    };
    let prt = match parse_to_string(vstd::slice::slice_subrange(byte, 4, 6)) {
        Ok(v) => v,
        Err(e) => {
            return Err(e);
        },
    };
    let tes = match TruncEscSeq::from_bytes(vstd::slice::slice_subrange(byte, 6, byte.len())) {
        Some(v) => v,
        None => {
            let txt = match parse_to_string(vstd::slice::slice_subrange(byte, 6, byte.len())) {
                Ok(t) => t,
                Err(e) => {
                    return Err(e);
                },
            };
            return Err(
                Error::new(ErrorKind::BadTruncEscSeq(txt)).wrap(ErrorKind::BadFieldControl),
            );
        },
    };
    Ok(FieldControls { dsc, dtc, aux, prt, tes })
}

} // verus!
