//! The leader: the fixed header that opens every physical record.
//!
//! Its sub-fields sit at fixed byte offsets; the single characters are taken
//! as they stand, and the numeric sub-fields are unsigned decimal digits.

use vstd::prelude::*;

use crate::error::{Error, ErrorKind};
use crate::num::{
    all_digits, is_uint_str, lemma_dec_val_bound, parse_to_usize, pow10, uint_digits, uint_val,
};

verus! {

/// The decoded leader of one physical record.
#[derive(Debug)]
pub struct Leader {
    /// Record length: the whole record in bytes, the five length digits included.
    pub rl: usize,
    /// Interchange level.
    pub il: char,
    /// Leader identifier.
    pub li: char,
    /// In-line code extension indicator.
    pub cei: char,
    /// Version number.
    pub vn: char,
    /// Application indicator.
    pub ai: char,
    /// Field control length.
    pub fcl: [char; 2],
    /// Base address of the field area.
    pub ba: u32,
    /// Extended character set indicator.
    pub csi: [char; 3],
    /// Entry map: width of each directory length field.
    pub flf: usize,
    /// Entry map: width of each directory position field.
    pub fpf: usize,
    /// Entry map: reserved character.
    pub rsv: char,
    /// Entry map: width of each directory tag field.
    pub ftf: usize,
}

impl PartialEq for Leader {
    fn eq(&self, o: &Leader) -> (r: bool) {
        self.rl == o.rl && self.il == o.il && self.li == o.li && self.cei == o.cei && self.vn
            == o.vn && self.ai == o.ai && self.fcl[0] == o.fcl[0] && self.fcl[1] == o.fcl[1]
            && self.ba == o.ba && self.csi[0] == o.csi[0] && self.csi[1] == o.csi[1] && self.csi[2]
            == o.csi[2] && self.flf == o.flf && self.fpf == o.fpf && self.rsv == o.rsv && self.ftf
            == o.ftf
    }
}

impl vstd::std_specs::cmp::PartialEqSpecImpl for Leader {
    open spec fn obeys_eq_spec() -> bool {
        true
    }

    open spec fn eq_spec(&self, o: &Leader) -> bool {
        &&& self.rl == o.rl
        &&& self.il == o.il
        &&& self.li == o.li
        &&& self.cei == o.cei
        &&& self.vn == o.vn
        &&& self.ai == o.ai
        &&& self.fcl@[0] == o.fcl@[0]
        &&& self.fcl@[1] == o.fcl@[1]
        &&& self.ba == o.ba
        &&& self.csi@[0] == o.csi@[0]
        &&& self.csi@[1] == o.csi@[1]
        &&& self.csi@[2] == o.csi@[2]
        &&& self.flf == o.flf
        &&& self.fpf == o.fpf
        &&& self.rsv == o.rsv
        &&& self.ftf == o.ftf
    }
}

/// The numeric sub-fields of a leader region are well-formed unsigned
/// decimal literals: the five-digit base address and the three entry-map
/// widths.
pub open spec fn leader_ok(b: Seq<u8>) -> bool {
    &&& is_uint_str(b.subrange(7, 12))
    &&& is_uint_str(b.subrange(15, 16))
    &&& is_uint_str(b.subrange(16, 17))
    &&& is_uint_str(b.subrange(18, 19))
}

/// `l` holds exactly the sub-fields the leader region `b` encodes, with the
/// record length `len` carried over.
pub open spec fn leader_is(b: Seq<u8>, len: int, l: Leader) -> bool {
    &&& l.rl == len
    &&& l.il == b[0] as char
    &&& l.li == b[1] as char
    &&& l.cei == b[2] as char
    &&& l.vn == b[3] as char
    &&& l.ai == b[4] as char
    &&& l.fcl@ =~= seq![b[5] as char, b[6] as char]
    &&& l.ba == uint_val(b.subrange(7, 12))
    &&& l.csi@ =~= seq![b[12] as char, b[13] as char, b[14] as char]
    &&& l.flf == uint_val(b.subrange(15, 16))
    &&& l.fpf == uint_val(b.subrange(16, 17))
    &&& l.rsv == b[17] as char
    &&& l.ftf == uint_val(b.subrange(18, 19))
}

/// Decoding a leader is a function of the input bytes and length alone: two
/// leaders decoded from the same region agree in every sub-field.
pub proof fn lemma_leader_deterministic(b: Seq<u8>, len: int, l1: Leader, l2: Leader)
    requires
        leader_is(b, len, l1),
        leader_is(b, len, l2),
    ensures
        l1.rl == l2.rl,
        l1.il == l2.il,
        l1.li == l2.li,
        l1.cei == l2.cei,
        l1.vn == l2.vn,
        l1.ai == l2.ai,
        l1.fcl@ == l2.fcl@,
        l1.ba == l2.ba,
        l1.csi@ == l2.csi@,
        l1.flf == l2.flf,
        l1.fpf == l2.fpf,
        l1.rsv == l2.rsv,
        l1.ftf == l2.ftf,
{
}

/// Decodes the leader from the first 19 bytes of a record body, together
/// with the record length already read from the length digits.
///
/// Succeeds exactly when the four numeric sub-fields are unsigned decimal
/// literals; every sub-field of the result is pinned to its fixed offsets.
pub fn parse_leader(byte: &[u8], len: usize) -> (r: Result<Leader, Error>)
    requires
        byte@.len() >= 19,
    ensures
        r is Ok <==> leader_ok(byte@),
        r matches Ok(l) ==> leader_is(byte@, len as int, l),
        r matches Err(e) ==> {
            &&& e.kind is InvalidLeader
            &&& e.cause matches Some(c) && c.kind is ParseInt
        },
{
    let ba = match parse_to_usize(vstd::slice::slice_subrange(byte, 7, 12)) {
        Ok(v) => v,
        Err(e) => {
            return Err(e.wrap(ErrorKind::InvalidLeader));
        },
    };
    let flf = match parse_to_usize(vstd::slice::slice_subrange(byte, 15, 16)) {
        Ok(v) => v,
        Err(e) => {
            return Err(e.wrap(ErrorKind::InvalidLeader));
        },
    };
    let fpf = match parse_to_usize(vstd::slice::slice_subrange(byte, 16, 17)) {
        Ok(v) => v,
        Err(e) => {
            return Err(e.wrap(ErrorKind::InvalidLeader));
        },
    };
    let ftf = match parse_to_usize(vstd::slice::slice_subrange(byte, 18, 19)) {
        Ok(v) => v,
        Err(e) => {
            return Err(e.wrap(ErrorKind::InvalidLeader));
        },
    };
    proof {
        let d = uint_digits(byte@.subrange(7, 12));
        lemma_dec_val_bound(d);
        reveal_with_fuel(pow10, 6);
        assert(pow10(d.len()) <= pow10(5));
        assert(ba < 100000);
    }
    Ok(Leader {
        rl: len,
        il: byte[0] as char,
        li: byte[1] as char,
        cei: byte[2] as char,
        vn: byte[3] as char,
        ai: byte[4] as char,
        fcl: [byte[5] as char, byte[6] as char],
        ba: ba as u32,
        csi: [byte[12] as char, byte[13] as char, byte[14] as char],
        flf,
        fpf,
        rsv: byte[17] as char,
        ftf,
    })
}

} // verus!
