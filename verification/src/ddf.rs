//! Data descriptive fields: the schema entries of the DDR.
//!
//! Each field definition is `<9-byte field controls><name> US <array
//! descriptor> US <format controls>` (US is the unit separator). The array
//! descriptor lists the subfield tags, `!`-separated; an empty descriptor
//! denotes the unnamed record-identifier subfield, synthesized under the
//! reserved tag rather than left as an empty key. The tags are paired
//! positionally with the repeat-expanded format specs; unequal counts are
//! always an error.

use vstd::prelude::*;

use vstd::utf8::{decode_utf8, valid_utf8};

use crate::controls::{fc_is, fc_ok, parse_field_controls, FieldControls};
use crate::directory::DirectoryEntry;
use crate::error::{Error, ErrorKind};
use crate::formats::{elems_ok, expand_elems, parse_format_controls, ParseData};
use crate::split::{lemma_split_nonempty, part_views, spec_split, split_bytes};
use crate::text::parse_to_string;

verus! {

/// The reserved tag synthesized for the unnamed record-identifier subfield.
pub open spec fn drid_view() -> Seq<char> {
    "DRID"@
}

/// Every `!`-separated part of a non-empty descriptor region is text.
pub open spec fn descriptors_ok(seg: Seq<u8>) -> bool {
    seg.len() == 0 || (forall|i: int|
        0 <= i < spec_split(seg, 33).len() ==> valid_utf8(#[trigger] spec_split(seg, 33)[i]))
}

/// The subfield tags a descriptor region denotes: the reserved
/// record-identifier tag for an empty region, else the `!`-separated parts.
pub open spec fn descriptor_tags(seg: Seq<u8>) -> Seq<Seq<char>> {
    if seg.len() == 0 {
        seq![drid_view()]
    } else {
        spec_split(seg, 33).map_values(|p: Seq<u8>| decode_utf8(p))
    }
}

/// Decodes an array-descriptor region into its subfield tags, in order.
///
/// An empty region always yields exactly the reserved record-identifier tag,
/// never an empty key; otherwise the region splits on `!` and succeeds
/// exactly when every part is text.
pub fn parse_array_descriptors(byte: &[u8]) -> (r: Result<Vec<String>, Error>)
    ensures
        r is Ok <==> descriptors_ok(byte@),
        r matches Ok(v) ==> {
            &&& v@.len() == descriptor_tags(byte@).len()
            &&& forall|i: int|
                0 <= i < v@.len() ==> (#[trigger] v@[i])@ == descriptor_tags(byte@)[i]
        },
        byte@.len() == 0 ==> (r matches Ok(v) && v@.len() == 1 && v@[0]@ == drid_view() && v@[0]@.len()
            == 4),
        r matches Err(e) ==> e.kind is Utf,
{
    if byte.len() == 0 {
        proof {
            reveal_strlit("DRID");
        }
        let mut v: Vec<String> = Vec::new();
        v.push("DRID".to_owned());
        return Ok(v);
    }
    let parts = split_bytes(byte, 33);
    let ghost pviews = spec_split(byte@, 33);
    let mut v: Vec<String> = Vec::new();
    let mut j: usize = 0;
    while j < parts.len()
        invariant
            0 <= j <= parts@.len(),
            byte@.len() > 0,
            part_views(parts@) == pviews,
            pviews == spec_split(byte@, 33),
            v@.len() == j,
            forall|i: int| 0 <= i < j ==> valid_utf8(#[trigger] pviews[i]),
            forall|i: int| 0 <= i < j ==> (#[trigger] v@[i])@ == decode_utf8(pviews[i]),
        decreases parts@.len() - j,
    {
        proof {
            assert(parts@[j as int]@ == pviews[j as int]);
        }
        let tag = match parse_to_string(parts[j].as_slice()) {
            Ok(t) => t,
            Err(e) => {
                proof {
                    assert(!valid_utf8(pviews[j as int]));
                }
                return Err(e);
            },
        };
        v.push(tag);
        j = j + 1;
    }
    proof {
        assert(descriptor_tags(byte@).len() == pviews.len());
        assert forall|i: int| 0 <= i < v@.len() implies (#[trigger] v@[i])@ == descriptor_tags(
            byte@,
        )[i] by {
            assert(descriptor_tags(byte@)[i] == decode_utf8(pviews[i]));
        }
    }
    Ok(v)
}

/// One field's decoding recipe in the schema: its control flags, display
/// name, and ordered (subfield tag, format spec) pairs.
#[derive(Debug)]
pub struct DDFEntry {
    /// The field controls.
    pub fic: FieldControls,
    /// The display name of the field.
    pub name: String,
    /// The ordered subfield schema: tag and format spec, positionally paired.
    pub foc: Vec<(String, ParseData)>,
}

/// The format-spec expansion of the third segment of a field definition.
pub open spec fn ddf_formats(b: Seq<u8>) -> Seq<ParseData> {
    let parts = spec_split(b, 31);
    expand_elems(spec_split(parts[2].subrange(1, parts[2].len() as int - 1), 44))
}

/// A field-definition region is well-formed: at least three unit-separated
/// segments, a full-width well-formed field-control region and a text name
/// in the first, well-formed descriptors and format controls, and exactly
/// one format spec per descriptor tag after repeat expansion.
pub open spec fn ddf_ok(b: Seq<u8>) -> bool {
    let parts = spec_split(b, 31);
    &&& parts[0].len() >= 9
    &&& valid_utf8(parts[0].subrange(9, parts[0].len() as int))
    &&& fc_ok(parts[0].subrange(0, 9))
    &&& parts.len() >= 3
    &&& descriptors_ok(parts[1])
    &&& parts[2].len() >= 2
    &&& elems_ok(spec_split(parts[2].subrange(1, parts[2].len() as int - 1), 44))
    &&& descriptor_tags(parts[1]).len() == ddf_formats(b).len()
}

/// `d` holds exactly what the field-definition region `b` encodes.
pub open spec fn ddf_is(b: Seq<u8>, d: DDFEntry) -> bool {
    let parts = spec_split(b, 31);
    let tags = descriptor_tags(parts[1]);
    let fmts = ddf_formats(b);
    &&& fc_is(parts[0].subrange(0, 9), d.fic)
    &&& d.name@ == decode_utf8(parts[0].subrange(9, parts[0].len() as int))
    &&& d.foc@.len() == tags.len()
    &&& forall|i: int|
        0 <= i < d.foc@.len() ==> (#[trigger] d.foc@[i]).0@ == tags[i] && d.foc@[i].1 == fmts[i]
}

/// Decoding a field definition is a function of the input bytes alone: two
/// results decoded from the same region agree in name, flags, and every
/// (tag, format spec) pair.
pub proof fn lemma_ddf_deterministic(b: Seq<u8>, d1: DDFEntry, d2: DDFEntry)
    requires
        ddf_is(b, d1),
        ddf_is(b, d2),
    ensures
        d1.name@ == d2.name@,
        d1.fic.dsc == d2.fic.dsc,
        d1.fic.dtc == d2.fic.dtc,
        d1.fic.aux@ == d2.fic.aux@,
        d1.fic.prt@ == d2.fic.prt@,
        d1.fic.tes == d2.fic.tes,
        d1.foc@.len() == d2.foc@.len(),
        forall|i: int|
            0 <= i < d1.foc@.len() ==> (#[trigger] d1.foc@[i]).0@ == d2.foc@[i].0@ && d1.foc@[i].1
                == d2.foc@[i].1,
{
    crate::controls::lemma_field_controls_deterministic(
        spec_split(b, 31)[0].subrange(0, 9),
        d1.fic,
        d2.fic,
    );
}

/// Decodes one data descriptive field from its region of the field area,
/// the trailing record separator already removed.
///
/// Succeeds exactly on well-formed regions; the tags are paired with the
/// expanded format specs in descriptor order.
pub fn parse_ddf(byte: &[u8]) -> (r: Result<DDFEntry, Error>)
    ensures
        r is Ok <==> ddf_ok(byte@),
        r matches Ok(d) ==> ddf_is(byte@, d),
        r matches Err(e) ==> (e.kind is InvalidHeader || e.kind is CouldNotParseName || e.kind
            is InvalidDDF),
{
    let parts = split_bytes(byte, 31);
    let ghost pviews = spec_split(byte@, 31);
    proof {
        lemma_split_nonempty(byte@, 31);
        assert(parts@[0]@ == pviews[0]);
    }
    let p0 = &parts[0];
    if p0.len() < 9 {
        return Err(Error::new(ErrorKind::InvalidHeader));
    }
    let name = match parse_to_string(vstd::slice::slice_subrange(p0.as_slice(), 9, p0.len())) {
        Ok(t) => t,
        Err(e) => {
            return Err(e.wrap(ErrorKind::CouldNotParseName));
        },
    };
    let fic = match parse_field_controls(vstd::slice::slice_subrange(p0.as_slice(), 0, 9)) {
        Ok(f) => f,
        Err(e) => {
            return Err(e.wrap(ErrorKind::InvalidDDF(name)));
        },
    };
    if parts.len() < 2 {
        proof {
            assert(pviews.len() < 2);
        }
        return Err(Error::new(ErrorKind::InvalidDDF(name)));
    }
    proof {
        assert(parts@[1]@ == pviews[1]);
    }
    let tags = match parse_array_descriptors(parts[1].as_slice()) {
        Ok(t) => t,
        Err(e) => {
            return Err(e.wrap(ErrorKind::InvalidDDF(name)));
        },
    };
    if parts.len() < 3 {
        proof {
            assert(pviews.len() < 3);
        }
        return Err(Error::new(ErrorKind::InvalidDDF(name)));
    }
    proof {
        assert(parts@[2]@ == pviews[2]);
    }
    let fmts = match parse_format_controls(parts[2].as_slice()) {
        Ok(f) => f,
        Err(e) => {
            return Err(e.wrap(ErrorKind::InvalidDDF(name)));
        },
    };
    if tags.len() != fmts.len() {
        return Err(Error::new(ErrorKind::InvalidDDF(name)));
    }
    let mut foc: Vec<(String, ParseData)> = Vec::new();
    let mut i: usize = 0;
    let ghost tagviews = descriptor_tags(pviews[1]);
    let ghost fmtseq = ddf_formats(byte@);
    while i < tags.len()
        invariant
            0 <= i <= tags@.len(),
            tags@.len() == tagviews.len(),
            forall|k: int| 0 <= k < tags@.len() ==> (#[trigger] tags@[k])@ == tagviews[k],
            fmts@ == fmtseq,
            tags@.len() == fmts@.len(),
            foc@.len() == i,
            forall|k: int|
                0 <= k < i ==> (#[trigger] foc@[k]).0@ == tagviews[k] && foc@[k].1 == fmtseq[k],
        decreases tags@.len() - i,
    {
        let tag = tags[i].clone();
        let pd = fmts[i];
        foc.push((tag, pd));
        i = i + 1;
    }
    Ok(DDFEntry { fic, name, foc })
}

/// The field-definition region of directory entry `j`: its slice of the
/// field area, less the trailing record separator.
pub open spec fn ddf_region(b: Seq<u8>, d: DirectoryEntry) -> Seq<u8> {
    b.subrange(d.offset as int, d.offset + d.length - 1)
}

/// Every directory entry after the first points at a well-formed
/// field-definition region inside the field area.
pub open spec fn ddfs_ok(b: Seq<u8>, dirs: Seq<DirectoryEntry>) -> bool {
    forall|j: int|
        1 <= j < dirs.len() ==> {
            &&& (#[trigger] dirs[j]).length >= 1
            &&& dirs[j].offset + dirs[j].length - 1 <= b.len()
            &&& ddf_ok(ddf_region(b, dirs[j]))
        }
}

/// Builds the schema from the DDR's field area: one (tag, definition) pair
/// per directory entry, in directory order. The first entry, the file
/// control field, is deliberately not decoded into the schema.
///
/// Succeeds exactly when every later entry points at a well-formed region
/// inside the field area; any failure carries the schema-level error kind.
pub fn parse_ddfs(byte: &[u8], dirs: &[DirectoryEntry]) -> (r: Result<
    Vec<(String, DDFEntry)>,
    Error,
>)
    ensures
        r is Ok <==> ddfs_ok(byte@, dirs@),
        r matches Ok(v) ==> {
            &&& v@.len() == (if dirs@.len() >= 1 {
                dirs@.len() - 1
            } else {
                0
            })
            &&& forall|k: int|
                0 <= k < v@.len() ==> (#[trigger] v@[k]).0@ == dirs@[k + 1].id@ && ddf_is(
                    ddf_region(byte@, dirs@[k + 1]),
                    v@[k].1,
                )
        },
        r matches Err(e) ==> e.kind is InvalidDDFS,
{
    let n = byte.len();
    let mut v: Vec<(String, DDFEntry)> = Vec::new();
    if dirs.len() == 0 {
        return Ok(v);
    }
    let mut j: usize = 1;
    while j < dirs.len()
        invariant
            1 <= j <= dirs@.len(),
            n == byte@.len(),
            v@.len() == j - 1,
            forall|k: int|
                1 <= k < j ==> {
                    &&& (#[trigger] dirs@[k]).length >= 1
                    &&& dirs@[k].offset + dirs@[k].length - 1 <= byte@.len()
                    &&& ddf_ok(ddf_region(byte@, dirs@[k]))
                },
            forall|k: int|
                0 <= k < v@.len() ==> (#[trigger] v@[k]).0@ == dirs@[k + 1].id@ && ddf_is(
                    ddf_region(byte@, dirs@[k + 1]),
                    v@[k].1,
                ),
        decreases dirs@.len() - j,
    {
        let dir = &dirs[j];
        if dir.length == 0 || dir.offset > n || dir.length - 1 > n - dir.offset {
            return Err(Error::new(ErrorKind::InvalidDDFS));
        }
        let seg = vstd::slice::slice_subrange(byte, dir.offset, dir.offset + (dir.length - 1));
        let entry = match parse_ddf(seg) {
            Ok(d) => d,
            Err(e) => {
                return Err(e.wrap(ErrorKind::InvalidDDFS));
            },
        };
        let id = dir.id.clone();
        v.push((id, entry));
        j = j + 1;
    }
    Ok(v)
}

} // verus!
