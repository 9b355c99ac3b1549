//! The stream engine: framing records and decoding them against the schema.
//!
//! The first record of the buffer is the Data Descriptive Record (DDR),
//! decoded once into a schema; after that the catalog is a lazy, forward-only
//! sequence of Data Records, each decoded on demand with a single cursor that
//! runs through the record's field area in directory order.

use vstd::prelude::*;

use crate::ddf::{ddf_is, ddf_ok, ddf_region, ddfs_ok, parse_ddfs, DDFEntry};
use crate::directory::{chunk, directory_ok, entry_id, parse_directory, DirectoryEntry};
use crate::error::{Error, ErrorKind};
use crate::formats::ParseData;
use crate::leader::{leader_ok, parse_leader};
use crate::num::{
    is_uint_str, lemma_dec_val_bound, parse_to_usize, pow10, uint_digits, uint_val,
};
use crate::scalar::{
    data_is, parse_scalar, pd_ty, scalar_end, scalar_ok, scalar_region, Data,
};

verus! {

/// The first record-separator byte at or after `pos`, or -1.
pub open spec fn find_rs(d: Seq<u8>, pos: int) -> int
    decreases d.len() - pos
        when pos >= 0
{
    if pos < 0 || pos >= d.len() {
        -1
    } else if d[pos] == 30 {
        pos
    } else {
        find_rs(d, pos + 1)
    }
}

/// A scan that stops at the first record separator computes `find_rs`.
pub proof fn lemma_find_rs_is(d: Seq<u8>, pos: int, j: int)
    requires
        0 <= pos <= j <= d.len(),
        forall|k: int| pos <= k < j ==> (#[trigger] d[k]) != 30,
        j == d.len() || d[j] == 30,
    ensures
        find_rs(d, pos) == (if j == d.len() {
            -1int
        } else {
            j
        }),
    decreases j - pos,
{
    if pos < j {
        lemma_find_rs_is(d, pos + 1, j);
    }
}

/// The record length announced by the five length digits at `pos`.
pub open spec fn frame_len(d: Seq<u8>, pos: int) -> int {
    uint_val(d.subrange(pos, pos + 5)) as int
}

/// The record body: everything of the frame after the five length digits.
pub open spec fn frame_body(d: Seq<u8>, pos: int) -> Seq<u8> {
    d.subrange(pos + 5, pos + frame_len(d, pos))
}

/// The entry-map widths the frame's leader announces: tag, length, position.
pub open spec fn frame_tw(d: Seq<u8>, pos: int) -> int {
    uint_val(frame_body(d, pos).subrange(18, 19)) as int
}

/// See `frame_tw`.
pub open spec fn frame_lw(d: Seq<u8>, pos: int) -> int {
    uint_val(frame_body(d, pos).subrange(15, 16)) as int
}

/// See `frame_tw`.
pub open spec fn frame_pw(d: Seq<u8>, pos: int) -> int {
    uint_val(frame_body(d, pos).subrange(16, 17)) as int
}

/// The directory region: between the leader and the first record separator.
pub open spec fn frame_dir_region(d: Seq<u8>, pos: int) -> Seq<u8> {
    frame_body(d, pos).subrange(19, find_rs(frame_body(d, pos), 0))
}

/// The field area: everything after the first record separator.
pub open spec fn frame_field(d: Seq<u8>, pos: int) -> Seq<u8> {
    frame_body(d, pos).subrange(find_rs(frame_body(d, pos), 0) + 1, frame_body(d, pos).len() as int)
}

/// A record frames at `pos`: five length digits, a body long enough for a
/// leader that decodes, a record separator at or after the directory start,
/// and a well-formed directory.
pub open spec fn frame_ok(d: Seq<u8>, pos: int) -> bool {
    &&& 0 <= pos
    &&& pos + 5 <= d.len()
    &&& is_uint_str(d.subrange(pos, pos + 5))
    &&& frame_len(d, pos) >= 24
    &&& pos + frame_len(d, pos) <= d.len()
    &&& leader_ok(frame_body(d, pos).subrange(0, 19))
    &&& find_rs(frame_body(d, pos), 0) >= 19
    &&& directory_ok(frame_dir_region(d, pos), frame_tw(d, pos), frame_lw(d, pos), frame_pw(d, pos))
}

/// The chunk width of the frame's directory.
pub open spec fn frame_cs(d: Seq<u8>, pos: int) -> int {
    frame_tw(d, pos) + frame_lw(d, pos) + frame_pw(d, pos)
}

/// How many directory entries the frame has.
pub open spec fn frame_entry_count(d: Seq<u8>, pos: int) -> int {
    frame_dir_region(d, pos).len() as int / frame_cs(d, pos)
}

/// The tag of directory entry `k` of the frame.
pub open spec fn frame_entry_tag(d: Seq<u8>, pos: int, k: int) -> Seq<char> {
    entry_id(frame_dir_region(d, pos), frame_cs(d, pos), frame_tw(d, pos), k)
}

/// The byte length of directory entry `k` of the frame.
pub open spec fn frame_entry_len(d: Seq<u8>, pos: int, k: int) -> int {
    uint_val(
        chunk(frame_dir_region(d, pos), frame_cs(d, pos), k).subrange(
            frame_tw(d, pos),
            frame_tw(d, pos) + frame_lw(d, pos),
        ),
    ) as int
}

/// The field-area offset of directory entry `k` of the frame.
pub open spec fn frame_entry_off(d: Seq<u8>, pos: int, k: int) -> int {
    uint_val(
        chunk(frame_dir_region(d, pos), frame_cs(d, pos), k).subrange(
            frame_tw(d, pos) + frame_lw(d, pos),
            frame_cs(d, pos),
        ),
    ) as int
}

/// `v` holds exactly the directory entries of the frame at `pos`.
pub open spec fn frame_dirs_are(d: Seq<u8>, pos: int, v: Seq<DirectoryEntry>) -> bool {
    &&& v.len() == frame_entry_count(d, pos)
    &&& forall|k: int|
        0 <= k < v.len() ==> {
            &&& (#[trigger] v[k]).id@ == frame_entry_tag(d, pos, k)
            &&& v[k].length == frame_entry_len(d, pos, k)
            &&& v[k].offset == frame_entry_off(d, pos, k)
        }
}

/// Frames one record of `d` at `pos`: reads the five length digits, the
/// leader, and the directory, and hands back the directory entries, the
/// field area, and the position just past the record.
///
/// A cursor standing exactly at the end of the buffer is the clean end of
/// the stream; fewer than five remaining bytes, or a body shorter than the
/// announced length, is a framing error.
pub fn parse_dir_and_field_area(d: &[u8], pos: usize) -> (r: Result<
    (Vec<DirectoryEntry>, Vec<u8>, usize),
    Error,
>)
    requires
        pos <= d@.len(),
    ensures
        r is Ok <==> frame_ok(d@, pos as int),
        r matches Ok(t) ==> {
            &&& frame_dirs_are(d@, pos as int, t.0@)
            &&& t.1@ == frame_field(d@, pos as int)
            &&& t.2 == pos + frame_len(d@, pos as int)
            &&& pos < t.2 <= d@.len()
        },
        r matches Err(e) ==> (e.kind is Eof <==> pos == d@.len()),
{
    let n = d.len();
    if pos == n {
        return Err(Error::new(ErrorKind::Eof));
    }
    if n - pos < 5 {
        return Err(Error::new(ErrorKind::UnexpectedEof));
    }
    let l = match parse_to_usize(vstd::slice::slice_subrange(d, pos, pos + 5)) {
        Ok(v) => v,
        Err(e) => {
            return Err(e);
        },
    };
    if l < 24 {
        return Err(Error::new(ErrorKind::InvalidLeader));
    }
    if l - 5 > n - (pos + 5) {
        return Err(Error::new(ErrorKind::UnexpectedEof));
    }
    let body = vstd::slice::slice_subrange(d, pos + 5, pos + l);
    let ghost bodyv = frame_body(d@, pos as int);
    proof {
        assert(body@ == bodyv);
    }
    let leader = match parse_leader(vstd::slice::slice_subrange(body, 0, 19), l) {
        Ok(v) => v,
        Err(e) => {
            proof {
                assert(body@.subrange(0, 19) == bodyv.subrange(0, 19));
            }
            return Err(e);
        },
    };
    proof {
        assert(body@.subrange(0, 19) == bodyv.subrange(0, 19));
        assert(bodyv.subrange(0, 19).subrange(18, 19) =~= bodyv.subrange(18, 19));
        assert(bodyv.subrange(0, 19).subrange(15, 16) =~= bodyv.subrange(15, 16));
        assert(bodyv.subrange(0, 19).subrange(16, 17) =~= bodyv.subrange(16, 17));
        lemma_width_digit(bodyv.subrange(0, 19).subrange(18, 19));
        lemma_width_digit(bodyv.subrange(0, 19).subrange(15, 16));
        lemma_width_digit(bodyv.subrange(0, 19).subrange(16, 17));
    }
    let m = body.len();
    let mut j: usize = 0;
    while j < m && body[j] != 30
        invariant
            0 <= j <= m,
            m == body@.len(),
            forall|k: int| 0 <= k < j ==> (#[trigger] body@[k]) != 30,
        decreases m - j,
    {
        j = j + 1;
    }
    proof {
        lemma_find_rs_is(body@, 0, j as int);
    }
    if j == m {
        return Err(Error::new(ErrorKind::BadDirectoryData));
    }
    if j < 19 {
        return Err(Error::new(ErrorKind::BadDirectoryData));
    }
    let dirreg = vstd::slice::slice_subrange(body, 19, j);
    proof {
        assert(dirreg@ == frame_dir_region(d@, pos as int));
    }
    let dirs = match parse_directory(dirreg, &leader) {
        Ok(v) => v,
        Err(e) => {
            return Err(e);
        },
    };
    let field = vstd::slice::slice_to_vec(vstd::slice::slice_subrange(body, j + 1, m));
    proof {
        assert(field@ == frame_field(d@, pos as int));
    }
    Ok((dirs, field, pos + l))
}

/// A one-byte digit region has a value below ten.
proof fn lemma_width_digit(s: Seq<u8>)
    requires
        s.len() == 1,
        is_uint_str(s),
    ensures
        uint_val(s) <= 9,
{
    let d = uint_digits(s);
    lemma_dec_val_bound(d);
    reveal_with_fuel(pow10, 2);
}

/// The schema decoded from the DDR: its directory, and the field definitions
/// keyed by tag, in directory order.
#[derive(Debug)]
pub struct DDR {
    /// The directory entries of the first record.
    pub dirs: Vec<DirectoryEntry>,
    /// The schema: one (tag, definition) pair per directory entry after the
    /// file control field.
    pub ddfs: Vec<(String, DDFEntry)>,
}

/// The field definitions of the DDR's frame are all well-formed: every
/// directory entry after the first points inside the field area at a region
/// that decodes as a field definition.
pub open spec fn ddr_fields_ok(d: Seq<u8>, pos: int) -> bool {
    let field = frame_field(d, pos);
    forall|j: int|
        1 <= j < frame_entry_count(d, pos) ==> {
            &&& #[trigger] frame_entry_len(d, pos, j) >= 1
            &&& frame_entry_off(d, pos, j) + frame_entry_len(d, pos, j) - 1 <= field.len()
            &&& ddf_ok(
                field.subrange(
                    frame_entry_off(d, pos, j),
                    frame_entry_off(d, pos, j) + frame_entry_len(d, pos, j) - 1,
                ),
            )
        }
}

/// The whole DDR decodes at `pos`: the frame is well-formed and so is every
/// field definition it points at.
pub open spec fn ddr_ok(d: Seq<u8>, pos: int) -> bool {
    &&& frame_ok(d, pos)
    &&& ddr_fields_ok(d, pos)
}

/// `schema` holds exactly the field definitions of the DDR at `pos`, keyed
/// by tag in directory order, the file control field skipped.
pub open spec fn schema_is(d: Seq<u8>, pos: int, schema: Seq<(String, DDFEntry)>) -> bool {
    &&& schema.len() == (if frame_entry_count(d, pos) >= 1 {
        frame_entry_count(d, pos) - 1
    } else {
        0
    })
    &&& forall|k: int|
        0 <= k < schema.len() ==> {
            &&& (#[trigger] schema[k]).0@ == frame_entry_tag(d, pos, k + 1)
            &&& ddf_is(
                frame_field(d, pos).subrange(
                    frame_entry_off(d, pos, k + 1),
                    frame_entry_off(d, pos, k + 1) + frame_entry_len(d, pos, k + 1) - 1,
                ),
                schema[k].1,
            )
        }
}

/// Decodes the Data Descriptive Record at `pos`: frames it and builds the
/// schema from its field area.
pub fn parse_ddr(d: &[u8], pos: usize) -> (r: Result<(DDR, usize), Error>)
    requires
        pos <= d@.len(),
    ensures
        r is Ok <==> ddr_ok(d@, pos as int),
        r matches Ok(t) ==> {
            &&& frame_dirs_are(d@, pos as int, t.0.dirs@)
            &&& schema_is(d@, pos as int, t.0.ddfs@)
            &&& t.1 == pos + frame_len(d@, pos as int)
            &&& pos < t.1 <= d@.len()
        },
        r matches Err(e) ==> (e.kind is Eof <==> pos == d@.len()),
{
    let (dirs, field, npos) = match parse_dir_and_field_area(d, pos) {
        Ok(t) => t,
        Err(e) => {
            return Err(e);
        },
    };
    proof {
        lemma_ddfs_bridge(d@, pos as int, dirs@, field@);
    }
    let ddfs = match parse_ddfs(field.as_slice(), dirs.as_slice()) {
        Ok(v) => v,
        Err(e) => {
            return Err(e.wrap(ErrorKind::InvalidDDR));
        },
    };
    Ok((DDR { dirs, ddfs }, npos))
}

/// Under a framed directory, the schema-region conditions over the frame
/// equal the conditions over the decoded entries.
proof fn lemma_ddfs_bridge(d: Seq<u8>, pos: int, dirs: Seq<DirectoryEntry>, field: Seq<u8>)
    requires
        frame_ok(d, pos),
        frame_dirs_are(d, pos, dirs),
        field == frame_field(d, pos),
    ensures
        ddfs_ok(field, dirs) <==> ddr_fields_ok(d, pos),
        forall|k: int|
            1 <= k < dirs.len() ==> ddf_region(field, #[trigger] dirs[k]) == field.subrange(
                frame_entry_off(d, pos, k),
                frame_entry_off(d, pos, k) + frame_entry_len(d, pos, k) - 1,
            ),
{
    assert forall|k: int|
        1 <= k < dirs.len() implies ddf_region(field, #[trigger] dirs[k]) == field.subrange(
        frame_entry_off(d, pos, k),
        frame_entry_off(d, pos, k) + frame_entry_len(d, pos, k) - 1,
    ) by {
        assert(dirs[k].offset == frame_entry_off(d, pos, k));
        assert(dirs[k].length == frame_entry_len(d, pos, k));
    }
    if ddfs_ok(field, dirs) {
        assert forall|j: int| 1 <= j < frame_entry_count(d, pos) implies {
            &&& #[trigger] frame_entry_len(d, pos, j) >= 1
            &&& frame_entry_off(d, pos, j) + frame_entry_len(d, pos, j) - 1 <= field.len()
            &&& ddf_ok(
                field.subrange(
                    frame_entry_off(d, pos, j),
                    frame_entry_off(d, pos, j) + frame_entry_len(d, pos, j) - 1,
                ),
            )
        } by {
            assert(dirs[j].length >= 1 && dirs[j].offset + dirs[j].length - 1 <= field.len()
                && ddf_ok(ddf_region(field, dirs[j])));
        }
    }
    if ddr_fields_ok(d, pos) {
        assert forall|j: int| 1 <= j < dirs.len() implies {
            &&& (#[trigger] dirs[j]).length >= 1
            &&& dirs[j].offset + dirs[j].length - 1 <= field.len()
            &&& ddf_ok(ddf_region(field, dirs[j]))
        } by {
            assert(frame_entry_len(d, pos, j) >= 1);
        }
    }
}

/// The decoded subfield values of one tagged field, keyed by subfield tag in
/// schema order.
#[derive(Debug)]
pub struct Field {
    /// The (subfield tag, value) pairs, in schema order.
    pub subfields: Vec<(String, Data)>,
}

/// The first index whose subfield tag is `tag`, or -1.
pub open spec fn subfield_find(pairs: Seq<(String, Data)>, tag: Seq<char>) -> int
    decreases pairs.len(),
{
    if pairs.len() == 0 {
        -1
    } else if pairs[0].0@ == tag {
        0
    } else {
        let r = subfield_find(pairs.drop_first(), tag);
        if r == -1 {
            -1
        } else {
            r + 1
        }
    }
}

/// A scan that stops at the first matching subfield tag computes
/// `subfield_find`.
pub proof fn lemma_subfield_find_is(pairs: Seq<(String, Data)>, tag: Seq<char>, i: int)
    requires
        0 <= i <= pairs.len(),
        forall|k: int| 0 <= k < i ==> (#[trigger] pairs[k]).0@ != tag,
        i == pairs.len() || pairs[i].0@ == tag,
    ensures
        subfield_find(pairs, tag) == (if i == pairs.len() {
            -1int
        } else {
            i
        }),
    decreases pairs.len(),
{
    if pairs.len() > 0 && pairs[0].0@ != tag {
        assert(i >= 1);
        lemma_subfield_find_is(pairs.drop_first(), tag, i - 1);
    }
}

impl Field {
    /// Looks one subfield value up by its tag; the first match in schema
    /// order, or nothing when the tag is absent.
    pub fn get(&self, tag: &str) -> (r: Option<&Data>)
        ensures
            r is Some <==> subfield_find(self.subfields@, tag@) >= 0,
            r matches Some(v) ==> *v == self.subfields@[subfield_find(self.subfields@, tag@)].1,
    {
        let key: String = tag.to_owned();
        let n = self.subfields.len();
        let mut i: usize = 0;
        while i < n
            invariant
                0 <= i <= n,
                n == self.subfields@.len(),
                key@ == tag@,
                forall|k: int| 0 <= k < i ==> (#[trigger] self.subfields@[k]).0@ != tag@,
            decreases n - i,
        {
            if self.subfields[i].0 == key {
                proof {
                    lemma_subfield_find_is(self.subfields@, tag@, i as int);
                }
                return Some(&self.subfields[i].1);
            }
            i = i + 1;
        }
        proof {
            lemma_subfield_find_is(self.subfields@, tag@, n as int);
        }
        None
    }
}

/// One decoded Data Record: its fields keyed by tag, in directory order.
#[derive(Debug)]
pub struct Record {
    /// The (field tag, field) pairs, in directory order.
    pub fields: Vec<(String, Field)>,
}

/// The first index whose field tag is `tag`, or -1.
pub open spec fn field_find(fields: Seq<(String, Field)>, tag: Seq<char>) -> int
    decreases fields.len(),
{
    if fields.len() == 0 {
        -1
    } else if fields[0].0@ == tag {
        0
    } else {
        let r = field_find(fields.drop_first(), tag);
        if r == -1 {
            -1
        } else {
            r + 1
        }
    }
}

/// A scan that stops at the first matching field tag computes `field_find`.
pub proof fn lemma_field_find_is(fields: Seq<(String, Field)>, tag: Seq<char>, i: int)
    requires
        0 <= i <= fields.len(),
        forall|k: int| 0 <= k < i ==> (#[trigger] fields[k]).0@ != tag,
        i == fields.len() || fields[i].0@ == tag,
    ensures
        field_find(fields, tag) == (if i == fields.len() {
            -1int
        } else {
            i
        }),
    decreases fields.len(),
{
    if fields.len() > 0 && fields[0].0@ != tag {
        assert(i >= 1);
        lemma_field_find_is(fields.drop_first(), tag, i - 1);
    }
}

/// The record identifier a record carries: the integer value of the
/// synthesized record-identifier subfield of the reserved top-level field.
pub open spec fn record_id_of(rec: Record) -> Option<i64> {
    let f = field_find(rec.fields@, "0001"@);
    if f < 0 {
        None
    } else {
        let pairs = rec.fields@[f].1.subfields@;
        let s = subfield_find(pairs, "DRID"@);
        if s < 0 {
            None
        } else {
            match pairs[s].1 {
                Data::Integer(i) => i,
                _ => None,
            }
        }
    }
}

impl Record {
    /// The record's own integer identifier, if the reserved top-level field
    /// carries the synthesized record-identifier subfield as an integer.
    pub fn id(&self) -> (r: Option<i64>)
        ensures
            r == record_id_of(*self),
    {
        match self.get("0001") {
            None => None,
            Some(f) => match f.get("DRID") {
                None => None,
                Some(d) => match d {
                    Data::Integer(i) => *i,
                    _ => None,
                },
            },
        }
    }

    /// Looks one field up by its tag; the first match in directory order, or
    /// nothing when the tag is absent.
    pub fn get(&self, arr_desc: &str) -> (r: Option<&Field>)
        ensures
            r is Some <==> field_find(self.fields@, arr_desc@) >= 0,
            r matches Some(f) ==> *f == self.fields@[field_find(self.fields@, arr_desc@)].1,
    {
        let key: String = arr_desc.to_owned();
        let n = self.fields.len();
        let mut i: usize = 0;
        while i < n
            invariant
                0 <= i <= n,
                n == self.fields@.len(),
                key@ == arr_desc@,
                forall|k: int| 0 <= k < i ==> (#[trigger] self.fields@[k]).0@ != arr_desc@,
            decreases n - i,
        {
            if self.fields[i].0 == key {
                proof {
                    lemma_field_find_is(self.fields@, arr_desc@, i as int);
                }
                return Some(&self.fields[i].1);
            }
            i = i + 1;
        }
        proof {
            lemma_field_find_is(self.fields@, arr_desc@, n as int);
        }
        None
    }
}

/// The format specs of a subfield schema, in order.
pub open spec fn foc_pds(foc: Seq<(String, ParseData)>) -> Seq<ParseData> {
    foc.map_values(|p: (String, ParseData)| p.1)
}

/// Where the cursor stands before subfield `i` of a field decoded at
/// `start`: each scalar starts where the one before it ended.
pub open spec fn field_pos(pds: Seq<ParseData>, d: Seq<u8>, start: int, i: int) -> int
    decreases i
        when i >= 0
{
    if i <= 0 {
        start
    } else {
        scalar_end(pds[i - 1], d, field_pos(pds, d, start, i - 1))
    }
}

/// Every subfield of the schema decodes in turn from `start`.
pub open spec fn field_ok_at(pds: Seq<ParseData>, d: Seq<u8>, start: int) -> bool {
    forall|i: int|
        0 <= i < pds.len() ==> scalar_ok(pds[i], d, #[trigger] field_pos(pds, d, start, i))
}

/// Where the cursor stands after the whole field.
pub open spec fn field_end(pds: Seq<ParseData>, d: Seq<u8>, start: int) -> int {
    field_pos(pds, d, start, pds.len() as int)
}

/// `f` holds exactly the subfield values the schema `foc` decodes at
/// `start`, keyed by subfield tag in schema order.
pub open spec fn field_is(foc: Seq<(String, ParseData)>, d: Seq<u8>, start: int, f: Field) -> bool {
    &&& f.subfields@.len() == foc.len()
    &&& forall|i: int|
        0 <= i < foc.len() ==> {
            &&& (#[trigger] f.subfields@[i]).0@ == foc[i].0@
            &&& data_is(
                pd_ty(foc[i].1),
                scalar_region(foc[i].1, d, field_pos(foc_pds(foc), d, start, i)),
                f.subfields@[i].1,
            )
        }
}

/// Decodes one field at the cursor: each subfield of the schema in order,
/// collected under its tag.
fn decode_field(entry: &DDFEntry, d: &[u8], pos: &mut usize) -> (r: Result<Field, Error>)
    requires
        *old(pos) <= d@.len(),
    ensures
        r is Ok <==> field_ok_at(foc_pds(entry.foc@), d@, *old(pos) as int),
        r matches Ok(f) ==> {
            &&& field_is(entry.foc@, d@, *old(pos) as int, f)
            &&& *final(pos) == field_end(foc_pds(entry.foc@), d@, *old(pos) as int)
            &&& *final(pos) <= d@.len()
        },
        r matches Err(e) ==> (e.kind is UnexpectedEof || e.kind is Utf || e.kind is ParseInt),
{
    let ghost pds = foc_pds(entry.foc@);
    let ghost start = *pos as int;
    let n = entry.foc.len();
    let mut subfields: Vec<(String, Data)> = Vec::new();
    let mut i: usize = 0;
    while i < n
        invariant
            0 <= i <= n,
            n == entry.foc@.len(),
            pds == foc_pds(entry.foc@),
            start == *old(pos) as int,
            0 <= start,
            *pos == field_pos(pds, d@, start, i as int),
            *pos <= d@.len(),
            subfields@.len() == i,
            forall|k: int|
                0 <= k < i ==> scalar_ok(pds[k], d@, #[trigger] field_pos(pds, d@, start, k)),
            forall|k: int|
                0 <= k < i ==> {
                    &&& (#[trigger] subfields@[k]).0@ == entry.foc@[k].0@
                    &&& data_is(
                        pd_ty(entry.foc@[k].1),
                        scalar_region(entry.foc@[k].1, d@, field_pos(pds, d@, start, k)),
                        subfields@[k].1,
                    )
                },
        decreases n - i,
    {
        proof {
            assert(pds[i as int] == entry.foc@[i as int].1);
        }
        let ghost before = *pos as int;
        let v = match parse_scalar(&entry.foc[i].1, d, pos) {
            Ok(v) => v,
            Err(e) => {
                proof {
                    assert(!scalar_ok(pds[i as int], d@, field_pos(pds, d@, start, i as int)));
                }
                return Err(e);
            },
        };
        proof {
            assert(field_pos(pds, d@, start, i as int + 1) == scalar_end(
                pds[i as int],
                d@,
                before,
            ));
        }
        let tag = entry.foc[i].0.clone();
        subfields.push((tag, v));
        i = i + 1;
    }
    Ok(Field { subfields })
}

/// The first schema index whose tag is `tag`, or -1.
pub open spec fn schema_find(schema: Seq<(String, DDFEntry)>, tag: Seq<char>) -> int
    decreases schema.len(),
{
    if schema.len() == 0 {
        -1
    } else if schema[0].0@ == tag {
        0
    } else {
        let r = schema_find(schema.drop_first(), tag);
        if r == -1 {
            -1
        } else {
            r + 1
        }
    }
}

/// A scan that stops at the first matching schema tag computes
/// `schema_find`.
pub proof fn lemma_schema_find_is(schema: Seq<(String, DDFEntry)>, tag: Seq<char>, i: int)
    requires
        0 <= i <= schema.len(),
        forall|k: int| 0 <= k < i ==> (#[trigger] schema[k]).0@ != tag,
        i == schema.len() || schema[i].0@ == tag,
    ensures
        schema_find(schema, tag) == (if i == schema.len() {
            -1int
        } else {
            i
        }),
    decreases schema.len(),
{
    if schema.len() > 0 && schema[0].0@ != tag {
        assert(i >= 1);
        lemma_schema_find_is(schema.drop_first(), tag, i - 1);
    }
}

/// Looks a tag up in the schema, first match in directory order.
fn find_schema<'a>(schema: &'a Vec<(String, DDFEntry)>, tag: &String) -> (r: Option<
    &'a DDFEntry,
>)
    ensures
        r is Some <==> schema_find(schema@, tag@) >= 0,
        r matches Some(e) ==> {
            &&& 0 <= schema_find(schema@, tag@) < schema@.len()
            &&& e.foc@ == schema@[schema_find(schema@, tag@)].1.foc@
        },
{
    let n = schema.len();
    let mut i: usize = 0;
    while i < n
        invariant
            0 <= i <= n,
            n == schema@.len(),
            forall|k: int| 0 <= k < i ==> (#[trigger] schema@[k]).0@ != tag@,
        decreases n - i,
    {
        if schema[i].0 == *tag {
            proof {
                lemma_schema_find_is(schema@, tag@, i as int);
            }
            return Some(&schema[i].1);
        }
        i = i + 1;
    }
    proof {
        lemma_schema_find_is(schema@, tag@, n as int);
    }
    None
}

/// Where a cursor stands after the field-level skip of one separator byte.
pub open spec fn skip_pos(p: int, len: int) -> int {
    if p < len {
        p + 1
    } else {
        p
    }
}

/// Where the cursor stands before field `j` of the record framed at `pos`:
/// fields are decoded one after another from the start of the field area,
/// each followed by the skip of its trailing separator.
pub open spec fn dr_pos(schema: Seq<(String, DDFEntry)>, d: Seq<u8>, pos: int, j: int) -> int
    decreases j
        when j >= 0
{
    if j <= 0 {
        0
    } else {
        let field = frame_field(d, pos);
        let idx = schema_find(schema, frame_entry_tag(d, pos, j - 1));
        let pds = foc_pds(schema[idx].1.foc@);
        skip_pos(field_end(pds, field, dr_pos(schema, d, pos, j - 1)), field.len() as int)
    }
}

/// Directory entry `j` of the record framed at `pos` decodes against
/// `schema`: its tag is in the schema, the cursor stands inside the field
/// area, and the field's subfields decode in turn.
pub open spec fn dr_step_ok(schema: Seq<(String, DDFEntry)>, d: Seq<u8>, pos: int, j: int) -> bool {
    &&& schema_find(schema, frame_entry_tag(d, pos, j)) >= 0
    &&& 0 <= dr_pos(schema, d, pos, j) <= frame_field(d, pos).len()
    &&& field_ok_at(
        foc_pds(schema[schema_find(schema, frame_entry_tag(d, pos, j))].1.foc@),
        frame_field(d, pos),
        dr_pos(schema, d, pos, j),
    )
}

/// A data record decodes at `pos` against `schema`: the frame is
/// well-formed and every directory entry decodes in turn.
pub open spec fn dr_ok(schema: Seq<(String, DDFEntry)>, d: Seq<u8>, pos: int) -> bool {
    &&& frame_ok(d, pos)
    &&& forall|j: int|
        0 <= j < frame_entry_count(d, pos) ==> #[trigger] dr_step_ok(schema, d, pos, j)
}

/// Pair `p` holds exactly field `j` of the record framed at `pos`: the
/// directory tag, and the field decoded against the schema at its cursor.
pub open spec fn record_entry_is(
    schema: Seq<(String, DDFEntry)>,
    d: Seq<u8>,
    pos: int,
    j: int,
    p: (String, Field),
) -> bool {
    &&& p.0@ == frame_entry_tag(d, pos, j)
    &&& field_is(
        schema[schema_find(schema, frame_entry_tag(d, pos, j))].1.foc@,
        frame_field(d, pos),
        dr_pos(schema, d, pos, j),
        p.1,
    )
}

/// `rec` holds exactly the fields of the record framed at `pos`, decoded
/// against `schema` and keyed by directory tag in directory order.
pub open spec fn record_is(
    schema: Seq<(String, DDFEntry)>,
    d: Seq<u8>,
    pos: int,
    rec: Record,
) -> bool {
    &&& rec.fields@.len() == frame_entry_count(d, pos)
    &&& forall|j: int|
        0 <= j < rec.fields@.len() ==> #[trigger] record_entry_is(
            schema,
            d,
            pos,
            j,
            rec.fields@[j],
        )
}

/// The stream engine: the byte buffer, the cursor, and the schema built once
/// from the first record. Forward-only and not restartable: the cursor only
/// advances.
#[derive(Debug)]
pub struct Catalog {
    /// The whole byte source.
    pub data: Vec<u8>,
    /// The cursor: where the next record frames.
    pub pos: usize,
    /// The schema, built once from the first record.
    pub ddr: DDR,
}

impl Catalog {
    /// The catalog is well-formed: the cursor stands inside the buffer.
    pub open spec fn wf(self) -> bool {
        self.pos <= self.data@.len()
    }

    /// Bootstraps a catalog from a byte source: decodes the first record as
    /// the DDR and stands ready to yield the data records after it.
    ///
    /// Succeeds exactly when the first record frames and its field
    /// definitions decode; any bootstrap failure is fatal and carries the
    /// bootstrap error kind over its cause.
    pub fn new(data: Vec<u8>) -> (r: Result<Catalog, Error>)
        ensures
            r is Ok <==> ddr_ok(data@, 0),
            r matches Ok(c) ==> {
                &&& c.wf()
                &&& c.data@ == data@
                &&& c.pos == frame_len(data@, 0)
                &&& frame_dirs_are(data@, 0, c.ddr.dirs@)
                &&& schema_is(data@, 0, c.ddr.ddfs@)
            },
            r matches Err(e) ==> e.kind is CouldNotParseCatalog,
    {
        match parse_ddr(data.as_slice(), 0) {
            Ok((ddr, npos)) => Ok(Catalog { data, pos: npos, ddr }),
            Err(e) => Err(e.wrap(ErrorKind::CouldNotParseCatalog)),
        }
    }

    /// Decodes the data record at the cursor, or reports the clean end of
    /// the stream; always advances the cursor past a framed record.
    fn parse_dr(&mut self) -> (r: Result<Option<Record>, Error>)
        requires
            old(self).wf(),
        ensures
            final(self).wf(),
            final(self).data@ == old(self).data@,
            final(self).ddr == old(self).ddr,
            (r matches Ok(o) && o is None) <==> old(self).pos == old(self).data@.len(),
            (r matches Ok(o) && o is Some) <==> dr_ok(
                old(self).ddr.ddfs@,
                old(self).data@,
                old(self).pos as int,
            ),
            r matches Ok(Some(rec)) ==> {
                &&& record_is(old(self).ddr.ddfs@, old(self).data@, old(self).pos as int, rec)
                &&& final(self).pos == old(self).pos + frame_len(
                    old(self).data@,
                    old(self).pos as int,
                )
            },
            r matches Ok(None) ==> final(self).pos == old(self).pos,
            r matches Err(e) ==> !(e.kind is Eof),
    {
        let ghost d = self.data@;
        let ghost p0 = self.pos as int;
        let ghost schema = self.ddr.ddfs@;
        let (dirs, field, npos) = match parse_dir_and_field_area(self.data.as_slice(), self.pos) {
            Ok(t) => t,
            Err(e) => {
                return match &e.kind {
                    ErrorKind::Eof => Ok(None),
                    _ => Err(e),
                };
            },
        };
        self.pos = npos;
        let m = dirs.len();
        let mut fields: Vec<(String, Field)> = Vec::new();
        let mut cur: usize = 0;
        let mut j: usize = 0;
        while j < m
            invariant
                0 <= j <= m,
                m == dirs@.len(),
                d == old(self).data@,
                p0 == old(self).pos as int,
                schema == old(self).ddr.ddfs@,
                self.data@ == d,
                self.ddr == old(self).ddr,
                self.pos == npos,
                npos == p0 + frame_len(d, p0),
                self.pos <= self.data@.len(),
                frame_ok(d, p0),
                frame_dirs_are(d, p0, dirs@),
                field@ == frame_field(d, p0),
                schema == self.ddr.ddfs@,
                cur == dr_pos(schema, d, p0, j as int),
                cur <= field@.len(),
                fields@.len() == j,
                forall|k: int| 0 <= k < j ==> #[trigger] dr_step_ok(schema, d, p0, k),
                forall|k: int|
                    0 <= k < j ==> #[trigger] record_entry_is(schema, d, p0, k, fields@[k]),
            decreases m - j,
        {
            proof {
                assert(dirs@[j as int].id@ == frame_entry_tag(d, p0, j as int));
            }
            let ghost cur0 = cur as int;
            let entry = match find_schema(&self.ddr.ddfs, &dirs[j].id) {
                Some(e) => e,
                None => {
                    proof {
                        assert(!dr_step_ok(schema, d, p0, j as int));
                    }
                    return Err(Error::new(ErrorKind::InvalidDR));
                },
            };
            let f = match decode_field(entry, field.as_slice(), &mut cur) {
                Ok(f) => f,
                Err(e) => {
                    proof {
                        assert(!field_ok_at(foc_pds(entry.foc@), field@, cur0));
                        assert(!dr_step_ok(schema, d, p0, j as int));
                    }
                    return Err(e.wrap(ErrorKind::InvalidDR));
                },
            };
            cur = if cur < field.len() {
                cur + 1
            } else {
                cur
            };
            let tag = dirs[j].id.clone();
            fields.push((tag, f));
            proof {
                let jj = j as int;
                let idx = schema_find(schema, frame_entry_tag(d, p0, jj));
                assert(idx >= 0);
                assert(entry.foc@ == schema[idx].1.foc@);
                assert(cur0 == dr_pos(schema, d, p0, jj));
                assert(field_ok_at(foc_pds(schema[idx].1.foc@), field@, dr_pos(schema, d, p0, jj)));
                assert(dr_step_ok(schema, d, p0, jj));
                assert(field_is(
                    schema[idx].1.foc@,
                    field@,
                    dr_pos(schema, d, p0, jj),
                    fields@[jj].1,
                ));
                assert(record_entry_is(schema, d, p0, jj, fields@[jj]));
                assert(cur == dr_pos(schema, d, p0, jj + 1));
            }
            j = j + 1;
        }
        Ok(Some(Record { fields }))
    }

    /// Yields the next data record of the stream: a decoded record, an error
    /// for this step, or nothing at the clean end of the stream.
    pub fn next(&mut self) -> (r: Option<Result<Record, Error>>)
        requires
            old(self).wf(),
        ensures
            final(self).wf(),
            final(self).data@ == old(self).data@,
            final(self).ddr == old(self).ddr,
            r is None <==> old(self).pos == old(self).data@.len(),
            (r matches Some(q) && q is Ok) <==> dr_ok(
                old(self).ddr.ddfs@,
                old(self).data@,
                old(self).pos as int,
            ),
            r matches Some(Ok(rec)) ==> {
                &&& record_is(old(self).ddr.ddfs@, old(self).data@, old(self).pos as int, rec)
                &&& final(self).pos == old(self).pos + frame_len(
                    old(self).data@,
                    old(self).pos as int,
                )
            },
    {
        match self.parse_dr() {
            Ok(Some(dr)) => Some(Ok(dr)),
            Ok(None) => None,
            Err(err) => Some(Err(err)),
        }
    }
}

} // verus!
