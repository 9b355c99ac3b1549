//! The directory: the table of (tag, length, offset) entries between the
//! leader and the first record separator.
//!
//! The region is a whole number of chunks of fixed width, the sum of the
//! leader's entry-map widths; a remainder is corruption.

use vstd::prelude::*;

use vstd::utf8::{decode_utf8, valid_utf8};

use crate::error::{Error, ErrorKind};
use crate::leader::Leader;
use crate::num::{is_uint_str, parse_to_usize, uint_val};
use crate::text::parse_to_string;

verus! {

/// One field's location descriptor: where the field lies in the field area.
#[derive(Debug)]
pub struct DirectoryEntry {
    /// The tag of the field.
    pub id: String,
    /// The length of the field in bytes.
    pub length: usize,
    /// The offset in bytes from the start of the field area.
    pub offset: usize,
}

impl PartialEq for DirectoryEntry {
    fn eq(&self, o: &DirectoryEntry) -> (r: bool) {
        self.id == o.id && self.length == o.length && self.offset == o.offset
    }
}

impl vstd::std_specs::cmp::PartialEqSpecImpl for DirectoryEntry {
    open spec fn obeys_eq_spec() -> bool {
        true
    }

    open spec fn eq_spec(&self, o: &DirectoryEntry) -> bool {
        self.id@ == o.id@ && self.length == o.length && self.offset == o.offset
    }
}

/// Chunk `k` of a region cut into pieces of width `cs`.
pub open spec fn chunk(b: Seq<u8>, cs: int, k: int) -> Seq<u8> {
    b.subrange(k * cs, (k + 1) * cs)
}

/// One directory chunk is well-formed: the tag region is text and the length
/// and position regions are unsigned decimal literals. `tw` and `lw` are the
/// tag and length widths.
pub open spec fn entry_ok(c: Seq<u8>, tw: int, lw: int) -> bool {
    &&& valid_utf8(c.subrange(0, tw))
    &&& is_uint_str(c.subrange(tw, tw + lw))
    &&& is_uint_str(c.subrange(tw + lw, c.len() as int))
}

/// The directory region is well-formed for entry-map widths `tw`, `lw`,
/// `pw`: a positive chunk width, a whole number of chunks, each well-formed.
pub open spec fn directory_ok(b: Seq<u8>, tw: int, lw: int, pw: int) -> bool {
    let cs = tw + lw + pw;
    &&& cs > 0
    &&& b.len() as int % cs == 0
    &&& forall|k: int| 0 <= k < b.len() as int / cs ==> entry_ok(#[trigger] chunk(b, cs, k), tw, lw)
}

/// The decoded tag characters of entry `k`.
pub open spec fn entry_id(b: Seq<u8>, cs: int, tw: int, k: int) -> Seq<char> {
    decode_utf8(chunk(b, cs, k).subrange(0, tw))
}

/// `e` holds exactly what chunk `k` of the directory region `b` encodes.
pub open spec fn entry_is(b: Seq<u8>, cs: int, tw: int, lw: int, k: int, e: DirectoryEntry) -> bool {
    &&& e.id@ == entry_id(b, cs, tw, k)
    &&& e.length == uint_val(chunk(b, cs, k).subrange(tw, tw + lw))
    &&& e.offset == uint_val(chunk(b, cs, k).subrange(tw + lw, cs))
}

/// Decoding a directory entry is a function of the input bytes and widths
/// alone: two entries decoded from the same chunk agree.
pub proof fn lemma_entry_deterministic(
    b: Seq<u8>,
    cs: int,
    tw: int,
    lw: int,
    k: int,
    e1: DirectoryEntry,
    e2: DirectoryEntry,
)
    requires
        entry_is(b, cs, tw, lw, k, e1),
        entry_is(b, cs, tw, lw, k, e2),
    ensures
        e1.id@ == e2.id@,
        e1.length == e2.length,
        e1.offset == e2.offset,
{
}

/// Decodes the directory region `byte` using the entry-map widths of
/// `leader`, yielding the entries in file order.
///
/// Succeeds exactly when the region is a whole number of well-formed chunks,
/// and then yields one entry per chunk, in order. A region that is not a
/// whole number of chunks, all of whose complete chunks are well-formed,
/// always fails with the directory-width error.
pub fn parse_directory(byte: &[u8], leader: &Leader) -> (r: Result<Vec<DirectoryEntry>, Error>)
    requires
        leader.ftf + leader.flf + leader.fpf <= usize::MAX,
    ensures
        r is Ok <==> directory_ok(byte@, leader.ftf as int, leader.flf as int, leader.fpf as int),
        r matches Ok(v) ==> {
            let tw = leader.ftf as int;
            let lw = leader.flf as int;
            let cs = tw + lw + leader.fpf;
            &&& v@.len() == byte@.len() as int / cs
            &&& forall|k: int|
                0 <= k < v@.len() ==> entry_is(byte@, cs, tw, lw, k, #[trigger] v@[k])
        },
        leader.ftf + leader.flf + leader.fpf == 0 ==> (r matches Err(e) && e.kind
            is BadDirectoryData),
        ({
            let tw = leader.ftf as int;
            let lw = leader.flf as int;
            let cs = tw + lw + leader.fpf;
            cs > 0 && byte@.len() as int % cs != 0 && (forall|k: int|
                0 <= k < byte@.len() as int / cs ==> entry_ok(#[trigger] chunk(byte@, cs, k), tw, lw))
        }) ==> (r matches Err(e) && e.kind is BadDirectoryData),
        r matches Err(e) ==> (e.kind is BadDirectoryData || e.kind is Utf || e.kind is ParseInt),
{
    let tw = leader.ftf;
    let lw = leader.flf;
    let cs = tw + lw + leader.fpf;
    if cs == 0 {
        return Err(Error::new(ErrorKind::BadDirectoryData));
    }
    let n = byte.len();
    let ghost tws = tw as int;
    let ghost lws = lw as int;
    let ghost css = cs as int;
    let mut entries: Vec<DirectoryEntry> = Vec::new();
    let mut off: usize = 0;
    proof {
        assert(entries@.len() == 0);
        assert(entries@.len() * css == 0) by (nonlinear_arith)
            requires
                entries@.len() == 0,
        ;
    }
    while n - off >= cs
        invariant
            cs == leader.ftf + leader.flf + leader.fpf,
            tw == leader.ftf,
            lw == leader.flf,
            cs > 0,
            tws == tw as int && lws == lw as int && css == cs as int,
            n == byte@.len(),
            off <= n,
            off == entries@.len() * css,
            forall|k: int|
                0 <= k < entries@.len() ==> entry_ok(#[trigger] chunk(byte@, css, k), tws, lws),
            forall|k: int|
                0 <= k < entries@.len() ==> entry_is(
                    byte@,
                    css,
                    tws,
                    lws,
                    k,
                    #[trigger] entries@[k],
                ),
        decreases n - off,
    {
        let ghost k = entries@.len() as int;
        proof {
            assert((k + 1) * css == k * css + css) by (nonlinear_arith);
            assert(chunk(byte@, css, k) =~= byte@.subrange(off as int, off as int + css));
            assert(chunk(byte@, css, k).subrange(0, tws) =~= byte@.subrange(
                off as int,
                off as int + tws,
            ));
            assert(chunk(byte@, css, k).subrange(tws, tws + lws) =~= byte@.subrange(
                off as int + tws,
                off as int + tws + lws,
            ));
            assert(chunk(byte@, css, k).subrange(tws + lws, css) =~= byte@.subrange(
                off as int + tws + lws,
                off as int + css,
            ));
        }
        let id = match parse_to_string(vstd::slice::slice_subrange(byte, off, off + tw)) {
            Ok(v) => v,
            Err(e) => {
                proof {
                    lemma_chunk_bad(byte@, css, tws, lws, k);
                }
                return Err(e);
            },
        };
        let length = match parse_to_usize(vstd::slice::slice_subrange(byte, off + tw, off + tw + lw)) {
            Ok(v) => v,
            Err(e) => {
                proof {
                    lemma_chunk_bad(byte@, css, tws, lws, k);
                }
                return Err(e);
            },
        };
        let offset = match parse_to_usize(vstd::slice::slice_subrange(byte, off + tw + lw, off + cs)) {
            Ok(v) => v,
            Err(e) => {
                proof {
                    lemma_chunk_bad(byte@, css, tws, lws, k);
                }
                return Err(e);
            },
        };
        entries.push(DirectoryEntry { id, length, offset });
        off = off + cs;
        proof {
            assert(entries@.len() * css == (k + 1) * css);
        }
    }
    if off != n {
        proof {
            let k = entries@.len() as int;
            assert(n as int == k * css + (n - off)) by (nonlinear_arith)
                requires
                    off == k * css,
                    n >= off,
            ;
            lemma_mod_nonzero(n as int, css, k, n - off);
        }
        return Err(Error::new(ErrorKind::BadDirectoryData));
    }
    proof {
        let k = entries@.len() as int;
        lemma_div_exact(n as int, css, k);
    }
    Ok(entries)
}

/// A chunk whose complete-chunk count ends at `k` and whose own regions do
/// not decode keeps the whole directory from being well-formed.
proof fn lemma_chunk_bad(b: Seq<u8>, cs: int, tw: int, lw: int, k: int)
    requires
        cs > 0,
        0 <= k,
        (k + 1) * cs <= b.len(),
    ensures
        k < b.len() as int / cs,
{
    assert(k < b.len() as int / cs) by (nonlinear_arith)
        requires
            cs > 0,
            0 <= k,
            (k + 1) * cs <= b.len(),
    ;
}

/// `n == k·cs + r` with `0 < r < cs` leaves a remainder.
proof fn lemma_mod_nonzero(n: int, cs: int, k: int, r: int)
    requires
        cs > 0,
        0 <= k,
        0 < r < cs,
        n == k * cs + r,
    ensures
        n % cs != 0,
        n / cs == k,
{
    assert(n % cs == r && n / cs == k) by (nonlinear_arith)
        requires
            cs > 0,
            0 <= k,
            0 <= r < cs,
            n == k * cs + r,
    ;
}

/// `n == k·cs` divides exactly.
proof fn lemma_div_exact(n: int, cs: int, k: int)
    requires
        cs > 0,
        0 <= k,
        n == k * cs,
    ensures
        n % cs == 0,
        n / cs == k,
{
    assert(n % cs == 0 && n / cs == k) by (nonlinear_arith)
        requires
            cs > 0,
            0 <= k,
            n == k * cs,
    ;
}

} // verus!
