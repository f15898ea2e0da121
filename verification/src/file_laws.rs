//! What an index file is, said of its bytes.
//!
//! Nothing here runs.

use crate::mv2x::{FrameOffset, Mv2xIndex, TimeEntry};
use crate::mv2x_file::{IndexFile, Mv2xError};
use crate::wire::HeaderView;
use vstd::prelude::*;

verus! {

/// A length in four bytes, the lowest first.
pub open spec fn four_bytes(n: nat) -> Seq<u8> {
    seq![
        (n % 256) as u8,
        (n / 256 % 256) as u8,
        (n / 65536 % 256) as u8,
        (n / 16777216 % 256) as u8,
    ]
}

/// A part of the file with its length before it.
pub open spec fn part(bytes: Seq<u8>) -> Seq<u8> {
    four_bytes(bytes.len()) + bytes
}

/// The bytes of an optional blob: none if it is missing.
pub open spec fn raw(o: Option<Vec<u8>>) -> Seq<u8> {
    match o {
        Some(bytes) => bytes@,
        None => Seq::empty(),
    }
}

/// The ID and the offset of each frame.
pub open spec fn offset_numbers(offsets: Seq<FrameOffset>) -> Seq<(u64, u64)> {
    Seq::new(offsets.len(), |k: int| (offsets[k].frame_id, offsets[k].byte_offset))
}

/// The ID and the time of each frame, the time as the unsigned number of the same
/// bits.
pub open spec fn time_numbers(entries: Seq<TimeEntry>) -> Seq<(u64, u64)> {
    Seq::new(
        entries.len(),
        |k: int|
            (
                entries[k].frame_id,
                (if entries[k].timestamp >= 0 {
                    entries[k].timestamp as int
                } else {
                    entries[k].timestamp + 0x1_0000_0000_0000_0000
                }) as u64,
            ),
    )
}

/// The first bytes of an index file: `MV2X` and version 2.
pub open spec fn start() -> Seq<u8> {
    seq![0x4du8, 0x56u8, 0x32u8, 0x58u8, 2u8, 0u8]
}

/// The bytes of an index file with these parts.
pub open spec fn assembled(
    header: Seq<u8>,
    offsets: Seq<u8>,
    times: Seq<u8>,
    lex: Seq<u8>,
    vec: Seq<u8>,
    mesh: Seq<u8>,
) -> Seq<u8> {
    start() + (part(header) + (part(offsets) + (part(times) + (part(lex) + (part(vec) + part(
        mesh,
    ))))))
}

/// Whether `bytes` are the index file of `index`.
pub open spec fn is_file_of<M>(bytes: Seq<u8>, index: Mv2xIndex<M>) -> bool {
    bytes == assembled(
        crate::wire::wire_header(index.header@),
        crate::wire::wire_pairs(offset_numbers(index.offsets@)),
        crate::wire::wire_pairs(time_numbers(index.time_entries@)),
        raw(index.lex_bytes),
        raw(index.vec_bytes),
        raw(index.mesh_bytes),
    )
}

/// Whether every part of an index file fits its four-byte length.
pub open spec fn parts_fit<M>(index: Mv2xIndex<M>) -> bool {
    &&& crate::wire::wire_header(index.header@).len() <= u32::MAX
    &&& crate::wire::wire_pairs(offset_numbers(index.offsets@)).len() <= u32::MAX
    &&& crate::wire::wire_pairs(time_numbers(index.time_entries@)).len() <= u32::MAX
    &&& raw(index.lex_bytes).len() <= u32::MAX
    &&& raw(index.vec_bytes).len() <= u32::MAX
    &&& raw(index.mesh_bytes).len() <= u32::MAX
}

/// Whether what was stored of a blob was read: nothing if it was missing or empty.
pub open spec fn same_blob(read: Option<Vec<u8>>, stored: Option<Vec<u8>>) -> bool {
    match read {
        Some(bytes) => stored is Some && bytes@ == stored->0@ && bytes@.len() > 0,
        None => raw(stored).len() == 0,
    }
}

/// Whether an optional blob holds these bytes.
pub open spec fn blob_is(o: Option<Vec<u8>>, bytes: Option<Seq<u8>>) -> bool {
    match (o, bytes) {
        (Some(a), Some(b)) => a@ == b,
        (None, None) => true,
        _ => false,
    }
}

proof fn lemma_four_bytes(n: nat)
    ensures
        crate::wire::le_bytes(n, 4) == four_bytes(n),
{
    reveal_with_fuel(crate::wire::le_bytes, 5);
    assert(n / 256 / 256 == n / 65536) by (nonlinear_arith);
    assert(n / 256 / 256 / 256 == n / 16777216) by (nonlinear_arith);
    assert(crate::wire::le_bytes(n, 4) =~= four_bytes(n));
}

proof fn lemma_part(bytes: Seq<u8>)
    ensures
        crate::mv2x_file::section(bytes) == part(bytes),
{
    lemma_four_bytes(bytes.len());
}

proof fn lemma_blob(o: Option<Vec<u8>>)
    ensures
        crate::mv2x_file::blob(crate::mv2x_file::bytes_of(o)) == part(raw(o)),
{
    lemma_part(raw(o));
    match o {
        Some(bytes) => {},
        None => {
            lemma_four_bytes(0);
            assert(part(raw(o)) =~= four_bytes(0));
        },
    }
}

/// The file of an index is its parts behind the magic bytes and the version, each
/// with its length before it.
pub proof fn written_file_is_the_parts<M>(index: Mv2xIndex<M>)
    ensures
        is_file_of(crate::mv2x_file::file_bytes(index.file_view()), index),
{
    let file = index.file_view();
    let header = crate::wire::wire_header(index.header@);
    let offsets = crate::wire::wire_pairs(offset_numbers(index.offsets@));
    let times = crate::wire::wire_pairs(time_numbers(index.time_entries@));
    assert(crate::mv2x_file::offset_pairs(file.offsets) =~= offset_numbers(index.offsets@));
    assert(crate::mv2x_file::time_pairs(file.time_entries) =~= time_numbers(index.time_entries@));
    lemma_part(header);
    lemma_part(offsets);
    lemma_part(times);
    lemma_blob(index.lex_bytes);
    lemma_blob(index.vec_bytes);
    lemma_blob(index.mesh_bytes);
    lemma_start();
    let p0 = start();
    let p1 = part(header);
    let p2 = part(offsets);
    let p3 = part(times);
    let p4 = part(raw(index.lex_bytes));
    let p5 = part(raw(index.vec_bytes));
    let p6 = part(raw(index.mesh_bytes));
    crate::wire::lemma_regroup(p0 + p1 + p2 + p3 + p4, p5, p6);
    crate::wire::lemma_regroup(p0 + p1 + p2 + p3, p4, p5 + p6);
    crate::wire::lemma_regroup(p0 + p1 + p2, p3, p4 + (p5 + p6));
    crate::wire::lemma_regroup(p0 + p1, p2, p3 + (p4 + (p5 + p6)));
    crate::wire::lemma_regroup(p0, p1, p2 + (p3 + (p4 + (p5 + p6))));
}

proof fn lemma_start()
    ensures
        crate::mv2x_file::magic() + crate::wire::le_bytes(
            crate::mv2x_file::MV2X_VERSION as nat,
            2,
        ) == start(),
{
    reveal_with_fuel(crate::wire::le_bytes, 3);
    assert(crate::mv2x_file::magic() + crate::wire::le_bytes(
        crate::mv2x_file::MV2X_VERSION as nat,
        2,
    ) =~= start());
}

/// The parts of a file as they are cut off one after the other, each from what
/// follows those before it.
proof fn lemma_cut(bytes: Seq<u8>, rest: Seq<u8>)
    requires
        bytes.len() <= u32::MAX,
    ensures
        crate::mv2x_file::cut_section(part(bytes) + rest) == Some((bytes, rest)),
{
    lemma_part(bytes);
    crate::mv2x_file::lemma_cut_section(bytes, rest);
}

/// A part of which the end is missing cannot be cut off.
proof fn lemma_cut_short(bytes: Seq<u8>, rest: Seq<u8>, m: int)
    requires
        bytes.len() <= u32::MAX,
        0 <= m <= (part(bytes) + rest).len(),
    ensures
        m < 4 + bytes.len() ==> crate::mv2x_file::cut_section((part(bytes) + rest).take(m)) is None,
        m >= 4 + bytes.len() ==> crate::mv2x_file::cut_section((part(bytes) + rest).take(m)) == Some(
            (bytes, rest.take(m - 4 - bytes.len())),
        ),
{
    let all = part(bytes) + rest;
    let n = bytes.len();
    if m >= 4 + n {
        assert(all.take(m) =~= part(bytes) + rest.take(m - 4 - n));
        lemma_cut(bytes, rest.take(m - 4 - n));
    } else if m >= 4 {
        lemma_four_bytes(n);
        crate::wire::lemma_pow256_values();
        crate::wire::lemma_le_value_of_le_bytes(n, 4);
        assert(all.take(m).take(4) =~= four_bytes(n));
    }
}

/// Whether `bytes` start with the encoding of some header.
pub open spec fn starts_with_header(bytes: Seq<u8>) -> bool {
    exists|h: HeaderView| #[trigger] crate::wire::wire_header(h).is_prefix_of(bytes)
}

/// Whether `bytes` start with the encoding of some pairs of numbers.
pub open spec fn starts_with_pairs(bytes: Seq<u8>) -> bool {
    exists|s: Seq<(u64, u64)>| #[trigger] crate::wire::wire_pairs(s).is_prefix_of(bytes)
}

/// A file of six parts is read exactly when the first three of them decode,
/// whatever they are and whatever follows them. Its version may be an earlier one.
pub proof fn parts_decide(
    version: u8,
    header: Seq<u8>,
    offsets: Seq<u8>,
    times: Seq<u8>,
    lex: Seq<u8>,
    vec: Seq<u8>,
    mesh: Seq<u8>,
    more: Seq<u8>,
)
    requires
        header.len() <= u32::MAX,
        offsets.len() <= u32::MAX,
        times.len() <= u32::MAX,
        lex.len() <= u32::MAX,
        vec.len() <= u32::MAX,
        mesh.len() <= u32::MAX,
    ensures
        ({
            let bytes = (assembled(header, offsets, times, lex, vec, mesh) + more).update(
                4,
                version,
            );
            match crate::mv2x_file::parsed(bytes) {
                Ok(file) => {
                    &&& version <= 2
                    &&& crate::wire::wire_header(file.header).is_prefix_of(header)
                    &&& crate::wire::wire_pairs(offset_numbers(file.offsets)).is_prefix_of(offsets)
                    &&& crate::wire::wire_pairs(time_numbers(file.time_entries)).is_prefix_of(times)
                    &&& file.lex == if lex.len() == 0 {
                        None
                    } else {
                        Some(lex)
                    }
                    &&& file.vec == if vec.len() == 0 {
                        None
                    } else {
                        Some(vec)
                    }
                    &&& file.mesh == if mesh.len() == 0 {
                        None
                    } else {
                        Some(mesh)
                    }
                },
                Err(e) => if version > 2 {
                    e == (Mv2xError::UnsupportedVersion { version: version as u16 })
                } else {
                    e == Mv2xError::Malformed && !(starts_with_header(header) && starts_with_pairs(
                        offsets,
                    ) && starts_with_pairs(times))
                },
            }
        }),
{
    let whole = assembled(header, offsets, times, lex, vec, mesh) + more;
    let r0 = part(header) + (part(offsets) + (part(times) + (part(lex) + (part(vec) + (part(mesh)
        + more)))));
    lemma_tail(header, offsets, times, lex, vec, mesh, more);
    lemma_front(version, r0);
    lemma_sections_decide(header, offsets, times, lex, vec, mesh, more);
}

/// Behind the first bytes the version decides.
proof fn lemma_front(version: u8, rest: Seq<u8>)
    ensures
        crate::mv2x_file::parsed((start() + rest).update(4, version)) == if version > 2 {
            Err(Mv2xError::UnsupportedVersion { version: version as u16 })
        } else {
            crate::mv2x_file::parsed_sections(rest)
        },
{
    let bytes = (start() + rest).update(4, version);
    assert(bytes.take(4) =~= crate::mv2x_file::magic());
    assert(bytes.skip(6) =~= rest);
    let v = bytes.subrange(4, 6);
    assert(v =~= seq![version, 0u8]);
    lemma_version(version);
}

proof fn lemma_version(version: u8)
    ensures
        crate::wire::le_value(seq![version, 0u8]) == version,
{
    let v = seq![version, 0u8];
    reveal_with_fuel(crate::wire::le_value, 3);
    assert(v.drop_first() =~= seq![0u8]);
    assert(v.drop_first().drop_first() =~= Seq::<u8>::empty());
}

proof fn lemma_blobs_read(lex: Seq<u8>, vec: Seq<u8>, mesh: Seq<u8>, more: Seq<u8>)
    requires
        lex.len() <= u32::MAX,
        vec.len() <= u32::MAX,
        mesh.len() <= u32::MAX,
    ensures
        crate::mv2x_file::parsed_blobs(part(lex) + (part(vec) + (part(mesh) + more))) == Ok::<
            _,
            Mv2xError,
        >(
            (
                crate::mv2x_file::blob_content(lex),
                crate::mv2x_file::blob_content(vec),
                crate::mv2x_file::blob_content(mesh),
            ),
        ),
{
    lemma_cut(lex, part(vec) + (part(mesh) + more));
    lemma_cut(vec, part(mesh) + more);
    lemma_cut(mesh, more);
}

proof fn lemma_header_read(header: Seq<u8>, rest: Seq<u8>)
    requires
        header.len() <= u32::MAX,
    ensures
        match crate::mv2x_file::parsed_header(part(header) + rest) {
            Ok((h, r)) => r == rest && crate::wire::wire_header(h).is_prefix_of(header)
                && starts_with_header(header),
            Err(e) => e == Mv2xError::Malformed && !starts_with_header(header),
        },
{
    lemma_cut(header, rest);
}

proof fn lemma_pairs_read(pairs: Seq<u8>, rest: Seq<u8>)
    requires
        pairs.len() <= u32::MAX,
    ensures
        match crate::mv2x_file::parsed_pairs(part(pairs) + rest) {
            Ok((p, r)) => r == rest && crate::wire::wire_pairs(p).is_prefix_of(pairs)
                && starts_with_pairs(pairs),
            Err(e) => e == Mv2xError::Malformed && !starts_with_pairs(pairs),
        },
{
    lemma_cut(pairs, rest);
}

proof fn lemma_sections_decide(
    header: Seq<u8>,
    offsets: Seq<u8>,
    times: Seq<u8>,
    lex: Seq<u8>,
    vec: Seq<u8>,
    mesh: Seq<u8>,
    more: Seq<u8>,
)
    requires
        header.len() <= u32::MAX,
        offsets.len() <= u32::MAX,
        times.len() <= u32::MAX,
        lex.len() <= u32::MAX,
        vec.len() <= u32::MAX,
        mesh.len() <= u32::MAX,
    ensures
        match crate::mv2x_file::parsed_sections(
            part(header) + (part(offsets) + (part(times) + (part(lex) + (part(vec) + (part(mesh)
                + more))))),
        ) {
            Ok(file) => {
                &&& crate::wire::wire_header(file.header).is_prefix_of(header)
                &&& crate::wire::wire_pairs(offset_numbers(file.offsets)).is_prefix_of(offsets)
                &&& crate::wire::wire_pairs(time_numbers(file.time_entries)).is_prefix_of(times)
                &&& file.lex == crate::mv2x_file::blob_content(lex)
                &&& file.vec == crate::mv2x_file::blob_content(vec)
                &&& file.mesh == crate::mv2x_file::blob_content(mesh)
            },
            Err(e) => e == Mv2xError::Malformed && !(starts_with_header(header)
                && starts_with_pairs(offsets) && starts_with_pairs(times)),
        },
{
    let r3 = part(lex) + (part(vec) + (part(mesh) + more));
    let r2 = part(times) + r3;
    let r1 = part(offsets) + r2;
    lemma_header_read(header, r1);
    lemma_pairs_read(offsets, r2);
    lemma_pairs_read(times, r3);
    lemma_blobs_read(lex, vec, mesh, more);
    if crate::mv2x_file::parsed_pairs(r1) is Ok && crate::mv2x_file::parsed_pairs(r2) is Ok {
        let o = crate::mv2x_file::parsed_pairs(r1)->Ok_0.0;
        let t = crate::mv2x_file::parsed_pairs(r2)->Ok_0.0;
        assert(offset_numbers(crate::mv2x_file::offsets_in(o)) =~= o);
        assert(time_numbers(crate::mv2x_file::times_in(t)) =~= t);
    }
}

/// The parts behind the first bytes, with what follows them.
proof fn lemma_tail(
    header: Seq<u8>,
    offsets: Seq<u8>,
    times: Seq<u8>,
    lex: Seq<u8>,
    vec: Seq<u8>,
    mesh: Seq<u8>,
    more: Seq<u8>,
)
    ensures
        assembled(header, offsets, times, lex, vec, mesh) + more == start() + (part(header) + (part(
            offsets,
        ) + (part(times) + (part(lex) + (part(vec) + (part(mesh) + more)))))),
{
    let p1 = part(header);
    let p2 = part(offsets);
    let p3 = part(times);
    let p4 = part(lex);
    let p5 = part(vec);
    let p6 = part(mesh);
    crate::wire::lemma_regroup(start(), p1 + (p2 + (p3 + (p4 + (p5 + p6)))), more);
    crate::wire::lemma_regroup(p1, p2 + (p3 + (p4 + (p5 + p6))), more);
    crate::wire::lemma_regroup(p2, p3 + (p4 + (p5 + p6)), more);
    crate::wire::lemma_regroup(p3, p4 + (p5 + p6), more);
    crate::wire::lemma_regroup(p4, p5 + p6, more);
    crate::wire::lemma_regroup(p5, p6, more);
}

/// An index that is written and read again has the same header, offsets, time
/// entries and blobs, but that an empty blob is missing.
pub proof fn read_index_is_the_written<M>(
    index: Mv2xIndex<M>,
    data: &[u8],
    r: Result<Mv2xIndex<M>, Mv2xError>,
)
    requires
        is_file_of(data@, index),
        parts_fit(index),
        call_ensures(Mv2xIndex::<M>::read_from, (data,), r),
    ensures
        r is Ok,
        r->Ok_0.header@ == index.header@,
        r->Ok_0.offsets@ == index.offsets@,
        r->Ok_0.time_entries@ == index.time_entries@,
        same_blob(r->Ok_0.lex_bytes, index.lex_bytes),
        same_blob(r->Ok_0.vec_bytes, index.vec_bytes),
        same_blob(r->Ok_0.mesh_bytes, index.mesh_bytes),
        r->Ok_0.lex_index is None,
        r->Ok_0.logic_mesh is None,
{
    let header = crate::wire::wire_header(index.header@);
    let offsets = crate::wire::wire_pairs(offset_numbers(index.offsets@));
    let times = crate::wire::wire_pairs(time_numbers(index.time_entries@));
    let lex = raw(index.lex_bytes);
    let vec = raw(index.vec_bytes);
    let mesh = raw(index.mesh_bytes);
    let whole = assembled(header, offsets, times, lex, vec, mesh);
    parts_decide(2, header, offsets, times, lex, vec, mesh, Seq::empty());
    assert((whole + Seq::<u8>::empty()).update(4, 2u8) =~= whole);
    assert(crate::wire::wire_header(index.header@).is_prefix_of(header));
    assert(crate::wire::wire_pairs(offset_numbers(index.offsets@)).is_prefix_of(offsets));
    assert(crate::wire::wire_pairs(time_numbers(index.time_entries@)).is_prefix_of(times));
    let file = crate::mv2x_file::parsed(whole)->Ok_0;
    crate::wire::lemma_header_unique(file.header, index.header@, header);
    crate::wire::lemma_pairs_unique(
        offset_numbers(file.offsets),
        offset_numbers(index.offsets@),
        offsets,
    );
    crate::wire::lemma_pairs_unique(
        time_numbers(file.time_entries),
        time_numbers(index.time_entries@),
        times,
    );
    lemma_numbers_are_exact(file.offsets, index.offsets@, file.time_entries, index.time_entries@);
}

proof fn lemma_numbers_are_exact(
    a: Seq<FrameOffset>,
    b: Seq<FrameOffset>,
    c: Seq<TimeEntry>,
    d: Seq<TimeEntry>,
)
    requires
        offset_numbers(a) == offset_numbers(b),
        time_numbers(c) == time_numbers(d),
    ensures
        a == b,
        c == d,
{
    assert(offset_numbers(a).len() == a.len() && offset_numbers(b).len() == b.len());
    assert(time_numbers(c).len() == c.len() && time_numbers(d).len() == d.len());
    assert forall|k: int| 0 <= k < a.len() implies a[k] == b[k] by {
        assert(offset_numbers(a)[k] == offset_numbers(b)[k]);
    }
    assert forall|k: int| 0 <= k < c.len() implies c[k] == d[k] by {
        assert(time_numbers(c)[k] == time_numbers(d)[k]);
    }
    assert(a =~= b);
    assert(c =~= d);
}

/// A written index file of which the end is missing is refused, wherever it was
/// cut.
pub proof fn cut_file_is_refused<M>(
    index: Mv2xIndex<M>,
    data: &[u8],
    m: int,
    r: Result<Mv2xIndex<M>, Mv2xError>,
)
    requires
        parts_fit(index),
        0 <= m < assembled(
            crate::wire::wire_header(index.header@),
            crate::wire::wire_pairs(offset_numbers(index.offsets@)),
            crate::wire::wire_pairs(time_numbers(index.time_entries@)),
            raw(index.lex_bytes),
            raw(index.vec_bytes),
            raw(index.mesh_bytes),
        ).len(),
        data@ == assembled(
            crate::wire::wire_header(index.header@),
            crate::wire::wire_pairs(offset_numbers(index.offsets@)),
            crate::wire::wire_pairs(time_numbers(index.time_entries@)),
            raw(index.lex_bytes),
            raw(index.vec_bytes),
            raw(index.mesh_bytes),
        ).take(m),
        call_ensures(Mv2xIndex::<M>::read_from, (data,), r),
    ensures
        r is Err,
        r->Err_0 == Mv2xError::UnexpectedEnd,
{
    let header = crate::wire::wire_header(index.header@);
    let offsets = crate::wire::wire_pairs(offset_numbers(index.offsets@));
    let times = crate::wire::wire_pairs(time_numbers(index.time_entries@));
    let lex = raw(index.lex_bytes);
    let vec = raw(index.vec_bytes);
    let mesh = raw(index.mesh_bytes);
    let r0 = part(header) + (part(offsets) + (part(times) + (part(lex) + (part(vec) + part(
        mesh,
    )))));
    let bytes = (start() + r0).take(m);
    if m >= 4 {
        assert(bytes.take(4) =~= crate::mv2x_file::magic());
    }
    if m >= 6 {
        assert(bytes.subrange(4, 6) =~= seq![2u8, 0u8]);
        lemma_version(2);
        assert(bytes.skip(6) =~= r0.take(m - 6));
        crate::mv2x_file::lemma_decoded_header(index.header@, header);
        crate::mv2x_file::lemma_decoded_pairs(offset_numbers(index.offsets@), offsets);
        crate::mv2x_file::lemma_decoded_pairs(time_numbers(index.time_entries@), times);
        lemma_sections_cut(header, offsets, times, lex, vec, mesh, m - 6);
    }
}

proof fn lemma_blob_cut(bytes: Seq<u8>, rest: Seq<u8>, m: int)
    requires
        bytes.len() <= u32::MAX,
        0 <= m <= (part(bytes) + rest).len(),
    ensures
        (part(bytes) + rest).len() == 4 + bytes.len() + rest.len(),
        m < 4 + bytes.len() ==> crate::mv2x_file::parsed_blob((part(bytes) + rest).take(m))
            == Err::<(Option<Seq<u8>>, Seq<u8>), _>(Mv2xError::UnexpectedEnd),
        m >= 4 + bytes.len() ==> crate::mv2x_file::parsed_blob((part(bytes) + rest).take(m))
            == Ok::<_, Mv2xError>(
            (crate::mv2x_file::blob_content(bytes), rest.take(m - 4 - bytes.len())),
        ),
{
    lemma_cut_short(bytes, rest, m);
}

proof fn lemma_header_cut(bytes: Seq<u8>, rest: Seq<u8>, m: int)
    requires
        bytes.len() <= u32::MAX,
        0 <= m <= (part(bytes) + rest).len(),
        crate::mv2x_file::decoded_header(bytes) is Some,
    ensures
        (part(bytes) + rest).len() == 4 + bytes.len() + rest.len(),
        m < 4 + bytes.len() ==> crate::mv2x_file::parsed_header((part(bytes) + rest).take(m))
            == Err::<(HeaderView, Seq<u8>), _>(Mv2xError::UnexpectedEnd),
        m >= 4 + bytes.len() ==> crate::mv2x_file::parsed_header((part(bytes) + rest).take(m))
            == Ok::<_, Mv2xError>(
            (crate::mv2x_file::decoded_header(bytes)->0, rest.take(m - 4 - bytes.len())),
        ),
{
    lemma_cut_short(bytes, rest, m);
}

proof fn lemma_pairs_cut(bytes: Seq<u8>, rest: Seq<u8>, m: int)
    requires
        bytes.len() <= u32::MAX,
        0 <= m <= (part(bytes) + rest).len(),
        crate::mv2x_file::decoded_pairs(bytes) is Some,
    ensures
        (part(bytes) + rest).len() == 4 + bytes.len() + rest.len(),
        m < 4 + bytes.len() ==> crate::mv2x_file::parsed_pairs((part(bytes) + rest).take(m))
            == Err::<(Seq<(u64, u64)>, Seq<u8>), _>(Mv2xError::UnexpectedEnd),
        m >= 4 + bytes.len() ==> crate::mv2x_file::parsed_pairs((part(bytes) + rest).take(m))
            == Ok::<_, Mv2xError>(
            (crate::mv2x_file::decoded_pairs(bytes)->0, rest.take(m - 4 - bytes.len())),
        ),
{
    lemma_cut_short(bytes, rest, m);
}

/// The blobs of a file that ends in the last of them.
proof fn lemma_mesh_cut(mesh: Seq<u8>, m: int)
    requires
        mesh.len() <= u32::MAX,
        0 <= m < part(mesh).len(),
    ensures
        part(mesh).len() == 4 + mesh.len(),
        crate::mv2x_file::parsed_blob(part(mesh).take(m)) == Err::<
            (Option<Seq<u8>>, Seq<u8>),
            _,
        >(Mv2xError::UnexpectedEnd),
{
    let none = Seq::<u8>::empty();
    assert(part(mesh) + none =~= part(mesh));
    lemma_blob_cut(mesh, none, m);
}

spec fn blobs_end(rest: Seq<u8>) -> bool {
    crate::mv2x_file::parsed_blobs(rest) == Err::<
        (Option<Seq<u8>>, Option<Seq<u8>>, Option<Seq<u8>>),
        _,
    >(Mv2xError::UnexpectedEnd)
}

proof fn lemma_blobs_cut(lex: Seq<u8>, vec: Seq<u8>, mesh: Seq<u8>, m: int)
    requires
        lex.len() <= u32::MAX,
        vec.len() <= u32::MAX,
        mesh.len() <= u32::MAX,
        0 <= m < (part(lex) + (part(vec) + part(mesh))).len(),
    ensures
        blobs_end((part(lex) + (part(vec) + part(mesh))).take(m)),
{
    let r5 = part(mesh);
    let r4 = part(vec) + r5;
    let n = m - 4 - lex.len();
    let k = n - 4 - vec.len();
    lemma_blob_cut(lex, r4, m);
    if n >= 0 {
        lemma_blob_cut(vec, r5, n);
        if k >= 0 {
            lemma_mesh_cut(mesh, k);
        }
    }
}

proof fn lemma_sections_cut(
    header: Seq<u8>,
    offsets: Seq<u8>,
    times: Seq<u8>,
    lex: Seq<u8>,
    vec: Seq<u8>,
    mesh: Seq<u8>,
    m: int,
)
    requires
        header.len() <= u32::MAX,
        offsets.len() <= u32::MAX,
        times.len() <= u32::MAX,
        lex.len() <= u32::MAX,
        vec.len() <= u32::MAX,
        mesh.len() <= u32::MAX,
        crate::mv2x_file::decoded_header(header) is Some,
        crate::mv2x_file::decoded_pairs(offsets) is Some,
        crate::mv2x_file::decoded_pairs(times) is Some,
        0 <= m < (part(header) + (part(offsets) + (part(times) + (part(lex) + (part(vec) + part(
            mesh,
        )))))).len(),
    ensures
        crate::mv2x_file::parsed_sections(
            (part(header) + (part(offsets) + (part(times) + (part(lex) + (part(vec) + part(
                mesh,
            )))))).take(m),
        ) == Err::<IndexFile, _>(Mv2xError::UnexpectedEnd),
{
    let r3 = part(lex) + (part(vec) + part(mesh));
    let r2 = part(times) + r3;
    let r1 = part(offsets) + r2;
    let m1 = m - 4 - header.len();
    let m2 = m1 - 4 - offsets.len();
    let m3 = m2 - 4 - times.len();
    lemma_header_cut(header, r1, m);
    if m1 >= 0 {
        lemma_pairs_cut(offsets, r2, m1);
        if m2 >= 0 {
            lemma_pairs_cut(times, r3, m2);
            if m3 >= 0 {
                lemma_blobs_cut(lex, vec, mesh, m3);
            }
        }
    }
}

} // verus!
