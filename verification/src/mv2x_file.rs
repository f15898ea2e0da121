//! Layout of the `.mv2x` file.
//!
//! Four magic bytes and a version are followed by six sections, each with its
//! length in four bytes before it: the header, the frame offsets, the time
//! entries, and the serialised full-text index, vector index and knowledge
//! graph. Of the last three, an empty one stands for one that is missing.

use crate::mv2x::{FrameOffset, Mv2xHeader, Mv2xIndex, TimeEntry};
use crate::wire::{DocumentView, HeaderView};
use vstd::prelude::*;

verus! {

/// The version that is written, and the latest that can be read.
pub const MV2X_VERSION: u16 = 2;

/// Why an index file could not be read or written.
#[derive(Debug, Clone, Copy, PartialEq, Eq, Structural)]
pub enum Mv2xError {
    /// The file ends in the middle of something.
    UnexpectedEnd,
    /// The file does not start with the magic bytes.
    InvalidMagic,
    /// The file is of a later version.
    UnsupportedVersion { version: u16 },
    /// A section does not decode.
    Malformed,
    /// A section could not be encoded.
    Encode,
}

/// What an index file says.
#[verifier::ext_equal]
pub struct IndexFile {
    pub header: HeaderView,
    pub offsets: Seq<FrameOffset>,
    pub time_entries: Seq<TimeEntry>,
    pub lex: Option<Seq<u8>>,
    pub vec: Option<Seq<u8>>,
    pub mesh: Option<Seq<u8>>,
}

/// `MV2X` in ASCII.
pub open spec fn magic() -> Seq<u8> {
    seq![0x4du8, 0x56u8, 0x32u8, 0x58u8]
}

/// Frame offsets as pairs of numbers.
pub open spec fn offset_pairs(offsets: Seq<FrameOffset>) -> Seq<(u64, u64)> {
    offsets.map_values(|o: FrameOffset| (o.frame_id, o.byte_offset))
}

/// Time entries as pairs of numbers.
pub open spec fn time_pairs(entries: Seq<TimeEntry>) -> Seq<(u64, u64)> {
    entries.map_values(
        |e: TimeEntry| (e.frame_id, crate::codec::unsigned_value(e.timestamp) as u64),
    )
}

/// The frame offsets that pairs of numbers stand for.
pub open spec fn offsets_in(pairs: Seq<(u64, u64)>) -> Seq<FrameOffset> {
    pairs.map_values(|p: (u64, u64)| FrameOffset { frame_id: p.0, byte_offset: p.1 })
}

/// The time entries that pairs of numbers stand for.
pub open spec fn times_in(pairs: Seq<(u64, u64)>) -> Seq<TimeEntry> {
    pairs.map_values(
        |p: (u64, u64)|
            TimeEntry { frame_id: p.0, timestamp: crate::codec::signed_value(p.1) as i64 },
    )
}

/// Bytes with their length before them.
pub open spec fn section(bytes: Seq<u8>) -> Seq<u8> {
    crate::wire::le_bytes(bytes.len(), 4) + bytes
}

/// A section that may be missing.
pub open spec fn blob(bytes: Option<Seq<u8>>) -> Seq<u8> {
    match bytes {
        Some(b) => section(b),
        None => crate::wire::le_bytes(0, 4),
    }
}

/// The bytes of an index file.
pub open spec fn file_bytes(file: IndexFile) -> Seq<u8> {
    magic() + crate::wire::le_bytes(MV2X_VERSION as nat, 2) + section(
        crate::wire::wire_header(file.header),
    ) + section(crate::wire::wire_pairs(offset_pairs(file.offsets))) + section(
        crate::wire::wire_pairs(time_pairs(file.time_entries)),
    ) + blob(file.lex) + blob(file.vec) + blob(file.mesh)
}

/// Parts `bytes` into the section that they start with and what follows it.
pub open spec fn cut_section(bytes: Seq<u8>) -> Option<(Seq<u8>, Seq<u8>)> {
    let n = crate::wire::le_value(bytes.take(4)) as int;
    if bytes.len() >= 4 && bytes.len() >= 4 + n {
        Some((bytes.subrange(4, 4 + n), bytes.skip(4 + n)))
    } else {
        None
    }
}

/// The header that bytes start with, if they start with one.
pub open spec fn decoded_header(bytes: Seq<u8>) -> Option<HeaderView> {
    if exists|h: HeaderView| #[trigger] crate::wire::wire_header(h).is_prefix_of(bytes) {
        Some(choose|h: HeaderView| #[trigger] crate::wire::wire_header(h).is_prefix_of(bytes))
    } else {
        None
    }
}

/// The pairs of numbers that bytes start with, if they start with any.
pub open spec fn decoded_pairs(bytes: Seq<u8>) -> Option<Seq<(u64, u64)>> {
    if exists|s: Seq<(u64, u64)>| #[trigger] crate::wire::wire_pairs(s).is_prefix_of(bytes) {
        Some(choose|s: Seq<(u64, u64)>| #[trigger] crate::wire::wire_pairs(s).is_prefix_of(bytes))
    } else {
        None
    }
}

/// The content of a blob: nothing if it is empty.
pub open spec fn blob_content(bytes: Seq<u8>) -> Option<Seq<u8>> {
    if bytes.len() == 0 {
        None
    } else {
        Some(bytes)
    }
}

/// What the first section says, and what follows it.
pub open spec fn parsed_header(bytes: Seq<u8>) -> Result<(HeaderView, Seq<u8>), Mv2xError> {
    match cut_section(bytes) {
        None => Err(Mv2xError::UnexpectedEnd),
        Some((part, rest)) => match decoded_header(part) {
            None => Err(Mv2xError::Malformed),
            Some(header) => Ok((header, rest)),
        },
    }
}

/// What a section of pairs says, and what follows it.
pub open spec fn parsed_pairs(bytes: Seq<u8>) -> Result<(Seq<(u64, u64)>, Seq<u8>), Mv2xError> {
    match cut_section(bytes) {
        None => Err(Mv2xError::UnexpectedEnd),
        Some((part, rest)) => match decoded_pairs(part) {
            None => Err(Mv2xError::Malformed),
            Some(pairs) => Ok((pairs, rest)),
        },
    }
}

/// What a blob holds, and what follows it.
pub open spec fn parsed_blob(bytes: Seq<u8>) -> Result<(Option<Seq<u8>>, Seq<u8>), Mv2xError> {
    match cut_section(bytes) {
        None => Err(Mv2xError::UnexpectedEnd),
        Some((part, rest)) => Ok((blob_content(part), rest)),
    }
}

/// The three blobs at the end of the file. What follows them is not looked at.
pub open spec fn parsed_blobs(bytes: Seq<u8>) -> Result<
    (Option<Seq<u8>>, Option<Seq<u8>>, Option<Seq<u8>>),
    Mv2xError,
> {
    match parsed_blob(bytes) {
        Err(e) => Err(e),
        Ok((lex, rest)) => match parsed_blob(rest) {
            Err(e) => Err(e),
            Ok((vec, rest)) => match parsed_blob(rest) {
                Err(e) => Err(e),
                Ok((mesh, _)) => Ok((lex, vec, mesh)),
            },
        },
    }
}

/// What the sections say.
pub open spec fn parsed_sections(bytes: Seq<u8>) -> Result<IndexFile, Mv2xError> {
    match parsed_header(bytes) {
        Err(e) => Err(e),
        Ok((header, rest)) => match parsed_pairs(rest) {
            Err(e) => Err(e),
            Ok((offsets, rest)) => match parsed_pairs(rest) {
                Err(e) => Err(e),
                Ok((times, rest)) => match parsed_blobs(rest) {
                    Err(e) => Err(e),
                    Ok((lex, vec, mesh)) => Ok(
                        IndexFile {
                            header,
                            offsets: offsets_in(offsets),
                            time_entries: times_in(times),
                            lex,
                            vec,
                            mesh,
                        },
                    ),
                },
            },
        },
    }
}

/// What an index file says, or why it cannot be read.
pub open spec fn parsed(bytes: Seq<u8>) -> Result<IndexFile, Mv2xError> {
    if bytes.len() < 4 {
        Err(Mv2xError::UnexpectedEnd)
    } else if bytes.take(4) != magic() {
        Err(Mv2xError::InvalidMagic)
    } else if bytes.len() < 6 {
        Err(Mv2xError::UnexpectedEnd)
    } else if crate::wire::le_value(bytes.subrange(4, 6)) > MV2X_VERSION {
        Err(
            Mv2xError::UnsupportedVersion {
                version: crate::wire::le_value(bytes.subrange(4, 6)) as u16,
            },
        )
    } else {
        parsed_sections(bytes.skip(6))
    }
}

/// Optional bytes as a sequence.
pub open spec fn bytes_of(o: Option<Vec<u8>>) -> Option<Seq<u8>> {
    match o {
        Some(b) => Some(b@),
        None => None,
    }
}

pub proof fn lemma_decoded_header(header: HeaderView, bytes: Seq<u8>)
    requires
        crate::wire::wire_header(header).is_prefix_of(bytes),
        bytes.len() < crate::wire::length_limit(),
    ensures
        decoded_header(bytes) == Some(header),
{
    crate::wire::lemma_header_unique(decoded_header(bytes)->0, header, bytes);
}

pub proof fn lemma_decoded_pairs(pairs: Seq<(u64, u64)>, bytes: Seq<u8>)
    requires
        crate::wire::wire_pairs(pairs).is_prefix_of(bytes),
        bytes.len() < crate::wire::length_limit(),
    ensures
        decoded_pairs(bytes) == Some(pairs),
{
    crate::wire::lemma_pairs_unique(decoded_pairs(bytes)->0, pairs, bytes);
}

/// Appends a section.
fn put_section(out: &mut Vec<u8>, bytes: &Vec<u8>)
    ensures
        final(out)@ == old(out)@ + section(bytes@),
{
    crate::codec::put_number(out, bytes.len() as u64, 4);
    let mut copy = vstd::slice::slice_to_vec(bytes.as_slice());
    out.append(&mut copy);
    assert(out@ =~= old(out)@ + section(bytes@));
}

/// Appends a section that may be missing.
fn put_blob(out: &mut Vec<u8>, bytes: &Option<Vec<u8>>)
    ensures
        final(out)@ == old(out)@ + blob(bytes_of(*bytes)),
{
    match bytes {
        Some(b) => put_section(out, b),
        None => crate::codec::put_number(out, 0, 4),
    }
}

/// The place of the section that starts at `pos`.
fn find_section(data: &[u8], pos: usize) -> (r: Option<(usize, usize)>)
    requires
        pos <= data@.len(),
    ensures
        match r {
            Some((start, end)) => start <= end <= data@.len() && cut_section(
                data@.skip(pos as int),
            ) == Some((data@.subrange(start as int, end as int), data@.skip(end as int))),
            None => cut_section(data@.skip(pos as int)) is None,
        },
{
    let size: usize = data.len();
    let ghost rest = data@.skip(pos as int);
    if size - pos < 4 {
        return None;
    }
    let start: usize = pos + 4;
    let len = crate::codec::get_number(data, pos, 4);
    assert(rest.take(4) =~= data@.subrange(pos as int, pos + 4));
    if len > (size - start) as u64 {
        return None;
    }
    let end: usize = start + len as usize;
    proof {
        assert(rest.subrange(4, 4 + len) =~= data@.subrange(start as int, end as int));
        assert(rest.skip(4 + len) =~= data@.skip(end as int));
    }
    Some((start, end))
}

/// Reads the header section at `pos`. Gives the place behind it too.
fn read_header(data: &[u8], pos: usize) -> (r: Result<(Mv2xHeader, usize), Mv2xError>)
    requires
        pos <= data@.len(),
    ensures
        match r {
            Ok((header, end)) => end <= data@.len() && parsed_header(data@.skip(pos as int)) == Ok::<
                _,
                Mv2xError,
            >((header@, data@.skip(end as int))),
            Err(e) => parsed_header(data@.skip(pos as int)) == Err::<(HeaderView, Seq<u8>), _>(e),
        },
{
    match find_section(data, pos) {
        None => Err(Mv2xError::UnexpectedEnd),
        Some((start, end)) => {
            let part = vstd::slice::slice_subrange(data, start, end);
            let size: usize = part.len();
            assert(size < crate::wire::length_limit());
            match crate::codec::decode_header(part) {
                Err(_) => Err(Mv2xError::Malformed),
                Ok(header) => {
                    proof {
                        lemma_decoded_header(header@, part@);
                    }
                    Ok((header, end))
                },
            }
        },
    }
}

/// Reads the section of pairs at `pos`. Gives the place behind it too.
fn read_pairs(data: &[u8], pos: usize) -> (r: Result<(Vec<(u64, u64)>, usize), Mv2xError>)
    requires
        pos <= data@.len(),
    ensures
        match r {
            Ok((pairs, end)) => end <= data@.len() && parsed_pairs(data@.skip(pos as int)) == Ok::<
                _,
                Mv2xError,
            >((pairs@, data@.skip(end as int))),
            Err(e) => parsed_pairs(data@.skip(pos as int)) == Err::<
                (Seq<(u64, u64)>, Seq<u8>),
                _,
            >(e),
        },
{
    match find_section(data, pos) {
        None => Err(Mv2xError::UnexpectedEnd),
        Some((start, end)) => {
            let part = vstd::slice::slice_subrange(data, start, end);
            let size: usize = part.len();
            assert(size < crate::wire::length_limit());
            match crate::codec::decode_pairs(part) {
                Err(_) => Err(Mv2xError::Malformed),
                Ok(pairs) => {
                    proof {
                        lemma_decoded_pairs(pairs@, part@);
                    }
                    Ok((pairs, end))
                },
            }
        },
    }
}

/// Reads the blob at `pos`. Gives the place behind it too.
fn read_blob(data: &[u8], pos: usize) -> (r: Result<(Option<Vec<u8>>, usize), Mv2xError>)
    requires
        pos <= data@.len(),
    ensures
        match r {
            Ok((content, end)) => end <= data@.len() && parsed_blob(data@.skip(pos as int)) == Ok::<
                _,
                Mv2xError,
            >((bytes_of(content), data@.skip(end as int))),
            Err(e) => parsed_blob(data@.skip(pos as int)) == Err::<
                (Option<Seq<u8>>, Seq<u8>),
                _,
            >(e),
        },
{
    match find_section(data, pos) {
        None => Err(Mv2xError::UnexpectedEnd),
        Some((start, end)) => {
            if start == end {
                return Ok((None, end));
            }
            let part = vstd::slice::slice_subrange(data, start, end);
            Ok((Some(vstd::slice::slice_to_vec(part)), end))
        },
    }
}

fn pairs_from_offsets(offsets: &Vec<FrameOffset>) -> (r: Vec<(u64, u64)>)
    ensures
        r@ == offset_pairs(offsets@),
{
    let mut pairs: Vec<(u64, u64)> = Vec::new();
    let mut i: usize = 0;
    while i < offsets.len()
        invariant
            i <= offsets@.len(),
            pairs@ == offset_pairs(offsets@.take(i as int)),
        decreases offsets@.len() - i,
    {
        pairs.push((offsets[i].frame_id, offsets[i].byte_offset));
        assert(pairs@ =~= offset_pairs(offsets@.take(i + 1)));
        i = i + 1;
    }
    assert(offsets@.take(i as int) =~= offsets@);
    pairs
}

fn pairs_from_times(entries: &Vec<TimeEntry>) -> (r: Vec<(u64, u64)>)
    ensures
        r@ == time_pairs(entries@),
{
    let mut pairs: Vec<(u64, u64)> = Vec::new();
    let mut i: usize = 0;
    while i < entries.len()
        invariant
            i <= entries@.len(),
            pairs@ == time_pairs(entries@.take(i as int)),
        decreases entries@.len() - i,
    {
        pairs.push((entries[i].frame_id, crate::codec::unsigned(entries[i].timestamp)));
        assert(pairs@ =~= time_pairs(entries@.take(i + 1)));
        i = i + 1;
    }
    assert(entries@.take(i as int) =~= entries@);
    pairs
}

fn offsets_from_pairs(pairs: &Vec<(u64, u64)>) -> (r: Vec<FrameOffset>)
    ensures
        r@ == offsets_in(pairs@),
{
    let mut offsets: Vec<FrameOffset> = Vec::new();
    let mut i: usize = 0;
    while i < pairs.len()
        invariant
            i <= pairs@.len(),
            offsets@ == offsets_in(pairs@.take(i as int)),
        decreases pairs@.len() - i,
    {
        offsets.push(FrameOffset { frame_id: pairs[i].0, byte_offset: pairs[i].1 });
        assert(offsets@ =~= offsets_in(pairs@.take(i + 1)));
        i = i + 1;
    }
    assert(pairs@.take(i as int) =~= pairs@);
    offsets
}

fn times_from_pairs(pairs: &Vec<(u64, u64)>) -> (r: Vec<TimeEntry>)
    ensures
        r@ == times_in(pairs@),
{
    let mut entries: Vec<TimeEntry> = Vec::new();
    let mut i: usize = 0;
    while i < pairs.len()
        invariant
            i <= pairs@.len(),
            entries@ == times_in(pairs@.take(i as int)),
        decreases pairs@.len() - i,
    {
        entries.push(
            TimeEntry { frame_id: pairs[i].0, timestamp: crate::codec::signed(pairs[i].1) },
        );
        assert(entries@ =~= times_in(pairs@.take(i + 1)));
        i = i + 1;
    }
    assert(pairs@.take(i as int) =~= pairs@);
    entries
}

impl<M> Mv2xIndex<M> {
    /// What is written of the index.
    pub open spec fn file_view(&self) -> IndexFile {
        IndexFile {
            header: self.header@,
            offsets: self.offsets@,
            time_entries: self.time_entries@,
            lex: bytes_of(self.lex_bytes),
            vec: bytes_of(self.vec_bytes),
            mesh: bytes_of(self.mesh_bytes),
        }
    }

    /// The knowledge graph, as long as it has not been serialised.
    pub fn unsaved_mesh(&self) -> (r: Option<&M>)
        ensures
            match r {
                Some(mesh) => self.mesh_bytes is None && self.logic_mesh == Some(*mesh),
                None => self.mesh_bytes is Some || self.logic_mesh is None,
            },
    {
        match &self.mesh_bytes {
            Some(_) => None,
            None => self.logic_mesh.as_ref(),
        }
    }

    /// The serialised knowledge graph, where `saved` is what
    /// [`Self::unsaved_mesh`] is serialised to: nothing if it is empty.
    pub open spec fn mesh_bytes_with(&self, saved: Option<Vec<u8>>) -> Option<Vec<u8>> {
        if self.mesh_bytes is None && self.logic_mesh is Some {
            saved
        } else {
            self.mesh_bytes
        }
    }

    /// Serialises the index. A knowledge graph that has not been serialised is
    /// written as `saved`.
    pub fn write_to(&mut self, saved: Option<Vec<u8>>) -> (r: Result<Vec<u8>, Mv2xError>)
        ensures
            *final(self) == (Mv2xIndex {
                mesh_bytes: old(self).mesh_bytes_with(saved),
                ..*old(self)
            }),
            r is Ok,
            r->Ok_0@ == file_bytes(final(self).file_view()),
            crate::file_laws::is_file_of(r->Ok_0@, *final(self)),
            final(self).mesh_bytes == match old(self).mesh_bytes {
                Some(bytes) => Some(bytes),
                None => match old(self).logic_mesh {
                    Some(_) => saved,
                    None => None,
                },
            },
    {
        if self.mesh_bytes.is_none() && self.logic_mesh.is_some() {
            self.mesh_bytes = saved;
        }
        let mut out: Vec<u8> = Vec::new();
        out.push(0x4d);
        out.push(0x56);
        out.push(0x32);
        out.push(0x58);
        assert(out@ =~= magic());
        crate::codec::put_number(&mut out, MV2X_VERSION as u64, 2);
        match crate::codec::encode_header(&self.header) {
            Ok(bytes) => put_section(&mut out, &bytes),
            Err(_) => return Err(Mv2xError::Encode),
        }
        match crate::codec::encode_pairs(&pairs_from_offsets(&self.offsets)) {
            Ok(bytes) => put_section(&mut out, &bytes),
            Err(_) => return Err(Mv2xError::Encode),
        }
        match crate::codec::encode_pairs(&pairs_from_times(&self.time_entries)) {
            Ok(bytes) => put_section(&mut out, &bytes),
            Err(_) => return Err(Mv2xError::Encode),
        }
        put_blob(&mut out, &self.lex_bytes);
        put_blob(&mut out, &self.vec_bytes);
        put_blob(&mut out, &self.mesh_bytes);
        proof {
            crate::file_laws::written_file_is_the_parts(*self);
        }
        Ok(out)
    }

    /// Reads a serialised index. Its full-text index and knowledge graph are
    /// decoded later, when they are needed.
    pub fn read_from(data: &[u8]) -> (r: Result<Self, Mv2xError>)
        ensures
            match r {
                Ok(index) => parsed(data@) == Ok::<_, Mv2xError>(index.file_view())
                    && index.lex_index is None && index.logic_mesh is None,
                Err(e) => parsed(data@) == Err::<IndexFile, _>(e),
            },
            match parsed(data@) {
                Ok(file) => {
                    &&& r is Ok
                    &&& r->Ok_0.header@ == file.header
                    &&& r->Ok_0.offsets@ == file.offsets
                    &&& r->Ok_0.time_entries@ == file.time_entries
                    &&& crate::file_laws::blob_is(r->Ok_0.lex_bytes, file.lex)
                    &&& crate::file_laws::blob_is(r->Ok_0.vec_bytes, file.vec)
                    &&& crate::file_laws::blob_is(r->Ok_0.mesh_bytes, file.mesh)
                },
                Err(e) => r is Err && r->Err_0 == e,
            },
            data@.len() < 4 ==> r is Err && r->Err_0 == Mv2xError::UnexpectedEnd,
            data@.len() >= 4 && !(data@[0] == 0x4d && data@[1] == 0x56 && data@[2] == 0x32
                && data@[3] == 0x58) ==> r is Err && r->Err_0 == Mv2xError::InvalidMagic,
            data@.len() >= 6 && data@[0] == 0x4d && data@[1] == 0x56 && data@[2] == 0x32 && data@[3]
                == 0x58 && data@[4] + 256 * data@[5] > 2 ==> r is Err && r->Err_0 == (
            Mv2xError::UnsupportedVersion { version: (data@[4] + 256 * data@[5]) as u16 }),
    {
        let size: usize = data.len();
        if size < 4 {
            return Err(Mv2xError::UnexpectedEnd);
        }
        let is_magic = data[0] == 0x4d && data[1] == 0x56 && data[2] == 0x32 && data[3] == 0x58;
        assert(is_magic == (data@.take(4) == magic())) by {
            let start = data@.take(4);
            if is_magic {
                assert(start =~= magic());
            }
            if start == magic() {
                assert(start[0] == magic()[0] && start[1] == magic()[1] && start[2] == magic()[2]
                    && start[3] == magic()[3]);
            }
        }
        if !is_magic {
            return Err(Mv2xError::InvalidMagic);
        }
        if size < 6 {
            return Err(Mv2xError::UnexpectedEnd);
        }
        let version = crate::codec::get_number(data, 4, 2);
        proof {
            let v = data@.subrange(4, 6);
            crate::wire::lemma_le_bytes_of_le_value(v);
            crate::wire::lemma_pow256_values();
            reveal_with_fuel(crate::wire::le_value, 3);
            assert(v.drop_first()[0] == data@[5]);
            assert(crate::wire::le_value(v) == data@[4] + 256 * data@[5]);
        }
        if version > MV2X_VERSION as u64 {
            return Err(Mv2xError::UnsupportedVersion { version: version as u16 });
        }
        let (header, pos) = match read_header(data, 6) {
            Ok(found) => found,
            Err(e) => return Err(e),
        };
        let (offsets, pos) = match read_pairs(data, pos) {
            Ok(found) => found,
            Err(e) => return Err(e),
        };
        let (times, pos) = match read_pairs(data, pos) {
            Ok(found) => found,
            Err(e) => return Err(e),
        };
        let (lex_bytes, pos) = match read_blob(data, pos) {
            Ok(found) => found,
            Err(e) => return Err(e),
        };
        let (vec_bytes, pos) = match read_blob(data, pos) {
            Ok(found) => found,
            Err(e) => return Err(e),
        };
        let (mesh_bytes, _) = match read_blob(data, pos) {
            Ok(found) => found,
            Err(e) => return Err(e),
        };
        Ok(
            Mv2xIndex {
                header,
                offsets: offsets_from_pairs(&offsets),
                time_entries: times_from_pairs(&times),
                lex_bytes,
                lex_index: None,
                vec_bytes,
                mesh_bytes,
                logic_mesh: None,
            },
        )
    }
}

/// Whether the length of a section fits in its four bytes.
pub open spec fn section_fits(bytes: Seq<u8>) -> bool {
    bytes.len() <= u32::MAX
}

/// Whether the length of a blob fits in its four bytes.
pub open spec fn blob_fits(bytes: Option<Seq<u8>>) -> bool {
    match bytes {
        Some(b) => section_fits(b),
        None => true,
    }
}

/// What is read of a blob that was written: an empty one is as good as none.
pub open spec fn blob_kept(bytes: Option<Seq<u8>>) -> Option<Seq<u8>> {
    match bytes {
        Some(b) => blob_content(b),
        None => None,
    }
}

/// What is read of an index that was written.
pub open spec fn file_kept(file: IndexFile) -> IndexFile {
    IndexFile {
        lex: blob_kept(file.lex),
        vec: blob_kept(file.vec),
        mesh: blob_kept(file.mesh),
        ..file
    }
}

/// Whether every section of `file` fits its length.
pub open spec fn file_fits(file: IndexFile) -> bool {
    &&& section_fits(crate::wire::wire_header(file.header))
    &&& section_fits(crate::wire::wire_pairs(offset_pairs(file.offsets)))
    &&& section_fits(crate::wire::wire_pairs(time_pairs(file.time_entries)))
    &&& blob_fits(file.lex)
    &&& blob_fits(file.vec)
    &&& blob_fits(file.mesh)
}

pub proof fn lemma_cut_section(bytes: Seq<u8>, rest: Seq<u8>)
    requires
        section_fits(bytes),
    ensures
        cut_section(section(bytes) + rest) == Some((bytes, rest)),
{
    let all = section(bytes) + rest;
    let n = bytes.len();
    crate::wire::lemma_le_bytes_len(n, 4);
    crate::wire::lemma_pow256_values();
    crate::wire::lemma_le_value_of_le_bytes(n, 4);
    assert(all.take(4) =~= crate::wire::le_bytes(n, 4));
    assert(all.subrange(4, 4 + n as int) =~= bytes);
    assert(all.skip(4 + n as int) =~= rest);
}

/// A blob that is written is read back, whatever follows it, and exactly its bytes
/// are read. One that is missing or empty is four zero bytes, and is read as
/// missing.
pub proof fn written_blob_is_read(bytes: Option<Seq<u8>>, rest: Seq<u8>)
    requires
        blob_fits(bytes),
    ensures
        parsed_blob(blob(bytes) + rest) == Ok::<_, Mv2xError>((blob_kept(bytes), rest)),
        blob(bytes).len() == 4 + match bytes {
            Some(b) => b.len(),
            None => 0,
        },
        blob_kept(bytes) is None ==> blob(bytes) == seq![0u8, 0u8, 0u8, 0u8],
{
    let empty = Seq::<u8>::empty();
    crate::wire::lemma_le_bytes_len(0, 4);
    assert(section(empty) =~= blob(None));
    assert(crate::wire::le_bytes(0, 4) =~= seq![0u8, 0u8, 0u8, 0u8]) by {
        reveal_with_fuel(crate::wire::le_bytes, 5);
    }
    match bytes {
        Some(b) => {
            crate::wire::lemma_le_bytes_len(b.len(), 4);
            lemma_cut_section(b, rest);
            if b.len() == 0 {
                assert(b =~= empty);
            }
        },
        None => lemma_cut_section(empty, rest),
    }
}

pub proof fn lemma_pairs_are_exact(offsets: Seq<FrameOffset>, entries: Seq<TimeEntry>)
    ensures
        offsets_in(offset_pairs(offsets)) == offsets,
        times_in(time_pairs(entries)) == entries,
{
    assert(offsets_in(offset_pairs(offsets)) =~= offsets);
    assert(times_in(time_pairs(entries)) =~= entries);
}

/// The sections of a file, each with those that follow it.
spec fn nested_sections(file: IndexFile) -> Seq<u8> {
    section(crate::wire::wire_header(file.header)) + (section(
        crate::wire::wire_pairs(offset_pairs(file.offsets)),
    ) + (section(crate::wire::wire_pairs(time_pairs(file.time_entries))) + (blob(file.lex) + (blob(
        file.vec,
    ) + blob(file.mesh)))))
}

proof fn lemma_nested_sections(file: IndexFile)
    ensures
        file_bytes(file) == (magic() + crate::wire::le_bytes(MV2X_VERSION as nat, 2))
            + nested_sections(file),
{
    let start = magic() + crate::wire::le_bytes(MV2X_VERSION as nat, 2);
    let p1 = section(crate::wire::wire_header(file.header));
    let p2 = section(crate::wire::wire_pairs(offset_pairs(file.offsets)));
    let p3 = section(crate::wire::wire_pairs(time_pairs(file.time_entries)));
    let p4 = blob(file.lex);
    let p5 = blob(file.vec);
    let p6 = blob(file.mesh);
    crate::wire::lemma_regroup(start + p1 + p2 + p3 + p4, p5, p6);
    crate::wire::lemma_regroup(start + p1 + p2 + p3, p4, p5 + p6);
    crate::wire::lemma_regroup(start + p1 + p2, p3, p4 + (p5 + p6));
    crate::wire::lemma_regroup(start + p1, p2, p3 + (p4 + (p5 + p6)));
    crate::wire::lemma_regroup(start, p1, p2 + (p3 + (p4 + (p5 + p6))));
}

proof fn lemma_parsed_blobs(
    lex: Option<Seq<u8>>,
    vec: Option<Seq<u8>>,
    mesh: Option<Seq<u8>>,
)
    requires
        blob_fits(lex),
        blob_fits(vec),
        blob_fits(mesh),
    ensures
        parsed_blobs(blob(lex) + (blob(vec) + blob(mesh))) == Ok::<_, Mv2xError>(
            (blob_kept(lex), blob_kept(vec), blob_kept(mesh)),
        ),
{
    written_blob_is_read(lex, blob(vec) + blob(mesh));
    written_blob_is_read(vec, blob(mesh));
    written_blob_is_read(mesh, Seq::empty());
    assert(blob(mesh) + Seq::<u8>::empty() =~= blob(mesh));
}

proof fn lemma_parsed_sections(file: IndexFile)
    requires
        file_fits(file),
    ensures
        parsed_sections(nested_sections(file)) == Ok::<_, Mv2xError>(file_kept(file)),
{
    let header = crate::wire::wire_header(file.header);
    let offsets = crate::wire::wire_pairs(offset_pairs(file.offsets));
    let times = crate::wire::wire_pairs(time_pairs(file.time_entries));
    let r5 = blob(file.mesh);
    let r4 = blob(file.vec) + r5;
    let r3 = blob(file.lex) + r4;
    let r2 = section(times) + r3;
    let r1 = section(offsets) + r2;
    lemma_cut_section(header, r1);
    lemma_decoded_header(file.header, header);
    assert(parsed_header(section(header) + r1) == Ok::<_, Mv2xError>((file.header, r1)));
    lemma_cut_section(offsets, r2);
    lemma_decoded_pairs(offset_pairs(file.offsets), offsets);
    assert(parsed_pairs(r1) == Ok::<_, Mv2xError>((offset_pairs(file.offsets), r2)));
    lemma_cut_section(times, r3);
    lemma_decoded_pairs(time_pairs(file.time_entries), times);
    assert(parsed_pairs(r2) == Ok::<_, Mv2xError>((time_pairs(file.time_entries), r3)));
    lemma_parsed_blobs(file.lex, file.vec, file.mesh);
    lemma_pairs_are_exact(file.offsets, file.time_entries);
}

/// An index that is written and read again is the same index, but that what was
/// empty of its search indices is missing.
pub proof fn written_index_is_read(file: IndexFile)
    requires
        file_fits(file),
    ensures
        parsed(file_bytes(file)) == Ok::<_, Mv2xError>(file_kept(file)),
{
    let bytes = file_bytes(file);
    let version = crate::wire::le_bytes(MV2X_VERSION as nat, 2);
    let rest = nested_sections(file);
    crate::wire::lemma_le_bytes_len(MV2X_VERSION as nat, 2);
    crate::wire::lemma_pow256_values();
    crate::wire::lemma_le_value_of_le_bytes(MV2X_VERSION as nat, 2);
    lemma_nested_sections(file);
    assert(bytes.take(4) =~= magic());
    assert(bytes.subrange(4, 6) =~= version);
    assert(bytes.skip(6) =~= rest);
    lemma_parsed_sections(file);
}

/// A full-text search finds the same before an index is written and after it is
/// read, where `read` is what was read.
pub proof fn written_index_is_searched<M>(
    index: Mv2xIndex<M>,
    read: Mv2xIndex<M>,
    query: Seq<char>,
    limit: usize,
)
    requires
        file_fits(index.file_view()),
        index.lex_is_current(),
        read.lex_index is None,
        parsed(file_bytes(index.file_view())) == Ok::<_, Mv2xError>(read.file_view()),
    ensures
        crate::mv2x::hits_in(read.lex_documents(), query, limit) == crate::mv2x::hits_in(
            index.lex_documents(),
            query,
            limit,
        ),
{
    written_index_is_read(index.file_view());
    assert(read.file_view().lex == blob_kept(index.file_view().lex));
    if index.lex_bytes is Some && index.lex_bytes->0@.len() == 0 {
        lemma_nothing_decoded(index.lex_bytes->0@);
    }
}

/// No bytes decode to no documents.
proof fn lemma_nothing_decoded(bytes: Seq<u8>)
    requires
        bytes.len() == 0,
    ensures
        crate::lex::decoded_documents(bytes) is None,
{
    assert forall|d: Seq<DocumentView>| !(#[trigger] crate::wire::wire_documents(
        d,
    )).is_prefix_of(bytes) by {
        crate::wire::lemma_le_bytes_len(d.len(), 8);
    }
}

/// The knowledge graph that an index holds and has not serialised, one that was set
/// or one that was got for changes, is the one that is got and the one that is
/// written, whatever was stored before. `saved` is what it is serialised to:
/// nothing if it is empty. The rest of the index is written as it is.
pub proof fn current_mesh_is_written<M>(
    index: Mv2xIndex<M>,
    mesh: M,
    decoded: Option<M>,
    saved: Option<Vec<u8>>,
    read: Mv2xIndex<M>,
    loaded: Option<M>,
)
    requires
        ({
            let holding = Mv2xIndex { mesh_bytes: None, logic_mesh: Some(mesh), ..index };
            let after = Mv2xIndex { mesh_bytes: holding.mesh_bytes_with(saved), ..holding };
            &&& file_fits(after.file_view())
            &&& parsed(file_bytes(after.file_view())) == Ok::<_, Mv2xError>(read.file_view())
            &&& read.logic_mesh is None
        }),
    ensures
        ({
            let holding = Mv2xIndex { mesh_bytes: None, logic_mesh: Some(mesh), ..index };
            &&& holding.mesh_with(decoded) == Some(mesh)
            &&& holding.mesh_bytes_with(saved) == saved
            &&& read.file_view() == (IndexFile {
                mesh: blob_kept(bytes_of(saved)),
                ..file_kept(index.file_view())
            })
            &&& read.mesh_with(loaded) == if blob_kept(bytes_of(saved)) is Some {
                loaded
            } else {
                None
            }
        }),
{
    let holding = Mv2xIndex { mesh_bytes: None, logic_mesh: Some(mesh), ..index };
    let after = Mv2xIndex { mesh_bytes: holding.mesh_bytes_with(saved), ..holding };
    written_index_is_read(after.file_view());
    assert(read.file_view().mesh == blob_kept(bytes_of(saved)));
}

} // verus!
