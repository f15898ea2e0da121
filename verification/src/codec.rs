//! Numbers and sections to and from bytes.
//!
//! The sections of the index file are encoded and decoded by `bincode`, with
//! integers of fixed width in little-endian order.

use crate::lex::LexDocument;
use crate::mv2x::Mv2xHeader;
use crate::tags::TagMap;
use crate::wire::{DocumentView, HeaderView};
use vstd::prelude::*;

verus! {

/// `bincode::error::EncodeError`. Nothing is claimed of what it says.
#[verifier::external_type_specification]
#[verifier::external_body]
pub struct ExEncodeError(bincode::error::EncodeError);

/// `bincode::error::DecodeError`. Nothing is claimed of what it says.
#[verifier::external_type_specification]
#[verifier::external_body]
pub struct ExDecodeError(bincode::error::DecodeError);

/// The text of an optional string.
pub open spec fn text_of(o: Option<String>) -> Option<Seq<char>> {
    match o {
        Some(s) => Some(s@),
        None => None,
    }
}

/// Encodes a header with `bincode::serde::encode_to_vec`.
///
/// Trusted: writing to memory never fails, and the fields come one after the
/// other in the layout of [`crate::wire::wire_header`].
#[verifier::external_body]
pub(crate) fn encode_header(header: &Mv2xHeader) -> (r: Result<
    Vec<u8>,
    bincode::error::EncodeError,
>)
    ensures
        r is Ok,
        r->Ok_0@ == crate::wire::wire_header(header@),
{
    let Mv2xHeader {
        embedding_model, embedding_dim, frame_count, last_indexed_frame_id, generation,
    } = header;
    bincode::serde::encode_to_vec(
        (embedding_model, embedding_dim, frame_count, last_indexed_frame_id, generation),
        bincode::config::standard().with_fixed_int_encoding().with_little_endian(),
    )
}

/// Decodes a header with `bincode::serde::borrow_decode_from_slice`.
///
/// Trusted: the call succeeds exactly when the bytes start with the encoding of
/// a header, and gives that header; what follows it is not looked at.
#[verifier::external_body]
pub(crate) fn decode_header(bytes: &[u8]) -> (r: Result<
    Mv2xHeader,
    bincode::error::DecodeError,
>)
    ensures
        match r {
            Ok(h) => crate::wire::wire_header(h@).is_prefix_of(bytes@),
            Err(_) => forall|h: HeaderView|
                !(#[trigger] crate::wire::wire_header(h)).is_prefix_of(bytes@),
        },
{
    let ((model, embedding_dim, frame_count, last_indexed_frame_id, generation), _) =
        bincode::serde::borrow_decode_from_slice::<
            (Option<&str>, Option<u32>, u64, Option<u64>, u64), _>(
            bytes,
            bincode::config::standard().with_fixed_int_encoding().with_little_endian(),
        )?;
    let embedding_model = model.map(|s| s.to_string());
    Ok(Mv2xHeader { embedding_model, embedding_dim, frame_count, last_indexed_frame_id, generation })
}

/// Encodes pairs of numbers with `bincode::serde::encode_to_vec`.
///
/// Trusted: writing to memory never fails, and the bytes are the number of pairs
/// and then the pairs in order.
#[verifier::external_body]
pub(crate) fn encode_pairs(pairs: &Vec<(u64, u64)>) -> (r: Result<
    Vec<u8>,
    bincode::error::EncodeError,
>)
    ensures
        r is Ok,
        r->Ok_0@ == crate::wire::wire_pairs(pairs@),
{
    bincode::serde::encode_to_vec(
        pairs,
        bincode::config::standard().with_fixed_int_encoding().with_little_endian(),
    )
}

/// Decodes pairs of numbers with `bincode::serde::borrow_decode_from_slice`.
///
/// Trusted: the call succeeds exactly when the bytes start with the encoding of
/// a sequence of pairs, and gives that sequence; what follows it is not looked
/// at.
#[verifier::external_body]
pub(crate) fn decode_pairs(bytes: &[u8]) -> (r: Result<
    Vec<(u64, u64)>,
    bincode::error::DecodeError,
>)
    ensures
        match r {
            Ok(pairs) => crate::wire::wire_pairs(pairs@).is_prefix_of(bytes@),
            Err(_) => forall|pairs: Seq<(u64, u64)>|
                !(#[trigger] crate::wire::wire_pairs(pairs)).is_prefix_of(bytes@),
        },
{
    let (pairs, _) = bincode::serde::borrow_decode_from_slice::<Vec<(u64, u64)>, _>(
        bytes,
        bincode::config::standard().with_fixed_int_encoding().with_little_endian(),
    )?;
    Ok(pairs)
}

/// Encodes documents with `bincode::serde::encode_to_vec`.
///
/// Trusted: writing to memory never fails, and the bytes are the number of
/// documents and then the documents in order, each with its fields one after the
/// other in the layout of [`crate::wire::wire_document`].
#[verifier::external_body]
pub(crate) fn encode_documents(documents: &Vec<LexDocument>) -> (r: Result<
    Vec<u8>,
    bincode::error::EncodeError,
>)
    ensures
        r is Ok,
        r->Ok_0@ == crate::wire::wire_documents(crate::lex::documents_of(documents@)),
{
    let items: Vec<_> = documents
        .iter()
        .map(|d| (d.frame_id, &d.uri, &d.title, &d.content, &d.tags.entries))
        .collect();
    bincode::serde::encode_to_vec(
        items,
        bincode::config::standard().with_fixed_int_encoding().with_little_endian(),
    )
}

/// Decodes documents with `bincode::serde::borrow_decode_from_slice`.
///
/// Trusted: the call succeeds exactly when the bytes start with the encoding of
/// a sequence of documents, and gives that sequence; what follows it is not
/// looked at.
#[verifier::external_body]
pub(crate) fn decode_documents(bytes: &[u8]) -> (r: Result<
    Vec<LexDocument>,
    bincode::error::DecodeError,
>)
    ensures
        match r {
            Ok(documents) => crate::wire::wire_documents(
                crate::lex::documents_of(documents@),
            ).is_prefix_of(bytes@),
            Err(_) => forall|documents: Seq<DocumentView>|
                !(#[trigger] crate::wire::wire_documents(documents)).is_prefix_of(bytes@),
        },
{
    let own = |s: &str| s.to_string();
    let (items, _) = bincode::serde::borrow_decode_from_slice::<
        Vec<(u64, &str, Option<&str>, &str, Vec<(&str, &str)>)>, _>(
        bytes,
        bincode::config::standard().with_fixed_int_encoding().with_little_endian(),
    )?;
    Ok(items.into_iter().map(|(frame_id, uri, title, content, tags)| LexDocument {
        frame_id,
        uri: own(uri),
        title: title.map(own),
        content: own(content),
        tags: TagMap { entries: tags.into_iter().map(|(k, v)| (own(k), own(v))).collect() },
    }).collect())
}

/// Appends the `width` lowest bytes of `n` to `out`, lowest first.
pub fn put_number(out: &mut Vec<u8>, n: u64, width: usize)
    ensures
        final(out)@ == old(out)@ + crate::wire::le_bytes(n as nat, width as nat),
{
    let mut rest: u64 = n;
    let mut left: usize = width;
    assert(out@ + crate::wire::le_bytes(n as nat, width as nat) =~= old(out)@
        + crate::wire::le_bytes(n as nat, width as nat));
    while left > 0
        invariant
            out@ + crate::wire::le_bytes(rest as nat, left as nat) == old(out)@
                + crate::wire::le_bytes(n as nat, width as nat),
        decreases left,
    {
        let ghost before = out@;
        out.push((rest % 256) as u8);
        assert(before + crate::wire::le_bytes(rest as nat, left as nat) =~= out@
            + crate::wire::le_bytes((rest / 256) as nat, (left - 1) as nat));
        rest = rest / 256;
        left = left - 1;
    }
    assert(out@ + crate::wire::le_bytes(rest as nat, 0) =~= out@);
}

/// Reads the `width` bytes at `pos` as a little-endian number.
pub fn get_number(data: &[u8], pos: usize, width: usize) -> (r: u64)
    requires
        pos + width <= data@.len(),
        width <= 8,
    ensures
        r as nat == crate::wire::le_value(data@.subrange(pos as int, pos + width)),
{
    let mut value: u64 = 0;
    let mut left: usize = width;
    let total: usize = data.len();
    assert(data@.subrange(pos + width, pos + width) =~= Seq::<u8>::empty());
    while left > 0
        invariant
            left <= width <= 8,
            pos + width <= total,
            total == data@.len(),
            value as nat == crate::wire::le_value(data@.subrange(pos + left, pos + width)),
        decreases left,
    {
        left = left - 1;
        let ghost part = data@.subrange(pos + left, pos + width);
        proof {
            assert(part.drop_first() =~= data@.subrange(pos + left + 1, pos + width));
            crate::wire::lemma_le_bytes_of_le_value(part);
            lemma_pow256_monotonic(part.len(), 8);
            crate::wire::lemma_pow256_values();
        }
        value = value * 256 + data[pos + left] as u64;
    }
    value
}

proof fn lemma_pow256_monotonic(a: nat, b: nat)
    requires
        a <= b,
    ensures
        crate::wire::pow256(a) <= crate::wire::pow256(b),
    decreases b,
{
    if a < b {
        lemma_pow256_monotonic(a, (b - 1) as nat);
    }
}

/// The signed number with the bits of `n`.
pub open spec fn signed_value(n: u64) -> int {
    if n <= i64::MAX {
        n as int
    } else {
        n - 0x1_0000_0000_0000_0000
    }
}

/// The unsigned number with the bits of `n`.
pub open spec fn unsigned_value(n: i64) -> int {
    if n >= 0 {
        n as int
    } else {
        n + 0x1_0000_0000_0000_0000
    }
}

/// The signed number with the bits of `n`.
pub fn signed(n: u64) -> (r: i64)
    ensures
        r == signed_value(n),
        n <= i64::MAX ==> r == n,
        n > i64::MAX ==> r == n - 0x1_0000_0000_0000_0000,
{
    assert(n <= 0x7fff_ffff_ffff_ffff ==> (n as i64) == n) by (bit_vector);
    assert(n > 0x7fff_ffff_ffff_ffff ==> (n as i64) == n - 0x1_0000_0000_0000_0000) by (bit_vector);
    n as i64
}

/// The unsigned number with the bits of `n`.
pub fn unsigned(n: i64) -> (r: u64)
    ensures
        r == unsigned_value(n),
        n >= 0 ==> r == n,
        n < 0 ==> r == n + 0x1_0000_0000_0000_0000,
{
    assert(n >= 0 ==> (n as u64) == n) by (bit_vector);
    assert(n < 0 ==> (n as u64) == n + 0x1_0000_0000_0000_0000) by (bit_vector);
    n as u64
}

} // verus!
