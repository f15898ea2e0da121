//! Byte layout of the values that the index file stores.
//!
//! Integers are little-endian and of fixed width, an optional value starts with
//! a byte that tells whether it is there, and strings and sequences start with
//! their length in eight bytes.

use vstd::prelude::*;

verus! {

/// What a `.mv2x` header says, with its text as characters.
#[verifier::ext_equal]
pub struct HeaderView {
    pub embedding_model: Option<Seq<char>>,
    pub embedding_dim: Option<u32>,
    pub frame_count: u64,
    pub last_indexed_frame_id: Option<u64>,
    pub generation: u64,
}

/// The `width` lowest bytes of `n`, lowest first.
pub open spec fn le_bytes(n: nat, width: nat) -> Seq<u8>
    decreases width,
{
    if width == 0 {
        Seq::empty()
    } else {
        seq![(n % 256) as u8] + le_bytes(n / 256, (width - 1) as nat)
    }
}

/// The number that little-endian bytes stand for.
pub open spec fn le_value(s: Seq<u8>) -> nat
    decreases s.len(),
{
    if s.len() == 0 {
        0
    } else {
        s[0] as nat + 256 * le_value(s.drop_first())
    }
}

/// 256 to the power of `k`.
pub open spec fn pow256(k: nat) -> nat
    decreases k,
{
    if k == 0 {
        1
    } else {
        256 * pow256((k - 1) as nat)
    }
}

/// The first length that eight bytes cannot hold.
pub open spec fn length_limit() -> nat {
    0x1_0000_0000_0000_0000
}

pub open spec fn wire_u64(n: u64) -> Seq<u8> {
    le_bytes(n as nat, 8)
}

pub open spec fn wire_text(s: Seq<char>) -> Seq<u8> {
    le_bytes(vstd::utf8::encode_utf8(s).len(), 8) + vstd::utf8::encode_utf8(s)
}

pub open spec fn wire_option<T>(o: Option<T>, item: spec_fn(T) -> Seq<u8>) -> Seq<u8> {
    match o {
        None => seq![0u8],
        Some(v) => seq![1u8] + item(v),
    }
}

/// The items of `s`, one after the other.
pub open spec fn wire_items<T>(s: Seq<T>, item: spec_fn(T) -> Seq<u8>) -> Seq<u8>
    decreases s.len(),
{
    if s.len() == 0 {
        Seq::empty()
    } else {
        item(s[0]) + wire_items(s.drop_first(), item)
    }
}

pub open spec fn wire_seq<T>(s: Seq<T>, item: spec_fn(T) -> Seq<u8>) -> Seq<u8> {
    le_bytes(s.len(), 8) + wire_items(s, item)
}

/// The header section.
pub open spec fn wire_header(h: HeaderView) -> Seq<u8> {
    wire_option(h.embedding_model, |s: Seq<char>| wire_text(s)) + (wire_option(
        h.embedding_dim,
        |d: u32| le_bytes(d as nat, 4),
    ) + (wire_u64(h.frame_count) + (wire_option(h.last_indexed_frame_id, |n: u64| wire_u64(n))
        + wire_u64(h.generation))))
}

pub open spec fn wire_pair(p: (u64, u64)) -> Seq<u8> {
    wire_u64(p.0) + wire_u64(p.1)
}

/// A section of pairs of numbers.
pub open spec fn wire_pairs(s: Seq<(u64, u64)>) -> Seq<u8> {
    wire_seq(s, |p: (u64, u64)| wire_pair(p))
}

/// What the full-text index keeps of a frame, with its text as characters.
#[verifier::ext_equal]
pub struct DocumentView {
    pub frame_id: u64,
    pub uri: Seq<char>,
    pub title: Option<Seq<char>>,
    pub content: Seq<char>,
    pub tags: Seq<(Seq<char>, Seq<char>)>,
}

pub open spec fn wire_tag(t: (Seq<char>, Seq<char>)) -> Seq<u8> {
    wire_text(t.0) + wire_text(t.1)
}

pub open spec fn wire_document(d: DocumentView) -> Seq<u8> {
    wire_u64(d.frame_id) + (wire_text(d.uri) + (wire_option(
        d.title,
        |s: Seq<char>| wire_text(s),
    ) + (wire_text(d.content) + wire_seq(
        d.tags,
        |t: (Seq<char>, Seq<char>)| wire_tag(t),
    ))))
}

/// The serialised full-text index.
pub open spec fn wire_documents(s: Seq<DocumentView>) -> Seq<u8> {
    wire_seq(s, |d: DocumentView| wire_document(d))
}

/// `item` can be read back: of two sequences that start with the encoding of a
/// value and are equal, the values and what follows them are equal.
pub open spec fn self_delimiting<T>(item: spec_fn(T) -> Seq<u8>) -> bool {
    forall|a: T, b: T, x: Seq<u8>, y: Seq<u8>|
        #![trigger item(a) + x, item(b) + y]
        item(a) + x == item(b) + y && (item(a) + x).len() < length_limit() ==> a == b && x == y
}

/// Equal concatenations whose first parts have one length have equal parts.
pub proof fn lemma_parts_equal(p: Seq<u8>, x: Seq<u8>, q: Seq<u8>, y: Seq<u8>)
    requires
        p + x == q + y,
        p.len() == q.len(),
    ensures
        p == q,
        x == y,
{
    assert(p =~= (p + x).subrange(0, p.len() as int));
    assert(q =~= (q + y).subrange(0, q.len() as int));
    assert(x =~= (p + x).subrange(p.len() as int, (p + x).len() as int));
    assert(y =~= (q + y).subrange(q.len() as int, (q + y).len() as int));
}

pub proof fn lemma_le_bytes_len(n: nat, width: nat)
    ensures
        le_bytes(n, width).len() == width,
    decreases width,
{
    if width > 0 {
        lemma_le_bytes_len(n / 256, (width - 1) as nat);
    }
}

/// Bytes written for a number that fits their width stand for that number.
pub proof fn lemma_le_value_of_le_bytes(n: nat, width: nat)
    requires
        n < pow256(width),
    ensures
        le_value(le_bytes(n, width)) == n,
    decreases width,
{
    if width > 0 {
        lemma_le_value_of_le_bytes(n / 256, (width - 1) as nat);
        assert(le_bytes(n, width).drop_first() =~= le_bytes(n / 256, (width - 1) as nat));
    }
}

/// Bytes are what is written for the number that they stand for.
pub proof fn lemma_le_bytes_of_le_value(s: Seq<u8>)
    ensures
        le_bytes(le_value(s), s.len()) == s,
        le_value(s) < pow256(s.len()),
    decreases s.len(),
{
    if s.len() > 0 {
        let rest = s.drop_first();
        lemma_le_bytes_of_le_value(rest);
        assert(le_value(s) / 256 == le_value(rest));
        assert(le_bytes(le_value(s), s.len()) =~= s);
    }
}

pub proof fn lemma_pow256_values()
    ensures
        pow256(2) == 0x1_0000,
        pow256(4) == 0x1_0000_0000,
        pow256(8) == length_limit(),
{
    reveal_with_fuel(pow256, 9);
}

proof fn lemma_number_delimits(a: nat, b: nat, width: nat, x: Seq<u8>, y: Seq<u8>)
    requires
        a < pow256(width),
        b < pow256(width),
        le_bytes(a, width) + x == le_bytes(b, width) + y,
    ensures
        a == b,
        x == y,
{
    lemma_le_bytes_len(a, width);
    lemma_le_bytes_len(b, width);
    lemma_parts_equal(le_bytes(a, width), x, le_bytes(b, width), y);
    lemma_le_value_of_le_bytes(a, width);
    lemma_le_value_of_le_bytes(b, width);
}

pub proof fn lemma_u64_delimits(a: u64, b: u64, x: Seq<u8>, y: Seq<u8>)
    requires
        wire_u64(a) + x == wire_u64(b) + y,
    ensures
        a == b,
        x == y,
{
    lemma_pow256_values();
    lemma_number_delimits(a as nat, b as nat, 8, x, y);
}

pub proof fn lemma_text_delimits(a: Seq<char>, b: Seq<char>, x: Seq<u8>, y: Seq<u8>)
    requires
        wire_text(a) + x == wire_text(b) + y,
        (wire_text(a) + x).len() < length_limit(),
    ensures
        a == b,
        x == y,
{
    let ea = vstd::utf8::encode_utf8(a);
    let eb = vstd::utf8::encode_utf8(b);
    lemma_pow256_values();
    lemma_le_bytes_len(ea.len(), 8);
    lemma_le_bytes_len(eb.len(), 8);
    assert(wire_text(a) + x =~= le_bytes(ea.len(), 8) + (ea + x));
    assert(wire_text(b) + y =~= le_bytes(eb.len(), 8) + (eb + y));
    lemma_number_delimits(ea.len(), eb.len(), 8, ea + x, eb + y);
    lemma_parts_equal(ea, x, eb, y);
    vstd::utf8::encode_utf8_decode_utf8(a);
    vstd::utf8::encode_utf8_decode_utf8(b);
}

/// The first byte of an optional value: one exactly when there is a value.
spec fn flag<T>(o: Option<T>) -> Seq<u8> {
    if o is Some {
        seq![1u8]
    } else {
        seq![0u8]
    }
}

spec fn payload<T>(o: Option<T>, item: spec_fn(T) -> Seq<u8>) -> Seq<u8> {
    match o {
        Some(v) => item(v),
        None => Seq::empty(),
    }
}

pub proof fn lemma_option_delimits<T>(
    a: Option<T>,
    b: Option<T>,
    item: spec_fn(T) -> Seq<u8>,
    x: Seq<u8>,
    y: Seq<u8>,
)
    requires
        self_delimiting(item),
        wire_option(a, item) + x == wire_option(b, item) + y,
        (wire_option(a, item) + x).len() < length_limit(),
    ensures
        a == b,
        x == y,
{
    let pa = payload(a, item);
    let pb = payload(b, item);
    assert(wire_option(a, item) + x =~= flag(a) + (pa + x));
    assert(wire_option(b, item) + y =~= flag(b) + (pb + y));
    lemma_parts_equal(flag(a), pa + x, flag(b), pb + y);
    assert(flag(a)[0] == flag(b)[0]);
    if a is Some {
        assert(item(a->0) + x == item(b->0) + y);
    } else {
        assert(pa + x =~= x);
        assert(pb + y =~= y);
    }
}

proof fn lemma_items_delimit<T>(
    a: Seq<T>,
    b: Seq<T>,
    item: spec_fn(T) -> Seq<u8>,
    x: Seq<u8>,
    y: Seq<u8>,
)
    requires
        self_delimiting(item),
        a.len() == b.len(),
        wire_items(a, item) + x == wire_items(b, item) + y,
        (wire_items(a, item) + x).len() < length_limit(),
    ensures
        a == b,
        x == y,
    decreases a.len(),
{
    if a.len() == 0 {
        assert(wire_items(a, item) + x =~= x);
        assert(wire_items(b, item) + y =~= y);
        assert(a =~= b);
    } else {
        let ra = wire_items(a.drop_first(), item);
        let rb = wire_items(b.drop_first(), item);
        assert(wire_items(a, item) + x =~= item(a[0]) + (ra + x));
        assert(wire_items(b, item) + y =~= item(b[0]) + (rb + y));
        lemma_items_delimit(a.drop_first(), b.drop_first(), item, x, y);
        assert(a =~= seq![a[0]] + a.drop_first());
        assert(b =~= seq![b[0]] + b.drop_first());
    }
}

/// Every item takes at least one byte.
spec fn nonempty_items<T>(item: spec_fn(T) -> Seq<u8>) -> bool {
    forall|a: T| #[trigger] item(a).len() > 0
}

proof fn lemma_items_len<T>(a: Seq<T>, item: spec_fn(T) -> Seq<u8>)
    requires
        nonempty_items(item),
    ensures
        wire_items(a, item).len() >= a.len(),
    decreases a.len(),
{
    if a.len() > 0 {
        lemma_items_len(a.drop_first(), item);
        assert(item(a[0]).len() > 0);
    }
}

proof fn lemma_seq_delimits<T>(
    a: Seq<T>,
    b: Seq<T>,
    item: spec_fn(T) -> Seq<u8>,
    x: Seq<u8>,
    y: Seq<u8>,
)
    requires
        self_delimiting(item),
        nonempty_items(item),
        wire_seq(a, item) + x == wire_seq(b, item) + y,
        (wire_seq(a, item) + x).len() < length_limit(),
    ensures
        a == b,
        x == y,
{
    let ia = wire_items(a, item);
    let ib = wire_items(b, item);
    lemma_pow256_values();
    lemma_items_len(a, item);
    lemma_items_len(b, item);
    assert(wire_seq(a, item) + x =~= le_bytes(a.len(), 8) + (ia + x));
    assert(wire_seq(b, item) + y =~= le_bytes(b.len(), 8) + (ib + y));
    lemma_number_delimits(a.len(), b.len(), 8, ia + x, ib + y);
    lemma_items_delimit(a, b, item, x, y);
}

proof fn lemma_u32_self_delimiting()
    ensures
        self_delimiting(|d: u32| le_bytes(d as nat, 4)),
{
    let item = |d: u32| le_bytes(d as nat, 4);
    assert forall|a: u32, b: u32, x: Seq<u8>, y: Seq<u8>|
        #![trigger item(a) + x, item(b) + y]
        item(a) + x == item(b) + y && (item(a) + x).len() < length_limit() implies a == b && x
        == y by {
        lemma_pow256_values();
        lemma_number_delimits(a as nat, b as nat, 4, x, y);
    }
}

proof fn lemma_u64_self_delimiting()
    ensures
        self_delimiting(|n: u64| wire_u64(n)),
{
    let item = |n: u64| wire_u64(n);
    assert forall|a: u64, b: u64, x: Seq<u8>, y: Seq<u8>|
        #![trigger item(a) + x, item(b) + y]
        item(a) + x == item(b) + y && (item(a) + x).len() < length_limit() implies a == b && x
        == y by {
        lemma_u64_delimits(a, b, x, y);
    }
}

pub proof fn lemma_text_self_delimiting()
    ensures
        self_delimiting(|s: Seq<char>| wire_text(s)),
{
    let item = |s: Seq<char>| wire_text(s);
    assert forall|a: Seq<char>, b: Seq<char>, x: Seq<u8>, y: Seq<u8>|
        #![trigger item(a) + x, item(b) + y]
        item(a) + x == item(b) + y && (item(a) + x).len() < length_limit() implies a == b && x
        == y by {
        lemma_text_delimits(a, b, x, y);
    }
}

pub proof fn lemma_regroup(a: Seq<u8>, b: Seq<u8>, c: Seq<u8>)
    ensures
        (a + b) + c == a + (b + c),
{
    assert((a + b) + c =~= a + (b + c));
}

/// A header followed by `tail`, field by field.
proof fn lemma_header_parts(h: HeaderView, tail: Seq<u8>)
    ensures
        wire_header(h) + tail == wire_option(h.embedding_model, |s: Seq<char>| wire_text(s)) + (
        wire_option(h.embedding_dim, |d: u32| le_bytes(d as nat, 4)) + (wire_u64(h.frame_count) + (
        wire_option(h.last_indexed_frame_id, |n: u64| wire_u64(n)) + (wire_u64(h.generation)
            + tail)))),
{
    let p1 = wire_option(h.embedding_model, |s: Seq<char>| wire_text(s));
    let p2 = wire_option(h.embedding_dim, |d: u32| le_bytes(d as nat, 4));
    let p3 = wire_u64(h.frame_count);
    let p4 = wire_option(h.last_indexed_frame_id, |n: u64| wire_u64(n));
    let p5 = wire_u64(h.generation);
    lemma_regroup(p1, p2 + (p3 + (p4 + p5)), tail);
    lemma_regroup(p2, p3 + (p4 + p5), tail);
    lemma_regroup(p3, p4 + p5, tail);
    lemma_regroup(p4, p5, tail);
}

/// Two headers whose encodings start the same bytes are one header.
pub proof fn lemma_header_unique(a: HeaderView, b: HeaderView, bytes: Seq<u8>)
    requires
        wire_header(a).is_prefix_of(bytes),
        wire_header(b).is_prefix_of(bytes),
        bytes.len() < length_limit(),
    ensures
        a == b,
{
    let ta = bytes.skip(wire_header(a).len() as int);
    let tb = bytes.skip(wire_header(b).len() as int);
    let text = |s: Seq<char>| wire_text(s);
    let dim = |d: u32| le_bytes(d as nat, 4);
    let num = |n: u64| wire_u64(n);
    let a5 = wire_u64(a.generation) + ta;
    let b5 = wire_u64(b.generation) + tb;
    let a4 = wire_option(a.last_indexed_frame_id, num) + a5;
    let b4 = wire_option(b.last_indexed_frame_id, num) + b5;
    let a3 = wire_u64(a.frame_count) + a4;
    let b3 = wire_u64(b.frame_count) + b4;
    let a2 = wire_option(a.embedding_dim, dim) + a3;
    let b2 = wire_option(b.embedding_dim, dim) + b3;
    assert(bytes =~= wire_header(a) + ta);
    lemma_header_parts(a, ta);
    assert(bytes =~= wire_header(b) + tb);
    lemma_header_parts(b, tb);
    lemma_text_self_delimiting();
    lemma_u32_self_delimiting();
    lemma_u64_self_delimiting();
    lemma_option_delimits(a.embedding_model, b.embedding_model, text, a2, b2);
    lemma_option_delimits(a.embedding_dim, b.embedding_dim, dim, a3, b3);
    lemma_u64_delimits(a.frame_count, b.frame_count, a4, b4);
    lemma_option_delimits(a.last_indexed_frame_id, b.last_indexed_frame_id, num, a5, b5);
    lemma_u64_delimits(a.generation, b.generation, ta, tb);
}

/// Two sequences of pairs whose encodings start the same bytes are one sequence.
pub proof fn lemma_pairs_unique(a: Seq<(u64, u64)>, b: Seq<(u64, u64)>, bytes: Seq<u8>)
    requires
        wire_pairs(a).is_prefix_of(bytes),
        wire_pairs(b).is_prefix_of(bytes),
        bytes.len() < length_limit(),
    ensures
        a == b,
{
    let item = |p: (u64, u64)| wire_pair(p);
    assert forall|p: (u64, u64), q: (u64, u64), x: Seq<u8>, y: Seq<u8>|
        #![trigger item(p) + x, item(q) + y]
        item(p) + x == item(q) + y && (item(p) + x).len() < length_limit() implies p == q && x
        == y by {
        assert(wire_pair(p) + x =~= wire_u64(p.0) + (wire_u64(p.1) + x));
        assert(wire_pair(q) + y =~= wire_u64(q.0) + (wire_u64(q.1) + y));
        lemma_u64_delimits(p.0, q.0, wire_u64(p.1) + x, wire_u64(q.1) + y);
        lemma_u64_delimits(p.1, q.1, x, y);
    }
    assert forall|p: (u64, u64)| #[trigger] item(p).len() > 0 by {
        lemma_le_bytes_len(p.0 as nat, 8);
    }
    let ta = bytes.skip(wire_pairs(a).len() as int);
    let tb = bytes.skip(wire_pairs(b).len() as int);
    assert(bytes =~= wire_pairs(a) + ta);
    assert(bytes =~= wire_pairs(b) + tb);
    lemma_seq_delimits(a, b, item, ta, tb);
}

proof fn lemma_tags_delimit(
    a: Seq<(Seq<char>, Seq<char>)>,
    b: Seq<(Seq<char>, Seq<char>)>,
    x: Seq<u8>,
    y: Seq<u8>,
)
    requires
        wire_seq(a, |t: (Seq<char>, Seq<char>)| wire_tag(t)) + x == wire_seq(
            b,
            |t: (Seq<char>, Seq<char>)| wire_tag(t),
        ) + y,
        (wire_seq(a, |t: (Seq<char>, Seq<char>)| wire_tag(t)) + x).len() < length_limit(),
    ensures
        a == b,
        x == y,
{
    let item = |t: (Seq<char>, Seq<char>)| wire_tag(t);
    assert forall|p: (Seq<char>, Seq<char>), q: (Seq<char>, Seq<char>), u: Seq<u8>, v: Seq<u8>|
        #![trigger item(p) + u, item(q) + v]
        item(p) + u == item(q) + v && (item(p) + u).len() < length_limit() implies p == q && u
        == v by {
        lemma_regroup(wire_text(p.0), wire_text(p.1), u);
        lemma_regroup(wire_text(q.0), wire_text(q.1), v);
        lemma_text_delimits(p.0, q.0, wire_text(p.1) + u, wire_text(q.1) + v);
        lemma_text_delimits(p.1, q.1, u, v);
    }
    assert forall|p: (Seq<char>, Seq<char>)| #[trigger] item(p).len() > 0 by {
        lemma_le_bytes_len(vstd::utf8::encode_utf8(p.0).len(), 8);
    }
    lemma_seq_delimits(a, b, item, x, y);
}

proof fn lemma_document_delimits(a: DocumentView, b: DocumentView, x: Seq<u8>, y: Seq<u8>)
    requires
        wire_document(a) + x == wire_document(b) + y,
        (wire_document(a) + x).len() < length_limit(),
    ensures
        a == b,
        x == y,
{
    let text = |s: Seq<char>| wire_text(s);
    let tag = |t: (Seq<char>, Seq<char>)| wire_tag(t);
    lemma_document_parts(a, x);
    lemma_document_parts(b, y);
    let a5 = wire_seq(a.tags, tag) + x;
    let b5 = wire_seq(b.tags, tag) + y;
    let a4 = wire_text(a.content) + a5;
    let b4 = wire_text(b.content) + b5;
    let a3 = wire_option(a.title, text) + a4;
    let b3 = wire_option(b.title, text) + b4;
    let a2 = wire_text(a.uri) + a3;
    let b2 = wire_text(b.uri) + b3;
    lemma_u64_delimits(a.frame_id, b.frame_id, a2, b2);
    lemma_text_delimits(a.uri, b.uri, a3, b3);
    lemma_text_self_delimiting();
    lemma_option_delimits(a.title, b.title, text, a4, b4);
    lemma_text_delimits(a.content, b.content, a5, b5);
    lemma_tags_delimit(a.tags, b.tags, x, y);
}

/// A document followed by `tail`, field by field.
proof fn lemma_document_parts(d: DocumentView, tail: Seq<u8>)
    ensures
        wire_document(d) + tail == wire_u64(d.frame_id) + (wire_text(d.uri) + (wire_option(
            d.title,
            |s: Seq<char>| wire_text(s),
        ) + (wire_text(d.content) + (wire_seq(d.tags, |t: (Seq<char>, Seq<char>)| wire_tag(t))
            + tail)))),
{
    let p1 = wire_u64(d.frame_id);
    let p2 = wire_text(d.uri);
    let p3 = wire_option(d.title, |s: Seq<char>| wire_text(s));
    let p4 = wire_text(d.content);
    let p5 = wire_seq(d.tags, |t: (Seq<char>, Seq<char>)| wire_tag(t));
    lemma_regroup(p1, p2 + (p3 + (p4 + p5)), tail);
    lemma_regroup(p2, p3 + (p4 + p5), tail);
    lemma_regroup(p3, p4 + p5, tail);
    lemma_regroup(p4, p5, tail);
}

/// Two sequences of documents whose encodings start the same bytes are one
/// sequence.
pub proof fn lemma_documents_unique(
    a: Seq<DocumentView>,
    b: Seq<DocumentView>,
    bytes: Seq<u8>,
)
    requires
        wire_documents(a).is_prefix_of(bytes),
        wire_documents(b).is_prefix_of(bytes),
        bytes.len() < length_limit(),
    ensures
        a == b,
{
    let item = |d: DocumentView| wire_document(d);
    assert forall|p: DocumentView, q: DocumentView, x: Seq<u8>, y: Seq<u8>|
        #![trigger item(p) + x, item(q) + y]
        item(p) + x == item(q) + y && (item(p) + x).len() < length_limit() implies p == q && x
        == y by {
        lemma_document_delimits(p, q, x, y);
    }
    assert forall|p: DocumentView| #[trigger] item(p).len() > 0 by {
        lemma_le_bytes_len(p.frame_id as nat, 8);
    }
    let ta = bytes.skip(wire_documents(a).len() as int);
    let tb = bytes.skip(wire_documents(b).len() as int);
    assert(bytes =~= wire_documents(a) + ta);
    assert(bytes =~= wire_documents(b) + tb);
    lemma_seq_delimits(a, b, item, ta, tb);
}

} // verus!
