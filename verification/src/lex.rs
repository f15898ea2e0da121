//! Full-text index over frame contents.
//!
//! A word is a run of letters and digits; every byte of a character outside
//! ASCII counts as a letter. Words are compared without regard to the case of
//! ASCII letters.

use crate::tags::TagMap;
use crate::wire::DocumentView;
use vstd::prelude::*;

verus! {

/// What the index keeps of a frame.
#[derive(Debug)]
pub struct LexDocument {
    pub frame_id: u64,
    pub uri: String,
    pub title: Option<String>,
    pub content: String,
    pub tags: TagMap,
}

impl View for LexDocument {
    type V = DocumentView;

    open spec fn view(&self) -> DocumentView {
        DocumentView {
            frame_id: self.frame_id,
            uri: self.uri@,
            title: crate::codec::text_of(self.title),
            content: self.content@,
            tags: self.tags.pairs(),
        }
    }
}

/// Documents with their text as characters.
pub open spec fn documents_of(s: Seq<LexDocument>) -> Seq<DocumentView> {
    s.map_values(|d: LexDocument| d@)
}

/// A frame that a search has found.
#[derive(Debug, Clone, Copy, PartialEq, Eq, Structural)]
pub struct LexSearchHit {
    pub frame_id: u64,
    /// How many words of the query the content holds.
    pub score: usize,
    /// How many words of the content are in the query.
    pub match_count: usize,
}

pub open spec fn is_word_byte(b: u8) -> bool {
    ||| 0x30 <= b <= 0x39
    ||| 0x41 <= b <= 0x5a
    ||| 0x61 <= b <= 0x7a
    ||| 0x80 <= b
}

/// `b` with an ASCII capital made small.
pub open spec fn folded(b: u8) -> u8 {
    if 0x41 <= b <= 0x5a {
        (b + 0x20) as u8
    } else {
        b
    }
}

/// The words of `s`, in order, where `open` is the part of the first word that
/// stands before `s`.
pub open spec fn words_after(open: Seq<u8>, s: Seq<u8>) -> Seq<Seq<u8>>
    decreases s.len(),
{
    if s.len() == 0 {
        if open.len() == 0 {
            Seq::empty()
        } else {
            seq![open]
        }
    } else if is_word_byte(s[0]) {
        words_after(open.push(folded(s[0])), s.drop_first())
    } else if open.len() == 0 {
        words_after(open, s.drop_first())
    } else {
        seq![open] + words_after(Seq::empty(), s.drop_first())
    }
}

/// The words of a text.
pub open spec fn words_of(text: Seq<char>) -> Seq<Seq<u8>> {
    words_after(Seq::empty(), vstd::utf8::encode_utf8(text))
}

/// How many items of `s` are in `among`.
pub open spec fn count_in(s: Seq<Seq<u8>>, among: Seq<Seq<u8>>) -> nat
    decreases s.len(),
{
    if s.len() == 0 {
        0
    } else {
        count_in(s.drop_last(), among) + if among.contains(s.last()) {
            1nat
        } else {
            0nat
        }
    }
}

/// What a query finds in a document.
pub open spec fn hit_of(d: DocumentView, query: Seq<Seq<u8>>) -> LexSearchHit {
    LexSearchHit {
        frame_id: d.frame_id,
        score: count_in(query, words_of(d.content)) as usize,
        match_count: count_in(words_of(d.content), query) as usize,
    }
}

/// The hits of the documents that hold a word of the query, in document order.
pub open spec fn hits_of(docs: Seq<DocumentView>, query: Seq<Seq<u8>>) -> Seq<LexSearchHit>
    decreases docs.len(),
{
    if docs.len() == 0 {
        Seq::empty()
    } else {
        let earlier = hits_of(docs.drop_last(), query);
        let hit = hit_of(docs.last(), query);
        if hit.score > 0 {
            earlier.push(hit)
        } else {
            earlier
        }
    }
}

/// `a` ranks before `b` or with it: more words of the query found or, of as
/// many, at least as many matches.
pub open spec fn ranks_before(a: LexSearchHit, b: LexSearchHit) -> bool {
    a.score > b.score || (a.score == b.score && a.match_count >= b.match_count)
}

/// The place of `hit` in a ranking: behind all at its start that rank before it
/// or with it.
pub open spec fn rank_of(ranking: Seq<LexSearchHit>, hit: LexSearchHit) -> int
    decreases ranking.len(),
{
    if ranking.len() == 0 || !ranks_before(ranking[0], hit) {
        0
    } else {
        1 + rank_of(ranking.drop_first(), hit)
    }
}

/// `hits` best first; hits of one rank keep their order.
pub open spec fn ranked(hits: Seq<LexSearchHit>) -> Seq<LexSearchHit>
    decreases hits.len(),
{
    if hits.len() == 0 {
        Seq::empty()
    } else {
        let earlier = ranked(hits.drop_last());
        earlier.insert(rank_of(earlier, hits.last()), hits.last())
    }
}

/// The best `limit` hits of a query, best first.
pub open spec fn search_result(
    docs: Seq<DocumentView>,
    query: Seq<char>,
    limit: nat,
) -> Seq<LexSearchHit> {
    let all = ranked(hits_of(docs, words_of(query)));
    if limit <= all.len() {
        all.take(limit as int)
    } else {
        all
    }
}

fn split_words(text: &str) -> (r: Vec<Vec<u8>>)
    ensures
        r@.map_values(|w: Vec<u8>| w@) == words_of(text@),
        r@.len() == words_of(text@).len(),
        crate::lex_laws::countable(text@),
{
    let bytes = text.as_bytes();
    let size: usize = bytes.len();
    assert(vstd::utf8::encode_utf8(text@).len() == size);
    let mut words: Vec<Vec<u8>> = Vec::new();
    let mut open: Vec<u8> = Vec::new();
    let mut i: usize = 0;
    let ghost total = words_of(text@);
    assert(bytes@.skip(0) =~= bytes@);
    assert(views(words@) + words_after(open@, bytes@.skip(0)) =~= total);
    while i < bytes.len()
        invariant
            i <= bytes@.len(),
            views(words@) + words_after(open@, bytes@.skip(i as int)) == total,
        decreases bytes@.len() - i,
    {
        let b = bytes[i];
        let ghost rest = bytes@.skip(i as int);
        let ghost old_words = views(words@);
        assert(rest.drop_first() =~= bytes@.skip(i + 1));
        if (0x30 <= b && b <= 0x39) || (0x61 <= b && b <= 0x7a) || 0x80 <= b {
            open.push(b);
        } else if 0x41 <= b && b <= 0x5a {
            open.push(b + 0x20);
        } else if open.len() > 0 {
            let mut word: Vec<u8> = Vec::new();
            std::mem::swap(&mut word, &mut open);
            let ghost closed = word@;
            words.push(word);
            assert(views(words@) =~= old_words.push(closed));
            assert(open@ =~= Seq::<u8>::empty());
            assert(old_words + (seq![closed] + words_after(Seq::empty(), bytes@.skip(i + 1)))
                =~= views(words@) + words_after(open@, bytes@.skip(i + 1)));
        }
        i = i + 1;
    }
    assert(bytes@.skip(i as int) =~= Seq::<u8>::empty());
    if open.len() > 0 {
        let ghost old_words = views(words@);
        let ghost closed = open@;
        words.push(open);
        assert(views(words@) =~= old_words + seq![closed]);
    } else {
        assert(views(words@) + Seq::empty() =~= views(words@));
    }
    words
}

/// Byte strings as sequences.
spec fn views(s: Seq<Vec<u8>>) -> Seq<Seq<u8>> {
    s.map_values(|w: Vec<u8>| w@)
}

fn bytes_eq(a: &Vec<u8>, b: &Vec<u8>) -> (r: bool)
    ensures
        r == (a@ == b@),
{
    if a.len() != b.len() {
        return false;
    }
    let mut i: usize = 0;
    while i < a.len()
        invariant
            i <= a@.len(),
            a@.len() == b@.len(),
            forall|j: int| 0 <= j < i ==> a@[j] == b@[j],
        decreases a@.len() - i,
    {
        if a[i] != b[i] {
            return false;
        }
        i = i + 1;
    }
    assert(a@ =~= b@);
    true
}

fn has_word(words: &Vec<Vec<u8>>, word: &Vec<u8>) -> (r: bool)
    ensures
        r == views(words@).contains(word@),
{
    let mut i: usize = 0;
    while i < words.len()
        invariant
            i <= words@.len(),
            forall|j: int| 0 <= j < i ==> views(words@)[j] != word@,
        decreases words@.len() - i,
    {
        if bytes_eq(&words[i], word) {
            assert(views(words@)[i as int] == word@);
            return true;
        }
        i = i + 1;
    }
    false
}

fn count_words(words: &Vec<Vec<u8>>, among: &Vec<Vec<u8>>) -> (r: usize)
    ensures
        r as nat == count_in(views(words@), views(among@)),
{
    let mut n: usize = 0;
    let mut i: usize = 0;
    assert(views(words@).take(0) =~= Seq::<Seq<u8>>::empty());
    while i < words.len()
        invariant
            n <= i <= words@.len(),
            n as nat == count_in(views(words@).take(i as int), views(among@)),
        decreases words@.len() - i,
    {
        assert(views(words@).take(i + 1).drop_last() =~= views(words@).take(i as int));
        if has_word(among, &words[i]) {
            n = n + 1;
        }
        i = i + 1;
    }
    assert(views(words@).take(i as int) =~= views(words@));
    n
}

/// All that stand at the start of `ranking` rank before `hit` or with it, up to
/// the place `p` where that ends.
proof fn lemma_rank_at(ranking: Seq<LexSearchHit>, hit: LexSearchHit, p: int)
    requires
        0 <= p <= ranking.len(),
        forall|j: int| 0 <= j < p ==> ranks_before(#[trigger] ranking[j], hit),
        p < ranking.len() ==> !ranks_before(ranking[p], hit),
    ensures
        rank_of(ranking, hit) == p,
    decreases p,
{
    if p > 0 {
        assert(ranks_before(ranking[0], hit));
        assert forall|j: int| 0 <= j < p - 1 implies ranks_before(
            #[trigger] ranking.drop_first()[j],
            hit,
        ) by {
            assert(ranks_before(ranking[j + 1], hit));
        }
        lemma_rank_at(ranking.drop_first(), hit, p - 1);
    }
}

fn insert_ranked(ranking: &mut Vec<LexSearchHit>, hit: LexSearchHit)
    ensures
        final(ranking)@ == old(ranking)@.insert(rank_of(old(ranking)@, hit), hit),
{
    let mut p: usize = 0;
    while p < ranking.len() && (ranking[p].score > hit.score || (ranking[p].score == hit.score
        && ranking[p].match_count >= hit.match_count))
        invariant
            p <= ranking@.len(),
            ranking@ == old(ranking)@,
            forall|j: int| 0 <= j < p ==> ranks_before(#[trigger] ranking@[j], hit),
        decreases ranking@.len() - p,
    {
        p = p + 1;
    }
    proof {
        lemma_rank_at(ranking@, hit, p as int);
    }
    ranking.insert(p, hit);
}

/// A decoded full-text index.
#[derive(Debug)]
pub struct LexIndex {
    pub documents: Vec<LexDocument>,
}

impl LexIndex {
    /// The documents, in the order in which they were added.
    pub open spec fn view(&self) -> Seq<DocumentView> {
        documents_of(self.documents@)
    }

    /// Finds the documents that hold a word of `query`: those that hold more of
    /// its words first and, of as many, those with more matches; at most
    /// `limit` of them.
    pub fn search(&self, query: &str, limit: usize) -> (r: Vec<LexSearchHit>)
        ensures
            r@ == search_result(self@, query@, limit as nat),
            crate::lex_laws::best_hits(
                r@,
                Seq::new(
                    self.documents@.len(),
                    |k: int| (self.documents@[k].frame_id, self.documents@[k].content@),
                ),
                query@,
                limit as nat,
            ),
    {
        let wanted = split_words(query);
        let mut ranking: Vec<LexSearchHit> = Vec::new();
        let mut i: usize = 0;
        let ghost words = words_of(query@);
        assert(self@.take(0) =~= Seq::<DocumentView>::empty());
        while i < self.documents.len()
            invariant
                i <= self.documents@.len(),
                words == words_of(query@),
                views(wanted@) == words,
                crate::lex_laws::countable(query@),
                forall|k: int|
                    0 <= k < i ==> crate::lex_laws::countable((#[trigger] self@[k]).content),
                ranking@ == ranked(hits_of(self@.take(i as int), words)),
            decreases self.documents@.len() - i,
        {
            let d = &self.documents[i];
            let found = split_words(d.content.as_str());
            let score = count_words(&wanted, &found);
            proof {
                let upto = self@.take(i + 1);
                assert(upto.drop_last() =~= self@.take(i as int));
                assert(upto.last() == d@);
                assert(self@[i as int] == d@);
            }
            if score > 0 {
                let match_count = count_words(&found, &wanted);
                let hit = LexSearchHit { frame_id: d.frame_id, score, match_count };
                let ghost before = hits_of(self@.take(i as int), words);
                insert_ranked(&mut ranking, hit);
                assert(hit == hit_of(d@, words));
                assert(before.push(hit).drop_last() =~= before);
            }
            i = i + 1;
        }
        assert(self@.take(i as int) =~= self@);
        proof {
            crate::lex_laws::search_gives_the_best(self@, query@, limit as nat);
            assert(crate::lex_laws::contents_of(self@) =~= Seq::new(
                self.documents@.len(),
                |k: int| (self.documents@[k].frame_id, self.documents@[k].content@),
            ));
        }
        ranking.truncate(limit);
        ranking
    }
}

/// The documents that serialised bytes start with, if they start with any.
pub open spec fn decoded_documents(bytes: Seq<u8>) -> Option<Seq<DocumentView>> {
    if exists|d: Seq<DocumentView>| #[trigger]
        crate::wire::wire_documents(d).is_prefix_of(bytes) {
        Some(
            choose|d: Seq<DocumentView>| #[trigger]
                crate::wire::wire_documents(d).is_prefix_of(bytes),
        )
    } else {
        None
    }
}

/// Bytes that start with serialised documents decode to those documents.
pub proof fn lemma_decoded_documents(docs: Seq<DocumentView>, bytes: Seq<u8>)
    requires
        crate::wire::wire_documents(docs).is_prefix_of(bytes),
        bytes.len() < crate::wire::length_limit(),
    ensures
        decoded_documents(bytes) == Some(docs),
{
    let d = decoded_documents(bytes)->0;
    crate::wire::lemma_documents_unique(d, docs, bytes);
}

/// Why a full-text index could not be written or read.
#[derive(Debug, Clone, Copy, PartialEq, Eq, Structural)]
pub enum LexError {
    Encode,
    Decode,
}

/// A serialised full-text index.
#[derive(Debug)]
pub struct LexIndexArtifact {
    pub bytes: Vec<u8>,
}

/// Collects documents for a full-text index.
#[derive(Debug)]
pub struct LexIndexBuilder {
    pub documents: Vec<LexDocument>,
}

impl LexIndexBuilder {
    /// The documents so far.
    pub open spec fn view(&self) -> Seq<DocumentView> {
        documents_of(self.documents@)
    }

    /// A builder without documents.
    pub fn new() -> (r: Self)
        ensures
            r@ == Seq::<DocumentView>::empty(),
    {
        let r = LexIndexBuilder { documents: Vec::new() };
        assert(r@ =~= Seq::empty());
        r
    }

    /// Adds a document.
    pub fn add_document(
        &mut self,
        frame_id: u64,
        uri: &str,
        title: Option<&str>,
        content: &str,
        tags: &TagMap,
    )
        ensures
            final(self)@ == old(self)@.push(
                DocumentView {
                    frame_id,
                    uri: uri@,
                    title: match title {
                        Some(t) => Some(t@),
                        None => None,
                    },
                    content: content@,
                    tags: tags.pairs(),
                },
            ),
    {
        let title = match title {
            Some(t) => Some(t.to_owned()),
            None => None,
        };
        self.documents.push(
            LexDocument {
                frame_id,
                uri: uri.to_owned(),
                title,
                content: content.to_owned(),
                tags: tags.clone(),
            },
        );
        proof {
            let n = old(self).documents@.len() as int;
            assert(self@ =~= old(self)@.push(self.documents@[n]@));
        }
    }

    /// Serialises the documents.
    pub fn finish(self) -> (r: Result<LexIndexArtifact, LexError>)
        ensures
            r is Ok,
            r->Ok_0.bytes@ == crate::wire::wire_documents(self@),
    {
        match crate::codec::encode_documents(&self.documents) {
            Ok(bytes) => Ok(LexIndexArtifact { bytes }),
            Err(_) => Err(LexError::Encode),
        }
    }
}

impl LexIndex {
    /// Decodes a serialised index.
    pub fn decode(bytes: &[u8]) -> (r: Result<LexIndex, LexError>)
        ensures
            match r {
                Ok(index) => decoded_documents(bytes@) == Some(index@),
                Err(e) => e is Decode && decoded_documents(bytes@) is None,
            },
    {
        let size: usize = bytes.len();
        match crate::codec::decode_documents(bytes) {
            Ok(documents) => {
                proof {
                    assert(size < crate::wire::length_limit());
                    lemma_decoded_documents(documents_of(documents@), bytes@);
                }
                Ok(LexIndex { documents })
            },
            Err(_) => Err(LexError::Decode),
        }
    }
}

/// In a ranking no hit ranks strictly before an earlier one.
pub open spec fn is_ranking(s: Seq<LexSearchHit>) -> bool {
    forall|i: int, j: int|
        0 <= i < j < s.len() ==> ranks_before(#[trigger] s[i], #[trigger] s[j])
}

proof fn lemma_rank_splits(ranking: Seq<LexSearchHit>, hit: LexSearchHit)
    requires
        is_ranking(ranking),
    ensures
        0 <= rank_of(ranking, hit) <= ranking.len(),
        forall|j: int|
            0 <= j < rank_of(ranking, hit) ==> ranks_before(#[trigger] ranking[j], hit),
        forall|j: int|
            rank_of(ranking, hit) <= j < ranking.len() ==> ranks_before(
                hit,
                #[trigger] ranking[j],
            ),
    decreases ranking.len(),
{
    if ranking.len() > 0 && ranks_before(ranking[0], hit) {
        let rest = ranking.drop_first();
        assert(is_ranking(rest)) by {
            assert forall|i: int, j: int| 0 <= i < j < rest.len() implies ranks_before(
                #[trigger] rest[i],
                #[trigger] rest[j],
            ) by {
                assert(ranks_before(ranking[i + 1], ranking[j + 1]));
            }
        }
        lemma_rank_splits(rest, hit);
        assert forall|j: int| 0 <= j < rank_of(ranking, hit) implies ranks_before(
            #[trigger] ranking[j],
            hit,
        ) by {
            if j > 0 {
                assert(ranks_before(rest[j - 1], hit));
            }
        }
        assert forall|j: int| rank_of(ranking, hit) <= j < ranking.len() implies ranks_before(
            hit,
            #[trigger] ranking[j],
        ) by {
            assert(ranks_before(hit, rest[j - 1]));
        }
    } else if ranking.len() > 0 {
        assert forall|j: int| 0 <= j < ranking.len() implies ranks_before(
            hit,
            #[trigger] ranking[j],
        ) by {
            if j > 0 {
                assert(ranks_before(ranking[0], ranking[j]));
            }
        }
    }
}

/// Ranking only reorders the hits, and puts none behind a worse one.
pub proof fn ranking_is_sorted_and_complete(hits: Seq<LexSearchHit>)
    ensures
        is_ranking(ranked(hits)),
        ranked(hits).len() == hits.len(),
        ranked(hits).to_multiset() =~= hits.to_multiset(),
    decreases hits.len(),
{
    broadcast use vstd::seq_lib::group_to_multiset_ensures;

    if hits.len() > 0 {
        let earlier = ranked(hits.drop_last());
        let hit = hits.last();
        let p = rank_of(earlier, hit);
        ranking_is_sorted_and_complete(hits.drop_last());
        lemma_rank_splits(earlier, hit);
        let all = earlier.insert(p, hit);
        assert forall|i: int, j: int| 0 <= i < j < all.len() implies ranks_before(
            #[trigger] all[i],
            #[trigger] all[j],
        ) by {
            let a = if i <= p {
                i
            } else {
                i - 1
            };
            let b = if j <= p {
                j
            } else {
                j - 1
            };
            if i != p && j != p {
                assert(all[i] == earlier[a] && all[j] == earlier[b]);
            } else if i == p {
                assert(all[j] == earlier[j - 1]);
            } else {
                assert(all[i] == earlier[i]);
            }
        }
        assert(hits =~= hits.drop_last().push(hit));
        assert(all.to_multiset() =~= earlier.to_multiset().insert(hit));
    } else {
        assert(ranked(hits) =~= hits);
    }
}

/// A search finds a document only if it holds a word of the query.
pub proof fn hits_are_documents(docs: Seq<DocumentView>, query: Seq<char>, limit: nat, i: int)
    requires
        0 <= i < search_result(docs, query, limit).len(),
    ensures
        search_result(docs, query, limit)[i].score > 0,
        exists|k: int|
            0 <= k < docs.len() && search_result(docs, query, limit)[i] == hit_of(
                #[trigger] docs[k],
                words_of(query),
            ),
{
    broadcast use vstd::seq_lib::group_to_multiset_ensures;

    let words = words_of(query);
    let hits = hits_of(docs, words);
    let hit = search_result(docs, query, limit)[i];
    ranking_is_sorted_and_complete(hits);
    assert(ranked(hits)[i] == hit);
    assert(ranked(hits).to_multiset().contains(hit));
    assert(hits.contains(hit));
    let j = choose|j: int| 0 <= j < hits.len() && hits[j] == hit;
    lemma_hit_is_document(docs, words, j);
}

proof fn lemma_hit_is_document(docs: Seq<DocumentView>, query: Seq<Seq<u8>>, j: int)
    requires
        0 <= j < hits_of(docs, query).len(),
    ensures
        hits_of(docs, query)[j].score > 0,
        exists|k: int|
            0 <= k < docs.len() && hits_of(docs, query)[j] == hit_of(#[trigger] docs[k], query),
    decreases docs.len(),
{
    let front = docs.drop_last();
    if j < hits_of(front, query).len() {
        lemma_hit_is_document(front, query, j);
        let k = choose|k: int|
            0 <= k < front.len() && hits_of(front, query)[j] == hit_of(#[trigger] front[k], query);
        assert(docs[k] == front[k]);
    } else {
        assert(docs[docs.len() - 1] == docs.last());
    }
}

proof fn lemma_document_is_hit(docs: Seq<DocumentView>, query: Seq<Seq<u8>>, k: int)
    requires
        0 <= k < docs.len(),
        hit_of(docs[k], query).score > 0,
    ensures
        hits_of(docs, query).contains(hit_of(docs[k], query)),
        hits_of(docs, query).len() <= docs.len(),
    decreases docs.len(),
{
    let front = docs.drop_last();
    let earlier = hits_of(front, query);
    let hits = hits_of(docs, query);
    lemma_hits_len(front, query);
    if k < front.len() {
        lemma_document_is_hit(front, query, k);
        let j = choose|j: int| 0 <= j < earlier.len() && earlier[j] == hit_of(docs[k], query);
        assert(hits[j] == earlier[j]);
    } else {
        assert(hits[hits.len() - 1] == hit_of(docs[k], query));
    }
}

proof fn lemma_hits_len(docs: Seq<DocumentView>, query: Seq<Seq<u8>>)
    ensures
        hits_of(docs, query).len() <= docs.len(),
    decreases docs.len(),
{
    if docs.len() > 0 {
        lemma_hits_len(docs.drop_last(), query);
    }
}

/// A search whose limit leaves room for all documents finds every document that
/// holds a word of the query.
pub proof fn matching_documents_are_found(
    docs: Seq<DocumentView>,
    query: Seq<char>,
    limit: nat,
    k: int,
)
    requires
        0 <= k < docs.len() <= limit,
        hit_of(docs[k], words_of(query)).score > 0,
    ensures
        search_result(docs, query, limit).contains(hit_of(docs[k], words_of(query))),
{
    broadcast use vstd::seq_lib::group_to_multiset_ensures;

    let words = words_of(query);
    let hits = hits_of(docs, words);
    let hit = hit_of(docs[k], words);
    lemma_document_is_hit(docs, words, k);
    ranking_is_sorted_and_complete(hits);
    assert(hits.to_multiset().contains(hit));
    assert(ranked(hits).contains(hit));
    assert(search_result(docs, query, limit) =~= ranked(hits));
}

} // verus!
