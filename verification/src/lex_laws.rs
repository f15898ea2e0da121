//! What a full-text search finds, said of the bytes of the texts.
//!
//! Nothing here runs.

use crate::lex::LexSearchHit;
use crate::wire::DocumentView;
use vstd::prelude::*;

verus! {

/// An ASCII letter or digit, or a byte of a character outside ASCII.
pub open spec fn in_word(b: u8) -> bool {
    ||| '0' as u32 <= b <= '9' as u32
    ||| 'A' as u32 <= b <= 'Z' as u32
    ||| 'a' as u32 <= b <= 'z' as u32
    ||| b >= 128
}

/// `b`, where an ASCII capital becomes the small letter.
pub open spec fn small(b: u8) -> u8 {
    if 'A' as u32 <= b <= 'Z' as u32 {
        (b + 32) as u8
    } else {
        b
    }
}

/// Whether a word of `s` reaches from `a` to `b`: its bytes are letters and
/// digits, and those beside it are not.
pub open spec fn word_at(s: Seq<u8>, a: int, b: int) -> bool {
    &&& 0 <= a < b <= s.len()
    &&& forall|i: int| a <= i < b ==> in_word(#[trigger] s[i])
    &&& a > 0 ==> !in_word(s[a - 1])
    &&& b < s.len() ==> !in_word(s[b])
}

/// The bytes from `a` to `b` without regard to case.
pub open spec fn spelled(s: Seq<u8>, a: int, b: int) -> Seq<u8> {
    Seq::new((b - a) as nat, |i: int| small(s[a + i]))
}

/// Whether the bytes `w` are a word of `t`, at any place in it.
pub open spec fn occurs(w: Seq<u8>, t: Seq<u8>) -> bool {
    exists|c: int, d: int| #[trigger] word_at(t, c, d) && spelled(t, c, d) == w
}

/// Whether a word of `s` starts at `a` that is also a word of `t`.
pub open spec fn shares_word(s: Seq<u8>, a: int, t: Seq<u8>) -> bool {
    exists|b: int| #[trigger] word_at(s, a, b) && occurs(spelled(s, a, b), t)
}

/// Whether `ks` are the places at which the words of `s` start that are words of
/// `t`.
pub open spec fn shared_at(ks: Seq<int>, s: Seq<u8>, t: Seq<u8>) -> bool {
    crate::select::places(ks, s.len() as int, |a: int| shares_word(s, a, t))
}

/// Whether `n` words of `s` are words of `t`.
pub open spec fn shared_words(s: Seq<u8>, t: Seq<u8>, n: int) -> bool {
    exists|ks: Seq<int>| #[trigger] shared_at(ks, s, t) && ks.len() == n
}

/// Whether `hit` says of a document how many words of the query it holds, and how
/// many of its words are in the query.
pub open spec fn describes(hit: LexSearchHit, document: (u64, Seq<char>), query: Seq<char>) -> bool {
    let content = vstd::utf8::encode_utf8(document.1);
    let wanted = vstd::utf8::encode_utf8(query);
    &&& hit.frame_id == document.0
    &&& shared_words(wanted, content, hit.score as int)
    &&& shared_words(content, wanted, hit.match_count as int)
}

/// Whether a document holds a word of the query.
pub open spec fn is_match(document: (u64, Seq<char>), query: Seq<char>) -> bool {
    exists|a: int| #[trigger]
        shares_word(vstd::utf8::encode_utf8(query), a, vstd::utf8::encode_utf8(document.1))
}

/// Whether a hit of document `k` comes before one of document `l`: it has more
/// words of the query or, of as many, more matches or, of as many, the document
/// was added earlier.
pub open spec fn comes_before(a: LexSearchHit, k: int, b: LexSearchHit, l: int) -> bool {
    ||| a.score > b.score
    ||| a.score == b.score && a.match_count > b.match_count
    ||| a.score == b.score && a.match_count == b.match_count && k < l
}

/// Whether `hits` are the best of the documents that match, best first, where
/// `from` are the documents that they are of.
pub open spec fn are_best(
    hits: Seq<LexSearchHit>,
    from: Seq<int>,
    documents: Seq<(u64, Seq<char>)>,
    query: Seq<char>,
    limit: nat,
) -> bool {
    &&& hits.len() == from.len()
    &&& hits.len() <= limit
    &&& forall|i: int|
        0 <= i < from.len() ==> 0 <= #[trigger] from[i] < documents.len() && is_match(
            documents[from[i]],
            query,
        ) && describes(hits[i], documents[from[i]], query)
    &&& forall|i: int, j: int|
        0 <= i < j < from.len() ==> comes_before(
            hits[i],
            #[trigger] from[i],
            hits[j],
            #[trigger] from[j],
        )
    &&& forall|k: int|
        0 <= k < documents.len() && is_match(#[trigger] documents[k], query) && !from.contains(k)
            ==> hits.len() == limit && exists|hit: LexSearchHit| #[trigger]
            describes(hit, documents[k], query) && forall|i: int|
                0 <= i < from.len() ==> comes_before(hits[i], #[trigger] from[i], hit, k)
}

/// Whether `hits` are the best `limit` hits of a query, best first. `documents`
/// are the ID and the content of each document.
pub open spec fn best_hits(
    hits: Seq<LexSearchHit>,
    documents: Seq<(u64, Seq<char>)>,
    query: Seq<char>,
    limit: nat,
) -> bool {
    exists|from: Seq<int>| #[trigger] are_best(hits, from, documents, query, limit)
}

/// The ID and the content of each document.
pub open spec fn contents_of(documents: Seq<DocumentView>) -> Seq<(u64, Seq<char>)> {
    Seq::new(documents.len(), |k: int| (documents[k].frame_id, documents[k].content))
}

/// Whether the bytes of a text can be counted.
pub open spec fn countable(text: Seq<char>) -> bool {
    vstd::utf8::encode_utf8(text).len() <= usize::MAX
}

/// The runs that `words_after` finds from `i` on, where a word is open since `a`.
proof fn lemma_runs(s: Seq<u8>, a: int, i: int) -> (rs: Seq<(int, int)>)
    requires
        0 <= a <= i <= s.len(),
        forall|k: int| a <= k < i ==> in_word(#[trigger] s[k]),
        a > 0 ==> !in_word(s[a - 1]),
    ensures
        ({
            let words = crate::lex::words_after(spelled(s, a, i), s.skip(i));
            &&& rs.len() == words.len()
            &&& rs.len() <= s.len() - a
            &&& forall|j: int|
                0 <= j < rs.len() ==> word_at(s, (#[trigger] rs[j]).0, rs[j].1) && rs[j].0 >= a
                    && words[j] == spelled(s, rs[j].0, rs[j].1)
            &&& forall|j: int, k: int|
                0 <= j < k < rs.len() ==> (#[trigger] rs[j]).0 < (#[trigger] rs[k]).0
            &&& forall|c: int, d: int|
                c >= a && #[trigger] word_at(s, c, d) ==> rs.contains((c, d))
        }),
    decreases s.len() - i,
{
    let open = spelled(s, a, i);
    let rest = s.skip(i);
    let words = crate::lex::words_after(open, rest);
    if i == s.len() {
        if a == i {
            assert(open.len() == 0);
            assert forall|c: int, d: int| c >= a && #[trigger] word_at(s, c, d) implies false by {
            }
            Seq::empty()
        } else {
            let rs = seq![(a, i)];
            assert(word_at(s, a, i));
            assert forall|c: int, d: int| c >= a && #[trigger] word_at(s, c, d) implies rs.contains(
                (c, d),
            ) by {
                if c > a {
                    assert(in_word(s[c - 1]));
                }
                if d < i {
                    assert(in_word(s[d]));
                }
                assert(rs[0] == (c, d));
            }
            rs
        }
    } else {
        assert(rest[0] == s[i]);
        assert(rest.drop_first() =~= s.skip(i + 1));
        if in_word(s[i]) {
            assert(open.push(crate::lex::folded(s[i])) =~= spelled(s, a, i + 1));
            lemma_runs(s, a, i + 1)
        } else if a == i {
            assert(open =~= Seq::<u8>::empty());
            assert(spelled(s, i + 1, i + 1) =~= Seq::<u8>::empty());
            let rs = lemma_runs(s, i + 1, i + 1);
            assert forall|c: int, d: int| c >= a && #[trigger] word_at(s, c, d) implies rs.contains(
                (c, d),
            ) by {
                if c == i {
                    assert(in_word(s[c]));
                }
            }
            rs
        } else {
            assert(spelled(s, i + 1, i + 1) =~= Seq::<u8>::empty());
            let later = lemma_runs(s, i + 1, i + 1);
            let rs = seq![(a, i)] + later;
            assert(word_at(s, a, i));
            assert forall|j: int| 0 <= j < rs.len() implies word_at(
                s,
                (#[trigger] rs[j]).0,
                rs[j].1,
            ) && rs[j].0 >= a && words[j] == spelled(s, rs[j].0, rs[j].1) by {
                if j > 0 {
                    assert(rs[j] == later[j - 1]);
                }
            }
            assert forall|j: int, k: int| 0 <= j < k < rs.len() implies (#[trigger] rs[j]).0 < (
            #[trigger] rs[k]).0 by {
                assert(rs[k] == later[k - 1]);
                if j > 0 {
                    assert(rs[j] == later[j - 1]);
                }
            }
            assert forall|c: int, d: int| c >= a && #[trigger] word_at(s, c, d) implies rs.contains(
                (c, d),
            ) by {
                if c > i {
                    assert(later.contains((c, d)));
                    let k = choose|k: int| 0 <= k < later.len() && later[k] == (c, d);
                    assert(rs[k + 1] == (c, d));
                } else {
                    if c == i {
                        assert(in_word(s[c]));
                    }
                    if c > a {
                        assert(in_word(s[c - 1]));
                    }
                    if d < i {
                        assert(in_word(s[d]));
                    }
                    if d > i {
                        assert(in_word(s[i]));
                    }
                    assert(rs[0] == (c, d));
                }
            }
            rs
        }
    }
}

/// The runs of word bytes that the words of a text are.
proof fn lemma_words(text: Seq<char>) -> (rs: Seq<(int, int)>)
    ensures
        ({
            let s = vstd::utf8::encode_utf8(text);
            let words = crate::lex::words_of(text);
            &&& rs.len() == words.len()
            &&& rs.len() <= s.len()
            &&& forall|j: int|
                0 <= j < rs.len() ==> word_at(s, (#[trigger] rs[j]).0, rs[j].1) && words[j]
                    == spelled(s, rs[j].0, rs[j].1)
            &&& forall|j: int, k: int|
                0 <= j < k < rs.len() ==> (#[trigger] rs[j]).0 < (#[trigger] rs[k]).0
            &&& forall|c: int, d: int| #[trigger] word_at(s, c, d) ==> rs.contains((c, d))
        }),
{
    let s = vstd::utf8::encode_utf8(text);
    assert(spelled(s, 0, 0) =~= Seq::<u8>::empty());
    assert(s.skip(0) =~= s);
    lemma_runs(s, 0, 0)
}

/// The words of a text are the byte strings that occur in it.
proof fn lemma_word_occurs(w: Seq<u8>, text: Seq<char>)
    ensures
        crate::lex::words_of(text).contains(w) <==> occurs(w, vstd::utf8::encode_utf8(text)),
{
    let s = vstd::utf8::encode_utf8(text);
    let words = crate::lex::words_of(text);
    let rs = lemma_words(text);
    if words.contains(w) {
        let j = choose|j: int| 0 <= j < words.len() && words[j] == w;
        assert(word_at(s, rs[j].0, rs[j].1));
    }
    if occurs(w, s) {
        let (c, d) = choose|c: int, d: int| #[trigger] word_at(s, c, d) && spelled(s, c, d) == w;
        assert(rs.contains((c, d)));
        let j = choose|j: int| 0 <= j < rs.len() && rs[j] == (c, d);
        assert(words[j] == w);
    }
}

/// Two words that start at one place end at one place.
proof fn lemma_word_end(s: Seq<u8>, a: int, b: int, c: int)
    requires
        word_at(s, a, b),
        word_at(s, a, c),
    ensures
        b == c,
{
    if b < c {
        assert(in_word(s[b]));
    } else if c < b {
        assert(in_word(s[c]));
    }
}

/// The places of the first `n` words of `text` that are words of `other`.
proof fn lemma_count_prefix(
    text: Seq<char>,
    other: Seq<char>,
    rs: Seq<(int, int)>,
    n: int,
) -> (ks: Seq<int>)
    requires
        rs.len() == crate::lex::words_of(text).len(),
        forall|j: int|
            0 <= j < rs.len() ==> word_at(
                vstd::utf8::encode_utf8(text),
                (#[trigger] rs[j]).0,
                rs[j].1,
            ) && crate::lex::words_of(text)[j] == spelled(
                vstd::utf8::encode_utf8(text),
                rs[j].0,
                rs[j].1,
            ),
        forall|j: int, k: int|
            0 <= j < k < rs.len() ==> (#[trigger] rs[j]).0 < (#[trigger] rs[k]).0,
        0 <= n <= rs.len(),
    ensures
        ks.len() == crate::lex::count_in(
            crate::lex::words_of(text).take(n),
            crate::lex::words_of(other),
        ),
        ks.len() <= n,
        forall|i: int, j: int| 0 <= i < j < ks.len() ==> #[trigger] ks[i] < #[trigger] ks[j],
        forall|i: int|
            0 <= i < ks.len() ==> shares_word(
                vstd::utf8::encode_utf8(text),
                #[trigger] ks[i],
                vstd::utf8::encode_utf8(other),
            ) && exists|j: int| 0 <= j < n && (#[trigger] rs[j]).0 == ks[i],
        forall|j: int|
            0 <= j < n && shares_word(
                vstd::utf8::encode_utf8(text),
                (#[trigger] rs[j]).0,
                vstd::utf8::encode_utf8(other),
            ) ==> ks.contains(rs[j].0),
    decreases n,
{
    let s = vstd::utf8::encode_utf8(text);
    let t = vstd::utf8::encode_utf8(other);
    let words = crate::lex::words_of(text);
    if n == 0 {
        Seq::empty()
    } else {
        let before = lemma_count_prefix(text, other, rs, n - 1);
        let (a, b) = rs[n - 1];
        assert(words.take(n).drop_last() =~= words.take(n - 1));
        assert(words.take(n).last() == words[n - 1]);
        lemma_word_occurs(words[n - 1], other);
        assert(word_at(s, a, b));
        if shares_word(s, a, t) {
            let e = choose|e: int| #[trigger] word_at(s, a, e) && occurs(spelled(s, a, e), t);
            lemma_word_end(s, a, b, e);
        }
        assert(shares_word(s, a, t) <==> crate::lex::words_of(other).contains(words[n - 1]));
        let ks = if shares_word(s, a, t) {
            before.push(a)
        } else {
            before
        };
        assert forall|i: int, j: int| 0 <= i < j < ks.len() implies #[trigger] ks[i]
            < #[trigger] ks[j] by {
            if j == before.len() {
                let m = choose|m: int| 0 <= m < n - 1 && (#[trigger] rs[m]).0 == before[i];
                assert(rs[m].0 < rs[n - 1].0);
            }
        }
        assert forall|i: int| 0 <= i < ks.len() implies shares_word(s, #[trigger] ks[i], t)
            && exists|j: int| 0 <= j < n && (#[trigger] rs[j]).0 == ks[i] by {
            if i < before.len() {
                let m = choose|m: int| 0 <= m < n - 1 && (#[trigger] rs[m]).0 == before[i];
                assert(rs[m].0 == ks[i]);
            } else {
                assert(rs[n - 1].0 == ks[i]);
            }
        }
        assert forall|j: int|
            0 <= j < n && shares_word(s, (#[trigger] rs[j]).0, t) implies ks.contains(
            rs[j].0,
        ) by {
            if j < n - 1 {
                assert(before.contains(rs[j].0));
                let i = choose|i: int| 0 <= i < before.len() && before[i] == rs[j].0;
                assert(ks[i] == rs[j].0);
            } else {
                assert(ks[ks.len() - 1] == a);
            }
        }
        ks
    }
}

/// Counting words counts the places at which shared words start.
proof fn lemma_count(text: Seq<char>, other: Seq<char>)
    ensures
        shared_words(
            vstd::utf8::encode_utf8(text),
            vstd::utf8::encode_utf8(other),
            crate::lex::count_in(
                crate::lex::words_of(text),
                crate::lex::words_of(other),
            ) as int,
        ),
        crate::lex::count_in(crate::lex::words_of(text), crate::lex::words_of(other))
            <= vstd::utf8::encode_utf8(text).len(),
        crate::lex::count_in(crate::lex::words_of(text), crate::lex::words_of(other)) > 0
            <==> exists|a: int| #[trigger]
            shares_word(vstd::utf8::encode_utf8(text), a, vstd::utf8::encode_utf8(other)),
{
    let s = vstd::utf8::encode_utf8(text);
    let t = vstd::utf8::encode_utf8(other);
    let words = crate::lex::words_of(text);
    let rs = lemma_words(text);
    let n = rs.len() as int;
    let ks = lemma_count_prefix(text, other, rs, n);
    assert(words.take(n) =~= words);
    let keep = |a: int| shares_word(s, a, t);
    assert forall|a: int| #[trigger] keep(a) implies ks.contains(a) by {
        let b = choose|b: int| #[trigger] word_at(s, a, b) && occurs(spelled(s, a, b), t);
        assert(rs.contains((a, b)));
        let j = choose|j: int| 0 <= j < rs.len() && rs[j] == (a, b);
        assert(shares_word(s, rs[j].0, t));
    }
    assert forall|i: int| 0 <= i < ks.len() implies 0 <= #[trigger] ks[i] < s.len() && keep(
        ks[i],
    ) by {
        let j = choose|j: int| 0 <= j < n && (#[trigger] rs[j]).0 == ks[i];
        assert(word_at(s, rs[j].0, rs[j].1));
    }
    assert(shared_at(ks, s, t));
    if ks.len() > 0 {
        assert(shares_word(s, ks[0], t));
    }
    if exists|a: int| #[trigger] shares_word(s, a, t) {
        let a = choose|a: int| #[trigger] shares_word(s, a, t);
        assert(keep(a));
    }
}

/// What a search says of a document is how many words they share.
proof fn lemma_hit(d: DocumentView, query: Seq<char>)
    requires
        countable(d.content),
        countable(query),
    ensures
        describes(
            crate::lex::hit_of(d, crate::lex::words_of(query)),
            (d.frame_id, d.content),
            query,
        ),
        crate::lex::hit_of(d, crate::lex::words_of(query)).score > 0 <==> is_match(
            (d.frame_id, d.content),
            query,
        ),
{
    lemma_count(query, d.content);
    lemma_count(d.content, query);
    let wanted = vstd::utf8::encode_utf8(query);
    let content = vstd::utf8::encode_utf8(d.content);
    let document = (d.frame_id, d.content);
    assert(vstd::utf8::encode_utf8(document.1) == content);
    if exists|a: int| #[trigger] shares_word(wanted, a, content) {
        let a = choose|a: int| #[trigger] shares_word(wanted, a, content);
        assert(shares_word(wanted, a, vstd::utf8::encode_utf8(document.1)));
        assert(is_match(document, query));
    }
}

/// The documents that the hits of a ranking are of.
spec fn order_of(docs: Seq<DocumentView>, words: Seq<Seq<u8>>) -> Seq<int>
    decreases docs.len(),
{
    if docs.len() == 0 {
        Seq::empty()
    } else {
        let front = docs.drop_last();
        let earlier = order_of(front, words);
        let hit = crate::lex::hit_of(docs.last(), words);
        if hit.score > 0 {
            earlier.insert(
                crate::lex::rank_of(crate::lex::ranked(crate::lex::hits_of(front, words)), hit),
                docs.len() - 1,
            )
        } else {
            earlier
        }
    }
}

proof fn lemma_rank_is_strict(ranking: Seq<LexSearchHit>, hit: LexSearchHit)
    requires
        crate::lex::is_ranking(ranking),
    ensures
        0 <= crate::lex::rank_of(ranking, hit) <= ranking.len(),
        forall|j: int|
            0 <= j < crate::lex::rank_of(ranking, hit) ==> crate::lex::ranks_before(
                #[trigger] ranking[j],
                hit,
            ),
        forall|j: int|
            crate::lex::rank_of(ranking, hit) <= j < ranking.len() ==> !crate::lex::ranks_before(
                #[trigger] ranking[j],
                hit,
            ),
    decreases ranking.len(),
{
    if ranking.len() > 0 && crate::lex::ranks_before(ranking[0], hit) {
        let rest = ranking.drop_first();
        assert(crate::lex::is_ranking(rest)) by {
            assert forall|i: int, j: int| 0 <= i < j < rest.len() implies crate::lex::ranks_before(
                #[trigger] rest[i],
                #[trigger] rest[j],
            ) by {
                assert(crate::lex::ranks_before(ranking[i + 1], ranking[j + 1]));
            }
        }
        lemma_rank_is_strict(rest, hit);
        let p = crate::lex::rank_of(ranking, hit);
        assert forall|j: int| 0 <= j < p implies crate::lex::ranks_before(
            #[trigger] ranking[j],
            hit,
        ) by {
            if j > 0 {
                assert(crate::lex::ranks_before(rest[j - 1], hit));
            }
        }
        assert forall|j: int| p <= j < ranking.len() implies !crate::lex::ranks_before(
            #[trigger] ranking[j],
            hit,
        ) by {
            assert(!crate::lex::ranks_before(rest[j - 1], hit));
        }
    } else if ranking.len() > 0 {
        assert forall|j: int| 0 <= j < ranking.len() implies !crate::lex::ranks_before(
            #[trigger] ranking[j],
            hit,
        ) by {
            if j > 0 {
                assert(crate::lex::ranks_before(ranking[0], ranking[j]));
            }
        }
    }
}

proof fn lemma_order(docs: Seq<DocumentView>, words: Seq<Seq<u8>>)
    ensures
        ({
            let order = order_of(docs, words);
            let all = crate::lex::ranked(crate::lex::hits_of(docs, words));
            &&& order.len() == all.len()
            &&& forall|i: int|
                0 <= i < order.len() ==> 0 <= #[trigger] order[i] < docs.len() && all[i]
                    == crate::lex::hit_of(docs[order[i]], words) && all[i].score > 0
            &&& forall|i: int, j: int|
                0 <= i < j < order.len() ==> comes_before(
                    all[i],
                    #[trigger] order[i],
                    all[j],
                    #[trigger] order[j],
                )
            &&& forall|k: int|
                0 <= k < docs.len() && crate::lex::hit_of(#[trigger] docs[k], words).score > 0
                    ==> order.contains(k)
        }),
    decreases docs.len(),
{
    if docs.len() > 0 {
        let front = docs.drop_last();
        let n = docs.len() - 1;
        let hit = crate::lex::hit_of(docs.last(), words);
        let earlier = order_of(front, words);
        let order = order_of(docs, words);
        let hits = crate::lex::hits_of(front, words);
        let ranking = crate::lex::ranked(hits);
        let all = crate::lex::ranked(crate::lex::hits_of(docs, words));
        lemma_order(front, words);
        crate::lex::ranking_is_sorted_and_complete(hits);
        assert forall|i: int| 0 <= i < earlier.len() implies 0 <= #[trigger] earlier[i] < n
            && ranking[i] == crate::lex::hit_of(docs[earlier[i]], words) by {
            assert(front[earlier[i]] == docs[earlier[i]]);
        }
        if hit.score > 0 {
            assert(crate::lex::hits_of(docs, words).drop_last() =~= hits);
            let p = crate::lex::rank_of(ranking, hit);
            lemma_rank_is_strict(ranking, hit);
            assert(all == ranking.insert(p, hit));
            assert forall|i: int| 0 <= i < order.len() implies 0 <= #[trigger] order[i]
                < docs.len() && all[i] == crate::lex::hit_of(docs[order[i]], words)
                && all[i].score > 0 by {
                if i < p {
                    assert(order[i] == earlier[i]);
                } else if i > p {
                    assert(order[i] == earlier[i - 1]);
                }
            }
            assert forall|i: int, j: int| 0 <= i < j < order.len() implies comes_before(
                all[i],
                #[trigger] order[i],
                all[j],
                #[trigger] order[j],
            ) by {
                if i < p {
                    assert(order[i] == earlier[i]);
                    assert(all[i] == ranking[i]);
                    if j < p {
                        assert(order[j] == earlier[j]);
                        assert(all[j] == ranking[j]);
                    } else if j > p {
                        assert(order[j] == earlier[j - 1]);
                        assert(all[j] == ranking[j - 1]);
                    }
                } else {
                    assert(order[j] == earlier[j - 1]);
                    assert(all[j] == ranking[j - 1]);
                    if i > p {
                        assert(order[i] == earlier[i - 1]);
                        assert(all[i] == ranking[i - 1]);
                    }
                }
            }
            assert forall|k: int|
                0 <= k < docs.len() && crate::lex::hit_of(
                    #[trigger] docs[k],
                    words,
                ).score > 0 implies order.contains(k) by {
                if k < n {
                    assert(front[k] == docs[k]);
                    assert(earlier.contains(k));
                    let i = choose|i: int| 0 <= i < earlier.len() && earlier[i] == k;
                    if i < p {
                        assert(order[i] == k);
                    } else {
                        assert(order[i + 1] == k);
                    }
                } else {
                    assert(order[p] == n);
                }
            }
        } else {
            assert forall|k: int|
                0 <= k < docs.len() && crate::lex::hit_of(
                    #[trigger] docs[k],
                    words,
                ).score > 0 implies order.contains(k) by {
                assert(front[k] == docs[k]);
            }
        }
    }
}

/// A search gives the best of the documents that hold a word of the query, at any
/// place in their content: each with how many words of the query it holds and how
/// many of its words are in the query, best first, and none left out for a worse
/// one.
pub proof fn search_gives_the_best(docs: Seq<DocumentView>, query: Seq<char>, limit: nat)
    requires
        countable(query),
        forall|k: int| 0 <= k < docs.len() ==> countable((#[trigger] docs[k]).content),
    ensures
        best_hits(
            crate::lex::search_result(docs, query, limit),
            contents_of(docs),
            query,
            limit,
        ),
{
    let words = crate::lex::words_of(query);
    let documents = contents_of(docs);
    let order = order_of(docs, words);
    let all = crate::lex::ranked(crate::lex::hits_of(docs, words));
    let hits = crate::lex::search_result(docs, query, limit);
    let from = order.take(hits.len() as int);
    lemma_order(docs, words);
    assert forall|k: int| 0 <= k < docs.len() implies describes(
        crate::lex::hit_of(#[trigger] docs[k], words),
        documents[k],
        query,
    ) && (crate::lex::hit_of(docs[k], words).score > 0 <==> is_match(documents[k], query)) by {
        lemma_hit(docs[k], query);
    }
    assert forall|i: int| 0 <= i < from.len() implies 0 <= #[trigger] from[i] < documents.len()
        && is_match(documents[from[i]], query) && describes(
        hits[i],
        documents[from[i]],
        query,
    ) by {
        assert(from[i] == order[i]);
        assert(hits[i] == all[i]);
        assert(describes(crate::lex::hit_of(docs[order[i]], words), documents[order[i]], query));
    }
    assert forall|i: int, j: int| 0 <= i < j < from.len() implies comes_before(
        hits[i],
        #[trigger] from[i],
        hits[j],
        #[trigger] from[j],
    ) by {
        assert(from[i] == order[i] && from[j] == order[j]);
    }
    assert forall|k: int|
        0 <= k < documents.len() && is_match(#[trigger] documents[k], query) && !from.contains(
            k,
        ) implies hits.len() == limit && exists|hit: LexSearchHit| #[trigger]
        describes(hit, documents[k], query) && forall|i: int|
            0 <= i < from.len() ==> comes_before(hits[i], #[trigger] from[i], hit, k) by {
        let hit = crate::lex::hit_of(docs[k], words);
        assert(describes(hit, documents[k], query));
        assert(order.contains(k));
        let j = choose|j: int| 0 <= j < order.len() && order[j] == k;
        if j < from.len() {
            assert(from[j] == k);
        }
        assert(all[j] == hit);
        assert forall|i: int| 0 <= i < from.len() implies comes_before(
            hits[i],
            #[trigger] from[i],
            hit,
            k,
        ) by {
            assert(from[i] == order[i] && order[j] == k);
        }
    }
    assert(are_best(hits, from, documents, query, limit));
}

/// A query that is a word of a document finds it, wherever in the content the word
/// stands, when the limit leaves room for all documents.
pub proof fn every_word_is_found(
    docs: Seq<DocumentView>,
    query: Seq<char>,
    limit: nat,
    k: int,
    a: int,
    b: int,
)
    requires
        countable(query),
        forall|j: int| 0 <= j < docs.len() ==> countable((#[trigger] docs[j]).content),
        0 <= k < docs.len() <= limit,
        word_at(vstd::utf8::encode_utf8(docs[k].content), a, b),
        vstd::utf8::encode_utf8(query) == vstd::utf8::encode_utf8(docs[k].content).subrange(a, b),
    ensures
        exists|i: int|
            0 <= i < crate::lex::search_result(docs, query, limit).len() && (
            #[trigger] crate::lex::search_result(docs, query, limit)[i]).frame_id
                == docs[k].frame_id && crate::lex::search_result(docs, query, limit)[i].score > 0,
{
    let content = vstd::utf8::encode_utf8(docs[k].content);
    let wanted = vstd::utf8::encode_utf8(query);
    let n = b - a;
    assert forall|i: int| 0 <= i < n implies in_word(#[trigger] wanted[i]) by {
        assert(wanted[i] == content[a + i]);
    }
    assert(word_at(wanted, 0, n));
    assert(spelled(wanted, 0, n) =~= spelled(content, a, b));
    assert(shares_word(wanted, 0, content));
    lemma_hit(docs[k], query);
    assert(is_match((docs[k].frame_id, docs[k].content), query));
    crate::lex::matching_documents_are_found(docs, query, limit, k);
    let hits = crate::lex::search_result(docs, query, limit);
    let hit = crate::lex::hit_of(docs[k], crate::lex::words_of(query));
    let i = choose|i: int| 0 <= i < hits.len() && hits[i] == hit;
    assert(hits[i].frame_id == docs[k].frame_id);
}

/// No document is hit twice.
pub proof fn lemma_best_len(
    hits: Seq<LexSearchHit>,
    from: Seq<int>,
    documents: Seq<(u64, Seq<char>)>,
    query: Seq<char>,
    limit: nat,
)
    requires
        are_best(hits, from, documents, query, limit),
    ensures
        from.no_duplicates(),
        hits.len() <= documents.len(),
{
    assert forall|i: int, j: int|
        0 <= i < from.len() && 0 <= j < from.len() && i != j implies from[i] != from[j] by {
        let (a, b) = if i < j {
            (i, j)
        } else {
            (j, i)
        };
        assert(comes_before(hits[a], from[a], hits[b], from[b]));
        if from[a] == from[b] {
            let wanted = vstd::utf8::encode_utf8(query);
            let content = vstd::utf8::encode_utf8(documents[from[a]].1);
            lemma_shared_unique(wanted, content, hits[a].score as int, hits[b].score as int);
            lemma_shared_unique(
                content,
                wanted,
                hits[a].match_count as int,
                hits[b].match_count as int,
            );
        }
    }
    from.unique_seq_to_set();
    let range = vstd::set_lib::set_int_range(0, documents.len() as int);
    vstd::set_lib::lemma_int_range(0, documents.len() as int);
    assert(from.to_set().subset_of(range)) by {
        assert forall|k: int| from.to_set().contains(k) implies range.contains(k) by {
            let i = choose|i: int| 0 <= i < from.len() && from[i] == k;
            assert(0 <= from[i] < documents.len());
        }
    }
    vstd::set_lib::lemma_len_subset(from.to_set(), range);
}

/// How many words are shared is determined.
proof fn lemma_shared_unique(s: Seq<u8>, t: Seq<u8>, m: int, n: int)
    requires
        shared_words(s, t, m),
        shared_words(s, t, n),
    ensures
        m == n,
{
    let a = choose|ks: Seq<int>| #[trigger] shared_at(ks, s, t) && ks.len() == m;
    let b = choose|ks: Seq<int>| #[trigger] shared_at(ks, s, t) && ks.len() == n;
    crate::select::lemma_places_unique(a, b, s.len() as int, |x: int| shares_word(s, x, t));
}

} // verus!
