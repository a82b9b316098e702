//! In-memory indexes.
//!
//! The first step in building the index is to index documents in memory:
//! `InMemoryIndex` holds the hits of one document, or of a merged batch of
//! documents, up to the size of the machine's memory.

use vstd::prelude::*;
use vstd::bytes::u32_to_le_bytes;
use vstd::slice::slice_to_vec;
use vstd::string::StrSliceExecFns;
use vstd::utf8::encode_utf8;

use crate::model::{contains_term, hit_bytes, hits_of, le_offsets, lemma_hits_of_concat,
    lemma_hits_of_singleton, lemma_le_offsets_push, lemma_lex_le_antisymmetric,
    lemma_lex_le_transitive, lemma_term_index, lemma_trunc32_usize, lex_lt, str_cmp, term_index,
    term_index_witness, terms_sorted, trunc32};

verus! {

// ───── Tokenization ─────

/// Whether a character counts as part of a word. Uninterpreted: it stands for
/// whatever `char::is_alphanumeric` answers.
pub uninterp spec fn is_word_char(c: char) -> bool;

/// Relies on `char::is_alphanumeric`: the answer depends on the character
/// alone.
#[verifier::external_body]
fn word_char(c: char) -> (r: bool)
    ensures
        r == is_word_char(c),
{
    c.is_alphanumeric()
}

/// The lowercased form of a character sequence. Uninterpreted: it stands for
/// whatever `str::to_lowercase` returns, which depends on the characters
/// alone.
pub uninterp spec fn lower_of(s: Seq<char>) -> Seq<char>;

/// Relies on `str::to_lowercase`: the result depends on the characters alone,
/// and an empty string stays empty.
#[verifier::external_body]
fn lowercase(s: &str) -> (r: String)
    ensures
        r@ == lower_of(s@),
        s@.len() == 0 ==> r@.len() == 0,
{
    s.to_lowercase()
}

/// The length of the longest prefix of `s` made of word characters.
pub open spec fn word_prefix_len(s: Seq<char>) -> nat
    decreases s.len(),
{
    if s.len() == 0 || !is_word_char(s[0]) {
        0
    } else {
        1 + word_prefix_len(s.drop_first())
    }
}

pub proof fn lemma_word_prefix_len_le(s: Seq<char>)
    ensures
        word_prefix_len(s) <= s.len(),
    decreases s.len(),
{
    if s.len() != 0 && is_word_char(s[0]) {
        lemma_word_prefix_len_le(s.drop_first());
    }
}

/// The maximal runs of word characters in `s`, in order: what breaking a
/// string into words yields.
pub open spec fn spec_tokenize(s: Seq<char>) -> Seq<Seq<char>>
    decreases s.len(),
    via spec_tokenize_decreases
{
    if s.len() == 0 {
        seq![]
    } else if !is_word_char(s[0]) {
        spec_tokenize(s.drop_first())
    } else {
        seq![s.take(word_prefix_len(s) as int)] + spec_tokenize(s.skip(word_prefix_len(s) as int))
    }
}

#[via_fn]
proof fn spec_tokenize_decreases(s: Seq<char>) {
    lemma_word_prefix_len_le(s);
}

/// A block of `k` word characters with a non-word character (or the end)
/// after it is exactly the word prefix.
proof fn lemma_word_prefix_len_exact(s: Seq<char>, k: int)
    requires
        0 <= k <= s.len(),
        forall|d: int| 0 <= d < k ==> is_word_char(#[trigger] s[d]),
        k == s.len() || !is_word_char(s[k]),
    ensures
        word_prefix_len(s) == k,
    decreases k,
{
    if k == 0 {
    } else {
        lemma_word_prefix_len_exact(s.drop_first(), k - 1);
    }
}

/// Break a string into words: the maximal runs of alphanumeric characters,
/// in order. Characters between words are discarded, and so are empty
/// fragments.
pub fn tokenize(text: &str) -> (r: Vec<&str>)
    ensures
        r.deep_view() == spec_tokenize(text@),
{
    let n = text.unicode_len();
    let mut r: Vec<&str> = Vec::new();
    let mut pos: usize = 0;
    proof {
        assert(text@.skip(0) =~= text@);
        assert(r.deep_view() =~= Seq::<Seq<char>>::empty());
    }
    while pos < n
        invariant
            pos <= n,
            n == text@.len(),
            r.deep_view() + spec_tokenize(text@.skip(pos as int)) == spec_tokenize(text@),
        decreases n - pos,
    {
        let c = text.get_char(pos);
        if !word_char(c) {
            proof {
                assert(text@.skip(pos as int).drop_first() =~= text@.skip(pos as int + 1));
            }
            pos = pos + 1;
        } else {
            let ghost whole = text@.skip(pos as int);
            let mut end: usize = pos + 1;
            while end < n && word_char(text.get_char(end))
                invariant
                    pos < end <= n,
                    n == text@.len(),
                    forall|d: int| pos <= d < end ==> is_word_char(#[trigger] text@[d]),
                decreases n - end,
            {
                end = end + 1;
            }
            proof {
                assert(forall|d: int|
                    0 <= d < end - pos ==> is_word_char(#[trigger] whole[d]));
                assert(end - pos == whole.len() || !is_word_char(whole[end - pos]));
                lemma_word_prefix_len_exact(whole, end - pos);
                assert(whole.take(end - pos) =~= text@.subrange(pos as int, end as int));
                assert(whole.skip(end - pos) =~= text@.skip(end as int));
            }
            let token = text.substring_char(pos, end);
            r.push(token);
            proof {
                assert(r.deep_view() =~= r.deep_view().drop_last().push(token@));
                assert(r.deep_view().drop_last() + (seq![token@] + spec_tokenize(
                    text@.skip(end as int),
                )) =~= r.deep_view() + spec_tokenize(text@.skip(end as int)));
            }
            pos = end;
        }
    }
    proof {
        assert(text@.skip(pos as int) =~= Seq::<char>::empty());
        assert(r.deep_view() + spec_tokenize(text@.skip(pos as int)) =~= r.deep_view());
    }
    r
}

// ───── The in-memory index ─────

/// A `Hit` indicates that a particular document contains some term, how many
/// times it appears, and at what offsets (that is, the word count, from the
/// beginning of the document, of each place where the term appears).
///
/// The buffer holds the hit in binary form, little-endian: the 32-byte
/// document hash, then the number of occurrences, then the word offsets.
pub type Hit = Vec<u8>;

/// The word offsets of term `t` within `tokens`: each position whose token is
/// `t`, reduced to 32 bits as the hit encoding stores it.
pub open spec fn token_offsets(tokens: Seq<Seq<char>>, t: Seq<char>) -> Seq<u32>
    decreases tokens.len(),
{
    if tokens.len() == 0 {
        seq![]
    } else {
        let prefix = token_offsets(tokens.drop_last(), t);
        if tokens.last() == t {
            prefix.push(trunc32(tokens.len() - 1))
        } else {
            prefix
        }
    }
}

/// A term that never occurs has no offsets.
proof fn lemma_token_offsets_absent(tokens: Seq<Seq<char>>, t: Seq<char>)
    requires
        !tokens.contains(t),
    ensures
        token_offsets(tokens, t) == Seq::<u32>::empty(),
    decreases tokens.len(),
{
    if tokens.len() != 0 {
        assert(tokens.last() != t);
        assert(!tokens.drop_last().contains(t)) by {
            if tokens.drop_last().contains(t) {
                let w = choose|w: int| 0 <= w < tokens.len() - 1 && #[trigger] tokens.drop_last()[w] == t;
                assert(tokens[w] == t);
            }
        }
        lemma_token_offsets_absent(tokens.drop_last(), t);
    }
}

/// Whether a prefix one token longer contains a term.
proof fn lemma_contains_take_succ(s: Seq<Seq<char>>, i: int, t: Seq<char>)
    requires
        0 <= i < s.len(),
    ensures
        s.take(i + 1).contains(t) == (s.take(i).contains(t) || s[i] == t),
{
    assert(s.take(i + 1) =~= s.take(i).push(s[i]));
    if s.take(i).contains(t) {
        let w = choose|w: int| 0 <= w < i && #[trigger] s.take(i)[w] == t;
        assert(s.take(i + 1)[w] == t);
    }
    if s[i] == t {
        assert(s.take(i + 1)[i] == t);
    }
    if s.take(i + 1).contains(t) {
        let w = choose|w: int| 0 <= w < i + 1 && #[trigger] s.take(i + 1)[w] == t;
        if w < i {
            assert(s.take(i)[w] == t);
        }
    }
}

/// The view of a term-to-offsets list.
pub open spec fn offsets_view(m: Seq<(String, Vec<u32>)>) -> Seq<(Seq<char>, Seq<u32>)> {
    m.map_values(|p: (String, Vec<u32>)| (p.0@, p.1@))
}

/// The view of a term-to-hits list.
pub open spec fn index_map_view(m: Seq<(String, Vec<Hit>)>) -> Seq<(Seq<char>, Seq<Seq<u8>>)> {
    m.map_values(|p: (String, Vec<Hit>)| (p.0@, p.1.deep_view()))
}

/// An in-memory index.
///
/// A real index for a large corpus of documents won't fit in memory, but
/// apart from memory constraints this is everything needed to answer simple
/// search queries; the `write`, `read` and `merge` modules turn a set of
/// in-memory indexes into one large on-disk index.
pub struct InMemoryIndex {
    /// The total number of words in the indexed documents.
    pub word_count: usize,
    /// For every term that appears in the index, the list of all search hits
    /// for that term (i.e. which documents contain that term, and where),
    /// keyed by term and kept sorted by the term's UTF-8 encoding.
    pub map: Vec<(String, Vec<Hit>)>,
}

impl InMemoryIndex {
    /// The map as a sequence of term/hit-list pairs of sequences.
    pub open spec fn map_view(self) -> Seq<(Seq<char>, Seq<Seq<u8>>)> {
        index_map_view(self.map@)
    }

    /// The terms are sorted and therefore distinct.
    pub open spec fn wf(self) -> bool {
        terms_sorted(self.map_view())
    }

    /// Create a new, empty index.
    pub fn new() -> (r: InMemoryIndex)
        ensures
            r.wf(),
            r.word_count == 0,
            r.map_view() == Seq::<(Seq<char>, Seq<Seq<u8>>)>::empty(),
    {
        let r = InMemoryIndex { word_count: 0, map: Vec::new() };
        proof {
            assert(r.map_view() =~= Seq::<(Seq<char>, Seq<Seq<u8>>)>::empty());
        }
        r
    }

    /// Index a single document: lowercase its text, break it into words, and
    /// record, for each distinct term, one `Hit` holding the document's hash
    /// and every word offset at which the term occurs. The word count is the
    /// total number of tokens, duplicates included.
    pub fn from_single_document(document_hash: &[u8], text: String) -> (r: InMemoryIndex)
        requires
            document_hash@.len() == 32,
        ensures
            r.wf(),
            r.word_count == spec_tokenize(lower_of(text@)).len(),
            text@.len() == 0 ==> r.word_count == 0 && r.map_view() == Seq::<
                (Seq<char>, Seq<Seq<u8>>),
            >::empty(),
            forall|t: Seq<char>|
                contains_term(r.map_view(), t) == spec_tokenize(lower_of(text@)).contains(t),
            forall|i: int|
                0 <= i < r.map_view().len() ==> (#[trigger] r.map_view()[i]).1 == seq![
                    hit_bytes(
                        document_hash@,
                        token_offsets(spec_tokenize(lower_of(text@)), r.map_view()[i].0),
                    ),
                ],
    {
        let lowered = lowercase(text.as_str());
        let tokens = tokenize(lowered.as_str());
        let ghost toks = spec_tokenize(lower_of(text@));
        proof {
            if text@.len() == 0 {
                assert(lowered@ =~= Seq::<char>::empty());
                assert(toks =~= Seq::<Seq<char>>::empty());
            }
        }
        let mut terms: Vec<(String, Vec<u32>)> = Vec::new();
        proof {
            assert(offsets_view(terms@) =~= Seq::<(Seq<char>, Seq<u32>)>::empty());
            assert(toks.take(0) =~= Seq::<Seq<char>>::empty());
        }
        let mut i: usize = 0;
        while i < tokens.len()
            invariant
                i <= tokens.len(),
                tokens.deep_view() == toks,
                terms_sorted(offsets_view(terms@)),
                forall|t: Seq<char>|
                    contains_term(offsets_view(terms@), t) == toks.take(i as int).contains(t),
                forall|j: int|
                    0 <= j < terms@.len() ==> (#[trigger] offsets_view(terms@)[j]).1
                        == token_offsets(toks.take(i as int), offsets_view(terms@)[j].0),
            decreases tokens.len() - i,
        {
            let ghost old_tv = offsets_view(terms@);
            let token: &str = tokens[i];
            proof {
                assert(token@ == toks[i as int]);
            }
            let mut k: usize = 0;
            let mut found = false;
            let mut past = false;
            while k < terms.len() && !found && !past
                invariant
                    k <= terms@.len(),
                    old_tv == offsets_view(terms@),
                    forall|j: int|
                        0 <= j < k ==> lex_lt(
                            encode_utf8((#[trigger] old_tv[j]).0),
                            encode_utf8(token@),
                        ),
                    found ==> k < terms@.len() && old_tv[k as int].0 == token@,
                    past ==> k < terms@.len() && lex_lt(
                        encode_utf8(token@),
                        encode_utf8(old_tv[k as int].0),
                    ),
                decreases terms@.len() - k + (if found || past { 0int } else { 1int }),
            {
                proof {
                    assert(old_tv[k as int].0 == terms@[k as int].0@);
                }
                let pair_ref: &(String, Vec<u32>) = &terms[k];
                let c = str_cmp(pair_ref.0.as_str(), token);
                if c == 1 {
                    found = true;
                } else if c == 0 {
                    k = k + 1;
                } else {
                    past = true;
                }
            }
            if found {
                let mut pair = terms.remove(k);
                pair.1.push(#[verifier::truncate] (i as u32));
                terms.insert(k, pair);
                proof {
                    lemma_trunc32_usize(i);
                    assert(offsets_view(terms@) =~~= old_tv.update(
                        k as int,
                        (old_tv[k as int].0, old_tv[k as int].1.push(trunc32(i as int))),
                    ));
                }
            } else {
                let mut offs: Vec<u32> = Vec::new();
                offs.push(#[verifier::truncate] (i as u32));
                terms.insert(k, (token.to_owned(), offs));
                proof {
                    let new_tv = offsets_view(terms@);
                    lemma_trunc32_usize(i);
                    assert(new_tv =~~= old_tv.insert(
                        k as int,
                        (token@, seq![trunc32(i as int)]),
                    ));
                    // the token comes strictly before every key at or past the
                    // stopping point
                    assert forall|j: int| k <= j < old_tv.len() implies lex_lt(
                        encode_utf8(token@),
                        encode_utf8((#[trigger] old_tv[j]).0),
                    ) by {
                        assert(lex_lt(encode_utf8(token@), encode_utf8(old_tv[k as int].0)));
                        if j > k {
                            assert(lex_lt(
                                encode_utf8(old_tv[k as int].0),
                                encode_utf8(old_tv[j].0),
                            ));
                            lemma_lex_le_transitive(
                                encode_utf8(token@),
                                encode_utf8(old_tv[k as int].0),
                                encode_utf8(old_tv[j].0),
                            );
                            if encode_utf8(token@) == encode_utf8(old_tv[j].0) {
                                lemma_lex_le_antisymmetric(
                                    encode_utf8(old_tv[k as int].0),
                                    encode_utf8(old_tv[j].0),
                                );
                            }
                        }
                    }
                    // so no key equals the token
                    assert forall|j: int| 0 <= j < old_tv.len() implies (#[trigger] old_tv[j]).0
                        != token@ by {
                        if old_tv[j].0 == token@ {
                            assert(encode_utf8(old_tv[j].0) == encode_utf8(token@));
                        }
                    }
                    lemma_term_index(old_tv, token@);
                    assert(!contains_term(old_tv, token@));
                    assert(!toks.take(i as int).contains(token@));
                    lemma_token_offsets_absent(toks.take(i as int), token@);
                    // sortedness of the extended map
                    assert forall|x: int, y: int| 0 <= x < y < new_tv.len() implies lex_lt(
                        encode_utf8((#[trigger] new_tv[x]).0),
                        encode_utf8((#[trigger] new_tv[y]).0),
                    ) by {
                        if y < k {
                            assert(new_tv[x] == old_tv[x] && new_tv[y] == old_tv[y]);
                        } else if y == k {
                            assert(new_tv[x] == old_tv[x]);
                            assert(lex_lt(encode_utf8(old_tv[x].0), encode_utf8(token@)));
                        } else if x == k {
                            assert(new_tv[y] == old_tv[y - 1]);
                            assert(k <= y - 1 < old_tv.len());
                        } else if x < k {
                            assert(new_tv[x] == old_tv[x] && new_tv[y] == old_tv[y - 1]);
                            assert(x < y - 1 || x == y - 1);
                            assert(x != y - 1);
                            assert(lex_lt(encode_utf8(old_tv[x].0), encode_utf8(old_tv[y - 1].0)));
                        } else {
                            assert(x > k);
                            assert(new_tv[x] == old_tv[x - 1] && new_tv[y] == old_tv[y - 1]);
                        }
                    }
                }
            }
            proof {
                let new_tv = offsets_view(terms@);
                let tks = toks.take(i as int);
                let tks1 = toks.take(i as int + 1);
                assert(tks1.drop_last() =~= tks);
                assert(tks1.last() == toks[i as int]);
                // the key set after this token
                assert forall|t: Seq<char>| contains_term(new_tv, t) == tks1.contains(t) by {
                    lemma_contains_take_succ(toks, i as int, t);
                    lemma_term_index(new_tv, t);
                    lemma_term_index(old_tv, t);
                    if contains_term(old_tv, t) {
                        let w = term_index_witness(old_tv, t);
                        if found {
                            assert(new_tv[w].0 == t);
                        } else {
                            if w < k {
                                assert(new_tv[w].0 == t);
                            } else {
                                assert(new_tv[w + 1].0 == t);
                            }
                        }
                        assert(contains_term(new_tv, t));
                    }
                    if t == toks[i as int] {
                        if found {
                            assert(new_tv[k as int].0 == t);
                        } else {
                            assert(new_tv[k as int].0 == t);
                        }
                        assert(contains_term(new_tv, t));
                    }
                    if contains_term(new_tv, t) {
                        let w = term_index_witness(new_tv, t);
                        if found {
                            assert(old_tv[w].0 == t);
                            assert(contains_term(old_tv, t));
                        } else {
                            if w == k {
                                assert(t == toks[i as int]);
                            } else if w < k {
                                assert(old_tv[w].0 == t);
                                assert(contains_term(old_tv, t));
                            } else {
                                assert(old_tv[w - 1].0 == t);
                                assert(contains_term(old_tv, t));
                            }
                        }
                    }
                }
                // the recorded offsets after this token
                assert forall|j: int| 0 <= j < new_tv.len() implies (#[trigger] new_tv[j]).1
                    == token_offsets(tks1, new_tv[j].0) by {
                    if new_tv[j].0 == toks[i as int] {
                        assert(token_offsets(tks1, new_tv[j].0) == token_offsets(
                            tks,
                            new_tv[j].0,
                        ).push(trunc32(i as int)));
                        if found {
                            assert(j == k) by {
                                if j != k {
                                    assert(lex_lt(
                                        encode_utf8(new_tv[j].0),
                                        encode_utf8(new_tv[j].0),
                                    ));
                                }
                            }
                        } else {
                            assert(j == k) by {
                                if j != k {
                                    assert(lex_lt(
                                        encode_utf8(new_tv[j].0),
                                        encode_utf8(new_tv[j].0),
                                    ));
                                }
                            }
                            assert(token_offsets(tks, toks[i as int])
                                == Seq::<u32>::empty());
                            assert(Seq::<u32>::empty().push(trunc32(i as int)) =~= seq![
                                trunc32(i as int),
                            ]);
                        }
                    } else {
                        assert(token_offsets(tks1, new_tv[j].0) == token_offsets(
                            tks,
                            new_tv[j].0,
                        ));
                        if found {
                            assert(new_tv[j] == old_tv[j]);
                        } else {
                            if j < k {
                                assert(new_tv[j] == old_tv[j]);
                            } else {
                                assert(j != k);
                                assert(new_tv[j] == old_tv[j - 1]);
                            }
                        }
                    }
                }
            }
            i = i + 1;
        }
        proof {
            assert(toks.take(i as int) =~= toks);
            assert(forall|t: Seq<char>|
                contains_term(offsets_view(terms@), t) == toks.contains(t));
            assert(forall|j: int|
                0 <= j < terms@.len() ==> (#[trigger] offsets_view(terms@)[j]).1 == token_offsets(
                    toks,
                    offsets_view(terms@)[j].0,
                ));
        }
        // encode each term's offsets into its single hit record
        let mut map: Vec<(String, Vec<Hit>)> = Vec::new();
        let ghost tv = offsets_view(terms@);
        let mut k: usize = 0;
        while k < terms.len()
            invariant
                k <= terms@.len(),
                tv == offsets_view(terms@),
                document_hash@.len() == 32,
                map@.len() == k,
                forall|j: int|
                    0 <= j < k ==> (#[trigger] index_map_view(map@)[j]) == (
                        tv[j].0,
                        seq![hit_bytes(document_hash@, tv[j].1)],
                    ),
            decreases terms@.len() - k,
        {
            let pair: &(String, Vec<u32>) = &terms[k];
            let term_copy = pair.0.clone();
            let mut hit: Vec<u8> = Vec::new();
            hit.extend_from_slice(document_hash);
            let mut cnt_bytes = u32_to_le_bytes(#[verifier::truncate] (pair.1.len() as u32));
            hit.append(&mut cnt_bytes);
            proof {
                lemma_trunc32_usize(pair.1.len());
                assert(pair.1@.take(0) =~= Seq::<u32>::empty());
                assert(le_offsets(Seq::<u32>::empty()) =~= Seq::<u8>::empty());
                assert(hit@ =~= document_hash@ + vstd::bytes::spec_u32_to_le_bytes(
                    trunc32(pair.1@.len() as int),
                ) + le_offsets(pair.1@.take(0)));
            }
            let mut j: usize = 0;
            while j < pair.1.len()
                invariant
                    j <= pair.1@.len(),
                    document_hash@.len() == 32,
                    hit@ == document_hash@ + vstd::bytes::spec_u32_to_le_bytes(
                        trunc32(pair.1@.len() as int),
                    ) + le_offsets(pair.1@.take(j as int)),
                decreases pair.1@.len() - j,
            {
                let mut ob = u32_to_le_bytes(pair.1[j]);
                hit.append(&mut ob);
                proof {
                    assert(pair.1@.take(j as int + 1) =~= pair.1@.take(j as int).push(
                        pair.1@[j as int],
                    ));
                    lemma_le_offsets_push(pair.1@.take(j as int), pair.1@[j as int]);
                }
                j = j + 1;
            }
            proof {
                assert(pair.1@.take(pair.1@.len() as int) =~= pair.1@);
                assert(hit@ == hit_bytes(document_hash@, pair.1@));
                assert(tv[k as int] == (pair.0@, pair.1@));
            }
            let mut hits: Vec<Hit> = Vec::new();
            let ghost hit_view = hit@;
            hits.push(hit);
            let ghost old_map_seq = map@;
            map.push((term_copy, hits));
            proof {
                assert(hits@.len() == 1);
                assert(hits@[0]@ == hit_view);
                assert(hits.deep_view() =~~= seq![hit_view]);
                assert(index_map_view(map@) =~~= index_map_view(old_map_seq).push(
                    (term_copy@, hits.deep_view()),
                ));
                assert(index_map_view(map@)[k as int] == (
                    tv[k as int].0,
                    seq![hit_bytes(document_hash@, tv[k as int].1)],
                ));
            }
            k = k + 1;
        }
        let r = InMemoryIndex { word_count: tokens.len(), map };
        proof {
            assert(r.map_view().len() == tv.len());
            if text@.len() == 0 {
                if tv.len() > 0 {
                    assert(term_index(tv, tv[0].0) == 0);
                    assert(contains_term(tv, tv[0].0));
                    assert(toks.contains(tv[0].0));
                }
                assert(r.map_view() =~= Seq::<(Seq<char>, Seq<Seq<u8>>)>::empty());
            }
            assert forall|j: int| 0 <= j < r.map_view().len() implies (#[trigger] r.map_view()[j])
                == (tv[j].0, seq![hit_bytes(document_hash@, tv[j].1)]) by {
                assert(index_map_view(map@)[j] == (
                    tv[j].0,
                    seq![hit_bytes(document_hash@, tv[j].1)],
                ));
            }
            assert forall|t: Seq<char>| contains_term(r.map_view(), t) == toks.contains(t) by {
                lemma_term_index(r.map_view(), t);
                lemma_term_index(tv, t);
                assert(contains_term(tv, t) == toks.contains(t));
                if contains_term(tv, t) {
                    let w = term_index_witness(tv, t);
                    assert(r.map_view()[w].0 == t);
                }
                if contains_term(r.map_view(), t) {
                    let w = term_index_witness(r.map_view(), t);
                    assert(tv[w].0 == t);
                }
            }
            assert forall|x: int, y: int| 0 <= x < y < r.map_view().len() implies lex_lt(
                encode_utf8((#[trigger] r.map_view()[x]).0),
                encode_utf8((#[trigger] r.map_view()[y]).0),
            ) by {
                assert(r.map_view()[x].0 == tv[x].0 && r.map_view()[y].0 == tv[y].0);
                assert(lex_lt(encode_utf8(tv[x].0), encode_utf8(tv[y].0)));
            }
            assert forall|j: int| 0 <= j < r.map_view().len() implies (#[trigger] r.map_view()[j]).1
                == seq![hit_bytes(document_hash@, token_offsets(toks, r.map_view()[j].0))] by {
                assert(tv[j].1 == token_offsets(toks, tv[j].0));
            }
        }
        r
    }

    /// Add all search hits from `other` to this index: for every term, the
    /// hit lists are concatenated (this index's hits first, `other`'s after),
    /// and the word counts are added. Nothing is re-sorted within a term: if
    /// both indexes are sorted by document id and all of `other`'s document
    /// ids are greater than every document id here, the result remains sorted
    /// by document id.
    pub fn merge(&mut self, other: InMemoryIndex)
        requires
            old(self).wf(),
            other.wf(),
            old(self).word_count + other.word_count <= usize::MAX,
        ensures
            final(self).wf(),
            final(self).word_count == old(self).word_count + other.word_count,
            forall|t: Seq<char>|
                contains_term(final(self).map_view(), t) == (contains_term(
                    old(self).map_view(),
                    t,
                ) || contains_term(other.map_view(), t)),
            forall|t: Seq<char>|
                hits_of(final(self).map_view(), t) == hits_of(old(self).map_view(), t) + hits_of(
                    other.map_view(),
                    t,
                ),
    {
        let ghost self0 = old(self).map_view();
        let ghost otherv = other.map_view();
        let other_count = other.word_count;
        let mut rest = other.map;
        let ghost mut consumed: int = 0;
        proof {
            assert(index_map_view(rest@) =~= otherv.skip(0));
            assert(otherv.take(0) =~= Seq::<(Seq<char>, Seq<Seq<u8>>)>::empty());
            assert forall|t: Seq<char>|
                hits_of(index_map_view(self.map@), t) =~= hits_of(self0, t) + hits_of(
                    otherv.take(0),
                    t,
                ) by {
                lemma_term_index(otherv.take(0), t);
            }
        }
        while rest.len() > 0
            invariant
                0 <= consumed <= otherv.len(),
                index_map_view(rest@) == otherv.skip(consumed),
                terms_sorted(otherv),
                terms_sorted(index_map_view(self.map@)),
                forall|t: Seq<char>|
                    contains_term(index_map_view(self.map@), t) == (contains_term(self0, t)
                        || contains_term(otherv.take(consumed), t)),
                forall|t: Seq<char>|
                    hits_of(index_map_view(self.map@), t) == hits_of(self0, t) + hits_of(
                        otherv.take(consumed),
                        t,
                    ),
                self.word_count == old(self).word_count,
            decreases rest@.len(),
        {
            let ghost cur = index_map_view(self.map@);
            let ghost before = rest@;
            let pair = rest.remove(0);
            proof {
                assert(index_map_view(before).len() == before.len());
                assert(consumed < otherv.len());
                assert forall|d: int| 0 <= d < rest@.len() implies #[trigger] index_map_view(
                    rest@,
                )[d] == index_map_view(before)[d + 1] by {
                    assert(rest@[d] == before[d + 1]);
                }
                assert(index_map_view(rest@) =~= otherv.skip(consumed + 1));
                assert((pair.0@, pair.1.deep_view()) == index_map_view(before)[0]);
                assert(index_map_view(before)[0] == otherv.skip(consumed)[0]);
                assert((pair.0@, pair.1.deep_view()) == otherv[consumed]);
            }
            let (term, hits) = pair;
            let ghost hits_view = hits.deep_view();
            upsert(&mut self.map, term, hits);
            proof {
                let new_cur = index_map_view(self.map@);
                let tks = otherv.take(consumed);
                let tks1 = otherv.take(consumed + 1);
                assert(tks1 =~= tks + seq![otherv[consumed]]);
                assert forall|t: Seq<char>|
                    contains_term(new_cur, t) == (contains_term(self0, t) || contains_term(
                        tks1,
                        t,
                    )) by {
                    lemma_hits_of_concat(tks, seq![otherv[consumed]], t);
                    lemma_hits_of_singleton(otherv[consumed], t);
                }
                assert forall|t: Seq<char>|
                    hits_of(new_cur, t) == hits_of(self0, t) + hits_of(tks1, t) by {
                    lemma_hits_of_concat(tks, seq![otherv[consumed]], t);
                    lemma_hits_of_singleton(otherv[consumed], t);
                    if t == otherv[consumed].0 {
                        // other's keys are distinct, so this term was not
                        // consumed yet
                        lemma_term_index(tks, t);
                        if contains_term(tks, t) {
                            let w = term_index_witness(tks, t);
                            assert(otherv[w].0 == t);
                            assert(lex_lt(encode_utf8(otherv[w].0), encode_utf8(t)));
                        }
                        assert(hits_of(tks1, t) =~= hits_of(tks, t) + hits_view);
                        assert(hits_of(new_cur, t) =~= (hits_of(self0, t) + hits_of(tks, t))
                            + hits_view);
                        assert((hits_of(self0, t) + hits_of(tks, t)) + hits_view =~= hits_of(
                            self0,
                            t,
                        ) + (hits_of(tks, t) + hits_view));
                    } else {
                        assert(hits_of(tks1, t) == hits_of(tks, t));
                    }
                }
                consumed = consumed + 1;
            }
        }
        proof {
            assert(otherv.take(consumed) =~= otherv);
        }
        self.word_count = self.word_count + other_count;
    }

    /// True if this index contains no data.
    pub fn is_empty(&self) -> (r: bool)
        ensures
            r == (self.word_count == 0),
    {
        self.word_count == 0
    }

    /// True if this index is large enough that it should be spilled to disk
    /// rather than grown further in memory.
    pub fn is_large(&self) -> (r: bool)
        ensures
            r == (self.word_count > REASONABLE_SIZE),
    {
        self.word_count > REASONABLE_SIZE
    }
}

/// Append `hits` to the hit list recorded for `term` in a sorted map,
/// creating the entry at its sorted position if the term is new.
fn upsert(map: &mut Vec<(String, Vec<Hit>)>, term: String, hits: Vec<Hit>)
    requires
        terms_sorted(index_map_view(old(map)@)),
    ensures
        terms_sorted(index_map_view(final(map)@)),
        forall|t: Seq<char>|
            contains_term(index_map_view(final(map)@), t) == (contains_term(
                index_map_view(old(map)@),
                t,
            ) || t == term@),
        hits_of(index_map_view(final(map)@), term@) == hits_of(index_map_view(old(map)@), term@)
            + hits.deep_view(),
        forall|t: Seq<char>|
            t != term@ ==> hits_of(index_map_view(final(map)@), t) == hits_of(
                index_map_view(old(map)@),
                t,
            ),
{
    let ghost old_mv = index_map_view(map@);
    let ghost hv = hits.deep_view();
    let mut k: usize = 0;
    let mut found = false;
    let mut past = false;
    while k < map.len() && !found && !past
        invariant
            k <= map@.len(),
            old_mv == index_map_view(map@),
            forall|j: int|
                0 <= j < k ==> lex_lt(encode_utf8((#[trigger] old_mv[j]).0), encode_utf8(term@)),
            found ==> k < map@.len() && old_mv[k as int].0 == term@,
            past ==> k < map@.len() && lex_lt(
                encode_utf8(term@),
                encode_utf8(old_mv[k as int].0),
            ),
        decreases map@.len() - k + (if found || past { 0int } else { 1int }),
    {
        proof {
            assert(old_mv[k as int].0 == map@[k as int].0@);
        }
        let pair_ref: &(String, Vec<Hit>) = &map[k];
        let c = str_cmp(pair_ref.0.as_str(), term.as_str());
        if c == 1 {
            found = true;
        } else if c == 0 {
            k = k + 1;
        } else {
            past = true;
        }
    }
    proof {
        // every key before the stopping point differs from the term
        assert forall|j: int| 0 <= j < k implies (#[trigger] old_mv[j]).0 != term@ by {
            if old_mv[j].0 == term@ {
                assert(encode_utf8(old_mv[j].0) == encode_utf8(term@));
            }
        }
    }
    if found {
        let mut pair = map.remove(k);
        let mut more = hits;
        pair.1.append(&mut more);
        map.insert(k, pair);
        proof {
            let new_mv = index_map_view(map@);
            let a = old_mv.take(k as int);
            let b = old_mv.skip(k as int + 1);
            let oldp = old_mv[k as int];
            let newp = (oldp.0, oldp.1 + hv);
            assert(new_mv =~~= old_mv.update(k as int, newp));
            assert(old_mv =~= a + (seq![oldp] + b));
            assert(new_mv =~= a + (seq![newp] + b));
            // the keys are unchanged, so sortedness carries over
            assert forall|x: int, y: int| 0 <= x < y < new_mv.len() implies lex_lt(
                encode_utf8((#[trigger] new_mv[x]).0),
                encode_utf8((#[trigger] new_mv[y]).0),
            ) by {
                assert(new_mv[x].0 == old_mv[x].0 && new_mv[y].0 == old_mv[y].0);
            }
            assert forall|t: Seq<char>|
                contains_term(new_mv, t) == (contains_term(old_mv, t) || t == term@) by {
                lemma_hits_of_concat(a, seq![oldp] + b, t);
                lemma_hits_of_concat(seq![oldp], b, t);
                lemma_hits_of_concat(a, seq![newp] + b, t);
                lemma_hits_of_concat(seq![newp], b, t);
                lemma_hits_of_singleton(oldp, t);
                lemma_hits_of_singleton(newp, t);
            }
            assert forall|t: Seq<char>|
                #![trigger hits_of(new_mv, t)]
                (t == term@ ==> hits_of(new_mv, t) == hits_of(old_mv, t) + hv) && (t != term@
                    ==> hits_of(new_mv, t) == hits_of(old_mv, t)) by {
                lemma_hits_of_concat(a, seq![oldp] + b, t);
                lemma_hits_of_concat(seq![oldp], b, t);
                lemma_hits_of_concat(a, seq![newp] + b, t);
                lemma_hits_of_concat(seq![newp], b, t);
                lemma_hits_of_singleton(oldp, t);
                lemma_hits_of_singleton(newp, t);
                if t == term@ {
                    lemma_term_index(a, t);
                    if contains_term(a, t) {
                        let w = term_index_witness(a, t);
                        assert(old_mv[w].0 == t);
                    }
                    assert(!contains_term(a, t));
                    assert(hits_of(new_mv, t) == hits_of(old_mv, t) + hv);
                }
            }
        }
    } else {
        map.insert(k, (term, hits));
        proof {
            let new_mv = index_map_view(map@);
            let a = old_mv.take(k as int);
            let b = old_mv.skip(k as int);
            let newp = (term@, hv);
            assert(new_mv =~~= old_mv.insert(k as int, newp));
            assert(old_mv =~= a + b);
            assert(new_mv =~= a + (seq![newp] + b));
            // the term comes strictly before every key at or past the
            // stopping point
            assert forall|j: int| k <= j < old_mv.len() implies lex_lt(
                encode_utf8(term@),
                encode_utf8((#[trigger] old_mv[j]).0),
            ) by {
                assert(lex_lt(encode_utf8(term@), encode_utf8(old_mv[k as int].0)));
                if j > k {
                    assert(lex_lt(encode_utf8(old_mv[k as int].0), encode_utf8(old_mv[j].0)));
                    lemma_lex_le_transitive(
                        encode_utf8(term@),
                        encode_utf8(old_mv[k as int].0),
                        encode_utf8(old_mv[j].0),
                    );
                    if encode_utf8(term@) == encode_utf8(old_mv[j].0) {
                        lemma_lex_le_antisymmetric(
                            encode_utf8(old_mv[k as int].0),
                            encode_utf8(old_mv[j].0),
                        );
                    }
                }
            }
            assert forall|j: int| 0 <= j < old_mv.len() implies (#[trigger] old_mv[j]).0 != term@
                by {
                if old_mv[j].0 == term@ {
                    assert(encode_utf8(old_mv[j].0) == encode_utf8(term@));
                }
            }
            // sortedness of the extended map
            assert forall|x: int, y: int| 0 <= x < y < new_mv.len() implies lex_lt(
                encode_utf8((#[trigger] new_mv[x]).0),
                encode_utf8((#[trigger] new_mv[y]).0),
            ) by {
                if y < k {
                    assert(new_mv[x] == old_mv[x] && new_mv[y] == old_mv[y]);
                } else if y == k {
                    assert(new_mv[x] == old_mv[x]);
                    assert(lex_lt(encode_utf8(old_mv[x].0), encode_utf8(term@)));
                } else if x == k {
                    assert(new_mv[y] == old_mv[y - 1]);
                    assert(k <= y - 1 < old_mv.len());
                } else if x < k {
                    assert(new_mv[x] == old_mv[x] && new_mv[y] == old_mv[y - 1]);
                    assert(x != y - 1);
                    assert(lex_lt(encode_utf8(old_mv[x].0), encode_utf8(old_mv[y - 1].0)));
                } else {
                    assert(x > k);
                    assert(new_mv[x] == old_mv[x - 1] && new_mv[y] == old_mv[y - 1]);
                }
            }
            assert forall|t: Seq<char>|
                contains_term(new_mv, t) == (contains_term(old_mv, t) || t == term@) by {
                lemma_hits_of_concat(a, b, t);
                lemma_hits_of_concat(a, seq![newp] + b, t);
                lemma_hits_of_concat(seq![newp], b, t);
                lemma_hits_of_singleton(newp, t);
            }
            assert forall|t: Seq<char>|
                #![trigger hits_of(new_mv, t)]
                (t == term@ ==> hits_of(new_mv, t) == hits_of(old_mv, t) + hv) && (t != term@
                    ==> hits_of(new_mv, t) == hits_of(old_mv, t)) by {
                lemma_hits_of_concat(a, b, t);
                lemma_hits_of_concat(a, seq![newp] + b, t);
                lemma_hits_of_concat(seq![newp], b, t);
                lemma_hits_of_singleton(newp, t);
                if t == term@ {
                    lemma_term_index(a, t);
                    if contains_term(a, t) {
                        let w = term_index_witness(a, t);
                        assert(old_mv[w].0 == t);
                    }
                    lemma_term_index(b, t);
                    if contains_term(b, t) {
                        let w = term_index_witness(b, t);
                        assert(old_mv[w + k].0 == t);
                    }
                    assert(hits_of(old_mv, t) =~= Seq::<Seq<u8>>::empty());
                    assert(hits_of(new_mv, t) =~= hits_of(old_mv, t) + hv);
                }
            }
        }
    }
}

/// The spill threshold: how many words an in-memory index may accumulate
/// before `is_large` advises writing it out. (What is reasonable depends on
/// how much memory the machine has, of course.)
pub const REASONABLE_SIZE: usize = 100_000_000;

/// A document, identified by the 32-byte content hash of its full text
/// rather than by name or path: identical content always has the same
/// identity, wherever it came from.
#[derive(Debug, PartialEq, Eq)]
pub struct Doc {
    /// The content hash.
    pub hash: Vec<u8>,
}

impl Doc {
    /// Wrap a content hash.
    pub fn new(hash: &[u8]) -> (r: Doc)
        ensures
            r.hash@ == hash@,
    {
        Doc { hash: slice_to_vec(hash) }
    }
}

/// The word offsets at which one term occurs within one document.
pub type Offsets = Vec<u32>;

/// The documents that contain one term, each with that term's offsets, in the
/// order their hit records were stored.
pub type DocEntry = Vec<(Doc, Offsets)>;

/// A fully decoded index file: the form the query path reads.
///
/// Its `word_count` counts table-of-contents records (one per term), not
/// tokens: the in-memory builder and the decoder each keep their own literal
/// counting rule under this name.
#[derive(Debug)]
pub struct ParsedIndex {
    /// The number of table-of-contents records decoded.
    pub word_count: usize,
    /// term → documents → offsets, in table-of-contents order.
    pub map: Vec<(String, DocEntry)>,
}

} // verus!
