//! The mathematical model of the index file format.
//!
//! An index file image is `8-byte header ++ data region ++ table of contents`.
//! The header holds the byte offset of the table of contents, little-endian.
//! The data region is a concatenation of hit records; the table of contents is
//! a concatenation of per-term records. Everything in this module is
//! specification-level: the executable writer and readers are specified
//! against these functions.

use vstd::prelude::*;
use vstd::bytes::{spec_u32_to_le_bytes, spec_u32_from_le_bytes, spec_u64_to_le_bytes,
    spec_u64_from_le_bytes, lemma_auto_spec_u32_to_from_le_bytes,
    lemma_auto_spec_u64_to_from_le_bytes};
use vstd::utf8::{encode_utf8, decode_utf8, valid_utf8, encode_utf8_valid_utf8,
    encode_utf8_decode_utf8};

verus! {

// ───── Byte-lexicographic order on byte sequences ─────
//
// Terms are kept sorted by the lexicographic order of their UTF-8 encodings,
// which is the order comparing Rust `String`s gives.

/// `a` is lexicographically at or before `b`.
pub open spec fn lex_le(a: Seq<u8>, b: Seq<u8>) -> bool
    decreases a.len(),
{
    if a.len() == 0 {
        true
    } else if b.len() == 0 {
        false
    } else if a[0] < b[0] {
        true
    } else if a[0] > b[0] {
        false
    } else {
        lex_le(a.drop_first(), b.drop_first())
    }
}

/// The order is total: two sequences always compare one way or the other.
pub proof fn lemma_lex_le_total(a: Seq<u8>, b: Seq<u8>)
    ensures
        lex_le(a, b) || lex_le(b, a),
    decreases a.len(),
{
    if a.len() != 0 && b.len() != 0 && a[0] == b[0] {
        lemma_lex_le_total(a.drop_first(), b.drop_first());
    }
}

/// The order is antisymmetric: mutual `lex_le` means equality.
pub proof fn lemma_lex_le_antisymmetric(a: Seq<u8>, b: Seq<u8>)
    requires
        lex_le(a, b),
        lex_le(b, a),
    ensures
        a == b,
    decreases a.len(),
{
    if a.len() == 0 {
        assert(b.len() == 0);
        assert(a =~= b);
    } else {
        assert(b.len() != 0);
        assert(a[0] == b[0]);
        lemma_lex_le_antisymmetric(a.drop_first(), b.drop_first());
        assert(a =~= seq![a[0]] + a.drop_first());
        assert(b =~= seq![b[0]] + b.drop_first());
    }
}

/// The order is transitive.
pub proof fn lemma_lex_le_transitive(a: Seq<u8>, b: Seq<u8>, c: Seq<u8>)
    requires
        lex_le(a, b),
        lex_le(b, c),
    ensures
        lex_le(a, c),
    decreases a.len(),
{
    if a.len() != 0 && b.len() != 0 && c.len() != 0 && a[0] == b[0] && b[0] == c[0] {
        lemma_lex_le_transitive(a.drop_first(), b.drop_first(), c.drop_first());
    }
}

/// `a` is lexicographically strictly before `b`.
pub open spec fn lex_lt(a: Seq<u8>, b: Seq<u8>) -> bool {
    lex_le(a, b) && a != b
}

/// Equal prefixes do not influence the order: it is decided by the rest.
pub proof fn lemma_lex_le_skip(a: Seq<u8>, b: Seq<u8>, i: int)
    requires
        0 <= i <= a.len(),
        i <= b.len(),
        forall|d: int| 0 <= d < i ==> a[d] == b[d],
    ensures
        lex_le(a, b) == lex_le(a.skip(i), b.skip(i)),
    decreases i,
{
    if i == 0 {
        assert(a.skip(0) =~= a);
        assert(b.skip(0) =~= b);
    } else {
        assert(a[0] == b[0]);
        lemma_lex_le_skip(a.drop_first(), b.drop_first(), i - 1);
        assert(a.drop_first().skip(i - 1) =~= a.skip(i));
        assert(b.drop_first().skip(i - 1) =~= b.skip(i));
    }
}

/// Three-way lexicographic comparison of byte slices: `0` when `a` comes
/// first, `1` when they are equal, `2` when `b` comes first.
pub fn bytes_cmp(a: &[u8], b: &[u8]) -> (r: u8)
    ensures
        r == 0 || r == 1 || r == 2,
        (r == 1) <==> a@ == b@,
        (r == 0) <==> lex_lt(a@, b@),
        (r == 2) <==> lex_lt(b@, a@),
{
    proof {
        lemma_lex_le_total(a@, b@);
        if lex_le(a@, b@) && lex_le(b@, a@) {
            lemma_lex_le_antisymmetric(a@, b@);
        }
    }
    let alen = a.len();
    let blen = b.len();
    let mut i: usize = 0;
    while i < alen && i < blen
        invariant
            i <= alen,
            i <= blen,
            alen == a@.len(),
            blen == b@.len(),
            forall|d: int| 0 <= d < i ==> a@[d] == b@[d],
        decreases alen - i,
    {
        let x = a[i];
        let y = b[i];
        if x < y {
            proof {
                lemma_lex_le_skip(a@, b@, i as int);
                assert(lex_le(a@, b@));
                assert(a@[i as int] != b@[i as int]);
                if lex_le(b@, a@) {
                    lemma_lex_le_antisymmetric(a@, b@);
                }
            }
            return 0;
        }
        if y < x {
            proof {
                lemma_lex_le_skip(b@, a@, i as int);
                assert(lex_le(b@, a@));
                assert(a@[i as int] != b@[i as int]);
                if lex_le(a@, b@) {
                    lemma_lex_le_antisymmetric(a@, b@);
                }
            }
            return 2;
        }
        i = i + 1;
    }
    if alen == blen {
        proof {
            assert(a@ =~= b@);
        }
        1
    } else if alen < blen {
        proof {
            lemma_lex_le_skip(a@, b@, i as int);
            assert(a@.skip(i as int) =~= Seq::<u8>::empty());
            assert(lex_le(a@, b@));
            assert(a@.len() != b@.len());
            if lex_le(b@, a@) {
                lemma_lex_le_antisymmetric(a@, b@);
            }
        }
        0
    } else {
        proof {
            lemma_lex_le_skip(b@, a@, i as int);
            assert(b@.skip(i as int) =~= Seq::<u8>::empty());
            assert(lex_le(b@, a@));
            assert(a@.len() != b@.len());
            if lex_le(a@, b@) {
                lemma_lex_le_antisymmetric(a@, b@);
            }
        }
        2
    }
}

/// Three-way comparison of strings by the lexicographic order of their UTF-8
/// encodings (equal encodings mean equal strings): `0` when `a` comes first,
/// `1` when they are equal, `2` when `b` comes first.
pub fn str_cmp(a: &str, b: &str) -> (r: u8)
    ensures
        r == 0 || r == 1 || r == 2,
        (r == 1) <==> a@ == b@,
        (r == 0) <==> lex_lt(encode_utf8(a@), encode_utf8(b@)),
        (r == 2) <==> lex_lt(encode_utf8(b@), encode_utf8(a@)),
{
    let r = bytes_cmp(a.as_bytes(), b.as_bytes());
    proof {
        if encode_utf8(a@) == encode_utf8(b@) {
            encode_utf8_decode_utf8(a@);
            encode_utf8_decode_utf8(b@);
        }
    }
    r
}

// ───── Association lists keyed by term ─────
//
// In-memory indexes and decoded indexes map terms to values. They are held as
// vectors of pairs whose keys are distinct and sorted; these functions give
// the lookup model.

/// The position of the entry for term `t`, or `-1` if there is none.
pub open spec fn term_index<V>(m: Seq<(Seq<char>, V)>, t: Seq<char>) -> int
    decreases m.len(),
{
    if m.len() == 0 {
        -1
    } else if m[0].0 == t {
        0
    } else {
        let r = term_index(m.drop_first(), t);
        if r < 0 {
            -1
        } else {
            1 + r
        }
    }
}

/// Whether some entry is keyed by term `t`.
pub open spec fn contains_term<V>(m: Seq<(Seq<char>, V)>, t: Seq<char>) -> bool {
    term_index(m, t) >= 0
}

/// What `term_index` finds is an entry for `t`; when it finds none, no entry
/// is keyed by `t`.
pub proof fn lemma_term_index<V>(m: Seq<(Seq<char>, V)>, t: Seq<char>)
    ensures
        -1 <= term_index(m, t) < m.len(),
        term_index(m, t) >= 0 ==> m[term_index(m, t)].0 == t,
        term_index(m, t) < 0 ==> forall|i: int| 0 <= i < m.len() ==> (#[trigger] m[i]).0 != t,
    decreases m.len(),
{
    if m.len() != 0 && m[0].0 != t {
        lemma_term_index(m.drop_first(), t);
        assert(forall|i: int|
            1 <= i < m.len() ==> (#[trigger] m[i]) == m.drop_first()[i - 1]);
    }
}

/// A position holding term `t`, for a map that contains it.
pub proof fn term_index_witness<V>(m: Seq<(Seq<char>, V)>, t: Seq<char>) -> (w: int)
    requires
        contains_term(m, t),
    ensures
        0 <= w < m.len(),
        m[w].0 == t,
{
    lemma_term_index(m, t);
    term_index(m, t)
}

/// The hit lists recorded for term `t`, or the empty sequence if the term is
/// absent.
pub open spec fn hits_of(m: Seq<(Seq<char>, Seq<Seq<u8>>)>, t: Seq<char>) -> Seq<Seq<u8>> {
    if term_index(m, t) >= 0 {
        m[term_index(m, t)].1
    } else {
        seq![]
    }
}

/// Looking a term up in a concatenation looks in the front part first.
pub proof fn lemma_hits_of_concat(a: Seq<(Seq<char>, Seq<Seq<u8>>)>, b: Seq<(Seq<char>, Seq<Seq<u8>>)>, t: Seq<char>)
    ensures
        hits_of(a + b, t) == if contains_term(a, t) {
            hits_of(a, t)
        } else {
            hits_of(b, t)
        },
        contains_term(a + b, t) == (contains_term(a, t) || contains_term(b, t)),
    decreases a.len(),
{
    if a.len() == 0 {
        assert(a + b =~= b);
    } else {
        assert((a + b).drop_first() =~= a.drop_first() + b);
        lemma_hits_of_concat(a.drop_first(), b, t);
        lemma_term_index(a.drop_first() + b, t);
        lemma_term_index(a.drop_first(), t);
        lemma_term_index(b, t);
    }
}

/// Looking a term up in a one-entry map.
pub proof fn lemma_hits_of_singleton(p: (Seq<char>, Seq<Seq<u8>>), t: Seq<char>)
    ensures
        hits_of(seq![p], t) == if p.0 == t {
            p.1
        } else {
            Seq::<Seq<u8>>::empty()
        },
        contains_term(seq![p], t) == (p.0 == t),
{
    assert(seq![p].drop_first() =~= Seq::<(Seq<char>, Seq<Seq<u8>>)>::empty());
    assert(term_index(Seq::<(Seq<char>, Seq<Seq<u8>>)>::empty(), t) == -1);
    assert(term_index(seq![p], t) == if p.0 == t {
        0int
    } else {
        -1int
    });
}

/// Sorted and therefore distinct keys: every earlier term's encoding comes
/// strictly before every later one's.
pub open spec fn terms_sorted<V>(m: Seq<(Seq<char>, V)>) -> bool {
    forall|i: int, j: int|
        0 <= i < j < m.len() ==> lex_lt(
            encode_utf8((#[trigger] m[i]).0),
            encode_utf8((#[trigger] m[j]).0),
        )
}

// ───── Hit records ─────

/// A count reduced to its 32 low bits, as storing it in a `u32` field does.
pub open spec fn trunc32(n: int) -> u32 {
    (n % 0x1_0000_0000) as u32
}

/// Narrowing a `usize` to `u32` keeps its 32 low bits.
pub proof fn lemma_trunc32_usize(n: usize)
    ensures
        #[verifier::truncate] (n as u32) == trunc32(n as int),
{
    let m = n as u64;
    assert(#[verifier::truncate] (m as u32) == #[verifier::truncate] ((m % 0x1_0000_0000u64)
        as u32)) by (bit_vector);
}

/// The bytes of one hit record: a 32-byte document hash, the number of
/// occurrences as a little-endian `u32`, then that many little-endian `u32`
/// word offsets.
pub open spec fn hit_bytes(doc_hash: Seq<u8>, offsets: Seq<u32>) -> Seq<u8> {
    doc_hash + spec_u32_to_le_bytes(trunc32(offsets.len() as int)) + le_offsets(offsets)
}

/// The concatenated little-endian encodings of a sequence of word offsets.
pub open spec fn le_offsets(offsets: Seq<u32>) -> Seq<u8>
    decreases offsets.len(),
{
    if offsets.len() == 0 {
        seq![]
    } else {
        spec_u32_to_le_bytes(offsets[0]) + le_offsets(offsets.drop_first())
    }
}

pub proof fn lemma_le_offsets_len(offsets: Seq<u32>)
    ensures
        le_offsets(offsets).len() == 4 * offsets.len(),
    decreases offsets.len(),
{
    lemma_auto_spec_u32_to_from_le_bytes();
    if offsets.len() != 0 {
        lemma_le_offsets_len(offsets.drop_first());
    }
}

/// Appending an offset appends its four bytes.
pub proof fn lemma_le_offsets_push(offsets: Seq<u32>, x: u32)
    ensures
        le_offsets(offsets.push(x)) == le_offsets(offsets) + spec_u32_to_le_bytes(x),
    decreases offsets.len(),
{
    lemma_auto_spec_u32_to_from_le_bytes();
    if offsets.len() == 0 {
        assert(offsets.push(x) =~= seq![x]);
        assert(seq![x].drop_first() =~= Seq::<u32>::empty());
        assert(le_offsets(Seq::<u32>::empty()) =~= Seq::<u8>::empty());
        assert(le_offsets(seq![x]) =~= spec_u32_to_le_bytes(x) + le_offsets(seq![x].drop_first()));
        assert(le_offsets(offsets.push(x)) =~= le_offsets(offsets) + spec_u32_to_le_bytes(x));
    } else {
        assert(offsets.push(x)[0] == offsets[0]);
        assert(offsets.push(x).drop_first() =~= offsets.drop_first().push(x));
        lemma_le_offsets_push(offsets.drop_first(), x);
        assert(le_offsets(offsets.push(x)) =~= le_offsets(offsets) + spec_u32_to_le_bytes(x));
    }
}

/// Each offset's four bytes sit at position `4 * i` of the encoding.
pub proof fn lemma_le_offsets_index(offsets: Seq<u32>, i: int)
    requires
        0 <= i < offsets.len(),
    ensures
        le_offsets(offsets).subrange(4 * i, 4 * i + 4) == spec_u32_to_le_bytes(offsets[i]),
    decreases i,
{
    lemma_auto_spec_u32_to_from_le_bytes();
    lemma_le_offsets_len(offsets);
    if i == 0 {
        assert(le_offsets(offsets).subrange(0, 4) =~= spec_u32_to_le_bytes(offsets[0]));
    } else {
        lemma_le_offsets_len(offsets.drop_first());
        lemma_le_offsets_index(offsets.drop_first(), i - 1);
        assert(le_offsets(offsets).subrange(4 * i, 4 * i + 4) =~= le_offsets(
            offsets.drop_first(),
        ).subrange(4 * (i - 1), 4 * (i - 1) + 4));
    }
}

// ───── Table-of-contents records ─────

/// One table-of-contents record, in model form: where a term's hit data sits
/// in the file (`offset`, `nbytes`), how many documents contain the term
/// (`doc_count`), and the term itself.
pub struct EntryModel {
    pub offset: u64,
    pub nbytes: u64,
    pub doc_count: u32,
    pub term: Seq<char>,
}

/// A record can only be encoded if the term's UTF-8 form fits its `u32`
/// length field.
pub open spec fn entry_wf(e: EntryModel) -> bool {
    encode_utf8(e.term).len() <= u32::MAX
}

/// The bytes of one table-of-contents record.
pub open spec fn toc_entry_bytes(e: EntryModel) -> Seq<u8> {
    spec_u64_to_le_bytes(e.offset) + spec_u64_to_le_bytes(e.nbytes) + spec_u32_to_le_bytes(
        e.doc_count,
    ) + spec_u32_to_le_bytes(encode_utf8(e.term).len() as u32) + encode_utf8(e.term)
}

/// The bytes of a whole table of contents.
pub open spec fn toc_bytes(es: Seq<EntryModel>) -> Seq<u8>
    decreases es.len(),
{
    if es.len() == 0 {
        seq![]
    } else {
        toc_entry_bytes(es[0]) + toc_bytes(es.drop_first())
    }
}

/// Parsing a table-of-contents region: `None` means the region is malformed
/// (it ends inside a record, or a term is not valid UTF-8); otherwise the
/// sequence of records it holds. An end exactly at a record boundary is the
/// normal end of the table.
pub open spec fn parse_toc(s: Seq<u8>) -> Option<Seq<EntryModel>>
    decreases s.len(),
{
    if s.len() == 0 {
        Some(seq![])
    } else if s.len() < 24 {
        None
    } else {
        let term_len = spec_u32_from_le_bytes(s.subrange(20, 24)) as int;
        if s.len() < 24 + term_len {
            None
        } else {
            let term_bytes = s.subrange(24, 24 + term_len);
            if !valid_utf8(term_bytes) {
                None
            } else {
                let e = EntryModel {
                    offset: spec_u64_from_le_bytes(s.subrange(0, 8)),
                    nbytes: spec_u64_from_le_bytes(s.subrange(8, 16)),
                    doc_count: spec_u32_from_le_bytes(s.subrange(16, 20)),
                    term: decode_utf8(term_bytes),
                };
                match parse_toc(s.subrange(24 + term_len, s.len() as int)) {
                    None => None,
                    Some(rest) => Some(seq![e] + rest),
                }
            }
        }
    }
}

pub proof fn lemma_toc_bytes_push(es: Seq<EntryModel>, e: EntryModel)
    ensures
        toc_bytes(es.push(e)) == toc_bytes(es) + toc_entry_bytes(e),
    decreases es.len(),
{
    if es.len() == 0 {
        assert(es.push(e) =~= seq![e]);
        assert(seq![e].drop_first() =~= Seq::<EntryModel>::empty());
        assert(toc_bytes(Seq::<EntryModel>::empty()) =~= Seq::<u8>::empty());
        assert(toc_bytes(seq![e]) =~= toc_entry_bytes(e) + toc_bytes(seq![e].drop_first()));
        assert(toc_bytes(es.push(e)) =~= toc_bytes(es) + toc_entry_bytes(e));
    } else {
        assert(es.push(e)[0] == es[0]);
        assert(es.push(e).drop_first() =~= es.drop_first().push(e));
        lemma_toc_bytes_push(es.drop_first(), e);
        assert(toc_bytes(es.push(e)) =~= toc_bytes(es) + toc_entry_bytes(e));
    }
}

/// What each table-of-contents record of a serialized map holds: the term,
/// its truncated document count, and the byte range where its hits sit.
pub proof fn lemma_entries_of_index(m: Seq<(Seq<char>, Seq<Seq<u8>>)>, base: int, j: int)
    requires
        0 <= j < m.len(),
    ensures
        entries_of(m, base).len() == m.len(),
        entries_of(m, base)[j] == (EntryModel {
            offset: (base + data_region(m.take(j)).len()) as u64,
            nbytes: concat_hits(m[j].1).len() as u64,
            doc_count: trunc32(m[j].1.len() as int),
            term: m[j].0,
        }),
    decreases j,
{
    lemma_entries_of_len(m, base);
    if j == 0 {
        assert(m.take(0) =~= Seq::<(Seq<char>, Seq<Seq<u8>>)>::empty());
        assert(data_region(m.take(0)) =~= Seq::<u8>::empty());
    } else {
        lemma_entries_of_index(m.drop_first(), base + concat_hits(m[0].1).len(), j - 1);
        assert(entries_of(m, base)[j] == entries_of(
            m.drop_first(),
            base + concat_hits(m[0].1).len(),
        )[j - 1]);
        assert(m.drop_first()[j - 1] == m[j]);
        assert(m.drop_first().take(j - 1) =~= m.take(j).drop_first());
        assert(m.take(j)[0] == m[0]);
        assert(data_region(m.take(j)) == concat_hits(m.take(j)[0].1) + data_region(
            m.take(j).drop_first(),
        ));
    }
}

pub proof fn lemma_entries_of_len(m: Seq<(Seq<char>, Seq<Seq<u8>>)>, base: int)
    ensures
        entries_of(m, base).len() == m.len(),
    decreases m.len(),
{
    if m.len() != 0 {
        lemma_entries_of_len(m.drop_first(), base + concat_hits(m[0].1).len());
    }
}

/// The data region splits at any term boundary.
pub proof fn lemma_data_region_split(m: Seq<(Seq<char>, Seq<Seq<u8>>)>, k: int)
    requires
        0 <= k <= m.len(),
    ensures
        data_region(m) == data_region(m.take(k)) + data_region(m.skip(k)),
    decreases k,
{
    if k == 0 {
        assert(m.take(0) =~= Seq::<(Seq<char>, Seq<Seq<u8>>)>::empty());
        assert(data_region(m.take(0)) =~= Seq::<u8>::empty());
        assert(m.skip(0) =~= m);
        assert(data_region(m) =~= data_region(m.take(0)) + data_region(m.skip(0)));
    } else {
        lemma_data_region_split(m.drop_first(), k - 1);
        assert(m.drop_first().take(k - 1) =~= m.take(k).drop_first());
        assert(m.drop_first().skip(k - 1) =~= m.skip(k));
        assert(m.take(k)[0] == m[0]);
        assert(data_region(m.take(k)) == concat_hits(m[0].1) + data_region(
            m.take(k).drop_first(),
        ));
        assert(data_region(m) =~= data_region(m.take(k)) + data_region(m.skip(k)));
    }
}

/// Law: writing an index and then fully decoding the image reproduces, term
/// by term, exactly the documents and offsets the index held. `docs` is what
/// each term's hit records encode.
pub proof fn lemma_write_then_parse_round_trip(
    m: Seq<(Seq<char>, Seq<Seq<u8>>)>,
    docs: Seq<Seq<(Seq<u8>, Seq<u32>)>>,
)
    requires
        index_counts_fit(m),
        8 + data_region(m).len() <= u64::MAX,
        docs.len() == m.len(),
        forall|j: int| 0 <= j < m.len() ==> wf_hits((#[trigger] m[j]).1, docs[j]),
    ensures
        parse_index(index_file_bytes(m)) == Some(
            Seq::new(m.len(), |j: int| (m[j].0, docs[j])),
        ),
{
    lemma_auto_spec_u64_to_from_le_bytes();
    let file = index_file_bytes(m);
    let data = data_region(m);
    let es = entries_of(m, 8);
    let toc_off = 8 + data.len();
    lemma_entries_of_len(m, 8);
    assert(file.subrange(0, 8) =~= spec_u64_to_le_bytes(toc_off as u64));
    assert(spec_u64_from_le_bytes(file.subrange(0, 8)) == toc_off as u64);
    assert forall|j: int| 0 <= j < es.len() implies entry_wf(#[trigger] es[j]) by {
        lemma_entries_of_index(m, 8, j);
    }
    assert(file.subrange(toc_off as int, file.len() as int) =~= toc_bytes(es));
    lemma_parse_toc_bytes(es);
    assert(file.len() == toc_off + toc_bytes(es).len());
    assert(file_toc(file) == Some(es)) by {
        assert(file.skip(toc_off as int) =~= toc_bytes(es));
        assert(file.subrange(toc_off as int, file.len() as int) == file.skip(toc_off as int));
    }
    lemma_round_trip_suffix(m, docs, 0);
    assert(es.skip(0) =~= es);
    assert(Seq::new((m.len() - 0) as nat, |i: int| (m[0 + i].0, docs[0 + i])) =~= Seq::new(
        m.len(),
        |j: int| (m[j].0, docs[j]),
    ));
}

/// The records from position `j` on decode to the corresponding tail of the
/// map.
proof fn lemma_round_trip_suffix(
    m: Seq<(Seq<char>, Seq<Seq<u8>>)>,
    docs: Seq<Seq<(Seq<u8>, Seq<u32>)>>,
    j: int,
)
    requires
        index_counts_fit(m),
        8 + data_region(m).len() <= u64::MAX,
        docs.len() == m.len(),
        forall|i: int| 0 <= i < m.len() ==> wf_hits((#[trigger] m[i]).1, docs[i]),
        0 <= j <= m.len(),
    ensures
        parse_index_entries(index_file_bytes(m), entries_of(m, 8).skip(j)) == Some(
            Seq::new((m.len() - j) as nat, |i: int| (m[j + i].0, docs[j + i])),
        ),
    decreases m.len() - j,
{
    lemma_auto_spec_u64_to_from_le_bytes();
    let file = index_file_bytes(m);
    let es = entries_of(m, 8);
    lemma_entries_of_len(m, 8);
    if j == m.len() {
        assert(es.skip(j) =~= Seq::<EntryModel>::empty());
        assert(Seq::new((m.len() - j) as nat, |i: int| (m[j + i].0, docs[j + i])) =~= Seq::<
            (Seq<char>, Seq<(Seq<u8>, Seq<u32>)>),
        >::empty());
    } else {
        lemma_round_trip_suffix(m, docs, j + 1);
        lemma_entries_of_index(m, 8, j);
        let e = es[j];
        assert(es.skip(j)[0] == e);
        assert(es.skip(j).drop_first() =~= es.skip(j + 1));
        // the record's byte range holds exactly this term's hit records
        lemma_data_region_split(m, j);
        lemma_data_region_split(m, j + 1);
        assert(m.take(j + 1) =~= m.take(j).push(m[j]));
        lemma_data_region_push(m.take(j), m[j]);
        assert(e.offset + e.nbytes <= 8 + data_region(m).len() <= file.len());
        assert(file.subrange(e.offset as int, e.offset + e.nbytes) =~= concat_hits(m[j].1));
        assert(trunc32(m[j].1.len() as int) == m[j].1.len() as u32);
        assert(e.doc_count as nat == m[j].1.len());
        assert(m[j].1.len() == docs[j].len());
        lemma_parse_concat_hits(m[j].1, docs[j], Seq::<u8>::empty());
        assert(concat_hits(m[j].1) + Seq::<u8>::empty() =~= concat_hits(m[j].1));
        assert(parse_entry_docs(file, e) == Some(docs[j]));
        assert(seq![(e.term, docs[j])] + Seq::new(
            (m.len() - (j + 1)) as nat,
            |i: int| (m[j + 1 + i].0, docs[j + 1 + i]),
        ) =~= Seq::new((m.len() - j) as nat, |i: int| (m[j + i].0, docs[j + i])));
    }
}

/// A serialized map's records tile its data region.
pub proof fn lemma_entries_of_cover(m: Seq<(Seq<char>, Seq<Seq<u8>>)>, base: int)
    requires
        0 <= base,
        base + data_region(m).len() <= u64::MAX,
    ensures
        entries_cover(entries_of(m, base), base, base + data_region(m).len()),
    decreases m.len(),
{
    if m.len() == 0 {
        assert(data_region(m) =~= Seq::<u8>::empty());
        assert(entries_of(m, base) =~= Seq::<EntryModel>::empty());
        assert(entries_cover(Seq::<EntryModel>::empty(), base, base));
    } else {
        let nb = concat_hits(m[0].1).len();
        assert(data_region(m) == concat_hits(m[0].1) + data_region(m.drop_first()));
        lemma_entries_of_cover(m.drop_first(), base + nb);
        assert(entries_of(m, base)[0].offset == base);
        assert(entries_of(m, base)[0].nbytes == nb as u64);
        assert(nb as u64 as int == nb);
        assert(entries_of(m, base).drop_first() =~= entries_of(m.drop_first(), base + nb));
    }
}

/// Law: the image a term-sorted index serializes to is itself fit for
/// streaming merge consumption: its table parses back, is term-ordered, and
/// its data region can be streamed record by record.
pub proof fn lemma_written_index_mergeable(m: Seq<(Seq<char>, Seq<Seq<u8>>)>)
    requires
        terms_sorted(m),
        index_counts_fit(m),
        8 + data_region(m).len() <= usize::MAX,
    ensures
        good_file(index_file_bytes(m)),
        file_toc(index_file_bytes(m)) == Some(entries_of(m, 8)),
{
    lemma_auto_spec_u64_to_from_le_bytes();
    let file = index_file_bytes(m);
    let es = entries_of(m, 8);
    let toc_off = 8 + data_region(m).len();
    lemma_entries_of_len(m, 8);
    assert(file.subrange(0, 8) =~= spec_u64_to_le_bytes(toc_off as u64));
    assert forall|j: int| 0 <= j < es.len() implies entry_wf(#[trigger] es[j]) by {
        lemma_entries_of_index(m, 8, j);
    }
    lemma_parse_toc_bytes(es);
    assert(file.len() == toc_off + toc_bytes(es).len());
    assert(file.skip(toc_off as int) =~= toc_bytes(es));
    assert(file.subrange(toc_off as int, file.len() as int) == file.skip(toc_off as int));
    assert(file_toc(file) == Some(es));
    assert forall|x: int, y: int| 0 <= x < y < es.len() implies lex_lt(
        encode_utf8((#[trigger] es[x]).term),
        encode_utf8((#[trigger] es[y]).term),
    ) by {
        lemma_entries_of_index(m, 8, x);
        lemma_entries_of_index(m, 8, y);
        assert(lex_lt(encode_utf8(m[x].0), encode_utf8(m[y].0)));
    }
    lemma_entries_of_cover(m, 8);
    lemma_cover_data_ok(es, 8, toc_off as int, file.len() as int);
}

/// Decoding documents for a concatenation of records decodes each part.
pub proof fn lemma_parse_index_entries_concat(s: Seq<u8>, a: Seq<EntryModel>, b: Seq<EntryModel>)
    ensures
        parse_index_entries(s, a + b) == match parse_index_entries(s, a) {
            None => None::<Seq<(Seq<char>, Seq<(Seq<u8>, Seq<u32>)>)>>,
            Some(ra) => match parse_index_entries(s, b) {
                None => None,
                Some(rb) => Some(ra + rb),
            },
        },
    decreases a.len(),
{
    if a.len() == 0 {
        assert(a + b =~= b);
        if parse_index_entries(s, b) is Some {
            assert(Seq::<(Seq<char>, Seq<(Seq<u8>, Seq<u32>)>)>::empty() + parse_index_entries(
                s,
                b,
            )->Some_0 =~= parse_index_entries(s, b)->Some_0);
        }
    } else {
        assert((a + b)[0] == a[0]);
        assert((a + b).drop_first() =~= a.drop_first() + b);
        lemma_parse_index_entries_concat(s, a.drop_first(), b);
        if parse_entry_docs(s, a[0]) is Some && parse_index_entries(s, a.drop_first()) is Some
            && parse_index_entries(s, b) is Some {
            let docs = parse_entry_docs(s, a[0])->Some_0;
            let ra = parse_index_entries(s, a.drop_first())->Some_0;
            let rb = parse_index_entries(s, b)->Some_0;
            assert(seq![(a[0].term, docs)] + (ra + rb) =~= (seq![(a[0].term, docs)] + ra) + rb);
        }
    }
}

/// Every record a table parses to is well formed: its term's encoding fits
/// the length field it was read from.
pub proof fn lemma_parse_toc_entries_wf(s: Seq<u8>)
    requires
        parse_toc(s) is Some,
    ensures
        forall|i: int|
            0 <= i < parse_toc(s)->Some_0.len() ==> entry_wf(#[trigger] parse_toc(s)->Some_0[i]),
    decreases s.len(),
{
    lemma_auto_spec_u32_to_from_le_bytes();
    if s.len() != 0 {
        let term_len = spec_u32_from_le_bytes(s.subrange(20, 24)) as int;
        let tb = s.subrange(24, 24 + term_len);
        vstd::utf8::decode_utf8_encode_utf8(tb);
        lemma_parse_toc_entries_wf(s.subrange(24 + term_len, s.len() as int));
        let es = parse_toc(s)->Some_0;
        let rest = parse_toc(s.subrange(24 + term_len, s.len() as int))->Some_0;
        assert(es == seq![es[0]] + rest);
        assert(encode_utf8(decode_utf8(tb)) == tb);
        assert(entry_wf(es[0]));
        assert(forall|i: int| 1 <= i < es.len() ==> (#[trigger] es[i]) == rest[i - 1]);
    }
}

/// Records in strictly increasing term order: exactly one record per term,
/// as the format requires of the files the merge engine consumes and writes.
pub open spec fn entries_ordered(es: Seq<EntryModel>) -> bool {
    forall|i: int, j: int|
        0 <= i < j < es.len() ==> lex_lt(
            encode_utf8((#[trigger] es[i]).term),
            encode_utf8((#[trigger] es[j]).term),
        )
}

/// Whether some record is for term `t`.
pub open spec fn has_term(es: Seq<EntryModel>, t: Seq<char>) -> bool {
    exists|k: int| 0 <= k < es.len() && (#[trigger] es[k]).term == t
}

/// The hit data of every record for term `t`, concatenated in record order,
/// each record's bytes read in turn starting at `pos`.
pub open spec fn term_data(s: Seq<u8>, pos: int, es: Seq<EntryModel>, t: Seq<char>) -> Seq<u8>
    decreases es.len(),
{
    if es.len() == 0 {
        seq![]
    } else {
        (if es[0].term == t {
            s.subrange(pos, pos + es[0].nbytes)
        } else {
            seq![]
        }) + term_data(s, pos + es[0].nbytes, es.drop_first(), t)
    }
}

/// The documents recorded for term `t`: the sum of its records' counts.
pub open spec fn term_doc_count(es: Seq<EntryModel>, t: Seq<char>) -> int
    decreases es.len(),
{
    if es.len() == 0 {
        0
    } else {
        (if es[0].term == t {
            es[0].doc_count as int
        } else {
            0
        }) + term_doc_count(es.drop_first(), t)
    }
}

/// Records that never carry the term contribute nothing to it.
pub proof fn lemma_term_data_absent(s: Seq<u8>, pos: int, es: Seq<EntryModel>, t: Seq<char>)
    requires
        forall|k: int| 0 <= k < es.len() ==> (#[trigger] es[k]).term != t,
    ensures
        term_data(s, pos, es, t) == Seq::<u8>::empty(),
        term_doc_count(es, t) == 0,
        !has_term(es, t),
    decreases es.len(),
{
    if es.len() != 0 {
        assert(forall|k: int|
            0 <= k < es.drop_first().len() ==> (#[trigger] es.drop_first()[k]) == es[k + 1]);
        lemma_term_data_absent(s, pos + es[0].nbytes, es.drop_first(), t);
        assert(term_data(s, pos, es, t) =~= Seq::<u8>::empty());
    }
}

/// Appending a record appends its contribution.
pub proof fn lemma_term_data_push(
    s: Seq<u8>,
    pos: int,
    es: Seq<EntryModel>,
    e: EntryModel,
    t: Seq<char>,
)
    ensures
        term_data(s, pos, es.push(e), t) == term_data(s, pos, es, t) + (if e.term == t {
            s.subrange(pos + total_nbytes(es), pos + total_nbytes(es) + e.nbytes)
        } else {
            Seq::<u8>::empty()
        }),
        term_doc_count(es.push(e), t) == term_doc_count(es, t) + (if e.term == t {
            e.doc_count as int
        } else {
            0
        }),
        has_term(es.push(e), t) == (has_term(es, t) || e.term == t),
    decreases es.len(),
{
    if es.len() == 0 {
        assert(es.push(e) =~= seq![e]);
        assert(seq![e].drop_first() =~= Seq::<EntryModel>::empty());
        assert(term_data(s, pos + e.nbytes, seq![e].drop_first(), t) == Seq::<u8>::empty());
        assert(term_doc_count(Seq::<EntryModel>::empty(), t) == 0);
        assert(term_doc_count(seq![e], t) == (if e.term == t {
            e.doc_count as int
        } else {
            0
        }) + term_doc_count(seq![e].drop_first(), t));
        assert(term_doc_count(es, t) == 0);
        assert(term_data(s, pos, es.push(e), t) =~= term_data(s, pos, es, t) + (if e.term == t {
            s.subrange(pos + total_nbytes(es), pos + total_nbytes(es) + e.nbytes)
        } else {
            Seq::<u8>::empty()
        }));
        if e.term == t {
            assert(es.push(e)[0].term == t);
        }
        if has_term(es.push(e), t) {
            let w = choose|w: int| 0 <= w < es.push(e).len() && (#[trigger] es.push(e)[w]).term == t;
            assert(w == 0);
        }
    } else {
        assert(es.push(e)[0] == es[0]);
        assert(es.push(e).drop_first() =~= es.drop_first().push(e));
        lemma_term_data_push(s, pos + es[0].nbytes, es.drop_first(), e, t);
        assert(term_doc_count(es.push(e), t) == (if es[0].term == t {
            es[0].doc_count as int
        } else {
            0
        }) + term_doc_count(es.drop_first().push(e), t));
        assert(term_doc_count(es, t) == (if es[0].term == t {
            es[0].doc_count as int
        } else {
            0
        }) + term_doc_count(es.drop_first(), t));
        assert(term_data(s, pos, es.push(e), t) =~= term_data(s, pos, es, t) + (if e.term == t {
            s.subrange(pos + total_nbytes(es), pos + total_nbytes(es) + e.nbytes)
        } else {
            Seq::<u8>::empty()
        }));
        if has_term(es, t) {
            let w = choose|w: int| 0 <= w < es.len() && (#[trigger] es[w]).term == t;
            assert(es.push(e)[w].term == t);
        }
        if e.term == t {
            assert(es.push(e)[es.len() as int].term == t);
        }
        if has_term(es.push(e), t) {
            let w = choose|w: int| 0 <= w < es.push(e).len() && (#[trigger] es.push(e)[w]).term == t;
            if w < es.len() {
                assert(es[w].term == t);
            }
        }
    }
}

/// Two images agreeing on the bytes the records occupy give each term the
/// same data.
pub proof fn lemma_term_data_agree(
    s1: Seq<u8>,
    s2: Seq<u8>,
    pos: int,
    es: Seq<EntryModel>,
    t: Seq<char>,
)
    requires
        0 <= pos,
        pos + total_nbytes(es) <= s1.len(),
        pos + total_nbytes(es) <= s2.len(),
        forall|i: int| pos <= i < pos + total_nbytes(es) ==> s1[i] == s2[i],
    ensures
        term_data(s1, pos, es, t) == term_data(s2, pos, es, t),
    decreases es.len(),
{
    if es.len() != 0 {
        lemma_total_nbytes_nonneg(es.drop_first());
        assert(s1.subrange(pos, pos + es[0].nbytes) =~= s2.subrange(pos, pos + es[0].nbytes));
        lemma_term_data_agree(s1, s2, pos + es[0].nbytes, es.drop_first(), t);
    }
}

/// Data lengths never sum to a negative.
pub proof fn lemma_total_nbytes_nonneg(es: Seq<EntryModel>)
    ensures
        total_nbytes(es) >= 0,
    decreases es.len(),
{
    if es.len() != 0 {
        lemma_total_nbytes_nonneg(es.drop_first());
    }
}

/// A tiled region is as long as its records' data together.
pub proof fn lemma_cover_total(es: Seq<EntryModel>, base: int, end: int)
    requires
        entries_cover(es, base, end),
    ensures
        total_nbytes(es) == end - base,
    decreases es.len(),
{
    if es.len() != 0 {
        lemma_cover_total(es.drop_first(), base + es[0].nbytes, end);
    }
}

/// Narrowing a `u64` to `u32` keeps its 32 low bits.
pub proof fn lemma_trunc32_u64(n: u64)
    ensures
        #[verifier::truncate] (n as u32) == trunc32(n as int),
{
    assert(#[verifier::truncate] (n as u32) == #[verifier::truncate] ((n % 0x1_0000_0000u64)
        as u32)) by (bit_vector);
}

/// Sums congruent modulo the 32-bit modulus stay congruent under a common
/// addend.
pub proof fn lemma_congruent_add(a: int, b: int, c: int)
    requires
        a % 0x1_0000_0000 == b % 0x1_0000_0000,
    ensures
        (a + c) % 0x1_0000_0000 == (b + c) % 0x1_0000_0000,
{
    assert((a + c) % 0x1_0000_0000 == (b + c) % 0x1_0000_0000) by (nonlinear_arith)
        requires
            a % 0x1_0000_0000 == b % 0x1_0000_0000,
    ;
}

/// The records' data ranges tile the region from `base` to `end`, one after
/// the other.
pub open spec fn entries_cover(es: Seq<EntryModel>, base: int, end: int) -> bool
    decreases es.len(),
{
    if es.len() == 0 {
        base == end
    } else {
        es[0].offset == base && entries_cover(es.drop_first(), base + es[0].nbytes, end)
    }
}

pub proof fn lemma_entries_cover_push(es: Seq<EntryModel>, e: EntryModel, base: int, end: int)
    requires
        entries_cover(es, base, end),
        e.offset == end,
    ensures
        entries_cover(es.push(e), base, end + e.nbytes),
    decreases es.len(),
{
    if es.len() == 0 {
        assert(es.push(e) =~= seq![e]);
        assert(seq![e].drop_first() =~= Seq::<EntryModel>::empty());
        assert(entries_cover(Seq::<EntryModel>::empty(), base + e.nbytes, end + e.nbytes));
    } else {
        assert(es.push(e)[0] == es[0]);
        assert(es.push(e).drop_first() =~= es.drop_first().push(e));
        lemma_entries_cover_push(es.drop_first(), e, base + es[0].nbytes, end);
    }
}

/// Tiled records can be streamed: each one's data can be read in turn.
pub proof fn lemma_cover_data_ok(es: Seq<EntryModel>, base: int, end: int, s_len: int)
    requires
        entries_cover(es, base, end),
        0 <= base,
        end <= s_len,
        end <= usize::MAX,
    ensures
        entries_data_ok(s_len, base, es),
    decreases es.len(),
{
    if es.len() != 0 {
        lemma_cover_data_ok(es.drop_first(), base + es[0].nbytes, end, s_len);
        assert(base + es[0].nbytes <= end) by {
            lemma_cover_ge(es.drop_first(), base + es[0].nbytes, end);
        }
    }
}

/// A tiled region never ends before it starts.
pub proof fn lemma_cover_ge(es: Seq<EntryModel>, base: int, end: int)
    requires
        entries_cover(es, base, end),
    ensures
        base <= end,
    decreases es.len(),
{
    if es.len() != 0 {
        lemma_cover_ge(es.drop_first(), base + es[0].nbytes, end);
    }
}

/// The total data bytes of a run of records.
pub open spec fn total_nbytes(es: Seq<EntryModel>) -> int
    decreases es.len(),
{
    if es.len() == 0 {
        0
    } else {
        es[0].nbytes + total_nbytes(es.drop_first())
    }
}

/// Tiled records all sit within the tiled region.
pub proof fn lemma_cover_bounds(es: Seq<EntryModel>, base: int, end: int)
    requires
        entries_cover(es, base, end),
    ensures
        forall|j: int|
            0 <= j < es.len() ==> base <= (#[trigger] es[j]).offset && es[j].offset + es[j].nbytes
                <= end,
    decreases es.len(),
{
    if es.len() != 0 {
        lemma_cover_ge(es.drop_first(), base + es[0].nbytes, end);
        lemma_cover_bounds(es.drop_first(), base + es[0].nbytes, end);
        assert(forall|j: int| 1 <= j < es.len() ==> (#[trigger] es[j]) == es.drop_first()[j - 1]);
    }
}

/// A tiled, streamable region ends within the image.
pub proof fn lemma_cover_end_in_image(es: Seq<EntryModel>, base: int, end: int, s_len: int)
    requires
        entries_cover(es, base, end),
        entries_data_ok(s_len, base, es),
        base <= s_len,
    ensures
        end <= s_len,
    decreases es.len(),
{
    if es.len() != 0 {
        lemma_cover_end_in_image(es.drop_first(), base + es[0].nbytes, end, s_len);
    }
}

/// What a parsable image's table holds is made of well-formed records.
pub proof fn lemma_file_toc_entries_wf(s: Seq<u8>)
    requires
        file_toc(s) is Some,
    ensures
        forall|k: int|
            0 <= k < file_toc(s)->Some_0.len() ==> entry_wf(#[trigger] file_toc(s)->Some_0[k]),
{
    if s.len() >= 8 {
        let off = spec_u64_from_le_bytes(s.subrange(0, 8)) as int;
        let start = if off > s.len() {
            s.len() as int
        } else {
            off
        };
        lemma_parse_toc_entries_wf(s.subrange(start, s.len() as int));
    }
}

/// Images that agree on the bytes their records point at decode to the same
/// documents.
pub proof fn lemma_parse_entries_agree(s1: Seq<u8>, s2: Seq<u8>, es: Seq<EntryModel>, end: int)
    requires
        8 <= end <= s1.len(),
        end <= s2.len(),
        forall|i: int| 8 <= i < end ==> s1[i] == s2[i],
        forall|j: int|
            0 <= j < es.len() ==> 8 <= (#[trigger] es[j]).offset && es[j].offset + es[j].nbytes
                <= end,
    ensures
        parse_index_entries(s1, es) == parse_index_entries(s2, es),
    decreases es.len(),
{
    if es.len() != 0 {
        assert(s1.subrange(es[0].offset as int, es[0].offset + es[0].nbytes) =~= s2.subrange(
            es[0].offset as int,
            es[0].offset + es[0].nbytes,
        ));
        assert(parse_entry_docs(s1, es[0]) == parse_entry_docs(s2, es[0]));
        assert(forall|j: int| 1 <= j < es.len() ==> (#[trigger] es[j]) == es.drop_first()[j - 1]);
        lemma_parse_entries_agree(s1, s2, es.drop_first(), end);
    }
}

/// An index file image fit for streaming consumption: its table parses, its
/// records are term-ordered, and their data can be read in turn from byte 8.
pub open spec fn good_file(s: Seq<u8>) -> bool {
    match file_toc(s) {
        None => false,
        Some(es) => entries_ordered(es) && entries_data_ok(s.len() as int, 8, es),
    }
}

/// The table of contents of the image parses and its terms are in
/// non-decreasing order.
pub open spec fn toc_ordered(s: Seq<u8>) -> bool {
    match file_toc(s) {
        None => false,
        Some(es) => entries_ordered(es),
    }
}

/// Parsing inverts encoding, record by record: an encoded record followed by
/// anything parses to that record followed by whatever the rest parses to.
pub proof fn lemma_parse_toc_prepend(e: EntryModel, rest: Seq<u8>)
    requires
        entry_wf(e),
    ensures
        parse_toc(toc_entry_bytes(e) + rest) == match parse_toc(rest) {
            None => None::<Seq<EntryModel>>,
            Some(r) => Some(seq![e] + r),
        },
{
    lemma_auto_spec_u32_to_from_le_bytes();
    lemma_auto_spec_u64_to_from_le_bytes();
    let tb = encode_utf8(e.term);
    let tl = tb.len() as int;
    let s = toc_entry_bytes(e) + rest;
    assert(s.len() == 24 + tl + rest.len());
    assert(s.subrange(0, 8) =~= spec_u64_to_le_bytes(e.offset));
    assert(s.subrange(8, 16) =~= spec_u64_to_le_bytes(e.nbytes));
    assert(s.subrange(16, 20) =~= spec_u32_to_le_bytes(e.doc_count));
    assert(s.subrange(20, 24) =~= spec_u32_to_le_bytes(tl as u32));
    assert(spec_u32_from_le_bytes(s.subrange(20, 24)) as int == tl);
    assert(s.subrange(24, 24 + tl) =~= tb);
    encode_utf8_valid_utf8(e.term);
    encode_utf8_decode_utf8(e.term);
    assert(s.subrange(24 + tl, s.len() as int) =~= rest);
}

/// Parsing `n` hit records from the front of `s`: each is a 32-byte document
/// hash, an occurrence count, and that many word offsets. `None` means the
/// bytes ran out mid-record; bytes left over after the `n`-th record are
/// ignored.
pub open spec fn parse_hits(s: Seq<u8>, n: nat) -> Option<Seq<(Seq<u8>, Seq<u32>)>>
    decreases n,
{
    if n == 0 {
        Some(seq![])
    } else if s.len() < 36 {
        None
    } else {
        let cnt = spec_u32_from_le_bytes(s.subrange(32, 36)) as int;
        if s.len() < 36 + 4 * cnt {
            None
        } else {
            let hash = s.subrange(0, 32);
            let offs = Seq::new(
                cnt as nat,
                |i: int| spec_u32_from_le_bytes(s.subrange(36 + 4 * i, 36 + 4 * i + 4)),
            );
            match parse_hits(s.subrange(36 + 4 * cnt, s.len() as int), (n - 1) as nat) {
                None => None,
                Some(rest) => Some(seq![(hash, offs)] + rest),
            }
        }
    }
}

/// Parsing inverts the hit encoding, record by record.
pub proof fn lemma_parse_hits_prepend(hash: Seq<u8>, offsets: Seq<u32>, rest: Seq<u8>, n: nat)
    requires
        hash.len() == 32,
        offsets.len() <= u32::MAX,
    ensures
        parse_hits(hit_bytes(hash, offsets) + rest, n + 1) == match parse_hits(rest, n) {
            None => None::<Seq<(Seq<u8>, Seq<u32>)>>,
            Some(r) => Some(seq![(hash, offsets)] + r),
        },
{
    lemma_auto_spec_u32_to_from_le_bytes();
    lemma_le_offsets_len(offsets);
    let s = hit_bytes(hash, offsets) + rest;
    let cnt = offsets.len() as int;
    assert(trunc32(cnt) == offsets.len() as u32);
    assert(s.len() == 36 + 4 * cnt + rest.len());
    assert(s.subrange(0, 32) =~= hash);
    assert(s.subrange(32, 36) =~= spec_u32_to_le_bytes(trunc32(cnt)));
    assert(spec_u32_from_le_bytes(s.subrange(32, 36)) as int == cnt);
    assert forall|i: int| 0 <= i < cnt implies spec_u32_from_le_bytes(
        s.subrange(36 + 4 * i, 36 + 4 * i + 4),
    ) == offsets[i] by {
        lemma_le_offsets_index(offsets, i);
        assert(s.subrange(36 + 4 * i, 36 + 4 * i + 4) =~= le_offsets(offsets).subrange(
            4 * i,
            4 * i + 4,
        ));
    }
    assert(Seq::new(
        cnt as nat,
        |i: int| spec_u32_from_le_bytes(s.subrange(36 + 4 * i, 36 + 4 * i + 4)),
    ) =~= offsets);
    assert(s.subrange(36 + 4 * cnt, s.len() as int) =~= rest);
}

/// The concatenated bytes of a term's hit records.
pub open spec fn concat_hits(hits: Seq<Seq<u8>>) -> Seq<u8>
    decreases hits.len(),
{
    if hits.len() == 0 {
        seq![]
    } else {
        hits[0] + concat_hits(hits.drop_first())
    }
}

pub proof fn lemma_concat_hits_push(hits: Seq<Seq<u8>>, h: Seq<u8>)
    ensures
        concat_hits(hits.push(h)) == concat_hits(hits) + h,
    decreases hits.len(),
{
    if hits.len() == 0 {
        assert(hits.push(h) =~= seq![h]);
        assert(seq![h].drop_first() =~= Seq::<Seq<u8>>::empty());
        assert(concat_hits(Seq::<Seq<u8>>::empty()) =~= Seq::<u8>::empty());
        assert(concat_hits(seq![h]) =~= h + concat_hits(seq![h].drop_first()));
        assert(concat_hits(hits.push(h)) =~= concat_hits(hits) + h);
    } else {
        assert(hits.push(h)[0] == hits[0]);
        assert(hits.push(h).drop_first() =~= hits.drop_first().push(h));
        lemma_concat_hits_push(hits.drop_first(), h);
        assert(concat_hits(hits.push(h)) =~= concat_hits(hits) + h);
    }
}

/// Every hit record is well formed: a 32-byte hash, then a count that matches
/// the number of offsets that follow.
pub open spec fn wf_hits(hits: Seq<Seq<u8>>, docs: Seq<(Seq<u8>, Seq<u32>)>) -> bool {
    hits.len() == docs.len() && forall|i: int|
        0 <= i < hits.len() ==> (#[trigger] hits[i]) == hit_bytes(docs[i].0, docs[i].1)
            && docs[i].0.len() == 32 && docs[i].1.len() <= u32::MAX
}

/// A well-formed run of hit records parses back to its documents, whatever
/// follows it.
pub proof fn lemma_parse_concat_hits(hits: Seq<Seq<u8>>, docs: Seq<(Seq<u8>, Seq<u32>)>, rest: Seq<u8>)
    requires
        wf_hits(hits, docs),
    ensures
        parse_hits(concat_hits(hits) + rest, hits.len()) == Some(docs),
    decreases hits.len(),
{
    if hits.len() == 0 {
        assert(docs =~= Seq::<(Seq<u8>, Seq<u32>)>::empty());
    } else {
        assert(wf_hits(hits.drop_first(), docs.drop_first()));
        lemma_parse_concat_hits(hits.drop_first(), docs.drop_first(), rest);
        lemma_parse_hits_prepend(
            docs[0].0,
            docs[0].1,
            concat_hits(hits.drop_first()) + rest,
            (hits.len() - 1) as nat,
        );
        assert(concat_hits(hits) + rest =~= hit_bytes(docs[0].0, docs[0].1) + (concat_hits(
            hits.drop_first(),
        ) + rest));
        assert(seq![(docs[0].0, docs[0].1)] + docs.drop_first() =~= docs);
        assert((docs[0].0, docs[0].1) == docs[0]);
    }
}

// ───── Whole file images ─────

/// The data region of a file image holding `m`: every term's hit records,
/// back to back, in map order.
pub open spec fn data_region(m: Seq<(Seq<char>, Seq<Seq<u8>>)>) -> Seq<u8>
    decreases m.len(),
{
    if m.len() == 0 {
        seq![]
    } else {
        concat_hits(m[0].1) + data_region(m.drop_first())
    }
}

pub proof fn lemma_data_region_push(m: Seq<(Seq<char>, Seq<Seq<u8>>)>, p: (Seq<char>, Seq<Seq<u8>>))
    ensures
        data_region(m.push(p)) == data_region(m) + concat_hits(p.1),
    decreases m.len(),
{
    if m.len() == 0 {
        assert(m.push(p) =~= seq![p]);
        assert(seq![p].drop_first() =~= Seq::<(Seq<char>, Seq<Seq<u8>>)>::empty());
        assert(data_region(Seq::<(Seq<char>, Seq<Seq<u8>>)>::empty()) =~= Seq::<u8>::empty());
        assert(data_region(seq![p]) =~= concat_hits(p.1) + data_region(seq![p].drop_first()));
        assert(data_region(m.push(p)) =~= data_region(m) + concat_hits(p.1));
    } else {
        assert(m.push(p)[0] == m[0]);
        assert(m.push(p).drop_first() =~= m.drop_first().push(p));
        lemma_data_region_push(m.drop_first(), p);
        assert(data_region(m.push(p)) =~= data_region(m) + concat_hits(p.1));
    }
}

/// The table-of-contents records for `m`, with the first term's data starting
/// at `base`.
pub open spec fn entries_of(m: Seq<(Seq<char>, Seq<Seq<u8>>)>, base: int) -> Seq<EntryModel>
    decreases m.len(),
{
    if m.len() == 0 {
        seq![]
    } else {
        let nb = concat_hits(m[0].1).len();
        seq![
            EntryModel {
                offset: base as u64,
                nbytes: nb as u64,
                doc_count: trunc32(m[0].1.len() as int),
                term: m[0].0,
            },
        ] + entries_of(m.drop_first(), base + nb)
    }
}

pub proof fn lemma_entries_of_push(
    m: Seq<(Seq<char>, Seq<Seq<u8>>)>,
    p: (Seq<char>, Seq<Seq<u8>>),
    base: int,
)
    ensures
        entries_of(m.push(p), base) == entries_of(m, base) + seq![
            EntryModel {
                offset: (base + data_region(m).len()) as u64,
                nbytes: concat_hits(p.1).len() as u64,
                doc_count: trunc32(p.1.len() as int),
                term: p.0,
            },
        ],
    decreases m.len(),
{
    if m.len() == 0 {
        assert(m.push(p) =~= seq![p]);
        assert(seq![p].drop_first() =~= Seq::<(Seq<char>, Seq<Seq<u8>>)>::empty());
        assert(entries_of(Seq::<(Seq<char>, Seq<Seq<u8>>)>::empty(), base + concat_hits(p.1).len())
            =~= Seq::<EntryModel>::empty());
        assert(data_region(m) =~= Seq::<u8>::empty());
        assert(entries_of(m.push(p), base) =~= entries_of(m, base) + seq![
            EntryModel {
                offset: (base + data_region(m).len()) as u64,
                nbytes: concat_hits(p.1).len() as u64,
                doc_count: trunc32(p.1.len() as int),
                term: p.0,
            },
        ]);
    } else {
        assert(m.push(p)[0] == m[0]);
        assert(m.push(p).drop_first() =~= m.drop_first().push(p));
        lemma_entries_of_push(m.drop_first(), p, base + concat_hits(m[0].1).len());
        assert(entries_of(m.push(p), base) =~= entries_of(m, base) + seq![
            EntryModel {
                offset: (base + data_region(m).len()) as u64,
                nbytes: concat_hits(p.1).len() as u64,
                doc_count: trunc32(p.1.len() as int),
                term: p.0,
            },
        ]);
    }
}

/// Whether a map can be stored: every term and hit-list length fits the
/// format's fixed-width fields.
pub open spec fn index_counts_fit(m: Seq<(Seq<char>, Seq<Seq<u8>>)>) -> bool {
    forall|j: int|
        0 <= j < m.len() ==> encode_utf8((#[trigger] m[j]).0).len() <= u32::MAX && m[j].1.len()
            <= u32::MAX
}

/// The complete file image a map serializes to: a header giving the offset of
/// the table of contents, the data region, the table of contents.
pub open spec fn index_file_bytes(m: Seq<(Seq<char>, Seq<Seq<u8>>)>) -> Seq<u8> {
    spec_u64_to_le_bytes((8 + data_region(m).len()) as u64) + data_region(m) + toc_bytes(
        entries_of(m, 8),
    )
}

/// The table-of-contents records of a file image: what the header points at,
/// parsed. `None` means the image is shorter than its header or its table is
/// malformed; a header pointing past the end leaves an empty table, exactly
/// as reading at the end of the file would.
pub open spec fn file_toc(s: Seq<u8>) -> Option<Seq<EntryModel>> {
    if s.len() < 8 {
        None
    } else {
        let off = spec_u64_from_le_bytes(s.subrange(0, 8)) as int;
        let start = if off > s.len() {
            s.len() as int
        } else {
            off
        };
        parse_toc(s.subrange(start, s.len() as int))
    }
}

/// The documents of one table-of-contents record, decoded from its byte range.
pub open spec fn parse_entry_docs(s: Seq<u8>, e: EntryModel) -> Option<Seq<(Seq<u8>, Seq<u32>)>> {
    if e.offset + e.nbytes > s.len() {
        None
    } else {
        parse_hits(s.subrange(e.offset as int, e.offset + e.nbytes), e.doc_count as nat)
    }
}

/// Decode every record's documents in table order.
pub open spec fn parse_index_entries(s: Seq<u8>, es: Seq<EntryModel>) -> Option<
    Seq<(Seq<char>, Seq<(Seq<u8>, Seq<u32>)>)>,
>
    decreases es.len(),
{
    if es.len() == 0 {
        Some(seq![])
    } else {
        match parse_entry_docs(s, es[0]) {
            None => None,
            Some(docs) => match parse_index_entries(s, es.drop_first()) {
                None => None,
                Some(rest) => Some(seq![(es[0].term, docs)] + rest),
            },
        }
    }
}

/// The full decode of an index file image: term → documents → offsets, in
/// table-of-contents order, or `None` for a malformed image.
pub open spec fn parse_index(s: Seq<u8>) -> Option<Seq<(Seq<char>, Seq<(Seq<u8>, Seq<u32>)>)>> {
    match file_toc(s) {
        None => None,
        Some(es) => parse_index_entries(s, es),
    }
}

/// Whether each record's data can be read, one after the other, starting at
/// byte `pos` of an image of `s_len` bytes: what the streaming reader's data
/// cursor needs.
pub open spec fn entries_data_ok(s_len: int, pos: int, es: Seq<EntryModel>) -> bool
    decreases es.len(),
{
    es.len() == 0 || {
        &&& pos + es[0].nbytes <= s_len
        &&& es[0].nbytes <= usize::MAX
        &&& entries_data_ok(s_len, pos + es[0].nbytes, es.drop_first())
    }
}

/// A whole encoded table parses back to exactly its records.
pub proof fn lemma_parse_toc_bytes(es: Seq<EntryModel>)
    requires
        forall|i: int| 0 <= i < es.len() ==> entry_wf(#[trigger] es[i]),
    ensures
        parse_toc(toc_bytes(es)) == Some(es),
    decreases es.len(),
{
    if es.len() == 0 {
        assert(toc_bytes(es).len() == 0);
        assert(parse_toc(toc_bytes(es)) == Some(Seq::<EntryModel>::empty()));
        assert(es =~= Seq::<EntryModel>::empty());
    } else {
        lemma_parse_toc_bytes(es.drop_first());
        lemma_parse_toc_prepend(es[0], toc_bytes(es.drop_first()));
        assert(seq![es[0]] + es.drop_first() =~= es);
    }
}

} // verus!
