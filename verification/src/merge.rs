//! The k-way merge engine: consolidating many term-sorted index file images
//! into one.
//!
//! A single pass opens a streaming reader over every input image and
//! repeatedly finds the lexicographically smallest pending term across all
//! readers; every reader positioned at that exact term moves its hit data
//! into the output, and one aggregated table-of-contents record is written
//! for the term. Since each input is sorted, the output is sorted too, and it
//! holds, for every term, the concatenation of the inputs' data for that
//! term in input order. When more inputs exist than the fan-in limit allows,
//! inputs are merged in groups and the resulting images merged again, until
//! one remains.

use vstd::prelude::*;
use vstd::utf8::encode_utf8;

use crate::model::{EntryModel, entries_cover, entries_ordered, entry_wf, file_toc, good_file,
    has_term, lemma_congruent_add, lemma_cover_data_ok, lemma_cover_total,
    lemma_entries_cover_push, lemma_file_toc_entries_wf, lemma_lex_le_antisymmetric,
    lemma_lex_le_total, lemma_lex_le_transitive, lemma_parse_toc_bytes, lemma_term_data_absent,
    lemma_term_data_agree, lemma_term_data_push, lemma_toc_bytes_push, lemma_trunc32_u64, lex_le,
    lex_lt, str_cmp, term_data, term_doc_count, toc_bytes, toc_ordered, total_nbytes, trunc32};
use crate::read::IndexFileReader;
use crate::write::IndexFileWriter;
use crate::IndexError;

verus! {

/// How many records all the readers together still have to consume.
pub open spec fn total_pending(rs: Seq<IndexFileReader>) -> nat
    decreases rs.len(),
{
    if rs.len() == 0 {
        0
    } else {
        rs[0].pending().len() + total_pending(rs.drop_first())
    }
}

proof fn lemma_total_pending_update(rs: Seq<IndexFileReader>, i: int, r2: IndexFileReader)
    requires
        0 <= i < rs.len(),
    ensures
        total_pending(rs.update(i, r2)) + rs[i].pending().len() == total_pending(rs)
            + r2.pending().len(),
    decreases rs.len(),
{
    if i == 0 {
        assert(rs.update(0, r2)[0] == r2);
        assert(rs.update(0, r2).drop_first() =~= rs.drop_first());
    } else {
        assert(rs.update(i, r2)[0] == rs[0]);
        assert(rs.update(i, r2).drop_first() =~= rs.drop_first().update(i - 1, r2));
        lemma_total_pending_update(rs.drop_first(), i - 1, r2);
    }
}

/// A reader fit for merging: well formed, with a consumable remainder whose
/// records are strictly term-ordered and well formed.
pub open spec fn mergeable(rd: IndexFileReader) -> bool {
    &&& rd.wf()
    &&& rd.good()
    &&& entries_ordered(rd.pending())
    &&& forall|k: int| 0 <= k < rd.pending().len() ==> entry_wf(#[trigger] rd.pending()[k])
}

/// The hit data one reader still holds for term `t`.
pub open spec fn reader_term_data(rd: IndexFileReader, t: Seq<char>) -> Seq<u8> {
    term_data(rd.file@, rd.data_pos as int, rd.pending(), t)
}

/// The documents one reader still records for term `t`.
pub open spec fn reader_term_count(rd: IndexFileReader, t: Seq<char>) -> int {
    term_doc_count(rd.pending(), t)
}

/// The hit data a set of readers still holds for term `t`, in reader order.
pub open spec fn readers_term_data(rs: Seq<IndexFileReader>, t: Seq<char>) -> Seq<u8>
    decreases rs.len(),
{
    if rs.len() == 0 {
        seq![]
    } else {
        reader_term_data(rs[0], t) + readers_term_data(rs.drop_first(), t)
    }
}

/// The documents a set of readers still records for term `t`.
pub open spec fn readers_term_count(rs: Seq<IndexFileReader>, t: Seq<char>) -> int
    decreases rs.len(),
{
    if rs.len() == 0 {
        0
    } else {
        reader_term_count(rs[0], t) + readers_term_count(rs.drop_first(), t)
    }
}

/// Whether any reader still has a record for term `t` pending.
pub open spec fn readers_has_term(rs: Seq<IndexFileReader>, t: Seq<char>) -> bool {
    exists|i: int| 0 <= i < rs.len() && has_term((#[trigger] rs[i]).pending(), t)
}

/// A set of readers splits around any one of them.
proof fn lemma_readers_split(rs: Seq<IndexFileReader>, i: int, t: Seq<char>)
    requires
        0 <= i < rs.len(),
    ensures
        readers_term_data(rs, t) == readers_term_data(rs.take(i), t) + reader_term_data(rs[i], t)
            + readers_term_data(rs.skip(i + 1), t),
        readers_term_count(rs, t) == readers_term_count(rs.take(i), t) + reader_term_count(
            rs[i],
            t,
        ) + readers_term_count(rs.skip(i + 1), t),
    decreases i,
{
    if i == 0 {
        assert(rs.take(0) =~= Seq::<IndexFileReader>::empty());
        assert(rs.skip(1) =~= rs.drop_first());
        assert(readers_term_data(rs.take(0), t) =~= Seq::<u8>::empty());
        assert(readers_term_data(rs.take(0), t) + reader_term_data(rs[0], t) + readers_term_data(
            rs.skip(1),
            t,
        ) =~= readers_term_data(rs, t));
    } else {
        lemma_readers_split(rs.drop_first(), i - 1, t);
        assert(rs.drop_first().take(i - 1) =~= rs.take(i).drop_first());
        assert(rs.drop_first().skip(i) =~= rs.skip(i + 1));
        assert(rs.take(i)[0] == rs[0]);
        assert(rs.drop_first()[i - 1] == rs[i]);
        assert(readers_term_data(rs, t) =~= readers_term_data(rs.take(i), t) + reader_term_data(
            rs[i],
            t,
        ) + readers_term_data(rs.skip(i + 1), t));
    }
}

/// Readers with nothing pending for a term contribute nothing to it.
proof fn lemma_readers_term_absent(rs: Seq<IndexFileReader>, t: Seq<char>)
    requires
        forall|i: int| 0 <= i < rs.len() ==> !has_term((#[trigger] rs[i]).pending(), t),
    ensures
        readers_term_data(rs, t) == Seq::<u8>::empty(),
        readers_term_count(rs, t) == 0,
        !readers_has_term(rs, t),
    decreases rs.len(),
{
    if rs.len() != 0 {
        assert forall|k: int| 0 <= k < rs[0].pending().len() implies (
        #[trigger] rs[0].pending()[k]).term != t by {
            if rs[0].pending()[k].term == t {
                assert(has_term(rs[0].pending(), t));
            }
        }
        lemma_term_data_absent(rs[0].file@, rs[0].data_pos as int, rs[0].pending(), t);
        assert(forall|i: int|
            0 <= i < rs.drop_first().len() ==> (#[trigger] rs.drop_first()[i]) == rs[i + 1]);
        lemma_readers_term_absent(rs.drop_first(), t);
        assert(readers_term_data(rs, t) =~= Seq::<u8>::empty());
    }
}

/// One merge pass: consume every reader completely, producing a single index
/// file image whose table of contents is strictly term-ordered and which
/// holds, for every term, the concatenation of the readers' pending data for
/// that term in reader order, under one record whose document count is the
/// readers' counts summed (reduced to 32 bits, as the field is stored).
/// Mergeable inputs cannot fail.
pub fn merge_streams(readers: Vec<IndexFileReader>) -> (r: Result<Vec<u8>, IndexError>)
    requires
        forall|i: int| 0 <= i < readers@.len() ==> mergeable(#[trigger] readers@[i]),
    ensures
        r is Ok,
        match r {
            Ok(bytes) => {
                &&& good_file(bytes@)
                &&& toc_ordered(bytes@)
                &&& forall|t: Seq<char>|
                    has_term(file_toc(bytes@)->Some_0, t) == readers_has_term(readers@, t)
                &&& forall|t: Seq<char>|
                    term_data(bytes@, 8, file_toc(bytes@)->Some_0, t) == readers_term_data(
                        readers@,
                        t,
                    )
                &&& forall|t: Seq<char>|
                    term_doc_count(file_toc(bytes@)->Some_0, t) % 0x1_0000_0000
                        == readers_term_count(readers@, t) % 0x1_0000_0000
            },
            Err(_) => true,
        },
{
    let ghost snapshot = readers@;
    merge_streams_with(readers, Ghost(snapshot))
}

/// The merge pass itself, carrying the readers' initial state as a ghost
/// snapshot so the loops can speak of it.
fn merge_streams_with(
    readers: Vec<IndexFileReader>,
    Ghost(rs_init): Ghost<Seq<IndexFileReader>>,
) -> (r: Result<Vec<u8>, IndexError>)
    requires
        rs_init == readers@,
        forall|i: int| 0 <= i < rs_init.len() ==> mergeable(#[trigger] rs_init[i]),
    ensures
        r is Ok,
        match r {
            Ok(bytes) => {
                &&& good_file(bytes@)
                &&& toc_ordered(bytes@)
                &&& forall|t: Seq<char>|
                    has_term(file_toc(bytes@)->Some_0, t) == readers_has_term(rs_init, t)
                &&& forall|t: Seq<char>|
                    term_data(bytes@, 8, file_toc(bytes@)->Some_0, t) == readers_term_data(
                        rs_init,
                        t,
                    )
                &&& forall|t: Seq<char>|
                    term_doc_count(file_toc(bytes@)->Some_0, t) % 0x1_0000_0000
                        == readers_term_count(rs_init, t) % 0x1_0000_0000
            },
            Err(_) => true,
        },
{
    let mut readers = readers;
    let mut out = IndexFileWriter::new();
    let ghost mut written: Seq<EntryModel> = Seq::empty();
    proof {
        vstd::bytes::lemma_auto_spec_u64_to_from_le_bytes();
        assert(toc_bytes(written) =~= Seq::<u8>::empty());
        assert(entries_cover(written, 8, 8));
        assert forall|t: Seq<char>|
            term_data(out.writer@, 8, written, t) + readers_term_data(readers@, t)
                =~= readers_term_data(rs_init, t) by {
            assert(term_data(out.writer@, 8, written, t) == Seq::<u8>::empty());
        }
        assert(forall|t: Seq<char>| term_doc_count(written, t) == 0);
        assert(forall|t: Seq<char>| !has_term(written, t));
    }
    loop
        invariant
            out.wf(),
            out.contents_buf@ == toc_bytes(written),
            entries_cover(written, 8, out.offset as int),
            entries_ordered(written),
            forall|w: int| 0 <= w < written.len() ==> entry_wf(#[trigger] written[w]),
            forall|i: int| 0 <= i < readers@.len() ==> mergeable(#[trigger] readers@[i]),
            forall|w: int, i: int|
                0 <= w < written.len() && 0 <= i < readers@.len() && (#[trigger] readers@[i]).pending().len()
                    > 0 ==> lex_lt(
                    encode_utf8((#[trigger] written[w]).term),
                    encode_utf8(readers@[i].pending()[0].term),
                ),
            forall|t: Seq<char>|
                term_data(out.writer@, 8, written, t) + readers_term_data(readers@, t)
                    == readers_term_data(rs_init, t),
            forall|t: Seq<char>|
                (term_doc_count(written, t) + readers_term_count(readers@, t)) % 0x1_0000_0000
                    == readers_term_count(rs_init, t) % 0x1_0000_0000,
            forall|t: Seq<char>|
                (has_term(written, t) || readers_has_term(readers@, t)) == readers_has_term(
                    rs_init,
                    t,
                ),
        ensures
            forall|j: int| 0 <= j < readers@.len() ==> (#[trigger] readers@[j]).pending().len()
                == 0,
        decreases total_pending(readers@),
    {
        let ghost rs0 = readers@;
        // find the smallest pending term across all readers
        let mut term: Option<String> = None;
        let ghost mut widx: int = 0;
        let mut i: usize = 0;
        while i < readers.len()
            invariant
                i <= readers@.len(),
                readers@ == rs0,
                forall|j: int| 0 <= j < readers@.len() ==> mergeable(#[trigger] readers@[j]),
                match term {
                    None => forall|j: int|
                        0 <= j < i ==> (#[trigger] rs0[j]).pending().len() == 0,
                    Some(t) => {
                        &&& 0 <= widx < i
                        &&& rs0[widx].pending().len() > 0
                        &&& rs0[widx].pending()[0].term == t@
                        &&& forall|j: int|
                            0 <= j < i && (#[trigger] rs0[j]).pending().len() > 0 ==> lex_le(
                                encode_utf8(t@),
                                encode_utf8(rs0[j].pending()[0].term),
                            )
                    },
                },
            decreases readers@.len() - i,
        {
            let rd = &readers[i];
            match rd.peek() {
                None => {
                    proof {
                        assert(rs0[i as int].pending() =~= Seq::<EntryModel>::empty());
                    }
                },
                Some(e) => {
                    proof {
                        assert(rs0[i as int].pending()[0] == e.model());
                    }
                    match &term {
                        None => {
                            let t2 = e.term.clone();
                            proof {
                                widx = i as int;
                                lemma_lex_le_total(encode_utf8(e.term@), encode_utf8(e.term@));
                            }
                            term = Some(t2);
                        },
                        Some(t) => {
                            let c = str_cmp(e.term.as_str(), t.as_str());
                            if c == 0 {
                                let t2 = e.term.clone();
                                proof {
                                    widx = i as int;
                                    lemma_lex_le_total(encode_utf8(e.term@), encode_utf8(e.term@));
                                    assert forall|j: int|
                                        0 <= j < i + 1 && (#[trigger] rs0[j]).pending().len() > 0
                                            implies lex_le(
                                        encode_utf8(e.term@),
                                        encode_utf8(rs0[j].pending()[0].term),
                                    ) by {
                                        if j < i {
                                            lemma_lex_le_transitive(
                                                encode_utf8(e.term@),
                                                encode_utf8(t@),
                                                encode_utf8(rs0[j].pending()[0].term),
                                            );
                                        }
                                    }
                                }
                                term = Some(t2);
                            } else {
                                proof {
                                    lemma_lex_le_total(encode_utf8(t@), encode_utf8(e.term@));
                                }
                            }
                        },
                    }
                },
            }
            i = i + 1;
        }
        match term {
            None => {
                break;
            },
            Some(t) => {
                let start = out.offset;
                let mut df: u32 = 0;
                let ghost round_total = total_pending(readers@);
                let ghost w0 = out.writer@;
                proof {
                    assert(w0.subrange(start as int, start as int) =~= Seq::<u8>::empty());
                    assert forall|tt: Seq<char>|
                        #![trigger readers_term_data(rs0, tt)]
                        Seq::<u8>::empty() + readers_term_data(rs0, tt) =~= readers_term_data(
                            rs0,
                            tt,
                        ) by {
                    }
                }
                let mut i: usize = 0;
                while i < readers.len()
                    invariant
                        i <= readers@.len(),
                        readers@.len() == rs0.len(),
                        forall|j: int| i <= j < rs0.len() ==> readers@[j] == rs0[j],
                        forall|j: int| 0 <= j < readers@.len() ==> mergeable(
                            #[trigger] readers@[j],
                        ),
                        forall|j: int|
                            0 <= j < readers@.len() && (#[trigger] readers@[j]).pending().len() > 0
                                ==> lex_le(
                                encode_utf8(t@),
                                encode_utf8(readers@[j].pending()[0].term),
                            ),
                        forall|j: int| 0 <= j < i ==> !has_term(
                            (#[trigger] readers@[j]).pending(),
                            t@,
                        ),
                        forall|j: int|
                            0 <= j < i && (#[trigger] readers@[j]).pending().len() > 0 ==> lex_lt(
                                encode_utf8(t@),
                                encode_utf8(readers@[j].pending()[0].term),
                            ),
                        forall|w: int| 0 <= w < written.len() ==> lex_lt(
                            encode_utf8((#[trigger] written[w]).term),
                            encode_utf8(t@),
                        ),
                        out.wf(),
                        out.contents_buf@ == toc_bytes(written),
                        entries_cover(written, 8, start as int),
                        entries_ordered(written),
                        forall|w: int| 0 <= w < written.len() ==> entry_wf(#[trigger] written[w]),
                        start <= out.offset,
                        w0.len() == start,
                        forall|b: int| 0 <= b < start ==> out.writer@[b] == w0[b],
                        out.writer@.subrange(start as int, out.offset as int) + readers_term_data(
                            readers@,
                            t@,
                        ) == readers_term_data(rs0, t@),
                        forall|tt: Seq<char>|
                            tt != t@ ==> readers_term_data(readers@, tt) == readers_term_data(
                                rs0,
                                tt,
                            ),
                        (df as int + readers_term_count(readers@, t@)) % 0x1_0000_0000
                            == readers_term_count(rs0, t@) % 0x1_0000_0000,
                        forall|tt: Seq<char>|
                            tt != t@ ==> readers_term_count(readers@, tt) == readers_term_count(
                                rs0,
                                tt,
                            ),
                        forall|tt: Seq<char>|
                            readers_has_term(readers@, tt) ==> readers_has_term(rs0, tt),
                        forall|tt: Seq<char>|
                            tt != t@ && readers_has_term(rs0, tt) ==> readers_has_term(
                                readers@,
                                tt,
                            ),
                        total_pending(readers@) <= round_total,
                        i > widx ==> total_pending(readers@) < round_total,
                        0 <= widx < rs0.len(),
                        rs0[widx].pending().len() > 0 && rs0[widx].pending()[0].term == t@,
                        encode_utf8(t@).len() <= u32::MAX,
                    decreases readers@.len() - i,
                {
                    let matched = readers[i].is_at(t.as_str());
                    if matched {
                        let df_add = match readers[i].peek() {
                            Some(e) => e.doc_count,
                            None => 0,
                        };
                        let ghost df0 = df as int;
                        let sum64 = df as u64 + df_add as u64;
                        proof {
                            lemma_trunc32_u64(sum64);
                        }
                        df = #[verifier::truncate] (sum64 as u32);
                        let ghost pre = readers@;
                        let ghost pre_total = total_pending(readers@);
                        let ghost acc0 = out.writer@.subrange(start as int, out.offset as int);
                        proof {
                            assert(pre[i as int].pending()[0].term == t@);
                            assert(pre[i as int].pending()[0].doc_count == df_add);
                        }
                        let rd = &mut readers[i];
                        let res = rd.move_entry_to(&mut out);
                        match res {
                            Ok(()) => {},
                            Err(e2) => {
                                proof {
                                    assert(pre[i as int].good());
                                    assert(false);
                                }
                                return Err(e2);
                            },
                        }
                        proof {
                            let rd2 = readers@[i as int];
                            assert(readers@ =~= pre.update(i as int, rd2));
                            assert(readers@.take(i as int) =~= pre.take(i as int));
                            assert(readers@.skip(i as int + 1) =~= pre.skip(i as int + 1));
                            let old_pending = pre[i as int].pending();
                            let head = old_pending[0];
                            assert(head.term == t@ && head.doc_count == df_add);
                            assert(rd2.entries() == Some(old_pending.drop_first()));
                            assert(rd2.pending() =~= old_pending.drop_first());
                            assert(forall|k: int|
                                0 <= k < rd2.pending().len() ==> (#[trigger] rd2.pending()[k])
                                    == old_pending[k + 1]);
                            // the shortened reader is still mergeable
                            assert(mergeable(rd2));
                            // nothing is left in it for this term: its records
                            // are strictly ordered and its head was its one
                            // record for the term
                            assert forall|k: int| 0 <= k < rd2.pending().len() implies (
                            #[trigger] rd2.pending()[k]).term != t@ by {
                                assert(lex_lt(
                                    encode_utf8(old_pending[0].term),
                                    encode_utf8(old_pending[k + 1].term),
                                ));
                                if rd2.pending()[k].term == t@ {
                                    assert(encode_utf8(old_pending[k + 1].term) == encode_utf8(
                                        t@,
                                    ));
                                }
                            }
                            lemma_term_data_absent(
                                rd2.file@,
                                rd2.data_pos as int,
                                rd2.pending(),
                                t@,
                            );
                            // its new head, if any, comes strictly after the term
                            if rd2.pending().len() > 0 {
                                assert(lex_lt(
                                    encode_utf8(old_pending[0].term),
                                    encode_utf8(old_pending[1].term),
                                ));
                            }
                            // the moved bytes are exactly this reader's data for
                            // the term's head record
                            let moved = pre[i as int].file@.subrange(
                                pre[i as int].data_pos as int,
                                pre[i as int].data_pos + head.nbytes,
                            );
                            assert forall|tt: Seq<char>|
                                #![trigger reader_term_data(rd2, tt)]
                                reader_term_data(pre[i as int], tt) == (if head.term == tt {
                                    moved
                                } else {
                                    Seq::<u8>::empty()
                                }) + reader_term_data(rd2, tt) && reader_term_count(
                                pre[i as int],
                                tt,
                            ) == (if head.term == tt {
                                df_add as int
                            } else {
                                0
                            }) + reader_term_count(rd2, tt) by {
                                if head.term != tt {
                                    assert(Seq::<u8>::empty() + reader_term_data(rd2, tt)
                                        =~= reader_term_data(rd2, tt));
                                }
                            }
                            // readers processed earlier hold nothing for the term
                            assert forall|j: int| 0 <= j < pre.take(i as int).len() implies
                                !has_term((#[trigger] pre.take(i as int)[j]).pending(), t@) by {
                                assert(pre.take(i as int)[j] == pre[j]);
                            }
                            lemma_readers_term_absent(pre.take(i as int), t@);
                            // this term's conservation through the move
                            lemma_readers_split(pre, i as int, t@);
                            lemma_readers_split(readers@, i as int, t@);
                            assert(readers_term_data(pre, t@) =~= moved + (reader_term_data(
                                rd2,
                                t@,
                            ) + readers_term_data(pre.skip(i as int + 1), t@)));
                            assert(readers_term_data(readers@, t@) =~= reader_term_data(rd2, t@)
                                + readers_term_data(pre.skip(i as int + 1), t@));
                            assert(readers_term_data(pre, t@) =~= moved + readers_term_data(
                                readers@,
                                t@,
                            ));
                            assert(readers_term_count(pre, t@) == df_add + readers_term_count(
                                readers@,
                                t@,
                            ));
                            // every other term is untouched
                            assert forall|tt: Seq<char>| tt != t@ implies readers_term_data(
                                readers@,
                                tt,
                            ) == readers_term_data(pre, tt) && readers_term_count(readers@, tt)
                                == readers_term_count(pre, tt) by {
                                lemma_readers_split(pre, i as int, tt);
                                lemma_readers_split(readers@, i as int, tt);
                                assert(readers_term_data(pre, tt) =~= readers_term_data(
                                    readers@,
                                    tt,
                                ));
                            }
                            // the accumulated output grew by exactly the moved bytes
                            assert(out.writer@.subrange(start as int, out.offset as int)
                                =~= acc0 + moved);
                            assert((acc0 + moved) + readers_term_data(readers@, t@) =~= acc0 + (
                            moved + readers_term_data(readers@, t@)));
                            // the accumulated count stays congruent
                            assert(df as int == (df0 + df_add) % 0x1_0000_0000);
                            lemma_congruent_add(
                                (df0 + df_add) % 0x1_0000_0000,
                                df0 + df_add,
                                readers_term_count(readers@, t@),
                            );
                            assert((df as int + readers_term_count(readers@, t@)) % 0x1_0000_0000
                                == (df0 + readers_term_count(pre, t@)) % 0x1_0000_0000);
                            // term presence carries over through the update
                            assert forall|tt: Seq<char>|
                                readers_has_term(readers@, tt) implies readers_has_term(pre, tt)
                                by {
                                let wj = choose|wj: int|
                                    0 <= wj < readers@.len() && has_term(
                                        (#[trigger] readers@[wj]).pending(),
                                        tt,
                                    );
                                if wj == i {
                                    let wk = choose|wk: int|
                                        0 <= wk < rd2.pending().len() && (
                                        #[trigger] rd2.pending()[wk]).term == tt;
                                    assert(old_pending[wk + 1].term == tt);
                                    assert(has_term(old_pending, tt));
                                } else {
                                    assert(has_term(pre[wj].pending(), tt));
                                }
                            }
                            assert forall|tt: Seq<char>|
                                tt != t@ && readers_has_term(pre, tt) implies readers_has_term(
                                readers@,
                                tt,
                            ) by {
                                let wj = choose|wj: int|
                                    0 <= wj < pre.len() && has_term(
                                        (#[trigger] pre[wj]).pending(),
                                        tt,
                                    );
                                if wj == i {
                                    let wk = choose|wk: int|
                                        0 <= wk < old_pending.len() && (
                                        #[trigger] old_pending[wk]).term == tt;
                                    assert(wk != 0);
                                    assert(rd2.pending()[wk - 1].term == tt);
                                    assert(has_term(rd2.pending(), tt));
                                } else {
                                    assert(has_term(readers@[wj].pending(), tt));
                                }
                            }
                            lemma_total_pending_update(pre, i as int, rd2);
                        }
                    } else {
                        proof {
                            let pend = readers@[i as int].pending();
                            if pend.len() > 0 {
                                let head = pend[0];
                                assert(head.term != t@);
                                if encode_utf8(head.term) == encode_utf8(t@) {
                                    vstd::utf8::encode_utf8_decode_utf8(head.term);
                                    vstd::utf8::encode_utf8_decode_utf8(t@);
                                }
                                assert(lex_lt(encode_utf8(t@), encode_utf8(head.term)));
                                // no deeper record carries the term either
                                assert forall|k: int| 0 <= k < pend.len() implies (
                                #[trigger] pend[k]).term != t@ by {
                                    if k > 0 && pend[k].term == t@ {
                                        assert(lex_lt(
                                            encode_utf8(head.term),
                                            encode_utf8(pend[k].term),
                                        ));
                                        lemma_lex_le_antisymmetric(
                                            encode_utf8(t@),
                                            encode_utf8(head.term),
                                        );
                                    }
                                }
                                assert(!has_term(pend, t@)) by {
                                    if has_term(pend, t@) {
                                        let wk = choose|wk: int|
                                            0 <= wk < pend.len() && (#[trigger] pend[wk]).term
                                                == t@;
                                    }
                                }
                            } else {
                                assert(!has_term(pend, t@)) by {
                                    if has_term(pend, t@) {
                                        let wk = choose|wk: int|
                                            0 <= wk < pend.len() && (#[trigger] pend[wk]).term
                                                == t@;
                                    }
                                }
                            }
                        }
                    }
                    i = i + 1;
                }
                let stop = out.offset;
                let nbytes = (stop - start) as u64;
                let ghost new_entry = EntryModel {
                    offset: start as u64,
                    nbytes,
                    doc_count: df,
                    term: t@,
                };
                out.write_contents_entry(t, df, start as u64, nbytes);
                proof {
                    lemma_toc_bytes_push(written, new_entry);
                    lemma_entries_cover_push(written, new_entry, 8, start as int);
                    lemma_cover_total(written, 8, start as int);
                    // nothing is left anywhere for this term
                    assert forall|j: int| 0 <= j < readers@.len() implies !has_term(
                        (#[trigger] readers@[j]).pending(),
                        t@,
                    ) by {
                    }
                    lemma_readers_term_absent(readers@, t@);
                    let written2 = written.push(new_entry);
                    assert(entries_ordered(written2)) by {
                        assert(forall|x: int|
                            0 <= x < written.len() ==> (#[trigger] written2[x]) == written[x]);
                        assert(written2[written.len() as int] == new_entry);
                    }
                    assert forall|w: int, j: int|
                        0 <= w < written2.len() && 0 <= j < readers@.len() && (
                        #[trigger] readers@[j]).pending().len() > 0 implies lex_lt(
                        encode_utf8((#[trigger] written2[w]).term),
                        encode_utf8(readers@[j].pending()[0].term),
                    ) by {
                        if w < written.len() {
                            lemma_lex_le_transitive(
                                encode_utf8(written[w].term),
                                encode_utf8(t@),
                                encode_utf8(readers@[j].pending()[0].term),
                            );
                            if encode_utf8(written[w].term) == encode_utf8(
                                readers@[j].pending()[0].term,
                            ) {
                                lemma_lex_le_antisymmetric(
                                    encode_utf8(t@),
                                    encode_utf8(readers@[j].pending()[0].term),
                                );
                            }
                        }
                    }
                    // the new record holds exactly what the readers held for
                    // the term at the start of the round
                    let acc = out.writer@.subrange(start as int, stop as int);
                    assert(acc + Seq::<u8>::empty() =~= acc);
                    assert(acc == readers_term_data(rs0, t@));
                    assert forall|tt: Seq<char>|
                        term_data(out.writer@, 8, written2, tt) + readers_term_data(readers@, tt)
                            == readers_term_data(rs_init, tt) by {
                        lemma_term_data_push(out.writer@, 8, written, new_entry, tt);
                        lemma_term_data_agree(out.writer@, w0, 8, written, tt);
                        if tt == t@ {
                            assert(term_data(out.writer@, 8, written2, tt) =~= term_data(
                                w0,
                                8,
                                written,
                                tt,
                            ) + acc);
                            assert((term_data(w0, 8, written, tt) + acc) + Seq::<u8>::empty()
                                =~= term_data(w0, 8, written, tt) + readers_term_data(rs0, tt));
                        } else {
                            assert(term_data(out.writer@, 8, written2, tt) =~= term_data(
                                w0,
                                8,
                                written,
                                tt,
                            ));
                        }
                    }
                    assert forall|tt: Seq<char>|
                        (term_doc_count(written2, tt) + readers_term_count(readers@, tt))
                            % 0x1_0000_0000 == readers_term_count(rs_init, tt) % 0x1_0000_0000
                        by {
                        lemma_term_data_push(out.writer@, 8, written, new_entry, tt);
                        if tt == t@ {
                            assert(readers_term_count(readers@, tt) == 0);
                            assert(df as int == readers_term_count(rs0, tt) % 0x1_0000_0000);
                            lemma_congruent_add(
                                readers_term_count(rs0, tt) % 0x1_0000_0000,
                                readers_term_count(rs0, tt),
                                term_doc_count(written, tt),
                            );
                        }
                    }
                    assert forall|tt: Seq<char>|
                        (has_term(written2, tt) || readers_has_term(readers@, tt))
                            == readers_has_term(rs_init, tt) by {
                        lemma_term_data_push(out.writer@, 8, written, new_entry, tt);
                        if tt == t@ {
                            assert(has_term(rs0[widx].pending(), tt)) by {
                                assert(rs0[widx].pending()[0].term == tt);
                            }
                            assert(readers_has_term(rs0, tt));
                        }
                    }
                    written = written2;
                }
            },
        }
    }
    let ghost final_offset = out.offset;
    let bytes = out.finish();
    proof {
        vstd::bytes::lemma_auto_spec_u64_to_from_le_bytes();
        lemma_parse_toc_bytes(written);
        assert(bytes@.len() == final_offset + toc_bytes(written).len());
        assert(bytes@.subrange(0, 8) =~= vstd::bytes::spec_u64_to_le_bytes(final_offset as u64));
        assert(bytes@.subrange(final_offset as int, bytes@.len() as int) =~= toc_bytes(written));
        assert(bytes@.skip(final_offset as int) == bytes@.subrange(
            final_offset as int,
            bytes@.len() as int,
        ));
        assert(file_toc(bytes@) == Some(written));
        lemma_cover_data_ok(written, 8, final_offset as int, bytes@.len() as int);
        assert(good_file(bytes@));
        assert(toc_ordered(bytes@));
        assert(file_toc(bytes@)->Some_0 == written);
        lemma_cover_total(written, 8, final_offset as int);
        assert forall|tt: Seq<char>|
            term_data(bytes@, 8, written, tt) == readers_term_data(rs_init, tt) by {
            assert forall|j: int| 0 <= j < readers@.len() implies !has_term(
                (#[trigger] readers@[j]).pending(),
                tt,
            ) by {
                if has_term(readers@[j].pending(), tt) {
                    let wk = choose|wk: int|
                        0 <= wk < readers@[j].pending().len() && (
                        #[trigger] readers@[j].pending()[wk]).term == tt;
                }
            }
            lemma_readers_term_absent(readers@, tt);
            assert(term_data(out.writer@, 8, written, tt) + Seq::<u8>::empty() =~= term_data(
                out.writer@,
                8,
                written,
                tt,
            ));
            assert forall|b: int| 8 <= b < final_offset implies bytes@[b] == out.writer@[b] by {
                assert(bytes@[b] == out.writer@.skip(8)[b - 8]);
            }
            lemma_term_data_agree(bytes@, out.writer@, 8, written, tt);
        }
        assert forall|tt: Seq<char>|
            term_doc_count(written, tt) % 0x1_0000_0000 == readers_term_count(rs_init, tt)
                % 0x1_0000_0000 && has_term(written, tt) == readers_has_term(rs_init, tt) by {
            assert forall|j: int| 0 <= j < readers@.len() implies !has_term(
                (#[trigger] readers@[j]).pending(),
                tt,
            ) by {
                if has_term(readers@[j].pending(), tt) {
                    let wk = choose|wk: int|
                        0 <= wk < readers@[j].pending().len() && (
                        #[trigger] readers@[j].pending()[wk]).term == tt;
                }
            }
            lemma_readers_term_absent(readers@, tt);
        }
        assert forall|t: Seq<char>|
            has_term(file_toc(bytes@)->Some_0, t) == readers_has_term(rs_init, t) by {}
        assert forall|t: Seq<char>|
            term_data(bytes@, 8, file_toc(bytes@)->Some_0, t) == readers_term_data(rs_init, t)
            by {}
        assert forall|t: Seq<char>|
            term_doc_count(file_toc(bytes@)->Some_0, t) % 0x1_0000_0000 == readers_term_count(
                rs_init,
                t,
            ) % 0x1_0000_0000 by {
            assert forall|j: int| 0 <= j < readers@.len() implies !has_term(
                (#[trigger] readers@[j]).pending(),
                t,
            ) by {
                if has_term(readers@[j].pending(), t) {
                    let wk = choose|wk: int|
                        0 <= wk < readers@[j].pending().len() && (
                        #[trigger] readers@[j].pending()[wk]).term == t;
                }
            }
            lemma_readers_term_absent(readers@, t);
        }
    }
    Ok(bytes)
}


/// The hit data one file image holds for term `t`.
pub open spec fn file_term_data(s: Seq<u8>, t: Seq<char>) -> Seq<u8> {
    match file_toc(s) {
        Some(es) => term_data(s, 8, es, t),
        None => seq![],
    }
}

/// The documents one file image records for term `t`.
pub open spec fn file_term_count(s: Seq<u8>, t: Seq<char>) -> int {
    match file_toc(s) {
        Some(es) => term_doc_count(es, t),
        None => 0,
    }
}

/// Whether one file image has a record for term `t`.
pub open spec fn file_has_term(s: Seq<u8>, t: Seq<char>) -> bool {
    match file_toc(s) {
        Some(es) => has_term(es, t),
        None => false,
    }
}

/// The hit data a set of file images holds for term `t`, in file order.
pub open spec fn files_term_data(fs: Seq<Vec<u8>>, t: Seq<char>) -> Seq<u8>
    decreases fs.len(),
{
    if fs.len() == 0 {
        seq![]
    } else {
        file_term_data(fs[0]@, t) + files_term_data(fs.drop_first(), t)
    }
}

/// The documents a set of file images records for term `t`.
pub open spec fn files_term_count(fs: Seq<Vec<u8>>, t: Seq<char>) -> int
    decreases fs.len(),
{
    if fs.len() == 0 {
        0
    } else {
        file_term_count(fs[0]@, t) + files_term_count(fs.drop_first(), t)
    }
}

/// Whether any of a set of file images has a record for term `t`.
pub open spec fn files_has_term(fs: Seq<Vec<u8>>, t: Seq<char>) -> bool {
    exists|i: int| 0 <= i < fs.len() && file_has_term((#[trigger] fs[i])@, t)
}

/// File sets contribute part by part.
proof fn lemma_files_concat(x: Seq<Vec<u8>>, y: Seq<Vec<u8>>, t: Seq<char>)
    ensures
        files_term_data(x + y, t) == files_term_data(x, t) + files_term_data(y, t),
        files_term_count(x + y, t) == files_term_count(x, t) + files_term_count(y, t),
        files_has_term(x + y, t) == (files_has_term(x, t) || files_has_term(y, t)),
    decreases x.len(),
{
    if x.len() == 0 {
        assert(x + y =~= y);
        assert(files_term_data(x, t) + files_term_data(y, t) =~= files_term_data(y, t));
        assert(!files_has_term(x, t)) by {
            if files_has_term(x, t) {
                let w = choose|w: int| 0 <= w < x.len() && file_has_term((#[trigger] x[w])@, t);
            }
        }
    } else {
        assert((x + y)[0] == x[0]);
        assert((x + y).drop_first() =~= x.drop_first() + y);
        lemma_files_concat(x.drop_first(), y, t);
        assert(files_term_data(x + y, t) =~= files_term_data(x, t) + files_term_data(y, t));
        assert(forall|i: int|
            0 <= i < x.drop_first().len() ==> (#[trigger] x.drop_first()[i]) == x[i + 1]);
        if files_has_term(x + y, t) {
            let w = choose|w: int|
                0 <= w < (x + y).len() && file_has_term((#[trigger] (x + y)[w])@, t);
            if w < x.len() {
                assert(file_has_term(x[w]@, t));
            } else {
                assert(file_has_term(y[w - x.len()]@, t));
            }
        }
        if files_has_term(x, t) {
            let w = choose|w: int| 0 <= w < x.len() && file_has_term((#[trigger] x[w])@, t);
            assert(file_has_term((x + y)[w]@, t));
        }
        if files_has_term(y, t) {
            let w = choose|w: int| 0 <= w < y.len() && file_has_term((#[trigger] y[w])@, t);
            assert(file_has_term((x + y)[w + x.len()]@, t));
        }
    }
}

/// A single file image contributes exactly its own data.
proof fn lemma_files_singleton(f: Vec<u8>, t: Seq<char>)
    ensures
        files_term_data(seq![f], t) == file_term_data(f@, t),
        files_term_count(seq![f], t) == file_term_count(f@, t),
        files_has_term(seq![f], t) == file_has_term(f@, t),
{
    assert(seq![f].drop_first() =~= Seq::<Vec<u8>>::empty());
    assert(files_term_data(Seq::<Vec<u8>>::empty(), t) == Seq::<u8>::empty());
    assert(files_term_count(Seq::<Vec<u8>>::empty(), t) == 0);
    assert(files_term_data(seq![f], t) =~= file_term_data(f@, t));
    if file_has_term(f@, t) {
        assert(file_has_term(seq![f][0]@, t));
    }
    if files_has_term(seq![f], t) {
        let w = choose|w: int| 0 <= w < 1 && file_has_term((#[trigger] seq![f][w])@, t);
    }
}

/// One more reader contributes after the others.
proof fn lemma_readers_push(rs: Seq<IndexFileReader>, rd: IndexFileReader, t: Seq<char>)
    ensures
        readers_term_data(rs.push(rd), t) == readers_term_data(rs, t) + reader_term_data(rd, t),
        readers_term_count(rs.push(rd), t) == readers_term_count(rs, t) + reader_term_count(
            rd,
            t,
        ),
        readers_has_term(rs.push(rd), t) == (readers_has_term(rs, t) || has_term(rd.pending(), t)),
    decreases rs.len(),
{
    if rs.len() == 0 {
        assert(rs.push(rd) =~= seq![rd]);
        assert(seq![rd].drop_first() =~= Seq::<IndexFileReader>::empty());
        assert(readers_term_data(seq![rd].drop_first(), t) == Seq::<u8>::empty());
        assert(readers_term_data(rs.push(rd), t) =~= readers_term_data(rs, t)
            + reader_term_data(rd, t));
        assert(readers_term_count(rs.push(rd), t) == reader_term_count(rd, t)
            + readers_term_count(seq![rd].drop_first(), t));
        assert(!readers_has_term(rs, t)) by {
            if readers_has_term(rs, t) {
                let w = choose|w: int|
                    0 <= w < rs.len() && has_term((#[trigger] rs[w]).pending(), t);
            }
        }
        if has_term(rd.pending(), t) {
            assert(has_term(rs.push(rd)[0].pending(), t));
        }
        if readers_has_term(rs.push(rd), t) {
            let w = choose|w: int|
                0 <= w < rs.push(rd).len() && has_term((#[trigger] rs.push(rd)[w]).pending(), t);
            assert(w == 0);
        }
    } else {
        assert(rs.push(rd)[0] == rs[0]);
        assert(rs.push(rd).drop_first() =~= rs.drop_first().push(rd));
        lemma_readers_push(rs.drop_first(), rd, t);
        assert(readers_term_data(rs.push(rd), t) =~= readers_term_data(rs, t)
            + reader_term_data(rd, t));
        assert(forall|i: int|
            0 <= i < rs.drop_first().len() ==> (#[trigger] rs.drop_first()[i]) == rs[i + 1]);
        if readers_has_term(rs, t) {
            let w = choose|w: int| 0 <= w < rs.len() && has_term((#[trigger] rs[w]).pending(), t);
            assert(has_term(rs.push(rd)[w].pending(), t));
        }
        if has_term(rd.pending(), t) {
            assert(has_term(rs.push(rd)[rs.len() as int].pending(), t));
        }
        if readers_has_term(rs.push(rd), t) {
            let w = choose|w: int|
                0 <= w < rs.push(rd).len() && has_term((#[trigger] rs.push(rd)[w]).pending(), t);
            if w < rs.len() {
                assert(has_term(rs[w].pending(), t));
            }
        }
    }
}

/// Merge a whole set of term-sorted index file images down to one, never
/// merging more than `fan_in` images in a single pass: the set is merged in
/// groups, the resulting images merged again, until exactly one remains. The
/// final image covers exactly the union of the inputs: a term stands in it
/// exactly when some input has it, its data is the inputs\' data for the term
/// concatenated in input order, and its document count is the inputs\' counts
/// summed (reduced to 32 bits, as the field is stored).
pub fn merge_all(files: Vec<Vec<u8>>, fan_in: usize) -> (r: Result<Vec<u8>, IndexError>)
    requires
        fan_in >= 2,
        forall|i: int| 0 <= i < files@.len() ==> good_file((#[trigger] files@[i])@),
    ensures
        r is Ok,
        match r {
            Ok(bytes) => {
                &&& good_file(bytes@)
                &&& toc_ordered(bytes@)
                &&& forall|t: Seq<char>| file_term_data(bytes@, t) == files_term_data(files@, t)
                &&& forall|t: Seq<char>|
                    file_term_count(bytes@, t) % 0x1_0000_0000 == files_term_count(files@, t)
                        % 0x1_0000_0000
                &&& forall|t: Seq<char>| file_has_term(bytes@, t) == files_has_term(files@, t)
            },
            Err(_) => true,
        },
{
    let ghost snapshot = files@;
    merge_all_with(files, fan_in, Ghost(snapshot))
}

/// The multi-pass reduction itself, carrying the input set as a ghost
/// snapshot so the loops can speak of it.
fn merge_all_with(
    files: Vec<Vec<u8>>,
    fan_in: usize,
    Ghost(fs_init): Ghost<Seq<Vec<u8>>>,
) -> (r: Result<Vec<u8>, IndexError>)
    requires
        fs_init == files@,
        fan_in >= 2,
        forall|i: int| 0 <= i < fs_init.len() ==> good_file((#[trigger] fs_init[i])@),
    ensures
        r is Ok,
        match r {
            Ok(bytes) => {
                &&& good_file(bytes@)
                &&& toc_ordered(bytes@)
                &&& forall|t: Seq<char>| file_term_data(bytes@, t) == files_term_data(fs_init, t)
                &&& forall|t: Seq<char>|
                    file_term_count(bytes@, t) % 0x1_0000_0000 == files_term_count(fs_init, t)
                        % 0x1_0000_0000
                &&& forall|t: Seq<char>| file_has_term(bytes@, t) == files_has_term(fs_init, t)
            },
            Err(_) => true,
        },
{
    let mut files = files;
    if files.len() == 0 {
        // no inputs at all: one empty index image
        let readers: Vec<IndexFileReader> = Vec::new();
        let ghost er = readers@;
        let merged = match merge_streams(readers) {
            Ok(b) => b,
            Err(e) => {
                return Err(e);
            },
        };
        proof {
            assert(er =~= Seq::<IndexFileReader>::empty());
            assert(fs_init =~= Seq::<Vec<u8>>::empty());
            assert forall|t: Seq<char>|
                #![trigger file_term_data(merged@, t)]
                #![trigger file_term_count(merged@, t)]
                #![trigger file_has_term(merged@, t)]
                file_term_data(merged@, t) == files_term_data(fs_init, t) && file_term_count(
                    merged@,
                    t,
                ) % 0x1_0000_0000 == files_term_count(fs_init, t) % 0x1_0000_0000
                    && file_has_term(merged@, t) == files_has_term(fs_init, t) by {
                assert(readers_term_data(er, t) == Seq::<u8>::empty());
                assert(readers_term_count(er, t) == 0);
                assert(files_term_data(fs_init, t) == Seq::<u8>::empty());
                assert(files_term_count(fs_init, t) == 0);
                assert(!readers_has_term(er, t)) by {
                    if readers_has_term(er, t) {
                        let w = choose|w: int|
                            0 <= w < er.len() && has_term((#[trigger] er[w]).pending(), t);
                    }
                }
                assert(!files_has_term(fs_init, t)) by {
                    if files_has_term(fs_init, t) {
                        let w = choose|w: int|
                            0 <= w < fs_init.len() && file_has_term((#[trigger] fs_init[w])@, t);
                    }
                }
                assert(file_term_data(merged@, t) == term_data(
                    merged@,
                    8,
                    file_toc(merged@)->Some_0,
                    t,
                ));
            }
        }
        files.push(merged);
        proof {
            assert(files@ =~= seq![merged]);
            assert forall|t: Seq<char>|
                #![trigger files_term_data(files@, t)]
                #![trigger files_term_count(files@, t)]
                #![trigger files_has_term(files@, t)]
                files_term_data(files@, t) == files_term_data(fs_init, t) && files_term_count(
                    files@,
                    t,
                ) % 0x1_0000_0000 == files_term_count(fs_init, t) % 0x1_0000_0000
                    && files_has_term(files@, t) == files_has_term(fs_init, t) by {
                lemma_files_singleton(merged, t);
            }
        }
    }
    while files.len() != 1
        invariant
            fan_in >= 2,
            files@.len() >= 1,
            forall|i: int| 0 <= i < files@.len() ==> good_file((#[trigger] files@[i])@),
            forall|t: Seq<char>| files_term_data(files@, t) == files_term_data(fs_init, t),
            forall|t: Seq<char>|
                files_term_count(files@, t) % 0x1_0000_0000 == files_term_count(fs_init, t)
                    % 0x1_0000_0000,
            forall|t: Seq<char>| files_has_term(files@, t) == files_has_term(fs_init, t),
        decreases files@.len(),
    {
        let ghost fs_round = files@;
        let mut next_round: Vec<Vec<u8>> = Vec::new();
        proof {
            assert(next_round@.len() * fan_in == 0) by (nonlinear_arith)
                requires
                    next_round@.len() == 0,
            ;
            assert(files@.skip(0) =~= files@);
            assert forall|t: Seq<char>|
                files_term_data(next_round@, t) + files_term_data(files@.skip(0), t)
                    =~= files_term_data(fs_round, t) by {
            }
            assert forall|t: Seq<char>| !files_has_term(next_round@, t) by {
                if files_has_term(next_round@, t) {
                    let w = choose|w: int|
                        0 <= w < next_round@.len() && file_has_term(
                            (#[trigger] next_round@[w])@,
                            t,
                        );
                }
            }
        }
        let mut i: usize = 0;
        while i < files.len()
            invariant
                fan_in >= 2,
                i <= files@.len(),
                files@.len() >= 2,
                files@ == fs_round,
                forall|g: int| 0 <= g < files@.len() ==> good_file((#[trigger] files@[g])@),
                forall|g: int| 0 <= g < next_round@.len() ==> good_file(
                    (#[trigger] next_round@[g])@,
                ),
                i == next_round@.len() * fan_in || (i == files@.len() && next_round@.len() >= 1
                    && (next_round@.len() - 1) * fan_in < files@.len()),
                forall|t: Seq<char>|
                    files_term_data(next_round@, t) + files_term_data(files@.skip(i as int), t)
                        == files_term_data(fs_round, t),
                forall|t: Seq<char>|
                    (files_term_count(next_round@, t) + files_term_count(
                        files@.skip(i as int),
                        t,
                    )) % 0x1_0000_0000 == files_term_count(fs_round, t) % 0x1_0000_0000,
                forall|t: Seq<char>|
                    (files_has_term(next_round@, t) || files_has_term(files@.skip(i as int), t))
                        == files_has_term(fs_round, t),
            decreases files@.len() - i,
        {
            let group_end = if files.len() - i > fan_in {
                i + fan_in
            } else {
                files.len()
            };
            let mut group: Vec<IndexFileReader> = Vec::new();
            let mut j = i;
            proof {
                assert(files@.subrange(i as int, i as int) =~= Seq::<Vec<u8>>::empty());
                assert forall|t: Seq<char>|
                    readers_term_data(group@, t) == files_term_data(
                        files@.subrange(i as int, i as int),
                        t,
                    ) && readers_term_count(group@, t) == files_term_count(
                        files@.subrange(i as int, i as int),
                        t,
                    ) && readers_has_term(group@, t) == files_has_term(
                        files@.subrange(i as int, i as int),
                        t,
                    ) by {
                    if readers_has_term(group@, t) {
                        let w = choose|w: int|
                            0 <= w < group@.len() && has_term(
                                (#[trigger] group@[w]).pending(),
                                t,
                            );
                    }
                    if files_has_term(files@.subrange(i as int, i as int), t) {
                        let w = choose|w: int|
                            0 <= w < 0 && file_has_term(
                                (#[trigger] files@.subrange(i as int, i as int)[w])@,
                                t,
                            );
                    }
                }
            }
            while j < group_end
                invariant
                    i <= j <= group_end <= files@.len(),
                    forall|g: int| 0 <= g < files@.len() ==> good_file((#[trigger] files@[g])@),
                    forall|g: int| 0 <= g < group@.len() ==> mergeable(#[trigger] group@[g]),
                    forall|t: Seq<char>|
                        readers_term_data(group@, t) == files_term_data(
                            files@.subrange(i as int, j as int),
                            t,
                        ),
                    forall|t: Seq<char>|
                        readers_term_count(group@, t) == files_term_count(
                            files@.subrange(i as int, j as int),
                            t,
                        ),
                    forall|t: Seq<char>|
                        readers_has_term(group@, t) == files_has_term(
                            files@.subrange(i as int, j as int),
                            t,
                        ),
                decreases group_end - j,
            {
                let image = files[j].clone();
                proof {
                    assert(image@ == files@[j as int]@);
                }
                let reader = match IndexFileReader::from_bytes(image) {
                    Ok(rd) => rd,
                    Err(e) => {
                        proof {
                            assert(false);
                        }
                        return Err(e);
                    },
                };
                proof {
                    assert(reader.entries() == file_toc(files@[j as int]@));
                    lemma_file_toc_entries_wf(files@[j as int]@);
                    assert(mergeable(reader));
                }
                let ghost g0 = group@;
                group.push(reader);
                proof {
                    assert(reader.pending() == file_toc(files@[j as int]@)->Some_0);
                    assert forall|t: Seq<char>|
                        reader_term_data(reader, t) == file_term_data(files@[j as int]@, t)
                            && reader_term_count(reader, t) == file_term_count(
                            files@[j as int]@,
                            t,
                        ) && has_term(reader.pending(), t) == file_has_term(
                            files@[j as int]@,
                            t,
                        ) by {
                    }
                    assert(files@.subrange(i as int, j as int + 1) =~= files@.subrange(
                        i as int,
                        j as int,
                    ) + seq![files@[j as int]]);
                    assert forall|t: Seq<char>|
                        readers_term_data(group@, t) == files_term_data(
                            files@.subrange(i as int, j as int + 1),
                            t,
                        ) && readers_term_count(group@, t) == files_term_count(
                            files@.subrange(i as int, j as int + 1),
                            t,
                        ) && readers_has_term(group@, t) == files_has_term(
                            files@.subrange(i as int, j as int + 1),
                            t,
                        ) by {
                        lemma_readers_push(g0, reader, t);
                        lemma_files_concat(
                            files@.subrange(i as int, j as int),
                            seq![files@[j as int]],
                            t,
                        );
                        lemma_files_singleton(files@[j as int], t);
                    }
                }
                j = j + 1;
            }
            let ghost gv = group@;
            let merged = match merge_streams(group) {
                Ok(b) => b,
                Err(e) => {
                    proof {
                        assert(false);
                    }
                    return Err(e);
                },
            };
            let ghost nr0 = next_round@;
            next_round.push(merged);
            proof {
                assert forall|t: Seq<char>|
                    #![trigger files_term_data(next_round@, t)]
                    #![trigger files_term_count(next_round@, t)]
                    #![trigger files_has_term(next_round@, t)]
                    files_term_data(next_round@, t) + files_term_data(
                        files@.skip(group_end as int),
                        t,
                    ) == files_term_data(fs_round, t) && (files_term_count(next_round@, t)
                        + files_term_count(files@.skip(group_end as int), t)) % 0x1_0000_0000
                        == files_term_count(fs_round, t) % 0x1_0000_0000 && (files_has_term(
                        next_round@,
                        t,
                    ) || files_has_term(files@.skip(group_end as int), t)) == files_has_term(
                        fs_round,
                        t,
                    ) by {
                    // the merged image holds exactly the group\'s contribution
                    assert(file_term_data(merged@, t) == readers_term_data(gv, t));
                    assert(file_term_count(merged@, t) % 0x1_0000_0000 == readers_term_count(
                        gv,
                        t,
                    ) % 0x1_0000_0000);
                    assert(file_has_term(merged@, t) == readers_has_term(gv, t));
                    // the unprocessed files split at the group boundary
                    assert(files@.skip(i as int) =~= files@.subrange(i as int, group_end as int)
                        + files@.skip(group_end as int));
                    lemma_files_concat(
                        files@.subrange(i as int, group_end as int),
                        files@.skip(group_end as int),
                        t,
                    );
                    // the new round gains the merged image at its end
                    assert(next_round@ =~= nr0 + seq![merged]);
                    lemma_files_concat(nr0, seq![merged], t);
                    lemma_files_singleton(merged, t);
                    // the data bytes line up exactly
                    assert(files_term_data(next_round@, t) =~= files_term_data(nr0, t)
                        + readers_term_data(gv, t));
                    assert((files_term_data(nr0, t) + readers_term_data(gv, t))
                        + files_term_data(files@.skip(group_end as int), t) =~= files_term_data(
                        nr0,
                        t,
                    ) + (files_term_data(files@.subrange(i as int, group_end as int), t)
                        + files_term_data(files@.skip(group_end as int), t)));
                    // and the counts stay congruent
                    lemma_congruent_add(
                        file_term_count(merged@, t),
                        readers_term_count(gv, t),
                        files_term_count(nr0, t) + files_term_count(
                            files@.skip(group_end as int),
                            t,
                        ),
                    );
                }
            }
            i = group_end;
            proof {
                if group_end < files@.len() {
                    assert(group_end == (next_round@.len() - 1) * fan_in + fan_in);
                    assert(group_end == next_round@.len() * fan_in) by (nonlinear_arith)
                        requires
                            group_end == (next_round@.len() - 1) * fan_in + fan_in,
                            next_round@.len() >= 1,
                    ;
                }
            }
        }
        proof {
            let g = next_round@.len() as int;
            let n = files@.len() as int;
            assert(g < n) by (nonlinear_arith)
                requires
                    n >= 2,
                    fan_in >= 2,
                    g * fan_in == n || (g >= 1 && (g - 1) * fan_in < n),
            ;
            assert(files@.skip(files@.len() as int) =~= Seq::<Vec<u8>>::empty());
            assert forall|t: Seq<char>|
                #![trigger files_term_data(next_round@, t)]
                #![trigger files_term_count(next_round@, t)]
                #![trigger files_has_term(next_round@, t)]
                files_term_data(next_round@, t) == files_term_data(fs_init, t)
                    && files_term_count(next_round@, t) % 0x1_0000_0000 == files_term_count(
                    fs_init,
                    t,
                ) % 0x1_0000_0000 && files_has_term(next_round@, t) == files_has_term(
                    fs_init,
                    t,
                ) by {
                assert(files_term_data(next_round@, t) + Seq::<u8>::empty() =~= files_term_data(
                    next_round@,
                    t,
                ));
                assert(!files_has_term(files@.skip(files@.len() as int), t)) by {
                    if files_has_term(files@.skip(files@.len() as int), t) {
                        let w = choose|w: int|
                            0 <= w < 0 && file_has_term(
                                (#[trigger] files@.skip(files@.len() as int)[w])@,
                                t,
                            );
                    }
                }
            }
        }
        files = next_round;
    }
    let ghost last = files@;
    let out = files.remove(0);
    proof {
        assert(toc_ordered(out@));
        assert(last =~= seq![out]);
        assert forall|t: Seq<char>|
            #![trigger file_term_data(out@, t)]
            #![trigger file_term_count(out@, t)]
            #![trigger file_has_term(out@, t)]
            file_term_data(out@, t) == files_term_data(fs_init, t) && file_term_count(out@, t)
                % 0x1_0000_0000 == files_term_count(fs_init, t) % 0x1_0000_0000 && file_has_term(
                out@,
                t,
            ) == files_has_term(fs_init, t) by {
            lemma_files_singleton(out, t);
            assert(files_term_data(last, t) == files_term_data(fs_init, t));
            assert(files_term_count(last, t) % 0x1_0000_0000 == files_term_count(fs_init, t)
                % 0x1_0000_0000);
            assert(files_has_term(last, t) == files_has_term(fs_init, t));
        }
    }
    Ok(out)
}

} // verus!
