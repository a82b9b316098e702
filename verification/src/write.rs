//! Serializing an index into the binary index file format.
//!
//! The first 8 bytes of an index file image hold the byte offset of the table
//! of contents, little-endian. Then come the hit records of every term, back
//! to back, grouped by term in term-sorted order; the table of contents sits
//! at the end.

use vstd::prelude::*;
use vstd::bytes::{u32_to_le_bytes, u64_to_le_bytes, spec_u32_to_le_bytes, spec_u64_to_le_bytes,
    lemma_auto_spec_u64_to_from_le_bytes};
use vstd::slice::slice_subrange;
use vstd::utf8::encode_utf8;

use crate::index::{Hit, InMemoryIndex, index_map_view};
use crate::model::{EntryModel, concat_hits, data_region, entries_of, index_counts_fit,
    index_file_bytes, lemma_concat_hits_push, lemma_data_region_push, lemma_entries_of_push,
    lemma_toc_bytes_push, lemma_trunc32_usize, toc_bytes, toc_entry_bytes, trunc32};
use crate::IndexError;

verus! {

/// Number of bytes reserved at the front of a file image for the
/// table-of-contents offset.
pub const HEADER_SIZE: usize = 8;

/// Writer that accumulates an index file image.
///
/// The data region and the table of contents grow separately; `finish`
/// assembles the complete image, patching the header with the offset where
/// the table of contents begins.
pub struct IndexFileWriter {
    /// The number of bytes in the data region so far, header included.
    pub offset: usize,
    /// The header placeholder followed by the data region written so far.
    pub writer: Vec<u8>,
    /// The table of contents accumulated so far.
    pub contents_buf: Vec<u8>,
}

impl IndexFileWriter {
    /// The writer's bookkeeping is consistent: `offset` counts the bytes of
    /// the growing image.
    pub open spec fn wf(self) -> bool {
        self.offset == self.writer@.len() && self.offset >= HEADER_SIZE
    }

    /// A fresh writer: only the 8-byte header placeholder has been written.
    pub fn new() -> (w: IndexFileWriter)
        ensures
            w.wf(),
            w.offset == HEADER_SIZE,
            w.writer@ == spec_u64_to_le_bytes(0u64),
            w.contents_buf@ == Seq::<u8>::empty(),
    {
        let writer = u64_to_le_bytes(0u64);
        IndexFileWriter { offset: HEADER_SIZE, writer, contents_buf: Vec::new() }
    }

    /// Append raw hit bytes to the data region.
    pub fn write_data(&mut self, buf: &[u8])
        requires
            old(self).wf(),
        ensures
            final(self).wf(),
            final(self).writer@ == old(self).writer@ + buf@,
            final(self).offset == old(self).offset + buf@.len(),
            final(self).contents_buf == old(self).contents_buf,
    {
        self.writer.extend_from_slice(buf);
        self.offset = self.writer.len();
    }

    /// Append one record to the table of contents: the data range just
    /// written for `term`, and how many documents contain it.
    pub fn write_contents_entry(&mut self, term: String, doc_count: u32, offset: u64, nbytes: u64)
        requires
            encode_utf8(term@).len() <= u32::MAX,
        ensures
            final(self).contents_buf@ == old(self).contents_buf@ + toc_entry_bytes(
                EntryModel { offset, nbytes, doc_count, term: term@ },
            ),
            final(self).writer == old(self).writer,
            final(self).offset == old(self).offset,
    {
        let mut part = u64_to_le_bytes(offset);
        self.contents_buf.append(&mut part);
        let mut part = u64_to_le_bytes(nbytes);
        self.contents_buf.append(&mut part);
        let mut part = u32_to_le_bytes(doc_count);
        self.contents_buf.append(&mut part);
        let term_slice = term.as_str();
        let term_bytes = term_slice.as_bytes();
        let mut part = u32_to_le_bytes(term_bytes.len() as u32);
        self.contents_buf.append(&mut part);
        self.contents_buf.extend_from_slice(term_bytes);
        proof {
            assert(self.contents_buf@ =~= old(self).contents_buf@ + toc_entry_bytes(
                EntryModel { offset, nbytes, doc_count, term: term@ },
            ));
        }
    }

    /// Assemble the finished file image: the header now holds the offset
    /// where the table of contents begins, the data region follows it, and
    /// the table of contents comes last.
    pub fn finish(self) -> (out: Vec<u8>)
        requires
            self.wf(),
        ensures
            out@ == spec_u64_to_le_bytes(self.offset as u64) + self.writer@.skip(
                HEADER_SIZE as int,
            ) + self.contents_buf@,
    {
        let table_contents_start = self.offset as u64;
        let mut out = u64_to_le_bytes(table_contents_start);
        let data = slice_subrange(self.writer.as_slice(), HEADER_SIZE, self.writer.len());
        out.extend_from_slice(data);
        out.extend_from_slice(self.contents_buf.as_slice());
        proof {
            assert(out@ =~= spec_u64_to_le_bytes(self.offset as u64) + self.writer@.skip(
                HEADER_SIZE as int,
            ) + self.contents_buf@);
        }
        out
    }
}

/// Serialize an in-memory index into a complete index file image: every
/// term's hit records written back to back in term order, then the table of
/// contents. Fails exactly when some term's encoded length or document count
/// does not fit the format's 32-bit fields.
pub fn write_index_bytes(index: InMemoryIndex) -> (r: Result<Vec<u8>, IndexError>)
    requires
        index.wf(),
    ensures
        (r is Ok) == index_counts_fit(index.map_view()),
        match r {
            Ok(bytes) => bytes@ == index_file_bytes(index.map_view()),
            Err(e) => e == IndexError::TermTooLarge,
        },
{
    let ghost m = index.map_view();
    let mut writer = IndexFileWriter::new();
    let map = &index.map;
    proof {
        lemma_auto_spec_u64_to_from_le_bytes();
        assert(m.take(0) =~= Seq::<(Seq<char>, Seq<Seq<u8>>)>::empty());
        assert(data_region(m.take(0)) =~= Seq::<u8>::empty());
        assert(entries_of(m.take(0), 8) =~= Seq::<EntryModel>::empty());
        assert(toc_bytes(entries_of(m.take(0), 8)) =~= Seq::<u8>::empty());
        assert(writer.writer@ =~= spec_u64_to_le_bytes(0u64) + data_region(m.take(0)));
    }
    let mut k: usize = 0;
    while k < map.len()
        invariant
            k <= map@.len(),
            m == index.map_view(),
            m == index_map_view(map@),
            index_counts_fit(m.take(k as int)),
            writer.wf(),
            writer.writer@ == spec_u64_to_le_bytes(0u64) + data_region(m.take(k as int)),
            writer.contents_buf@ == toc_bytes(entries_of(m.take(k as int), 8)),
        decreases map@.len() - k,
    {
        let pair: &(String, Vec<Hit>) = &map[k];
        proof {
            assert(m[k as int] == (pair.0@, pair.1.deep_view()));
        }
        let term_bytes_len = pair.0.as_str().as_bytes().len();
        if term_bytes_len > u32::MAX as usize {
            proof {
                assert(encode_utf8(m[k as int].0).len() > u32::MAX);
                assert(!index_counts_fit(m)) by {
                    if index_counts_fit(m) {
                        assert(encode_utf8((m[k as int]).0).len() <= u32::MAX && m[k as int].1.len()
                            <= u32::MAX);
                    }
                }
            }
            return Err(IndexError::TermTooLarge);
        }
        if pair.1.len() > u32::MAX as usize {
            proof {
                assert(m[k as int].1.len() > u32::MAX);
                assert(!index_counts_fit(m)) by {
                    if index_counts_fit(m) {
                        assert(encode_utf8((m[k as int]).0).len() <= u32::MAX && m[k as int].1.len()
                            <= u32::MAX);
                    }
                }
            }
            return Err(IndexError::TermTooLarge);
        }
        let doc_count = pair.1.len() as u32;
        let start = writer.offset as u64;
        let ghost hv = pair.1.deep_view();
        proof {
            assert(hv.take(0) =~= Seq::<Seq<u8>>::empty());
            assert(concat_hits(hv.take(0)) =~= Seq::<u8>::empty());
            assert(writer.writer@ + concat_hits(hv.take(0)) =~= writer.writer@);
        }
        let mut j: usize = 0;
        while j < pair.1.len()
            invariant
                j <= pair.1@.len(),
                hv == pair.1.deep_view(),
                writer.wf(),
                writer.writer@ == spec_u64_to_le_bytes(0u64) + data_region(m.take(k as int))
                    + concat_hits(hv.take(j as int)),
                writer.contents_buf@ == toc_bytes(entries_of(m.take(k as int), 8)),
            decreases pair.1@.len() - j,
        {
            let hb: &Vec<u8> = &pair.1[j];
            writer.write_data(hb.as_slice());
            proof {
                assert(hv[j as int] == hb@);
                assert(hv.take(j as int + 1) =~= hv.take(j as int).push(hv[j as int]));
                lemma_concat_hits_push(hv.take(j as int), hv[j as int]);
                assert((spec_u64_to_le_bytes(0u64) + data_region(m.take(k as int)) + concat_hits(
                    hv.take(j as int),
                )) + hb@ =~= spec_u64_to_le_bytes(0u64) + data_region(m.take(k as int))
                    + concat_hits(hv.take(j as int + 1)));
            }
            j = j + 1;
        }
        let stop = writer.offset as u64;
        let term_copy = pair.0.clone();
        writer.write_contents_entry(term_copy, doc_count, start, stop - start);
        proof {
            lemma_auto_spec_u64_to_from_le_bytes();
            assert(hv.take(hv.len() as int) =~= hv);
            lemma_trunc32_usize(pair.1.len());
            assert(doc_count == trunc32(hv.len() as int));
            let e = EntryModel {
                offset: start,
                nbytes: (stop - start) as u64,
                doc_count,
                term: pair.0@,
            };
            assert(m.take(k as int + 1) =~= m.take(k as int).push(m[k as int]));
            lemma_data_region_push(m.take(k as int), m[k as int]);
            lemma_entries_of_push(m.take(k as int), m[k as int], 8);
            assert(start as int == 8 + data_region(m.take(k as int)).len());
            assert((stop - start) as int == concat_hits(hv).len());
            assert(entries_of(m.take(k as int + 1), 8) =~= entries_of(m.take(k as int), 8).push(
                e,
            ));
            lemma_toc_bytes_push(entries_of(m.take(k as int), 8), e);
            assert(writer.writer@ =~= spec_u64_to_le_bytes(0u64) + data_region(
                m.take(k as int + 1),
            ));
            assert(writer.contents_buf@ =~= toc_bytes(entries_of(m.take(k as int + 1), 8)));
        }
        k = k + 1;
    }
    proof {
        assert(m.take(map@.len() as int) =~= m);
    }
    let ghost final_offset = writer.offset;
    let bytes = writer.finish();
    proof {
        lemma_auto_spec_u64_to_from_le_bytes();
        assert(final_offset as int == 8 + data_region(m).len());
        assert((spec_u64_to_le_bytes(0u64) + data_region(m)).skip(8) =~= data_region(m));
        assert(bytes@ =~= index_file_bytes(m));
        assert(index_counts_fit(m)) by {
            assert forall|j: int| 0 <= j < m.len() implies encode_utf8(
                (#[trigger] m[j]).0,
            ).len() <= u32::MAX && m[j].1.len() <= u32::MAX by {
                assert(index_counts_fit(m.take(map@.len() as int)));
                assert(m.take(map@.len() as int)[j] == m[j]);
            }
        }
    }
    Ok(bytes)
}

} // verus!
