//! Reading index file images: a streaming cursor over the table of contents
//! for merging, and a full decoder for the query path.

use vstd::prelude::*;
use vstd::bytes::{u32_from_le_bytes, u64_from_le_bytes, spec_u32_from_le_bytes,
    spec_u64_to_le_bytes};
use vstd::slice::{slice_subrange, slice_to_vec};
use vstd::utf8::{decode_utf8, encode_utf8, valid_utf8};

use crate::index::{Doc, DocEntry, Offsets, ParsedIndex};
use crate::model::{EntryModel, entries_cover, entries_data_ok, entry_wf, file_toc,
    lemma_cover_bounds, lemma_cover_end_in_image, lemma_file_toc_entries_wf,
    lemma_parse_entries_agree, lemma_parse_index_entries_concat, lemma_parse_toc_bytes,
    lemma_toc_bytes_push, parse_entry_docs, parse_hits, parse_index, parse_index_entries,
    parse_toc, str_cmp, toc_bytes, total_nbytes};
use crate::write::IndexFileWriter;
use crate::IndexError;

verus! {

/// Length of a document content hash, in bytes.
pub const HASH_LENGTH: usize = 32;

/// The documents of one term as byte and offset sequences.
pub open spec fn doc_entry_view(d: Seq<(Doc, Offsets)>) -> Seq<(Seq<u8>, Seq<u32>)> {
    d.map_values(|p: (Doc, Offsets)| (p.0.hash@, p.1@))
}

/// A decoded index as term, document and offset sequences, in stored order.
pub open spec fn parsed_map_view(m: Seq<(String, DocEntry)>) -> Seq<
    (Seq<char>, Seq<(Seq<u8>, Seq<u32>)>),
> {
    m.map_values(|p: (String, DocEntry)| (p.0@, doc_entry_view(p.1@)))
}

/// Relies on `String::from_utf8`: it succeeds exactly on valid UTF-8 and
/// returns the string those bytes encode.
#[verifier::external_body]
fn string_from_utf8(v: Vec<u8>) -> (r: Option<String>)
    ensures
        match r {
            Some(s) => valid_utf8(v@) && s@ == decode_utf8(v@),
            None => !valid_utf8(v@),
        },
{
    match String::from_utf8(v) {
        Ok(s) => Some(s),
        Err(_) => None,
    }
}

/// An entry in the table of contents of an index file.
///
/// Each entry is small: a term that appears in one or more documents of the
/// corpus, summary information about it (`doc_count`), and a pointer to the
/// bulkier hit data that tells more (`offset` and `nbytes`).
#[derive(Debug)]
pub struct Entry {
    /// The term this entry describes.
    pub term: String,
    /// Total number of documents in the corpus that contain this term.
    pub doc_count: u32,
    /// Offset of the hit data for this term from the beginning of the file,
    /// in bytes.
    pub offset: u64,
    /// Length of the hit data for this term, in bytes.
    pub nbytes: u64,
}

impl Entry {
    /// The record this entry holds.
    pub open spec fn model(self) -> EntryModel {
        EntryModel {
            offset: self.offset,
            nbytes: self.nbytes,
            doc_count: self.doc_count,
            term: self.term@,
        }
    }
}

/// Read one table-of-contents record at byte `pos` of `file`.
///
/// `Ok((None, _))` is the normal end of the table: the image ends exactly at
/// a record boundary. An end inside a record, or term bytes that are not
/// valid UTF-8, is a decode error, exactly when the remaining bytes fail to
/// parse.
fn read_entry(file: &Vec<u8>, pos: usize) -> (r: Result<(Option<Entry>, usize), IndexError>)
    requires
        pos <= file@.len(),
    ensures
        match r {
            Ok((next, p2)) => match next {
                None => p2 == pos && pos == file@.len(),
                Some(e) => pos + 24 <= p2 <= file@.len() && entry_wf(e.model()) && parse_toc(
                    file@.skip(pos as int),
                ) == (match parse_toc(file@.skip(p2 as int)) {
                    None => None::<Seq<EntryModel>>,
                    Some(rest) => Some(seq![e.model()] + rest),
                }),
            },
            Err(e2) => parse_toc(file@.skip(pos as int)) is None && (e2
                == IndexError::UnexpectedEof || e2 == IndexError::InvalidUtf8),
        },
{
    let n = file.len();
    let ghost s = file@.skip(pos as int);
    if pos == n {
        proof {
            assert(s =~= Seq::<u8>::empty());
        }
        return Ok((None, pos));
    }
    if n - pos < 24 {
        return Err(IndexError::UnexpectedEof);
    }
    let offset = u64_from_le_bytes(slice_subrange(file.as_slice(), pos, pos + 8));
    let nbytes = u64_from_le_bytes(slice_subrange(file.as_slice(), pos + 8, pos + 16));
    let doc_count = u32_from_le_bytes(slice_subrange(file.as_slice(), pos + 16, pos + 20));
    let term_len32 = u32_from_le_bytes(slice_subrange(file.as_slice(), pos + 20, pos + 24));
    let term_len = term_len32 as usize;
    proof {
        assert(file@.subrange(pos as int, pos + 8) =~= s.subrange(0, 8));
        assert(file@.subrange(pos + 8, pos + 16) =~= s.subrange(8, 16));
        assert(file@.subrange(pos + 16, pos + 20) =~= s.subrange(16, 20));
        assert(file@.subrange(pos + 20, pos + 24) =~= s.subrange(20, 24));
    }
    if n - pos - 24 < term_len {
        return Err(IndexError::UnexpectedEof);
    }
    let term_bytes = slice_to_vec(slice_subrange(file.as_slice(), pos + 24, pos + 24 + term_len));
    proof {
        assert(term_bytes@ =~= s.subrange(24, 24 + term_len as int));
    }
    let term = match string_from_utf8(term_bytes) {
        Some(t) => t,
        None => {
            return Err(IndexError::InvalidUtf8);
        },
    };
    let p2 = pos + 24 + term_len;
    let e = Entry { term, doc_count, offset, nbytes };
    proof {
        vstd::utf8::decode_utf8_encode_utf8(s.subrange(24, 24 + term_len as int));
        assert(encode_utf8(e.model().term) == s.subrange(24, 24 + term_len as int));
        assert(file@.skip(p2 as int) =~= s.subrange(24 + term_len as int, s.len() as int));
    }
    Ok((Some(e), p2))
}

/// An `IndexFileReader` does a single linear pass over an index file image
/// from beginning to end. Needless to say, this is not how an index is
/// normally used! It is used only when merging index files: the surrounding
/// file layer deletes a file as it opens it for this reader, so the image has
/// exactly one consumer.
///
/// The reader always stays one record ahead: `next` holds the pending
/// table-of-contents record, and the only way to advance is `move_entry_to`.
#[derive(Debug)]
pub struct IndexFileReader {
    /// The complete file image.
    pub file: Vec<u8>,
    /// Where the next pending record's hit data starts. Hit data is read
    /// strictly sequentially, starting just after the header.
    pub data_pos: usize,
    /// Where the record after `next` will be read from.
    pub toc_pos: usize,
    /// The pending record, if any; `None` once the table is exhausted.
    pub next: Option<Entry>,
}

impl IndexFileReader {
    /// Positions stay within the image, and the table is read to its end.
    pub open spec fn wf(self) -> bool {
        self.data_pos <= self.file@.len() && self.toc_pos <= self.file@.len() && (self.next
            is None ==> self.toc_pos == self.file@.len())
    }

    /// The records still to be consumed: the pending one, then whatever the
    /// rest of the table parses to; `None` if the rest is malformed.
    pub open spec fn entries(self) -> Option<Seq<EntryModel>> {
        match self.next {
            None => Some(seq![]),
            Some(e) => match parse_toc(self.file@.skip(self.toc_pos as int)) {
                None => None,
                Some(rest) => Some(seq![e.model()] + rest),
            },
        }
    }

    /// The records still to be consumed, where they are known to parse.
    pub open spec fn pending(self) -> Seq<EntryModel> {
        match self.entries() {
            None => Seq::<EntryModel>::empty(),
            Some(es) => es,
        }
    }

    /// The whole remainder is consumable: the table parses, and each pending
    /// record's data can be read in turn from the data cursor.
    pub open spec fn good(self) -> bool {
        self.entries() is Some && entries_data_ok(
            self.file@.len() as int,
            self.data_pos as int,
            self.pending(),
        )
    }

    /// Open a file image to read it from beginning to end. The first record
    /// is loaded right away (the reader always reads one ahead); a malformed
    /// first record is reported here.
    pub fn from_bytes(file: Vec<u8>) -> (r: Result<IndexFileReader, IndexError>)
        ensures
            match r {
                Ok(reader) => reader.wf() && reader.file == file && reader.data_pos == 8
                    && reader.entries() == file_toc(file@),
                Err(e) => file_toc(file@) is None && (e == IndexError::UnexpectedEof || e
                    == IndexError::InvalidUtf8),
            },
    {
        let n = file.len();
        if n < 8 {
            return Err(IndexError::UnexpectedEof);
        }
        let table_contents_offset = u64_from_le_bytes(slice_subrange(file.as_slice(), 0, 8));
        let start = if table_contents_offset > n as u64 {
            n
        } else {
            table_contents_offset as usize
        };
        proof {
            assert(file@.subrange(0, 8) =~= file@.subrange(0int, 8int));
        }
        match read_entry(&file, start) {
            Ok((next, p2)) => {
                let reader = IndexFileReader { file, data_pos: 8, toc_pos: p2, next };
                proof {
                    if reader.next is None {
                        assert(reader.file@.skip(start as int) =~= Seq::<u8>::empty());
                        assert(parse_toc(reader.file@.skip(start as int)) == Some(
                            Seq::<EntryModel>::empty(),
                        ));
                        assert(reader.entries() == Some(Seq::<EntryModel>::empty()));
                    }
                }
                Ok(reader)
            },
            Err(e) => Err(e),
        }
    }

    /// Borrow the pending record, or `None` at the end of the table. Since
    /// the reader reads one ahead, this cannot fail.
    pub fn peek(&self) -> (r: Option<&Entry>)
        ensures
            match r {
                None => self.next is None,
                Some(e) => self.next == Some(*e),
            },
    {
        self.next.as_ref()
    }

    /// True if the pending record is for the given term.
    pub fn is_at(&self, term: &str) -> (r: bool)
        ensures
            r == match self.next {
                Some(e) => e.term@ == term@,
                None => false,
            },
    {
        match &self.next {
            Some(e) => str_cmp(e.term.as_str(), term) == 1,
            None => false,
        }
    }

    /// Copy the pending record's hit data, verbatim and without decoding it,
    /// into `out`'s data region, then advance to the next record. The caller
    /// records the table-of-contents entry itself, since one output entry may
    /// aggregate several inputs.
    ///
    /// On a consumable remainder (`good`), this cannot fail; a data range
    /// past the end of the image, a record too large for this platform's
    /// addressable size, or a malformed next record is reported.
    pub fn move_entry_to(&mut self, out: &mut IndexFileWriter) -> (r: Result<(), IndexError>)
        requires
            old(self).wf(),
            old(self).next is Some,
            old(out).wf(),
        ensures
            final(self).wf(),
            final(out).wf(),
            final(self).file == old(self).file,
            final(out).contents_buf == old(out).contents_buf,
            old(self).good() ==> r is Ok,
            (r matches Err(e3) && e3 == IndexError::EntryTooLarge) ==> *final(self) == *old(self)
                && *final(out) == *old(out),
            match r {
                Ok(()) => {
                    let e = old(self).next->Some_0.model();
                    &&& e.nbytes <= usize::MAX
                    &&& old(self).data_pos + e.nbytes <= old(self).file@.len()
                    &&& final(out).writer@ == old(out).writer@ + old(self).file@.subrange(
                        old(self).data_pos as int,
                        old(self).data_pos + e.nbytes,
                    )
                    &&& final(out).offset == old(out).offset + e.nbytes
                    &&& final(self).data_pos == old(self).data_pos + e.nbytes
                    &&& (old(self).entries() is Some ==> final(self).entries() == Some(
                        old(self).pending().drop_first(),
                    ))
                },
                Err(_) => true,
            },
    {
        let e_nbytes = match &self.next {
            Some(e) => e.nbytes,
            None => 0,
        };
        if e_nbytes > usize::MAX as u64 {
            proof {
                assert(!old(self).good());
            }
            return Err(IndexError::EntryTooLarge);
        }
        let nb = e_nbytes as usize;
        if self.file.len() - self.data_pos < nb {
            proof {
                assert(!old(self).good());
            }
            return Err(IndexError::UnexpectedEof);
        }
        let buf = slice_subrange(self.file.as_slice(), self.data_pos, self.data_pos + nb);
        out.write_data(buf);
        self.data_pos = self.data_pos + nb;
        match read_entry(&self.file, self.toc_pos) {
            Ok((next, p2)) => {
                proof {
                    let old_pending = old(self).pending();
                    if next is None {
                        assert(self.file@.skip(self.toc_pos as int) =~= Seq::<u8>::empty());
                        assert(parse_toc(self.file@.skip(self.toc_pos as int)) == Some(
                            Seq::<EntryModel>::empty(),
                        ));
                    }
                }
                self.next = next;
                self.toc_pos = p2;
                proof {
                    if old(self).entries() is Some {
                        assert(self.entries() == Some(old(self).pending().drop_first())) by {
                            let rest = parse_toc(old(self).file@.skip(old(self).toc_pos as int));
                            assert(rest is Some);
                            assert((seq![old(self).next->Some_0.model()]
                                + rest->Some_0).drop_first() =~= rest->Some_0);
                            match self.next {
                                None => {
                                    assert(rest->Some_0 =~= Seq::<EntryModel>::empty());
                                },
                                Some(_) => {},
                            }
                        }
                    }
                }
                Ok(())
            },
            Err(e2) => {
                proof {
                    assert(!old(self).good());
                }
                Err(e2)
            },
        }
    }

    /// Copy this reader's whole remainder, record by record and verbatim,
    /// into a fresh image.
    ///
    /// Law: what the streaming read-ahead path sees is what the full decoder
    /// sees — for a freshly opened image whose records tile the data region
    /// (as every image this library writes does), the copy decodes to exactly
    /// the decoded form of the original.
    pub fn copy_index(self) -> (r: Result<Vec<u8>, IndexError>)
        requires
            self.wf(),
            self.good(),
            self.data_pos == 8,
            self.entries() == file_toc(self.file@),
            entries_cover(self.pending(), 8, 8 + total_nbytes(self.pending())),
        ensures
            r is Ok,
            match r {
                Ok(out) => parse_index(out@) == parse_index(self.file@),
                Err(_) => true,
            },
    {
        let ghost orig = self.pending();
        let ghost end = 8 + total_nbytes(orig);
        let ghost original = self;
        let mut reader = self;
        let mut out = IndexFileWriter::new();
        let ghost mut k: int = 0;
        proof {
            vstd::bytes::lemma_auto_spec_u64_to_from_le_bytes();
            lemma_file_toc_entries_wf(original.file@);
            assert(orig.skip(0) =~= orig);
            assert(orig.take(0) =~= Seq::<EntryModel>::empty());
            assert(toc_bytes(orig.take(0)) =~= Seq::<u8>::empty());
            assert(original.file@.subrange(8, 8) =~= Seq::<u8>::empty());
            assert(out.writer@ =~= spec_u64_to_le_bytes(0u64) + original.file@.subrange(8, 8));
        }
        loop
            invariant
                0 <= k <= orig.len(),
                reader.wf(),
                reader.good(),
                reader.file == original.file,
                reader.entries() == Some(orig.skip(k)),
                entries_cover(orig.skip(k), reader.data_pos as int, end),
                forall|j: int| 0 <= j < orig.len() ==> entry_wf(#[trigger] orig[j]),
                out.wf(),
                out.offset == reader.data_pos,
                out.writer@ == spec_u64_to_le_bytes(0u64) + original.file@.subrange(
                    8,
                    reader.data_pos as int,
                ),
                out.contents_buf@ == toc_bytes(orig.take(k)),
            ensures
                reader.next is None,
            decreases orig.len() - k,
        {
            let (term, doc_count, nbytes) = match reader.peek() {
                None => { break },
                Some(e) => (e.term.clone(), e.doc_count, e.nbytes),
            };
            proof {
                assert(reader.pending() =~= orig.skip(k));
                assert(orig.skip(k)[0] == orig[k]);
                assert(orig[k].term == term@ && orig[k].doc_count == doc_count && orig[k].nbytes
                    == nbytes);
                assert(orig[k].offset == reader.data_pos as u64);
            }
            let start = out.offset as u64;
            let ghost pre_reader = reader;
            match reader.move_entry_to(&mut out) {
                Ok(()) => {},
                Err(e2) => {
                    proof {
                        assert(pre_reader.good());
                        assert(false);
                    }
                    return Err(e2);
                },
            }
            out.write_contents_entry(term, doc_count, start, nbytes);
            proof {
                assert(reader.pending() =~= orig.skip(k + 1)) by {
                    assert(reader.entries() == Some(orig.skip(k).drop_first()));
                    assert(orig.skip(k).drop_first() =~= orig.skip(k + 1));
                }
                // the remainder is still consumable
                assert(reader.good()) by {
                    assert(entries_data_ok(
                        reader.file@.len() as int,
                        pre_reader.data_pos as int,
                        orig.skip(k),
                    ));
                }
                // the copied record is the original one, byte range included
                let e = EntryModel { offset: start, nbytes, doc_count, term: term@ };
                assert(e == orig[k]);
                lemma_toc_bytes_push(orig.take(k), e);
                assert(orig.take(k + 1) =~= orig.take(k).push(e));
                assert(out.contents_buf@ =~= toc_bytes(orig.take(k + 1)));
                assert(out.writer@ =~= spec_u64_to_le_bytes(0u64) + original.file@.subrange(
                    8,
                    reader.data_pos as int,
                ));
                k = k + 1;
            }
        }
        proof {
            assert(orig.skip(k) =~= Seq::<EntryModel>::empty());
            assert(k == orig.len());
            assert(orig.take(k) =~= orig);
            assert(reader.data_pos == end);
        }
        let ghost final_offset = out.offset;
        let bytes = out.finish();
        proof {
            vstd::bytes::lemma_auto_spec_u64_to_from_le_bytes();
            lemma_parse_toc_bytes(orig);
            assert(bytes@.len() == final_offset + toc_bytes(orig).len());
            assert(bytes@.subrange(0, 8) =~= vstd::bytes::spec_u64_to_le_bytes(
                final_offset as u64,
            ));
            assert(bytes@.subrange(final_offset as int, bytes@.len() as int) =~= toc_bytes(orig));
            assert(bytes@.skip(final_offset as int) == bytes@.subrange(
                final_offset as int,
                bytes@.len() as int,
            ));
            assert(file_toc(bytes@) == Some(orig));
            assert(file_toc(original.file@) == Some(orig)) by {
                assert(original.entries() == Some(orig));
            }
            // both images hold the same bytes wherever a record points
            lemma_cover_end_in_image(orig, 8, end, original.file@.len() as int);
            lemma_cover_bounds(orig, 8, end);
            assert forall|i: int| 8 <= i < end implies bytes@[i] == original.file@[i] by {
                assert(bytes@[i] == (spec_u64_to_le_bytes(0u64) + original.file@.subrange(
                    8,
                    end,
                ))[i]);
            }
            lemma_parse_entries_agree(bytes@, original.file@, orig, end);
        }
        Ok(bytes)
    }

    /// Read and decode a whole index file image into its user-friendly form:
    /// term → documents → offsets, with one word count per table-of-contents
    /// record. This is the query path; nothing is streamed.
    pub fn get_index_from_bytes(file: &Vec<u8>) -> (r: Result<ParsedIndex, IndexError>)
        ensures
            (r is Ok) == (parse_index(file@) is Some),
            match r {
                Ok(pi) => Some(parsed_map_view(pi.map@)) == parse_index(file@) && (match file_toc(
                    file@,
                ) {
                    Some(es) => pi.word_count == es.len(),
                    None => false,
                }),
                Err(e) => e == IndexError::UnexpectedEof || e == IndexError::InvalidUtf8,
            },
    {
        let n = file.len();
        if n < 8 {
            return Err(IndexError::UnexpectedEof);
        }
        let table_contents_offset = u64_from_le_bytes(slice_subrange(file.as_slice(), 0, 8));
        let start = if table_contents_offset > n as u64 {
            n
        } else {
            table_contents_offset as usize
        };
        proof {
            assert(file@.subrange(0, 8) =~= file@.subrange(0int, 8int));
            assert(file@.skip(start as int) =~= file@.subrange(start as int, file@.len() as int));
        }
        let mut map: Vec<(String, DocEntry)> = Vec::new();
        let mut word_count: usize = 0;
        let mut toc_pos = start;
        let ghost mut done: Seq<EntryModel> = Seq::empty();
        proof {
            assert(parsed_map_view(map@) =~= Seq::<(Seq<char>, Seq<(Seq<u8>, Seq<u32>)>)>::empty());
            assert(parse_index_entries(file@, done) == Some(parsed_map_view(map@)));
        }
        loop
            invariant
                n == file@.len(),
                n >= 8,
                start <= n,
                start <= toc_pos <= n,
                file_toc(file@) == parse_toc(file@.skip(start as int)),
                parse_toc(file@.skip(start as int)) == (match parse_toc(
                    file@.skip(toc_pos as int),
                ) {
                    None => None::<Seq<EntryModel>>,
                    Some(rest) => Some(done + rest),
                }),
                parse_index_entries(file@, done) == Some(parsed_map_view(map@)),
                word_count == done.len(),
                toc_pos - start >= 24 * done.len(),
            decreases n - toc_pos, 1int,
        {
            match read_entry(file, toc_pos) {
                Err(e) => {
                    return Err(e);
                },
                Ok((None, _p2)) => {
                    proof {
                        assert(done + Seq::<EntryModel>::empty() =~= done);
                        assert(file_toc(file@) == Some(done));
                        assert(parse_index(file@) == Some(parsed_map_view(map@)));
                    }
                    return Ok(ParsedIndex { word_count, map });
                },
                Ok((Some(e), p2)) => {
                    let ghost em = e.model();
                    let ghost rest2 = parse_toc(file@.skip(p2 as int));
                    proof {
                        if rest2 is Some {
                            assert(done + (seq![em] + rest2->Some_0) =~= done.push(em)
                                + rest2->Some_0);
                        }
                    }
                    let Entry { term, doc_count, offset, nbytes } = e;
                    // the data range this record points at
                    if offset > n as u64 || nbytes > n as u64 - offset {
                        proof {
                            lemma_parse_index_entries_concat(file@, done, seq![em]);
                            assert(seq![em][0] == em);
                            assert(parse_entry_docs(file@, em) is None);
                            if file_toc(file@) is Some {
                                let es = file_toc(file@)->Some_0;
                                assert(rest2 is Some);
                                assert(es == done.push(em) + rest2->Some_0);
                                lemma_parse_index_entries_concat(
                                    file@,
                                    done.push(em),
                                    rest2->Some_0,
                                );
                                lemma_parse_index_entries_concat(file@, done, seq![em]);
                                assert(done.push(em) =~= done + seq![em]);
                                assert(parse_index_entries(file@, done.push(em)) is None);
                            }
                        }
                        return Err(IndexError::UnexpectedEof);
                    }
                    let lo = offset as usize;
                    let hi = lo + nbytes as usize;
                    match read_hits(file, lo, hi, doc_count) {
                        Err(e3) => {
                            proof {
                                assert(file@.subrange(lo as int, hi as int) =~= file@.subrange(
                                    em.offset as int,
                                    em.offset + em.nbytes,
                                ));
                                assert(parse_entry_docs(file@, em) is None);
                                if file_toc(file@) is Some {
                                    let es = file_toc(file@)->Some_0;
                                    assert(rest2 is Some);
                                    assert(es == done.push(em) + rest2->Some_0);
                                    lemma_parse_index_entries_concat(
                                        file@,
                                        done.push(em),
                                        rest2->Some_0,
                                    );
                                    lemma_parse_index_entries_concat(file@, done, seq![em]);
                                    assert(seq![em][0] == em);
                                    assert(done.push(em) =~= done + seq![em]);
                                    assert(parse_index_entries(file@, done.push(em)) is None);
                                }
                            }
                            return Err(e3);
                        },
                        Ok(docs) => {
                            let ghost old_map = map@;
                            map.push((term, docs));
                            word_count = word_count + 1;
                            proof {
                                assert(file@.subrange(lo as int, hi as int) =~= file@.subrange(
                                    em.offset as int,
                                    em.offset + em.nbytes,
                                ));
                                lemma_parse_index_entries_concat(file@, done, seq![em]);
                                assert(seq![em][0] == em);
                                assert(seq![em].drop_first() =~= Seq::<EntryModel>::empty());
                                assert(parse_index_entries(file@, Seq::<EntryModel>::empty())
                                    == Some(Seq::<(Seq<char>, Seq<(Seq<u8>, Seq<u32>)>)>::empty()));
                                assert(parse_entry_docs(file@, em) is Some);
                                let dv = parse_entry_docs(file@, em)->Some_0;
                                assert(seq![(em.term, dv)] + Seq::<
                                    (Seq<char>, Seq<(Seq<u8>, Seq<u32>)>),
                                >::empty() =~= seq![(em.term, dv)]);
                                assert(parse_index_entries(file@, seq![em]) == Some(
                                    seq![(em.term, dv)],
                                ));
                                assert(done.push(em) =~= done + seq![em]);
                                assert(parsed_map_view(map@) =~= parsed_map_view(old_map).push(
                                    (em.term, dv),
                                ));
                                assert(parsed_map_view(old_map) + seq![(em.term, dv)]
                                    =~= parsed_map_view(map@));
                                done = done.push(em);
                            }
                            toc_pos = p2;
                        },
                    }
                },
            }
        }
    }
}

/// Read `doc_count` hit records from the byte range `lo..hi` of `file`: for
/// each, the document's hash, then its word offsets. Bytes left over after
/// the last record are ignored, exactly as the parsing model does.
fn read_hits(file: &Vec<u8>, lo: usize, hi: usize, doc_count: u32) -> (r: Result<
    DocEntry,
    IndexError,
>)
    requires
        lo <= hi <= file@.len(),
    ensures
        match r {
            Ok(docs) => parse_hits(file@.subrange(lo as int, hi as int), doc_count as nat) == Some(
                doc_entry_view(docs@),
            ),
            Err(e) => parse_hits(file@.subrange(lo as int, hi as int), doc_count as nat) is None
                && e == IndexError::UnexpectedEof,
        },
{
    let mut docs: Vec<(Doc, Offsets)> = Vec::new();
    let mut p = lo;
    let mut d: u32 = 0;
    proof {
        assert(doc_entry_view(docs@) =~= Seq::<(Seq<u8>, Seq<u32>)>::empty());
        if parse_hits(file@.subrange(lo as int, hi as int), doc_count as nat) is Some {
            assert(Seq::<(Seq<u8>, Seq<u32>)>::empty() + parse_hits(
                file@.subrange(lo as int, hi as int),
                doc_count as nat,
            )->Some_0 =~= parse_hits(
                file@.subrange(lo as int, hi as int),
                doc_count as nat,
            )->Some_0);
        }
    }
    while d < doc_count
        invariant
            lo <= p <= hi <= file@.len(),
            d <= doc_count,
            parse_hits(file@.subrange(lo as int, hi as int), doc_count as nat) == (match parse_hits(
                file@.subrange(p as int, hi as int),
                (doc_count - d) as nat,
            ) {
                None => None::<Seq<(Seq<u8>, Seq<u32>)>>,
                Some(rest) => Some(doc_entry_view(docs@) + rest),
            }),
        decreases doc_count - d,
    {
        let ghost s = file@.subrange(p as int, hi as int);
        if hi - p < 36 {
            return Err(IndexError::UnexpectedEof);
        }
        let hash_slice = slice_subrange(file.as_slice(), p, p + HASH_LENGTH);
        let doc = Doc::new(hash_slice);
        let cnt = u32_from_le_bytes(slice_subrange(file.as_slice(), p + 32, p + 36));
        proof {
            assert(file@.subrange(p as int, p + 32) =~= s.subrange(0, 32));
            assert(file@.subrange(p + 32, p + 36) =~= s.subrange(32, 36));
        }
        if ((hi - p - 36) as u64) < 4 * (cnt as u64) {
            return Err(IndexError::UnexpectedEof);
        }
        let cnt_us = cnt as usize;
        let mut offs: Vec<u32> = Vec::new();
        proof {
            assert(offs@ =~= Seq::new(0, |i: int| spec_u32_from_le_bytes(
                s.subrange(36 + 4 * i, 36 + 4 * i + 4),
            )));
        }
        let mut j: usize = 0;
        while j < cnt_us
            invariant
                j <= cnt_us,
                cnt_us == cnt,
                lo <= p,
                p + 36 + 4 * cnt_us <= hi <= file@.len(),
                s == file@.subrange(p as int, hi as int),
                offs@ == Seq::new(j as nat, |i: int| spec_u32_from_le_bytes(
                    s.subrange(36 + 4 * i, 36 + 4 * i + 4),
                )),
            decreases cnt_us - j,
        {
            let o = u32_from_le_bytes(
                slice_subrange(file.as_slice(), p + 36 + 4 * j, p + 36 + 4 * j + 4),
            );
            offs.push(o);
            proof {
                assert(file@.subrange(p + 36 + 4 * j as int, p + 36 + 4 * j + 4) =~= s.subrange(
                    36 + 4 * j as int,
                    36 + 4 * j + 4,
                ));
                assert(offs@ =~= Seq::new(j as nat + 1, |i: int| spec_u32_from_le_bytes(
                    s.subrange(36 + 4 * i, 36 + 4 * i + 4),
                )));
            }
            j = j + 1;
        }
        let ghost old_docs = docs@;
        docs.push((doc, offs));
        proof {
            let spec_offs = Seq::new(
                cnt as nat,
                |i: int| spec_u32_from_le_bytes(s.subrange(36 + 4 * i, 36 + 4 * i + 4)),
            );
            assert(parse_hits(s, (doc_count - d) as nat) == (match parse_hits(
                s.subrange(36 + 4 * cnt as int, s.len() as int),
                (doc_count - d - 1) as nat,
            ) {
                None => None::<Seq<(Seq<u8>, Seq<u32>)>>,
                Some(rest) => Some(seq![(s.subrange(0, 32), spec_offs)] + rest),
            }));
            assert(doc_entry_view(docs@) =~= doc_entry_view(old_docs).push(
                (s.subrange(0, 32), spec_offs),
            ));
            assert(file@.subrange(p + 36 + 4 * cnt as int, hi as int) =~= s.subrange(
                36 + 4 * cnt as int,
                s.len() as int,
            ));
            if parse_hits(s.subrange(36 + 4 * cnt as int, s.len() as int), (doc_count - d - 1) as nat)
                is Some {
                let rest = parse_hits(
                    s.subrange(36 + 4 * cnt as int, s.len() as int),
                    (doc_count - d - 1) as nat,
                )->Some_0;
                assert(doc_entry_view(old_docs) + (seq![(s.subrange(0, 32), spec_offs)] + rest)
                    =~= doc_entry_view(docs@) + rest);
            }
        }
        p = p + 36 + 4 * cnt_us;
        d = d + 1;
    }
    proof {
        assert(parse_hits(file@.subrange(p as int, hi as int), 0) == Some(
            Seq::<(Seq<u8>, Seq<u32>)>::empty(),
        ));
        assert(doc_entry_view(docs@) + Seq::<(Seq<u8>, Seq<u32>)>::empty() =~= doc_entry_view(
            docs@,
        ));
    }
    Ok(docs)
}

} // verus!
