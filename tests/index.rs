use std::cell::RefCell;
use std::cmp::Ordering;
use std::rc::Rc;

use vellum_core::analysis::{Analyzer, WhitespaceAnalyzer};
use vellum_core::codec::{read_varint, write_varint, MiniCodecV1};
use vellum_core::document::{Document, Field, FieldType};
use vellum_core::postings::{DocId, Posting, PostingsList};
use vellum_core::segment::{SegmentInfo, SegmentWriter};
use vellum_core::store::{decimal_string, Directory, IndexWriter};
use vellum_core::terms::Term;

/// Resources kept in memory, shared with the test that reads them back.
#[derive(Clone, Default)]
struct MemDirectory {
    files: Rc<RefCell<Vec<(String, Vec<u8>)>>>,
    fail_writes: Rc<RefCell<bool>>,
}

impl MemDirectory {
    fn get(&self, name: &str) -> Option<Vec<u8>> {
        self.files
            .borrow()
            .iter()
            .find(|(n, _)| n == name)
            .map(|(_, b)| b.clone())
    }

    fn text(&self, name: &str) -> String {
        String::from_utf8(self.get(name).expect("resource exists")).unwrap()
    }
}

impl Directory for MemDirectory {
    fn list_all(&self) -> std::io::Result<Vec<String>> {
        Ok(self.files.borrow().iter().map(|(n, _)| n.clone()).collect())
    }

    fn create_output(&self, name: &str, bytes: &[u8]) -> std::io::Result<()> {
        if *self.fail_writes.borrow() {
            return Err(std::io::Error::new(std::io::ErrorKind::Other, "device failure"));
        }
        let mut files = self.files.borrow_mut();
        files.retain(|(n, _)| n != name);
        files.push((name.to_string(), bytes.to_vec()));
        Ok(())
    }

    fn open_input(&self, name: &str) -> std::io::Result<Vec<u8>> {
        self.get(name)
            .ok_or_else(|| std::io::Error::new(std::io::ErrorKind::NotFound, "missing"))
    }

    fn delete_file(&self, name: &str) -> std::io::Result<()> {
        self.files.borrow_mut().retain(|(n, _)| n != name);
        Ok(())
    }
}

fn get_dummy_document() -> Document {
    let field = Field::text(
        "test",
        "This is a test document.",
        FieldType::text_indexed_and_stored(),
    );
    let mut doc = Document::new();
    doc.add_field(field);
    doc
}

fn title_doc(text: &str) -> Document {
    let mut doc = Document::new();
    doc.add_field(Field::text("title", text, FieldType::text_indexed()));
    doc
}

fn encode(v: u64) -> Vec<u8> {
    let mut out = Vec::new();
    write_varint(&mut out, v);
    out
}

fn find_term<'a>(
    segw: &'a SegmentWriter<WhitespaceAnalyzer>,
    field: &str,
    text: &str,
) -> Option<&'a PostingsList> {
    segw.terms
        .iter()
        .find(|(t, _)| t.field == field && t.text == text)
        .map(|(_, p)| p)
}

#[test]
fn verify_indexing_document() {
    let dir = MemDirectory::default();
    let mut iw = IndexWriter::new(dir.clone(), WhitespaceAnalyzer);
    iw.add_document(&get_dummy_document());
    iw.flush().expect("flush segment");
    assert!(dir.get("seg_0.si").is_some(), "si file should exist");
    assert!(dir.get("seg_0.terms").is_some(), "terms file should exist");
    assert!(dir.get("seg_0.post").is_some(), "post file should exist");
    assert!(dir.text("seg_0.si").contains("max_doc=1"), "si should record max_doc=1");
}

#[test]
fn varint_round_trip_edges() {
    for v in [0u64, 1, 127, 128, 300, 16383, 16384, u32::MAX as u64, u64::MAX] {
        let bytes = encode(v);
        assert_eq!(read_varint(&bytes, 0), Some((v, bytes.len())));
        assert!(bytes[bytes.len() - 1] < 0x80);
        for b in &bytes[..bytes.len() - 1] {
            assert!(*b >= 0x80);
        }
    }
}

#[test]
fn varint_exact_bytes() {
    assert_eq!(encode(0), vec![0x00]);
    assert_eq!(encode(127), vec![0x7f]);
    assert_eq!(encode(128), vec![0x80, 0x01]);
    assert_eq!(encode(300), vec![0xac, 0x02]);
    assert_eq!(encode(u32::MAX as u64), vec![0xff, 0xff, 0xff, 0xff, 0x0f]);
    assert_eq!(encode(u64::MAX).len(), 10);
}

#[test]
fn varint_read_rejects_truncated_and_oversized() {
    assert_eq!(read_varint(&[0x80, 0x80], 0), None);
    assert_eq!(read_varint(&[], 0), None);
    let mut big = vec![0xffu8; 10];
    big.push(0x01);
    assert_eq!(read_varint(&big, 0), None);
    assert_eq!(read_varint(&[0x05, 0xac, 0x02], 1), Some((300, 3)));
}

#[test]
fn term_order_field_wins() {
    let a = Term::new("author", "zebra");
    let b = Term::new("title", "apple");
    assert_eq!(a.compare(&b), Ordering::Less);
    assert_eq!(b.compare(&a), Ordering::Greater);
    let c = Term::new("title", "banana");
    assert_eq!(b.compare(&c), Ordering::Less);
    assert_eq!(c.compare(&Term::new("title", "banana")), Ordering::Equal);
    assert_eq!(Term::new("title", "ab").compare(&Term::new("title", "abc")), Ordering::Less);
    assert_eq!(Term::new("t", "é").compare(&Term::new("t", "z")), Ordering::Greater);
}

#[test]
fn whitespace_tokens_and_offsets() {
    let toks = WhitespaceAnalyzer.tokenize("f", "  the cat\tsat \n");
    let got: Vec<(String, u32, u32, u32)> = toks
        .iter()
        .map(|t| (t.term.clone(), t.position, t.start_offset, t.end_offset))
        .collect();
    assert_eq!(
        got,
        vec![
            ("the".to_string(), 0, 2, 5),
            ("cat".to_string(), 1, 6, 9),
            ("sat".to_string(), 2, 10, 13),
        ]
    );
    assert!(WhitespaceAnalyzer.tokenize("f", "").is_empty());
    assert!(WhitespaceAnalyzer.tokenize("f", " \t ").is_empty());
}

#[test]
fn whitespace_offsets_of_repeated_and_multibyte_words() {
    let toks = WhitespaceAnalyzer.tokenize("f", "ab b ab");
    let spans: Vec<(u32, u32)> = toks.iter().map(|t| (t.start_offset, t.end_offset)).collect();
    assert_eq!(spans, vec![(0, 2), (3, 4), (5, 7)]);
    let toks = WhitespaceAnalyzer.tokenize("f", "héllo wörld");
    let spans: Vec<(u32, u32)> = toks.iter().map(|t| (t.start_offset, t.end_offset)).collect();
    assert_eq!(spans, vec![(0, 6), (7, 13)]);
    assert_eq!(toks[1].term, "wörld");
    let toks = WhitespaceAnalyzer.tokenize("f", "a\u{3000}b");
    assert_eq!(toks.len(), 2);
    assert_eq!((toks[1].start_offset, toks[1].end_offset), (4, 5));
}

#[test]
fn posting_merge_within_one_document() {
    let mut segw = SegmentWriter::new("s", WhitespaceAnalyzer);
    segw.add_document(&title_doc("a b a"));
    let a = find_term(&segw, "title", "a").unwrap();
    assert_eq!(a.postings.len(), 1);
    assert_eq!(a.postings[0].doc_id, DocId(0));
    assert_eq!(a.postings[0].freq, 2);
    assert_eq!(a.postings[0].positions, vec![0, 2]);
    let b = find_term(&segw, "title", "b").unwrap();
    assert_eq!(b.postings.len(), 1);
    assert_eq!(b.postings[0].freq, 1);
    assert_eq!(b.postings[0].positions, vec![1]);
}

#[test]
fn positions_untracked_still_counts() {
    let mut segw = SegmentWriter::new("s", WhitespaceAnalyzer);
    let mut doc = Document::new();
    let ft = FieldType { indexed: true, stored: false, with_positions: false, with_offsets: false };
    doc.add_field(Field::text("body", "x x y", ft));
    segw.add_document(&doc);
    let x = find_term(&segw, "body", "x").unwrap();
    assert_eq!(x.postings[0].freq, 2);
    assert!(x.postings[0].positions.is_empty());
}

#[test]
fn postings_list_operations() {
    let mut pl = PostingsList::new();
    pl.add_occurrence(DocId(3), Some(4));
    pl.add_occurrence(DocId(3), None);
    pl.add_occurrence(DocId(5), Some(1));
    assert_eq!(pl.postings.len(), 2);
    assert_eq!(pl.postings[0].freq, 2);
    assert_eq!(pl.postings[0].positions, vec![4]);
    assert_eq!(pl.get_posting(DocId(5)).unwrap().positions, vec![1]);
    assert!(pl.get_posting(DocId(4)).is_none());
    let mut p = Posting::new(DocId(9));
    assert_eq!(p.freq, 0);
    p.add_position(7);
    p.add_position(8);
    assert_eq!((p.freq, p.positions.clone()), (2, vec![7, 8]));
    pl.add_posting(p);
    assert_eq!(pl.postings.len(), 3);
    assert_eq!(pl.get_posting(DocId(9)).unwrap().freq, 2);
}

#[test]
fn dictionary_sorted_and_postings_delta_encoded() {
    let mut segw = SegmentWriter::new("seg_0", WhitespaceAnalyzer);
    segw.add_document(&title_doc("the cat sat"));
    segw.add_document(&title_doc("the dog ran"));
    let texts: Vec<&str> = segw.terms.iter().map(|(t, _)| t.text.as_str()).collect();
    assert_eq!(texts, vec!["cat", "dog", "ran", "sat", "the"]);
    let (post, dict) = MiniCodecV1::encode_terms(&segw.terms);
    let dict = String::from_utf8(dict).unwrap();
    let rows: Vec<&str> = dict.lines().collect();
    assert_eq!(
        rows,
        vec![
            "title\tcat\t1\t0",
            "title\tdog\t1\t4",
            "title\tran\t1\t8",
            "title\tsat\t1\t12",
            "title\tthe\t2\t16",
        ]
    );
    // the block of "the": df 2, then (delta 0, freq 1, pos 0), (delta 1, freq 1, pos 0)
    assert_eq!(&post[16..], &[2, 0, 1, 0, 1, 1, 0]);
    let (df, o1) = read_varint(&post, 16).unwrap();
    let (d0, o2) = read_varint(&post, o1).unwrap();
    let (_, o3) = read_varint(&post, o2).unwrap();
    let (_, o4) = read_varint(&post, o3).unwrap();
    let (d1, _) = read_varint(&post, o4).unwrap();
    assert_eq!((df, d0, d0 + d1), (2, 0, 1));
}

#[test]
fn info_resource_layout() {
    let mut segw = SegmentWriter::new("seg_4", WhitespaceAnalyzer);
    segw.add_document(&title_doc("x"));
    let info = MiniCodecV1::encode_info(&segw.seg_info);
    assert_eq!(
        String::from_utf8(info).unwrap(),
        "name=seg_4\nmax_doc=1\ncodec=MiniCodecV1\nfiles=seg_4.si,seg_4.terms,seg_4.post\n"
    );
    let files = MiniCodecV1::encode_segment(&segw);
    let names: Vec<&str> = files.iter().map(|(n, _)| n.as_str()).collect();
    assert_eq!(names, vec!["seg_4.post", "seg_4.terms", "seg_4.si"]);
}

#[test]
fn write_segment_records_file_names() {
    let dir = MemDirectory::default();
    let mut segw = SegmentWriter::new("seg_2", WhitespaceAnalyzer);
    segw.add_document(&title_doc("hello"));
    MiniCodecV1::write_segment(&dir, &mut segw).unwrap();
    assert_eq!(segw.seg_info.files, vec!["seg_2.si", "seg_2.terms", "seg_2.post"]);
    assert_eq!(dir.list_all().unwrap().len(), 3);
    assert_eq!(dir.text("seg_2.terms"), "title\thello\t1\t0\n");
}

#[test]
fn segment_info_defaults() {
    let info = SegmentInfo::new("seg_9");
    assert_eq!(info.name, "seg_9");
    assert_eq!(info.max_doc, 0);
    assert!(info.files.is_empty());
    assert_eq!(info.codec, "MiniCodecV1");
}

#[test]
fn max_doc_counts_documents_and_resets() {
    let dir = MemDirectory::default();
    let mut iw = IndexWriter::new(dir.clone(), WhitespaceAnalyzer);
    iw.add_document(&title_doc("a"));
    iw.add_document(&title_doc("b"));
    iw.add_document(&title_doc("c"));
    iw.flush().unwrap();
    assert!(dir.text("seg_0.si").contains("max_doc=3\n"));
    iw.add_document(&title_doc("d"));
    iw.flush().unwrap();
    assert!(dir.text("seg_1.si").contains("max_doc=1\n"));
}

#[test]
fn flush_without_segment_is_noop() {
    let dir = MemDirectory::default();
    let mut iw = IndexWriter::new(dir.clone(), WhitespaceAnalyzer);
    assert!(iw.flush().is_ok());
    assert!(dir.list_all().unwrap().is_empty());
    iw.add_document(&title_doc("a"));
    iw.flush().unwrap();
    assert!(iw.flush().is_ok());
    assert_eq!(dir.list_all().unwrap().len(), 3);
}

#[test]
fn stored_only_field_not_indexed() {
    let mut segw = SegmentWriter::new("s", WhitespaceAnalyzer);
    let mut doc = Document::new();
    doc.add_field(Field::text("title", "red fox", FieldType::text_indexed()));
    doc.add_field(Field::text("note", "kept aside", FieldType::text_stored()));
    segw.add_document(&doc);
    assert!(segw.terms.iter().all(|(t, _)| t.field != "note"));
    assert_eq!(segw.stored.len(), 1);
    assert_eq!(segw.stored[0].get("note").unwrap(), "kept aside");
    assert!(segw.stored[0].get("title").is_none());
    let (_, dict) = MiniCodecV1::encode_terms(&segw.terms);
    assert!(!String::from_utf8(dict).unwrap().contains("note"));
}

#[test]
fn stored_fields_last_value_wins() {
    let mut segw = SegmentWriter::new("s", WhitespaceAnalyzer);
    let mut doc = Document::new();
    doc.add_field(Field::text("n", "first", FieldType::text_stored()));
    doc.add_field(Field::text("n", "second", FieldType::text_indexed_and_stored()));
    segw.add_document(&doc);
    assert_eq!(segw.stored[0].get("n").unwrap(), "second");
    assert!(find_term(&segw, "n", "second").is_some());
    assert!(find_term(&segw, "n", "first").is_none());
}

#[test]
fn consecutive_segments_get_increasing_numbers() {
    let dir = MemDirectory::default();
    let mut iw = IndexWriter::new(dir.clone(), WhitespaceAnalyzer);
    iw.add_document(&title_doc("a"));
    iw.flush().unwrap();
    iw.flush().unwrap();
    iw.add_document(&title_doc("b"));
    iw.flush().unwrap();
    let mut names = dir.list_all().unwrap();
    names.sort();
    assert_eq!(
        names,
        vec!["seg_0.post", "seg_0.si", "seg_0.terms", "seg_1.post", "seg_1.si", "seg_1.terms"]
    );
}

#[test]
fn failed_flush_keeps_segment() {
    let dir = MemDirectory::default();
    let mut iw = IndexWriter::new(dir.clone(), WhitespaceAnalyzer);
    iw.add_document(&title_doc("a"));
    *dir.fail_writes.borrow_mut() = true;
    assert!(iw.flush().is_err());
    *dir.fail_writes.borrow_mut() = false;
    iw.add_document(&title_doc("b"));
    iw.flush().unwrap();
    assert!(dir.text("seg_0.si").contains("max_doc=2\n"));
    assert!(dir.get("seg_1.si").is_none());
}

#[test]
fn decimal_digits() {
    assert_eq!(decimal_string(0), "0");
    assert_eq!(decimal_string(907), "907");
    assert_eq!(decimal_string(u64::MAX), "18446744073709551615");
}
