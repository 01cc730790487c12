use vellum_core::analysis::WhitespaceAnalyzer;
use vellum_core::codec::{write_varint, MiniCodecV1};
use vellum_core::document::{Document, Field, FieldType};
use vellum_core::postings::{DocId, Posting, PostingsList};
use vellum_core::segment::SegmentWriter;
use vellum_core::terms::Term;

fn title_doc(text: &str) -> Document {
    let mut doc = Document::new();
    doc.add_field(Field::text("title", text, FieldType::text_indexed()));
    doc
}

#[test]
fn decode_block_at_dictionary_offset() {
    let mut segw = SegmentWriter::new("seg_0", WhitespaceAnalyzer);
    segw.add_document(&title_doc("the cat sat"));
    segw.add_document(&title_doc("the dog ran the"));
    let (post, _) = MiniCodecV1::encode_terms(&segw.terms);
    let (pl, end) = MiniCodecV1::read_block(&post, 16, true).unwrap();
    assert_eq!(end, post.len());
    let got: Vec<(u32, u32, Vec<u32>)> =
        pl.iter().map(|p| (p.doc_id.0, p.freq, p.positions.clone())).collect();
    assert_eq!(got, vec![(0, 1, vec![0]), (1, 2, vec![0, 3])]);
    let (cat, end) = MiniCodecV1::read_block(&post, 0, true).unwrap();
    assert_eq!((cat.len(), cat[0].doc_id, end), (1, DocId(0), 4));
}

#[test]
fn decode_block_without_positions() {
    let mut pl = PostingsList::new();
    pl.add_occurrence(DocId(2), None);
    pl.add_occurrence(DocId(2), None);
    pl.add_occurrence(DocId(7), None);
    let mut out = Vec::new();
    MiniCodecV1::write_block(&mut out, &pl);
    assert_eq!(out, vec![2, 2, 2, 5, 1]);
    let (back, end) = MiniCodecV1::read_block(&out, 0, false).unwrap();
    assert_eq!(end, 5);
    let got: Vec<(u32, u32)> = back.iter().map(|p| (p.doc_id.0, p.freq)).collect();
    assert_eq!(got, vec![(2, 2), (7, 1)]);
}

#[test]
fn decode_block_rejects_truncated_and_oversized() {
    assert!(MiniCodecV1::read_block(&[2, 0, 1, 0], 0, true).is_none());
    assert!(MiniCodecV1::read_block(&[], 0, true).is_none());
    // a gap that takes the document id past u32
    let mut bytes = vec![2, 1, 1];
    write_varint(&mut bytes, u32::MAX as u64);
    write_varint(&mut bytes, 1);
    write_varint(&mut bytes, 1);
    assert!(MiniCodecV1::read_block(&bytes, 0, false).is_none());
    assert_eq!(MiniCodecV1::read_block(&[0], 0, true).map(|(v, e)| (v.len(), e)), Some((0, 1)));
}

#[test]
fn sort_postings_by_doc_id() {
    let mut pl = PostingsList::new();
    for d in [5u32, 1, 9, 1, 3] {
        let mut p = Posting::new(DocId(d));
        p.add_position(d * 10);
        pl.add_posting(p);
    }
    pl.sort_by_doc_id();
    let docs: Vec<u32> = pl.postings.iter().map(|p| p.doc_id.0).collect();
    assert_eq!(docs, vec![1, 1, 3, 5, 9]);
    let positions: Vec<u32> = pl.postings.iter().map(|p| p.positions[0]).collect();
    assert_eq!(positions, vec![10, 10, 30, 50, 90]);
}

#[test]
fn term_operators() {
    let a = Term::new("title", "cat");
    let b = Term::new("title", "dog");
    assert!(a < b);
    assert!(Term::new("body", "zzz") < a);
    assert!(a == Term::new("title", "cat"));
    assert!(a != b);
    assert_eq!(a.cmp(&b), std::cmp::Ordering::Less);
    let mut v = vec![b.clone(), Term::new("body", "x"), a.clone()];
    v.sort();
    let texts: Vec<&str> = v.iter().map(|t| t.text.as_str()).collect();
    assert_eq!(texts, vec!["x", "cat", "dog"]);
}
