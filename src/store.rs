use vstd::prelude::*;
use vstd::string::StringExecFns;
use crate::analysis::Analyzer;
use crate::codec::MiniCodecV1;
use crate::document::Document;
use crate::segment::{SegmentWriter, TermPostings, apply_occurrences, doc_occurrences, stored_of};
use crate::terms::utf8;

verus! {

/// Relies on `std::io::Error` as an opaque value: a directory's failure is
/// handed back to the caller unchanged, never inspected.
#[verifier::external_type_specification]
#[verifier::external_body]
pub struct ExIoError(std::io::Error);

/// Named byte resources directly under one root, with no subdirectories.
/// Implementations decide where the bytes live.
pub trait Directory {
    /// The names of all resources.
    fn list_all(&self) -> Result<Vec<String>, std::io::Error>;

    /// Creates, or truncates, the resource `name` and writes `bytes` to it.
    fn create_output(&self, name: &str, bytes: &[u8]) -> Result<(), std::io::Error>;

    /// The bytes of the resource `name`.
    fn open_input(&self, name: &str) -> Result<Vec<u8>, std::io::Error>;

    /// Removes the resource `name`.
    fn delete_file(&self, name: &str) -> Result<(), std::io::Error>;
}

/// The decimal digits of `n`.
pub open spec fn decimal_chars(n: nat) -> Seq<char>
    decreases n,
{
    if n < 10 {
        seq![((48 + n) as u8) as char]
    } else {
        decimal_chars(n / 10) + seq![((48 + n % 10) as u8) as char]
    }
}

/// The name of the segment with sequence number `n`.
pub open spec fn segment_name(n: nat) -> Seq<char> {
    "seg_"@ + decimal_chars(n)
}

proof fn lemma_decimal_chars_shape(n: nat)
    ensures
        decimal_chars(n).len() >= 1,
        n < 10 <==> decimal_chars(n).len() == 1,
        decimal_chars(n).last() == ((48 + n % 10) as u8) as char,
        n >= 10 ==> decimal_chars(n).drop_last() == decimal_chars(n / 10),
    decreases n,
{
    if n >= 10 {
        lemma_decimal_chars_shape(n / 10);
        assert(decimal_chars(n).drop_last() =~= decimal_chars(n / 10));
    }
}

proof fn lemma_decimal_chars_injective(a: nat, b: nat)
    requires
        decimal_chars(a) == decimal_chars(b),
    ensures
        a == b,
    decreases a,
{
    lemma_decimal_chars_shape(a);
    lemma_decimal_chars_shape(b);
    let ca = ((48 + a % 10) as u8) as char;
    let cb = ((48 + b % 10) as u8) as char;
    assert(ca == cb);
    assert((ca as u32) == 48 + a % 10);
    assert((cb as u32) == 48 + b % 10);
    if a >= 10 {
        lemma_decimal_chars_injective(a / 10, b / 10);
    }
}

/// Segments get their names from their sequence numbers; the writer hands
/// out strictly increasing numbers, so two segments never share a name.
pub proof fn lemma_segment_names_distinct(a: nat, b: nat)
    requires
        a < b,
    ensures
        segment_name(a) != segment_name(b),
{
    if segment_name(a) == segment_name(b) {
        reveal_strlit("seg_");
        assert(segment_name(a).skip(4) =~= decimal_chars(a));
        assert(segment_name(b).skip(4) =~= decimal_chars(b));
        lemma_decimal_chars_injective(a, b);
    }
}

fn digit_str(d: u64) -> (r: &'static str)
    requires
        d < 10,
    ensures
        r@ == seq![((48 + d) as u8) as char],
{
    proof {
        reveal_strlit("0");
        reveal_strlit("1");
        reveal_strlit("2");
        reveal_strlit("3");
        reveal_strlit("4");
        reveal_strlit("5");
        reveal_strlit("6");
        reveal_strlit("7");
        reveal_strlit("8");
        reveal_strlit("9");
    }
    let r = if d == 0 {
        "0"
    } else if d == 1 {
        "1"
    } else if d == 2 {
        "2"
    } else if d == 3 {
        "3"
    } else if d == 4 {
        "4"
    } else if d == 5 {
        "5"
    } else if d == 6 {
        "6"
    } else if d == 7 {
        "7"
    } else if d == 8 {
        "8"
    } else {
        "9"
    };
    assert(r@ =~= seq![((48 + d) as u8) as char]);
    r
}

/// The decimal digits of `v`.
pub fn decimal_string(v: u64) -> (r: String)
    ensures
        r@ == decimal_chars(v as nat),
    decreases v,
{
    if v < 10 {
        String::from_str(digit_str(v))
    } else {
        decimal_string(v / 10).concat(digit_str(v % 10))
    }
}

/// Writes documents into segments. While no segment is being built the
/// writer holds the analyzer itself; the first document after that starts a
/// segment under the next sequence number, and a flush writes it out.
pub struct IndexWriter<D: Directory, A: Analyzer> {
    dir: D,
    analyzer: Option<A>,
    seg_seq: u64,
    current: Option<SegmentWriter<A>>,
}

impl<D: Directory, A: Analyzer> IndexWriter<D, A> {
    /// The sequence number the next segment will get.
    pub closed spec fn next_seq(&self) -> nat {
        self.seg_seq as nat
    }

    /// The segment being built, if any.
    pub closed spec fn building(&self) -> Option<SegmentWriter<A>> {
        self.current
    }

    pub closed spec fn analyzer(&self) -> A {
        match self.current {
            Some(s) => s.analyzer,
            None => self.analyzer.unwrap(),
        }
    }

    pub closed spec fn dir(&self) -> D {
        self.dir
    }

    pub closed spec fn wf(&self) -> bool {
        &&& (self.current is Some) != (self.analyzer is Some)
        &&& self.current matches Some(s) ==> s.wf()
    }

    /// Terms and postings of the documents not yet flushed.
    pub open spec fn pending_terms(&self) -> TermPostings {
        match self.building() {
            Some(s) => s.terms_model(),
            None => Seq::empty(),
        }
    }

    /// Stored fields of the documents not yet flushed.
    pub open spec fn pending_stored(&self) -> Seq<Seq<(Seq<char>, Seq<char>)>> {
        match self.building() {
            Some(s) => s.stored_model(),
            None => Seq::empty(),
        }
    }

    /// How many documents are not yet flushed.
    pub open spec fn pending_docs(&self) -> nat {
        match self.building() {
            Some(s) => s.seg_info.max_doc as nat,
            None => 0,
        }
    }

    /// The name of the segment being built, or of the next one.
    pub open spec fn pending_name(&self) -> Seq<char> {
        match self.building() {
            Some(s) => s.seg_info.name@,
            None => segment_name(self.next_seq()),
        }
    }

    pub fn new(dir: D, analyzer: A) -> (r: IndexWriter<D, A>)
        ensures
            r.wf(),
            r.building() is None,
            r.next_seq() == 0,
            r.analyzer() == analyzer,
            r.dir() == dir,
    {
        IndexWriter { dir, analyzer: Some(analyzer), seg_seq: 0, current: None }
    }

    /// The name of the next segment; advances the sequence number.
    fn next_segment_name(&mut self) -> (r: String)
        requires
            old(self).seg_seq < u64::MAX,
        ensures
            r@ == segment_name(old(self).seg_seq as nat),
            final(self).seg_seq == old(self).seg_seq + 1,
            final(self).dir == old(self).dir,
            final(self).analyzer == old(self).analyzer,
            final(self).current == old(self).current,
    {
        let seq = self.seg_seq;
        self.seg_seq = seq + 1;
        String::from_str("seg_").concat(decimal_string(seq).as_str())
    }

    /// Adds a document to the segment being built, starting one if there is
    /// none.
    pub fn add_document(&mut self, doc: &Document)
        requires
            old(self).wf(),
            old(self).building() is None ==> old(self).next_seq() < u64::MAX,
            old(self).pending_docs() < u32::MAX,
            forall|i: int|
                0 <= i < doc.fields@.len() && (#[trigger] doc.fields@[i]).field_type.indexed ==> utf8(
                    doc.fields@[i].text_view(),
                ).len() <= u32::MAX,
            doc_occurrences(&old(self).analyzer(), doc.fields@).len() < u32::MAX,
        ensures
            final(self).wf(),
            final(self).building() is Some,
            final(self).pending_terms() == apply_occurrences(
                old(self).pending_terms(),
                old(self).pending_docs() as u32,
                doc_occurrences(&old(self).analyzer(), doc.fields@),
            ),
            final(self).pending_stored() == old(self).pending_stored().push(
                stored_of(doc.fields@),
            ),
            final(self).pending_docs() == old(self).pending_docs() + 1,
            final(self).pending_name() == old(self).pending_name(),
            final(self).next_seq() == old(self).next_seq() + (if old(self).building() is None {
                1int
            } else {
                0int
            }),
            final(self).analyzer() == old(self).analyzer(),
            final(self).dir() == old(self).dir(),
    {
        if self.current.is_none() {
            let name = self.next_segment_name();
            let mut a: Option<A> = None;
            core::mem::swap(&mut a, &mut self.analyzer);
            let analyzer = a.unwrap();
            let sw = SegmentWriter::new(name.as_str(), analyzer);
            proof {
                assert(sw.terms_model() =~= Seq::<(crate::terms::TermKey, Seq<crate::postings::PostingModel>)>::empty());
                assert(sw.stored_model() =~= Seq::<Seq<(Seq<char>, Seq<char>)>>::empty());
            }
            self.current = Some(sw);
        }
        let mut cur: Option<SegmentWriter<A>> = None;
        core::mem::swap(&mut cur, &mut self.current);
        let mut sw = cur.unwrap();
        sw.add_document(doc);
        self.current = Some(sw);
    }

    /// Writes the segment being built, if any, and returns to holding no
    /// segment. With no segment this does nothing. On an error the segment
    /// stays, unwritten resources and all.
    pub fn flush(&mut self) -> (r: Result<(), std::io::Error>)
        requires
            old(self).wf(),
        ensures
            final(self).wf(),
            old(self).building() is None ==> r is Ok && *final(self) == *old(self),
            r is Err ==> *final(self) == *old(self),
            r is Ok ==> final(self).building() is None,
            final(self).next_seq() == old(self).next_seq(),
            final(self).analyzer() == old(self).analyzer(),
            final(self).dir() == old(self).dir(),
    {
        let mut cur: Option<SegmentWriter<A>> = None;
        core::mem::swap(&mut cur, &mut self.current);
        match cur {
            None => Ok(()),
            Some(sw) => {
                let mut sw = sw;
                match MiniCodecV1::write_segment(&self.dir, &mut sw) {
                    Ok(()) => {
                        self.analyzer = Some(sw.analyzer);
                        Ok(())
                    },
                    Err(e) => {
                        self.current = Some(sw);
                        Err(e)
                    },
                }
            },
        }
    }
}

} // verus!
