use vstd::prelude::*;
use core::cmp::Ordering;
use crate::analysis::{Analyzer, TokenModel, token_models};
use crate::document::{Document, Field, FieldValue};
use crate::postings::{DocId, PostingModel, PostingsList, merge_occurrence, can_merge};
use crate::terms::{str_eq, Term, TermKey, term_lt, utf8, lemma_term_order_strict_total};

verus! {

/// The accumulator as a value: terms with their postings, in dictionary order.
pub type TermPostings = Seq<(TermKey, Seq<PostingModel>)>;

/// One occurrence of a term, with its position where positions are tracked.
pub type Occurrence = (TermKey, Option<u32>);

/// Index of the first entry of `m` from `i` on whose term does not come
/// before `key`.
pub open spec fn lower_bound_from(m: TermPostings, key: TermKey, i: int) -> int
    decreases m.len() - i,
{
    if i >= m.len() || !term_lt(m[i].0, key) {
        i
    } else {
        lower_bound_from(m, key, i + 1)
    }
}

/// Where `key` stands, or would stand, in `m`.
pub open spec fn lower_bound(m: TermPostings, key: TermKey) -> int {
    lower_bound_from(m, key, 0)
}

/// Applies one occurrence in document `d` to the postings of `key`, adding the
/// term at its place in the order if it is new.
pub open spec fn upsert(m: TermPostings, key: TermKey, d: u32, pos: Option<u32>) -> TermPostings {
    let i = lower_bound(m, key);
    if i < m.len() && m[i].0 == key {
        m.update(i, (key, merge_occurrence(m[i].1, d, pos)))
    } else {
        m.insert(i, (key, merge_occurrence(Seq::empty(), d, pos)))
    }
}

/// Applies the occurrences of document `d`, in order.
pub open spec fn apply_occurrences(m: TermPostings, d: u32, occs: Seq<Occurrence>) -> TermPostings
    decreases occs.len(),
{
    if occs.len() == 0 {
        m
    } else {
        upsert(apply_occurrences(m, d, occs.drop_last()), occs.last().0, d, occs.last().1)
    }
}

/// The occurrences a field contributes: one per token where it is indexed.
pub open spec fn field_occurrences<A: Analyzer>(a: &A, f: Field) -> Seq<Occurrence> {
    if f.field_type.indexed {
        a.tokens_of(f.name@, f.text_view()).map_values(
            |t: TokenModel|
                (
                    (utf8(f.name@), utf8(t.0)),
                    if f.field_type.with_positions {
                        Some(t.1)
                    } else {
                        None
                    },
                ),
        )
    } else {
        Seq::empty()
    }
}

/// The occurrences of a document's fields, field after field.
pub open spec fn doc_occurrences<A: Analyzer>(a: &A, fs: Seq<Field>) -> Seq<Occurrence>
    decreases fs.len(),
{
    if fs.len() == 0 {
        Seq::empty()
    } else {
        doc_occurrences(a, fs.drop_last()) + field_occurrences(a, fs.last())
    }
}

/// The (name, text) pairs a document stores, in field order.
pub open spec fn stored_of(fs: Seq<Field>) -> Seq<(Seq<char>, Seq<char>)>
    decreases fs.len(),
{
    if fs.len() == 0 {
        Seq::empty()
    } else if fs.last().field_type.stored {
        stored_of(fs.drop_last()).push((fs.last().name@, fs.last().text_view()))
    } else {
        stored_of(fs.drop_last())
    }
}

/// Terms strictly in dictionary order.
pub open spec fn terms_sorted(m: TermPostings) -> bool {
    forall|i: int, j: int| 0 <= i < j < m.len() ==> term_lt(m[i].0, m[j].0)
}

/// A non-empty postings list with strictly increasing document ids, all
/// below `bound`.
pub open spec fn docs_ok(pl: Seq<PostingModel>, bound: int) -> bool {
    &&& pl.len() > 0
    &&& forall|i: int, j: int| 0 <= i < j < pl.len() ==> pl[i].0 < pl[j].0
    &&& forall|i: int| 0 <= i < pl.len() ==> pl[i].0 < bound
}

pub open spec fn all_docs_ok(m: TermPostings, bound: int) -> bool {
    forall|i: int| 0 <= i < m.len() ==> docs_ok(#[trigger] m[i].1, bound)
}

/// Every posting of document `d` has frequency at most `c`.
pub open spec fn freq_bound(m: TermPostings, d: u32, c: int) -> bool {
    forall|i: int|
        0 <= i < m.len() && (#[trigger] m[i].1).last().0 == d ==> m[i].1.last().1 <= c
}

pub proof fn lemma_lower_bound(m: TermPostings, key: TermKey, i: int)
    requires
        0 <= i <= m.len(),
        forall|j: int| 0 <= j < i ==> term_lt(m[j].0, key),
    ensures
        i <= lower_bound_from(m, key, i) <= m.len(),
        forall|j: int| 0 <= j < lower_bound_from(m, key, i) ==> term_lt(m[j].0, key),
        lower_bound_from(m, key, i) < m.len() ==> !term_lt(m[lower_bound_from(m, key, i)].0, key),
    decreases m.len() - i,
{
    if i < m.len() && term_lt(m[i].0, key) {
        lemma_lower_bound(m, key, i + 1);
    }
}

/// One occurrence of the current document keeps the accumulator in order,
/// its postings well formed, and the current document's frequencies within
/// the count of occurrences applied.
pub proof fn lemma_upsert(m: TermPostings, key: TermKey, d: u32, pos: Option<u32>, c: int)
    requires
        terms_sorted(m),
        all_docs_ok(m, d + 1),
        freq_bound(m, d, c),
        0 <= c < u32::MAX,
    ensures
        terms_sorted(upsert(m, key, d, pos)),
        all_docs_ok(upsert(m, key, d, pos), d + 1),
        freq_bound(upsert(m, key, d, pos), d, c + 1),
        lower_bound(m, key) < m.len() && m[lower_bound(m, key)].0 == key ==> can_merge(
            m[lower_bound(m, key)].1,
            d,
        ),
{
    lemma_lower_bound(m, key, 0);
    let i = lower_bound(m, key);
    let r = upsert(m, key, d, pos);
    if i < m.len() && m[i].0 == key {
        let pl = m[i].1;
        let npl = merge_occurrence(pl, d, pos);
        assert(docs_ok(pl, d + 1));
        assert(docs_ok(npl, d + 1));
        assert(all_docs_ok(r, d + 1));
        assert(freq_bound(r, d, c + 1));
    } else {
        assert forall|a: int, b: int| 0 <= a < b < r.len() implies term_lt(r[a].0, r[b].0) by {
            if a < i && b > i {
                lemma_term_order_strict_total(m[a].0, key, m[b - 1].0);
            }
            if a == i && i < m.len() {
                lemma_term_order_strict_total(key, m[i].0, m[b - 1].0);
                lemma_term_order_strict_total(m[i].0, key, m[i].0);
            }
        }
        assert(docs_ok(merge_occurrence(Seq::empty(), d, pos), d + 1));
        assert(all_docs_ok(r, d + 1));
        assert(freq_bound(r, d, c + 1));
    }
}

pub proof fn lemma_doc_occurrences_prefix<A: Analyzer>(a: &A, fs: Seq<Field>, i: int)
    requires
        0 <= i <= fs.len(),
    ensures
        doc_occurrences(a, fs.take(i)).len() <= doc_occurrences(a, fs).len(),
    decreases fs.len(),
{
    if i < fs.len() {
        assert(fs.take(i) =~= fs.drop_last().take(i));
        lemma_doc_occurrences_prefix(a, fs.drop_last(), i);
    } else {
        assert(fs.take(i) =~= fs);
    }
}

pub proof fn lemma_all_docs_ok_weaken(m: TermPostings, b1: int, b2: int)
    requires
        all_docs_ok(m, b1),
        b1 <= b2,
    ensures
        all_docs_ok(m, b2),
{
    assert forall|i: int| 0 <= i < m.len() implies docs_ok(#[trigger] m[i].1, b2) by {
        assert(docs_ok(m[i].1, b1));
    }
}

/// No entry of `m` belongs to the field with bytes `f`.
pub open spec fn field_absent(m: TermPostings, f: Seq<u8>) -> bool {
    forall|k: int| 0 <= k < m.len() ==> (#[trigger] m[k]).0.0 != f
}

proof fn lemma_apply_keeps_field_absent(m: TermPostings, d: u32, occs: Seq<Occurrence>, f: Seq<u8>)
    requires
        field_absent(m, f),
        forall|k: int| 0 <= k < occs.len() ==> (#[trigger] occs[k]).0.0 != f,
    ensures
        field_absent(apply_occurrences(m, d, occs), f),
    decreases occs.len(),
{
    if occs.len() > 0 {
        let prev = apply_occurrences(m, d, occs.drop_last());
        assert forall|k: int| 0 <= k < occs.drop_last().len() implies (#[trigger] occs.drop_last()[k]).0.0 != f by {
            assert(occs.drop_last()[k] == occs[k]);
        }
        lemma_apply_keeps_field_absent(m, d, occs.drop_last(), f);
        let o = occs.last();
        assert(o == occs[occs.len() - 1]);
        let r = upsert(prev, o.0, d, o.1);
        let i = lower_bound(prev, o.0);
        lemma_lower_bound(prev, o.0, 0);
        assert forall|k: int| 0 <= k < r.len() implies (#[trigger] r[k]).0.0 != f by {
            if i < prev.len() && prev[i].0 == o.0 {
                if k != i {
                    assert(r[k] == prev[k]);
                }
            } else if k > i {
                assert(r[k] == prev[k - 1]);
            } else if k < i {
                assert(r[k] == prev[k]);
            }
        }
    }
}

proof fn lemma_occurrences_of_other_fields<A: Analyzer>(a: &A, fs: Seq<Field>, f: Seq<char>)
    requires
        forall|j: int| 0 <= j < fs.len() && (#[trigger] fs[j]).field_type.indexed ==> fs[j].name@ != f,
    ensures
        forall|k: int| 0 <= k < doc_occurrences(a, fs).len() ==> (#[trigger] doc_occurrences(a, fs)[k]).0.0 != utf8(f),
    decreases fs.len(),
{
    if fs.len() > 0 {
        let init = fs.drop_last();
        assert forall|j: int| 0 <= j < init.len() && (#[trigger] init[j]).field_type.indexed implies init[j].name@ != f by {
            assert(init[j] == fs[j]);
        }
        lemma_occurrences_of_other_fields(a, init, f);
        let last = fs.last();
        assert(last == fs[fs.len() - 1]);
        let occ = doc_occurrences(a, fs);
        let prev = doc_occurrences(a, init);
        let fo = field_occurrences(a, last);
        assert forall|k: int| 0 <= k < occ.len() implies (#[trigger] occ[k]).0.0 != utf8(f) by {
            if k >= prev.len() {
                assert(occ[k] == fo[k - prev.len()]);
                vstd::utf8::encode_utf8_decode_utf8(f);
                vstd::utf8::encode_utf8_decode_utf8(last.name@);
            } else {
                assert(occ[k] == prev[k]);
            }
        }
    }
}

proof fn lemma_stored_of_contains(fs: Seq<Field>, i: int)
    requires
        0 <= i < fs.len(),
        fs[i].field_type.stored,
        forall|j: int| 0 <= j < fs.len() && j != i ==> (#[trigger] fs[j]).name@ != fs[i].name@,
    ensures
        stored_of(fs).contains((fs[i].name@, fs[i].text_view())),
        forall|k: int|
            0 <= k < stored_of(fs).len() && (#[trigger] stored_of(fs)[k]).0 == fs[i].name@
                ==> stored_of(fs)[k].1 == fs[i].text_view(),
    decreases fs.len(),
{
    lemma_stored_of_names(fs);
    let init = fs.drop_last();
    if i < fs.len() - 1 {
        assert forall|j: int| 0 <= j < init.len() && j != i implies (#[trigger] init[j]).name@ != init[i].name@ by {
            assert(init[j] == fs[j]);
        }
        lemma_stored_of_contains(init, i);
        assert(fs.last() == fs[fs.len() - 1]);
        if fs.last().field_type.stored {
            let x = (fs[i].name@, fs[i].text_view());
            let k0 = choose|k: int| 0 <= k < stored_of(init).len() && stored_of(init)[k] == x;
            assert(stored_of(fs)[k0] == x);
        }
    } else {
        lemma_stored_of_names(init);
        assert forall|k: int|
            0 <= k < stored_of(init).len() implies (#[trigger] stored_of(init)[k]).0 != fs[i].name@ by {
            let j = choose|j: int| 0 <= j < init.len() && init[j].name@ == stored_of(init)[k].0;
            assert(init[j] == fs[j]);
        }
        assert(stored_of(fs).last() == (fs[i].name@, fs[i].text_view()));
    }
}

/// Every name in the stored fields is the name of a field.
proof fn lemma_stored_of_names(fs: Seq<Field>)
    ensures
        forall|k: int|
            0 <= k < stored_of(fs).len() ==> exists|j: int|
                0 <= j < fs.len() && fs[j].name@ == (#[trigger] stored_of(fs)[k]).0,
    decreases fs.len(),
{
    if fs.len() > 0 {
        let init = fs.drop_last();
        lemma_stored_of_names(init);
        assert forall|k: int| 0 <= k < stored_of(fs).len() implies exists|j: int|
            0 <= j < fs.len() && fs[j].name@ == (#[trigger] stored_of(fs)[k]).0 by {
            if k < stored_of(init).len() {
                let j = choose|j: int| 0 <= j < init.len() && init[j].name@ == stored_of(init)[k].0;
                assert(fs[j] == init[j]);
            } else {
                assert(fs[fs.len() - 1] == fs.last());
            }
        }
    }
}

/// A field that is stored but not indexed, in a document where no indexed
/// field shares its name and no other field has its name, adds no term of its
/// name to a segment that had none, and its text is what the document stores
/// under its name.
pub proof fn lemma_stored_only_field<A: Analyzer>(
    a: &A,
    m: TermPostings,
    d: u32,
    fs: Seq<Field>,
    i: int,
)
    requires
        0 <= i < fs.len(),
        fs[i].field_type.stored,
        !fs[i].field_type.indexed,
        forall|j: int| 0 <= j < fs.len() && j != i ==> (#[trigger] fs[j]).name@ != fs[i].name@,
        field_absent(m, utf8(fs[i].name@)),
    ensures
        field_absent(apply_occurrences(m, d, doc_occurrences(a, fs)), utf8(fs[i].name@)),
        stored_of(fs).contains((fs[i].name@, fs[i].text_view())),
        forall|k: int|
            0 <= k < stored_of(fs).len() && (#[trigger] stored_of(fs)[k]).0 == fs[i].name@
                ==> stored_of(fs)[k].1 == fs[i].text_view(),
{
    lemma_occurrences_of_other_fields(a, fs, fs[i].name@);
    lemma_apply_keeps_field_absent(m, d, doc_occurrences(a, fs), utf8(fs[i].name@));
    lemma_stored_of_contains(fs, i);
}

/// What a segment records about itself.
#[derive(Debug, Clone)]
pub struct SegmentInfo {
    pub name: String,
    pub max_doc: u32,
    pub files: Vec<String>,
    pub codec: String,
}

impl SegmentInfo {
    pub fn new(name: &str) -> (r: SegmentInfo)
        ensures
            r.name@ == name@,
            r.max_doc == 0,
            r.files@.len() == 0,
            r.codec@ == "MiniCodecV1"@,
    {
        SegmentInfo {
            name: name.to_string(),
            max_doc: 0,
            files: Vec::new(),
            codec: "MiniCodecV1".to_string(),
        }
    }
}

/// The stored fields of one document, as (name, text) pairs in field order.
#[derive(Debug, Clone)]
pub struct StoredFields {
    pub entries: Vec<(String, String)>,
}

impl View for StoredFields {
    type V = Seq<(Seq<char>, Seq<char>)>;

    open spec fn view(&self) -> Seq<(Seq<char>, Seq<char>)> {
        self.entries@.map_values(|e: (String, String)| (e.0@, e.1@))
    }
}

impl StoredFields {
    /// The text stored under `name`: that of the last field of that name.
    pub fn get(&self, name: &str) -> (r: Option<&String>)
        ensures
            r is None <==> forall|i: int| 0 <= i < self@.len() ==> self@[i].0 != name@,
            r matches Some(t) ==> exists|i: int|
                0 <= i < self@.len() && self@[i].0 == name@ && self@[i].1 == t@ && forall|j: int|
                    i < j < self@.len() ==> self@[j].0 != name@,
    {
        let mut i: usize = self.entries.len();
        while i > 0
            invariant
                i <= self@.len(),
                forall|j: int| i <= j < self@.len() ==> self@[j].0 != name@,
            decreases i,
        {
            i = i - 1;
            if str_eq(self.entries[i].0.as_str(), name) {
                assert(self@[i as int].0 == name@);
                return Some(&self.entries[i].1);
            }
        }
        None
    }
}

/// Builds one segment: assigns document ids and accumulates postings and
/// stored fields.
pub struct SegmentWriter<A: Analyzer> {
    pub seg_info: SegmentInfo,
    pub analyzer: A,
    /// Terms with their postings, in dictionary order.
    pub terms: Vec<(Term, PostingsList)>,
    /// Stored fields, indexed by document id.
    pub stored: Vec<StoredFields>,
}

impl<A: Analyzer> SegmentWriter<A> {
    pub open spec fn terms_model(&self) -> TermPostings {
        self.terms@.map_values(|e: (Term, PostingsList)| (e.0.key(), e.1@))
    }

    pub open spec fn stored_model(&self) -> Seq<Seq<(Seq<char>, Seq<char>)>> {
        self.stored@.map_values(|s: StoredFields| s@)
    }

    /// Terms in order, each with well-formed postings of documents already
    /// added, and one stored-fields entry per document.
    pub open spec fn wf(&self) -> bool {
        &&& terms_sorted(self.terms_model())
        &&& all_docs_ok(self.terms_model(), self.seg_info.max_doc as int)
        &&& self.stored@.len() == self.seg_info.max_doc
    }

    pub fn new(name: &str, analyzer: A) -> (r: SegmentWriter<A>)
        ensures
            r.wf(),
            r.seg_info.name@ == name@,
            r.seg_info.max_doc == 0,
            r.seg_info.files@.len() == 0,
            r.seg_info.codec@ == "MiniCodecV1"@,
            r.analyzer == analyzer,
            r.terms_model().len() == 0,
            r.stored_model().len() == 0,
    {
        let r = SegmentWriter {
            seg_info: SegmentInfo::new(name),
            analyzer,
            terms: Vec::new(),
            stored: Vec::new(),
        };
        assert(r.terms_model() =~= Seq::<(TermKey, Seq<PostingModel>)>::empty());
        r
    }

    /// Adds a document under the next document id: the occurrences of its
    /// indexed fields go to the postings, the values of its stored fields to
    /// the stored-fields table.
    pub fn add_document(&mut self, doc: &Document)
        requires
            old(self).wf(),
            old(self).seg_info.max_doc < u32::MAX,
            forall|i: int|
                0 <= i < doc.fields@.len() && (#[trigger] doc.fields@[i]).field_type.indexed ==> utf8(
                    doc.fields@[i].text_view(),
                ).len() <= u32::MAX,
            doc_occurrences(&old(self).analyzer, doc.fields@).len() < u32::MAX,
        ensures
            final(self).wf(),
            final(self).terms_model() == apply_occurrences(
                old(self).terms_model(),
                old(self).seg_info.max_doc,
                doc_occurrences(&old(self).analyzer, doc.fields@),
            ),
            final(self).stored_model() == old(self).stored_model().push(stored_of(doc.fields@)),
            final(self).seg_info.max_doc == old(self).seg_info.max_doc + 1,
            final(self).seg_info.name == old(self).seg_info.name,
            final(self).seg_info.codec == old(self).seg_info.codec,
            final(self).seg_info.files == old(self).seg_info.files,
            final(self).analyzer == old(self).analyzer,
    {
        let d = DocId(self.seg_info.max_doc);
        let ghost m0 = self.terms_model();
        let ghost fs = doc.fields@;
        let ghost total = doc_occurrences(&self.analyzer, fs).len();
        let mut stored: Vec<(String, String)> = Vec::new();
        let ghost mut occ_done: Seq<Occurrence> = Seq::empty();
        let mut fi: usize = 0;
        assert(fs.take(0) =~= Seq::<Field>::empty());
        while fi < doc.fields.len()
            invariant
                fs == doc.fields@,
                fi <= fs.len(),
                d.0 == old(self).seg_info.max_doc,
                self.seg_info == old(self).seg_info,
                self.analyzer == old(self).analyzer,
                self.stored == old(self).stored,
                m0 == old(self).terms_model(),
                total == doc_occurrences(&self.analyzer, fs).len(),
                total < u32::MAX,
                forall|i: int|
                    0 <= i < fs.len() && (#[trigger] fs[i]).field_type.indexed ==> utf8(
                        fs[i].text_view(),
                    ).len() <= u32::MAX,
                occ_done == doc_occurrences(&self.analyzer, fs.take(fi as int)),
                self.terms_model() == apply_occurrences(m0, d.0, occ_done),
                terms_sorted(self.terms_model()),
                all_docs_ok(self.terms_model(), d.0 + 1),
                freq_bound(self.terms_model(), d.0, occ_done.len() as int),
                stored@.map_values(|e: (String, String)| (e.0@, e.1@)) == stored_of(
                    fs.take(fi as int),
                ),
            decreases fs.len() - fi,
        {
            let field = &doc.fields[fi];
            let ghost focc = field_occurrences(&self.analyzer, *field);
            proof {
                lemma_doc_occurrences_prefix(&self.analyzer, fs, fi + 1);
                assert(fs.take(fi + 1).drop_last() =~= fs.take(fi as int));
                assert(fs.take(fi + 1).last() == *field);
            }
            match &field.value {
                FieldValue::Text(text) => {
                    if field.field_type.indexed {
                        assert(utf8(fs[fi as int].text_view()).len() <= u32::MAX);
                        let tokens = self.analyzer.tokenize(field.name.as_str(), text.as_str());
                        let ghost base = occ_done;
                        let mut ti: usize = 0;
                        assert(focc.take(0) =~= Seq::<Occurrence>::empty());
                        assert(base + focc.take(0) =~= base);
                        while ti < tokens.len()
                            invariant
                                fs == doc.fields@,
                                fi < fs.len(),
                                *field == fs[fi as int],
                                field.value == FieldValue::Text(*text),
                                field.field_type.indexed,
                                d.0 == old(self).seg_info.max_doc,
                                self.seg_info == old(self).seg_info,
                                self.analyzer == old(self).analyzer,
                                self.stored == old(self).stored,
                                m0 == old(self).terms_model(),
                                focc == field_occurrences(&self.analyzer, *field),
                                token_models(tokens@) == self.analyzer.tokens_of(
                                    field.name@,
                                    text@,
                                ),
                                ti <= tokens@.len(),
                                base.len() + focc.len() <= total,
                                total < u32::MAX,
                                occ_done == base + focc.take(ti as int),
                                self.terms_model() == apply_occurrences(m0, d.0, occ_done),
                                terms_sorted(self.terms_model()),
                                all_docs_ok(self.terms_model(), d.0 + 1),
                                freq_bound(self.terms_model(), d.0, occ_done.len() as int),
                            decreases tokens@.len() - ti,
                        {
                            let tok = &tokens[ti];
                            let term = Term::new(field.name.as_str(), tok.term.as_str());
                            let pos = if field.field_type.with_positions {
                                Some(tok.position)
                            } else {
                                None
                            };
                            let ghost o = (term.key(), pos);
                            assert(token_models(tokens@)[ti as int] == tokens@[ti as int]@);
                            assert(focc[ti as int] == o);
                            self.add_occurrence(term, d, pos, Ghost(occ_done.len() as int));
                            proof {
                                assert(occ_done.push(o).drop_last() =~= occ_done);
                                occ_done = occ_done.push(o);
                                assert(occ_done =~= base + focc.take(ti + 1));
                            }
                            ti = ti + 1;
                        }
                        assert(focc.take(ti as int) =~= focc);
                    } else {
                        assert(focc =~= Seq::<Occurrence>::empty());
                        assert(occ_done + focc =~= occ_done);
                    }
                    if field.field_type.stored {
                        stored.push((field.name.clone(), text.clone()));
                    }
                    assert(stored@.map_values(|e: (String, String)| (e.0@, e.1@)) =~= stored_of(
                        fs.take(fi + 1),
                    ));
                },
            }
            fi = fi + 1;
        }
        proof {
            assert(fs.take(fs.len() as int) =~= fs);
        }
        let ghost sm = self.stored_model();
        self.stored.push(StoredFields { entries: stored });
        self.seg_info.max_doc = self.seg_info.max_doc + 1;
        assert(self.stored_model() =~= sm.push(stored_of(fs)));
    }

    /// Applies one occurrence of `term` in the current document `d`.
    fn add_occurrence(&mut self, term: Term, d: DocId, pos: Option<u32>, Ghost(c): Ghost<int>)
        requires
            terms_sorted(old(self).terms_model()),
            all_docs_ok(old(self).terms_model(), d.0 + 1),
            freq_bound(old(self).terms_model(), d.0, c),
            0 <= c < u32::MAX,
        ensures
            final(self).terms_model() == upsert(old(self).terms_model(), term.key(), d.0, pos),
            terms_sorted(final(self).terms_model()),
            all_docs_ok(final(self).terms_model(), d.0 + 1),
            freq_bound(final(self).terms_model(), d.0, c + 1),
            final(self).seg_info == old(self).seg_info,
            final(self).analyzer == old(self).analyzer,
            final(self).stored == old(self).stored,
    {
        let ghost m = self.terms_model();
        let ghost key = term.key();
        proof {
            lemma_upsert(m, key, d.0, pos, c);
        }
        let n = self.terms.len();
        let mut i: usize = 0;
        while i < n
            invariant
                n == self.terms@.len(),
                m == self.terms_model(),
                key == term.key(),
                i <= n,
                lower_bound_from(m, key, i as int) == lower_bound(m, key),
            ensures
                n == self.terms@.len(),
                m == self.terms_model(),
                key == term.key(),
                i <= n,
                lower_bound(m, key) == i,
            decreases n - i,
        {
            let ord = self.terms[i].0.compare(&term);
            let less = match ord {
                Ordering::Less => true,
                _ => false,
            };
            assert(m[i as int].0 == self.terms@[i as int].0.key());
            if !less {
                break;
            }
            i = i + 1;
        }
        assert(lower_bound(m, key) == i);
        if i < n && matches!(self.terms[i].0.compare(&term), Ordering::Equal) {
            let (t, mut pl) = self.terms.remove(i);
            pl.add_occurrence(d, pos);
            self.terms.insert(i, (t, pl));
            assert(self.terms_model() =~= upsert(m, key, d.0, pos));
        } else {
            let mut pl = PostingsList::new();
            pl.add_occurrence(d, pos);
            self.terms.insert(i, (term, pl));
            assert(self.terms_model() =~= upsert(m, key, d.0, pos));
        }
    }
}

} // verus!
