use vstd::prelude::*;
use vstd::multiset::Multiset;
use vstd::seq_lib::{to_multiset_build, to_multiset_insert};

verus! {

/// Identifier of a document within one segment, assigned from 0 upwards.
#[derive(Debug, Clone, Copy, PartialEq, Eq, Structural, PartialOrd, Ord, Hash)]
pub struct DocId(pub u32);

/// A posting as a value: document id, frequency, positions.
pub type PostingModel = (u32, u32, Seq<u32>);

/// The occurrences of one term in one document.
#[derive(Debug)]
pub struct Posting {
    pub doc_id: DocId,
    pub positions: Vec<u32>,
    pub freq: u32,
}

impl View for Posting {
    type V = PostingModel;

    open spec fn view(&self) -> PostingModel {
        (self.doc_id.0, self.freq, self.positions@)
    }
}

/// The positions an occurrence adds: its position where positions are
/// tracked, none where they are not.
pub open spec fn position_seq(pos: Option<u32>) -> Seq<u32> {
    match pos {
        Some(p) => seq![p],
        None => Seq::empty(),
    }
}

/// One occurrence of a term in document `d`, applied to its postings: the
/// last posting grows when it belongs to `d`, else a posting for `d` with
/// frequency 1 is appended.
pub open spec fn merge_occurrence(pl: Seq<PostingModel>, d: u32, pos: Option<u32>) -> Seq<
    PostingModel,
> {
    if pl.len() > 0 && pl.last().0 == d {
        pl.update(
            pl.len() - 1,
            (d, (pl.last().1 + 1) as u32, pl.last().2 + position_seq(pos)),
        )
    } else {
        pl.push((d, 1u32, position_seq(pos)))
    }
}

/// Whether one more occurrence in document `d` keeps the frequency in range.
pub open spec fn can_merge(pl: Seq<PostingModel>, d: u32) -> bool {
    pl.len() > 0 && pl.last().0 == d ==> pl.last().1 < u32::MAX
}

impl Posting {
    pub fn new(doc_id: DocId) -> (r: Posting)
        ensures
            r@ == (doc_id.0, 0u32, Seq::<u32>::empty()),
    {
        Posting { doc_id, positions: Vec::new(), freq: 0 }
    }

    /// Records one more occurrence at `position`.
    pub fn add_position(&mut self, position: u32)
        requires
            old(self).freq < u32::MAX,
        ensures
            final(self)@ == (old(self)@.0, (old(self)@.1 + 1) as u32, old(self)@.2.push(position)),
    {
        self.positions.push(position);
        self.freq = self.freq + 1;
    }
}

/// The postings of one term.
#[derive(Debug)]
pub struct PostingsList {
    pub postings: Vec<Posting>,
}

impl View for PostingsList {
    type V = Seq<PostingModel>;

    open spec fn view(&self) -> Seq<PostingModel> {
        self.postings@.map_values(|p: Posting| p@)
    }
}

impl PostingsList {
    pub fn new() -> (r: PostingsList)
        ensures
            r@ == Seq::<PostingModel>::empty(),
    {
        let r = PostingsList { postings: Vec::new() };
        assert(r@ =~= Seq::<PostingModel>::empty());
        r
    }

    /// Applies one occurrence of the term in document `doc_id`, at `maybe_pos`
    /// where positions are tracked.
    pub fn add_occurrence(&mut self, doc_id: DocId, maybe_pos: Option<u32>)
        requires
            can_merge(old(self)@, doc_id.0),
        ensures
            final(self)@ == merge_occurrence(old(self)@, doc_id.0, maybe_pos),
    {
        let n = self.postings.len();
        if n > 0 && self.postings[n - 1].doc_id.0 == doc_id.0 {
            let mut last = self.postings.pop().unwrap();
            match maybe_pos {
                Some(pos) => last.add_position(pos),
                None => {
                    last.freq = last.freq + 1;
                },
            }
            assert(last.positions@ =~= old(self)@.last().2 + position_seq(maybe_pos));
            self.postings.push(last);
            assert(self@ =~= merge_occurrence(old(self)@, doc_id.0, maybe_pos));
            return;
        }
        let mut posting = Posting::new(doc_id);
        posting.freq = 1;
        if let Some(pos) = maybe_pos {
            posting.positions.push(pos);
        }
        assert(posting.positions@ =~= position_seq(maybe_pos));
        self.postings.push(posting);
        assert(self@ =~= merge_occurrence(old(self)@, doc_id.0, maybe_pos));
    }

    pub fn add_posting(&mut self, posting: Posting)
        ensures
            final(self)@ == old(self)@.push(posting@),
    {
        let ghost v = posting@;
        self.postings.push(posting);
        assert(self@ =~= old(self)@.push(v));
    }

    /// Orders the postings by document id, keeping the postings themselves.
    pub fn sort_by_doc_id(&mut self)
        ensures
            final(self)@.to_multiset() == old(self)@.to_multiset(),
            forall|i: int, j: int|
                0 <= i < j < final(self)@.len() ==> final(self)@[i].0 <= final(self)@[j].0,
    {
        broadcast use vstd::multiset::group_multiset_axioms;
        broadcast use vstd::seq_lib::group_to_multiset_ensures;

        let mut rest: Vec<Posting> = Vec::new();
        core::mem::swap(&mut rest, &mut self.postings);
        let ghost orig = old(self)@;
        assert(self@ =~= Seq::<PostingModel>::empty());
        assert(self@.to_multiset() =~= Multiset::<PostingModel>::empty());
        assert(rest@.map_values(|p: Posting| p@) == orig);
        while rest.len() > 0
            invariant
                forall|i: int, j: int| 0 <= i < j < self@.len() ==> self@[i].0 <= self@[j].0,
                self@.to_multiset().add(rest@.map_values(|p: Posting| p@).to_multiset())
                    == orig.to_multiset(),
            decreases rest@.len(),
        {
            let ghost before = self@;
            let ghost rv = rest@.map_values(|p: Posting| p@);
            let p = rest.pop().unwrap();
            proof {
                let rv2 = rest@.map_values(|p: Posting| p@);
                assert(rv =~= rv2.push(p@));
                to_multiset_build(rv2, p@);
            }
            let mut i: usize = 0;
            while i < self.postings.len() && self.postings[i].doc_id.0 < p.doc_id.0
                invariant
                    i <= self@.len(),
                    self@ == before,
                    forall|k: int| 0 <= k < i ==> self@[k].0 < p.doc_id.0,
                decreases self@.len() - i,
            {
                assert(self@[i as int].0 == self.postings@[i as int].doc_id.0);
                i = i + 1;
            }
            proof {
                if i < self@.len() {
                    assert(self@[i as int].0 == self.postings@[i as int].doc_id.0);
                }
            }
            let ghost pv = p@;
            self.postings.insert(i, p);
            proof {
                assert(self@ =~= before.insert(i as int, pv));
                to_multiset_insert(before, i as int, pv);
                assert(self@.to_multiset().add(rest@.map_values(|p: Posting| p@).to_multiset())
                    =~= orig.to_multiset());
            }
        }
        assert(rest@.map_values(|p: Posting| p@) =~= Seq::<PostingModel>::empty());
        assert(rest@.map_values(|p: Posting| p@).to_multiset() =~= Multiset::<PostingModel>::empty());
        assert(self@.to_multiset() =~= orig.to_multiset());
    }

    /// The first posting of document `doc_id`, if there is one.
    pub fn get_posting(&self, doc_id: DocId) -> (r: Option<&Posting>)
        ensures
            r is None <==> forall|i: int| 0 <= i < self@.len() ==> self@[i].0 != doc_id.0,
            r matches Some(p) ==> exists|i: int|
                0 <= i < self@.len() && self.postings@[i] == *p && p.doc_id == doc_id && forall|
                    j: int,
                | 0 <= j < i ==> self@[j].0 != doc_id.0,
    {
        let mut i: usize = 0;
        while i < self.postings.len()
            invariant
                i <= self.postings@.len(),
                forall|j: int| 0 <= j < i ==> self@[j].0 != doc_id.0,
            decreases self.postings@.len() - i,
        {
            if self.postings[i].doc_id.0 == doc_id.0 {
                assert(self@[i as int].0 == doc_id.0);
                return Some(&self.postings[i]);
            }
            i = i + 1;
        }
        None
    }
}

} // verus!
