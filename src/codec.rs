use vstd::prelude::*;
use crate::analysis::Analyzer;
use crate::postings::{DocId, Posting, PostingModel, PostingsList};
use crate::segment::{SegmentInfo, SegmentWriter, TermPostings, all_docs_ok, docs_ok};
use crate::store::Directory;
use crate::terms::{Term, utf8};

verus! {

/// Base-128 encoding of `v`, least significant group first; every byte but
/// the last carries the continuation bit.
pub open spec fn varint(v: nat) -> Seq<u8>
    decreases v,
{
    if v < 128 {
        seq![v as u8]
    } else {
        seq![((v % 128) + 128) as u8] + varint(v / 128)
    }
}

/// Decodes one varint at the front of `b`: its value and how many bytes it
/// took, or `None` when no byte without the continuation bit ends it.
pub open spec fn varint_value(b: Seq<u8>) -> Option<(nat, nat)>
    decreases b.len(),
{
    if b.len() == 0 {
        None
    } else if b[0] < 128 {
        Some((b[0] as nat, 1nat))
    } else {
        match varint_value(b.skip(1)) {
            Some((v, n)) => Some(((b[0] - 128) as nat + 128 * v, n + 1)),
            None => None,
        }
    }
}

/// Decoding what was encoded, followed by anything, gives back the value and
/// the encoded length.
pub proof fn lemma_varint_round_trip(v: nat, rest: Seq<u8>)
    ensures
        varint_value(varint(v) + rest) == Some((v, varint(v).len())),
    decreases v,
{
    let e = varint(v) + rest;
    if v >= 128 {
        lemma_varint_round_trip(v / 128, rest);
        assert(e.skip(1) =~= varint(v / 128) + rest);
    }
}

/// The last byte of an encoding never carries the continuation bit, and all
/// the others do.
pub proof fn lemma_varint_continuation(v: nat)
    ensures
        varint(v).len() >= 1,
        varint(v).last() < 128,
        forall|i: int| 0 <= i < varint(v).len() - 1 ==> varint(v)[i] >= 128,
    decreases v,
{
    if v >= 128 {
        lemma_varint_continuation(v / 128);
    }
}

/// Appends the varint encoding of `v` to `out`.
pub fn write_varint(out: &mut Vec<u8>, v: u64)
    ensures
        final(out)@ == old(out)@ + varint(v as nat),
    decreases v,
{
    if v < 128 {
        out.push(v as u8);
    } else {
        let b: u8 = ((v & 0x7f) | 0x80) as u8;
        assert(b == (v % 128) + 128) by (bit_vector)
            requires b == ((v & 0x7f) | 0x80) as u8, v >= 128;
        out.push(b);
        let rest: u64 = v >> 7;
        assert(rest == v / 128) by (bit_vector)
            requires rest == v >> 7;
        write_varint(out, rest);
        assert(varint(v as nat) =~= seq![b] + varint(rest as nat));
    }
}

/// Reads the varint that starts at `pos` in `bytes`: its value and the
/// position just after it. `None` when the bytes end before the varint does,
/// or when its value does not fit in a `u64`.
pub fn read_varint(bytes: &[u8], pos: usize) -> (r: Option<(u64, usize)>)
    requires
        pos <= bytes@.len(),
    ensures
        r == (match varint_value(bytes@.skip(pos as int)) {
            Some((v, n)) => if v <= u64::MAX {
                Some((v as u64, (pos + n) as usize))
            } else {
                None
            },
            None => None,
        }),
        r matches Some((_, e)) ==> pos < e <= bytes@.len(),
        r matches Some((v, e)) ==> varint_value(bytes@.skip(pos as int)) == Some(
            (v as nat, (e - pos) as nat),
        ),
        r is None ==> (varint_value(bytes@.skip(pos as int)) is None || varint_value(
            bytes@.skip(pos as int),
        ).unwrap().0 > u64::MAX),
    decreases bytes@.len() - pos,
{
    if pos >= bytes.len() {
        return None;
    }
    let b = bytes[pos];
    if b < 128 {
        return Some((b as u64, pos + 1));
    }
    assert(bytes@.skip(pos as int).skip(1) =~= bytes@.skip(pos + 1));
    match read_varint(bytes, pos + 1) {
        None => None,
        Some((rest, next)) => {
            if rest > (u64::MAX - 127) / 128 {
                None
            } else {
                Some(((b - 128) as u64 + 128 * rest, next))
            }
        },
    }
}

/// The decimal digits of `n`, in ASCII.
pub open spec fn decimal(n: nat) -> Seq<u8>
    decreases n,
{
    if n < 10 {
        seq![(48 + n) as u8]
    } else {
        decimal(n / 10) + seq![(48 + n % 10) as u8]
    }
}

/// The positions of a posting, one varint each.
pub open spec fn positions_bytes(ps: Seq<u32>) -> Seq<u8>
    decreases ps.len(),
{
    if ps.len() == 0 {
        Seq::empty()
    } else {
        positions_bytes(ps.drop_last()) + varint(ps.last() as nat)
    }
}

/// The document id of the posting before the last, or 0 when there is none.
pub open spec fn previous_doc(pl: Seq<PostingModel>) -> int {
    if pl.len() >= 2 {
        pl[pl.len() - 2].0 as int
    } else {
        0
    }
}

/// One posting: the gap from the previous document id, the frequency, then
/// the recorded positions.
pub open spec fn posting_bytes(p: PostingModel, prev: int) -> Seq<u8> {
    varint((p.0 - prev) as nat) + varint(p.1 as nat) + positions_bytes(p.2)
}

/// The postings of a list, each after the one before.
pub open spec fn postings_body(pl: Seq<PostingModel>) -> Seq<u8>
    decreases pl.len(),
{
    if pl.len() == 0 {
        Seq::empty()
    } else {
        postings_body(pl.drop_last()) + posting_bytes(pl.last(), previous_doc(pl))
    }
}

/// A term's block: its document frequency, then its postings.
pub open spec fn postings_block(pl: Seq<PostingModel>) -> Seq<u8> {
    varint(pl.len() as nat) + postings_body(pl)
}

/// The postings resource: the blocks of all terms, in dictionary order.
pub open spec fn postings_resource(m: TermPostings) -> Seq<u8>
    decreases m.len(),
{
    if m.len() == 0 {
        Seq::empty()
    } else {
        postings_resource(m.drop_last()) + postings_block(m.last().1)
    }
}

pub open spec fn tab() -> Seq<u8> {
    seq![9u8]
}

pub open spec fn newline() -> Seq<u8> {
    seq![10u8]
}

/// One dictionary row: field, text, document frequency and the offset of the
/// term's block, separated by tabs.
pub open spec fn dictionary_row(e: (crate::terms::TermKey, Seq<PostingModel>), offset: nat) -> Seq<
    u8,
> {
    e.0.0 + tab() + e.0.1 + tab() + decimal(e.1.len()) + tab() + decimal(offset) + newline()
}

/// The dictionary resource: one row per term, in dictionary order.
pub open spec fn dictionary_resource(m: TermPostings) -> Seq<u8>
    decreases m.len(),
{
    if m.len() == 0 {
        Seq::empty()
    } else {
        dictionary_resource(m.drop_last()) + dictionary_row(
            m.last(),
            postings_resource(m.drop_last()).len(),
        )
    }
}

/// The info resource: name, document count, codec and file names, one
/// `key=value` line each.
pub open spec fn info_resource(name: Seq<char>, max_doc: nat, codec: Seq<char>) -> Seq<u8> {
    utf8("name="@) + utf8(name) + newline() + utf8("max_doc="@) + decimal(max_doc) + newline()
        + utf8("codec="@) + utf8(codec) + newline() + utf8("files="@) + utf8(name) + utf8(
        ".si,"@,
    ) + utf8(name) + utf8(".terms,"@) + utf8(name) + utf8(".post"@) + newline()
}

/// Appends the UTF-8 bytes of `s` to `out`.
pub fn append_utf8(out: &mut Vec<u8>, s: &str)
    ensures
        final(out)@ == old(out)@ + utf8(s@),
{
    let b = s.as_bytes();
    let mut i: usize = 0;
    while i < b.len()
        invariant
            b@ == utf8(s@),
            i <= b@.len(),
            out@ == old(out)@ + b@.take(i as int),
        decreases b@.len() - i,
    {
        out.push(b[i]);
        assert(b@.take(i + 1) =~= b@.take(i as int).push(b@[i as int]));
        i = i + 1;
    }
    assert(b@.take(b@.len() as int) =~= b@);
}

/// Appends the decimal digits of `v` to `out`.
pub fn write_decimal(out: &mut Vec<u8>, v: u64)
    ensures
        final(out)@ == old(out)@ + decimal(v as nat),
    decreases v,
{
    if v < 10 {
        out.push((48 + v) as u8);
    } else {
        write_decimal(out, v / 10);
        out.push((48 + v % 10) as u8);
    }
}

/// Appends the positions `ps`, one varint each.
fn write_positions(out: &mut Vec<u8>, ps: &Vec<u32>)
    ensures
        final(out)@ == old(out)@ + positions_bytes(ps@),
{
    let mut i: usize = 0;
    while i < ps.len()
        invariant
            i <= ps@.len(),
            out@ == old(out)@ + positions_bytes(ps@.take(i as int)),
        decreases ps@.len() - i,
    {
        write_varint(out, ps[i] as u64);
        assert(ps@.take(i + 1).drop_last() =~= ps@.take(i as int));
        i = i + 1;
    }
    assert(ps@.take(ps@.len() as int) =~= ps@);
}

/// The layout of segments on storage, first version: an info resource, a
/// term dictionary and a postings resource.
pub struct MiniCodecV1;

impl MiniCodecV1 {
    /// Appends a term's block to `out`.
    pub fn write_block(out: &mut Vec<u8>, pl: &PostingsList)
        requires
            docs_ok(pl@, u32::MAX as int + 1),
        ensures
            final(out)@ == old(out)@ + postings_block(pl@),
    {
        let n = pl.postings.len();
        write_varint(out, n as u64);
        let ghost start = out@;
        let mut last_doc: u32 = 0;
        let mut i: usize = 0;
        assert(pl@.take(0) =~= Seq::<PostingModel>::empty());
        while i < n
            invariant
                n == pl@.len(),
                docs_ok(pl@, u32::MAX as int + 1),
                i <= n,
                out@ == start + postings_body(pl@.take(i as int)),
                last_doc == (if i == 0 { 0 } else { pl@[i - 1].0 }),
            decreases n - i,
        {
            let p = &pl.postings[i];
            assert(pl@[i as int] == p@);
            let doc = p.doc_id.0;
            proof {
                if i > 0 {
                    assert(pl@[i - 1].0 < pl@[i as int].0);
                }
            }
            write_varint(out, (doc - last_doc) as u64);
            write_varint(out, p.freq as u64);
            write_positions(out, &p.positions);
            proof {
                let t = pl@.take(i + 1);
                assert(t.drop_last() =~= pl@.take(i as int));
                assert(t.last() == p@);
                assert(previous_doc(t) == last_doc as int);
            }
            last_doc = doc;
            i = i + 1;
        }
        assert(pl@.take(n as int) =~= pl@);
    }

    /// Encodes the postings and dictionary resources of a table of terms in
    /// dictionary order.
    pub fn encode_terms(terms: &Vec<(Term, PostingsList)>) -> (r: (Vec<u8>, Vec<u8>))
        requires
            all_docs_ok(terms@.map_values(|e: (Term, PostingsList)| (e.0.key(), e.1@)), u32::MAX as int + 1),
        ensures
            r.0@ == postings_resource(terms@.map_values(|e: (Term, PostingsList)| (e.0.key(), e.1@))),
            r.1@ == dictionary_resource(terms@.map_values(|e: (Term, PostingsList)| (e.0.key(), e.1@))),
    {
        let ghost m = terms@.map_values(|e: (Term, PostingsList)| (e.0.key(), e.1@));
        let mut post: Vec<u8> = Vec::new();
        let mut dict: Vec<u8> = Vec::new();
        let mut i: usize = 0;
        assert(m.take(0) =~= Seq::<(crate::terms::TermKey, Seq<PostingModel>)>::empty());
        while i < terms.len()
            invariant
                m == terms@.map_values(|e: (Term, PostingsList)| (e.0.key(), e.1@)),
                all_docs_ok(m, u32::MAX as int + 1),
                i <= terms@.len(),
                post@ == postings_resource(m.take(i as int)),
                dict@ == dictionary_resource(m.take(i as int)),
            decreases terms@.len() - i,
        {
            let entry = &terms[i];
            assert(m[i as int] == (entry.0.key(), entry.1@));
            assert(docs_ok(m[i as int].1, u32::MAX as int + 1));
            let offset = post.len();
            Self::write_block(&mut post, &entry.1);
            append_utf8(&mut dict, entry.0.field.as_str());
            dict.push(9u8);
            append_utf8(&mut dict, entry.0.text.as_str());
            dict.push(9u8);
            write_decimal(&mut dict, entry.1.postings.len() as u64);
            dict.push(9u8);
            write_decimal(&mut dict, offset as u64);
            dict.push(10u8);
            proof {
                let t = m.take(i + 1);
                assert(t.drop_last() =~= m.take(i as int));
                assert(t.last() == m[i as int]);
                assert(dict@ =~= dictionary_resource(t));
            }
            i = i + 1;
        }
        assert(m.take(terms@.len() as int) =~= m);
        (post, dict)
    }

    /// The three resources of a finished segment, in the order they are
    /// written: postings, dictionary, info.
    pub fn encode_segment<A: Analyzer>(segw: &SegmentWriter<A>) -> (r: Vec<(String, Vec<u8>)>)
        requires
            segw.wf(),
        ensures
            r@.len() == 3,
            r@[0].0@ == segw.seg_info.name@ + ".post"@,
            r@[0].1@ == postings_resource(segw.terms_model()),
            r@[1].0@ == segw.seg_info.name@ + ".terms"@,
            r@[1].1@ == dictionary_resource(segw.terms_model()),
            r@[2].0@ == segw.seg_info.name@ + ".si"@,
            r@[2].1@ == info_resource(
                segw.seg_info.name@,
                segw.seg_info.max_doc as nat,
                segw.seg_info.codec@,
            ),
    {
        proof {
            crate::segment::lemma_all_docs_ok_weaken(
                segw.terms_model(),
                segw.seg_info.max_doc as int,
                u32::MAX as int + 1,
            );
        }
        let (post, dict) = Self::encode_terms(&segw.terms);
        let info = Self::encode_info(&segw.seg_info);
        let name = segw.seg_info.name.as_str();
        let mut r: Vec<(String, Vec<u8>)> = Vec::new();
        r.push((String::from_str(name).concat(".post"), post));
        r.push((String::from_str(name).concat(".terms"), dict));
        r.push((String::from_str(name).concat(".si"), info));
        r
    }

    /// Writes a finished segment's resources to `dir` and records their names
    /// in the segment's info. On an error the segment is left as it was; the
    /// resources written before it stay.
    pub fn write_segment<D: Directory, A: Analyzer>(dir: &D, segw: &mut SegmentWriter<A>) -> (r:
        Result<(), std::io::Error>)
        requires
            old(segw).wf(),
        ensures
            r is Err ==> *final(segw) == *old(segw),
            r is Ok ==> {
                &&& final(segw).seg_info.files@.map_values(|f: String| f@) == seq![
                    old(segw).seg_info.name@ + ".si"@,
                    old(segw).seg_info.name@ + ".terms"@,
                    old(segw).seg_info.name@ + ".post"@,
                ]
                &&& final(segw).seg_info.name == old(segw).seg_info.name
                &&& final(segw).seg_info.max_doc == old(segw).seg_info.max_doc
                &&& final(segw).seg_info.codec == old(segw).seg_info.codec
                &&& final(segw).terms == old(segw).terms
                &&& final(segw).stored == old(segw).stored
                &&& final(segw).analyzer == old(segw).analyzer
            },
    {
        let mut files = Self::encode_segment(segw);
        let mut i: usize = 0;
        while i < files.len()
            invariant
                i <= files@.len(),
            decreases files@.len() - i,
        {
            let written = dir.create_output(files[i].0.as_str(), files[i].1.as_slice());
            if let Err(e) = written {
                return Err(e);
            }
            i = i + 1;
        }
        let (si, _) = files.pop().unwrap();
        let (terms, _) = files.pop().unwrap();
        let (post, _) = files.pop().unwrap();
        let mut names: Vec<String> = Vec::new();
        names.push(si);
        names.push(terms);
        names.push(post);
        segw.seg_info.files = names;
        proof {
            assert(segw.seg_info.files@.map_values(|f: String| f@) =~= seq![
                old(segw).seg_info.name@ + ".si"@,
                old(segw).seg_info.name@ + ".terms"@,
                old(segw).seg_info.name@ + ".post"@,
            ]);
        }
        Ok(())
    }

    /// Encodes the info resource of a segment.
    pub fn encode_info(info: &SegmentInfo) -> (r: Vec<u8>)
        ensures
            r@ == info_resource(info.name@, info.max_doc as nat, info.codec@),
    {
        let mut out: Vec<u8> = Vec::new();
        append_utf8(&mut out, "name=");
        append_utf8(&mut out, info.name.as_str());
        out.push(10u8);
        append_utf8(&mut out, "max_doc=");
        write_decimal(&mut out, info.max_doc as u64);
        out.push(10u8);
        append_utf8(&mut out, "codec=");
        append_utf8(&mut out, info.codec.as_str());
        out.push(10u8);
        append_utf8(&mut out, "files=");
        append_utf8(&mut out, info.name.as_str());
        append_utf8(&mut out, ".si,");
        append_utf8(&mut out, info.name.as_str());
        append_utf8(&mut out, ".terms,");
        append_utf8(&mut out, info.name.as_str());
        append_utf8(&mut out, ".post");
        out.push(10u8);
        assert(out@ =~= info_resource(info.name@, info.max_doc as nat, info.codec@));
        out
    }
}

/// Reads `k` varint positions from the front of `b`: the positions and the
/// bytes they took. `None` where one is missing or exceeds `u32`.
pub open spec fn positions_value(b: Seq<u8>, k: nat) -> Option<(Seq<u32>, nat)>
    decreases k,
{
    if k == 0 {
        Some((Seq::empty(), 0))
    } else {
        match positions_value(b, (k - 1) as nat) {
            Some((ps, n)) => match varint_value(b.skip(n as int)) {
                Some((v, m)) => if v <= u32::MAX {
                    Some((ps.push(v as u32), n + m))
                } else {
                    None
                },
                None => None,
            },
            None => None,
        }
    }
}

/// The document id of the last posting, or 0 before the first.
pub open spec fn last_doc(pl: Seq<PostingModel>) -> int {
    if pl.len() == 0 {
        0
    } else {
        pl.last().0 as int
    }
}

/// Reads one posting from the front of `b`, after a posting of document
/// `last`: the gap and the frequency, then `freq` positions where positions
/// are tracked. `None` where the bytes end early or a value exceeds `u32`.
pub open spec fn posting_value(b: Seq<u8>, last: int, with_positions: bool) -> Option<
    (PostingModel, nat),
> {
    match varint_value(b) {
        Some((delta, m1)) => match varint_value(b.skip(m1 as int)) {
            Some((freq, m2)) => {
                let doc = last + delta;
                if doc > u32::MAX || freq > u32::MAX {
                    None
                } else if with_positions {
                    match positions_value(b.skip((m1 + m2) as int), freq) {
                        Some((ps, m3)) => Some(((doc as u32, freq as u32, ps), m1 + m2 + m3)),
                        None => None,
                    }
                } else {
                    Some(((doc as u32, freq as u32, Seq::empty()), m1 + m2))
                }
            },
            None => None,
        },
        None => None,
    }
}

/// Reads `k` postings from the front of `b`, summing the gaps back into
/// document ids.
pub open spec fn postings_value(b: Seq<u8>, k: nat, with_positions: bool) -> Option<
    (Seq<PostingModel>, nat),
>
    decreases k,
{
    if k == 0 {
        Some((Seq::empty(), 0))
    } else {
        match postings_value(b, (k - 1) as nat, with_positions) {
            Some((pl, n)) => match posting_value(b.skip(n as int), last_doc(pl), with_positions) {
                Some((q, m)) => Some((pl.push(q), n + m)),
                None => None,
            },
            None => None,
        }
    }
}

/// Reads a term's block from the front of `b`: its postings and the bytes
/// the block took.
pub open spec fn block_value(b: Seq<u8>, with_positions: bool) -> Option<(Seq<PostingModel>, nat)> {
    match varint_value(b) {
        Some((df, m)) => if df > u64::MAX {
            None
        } else {
            match postings_value(b.skip(m as int), df, with_positions) {
                Some((pl, n)) => Some((pl, m + n)),
                None => None,
            }
        },
        None => None,
    }
}

proof fn lemma_positions_none(b: Seq<u8>, k: nat, k2: nat)
    requires
        positions_value(b, k) is None,
        k <= k2,
    ensures
        positions_value(b, k2) is None,
    decreases k2,
{
    if k2 > k {
        lemma_positions_none(b, k, (k2 - 1) as nat);
    }
}

proof fn lemma_postings_none(b: Seq<u8>, k: nat, k2: nat, wp: bool)
    requires
        postings_value(b, k, wp) is None,
        k <= k2,
    ensures
        postings_value(b, k2, wp) is None,
    decreases k2,
{
    if k2 > k {
        lemma_postings_none(b, k, (k2 - 1) as nat, wp);
    }
}

/// Reads `k` varint positions starting at `pos`.
fn read_positions(bytes: &[u8], pos: usize, k: u32) -> (r: Option<(Vec<u32>, usize)>)
    requires
        pos <= bytes@.len(),
    ensures
        match positions_value(bytes@.skip(pos as int), k as nat) {
            Some((ps, n)) => r matches Some((v, e)) && v@ == ps && e == pos + n,
            None => r is None,
        },
        r matches Some((_, e)) ==> pos <= e <= bytes@.len(),
{
    let ghost b = bytes@.skip(pos as int);
    let mut out: Vec<u32> = Vec::new();
    let mut p = pos;
    let mut i: u32 = 0;
    while i < k
        invariant
            b == bytes@.skip(pos as int),
            pos <= p <= bytes@.len(),
            i <= k,
            positions_value(b, i as nat) == Some((out@, (p - pos) as nat)),
        decreases k - i,
    {
        assert(b.skip(p - pos) =~= bytes@.skip(p as int));
        match read_varint(bytes, p) {
            None => {
                proof {
                    lemma_positions_none(b, (i + 1) as nat, k as nat);
                }
                return None;
            },
            Some((v, e)) => {
                if v > u32::MAX as u64 {
                    proof {
                        lemma_positions_none(b, (i + 1) as nat, k as nat);
                    }
                    return None;
                }
                let ghost before = out@;
                out.push(v as u32);
                proof {
                    assert(positions_value(b, (i + 1) as nat) == Some(
                        (before.push(v as u32), (e - pos) as nat),
                    ));
                }
                p = e;
            },
        }
        i = i + 1;
    }
    Some((out, p))
}

/// A postings list that the block format carries exactly: document ids
/// strictly increasing, and as many positions as the frequency where
/// positions are tracked, none where they are not.
pub open spec fn block_encodable(pl: Seq<PostingModel>, with_positions: bool) -> bool {
    &&& forall|i: int, j: int| 0 <= i < j < pl.len() ==> pl[i].0 < pl[j].0
    &&& forall|i: int|
        0 <= i < pl.len() ==> if with_positions {
            (#[trigger] pl[i]).2.len() == pl[i].1
        } else {
            pl[i].2.len() == 0
        }
}

proof fn lemma_positions_round_trip(ps: Seq<u32>, rest: Seq<u8>)
    ensures
        positions_value(positions_bytes(ps) + rest, ps.len()) == Some(
            (ps, positions_bytes(ps).len()),
        ),
    decreases ps.len(),
{
    if ps.len() > 0 {
        let init = ps.drop_last();
        let tail = varint(ps.last() as nat) + rest;
        lemma_positions_round_trip(init, tail);
        assert(positions_bytes(ps) + rest =~= positions_bytes(init) + tail);
        assert((positions_bytes(init) + tail).skip(positions_bytes(init).len() as int) =~= tail);
        lemma_varint_round_trip(ps.last() as nat, rest);
        assert(init.push(ps.last()) =~= ps);
    } else {
        assert(ps =~= Seq::<u32>::empty());
    }
}

proof fn lemma_posting_round_trip(p: PostingModel, prev: int, rest: Seq<u8>, wp: bool)
    requires
        0 <= prev <= p.0,
        wp ==> p.2.len() == p.1,
        !wp ==> p.2.len() == 0,
    ensures
        posting_value(posting_bytes(p, prev) + rest, prev, wp) == Some(
            (p, posting_bytes(p, prev).len()),
        ),
{
    let delta = (p.0 - prev) as nat;
    let b = posting_bytes(p, prev) + rest;
    let t1 = varint(p.1 as nat) + positions_bytes(p.2) + rest;
    assert(b =~= varint(delta) + t1);
    lemma_varint_round_trip(delta, t1);
    let m1 = varint(delta).len();
    assert(b.skip(m1 as int) =~= t1);
    let t2 = positions_bytes(p.2) + rest;
    assert(t1 =~= varint(p.1 as nat) + t2);
    lemma_varint_round_trip(p.1 as nat, t2);
    let m2 = varint(p.1 as nat).len();
    assert(b.skip((m1 + m2) as int) =~= t2);
    if wp {
        lemma_positions_round_trip(p.2, rest);
    } else {
        assert(p.2 =~= Seq::<u32>::empty());
        assert(positions_bytes(p.2) =~= Seq::<u8>::empty());
    }
}

proof fn lemma_postings_round_trip(pl: Seq<PostingModel>, rest: Seq<u8>, wp: bool)
    requires
        block_encodable(pl, wp),
    ensures
        postings_value(postings_body(pl) + rest, pl.len(), wp) == Some(
            (pl, postings_body(pl).len()),
        ),
    decreases pl.len(),
{
    if pl.len() > 0 {
        let init = pl.drop_last();
        let p = pl.last();
        let prev = previous_doc(pl);
        let tail = posting_bytes(p, prev) + rest;
        assert(block_encodable(init, wp)) by {
            assert forall|i: int| 0 <= i < init.len() implies if wp {
                (#[trigger] init[i]).2.len() == init[i].1
            } else {
                init[i].2.len() == 0
            } by {
                assert(init[i] == pl[i]);
            }
        }
        lemma_postings_round_trip(init, tail, wp);
        let b = postings_body(pl) + rest;
        assert(b =~= postings_body(init) + tail);
        let n = postings_body(init).len();
        assert(b.skip(n as int) =~= tail);
        assert(last_doc(init) == prev);
        if pl.len() >= 2 {
            assert(pl[pl.len() - 2].0 < pl[pl.len() - 1].0);
        }
        assert(p == pl[pl.len() - 1]);
        lemma_posting_round_trip(p, prev, rest, wp);
        assert(init.push(p) =~= pl);
    } else {
        assert(pl =~= Seq::<PostingModel>::empty());
    }
}

/// Decoding a term's block gives back the postings it was encoded from, with
/// document ids recovered from the gaps, and the block's length.
pub proof fn lemma_block_round_trip(pl: Seq<PostingModel>, rest: Seq<u8>, with_positions: bool)
    requires
        block_encodable(pl, with_positions),
        pl.len() <= u64::MAX,
    ensures
        block_value(postings_block(pl) + rest, with_positions) == Some(
            (pl, postings_block(pl).len()),
        ),
{
    let t = postings_body(pl) + rest;
    let b = postings_block(pl) + rest;
    assert(b =~= varint(pl.len()) + t);
    lemma_varint_round_trip(pl.len(), t);
    assert(b.skip(varint(pl.len()).len() as int) =~= t);
    lemma_postings_round_trip(pl, rest, with_positions);
}

proof fn lemma_postings_resource_concat(a: TermPostings, b: TermPostings)
    ensures
        postings_resource(a + b) == postings_resource(a) + postings_resource(b),
    decreases b.len(),
{
    if b.len() == 0 {
        assert(a + b =~= a);
        assert(postings_resource(a) + postings_resource(b) =~= postings_resource(a));
    } else {
        lemma_postings_resource_concat(a, b.drop_last());
        assert((a + b).drop_last() =~= a + b.drop_last());
        assert((a + b).last() == b.last());
        assert(postings_resource(a + b) =~= postings_resource(a) + postings_resource(b));
    }
}

/// The dictionary row of the `k`-th term points at that term's block: read
/// at that offset in the postings resource, the block decodes to the term's
/// postings.
pub proof fn lemma_dictionary_offset_decodes(m: TermPostings, k: int, with_positions: bool)
    requires
        0 <= k < m.len(),
        block_encodable(m[k].1, with_positions),
        m[k].1.len() <= u64::MAX,
    ensures
        block_value(
            postings_resource(m).skip(postings_resource(m.take(k)).len() as int),
            with_positions,
        ) == Some((m[k].1, postings_block(m[k].1).len())),
{
    let head = m.take(k);
    let one = seq![m[k]];
    let tail = m.skip(k + 1);
    assert(m =~= head + (one + tail));
    lemma_postings_resource_concat(head, one + tail);
    lemma_postings_resource_concat(one, tail);
    assert(one.drop_last() =~= Seq::<(crate::terms::TermKey, Seq<PostingModel>)>::empty());
    assert(postings_resource(one.drop_last()) =~= Seq::<u8>::empty());
    assert(one.last() == m[k]);
    assert(postings_resource(one) == postings_resource(one.drop_last()) + postings_block(
        one.last().1,
    ));
    assert(postings_resource(one) =~= postings_block(m[k].1));
    let rest = postings_resource(tail);
    assert(postings_resource(m).skip(postings_resource(head).len() as int) =~= postings_block(
        m[k].1,
    ) + rest);
    lemma_block_round_trip(m[k].1, rest, with_positions);
}

impl MiniCodecV1 {
    /// Reads one posting that starts at `pos`, after a posting of document
    /// `last`.
    fn read_posting(bytes: &[u8], pos: usize, last: u32, with_positions: bool) -> (r: Option<
        (Posting, usize),
    >)
        requires
            pos <= bytes@.len(),
        ensures
            match posting_value(bytes@.skip(pos as int), last as int, with_positions) {
                Some((q, n)) => r matches Some((v, e)) && v@ == q && e == pos + n,
                None => r is None,
            },
            r matches Some((_, e)) ==> pos < e <= bytes@.len(),
    {
        let ghost b = bytes@.skip(pos as int);
        let (delta, after_gap) = match read_varint(bytes, pos) {
            None => return None,
            Some(x) => x,
        };
        assert(b.skip(after_gap - pos) =~= bytes@.skip(after_gap as int));
        let (freq, after_freq) = match read_varint(bytes, after_gap) {
            None => return None,
            Some(x) => x,
        };
        if delta > (u32::MAX - last) as u64 || freq > u32::MAX as u64 {
            return None;
        }
        let doc = last + delta as u32;
        assert(b.skip(after_freq - pos) =~= bytes@.skip(after_freq as int));
        if with_positions {
            match read_positions(bytes, after_freq, freq as u32) {
                None => None,
                Some((ps, after_positions)) => Some(
                    (Posting { doc_id: DocId(doc), positions: ps, freq: freq as u32 }, after_positions),
                ),
            }
        } else {
            let ps: Vec<u32> = Vec::new();
            assert(ps@ =~= Seq::<u32>::empty());
            Some((Posting { doc_id: DocId(doc), positions: ps, freq: freq as u32 }, after_freq))
        }
    }

    /// Reads the term block that starts at `offset`: its postings, with
    /// document ids summed back from the gaps, and the position after it.
    /// Positions are read only `with_positions`, as the field that the term
    /// belongs to records them.
    pub fn read_block(bytes: &[u8], offset: usize, with_positions: bool) -> (r: Option<
        (Vec<Posting>, usize),
    >)
        requires
            offset <= bytes@.len(),
        ensures
            match block_value(bytes@.skip(offset as int), with_positions) {
                Some((pl, n)) => r matches Some((v, e)) && v@.map_values(|p: Posting| p@) == pl
                    && e == offset + n,
                None => r is None,
            },
    {
        let ghost b0 = bytes@.skip(offset as int);
        let (df, start) = match read_varint(bytes, offset) {
            None => return None,
            Some(x) => x,
        };
        let ghost b = bytes@.skip(start as int);
        assert(b0.skip(start - offset) =~= b);
        let mut out: Vec<Posting> = Vec::new();
        let mut p = start;
        let mut i: u64 = 0;
        let mut last: u32 = 0;
        assert(out@.map_values(|q: Posting| q@) =~= Seq::<PostingModel>::empty());
        while i < df
            invariant
                b == bytes@.skip(start as int),
                b0 == bytes@.skip(offset as int),
                varint_value(b0) == Some((df as nat, (start - offset) as nat)),
                b0.skip(start - offset) == b,
                offset < start <= p <= bytes@.len(),
                i <= df,
                postings_value(b, i as nat, with_positions) == Some(
                    (out@.map_values(|q: Posting| q@), (p - start) as nat),
                ),
                last == last_doc(out@.map_values(|q: Posting| q@)),
            decreases df - i,
        {
            let ghost outv = out@.map_values(|q: Posting| q@);
            assert(b.skip(p - start) =~= bytes@.skip(p as int));
            match Self::read_posting(bytes, p, last, with_positions) {
                None => {
                    proof {
                        lemma_postings_none(b, (i + 1) as nat, df as nat, with_positions);
                        assert(block_value(b0, with_positions) is None);
                    }
                    return None;
                },
                Some((q, e)) => {
                    let doc = q.doc_id.0;
                    out.push(q);
                    assert(out@.map_values(|q: Posting| q@) =~= outv.push(out@.last()@));
                    p = e;
                    last = doc;
                },
            }
            i = i + 1;
        }
        proof {
            assert(block_value(b0, with_positions) == Some(
                (out@.map_values(|q: Posting| q@), (p - offset) as nat),
            ));
        }
        Some((out, p))
    }
}

} // verus!
