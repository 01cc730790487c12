use vstd::prelude::*;
use vstd::utf8::encode_utf8;
use core::cmp::Ordering;

verus! {

/// The UTF-8 bytes of a string's characters.
pub open spec fn utf8(s: Seq<char>) -> Seq<u8> {
    encode_utf8(s)
}

/// Lexicographic order on byte strings: the first differing byte decides, and
/// a proper prefix comes first. On UTF-8 this is the code point order.
pub open spec fn bytes_lt(a: Seq<u8>, b: Seq<u8>) -> bool
    decreases a.len(),
{
    if a.len() == 0 {
        b.len() > 0
    } else if b.len() == 0 {
        false
    } else if a[0] != b[0] {
        a[0] < b[0]
    } else {
        bytes_lt(a.skip(1), b.skip(1))
    }
}

/// A term as the index sees it: the bytes of its field and of its text.
pub type TermKey = (Seq<u8>, Seq<u8>);

/// The dictionary order of terms: by field, then by text.
pub open spec fn term_lt(a: TermKey, b: TermKey) -> bool {
    bytes_lt(a.0, b.0) || (a.0 == b.0 && bytes_lt(a.1, b.1))
}

pub proof fn lemma_bytes_lt_irreflexive(a: Seq<u8>)
    ensures
        !bytes_lt(a, a),
    decreases a.len(),
{
    if a.len() > 0 {
        lemma_bytes_lt_irreflexive(a.skip(1));
    }
}

pub proof fn lemma_bytes_lt_transitive(a: Seq<u8>, b: Seq<u8>, c: Seq<u8>)
    requires
        bytes_lt(a, b),
        bytes_lt(b, c),
    ensures
        bytes_lt(a, c),
    decreases a.len(),
{
    if a.len() > 0 && b.len() > 0 && c.len() > 0 && a[0] == b[0] && b[0] == c[0] {
        lemma_bytes_lt_transitive(a.skip(1), b.skip(1), c.skip(1));
    }
}

pub proof fn lemma_bytes_lt_total(a: Seq<u8>, b: Seq<u8>)
    ensures
        a == b || bytes_lt(a, b) || bytes_lt(b, a),
    decreases a.len(),
{
    if a.len() > 0 && b.len() > 0 && a[0] == b[0] {
        lemma_bytes_lt_total(a.skip(1), b.skip(1));
        if a.skip(1) == b.skip(1) {
            assert(a =~= seq![a[0]] + a.skip(1));
            assert(b =~= seq![b[0]] + b.skip(1));
        }
    } else if a.len() == 0 && b.len() == 0 {
        assert(a =~= b);
    }
}

/// Terms whose fields differ are ordered by their fields alone, whatever
/// their texts; terms of one field are ordered by their texts.
pub proof fn lemma_term_order_field_first(a: TermKey, b: TermKey)
    ensures
        a.0 != b.0 ==> (term_lt(a, b) <==> bytes_lt(a.0, b.0)),
        a.0 == b.0 ==> (term_lt(a, b) <==> bytes_lt(a.1, b.1)),
{
    lemma_bytes_lt_irreflexive(a.0);
}

/// The term order is a strict total order: irreflexive, transitive, and of
/// two different terms exactly one comes first.
pub proof fn lemma_term_order_strict_total(a: TermKey, b: TermKey, c: TermKey)
    ensures
        !term_lt(a, a),
        term_lt(a, b) && term_lt(b, c) ==> term_lt(a, c),
        a != b ==> (term_lt(a, b) || term_lt(b, a)),
        !(term_lt(a, b) && term_lt(b, a)),
{
    lemma_bytes_lt_irreflexive(a.0);
    lemma_bytes_lt_irreflexive(a.1);
    lemma_bytes_lt_total(a.0, b.0);
    lemma_bytes_lt_total(a.1, b.1);
    if term_lt(a, b) && term_lt(b, c) {
        if bytes_lt(a.0, b.0) && bytes_lt(b.0, c.0) {
            lemma_bytes_lt_transitive(a.0, b.0, c.0);
        } else if bytes_lt(a.1, b.1) && bytes_lt(b.1, c.1) {
            lemma_bytes_lt_transitive(a.1, b.1, c.1);
        }
    }
    if term_lt(a, b) && term_lt(b, a) {
        if bytes_lt(a.0, b.0) && bytes_lt(b.0, a.0) {
            lemma_bytes_lt_transitive(a.0, b.0, a.0);
        } else if bytes_lt(a.1, b.1) && bytes_lt(b.1, a.1) {
            lemma_bytes_lt_transitive(a.1, b.1, a.1);
        }
    }
}

/// Compares two byte strings in the order of `bytes_lt`.
pub fn compare_bytes(a: &[u8], b: &[u8]) -> (r: Ordering)
    ensures
        (r == Ordering::Less) == bytes_lt(a@, b@),
        (r == Ordering::Equal) == (a@ == b@),
        (r == Ordering::Greater) == bytes_lt(b@, a@),
{
    let mut i: usize = 0;
    assert(a@.skip(0) =~= a@);
    assert(b@.skip(0) =~= b@);
    while i < a.len() && i < b.len()
        invariant
            i <= a@.len(),
            i <= b@.len(),
            a@.subrange(0, i as int) == b@.subrange(0, i as int),
            bytes_lt(a@, b@) == bytes_lt(a@.skip(i as int), b@.skip(i as int)),
            bytes_lt(b@, a@) == bytes_lt(b@.skip(i as int), a@.skip(i as int)),
        decreases a@.len() - i,
    {
        if a[i] != b[i] {
            proof {
                if a@ == b@ {
                    assert(a@[i as int] == b@[i as int]);
                }
            }
            if a[i] < b[i] {
                return Ordering::Less;
            } else {
                return Ordering::Greater;
            }
        }
        assert(a@.skip(i as int).skip(1) =~= a@.skip(i + 1));
        assert(b@.skip(i as int).skip(1) =~= b@.skip(i + 1));
        assert(a@.subrange(0, i + 1) =~= a@.subrange(0, i as int).push(a@[i as int]));
        assert(b@.subrange(0, i + 1) =~= b@.subrange(0, i as int).push(b@[i as int]));
        i = i + 1;
    }
    if a.len() == b.len() {
        assert(a@ =~= a@.subrange(0, i as int));
        assert(b@ =~= b@.subrange(0, i as int));
        proof { lemma_bytes_lt_irreflexive(a@); }
        Ordering::Equal
    } else if a.len() < b.len() {
        proof {
            if a@ == b@ {
                assert(a@.len() == b@.len());
            }
        }
        Ordering::Less
    } else {
        Ordering::Greater
    }
}

/// Whether two strings hold the same characters.
pub fn str_eq(a: &str, b: &str) -> (r: bool)
    ensures
        r == (a@ == b@),
{
    let r = matches!(compare_bytes(a.as_bytes(), b.as_bytes()), Ordering::Equal);
    proof {
        vstd::utf8::encode_utf8_decode_utf8(a@);
        vstd::utf8::encode_utf8_decode_utf8(b@);
    }
    r
}

/// A term: a field name and a token text.
#[derive(Debug, Clone, Eq, Ord, Hash)]
pub struct Term {
    pub field: String,
    pub text: String,
}

impl Term {
    /// The term's bytes, which decide its place in the dictionary.
    pub open spec fn key(&self) -> TermKey {
        (utf8(self.field@), utf8(self.text@))
    }

    pub fn new(field: &str, text: &str) -> (r: Term)
        ensures
            r.field@ == field@,
            r.text@ == text@,
    {
        Term { field: field.to_string(), text: text.to_string() }
    }

    /// Orders two terms by field, then by text.
    pub fn compare(&self, other: &Term) -> (r: Ordering)
        ensures
            (r == Ordering::Less) == term_lt(self.key(), other.key()),
            (r == Ordering::Equal) == (self.key() == other.key()),
            (r == Ordering::Greater) == term_lt(other.key(), self.key()),
    {
        proof {
            lemma_term_order_strict_total(self.key(), other.key(), self.key());
        }
        match compare_bytes(self.field.as_str().as_bytes(), other.field.as_str().as_bytes()) {
            Ordering::Equal => compare_bytes(
                self.text.as_str().as_bytes(),
                other.text.as_str().as_bytes(),
            ),
            ord => ord,
        }
    }
}

impl PartialEq for Term {
    fn eq(&self, other: &Term) -> (r: bool) {
        str_eq(self.field.as_str(), other.field.as_str()) && str_eq(
            self.text.as_str(),
            other.text.as_str(),
        )
    }
}

impl vstd::std_specs::cmp::PartialEqSpecImpl for Term {
    open spec fn obeys_eq_spec() -> bool {
        true
    }

    open spec fn eq_spec(&self, other: &Term) -> bool {
        self.field@ == other.field@ && self.text@ == other.text@
    }
}

impl PartialOrd for Term {
    fn partial_cmp(&self, other: &Term) -> (r: Option<Ordering>) {
        proof {
            vstd::utf8::encode_utf8_decode_utf8(self.field@);
            vstd::utf8::encode_utf8_decode_utf8(other.field@);
            vstd::utf8::encode_utf8_decode_utf8(self.text@);
            vstd::utf8::encode_utf8_decode_utf8(other.text@);
        }
        Some(self.compare(other))
    }
}

impl vstd::std_specs::cmp::PartialOrdSpecImpl for Term {
    open spec fn obeys_partial_cmp_spec() -> bool {
        true
    }

    open spec fn partial_cmp_spec(&self, other: &Term) -> Option<Ordering> {
        if term_lt(self.key(), other.key()) {
            Some(Ordering::Less)
        } else if self.key() == other.key() {
            Some(Ordering::Equal)
        } else {
            Some(Ordering::Greater)
        }
    }
}

} // verus!
