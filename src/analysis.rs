use vstd::prelude::*;
use crate::terms::utf8;

verus! {

/// One token of a field's text: its text, its ordinal among the field's
/// tokens, and the byte span it covers.
#[derive(Debug, Clone)]
pub struct Token {
    pub term: String,
    pub position: u32,
    pub start_offset: u32,
    pub end_offset: u32,
}

/// A token as a value: text, position, start and end byte offsets.
pub type TokenModel = (Seq<char>, u32, u32, u32);

impl View for Token {
    type V = TokenModel;

    open spec fn view(&self) -> TokenModel {
        (self.term@, self.position, self.start_offset, self.end_offset)
    }
}

pub open spec fn token_models(ts: Seq<Token>) -> Seq<TokenModel> {
    ts.map_values(|t: Token| t@)
}

/// Turns a field's text into tokens. The result depends on the field name
/// and the text alone.
pub trait Analyzer {
    /// The tokens of `text` in field `field`.
    spec fn tokens_of(&self, field: Seq<char>, text: Seq<char>) -> Seq<TokenModel>;

    fn tokenize(&self, field: &str, text: &str) -> (r: Vec<Token>)
        requires
            utf8(text@).len() <= u32::MAX,
        ensures
            token_models(r@) == self.tokens_of(field@, text@),
            forall|k: int| 0 <= k < r@.len() ==> (#[trigger] r@[k]).position == k,
            forall|k: int|
                0 <= k < r@.len() ==> (#[trigger] r@[k]).start_offset <= r@[k].end_offset
                    <= utf8(text@).len(),
            forall|k: int|
                0 < k < r@.len() ==> r@[k - 1].start_offset <= (#[trigger] r@[k]).start_offset,
    ;
}

/// Unicode's White_Space characters, on which `char::is_whitespace` is true.
pub open spec fn is_space(c: char) -> bool {
    let u = c as u32;
    (0x09 <= u <= 0x0d) || u == 0x20 || u == 0x85 || u == 0xa0 || u == 0x1680 || (0x2000 <= u
        <= 0x200a) || u == 0x2028 || u == 0x2029 || u == 0x202f || u == 0x205f || u == 0x3000
}

pub fn is_space_char(c: char) -> (r: bool)
    ensures
        r == is_space(c),
{
    let u = c as u32;
    (0x09 <= u && u <= 0x0d) || u == 0x20 || u == 0x85 || u == 0xa0 || u == 0x1680 || (0x2000
        <= u && u <= 0x200a) || u == 0x2028 || u == 0x2029 || u == 0x202f || u == 0x205f || u
        == 0x3000
}

/// The character spans `[start, end)` of the maximal runs of non-space
/// characters of `s` from index `i` on, where `start` is where the run that
/// `i` lies in began, if any.
pub open spec fn spans_from(s: Seq<char>, i: int, start: Option<int>) -> Seq<(int, int)>
    decreases s.len() - i,
{
    if i >= s.len() {
        match start {
            Some(b) => seq![(b, s.len() as int)],
            None => Seq::empty(),
        }
    } else if is_space(s[i]) {
        match start {
            Some(b) => seq![(b, i)] + spans_from(s, i + 1, None),
            None => spans_from(s, i + 1, None),
        }
    } else {
        spans_from(s, i + 1, if start is Some { start } else { Some(i) })
    }
}

pub open spec fn opt_int(o: Option<usize>) -> Option<int> {
    match o {
        Some(b) => Some(b as int),
        None => None,
    }
}

/// The byte offset of character index `i` in `s`.
pub open spec fn byte_offset(s: Seq<char>, i: int) -> int {
    utf8(s.take(i)).len() as int
}

/// The token for the `k`-th span of `s`.
pub open spec fn span_token(s: Seq<char>, k: int, sp: (int, int)) -> TokenModel {
    (s.subrange(sp.0, sp.1), k as u32, byte_offset(s, sp.0) as u32, byte_offset(s, sp.1) as u32)
}

/// Whitespace tokens of `s`: each maximal run of non-space characters, with
/// its ordinal and its exact byte span.
pub open spec fn whitespace_tokens(s: Seq<char>) -> Seq<TokenModel> {
    spans_from(s, 0, None).map(|k: int, sp: (int, int)| span_token(s, k, sp))
}

pub proof fn lemma_utf8_concat(a: Seq<char>, b: Seq<char>)
    ensures
        utf8(a + b) == utf8(a) + utf8(b),
    decreases a.len(),
{
    if a.len() == 0 {
        assert(a + b =~= b);
        assert(utf8(a) + utf8(b) =~= utf8(b));
    } else {
        lemma_utf8_concat(a.drop_first(), b);
        assert((a + b).drop_first() =~= a.drop_first() + b);
        assert(utf8(a + b) =~= utf8(a) + utf8(b));
    }
}

/// The byte offset grows by the width of each character passed.
pub proof fn lemma_byte_offset_step(s: Seq<char>, i: int)
    requires
        0 <= i < s.len(),
    ensures
        byte_offset(s, i + 1) == byte_offset(s, i) + vstd::utf8::encode_scalar(s[i] as u32).len(),
        byte_offset(s, i + 1) <= byte_offset(s, s.len() as int),
{
    lemma_utf8_concat(s.take(i), seq![s[i]]);
    assert(s.take(i + 1) =~= s.take(i) + seq![s[i]]);
    let t = seq![s[i]];
    assert(t.drop_first() =~= Seq::<char>::empty());
    assert(vstd::utf8::encode_utf8(t.drop_first()) =~= Seq::<u8>::empty());
    assert(vstd::utf8::encode_utf8(t) == vstd::utf8::encode_scalar(t[0] as u32)
        + vstd::utf8::encode_utf8(t.drop_first()));
    assert(utf8(t) =~= vstd::utf8::encode_scalar(s[i] as u32));
    lemma_utf8_concat(s.take(i + 1), s.skip(i + 1));
    assert(s.take(i + 1) + s.skip(i + 1) =~= s);
    assert(s.take(s.len() as int) =~= s);
}

pub proof fn lemma_utf8_len(s: Seq<char>)
    ensures
        utf8(s).len() >= s.len(),
    decreases s.len(),
{
    if s.len() > 0 {
        vstd::utf8::char_is_scalar(s[0]);
        lemma_utf8_len(s.drop_first());
    }
}

/// The number of bytes of `c` in UTF-8.
fn char_width(c: char) -> (r: u32)
    ensures
        r == vstd::utf8::encode_scalar(c as u32).len(),
{
    let u = c as u32;
    proof {
        vstd::utf8::char_is_scalar(c);
    }
    if u < 0x80 {
        1
    } else if u < 0x800 {
        2
    } else if u < 0x10000 {
        3
    } else {
        4
    }
}

/// Splits text on runs of whitespace.
#[derive(Debug, Clone, Copy, Default)]
pub struct WhitespaceAnalyzer;

impl Analyzer for WhitespaceAnalyzer {
    open spec fn tokens_of(&self, field: Seq<char>, text: Seq<char>) -> Seq<TokenModel> {
        whitespace_tokens(text)
    }

    fn tokenize(&self, field: &str, text: &str) -> (r: Vec<Token>) {
        let n = text.unicode_len();
        let ghost s = text@;
        proof {
            lemma_utf8_len(s);
        }
        let mut out: Vec<Token> = Vec::new();
        let ghost mut done: Seq<(int, int)> = Seq::empty();
        let mut i: usize = 0;
        let mut bytes: u32 = 0;
        let mut start: Option<usize> = None;
        let mut start_byte: u32 = 0;
        assert(s.take(0) =~= Seq::<char>::empty());
        while i < n
            invariant
                n == s.len(),
                s == text@,
                i <= n,
                n <= utf8(s).len() <= u32::MAX,
                bytes == byte_offset(s, i as int),
                out@.len() == done.len(),
                out@.len() <= i,
                forall|k: int|
                    0 <= k < done.len() ==> #[trigger] out@[k]@ == span_token(s, k, done[k]),
                spans_from(s, 0, None) == done + spans_from(s, i as int, opt_int(start)),
                start matches Some(b) ==> b < i && start_byte == byte_offset(s, b as int),
                bytes <= utf8(s).len(),
                start is Some ==> start_byte <= bytes,
                forall|k: int| 0 <= k < out@.len() ==> (#[trigger] out@[k]).position == k,
                forall|k: int|
                    0 <= k < out@.len() ==> (#[trigger] out@[k]).start_offset <= out@[k].end_offset
                        <= bytes,
                forall|k: int|
                    0 <= k < out@.len() && start is Some ==> (#[trigger] out@[k]).end_offset
                        <= start_byte,
                forall|k: int|
                    0 < k < out@.len() ==> out@[k - 1].start_offset <= (#[trigger] out@[k]).start_offset,
            decreases n - i,
        {
            proof {
                lemma_byte_offset_step(s, i as int);
                assert(s.take(n as int) =~= s);
            }
            let c = text.get_char(i);
            if is_space_char(c) {
                if let Some(b) = start {
                    let term = text.substring_char(b, i).to_owned();
                    let k = out.len();
                    out.push(Token { term, position: k as u32, start_offset: start_byte, end_offset: bytes });
                    proof {
                        done = done.push((b as int, i as int));
                    }
                }
                start = None;
            } else if start.is_none() {
                start = Some(i);
                start_byte = bytes;
            }
            let w = char_width(c);
            bytes = bytes + w;
            i = i + 1;
        }
        if let Some(b) = start {
            let term = text.substring_char(b, i).to_owned();
            let k = out.len();
            out.push(Token { term, position: k as u32, start_offset: start_byte, end_offset: bytes });
            proof {
                assert(spans_from(s, i as int, opt_int(start)) =~= seq![(b as int, n as int)]);
                done = done.push((b as int, i as int));
            }
        }
        proof {
            assert(s.take(n as int) =~= s);
            assert(done =~= spans_from(s, 0, None));
            assert(token_models(out@) =~= whitespace_tokens(s));
        }
        out
    }
}

} // verus!
