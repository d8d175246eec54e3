//! Values of parameters: a token, or a quoted string.

use vstd::prelude::*;
use vstd::string::*;
use vstd::utf8::*;
use crate::bytes::{is_token, name_char, only_name_chars, same_bytes, BACKSLASH, QUOTE};
use crate::error::ValidationError;
use crate::order::{compare_bytes, lex_less, order_of};
use core::cmp::Ordering;
use crate::quoted::{
    decode_body, escape, escape_byte, find_closing_quote, lemma_body_concat, lemma_escape_concat,
    lemma_escape_token, lemma_quoted_end, lemma_quoted_end_bounds, lemma_unescape_escape,
    lemma_unescape_len, quoted_end, unescape, valid_body,
};
use crate::text::{cut_point, lemma_cut_at_ascii, push_backslash, push_quote, push_str, substr};

verus! {

/// `s` can be kept as a value: it is not empty, and if it opens with a
/// quote it is one quoted string that stands for one byte or more.
pub open spec fn is_value_text(s: Seq<u8>) -> bool {
    &&& s.len() > 0
    &&& s[0] == QUOTE ==> {
        &&& s.len() >= 3
        &&& s[s.len() - 1] == QUOTE
        &&& valid_body(s.subrange(1, s.len() - 1))
    }
}

/// What the text `s` stands for: what is between the quotes, unescaped, if
/// `s` opens with a quote; else `s` itself.
pub open spec fn value_content(s: Seq<u8>) -> Seq<u8> {
    if s.len() > 0 && s[0] == QUOTE {
        unescape(s.subrange(1, s.len() - 1))
    } else {
        s
    }
}

/// What keeps `s` from being kept as a value, if anything does.
pub open spec fn value_defect(s: Seq<u8>) -> Option<ValidationError> {
    if s.len() == 0 {
        Some(ValidationError::Empty)
    } else if s[0] != QUOTE {
        None
    } else {
        match quoted_end(s, 1) {
            None => Some(ValidationError::UnterminatedQuote),
            Some(end) => if end == 1 {
                Some(ValidationError::Empty)
            } else if end + 1 < s.len() {
                Some(ValidationError::InvalidChar((end + 1) as usize))
            } else {
                None
            },
        }
    }
}

/// How a value that stands for `content` is written: as it is if it is a
/// token, else between quotes.
pub open spec fn value_text(content: Seq<u8>) -> Seq<u8> {
    if is_token(content) {
        content
    } else {
        seq![QUOTE] + escape(content) + seq![QUOTE]
    }
}

/// The texts without a defect are those that can be kept as a value, and
/// they stand for one byte or more.
pub proof fn lemma_value_defect(s: Seq<u8>)
    ensures
        value_defect(s) is None <==> is_value_text(s),
        is_value_text(s) ==> value_content(s).len() > 0,
{
    if s.len() > 0 && s[0] == QUOTE {
        lemma_quoted_end_bounds(s, 1);
        if s.len() >= 3 {
            lemma_quoted_end(s, 1, s.len() - 1);
            lemma_unescape_len(s.subrange(1, s.len() - 1));
        }
    }
}

/// A value is written as a text that is read as a value and stands for the same.
pub proof fn lemma_value_round_trip(content: Seq<u8>)
    requires
        content.len() > 0,
    ensures
        is_value_text(value_text(content)),
        value_defect(value_text(content)) is None,
        value_content(value_text(content)) == content,
{
    let text = value_text(content);
    if is_token(content) {
        assert(name_char(content[0]));
    } else {
        lemma_unescape_escape(content);
        assert(text.subrange(1, text.len() - 1) =~= escape(content));
    }
    lemma_value_defect(text);
}

/// One more plain byte behind a body.
proof fn lemma_normal_plain(pre: Seq<u8>, x: u8)
    requires
        valid_body(pre),
        x != BACKSLASH,
        x != QUOTE,
    ensures
        valid_body(pre + seq![x]),
        escape(unescape(pre + seq![x])) == escape(unescape(pre)) + seq![x],
{
    let t = seq![x];
    assert(t.skip(1) =~= Seq::<u8>::empty());
    assert(valid_body(t.skip(1)));
    assert(unescape(t.skip(1)) =~= Seq::<u8>::empty());
    assert(escape(t.skip(1)) =~= Seq::<u8>::empty());
    assert(valid_body(t));
    assert(unescape(t) =~= seq![x]);
    lemma_body_concat(pre, t);
    lemma_escape_concat(unescape(pre), t);
    assert(escape(t) =~= seq![x]);
}

/// One more escaped byte behind a body.
proof fn lemma_normal_pair(pre: Seq<u8>, c: u8)
    requires
        valid_body(pre),
    ensures
        valid_body(pre + seq![BACKSLASH, c]),
        escape(unescape(pre + seq![BACKSLASH, c])) == escape(unescape(pre)) + escape_byte(c),
{
    let t = seq![BACKSLASH, c];
    assert(t.skip(2) =~= Seq::<u8>::empty());
    assert(valid_body(t.skip(2)));
    assert(unescape(t.skip(2)) =~= Seq::<u8>::empty());
    assert(valid_body(t));
    assert(unescape(t) =~= seq![c]);
    lemma_body_concat(pre, t);
    lemma_escape_concat(unescape(pre), seq![c]);
    assert(seq![c].skip(1) =~= Seq::<u8>::empty());
    assert(escape(seq![c].skip(1)) =~= Seq::<u8>::empty());
    assert(escape(seq![c]) =~= escape_byte(c));
}

/// The value of a parameter. It is compared by what it stands for, byte for
/// byte, and written as a token where that is one, else between quotes.
#[derive(Clone, Copy, Debug)]
pub struct Value<'a> {
    text: &'a str,
}

impl<'a> View for Value<'a> {
    type V = Seq<u8>;

    /// What the value stands for.
    closed spec fn view(&self) -> Seq<u8> {
        value_content(self.text.spec_bytes())
    }
}

impl<'a> Value<'a> {
    #[verifier::type_invariant]
    spec fn valid(self) -> bool {
        is_value_text(self.text.spec_bytes())
    }

    /// Makes a value of `s`, or says what keeps `s` from being one. A text
    /// that opens with a quote is read as a quoted string; any other text
    /// stands for itself.
    pub fn new(s: &'a str) -> (r: Result<Value<'a>, ValidationError>)
        ensures
            match r {
                Ok(value) => value@ == value_content(s.spec_bytes()) && is_value_text(
                    s.spec_bytes(),
                ),
                Err(e) => value_defect(s.spec_bytes()) == Some(e),
            },
    {
        let bytes = s.as_bytes();
        proof {
            lemma_value_defect(bytes@);
        }
        match check_value(bytes) {
            Some(e) => Err(e),
            None => Ok(Value { text: s }),
        }
    }

    /// Makes a value of a text that is known to be one.
    pub(crate) fn new_unchecked(s: &'a str) -> (r: Value<'a>)
        requires
            is_value_text(s.spec_bytes()),
        ensures
            r@ == value_content(s.spec_bytes()),
    {
        Value { text: s }
    }

    /// The text that the value was made of.
    pub fn as_str(&self) -> (r: &'a str)
        ensures
            value_content(r.spec_bytes()) == self@,
            is_value_text(r.spec_bytes()),
            self@.len() > 0,
    {
        proof {
            use_type_invariant(self);
            lemma_value_defect(self.text.spec_bytes());
        }
        self.text
    }

    /// What the value stands for.
    pub fn content(&self) -> (r: Vec<u8>)
        ensures
            r@ == self@,
            self@.len() > 0,
    {
        proof {
            use_type_invariant(self);
            lemma_value_defect(self.text.spec_bytes());
        }
        let bytes = self.text.as_bytes();
        if bytes[0] == QUOTE {
            decode_body(bytes, 1, bytes.len() - 1)
        } else {
            vstd::slice::slice_to_vec(bytes)
        }
    }

    /// Orders two values by the bytes that they stand for.
    pub fn cmp(&self, other: &Value) -> (r: Ordering)
        ensures
            r == order_of(lex_less(self@, other@), self@ == other@),
    {
        let x = self.content();
        let y = other.content();
        compare_bytes(x.as_slice(), y.as_slice())
    }

    /// Writes the value at the end of `out`.
    pub fn write_to(&self, out: &mut String)
        ensures
            encode_utf8(final(out)@) == encode_utf8(old(out)@) + value_text(self@),
            self@.len() > 0,
    {
        proof {
            use_type_invariant(self);
            lemma_value_defect(self.text.spec_bytes());
        }
        let bytes = self.text.as_bytes();
        if bytes[0] == QUOTE {
            let content = self.content();
            let bare = only_name_chars(content.as_slice());
            if !bare {
                push_quote(out);
            }
            push_normalized(out, self.text);
            if !bare {
                push_quote(out);
            } else {
                proof {
                    lemma_escape_token(self@);
                }
            }
        } else {
            let bare = only_name_chars(bytes);
            if bare {
                push_str(out, self.text);
            } else {
                push_quote(out);
                push_escaped(out, self.text);
                push_quote(out);
            }
        }
    }

    /// The value as text.
    pub fn to_string(&self) -> (r: String)
        ensures
            encode_utf8(r@) == value_text(self@),
            self@.len() > 0,
    {
        let mut out = String::new();
        self.write_to(&mut out);
        assert(Seq::<u8>::empty() + value_text(self@) =~= value_text(self@));
        out
    }
}

/// Looks for what keeps `s` from being kept as a value.
pub fn check_value(s: &[u8]) -> (r: Option<ValidationError>)
    ensures
        r == value_defect(s@),
{
    let n: usize = s.len();
    if n == 0 {
        return Some(ValidationError::Empty);
    }
    if s[0] != QUOTE {
        return None;
    }
    match find_closing_quote(s, 1) {
        None => Some(ValidationError::UnterminatedQuote),
        Some(end) => {
            if end == 1 {
                Some(ValidationError::Empty)
            } else if end + 1 < n {
                Some(ValidationError::InvalidChar(end + 1))
            } else {
                None
            }
        },
    }
}

/// Writes `s` at the end of `out` as it stands between quotes.
fn push_escaped(out: &mut String, s: &str)
    ensures
        encode_utf8(final(out)@) == encode_utf8(old(out)@) + escape(s.spec_bytes()),
{
    let bytes = s.as_bytes();
    let n: usize = bytes.len();
    let ghost all = s.spec_bytes();
    let ghost base = encode_utf8(out@);
    proof {
        encode_utf8_valid_utf8(s@);
        assert(all.take(0) =~= Seq::<u8>::empty());
        assert(base + all.subrange(0, 0) =~= base + escape(all.take(0)));
    }
    let mut seg: usize = 0;
    let mut i: usize = 0;
    while i < n
        invariant
            n == all.len(),
            bytes@ == all,
            all == s.spec_bytes(),
            valid_utf8(all),
            0 <= seg <= i <= n,
            cut_point(all, seg as int),
            encode_utf8(out@) + all.subrange(seg as int, i as int) == base + escape(
                all.take(i as int),
            ),
        decreases n - i,
    {
        let b: u8 = bytes[i];
        let ghost before = encode_utf8(out@);
        let ghost seg0 = seg as int;
        proof {
            lemma_escape_concat(all.take(i as int), seq![b]);
            assert(all.take(i as int) + seq![b] =~= all.take(i + 1));
            assert(seq![b].skip(1) =~= Seq::<u8>::empty());
            assert(escape(seq![b].skip(1)) =~= Seq::<u8>::empty());
            assert(escape(seq![b]) =~= escape_byte(b));
        }
        if b == QUOTE || b == BACKSLASH {
            proof {
                lemma_cut_at_ascii(all, i as int);
            }
            push_str(out, substr(s, seg, i));
            push_backslash(out);
            seg = i;
            assert(encode_utf8(out@) + all.subrange(seg as int, i + 1) =~= before + all.subrange(
                seg0,
                i as int,
            ) + seq![BACKSLASH, b]);
        } else {
            assert(before + all.subrange(seg as int, i + 1) =~= before + all.subrange(
                seg as int,
                i as int,
            ) + seq![b]);
        }
        i += 1;
    }
    push_str(out, substr(s, seg, n));
    assert(all.take(n as int) =~= all);
}

/// Writes what the quoted string `s` stands for at the end of `out` as it
/// stands between quotes: `s` without its quotes and without the
/// backslashes that it does not need.
fn push_normalized(out: &mut String, s: &str)
    requires
        is_value_text(s.spec_bytes()),
        s.spec_bytes()[0] == QUOTE,
    ensures
        encode_utf8(final(out)@) == encode_utf8(old(out)@) + escape(
            value_content(s.spec_bytes()),
        ),
{
    let bytes = s.as_bytes();
    let n: usize = bytes.len();
    let ghost all = s.spec_bytes();
    let ghost base = encode_utf8(out@);
    proof {
        encode_utf8_valid_utf8(s@);
        lemma_cut_at_ascii(all, 0);
        lemma_cut_at_ascii(all, n - 1);
        assert(all.subrange(1, 1) =~= Seq::<u8>::empty());
        assert(base + all.subrange(1, 1) =~= base + escape(unescape(all.subrange(1, 1))));
    }
    let mut seg: usize = 1;
    let mut i: usize = 1;
    while i < n - 1
        invariant
            n == all.len(),
            n >= 3,
            bytes@ == all,
            all == s.spec_bytes(),
            valid_utf8(all),
            1 <= seg <= i <= n - 1,
            cut_point(all, seg as int),
            cut_point(all, n - 1),
            valid_body(all.subrange(1, i as int)),
            valid_body(all.subrange(i as int, n - 1)),
            encode_utf8(out@) + all.subrange(seg as int, i as int) == base + escape(
                unescape(all.subrange(1, i as int)),
            ),
        decreases n - i,
    {
        let b: u8 = bytes[i];
        let ghost before = encode_utf8(out@);
        let ghost seg0 = seg as int;
        let ghost pre = all.subrange(1, i as int);
        let ghost rest = all.subrange(i as int, n - 1);
        assert(rest[0] == b);
        if b == BACKSLASH {
            assert(rest.len() >= 2);
            let c: u8 = bytes[i + 1];
            proof {
                assert(rest.skip(2) =~= all.subrange(i + 2, n - 1));
                lemma_normal_pair(pre, c);
                assert(pre + seq![BACKSLASH, c] =~= all.subrange(1, i + 2));
            }
            if c == QUOTE || c == BACKSLASH {
                assert(before + all.subrange(seg as int, i + 2) =~= before + all.subrange(
                    seg as int,
                    i as int,
                ) + seq![BACKSLASH, c]);
            } else {
                proof {
                    lemma_cut_at_ascii(all, i as int);
                }
                push_str(out, substr(s, seg, i));
                seg = i + 1;
                assert(encode_utf8(out@) + all.subrange(seg as int, i + 2) =~= before
                    + all.subrange(seg0, i as int) + seq![c]);
            }
            i += 2;
        } else {
            proof {
                assert(rest.skip(1) =~= all.subrange(i + 1, n - 1));
                lemma_normal_plain(pre, b);
                assert(pre + seq![b] =~= all.subrange(1, i + 1));
                assert(before + all.subrange(seg as int, i + 1) =~= before + all.subrange(
                    seg as int,
                    i as int,
                ) + seq![b]);
            }
            i += 1;
        }
    }
    push_str(out, substr(s, seg, n - 1));
}

impl<'a> PartialEq for Value<'a> {
    fn eq(&self, other: &Self) -> (r: bool) {
        proof {
            use_type_invariant(self);
            use_type_invariant(other);
        }
        let a = self.text.as_bytes();
        let b = other.text.as_bytes();
        if a[0] != QUOTE && b[0] != QUOTE {
            same_bytes(a, b)
        } else {
            let x = self.content();
            let y = other.content();
            same_bytes(x.as_slice(), y.as_slice())
        }
    }
}

impl<'a> Eq for Value<'a> {

}

impl<'a> vstd::std_specs::cmp::PartialEqSpecImpl for Value<'a> {
    open spec fn obeys_eq_spec() -> bool {
        true
    }

    open spec fn eq_spec(&self, other: &Self) -> bool {
        self@ == other@
    }
}

impl<'a> PartialOrd for Value<'a> {
    fn partial_cmp(&self, other: &Self) -> (r: Option<Ordering>) {
        Some(self.cmp(other))
    }
}

impl<'a> vstd::std_specs::cmp::PartialOrdSpecImpl for Value<'a> {
    open spec fn obeys_partial_cmp_spec() -> bool {
        true
    }

    open spec fn partial_cmp_spec(&self, other: &Self) -> Option<Ordering> {
        Some(order_of(lex_less(self@, other@), self@ == other@))
    }
}

} // verus!
