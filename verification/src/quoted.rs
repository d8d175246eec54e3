//! Quoted strings: what stands between the quotes, and what it stands for.

use vstd::prelude::*;
use crate::bytes::{all_name_chars, name_char, BACKSLASH, QUOTE};

verus! {

/// `b` can stand between two quotes: it holds no quote but behind a
/// backslash, and each backslash that escapes has a byte behind it.
pub open spec fn valid_body(b: Seq<u8>) -> bool
    decreases b.len(),
{
    if b.len() == 0 {
        true
    } else if b[0] == BACKSLASH {
        b.len() >= 2 && valid_body(b.skip(2))
    } else if b[0] == QUOTE {
        false
    } else {
        valid_body(b.skip(1))
    }
}

/// What a quoted body stands for: each backslash is dropped and the byte
/// behind it kept.
pub open spec fn unescape(b: Seq<u8>) -> Seq<u8>
    decreases b.len(),
{
    if b.len() == 0 {
        seq![]
    } else if b[0] == BACKSLASH && b.len() >= 2 {
        seq![b[1]] + unescape(b.skip(2))
    } else {
        seq![b[0]] + unescape(b.skip(1))
    }
}

/// How one byte is written between quotes.
pub open spec fn escape_byte(c: u8) -> Seq<u8> {
    if c == QUOTE || c == BACKSLASH {
        seq![BACKSLASH, c]
    } else {
        seq![c]
    }
}

/// How `c` is written between quotes: a backslash goes before each quote
/// and each backslash.
pub open spec fn escape(c: Seq<u8>) -> Seq<u8>
    decreases c.len(),
{
    if c.len() == 0 {
        seq![]
    } else {
        escape_byte(c[0]) + escape(c.skip(1))
    }
}

/// Where the quoted string that was opened before `from` is closed: the
/// offset of the first quote at or behind `from` that no backslash escapes.
pub open spec fn quoted_end(s: Seq<u8>, from: int) -> Option<int>
    decreases s.len() - from,
{
    if from < 0 || from >= s.len() {
        None
    } else if s[from] == QUOTE {
        Some(from)
    } else if s[from] == BACKSLASH {
        if from + 1 < s.len() {
            quoted_end(s, from + 2)
        } else {
            None
        }
    } else {
        quoted_end(s, from + 1)
    }
}

/// A body followed by more is read as the body, then the rest.
pub proof fn lemma_body_concat(a: Seq<u8>, b: Seq<u8>)
    requires
        valid_body(a),
    ensures
        unescape(a + b) == unescape(a) + unescape(b),
        valid_body(a + b) == valid_body(b),
    decreases a.len(),
{
    if a.len() == 0 {
        assert(a + b =~= b);
        assert(unescape(a) + unescape(b) =~= unescape(b));
    } else if a[0] == BACKSLASH {
        lemma_body_concat(a.skip(2), b);
        assert((a + b).skip(2) =~= a.skip(2) + b);
        assert(unescape(a + b) =~= unescape(a) + unescape(b));
    } else {
        lemma_body_concat(a.skip(1), b);
        assert((a + b).skip(1) =~= a.skip(1) + b);
        assert(unescape(a + b) =~= unescape(a) + unescape(b));
    }
}

/// Two contents in a row are written as one behind the other.
pub proof fn lemma_escape_concat(a: Seq<u8>, b: Seq<u8>)
    ensures
        escape(a + b) == escape(a) + escape(b),
    decreases a.len(),
{
    if a.len() == 0 {
        assert(a + b =~= b);
        assert(escape(a) + escape(b) =~= escape(b));
    } else {
        lemma_escape_concat(a.skip(1), b);
        assert((a + b).skip(1) =~= a.skip(1) + b);
        assert(escape(a + b) =~= escape(a) + escape(b));
    }
}

/// What is written between quotes can stand there, and stands for what was written.
pub proof fn lemma_unescape_escape(c: Seq<u8>)
    ensures
        valid_body(escape(c)),
        unescape(escape(c)) == c,
        escape(c).len() >= c.len(),
    decreases c.len(),
{
    if c.len() > 0 {
        lemma_unescape_escape(c.skip(1));
        let e = escape(c);
        let rest = escape(c.skip(1));
        if c[0] == QUOTE || c[0] == BACKSLASH {
            assert(e.skip(2) =~= rest);
        } else {
            assert(e.skip(1) =~= rest);
        }
        assert(unescape(e) =~= seq![c[0]] + c.skip(1));
        assert(seq![c[0]] + c.skip(1) =~= c);
    }
}

/// Name bytes are written between quotes as they are.
pub proof fn lemma_escape_token(c: Seq<u8>)
    requires
        all_name_chars(c),
    ensures
        escape(c) == c,
    decreases c.len(),
{
    if c.len() > 0 {
        assert(name_char(c[0]));
        assert forall|i: int| 0 <= i < c.skip(1).len() implies name_char(
            #[trigger] c.skip(1)[i],
        ) by {
            assert(c.skip(1)[i] == c[i + 1]);
        }
        lemma_escape_token(c.skip(1));
        assert(seq![c[0]] + c.skip(1) =~= c);
    }
}

/// A body stands for as many bytes as it has when nothing in it is escaped,
/// and for one byte at least when it is not empty.
pub proof fn lemma_unescape_len(b: Seq<u8>)
    ensures
        unescape(b).len() <= b.len(),
        b.len() > 0 ==> unescape(b).len() > 0,
    decreases b.len(),
{
    if b.len() > 0 {
        if b[0] == BACKSLASH && b.len() >= 2 {
            lemma_unescape_len(b.skip(2));
        } else {
            lemma_unescape_len(b.skip(1));
        }
    }
}

/// A quoted string is closed at `end` exactly when a body reaches from
/// `from` to `end` and a quote stands at `end`.
pub proof fn lemma_quoted_end(s: Seq<u8>, from: int, end: int)
    requires
        0 <= from <= end < s.len(),
    ensures
        quoted_end(s, from) == Some(end) <==> (valid_body(s.subrange(from, end)) && s[end]
            == QUOTE),
    decreases end - from,
{
    let body = s.subrange(from, end);
    if from == end {
        if s[from] == BACKSLASH {
            if from + 1 < s.len() {
                lemma_quoted_end_bounds(s, from + 2);
            }
        } else if s[from] != QUOTE {
            lemma_quoted_end_bounds(s, from + 1);
        }
    } else if s[from] == QUOTE {
        assert(body[0] == QUOTE);
    } else if s[from] == BACKSLASH {
        assert(body[0] == BACKSLASH);
        if from + 2 <= end {
            assert(body.skip(2) =~= s.subrange(from + 2, end));
            lemma_quoted_end(s, from + 2, end);
        } else if from + 1 < s.len() {
            lemma_quoted_end_bounds(s, from + 2);
        }
    } else {
        assert(body[0] == s[from]);
        assert(body.skip(1) =~= s.subrange(from + 1, end));
        lemma_quoted_end(s, from + 1, end);
    }
}

/// A quoted string is closed at or behind the offset from which it is read.
pub proof fn lemma_quoted_end_bounds(s: Seq<u8>, from: int)
    ensures
        quoted_end(s, from) matches Some(end) ==> from <= end < s.len() && s[end] == QUOTE,
    decreases s.len() - from,
{
    if 0 <= from < s.len() {
        if s[from] == QUOTE {
        } else if s[from] == BACKSLASH {
            if from + 1 < s.len() {
                lemma_quoted_end_bounds(s, from + 2);
            }
        } else {
            lemma_quoted_end_bounds(s, from + 1);
        }
    }
}

/// Finds where the quoted string that was opened before `from` is closed.
pub fn find_closing_quote(s: &[u8], from: usize) -> (r: Option<usize>)
    requires
        from <= s@.len(),
    ensures
        match r {
            Some(end) => quoted_end(s@, from as int) == Some(end as int) && from <= end
                < s@.len(),
            None => quoted_end(s@, from as int) is None,
        },
{
    let n: usize = s.len();
    let mut i: usize = from;
    while i < n
        invariant
            n == s@.len(),
            from <= i,
            quoted_end(s@, from as int) == quoted_end(s@, i as int),
        decreases n - i,
    {
        let b: u8 = s[i];
        if b == QUOTE {
            return Some(i);
        } else if b == BACKSLASH {
            if n - i < 2 {
                return None;
            }
            i += 2;
        } else {
            i += 1;
        }
    }
    None
}

/// Reads what the body `s[from..to]` stands for.
pub fn decode_body(s: &[u8], from: usize, to: usize) -> (r: Vec<u8>)
    requires
        from <= to <= s@.len(),
        valid_body(s@.subrange(from as int, to as int)),
    ensures
        r@ == unescape(s@.subrange(from as int, to as int)),
{
    let ghost body = s@.subrange(from as int, to as int);
    let mut out: Vec<u8> = Vec::new();
    let mut i: usize = from;
    while i < to
        invariant
            from <= i <= to <= s@.len(),
            body == s@.subrange(from as int, to as int),
            valid_body(s@.subrange(i as int, to as int)),
            out@ + unescape(s@.subrange(i as int, to as int)) == unescape(body),
        decreases to - i,
    {
        let ghost rest = s@.subrange(i as int, to as int);
        assert(rest[0] == s@[i as int]);
        if s[i] == BACKSLASH {
            assert(rest[1] == s@[i + 1]);
            assert(rest.skip(2) =~= s@.subrange(i + 2, to as int));
            out.push(s[i + 1]);
            i += 2;
        } else {
            assert(rest.skip(1) =~= s@.subrange(i + 1, to as int));
            out.push(s[i]);
            i += 1;
        }
        assert(out@ + unescape(s@.subrange(i as int, to as int)) =~= unescape(body));
    }
    assert(s@.subrange(i as int, to as int) =~= Seq::<u8>::empty());
    assert(out@ + Seq::<u8>::empty() =~= out@);
    out
}

} // verus!
