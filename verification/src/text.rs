//! Strings as bytes: cutting a `str` at byte offsets, and writing to a
//! `String`, with contracts over the UTF-8 encoding.

use vstd::prelude::*;
use vstd::string::*;
use vstd::utf8::*;

verus! {

/// The encoding of two texts in a row is the two encodings in a row.
pub proof fn lemma_encode_concat(a: Seq<char>, b: Seq<char>)
    ensures
        encode_utf8(a + b) == encode_utf8(a) + encode_utf8(b),
    decreases a.len(),
{
    if a.len() == 0 {
        assert(a + b =~= b);
        assert(encode_utf8(a) + encode_utf8(b) =~= encode_utf8(b));
    } else {
        lemma_encode_concat(a.drop_first(), b);
        assert((a + b).drop_first() =~= a.drop_first() + b);
        assert(encode_utf8(a + b) =~= encode_utf8(a) + encode_utf8(b));
    }
}

/// A text of one ASCII character is encoded as that one byte.
pub proof fn lemma_encode_ascii(c: char)
    requires
        (c as u32) < 128,
    ensures
        encode_utf8(seq![c]) == seq![c as u8],
{
    let chars = seq![c];
    assert(is_ascii_chars(chars));
    is_ascii_chars_encode_utf8(chars);
    assert(encode_utf8(chars)[0] == chars[0] as u8);
    assert(encode_utf8(chars) =~= seq![c as u8]);
}

/// An offset at which a text may be cut: its end, or the start of a character.
pub open spec fn cut_point(s: Seq<u8>, at: int) -> bool {
    0 <= at <= s.len() && (at < s.len() ==> !is_continuation_byte(s[at]))
}

/// An offset that holds an ASCII byte, and the offset behind it, are cut points.
pub proof fn lemma_cut_at_ascii(s: Seq<u8>, at: int)
    requires
        valid_utf8(s),
        0 <= at < s.len(),
        s[at] < 0x80,
    ensures
        cut_point(s, at),
        cut_point(s, at + 1),
{
    if at + 1 < s.len() {
        is_char_boundary_iff_not_is_continuation_byte(s, at);
        assert(is_char_boundary(s, at));
        valid_utf8_split(s, at);
        let tail = s.subrange(at, s.len() as int);
        assert(tail[0] == s[at]);
        assert(is_leading_byte_width_1(tail[0]));
        assert(length_of_first_scalar(tail) == 1);
        assert(pop_first_scalar(tail) =~= s.subrange(at + 1, s.len() as int));
        assert(valid_utf8(s.subrange(at + 1, s.len() as int)));
        let rest = s.subrange(at + 1, s.len() as int);
        is_char_boundary_iff_not_is_continuation_byte(rest, 0);
        assert(rest[0] == s[at + 1]);
    }
}

/// The part of `s` from byte `from` up to byte `to`.
pub fn substr<'a>(s: &'a str, from: usize, to: usize) -> (r: &'a str)
    requires
        from <= to,
        cut_point(s.spec_bytes(), from as int),
        cut_point(s.spec_bytes(), to as int),
    ensures
        r.spec_bytes() == s.spec_bytes().subrange(from as int, to as int),
{
    let ghost all = s.spec_bytes();
    proof {
        encode_utf8_valid_utf8(s@);
        is_char_boundary_start_end_of_seq(all);
        if to < all.len() {
            is_char_boundary_iff_not_is_continuation_byte(all, to as int);
        }
    }
    let (head, _) = s.split_at(to);
    proof {
        let h = head.spec_bytes();
        encode_utf8_valid_utf8(head@);
        is_char_boundary_start_end_of_seq(h);
        if from < to {
            assert(h[from as int] == all[from as int]);
            is_char_boundary_iff_not_is_continuation_byte(h, from as int);
        }
    }
    let (_, r) = head.split_at(from);
    assert(r.spec_bytes() =~= all.subrange(from as int, to as int));
    r
}

/// Writes `s` at the end of `out`.
pub fn push_str(out: &mut String, s: &str)
    ensures
        encode_utf8(final(out)@) == encode_utf8(old(out)@) + s.spec_bytes(),
{
    proof {
        lemma_encode_concat(out@, s@);
    }
    out.append(s);
}

/// Writes `/` at the end of `out`.
pub fn push_slash(out: &mut String)
    ensures
        encode_utf8(final(out)@) == encode_utf8(old(out)@) + seq![0x2fu8],
{
    proof {
        reveal_strlit("/");
        assert("/"@ =~= seq!['/']);
        lemma_encode_ascii('/');
    }
    push_str(out, "/");
}

/// Writes `+` at the end of `out`.
pub fn push_plus(out: &mut String)
    ensures
        encode_utf8(final(out)@) == encode_utf8(old(out)@) + seq![0x2bu8],
{
    proof {
        reveal_strlit("+");
        assert("+"@ =~= seq!['+']);
        lemma_encode_ascii('+');
    }
    push_str(out, "+");
}

/// Writes `=` at the end of `out`.
pub fn push_equals(out: &mut String)
    ensures
        encode_utf8(final(out)@) == encode_utf8(old(out)@) + seq![0x3du8],
{
    proof {
        reveal_strlit("=");
        assert("="@ =~= seq!['=']);
        lemma_encode_ascii('=');
    }
    push_str(out, "=");
}

/// Writes `"` at the end of `out`.
pub fn push_quote(out: &mut String)
    ensures
        encode_utf8(final(out)@) == encode_utf8(old(out)@) + seq![0x22u8],
{
    proof {
        reveal_strlit("\"");
        assert("\""@ =~= seq!['"']);
        lemma_encode_ascii('"');
    }
    push_str(out, "\"");
}

/// Writes `\` at the end of `out`.
pub fn push_backslash(out: &mut String)
    ensures
        encode_utf8(final(out)@) == encode_utf8(old(out)@) + seq![0x5cu8],
{
    proof {
        reveal_strlit("\\");
        assert("\\"@ =~= seq!['\\']);
        lemma_encode_ascii('\\');
    }
    push_str(out, "\\");
}

/// Writes `; ` at the end of `out`.
pub fn push_separator(out: &mut String)
    ensures
        encode_utf8(final(out)@) == encode_utf8(old(out)@) + seq![0x3bu8, 0x20u8],
{
    proof {
        reveal_strlit("; ");
        assert("; "@ =~= seq![';', ' ']);
        lemma_encode_ascii(';');
        lemma_encode_ascii(' ');
        lemma_encode_concat(seq![';'], seq![' ']);
        assert(seq![';'] + seq![' '] =~= seq![';', ' ']);
        assert(seq![0x3bu8] + seq![0x20u8] =~= seq![0x3bu8, 0x20u8]);
    }
    push_str(out, "; ");
}

} // verus!
