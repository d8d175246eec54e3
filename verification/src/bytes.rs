//! The byte classes of the grammar, and the scans that the parser is built from.

use vstd::prelude::*;

verus! {

/// The longest name, in bytes.
pub const MAX_NAME_LENGTH: usize = 127;

pub const TAB: u8 = 0x09;

pub const SPACE: u8 = 0x20;

pub const QUOTE: u8 = 0x22;

pub const STAR: u8 = 0x2a;

pub const PLUS: u8 = 0x2b;

pub const SLASH: u8 = 0x2f;

pub const SEMICOLON: u8 = 0x3b;

pub const EQUALS: u8 = 0x3d;

pub const BACKSLASH: u8 = 0x5c;

/// An ASCII letter or digit.
pub open spec fn alphanumeric(b: u8) -> bool {
    (0x30 <= b <= 0x39) || (0x41 <= b <= 0x5a) || (0x61 <= b <= 0x7a)
}

/// A byte that a name, or a value written without quotes, may hold:
/// a letter, a digit, or one of ``! # $ % & ' * + - . ^ _``.
pub open spec fn name_char(b: u8) -> bool {
    alphanumeric(b) || b == 0x21 || b == 0x23 || b == 0x24 || b == 0x25 || b == 0x26 || b == 0x27
        || b == 0x2a || b == 0x2b || b == 0x2d || b == 0x2e || b == 0x5e || b == 0x5f
}

/// A byte that a name may begin with: a letter, a digit or `*`.
pub open spec fn name_start(b: u8) -> bool {
    alphanumeric(b) || b == STAR
}

/// Optional white space: a space or a tab.
pub open spec fn ows(b: u8) -> bool {
    b == SPACE || b == TAB
}

/// The byte with an ASCII capital letter replaced by its small letter.
pub open spec fn fold(b: u8) -> u8 {
    if 0x41 <= b <= 0x5a {
        (b + 0x20) as u8
    } else {
        b
    }
}

/// The bytes with every ASCII capital letter replaced by its small letter.
pub open spec fn fold_seq(s: Seq<u8>) -> Seq<u8> {
    Seq::new(s.len(), |i: int| fold(s[i]))
}

/// Every byte may stand in a name.
pub open spec fn all_name_chars(s: Seq<u8>) -> bool {
    forall|i: int| 0 <= i < s.len() ==> name_char(#[trigger] s[i])
}

/// A value that needs no quotes: one byte or more, each a name byte.
pub open spec fn is_token(s: Seq<u8>) -> bool {
    s.len() > 0 && all_name_chars(s)
}

/// A restricted name: between 1 and 127 name bytes, the first a letter, a
/// digit or `*`.
pub open spec fn is_restricted_name(s: Seq<u8>) -> bool {
    &&& 0 < s.len() <= MAX_NAME_LENGTH
    &&& name_start(s[0])
    &&& all_name_chars(s)
}

/// Where the run of name bytes that starts at `from` ends: the first offset
/// at or behind `from` that holds no name byte, or the length.
pub open spec fn name_run_end(s: Seq<u8>, from: int) -> int
    decreases s.len() - from,
{
    if 0 <= from < s.len() && name_char(s[from]) {
        name_run_end(s, from + 1)
    } else {
        from
    }
}

/// Where the run of white space that starts at `from` ends.
pub open spec fn ows_end(s: Seq<u8>, from: int) -> int
    decreases s.len() - from,
{
    if 0 <= from < s.len() && ows(s[from]) {
        ows_end(s, from + 1)
    } else {
        from
    }
}

/// The offset of the first `b` at or behind `from`, or the length if there is none.
pub open spec fn find_byte(s: Seq<u8>, b: u8, from: int) -> int
    decreases s.len() - from,
{
    if 0 <= from < s.len() && s[from] != b {
        find_byte(s, b, from + 1)
    } else {
        from
    }
}

/// The offset of the last `b`, or -1 if there is none.
pub open spec fn rfind_byte(s: Seq<u8>, b: u8) -> int
    decreases s.len(),
{
    if s.len() == 0 {
        -1
    } else if s.last() == b {
        s.len() - 1
    } else {
        rfind_byte(s.drop_last(), b)
    }
}

/// A run of name bytes ends where the next byte is none, and not before.
pub proof fn lemma_name_run_end(s: Seq<u8>, from: int)
    requires
        0 <= from <= s.len(),
    ensures
        from <= name_run_end(s, from) <= s.len(),
        all_name_chars(s.subrange(from, name_run_end(s, from))),
        name_run_end(s, from) < s.len() ==> !name_char(s[name_run_end(s, from)]),
    decreases s.len() - from,
{
    if from < s.len() && name_char(s[from]) {
        lemma_name_run_end(s, from + 1);
        let e = name_run_end(s, from);
        assert forall|i: int| 0 <= i < e - from implies name_char(
            #[trigger] s.subrange(from, e)[i],
        ) by {
            if i > 0 {
                assert(s.subrange(from, e)[i] == s.subrange(from + 1, e)[i - 1]);
            }
        }
    }
}

/// The end of a run is the only offset with name bytes before it and none at it.
pub proof fn lemma_name_run_end_unique(s: Seq<u8>, from: int, end: int)
    requires
        0 <= from <= end <= s.len(),
        forall|i: int| from <= i < end ==> name_char(#[trigger] s[i]),
        end < s.len() ==> !name_char(s[end]),
    ensures
        name_run_end(s, from) == end,
    decreases end - from,
{
    if from < end {
        lemma_name_run_end_unique(s, from + 1, end);
    }
}

/// A run of white space ends where the next byte is none, and not before.
pub proof fn lemma_ows_end(s: Seq<u8>, from: int)
    requires
        0 <= from <= s.len(),
    ensures
        from <= ows_end(s, from) <= s.len(),
        forall|i: int| from <= i < ows_end(s, from) ==> ows(#[trigger] s[i]),
        ows_end(s, from) < s.len() ==> !ows(s[ows_end(s, from)]),
    decreases s.len() - from,
{
    if from < s.len() && ows(s[from]) {
        lemma_ows_end(s, from + 1);
    }
}

/// The first `b` has no `b` before it.
pub proof fn lemma_find_byte(s: Seq<u8>, b: u8, from: int)
    requires
        0 <= from <= s.len(),
    ensures
        from <= find_byte(s, b, from) <= s.len(),
        forall|i: int| from <= i < find_byte(s, b, from) ==> #[trigger] s[i] != b,
        find_byte(s, b, from) < s.len() ==> s[find_byte(s, b, from)] == b,
    decreases s.len() - from,
{
    if from < s.len() && s[from] != b {
        lemma_find_byte(s, b, from + 1);
    }
}

/// The first `b` is the only offset that holds `b` with no `b` before it.
pub proof fn lemma_find_byte_unique(s: Seq<u8>, b: u8, from: int, at: int)
    requires
        0 <= from <= at <= s.len(),
        forall|i: int| from <= i < at ==> #[trigger] s[i] != b,
        at < s.len() ==> s[at] == b,
    ensures
        find_byte(s, b, from) == at,
    decreases at - from,
{
    if from < at {
        lemma_find_byte_unique(s, b, from + 1, at);
    }
}

/// The last `b` has no `b` behind it.
pub proof fn lemma_rfind_byte(s: Seq<u8>, b: u8)
    ensures
        -1 <= rfind_byte(s, b) < s.len(),
        rfind_byte(s, b) >= 0 ==> s[rfind_byte(s, b)] == b,
        forall|i: int| rfind_byte(s, b) < i < s.len() ==> #[trigger] s[i] != b,
    decreases s.len(),
{
    if s.len() > 0 && s.last() != b {
        lemma_rfind_byte(s.drop_last(), b);
        assert forall|i: int| rfind_byte(s, b) < i < s.len() implies #[trigger] s[i] != b by {
            if i < s.len() - 1 {
                assert(s[i] == s.drop_last()[i]);
            }
        }
    }
}

/// The last `b` is the only offset that holds `b` with no `b` behind it.
pub proof fn lemma_rfind_byte_unique(s: Seq<u8>, b: u8, at: int)
    requires
        -1 <= at < s.len(),
        at >= 0 ==> s[at] == b,
        forall|i: int| at < i < s.len() ==> #[trigger] s[i] != b,
    ensures
        rfind_byte(s, b) == at,
    decreases s.len(),
{
    if s.len() > 0 && s.last() != b {
        lemma_rfind_byte_unique(s.drop_last(), b, at);
    }
}

#[verifier::when_used_as_spec(alphanumeric)]
pub fn is_alphanumeric(b: u8) -> (r: bool)
    ensures
        r == alphanumeric(b),
{
    (0x30 <= b && b <= 0x39) || (0x41 <= b && b <= 0x5a) || (0x61 <= b && b <= 0x7a)
}

#[verifier::when_used_as_spec(name_char)]
pub fn is_name_char(b: u8) -> (r: bool)
    ensures
        r == name_char(b),
{
    is_alphanumeric(b) || b == 0x21 || b == 0x23 || b == 0x24 || b == 0x25 || b == 0x26 || b
        == 0x27 || b == 0x2a || b == 0x2b || b == 0x2d || b == 0x2e || b == 0x5e || b == 0x5f
}

#[verifier::when_used_as_spec(name_start)]
pub fn is_name_start(b: u8) -> (r: bool)
    ensures
        r == name_start(b),
{
    is_alphanumeric(b) || b == STAR
}

#[verifier::when_used_as_spec(ows)]
pub fn is_ows(b: u8) -> (r: bool)
    ensures
        r == ows(b),
{
    b == SPACE || b == TAB
}

#[verifier::when_used_as_spec(fold)]
pub fn to_lower(b: u8) -> (r: u8)
    ensures
        r == fold(b),
{
    if 0x41 <= b && b <= 0x5a {
        b + 0x20
    } else {
        b
    }
}

/// Runs over the name bytes that start at `from`.
pub fn skip_name_chars(s: &[u8], from: usize) -> (end: usize)
    requires
        from <= s@.len(),
    ensures
        end == name_run_end(s@, from as int),
        from <= end <= s@.len(),
{
    let mut i: usize = from;
    while i < s.len() && is_name_char(s[i])
        invariant
            from <= i <= s@.len(),
            name_run_end(s@, from as int) == name_run_end(s@, i as int),
        decreases s@.len() - i,
    {
        i += 1;
    }
    i
}

/// Runs over the white space that starts at `from`.
pub fn skip_ows(s: &[u8], from: usize) -> (end: usize)
    requires
        from <= s@.len(),
    ensures
        end == ows_end(s@, from as int),
        from <= end <= s@.len(),
{
    let mut i: usize = from;
    while i < s.len() && is_ows(s[i])
        invariant
            from <= i <= s@.len(),
            ows_end(s@, from as int) == ows_end(s@, i as int),
        decreases s@.len() - i,
    {
        i += 1;
    }
    i
}

/// Finds the first `b` at or behind `from`.
pub fn find(s: &[u8], b: u8, from: usize) -> (at: usize)
    requires
        from <= s@.len(),
    ensures
        at == find_byte(s@, b, from as int),
        from <= at <= s@.len(),
{
    let mut i: usize = from;
    while i < s.len() && s[i] != b
        invariant
            from <= i <= s@.len(),
            find_byte(s@, b, from as int) == find_byte(s@, b, i as int),
        decreases s@.len() - i,
    {
        i += 1;
    }
    i
}

/// Finds the last `b` in `s[from..to]`, as an offset into `s`.
pub fn rfind(s: &[u8], b: u8, from: usize, to: usize) -> (at: Option<usize>)
    requires
        from <= to <= s@.len(),
    ensures
        match at {
            Some(i) => from <= i < to && i - from == rfind_byte(
                s@.subrange(from as int, to as int),
                b,
            ),
            None => rfind_byte(s@.subrange(from as int, to as int), b) == -1,
        },
{
    let ghost run = s@.subrange(from as int, to as int);
    let mut i: usize = to;
    while i > from
        invariant
            from <= i <= to <= s@.len(),
            run == s@.subrange(from as int, to as int),
            forall|j: int| i - from <= j < run.len() ==> #[trigger] run[j] != b,
        decreases i,
    {
        i -= 1;
        if s[i] == b {
            proof {
                lemma_rfind_byte_unique(run, b, i - from);
            }
            return Some(i);
        }
    }
    proof {
        lemma_rfind_byte_unique(run, b, -1);
    }
    None
}

/// Tells whether every byte may stand in a name.
pub fn only_name_chars(s: &[u8]) -> (r: bool)
    ensures
        r == all_name_chars(s@),
{
    let end = skip_name_chars(s, 0);
    proof {
        lemma_name_run_end(s@, 0);
        assert(s@.subrange(0, s@.len() as int) =~= s@);
    }
    end == s.len()
}

/// Tells whether two texts hold the same bytes.
pub fn same_bytes(a: &[u8], b: &[u8]) -> (r: bool)
    ensures
        r == (a@ == b@),
{
    if a.len() != b.len() {
        return false;
    }
    let n: usize = a.len();
    let mut i: usize = 0;
    while i < n
        invariant
            n == a@.len(),
            n == b@.len(),
            0 <= i <= n,
            forall|j: int| 0 <= j < i ==> a@[j] == b@[j],
        decreases n - i,
    {
        if a[i] != b[i] {
            return false;
        }
        i += 1;
    }
    assert(a@ =~= b@);
    true
}

} // verus!
