//! The grammar of a media type, as a function from the bytes of a text to
//! the places of its parts, and the parser that computes it.
//!
//! ```text
//! media-type := type "/" subtype ["+" suffix] *( OWS ";" OWS parameter )
//! parameter  := name "=" value
//! value      := token | quoted-string
//! ```
//!
//! The type ends at the first `/`. The subtype and the suffix are the run of
//! name bytes behind it, cut at its last `+`. A token is a run of name bytes.

use vstd::prelude::*;
use vstd::slice::slice_subrange;
use vstd::string::*;
use crate::bytes::{
    find, find_byte, is_ows, is_restricted_name, lemma_find_byte, lemma_name_run_end,
    lemma_ows_end, lemma_rfind_byte, name_char, name_run_end, ows, ows_end, rfind, rfind_byte,
    skip_name_chars, skip_ows, EQUALS, PLUS, QUOTE, SEMICOLON, SLASH,
};
use crate::error::{Field, MediaTypeError};
use crate::name::{check_name, lemma_name_defect, name_defect};
use crate::quoted::{find_closing_quote, lemma_quoted_end, lemma_quoted_end_bounds, quoted_end};
use crate::value::{is_value_text, value_content};

verus! {

/// Where the type, the subtype and the suffix stand: the type before
/// `slash`, the subtype behind it up to `plus`, or up to `end` where there is
/// no suffix, and the suffix from behind `plus` up to `end`.
pub struct Head {
    pub slash: int,
    pub plus: Option<int>,
    pub end: int,
}

/// Where the name and the value of one parameter stand.
pub struct ParamSpan {
    pub name_start: int,
    pub name_end: int,
    pub value_start: int,
    pub value_end: int,
}

/// Where the parts of a media type stand in its text.
pub struct Spans {
    pub head: Head,
    pub params: Seq<ParamSpan>,
}

/// A media type as the bytes of its parts; of a value, the bytes that it
/// stands for.
pub struct Parts {
    pub ty: Seq<u8>,
    pub subty: Seq<u8>,
    pub suffix: Option<Seq<u8>>,
    pub params: Seq<(Seq<u8>, Seq<u8>)>,
}

impl Head {
    /// Where the subtype ends.
    pub open spec fn subty_end(self) -> int {
        match self.plus {
            Some(plus) => plus,
            None => self.end,
        }
    }
}

/// The places of the type, the subtype and the suffix at the start of `s`.
pub open spec fn parse_head(s: Seq<u8>) -> Result<Head, MediaTypeError> {
    let slash = find_byte(s, SLASH, 0);
    let end = name_run_end(s, slash + 1);
    let plus = rfind_byte(s.subrange(slash + 1, end), PLUS);
    if s.len() == 0 {
        Err(MediaTypeError::Empty)
    } else if slash >= s.len() {
        Err(MediaTypeError::MissingSlash)
    } else {
        match name_defect(s.subrange(0, slash)) {
            Some(e) => Err(MediaTypeError::InvalidName(Field::Type, e)),
            None => if plus < 0 {
                match name_defect(s.subrange(slash + 1, end)) {
                    Some(e) => Err(MediaTypeError::InvalidName(Field::Subtype, e)),
                    None => Ok(Head { slash, plus: None, end }),
                }
            } else {
                match name_defect(s.subrange(slash + 1, slash + 1 + plus)) {
                    Some(e) => Err(MediaTypeError::InvalidName(Field::Subtype, e)),
                    None => match name_defect(s.subrange(slash + 2 + plus, end)) {
                        Some(e) => Err(MediaTypeError::InvalidName(Field::Suffix, e)),
                        None => Ok(Head { slash, plus: Some(slash + 1 + plus), end }),
                    },
                }
            },
        }
    }
}

/// Where the value that starts at `from` ends.
pub open spec fn parse_value(s: Seq<u8>, from: int) -> Result<int, MediaTypeError> {
    if 0 <= from < s.len() && s[from] == QUOTE {
        match quoted_end(s, from + 1) {
            None => Err(MediaTypeError::UnterminatedQuote),
            Some(close) => if close == from + 1 {
                Err(MediaTypeError::EmptyValue)
            } else {
                Ok(close + 1)
            },
        }
    } else if name_run_end(s, from) == from {
        Err(MediaTypeError::EmptyValue)
    } else {
        Ok(name_run_end(s, from))
    }
}

/// The places of the parameter that starts at `from`.
pub open spec fn parse_param(s: Seq<u8>, from: int) -> Result<ParamSpan, MediaTypeError> {
    let name_end = name_run_end(s, from);
    match name_defect(s.subrange(from, name_end)) {
        Some(e) => Err(MediaTypeError::InvalidName(Field::ParamName, e)),
        None => if name_end >= s.len() || s[name_end] != EQUALS {
            Err(MediaTypeError::MissingEquals)
        } else {
            match parse_value(s, name_end + 1) {
                Err(e) => Err(e),
                Ok(value_end) => Ok(
                    ParamSpan {
                        name_start: from,
                        name_end,
                        value_start: name_end + 1,
                        value_end,
                    },
                ),
            }
        },
    }
}

/// The places of the parameters that follow the offset `from`, up to the
/// end of `s`.
pub open spec fn parse_params(s: Seq<u8>, from: int) -> Result<Seq<ParamSpan>, MediaTypeError>
    decreases s.len() - from,
    via parse_params_decreases
{
    if from < 0 || from >= s.len() {
        Ok(Seq::empty())
    } else if !ows(s[from]) && s[from] != SEMICOLON {
        Err(MediaTypeError::UnexpectedChar(from as usize))
    } else {
        let semicolon = ows_end(s, from);
        if semicolon < s.len() && s[semicolon] == SEMICOLON {
            match parse_param(s, ows_end(s, semicolon + 1)) {
                Err(e) => Err(e),
                Ok(span) => match parse_params(s, span.value_end) {
                    Err(e) => Err(e),
                    Ok(rest) => Ok(seq![span] + rest),
                },
            }
        } else {
            Err(MediaTypeError::TrailingInput(from as usize))
        }
    }
}

#[via_fn]
proof fn parse_params_decreases(s: Seq<u8>, from: int) {
    if 0 <= from < s.len() {
        lemma_ows_end(s, from);
        let semicolon = ows_end(s, from);
        if semicolon < s.len() {
            lemma_ows_end(s, semicolon + 1);
            lemma_parse_param(s, ows_end(s, semicolon + 1));
        }
    }
}

/// The places of all parts of the media type `s`.
pub open spec fn parse_spans(s: Seq<u8>) -> Result<Spans, MediaTypeError> {
    match parse_head(s) {
        Err(e) => Err(e),
        Ok(head) => match parse_params(s, head.end) {
            Err(e) => Err(e),
            Ok(params) => Ok(Spans { head, params }),
        },
    }
}

/// The parts of `s` that stand at the places `spans`.
pub open spec fn cut(s: Seq<u8>, spans: Spans) -> Parts {
    Parts {
        ty: s.subrange(0, spans.head.slash),
        subty: s.subrange(spans.head.slash + 1, spans.head.subty_end()),
        suffix: match spans.head.plus {
            Some(plus) => Some(s.subrange(plus + 1, spans.head.end)),
            None => None,
        },
        params: Seq::new(spans.params.len(), |i: int| cut_param(s, spans.params[i])),
    }
}

/// The name of the parameter at `span`, and what its value stands for.
pub open spec fn cut_param(s: Seq<u8>, span: ParamSpan) -> (Seq<u8>, Seq<u8>) {
    (
        s.subrange(span.name_start, span.name_end),
        value_content(s.subrange(span.value_start, span.value_end)),
    )
}

/// The media type that the text `s` is, by its parts.
pub open spec fn parse_parts(s: Seq<u8>) -> Result<Parts, MediaTypeError> {
    match parse_spans(s) {
        Err(e) => Err(e),
        Ok(spans) => Ok(cut(s, spans)),
    }
}

/// The places `head` hold a type, a subtype and, if any, a suffix, each
/// between ASCII bytes.
pub open spec fn head_ok(s: Seq<u8>, head: Head) -> bool {
    &&& 0 < head.slash < head.subty_end() <= head.end <= s.len()
    &&& s[head.slash] == SLASH
    &&& head.end == name_run_end(s, head.slash + 1)
    &&& s[head.end - 1] < 0x80
    &&& is_restricted_name(s.subrange(0, head.slash))
    &&& is_restricted_name(s.subrange(head.slash + 1, head.subty_end()))
    &&& match head.plus {
        Some(plus) => s[plus] == PLUS && plus + 1 < head.end && is_restricted_name(
            s.subrange(plus + 1, head.end),
        ),
        None => true,
    }
}

/// The places `span` hold a name, `=` and a value.
pub open spec fn span_ok(s: Seq<u8>, span: ParamSpan) -> bool {
    &&& 0 <= span.name_start < span.name_end < span.value_start < span.value_end <= s.len()
    &&& span.value_start == span.name_end + 1
    &&& s[span.name_start] < 0x80
    &&& s[span.name_end] == EQUALS
    &&& s[span.value_end - 1] < 0x80
    &&& is_restricted_name(s.subrange(span.name_start, span.name_end))
    &&& is_value_text(s.subrange(span.value_start, span.value_end))
}

/// A head that was found holds names.
pub proof fn lemma_parse_head(s: Seq<u8>)
    ensures
        parse_head(s) matches Ok(head) ==> head_ok(s, head),
{
    if let Ok(head) = parse_head(s) {
        let slash = head.slash;
        let end = head.end;
        lemma_find_byte(s, SLASH, 0);
        lemma_name_run_end(s, slash + 1);
        let run = s.subrange(slash + 1, end);
        lemma_rfind_byte(run, PLUS);
        let plus = rfind_byte(run, PLUS);
        lemma_name_defect(s.subrange(0, slash));
        if plus < 0 {
            lemma_name_defect(run);
        } else {
            lemma_name_defect(s.subrange(slash + 1, slash + 1 + plus));
            lemma_name_defect(s.subrange(slash + 2 + plus, end));
            assert(run[plus] == s[slash + 1 + plus]);
        }
        assert(name_char(run[end - slash - 2]));
        assert(run[end - slash - 2] == s[end - 1]);
    }
}

/// A value that was found is a value, and not empty.
pub proof fn lemma_parse_value(s: Seq<u8>, from: int)
    requires
        0 <= from <= s.len(),
    ensures
        parse_value(s, from) matches Ok(end) ==> from < end <= s.len() && s[end - 1] < 0x80
            && is_value_text(s.subrange(from, end)),
{
    if let Ok(end) = parse_value(s, from) {
        let text = s.subrange(from, end);
        if from < s.len() && s[from] == QUOTE {
            lemma_quoted_end_bounds(s, from + 1);
            let close = quoted_end(s, from + 1)->0;
            lemma_quoted_end(s, from + 1, close);
            assert(text.subrange(1, text.len() - 1) =~= s.subrange(from + 1, close));
        } else {
            lemma_name_run_end(s, from);
            assert(name_char(text[end - from - 1]));
            assert(name_char(text[0]));
        }
    }
}

/// A parameter that was found holds a name and a value.
pub proof fn lemma_parse_param(s: Seq<u8>, from: int)
    requires
        0 <= from <= s.len(),
    ensures
        parse_param(s, from) matches Ok(span) ==> span_ok(s, span) && span.name_start == from,
{
    if let Ok(span) = parse_param(s, from) {
        lemma_name_run_end(s, from);
        let name = s.subrange(from, span.name_end);
        lemma_name_defect(name);
        assert(name_char(name[0]));
        lemma_parse_value(s, span.value_start);
    }
}

/// The parameters that were found hold names and values.
pub proof fn lemma_parse_params(s: Seq<u8>, from: int)
    ensures
        parse_params(s, from) matches Ok(spans) ==> forall|i: int|
            0 <= i < spans.len() ==> span_ok(s, #[trigger] spans[i]),
    decreases s.len() - from,
{
    if 0 <= from < s.len() {
        if let Ok(spans) = parse_params(s, from) {
            lemma_ows_end(s, from);
            let semicolon = ows_end(s, from);
            lemma_ows_end(s, semicolon + 1);
            let start = ows_end(s, semicolon + 1);
            lemma_parse_param(s, start);
            let span = parse_param(s, start)->Ok_0;
            lemma_parse_params(s, span.value_end);
            let rest = parse_params(s, span.value_end)->Ok_0;
            assert forall|i: int| 0 <= i < spans.len() implies span_ok(s, #[trigger] spans[i]) by {
                if i > 0 {
                    assert(spans[i] == rest[i - 1]);
                }
            }
        }
    }
}

/// The places of a parameter's name and value, as offsets into the text.
#[derive(Clone, Copy, Debug, PartialEq, Eq, Structural)]
pub struct ParamIndices {
    pub name_start: usize,
    pub name_end: usize,
    pub value_start: usize,
    pub value_end: usize,
}

impl View for ParamIndices {
    type V = ParamSpan;

    open spec fn view(&self) -> ParamSpan {
        ParamSpan {
            name_start: self.name_start as int,
            name_end: self.name_end as int,
            value_start: self.value_start as int,
            value_end: self.value_end as int,
        }
    }
}

/// The spans that the offsets `v` stand for.
pub open spec fn spans_of(v: Seq<ParamIndices>) -> Seq<ParamSpan> {
    Seq::new(v.len(), |i: int| v[i]@)
}

/// A result with `acc` put before what it holds.
pub open spec fn prepend(acc: Seq<ParamSpan>, r: Result<Seq<ParamSpan>, MediaTypeError>) -> Result<
    Seq<ParamSpan>,
    MediaTypeError,
> {
    match r {
        Ok(rest) => Ok(acc + rest),
        Err(e) => Err(e),
    }
}

/// The places of the parts of a media type, as offsets into its text.
#[derive(Debug)]
pub struct Indices {
    slash: usize,
    plus: Option<usize>,
    end: usize,
    params: Vec<ParamIndices>,
}

impl View for Indices {
    type V = Spans;

    closed spec fn view(&self) -> Spans {
        Spans {
            head: Head {
                slash: self.slash as int,
                plus: match self.plus {
                    Some(plus) => Some(plus as int),
                    None => None,
                },
                end: self.end as int,
            },
            params: spans_of(self.params@),
        }
    }
}

impl Indices {
    #[verifier::type_invariant]
    spec fn ordered(self) -> bool {
        &&& self.slash < self.end
        &&& self.plus matches Some(plus) ==> self.slash < plus < self.end
    }

    /// Where the type starts and ends.
    pub fn ty(&self) -> (r: (usize, usize))
        ensures
            r.0 == 0,
            r.1 == self@.head.slash,
    {
        (0, self.slash)
    }

    /// Where the subtype starts and ends.
    pub fn subty(&self) -> (r: (usize, usize))
        ensures
            r.0 == self@.head.slash + 1,
            r.1 == self@.head.subty_end(),
    {
        proof {
            use_type_invariant(self);
        }
        match self.plus {
            Some(plus) => (self.slash + 1, plus),
            None => (self.slash + 1, self.end),
        }
    }

    /// Where the suffix starts and ends, if there is one.
    pub fn suffix(&self) -> (r: Option<(usize, usize)>)
        ensures
            match r {
                Some(range) => self@.head.plus == Some(range.0 - 1) && range.1 == self@.head.end,
                None => self@.head.plus is None,
            },
    {
        proof {
            use_type_invariant(self);
        }
        match self.plus {
            Some(plus) => Some((plus + 1, self.end)),
            None => None,
        }
    }

    /// Where the parameters stand, in their order in the text.
    pub fn params(&self) -> (r: &[ParamIndices])
        ensures
            spans_of(r@) == self@.params,
    {
        self.params.as_slice()
    }

    /// Finds the parts of the media type `s`, which is to be the whole text, and
    /// says how many bytes were read: all of them.
    pub fn parse(s: &str) -> (r: Result<(Indices, usize), MediaTypeError>)
        ensures
            match r {
                Ok((indices, len)) => parse_spans(s.spec_bytes()) == Ok::<Spans, MediaTypeError>(
                    indices@,
                ) && len == s.spec_bytes().len(),
                Err(e) => parse_spans(s.spec_bytes()) == Err::<Spans, MediaTypeError>(e),
            },
    {
        let bytes = s.as_bytes();
        let (slash, plus, end) = match read_head(bytes) {
            Ok(head) => head,
            Err(e) => { return Err(e); },
        };
        proof {
            lemma_parse_head(bytes@);
        }
        match read_params(bytes, end) {
            Ok(params) => Ok((Indices { slash, plus, end, params }, bytes.len())),
            Err(e) => Err(e),
        }
    }

    /// Finds the type, the subtype and the suffix at the start of `s` and
    /// says how many bytes they take. What follows them is not read.
    pub fn parse_partial(s: &str) -> (r: Result<(Indices, usize), MediaTypeError>)
        ensures
            match r {
                Ok((indices, len)) => parse_head(s.spec_bytes()) == Ok::<Head, MediaTypeError>(
                    indices@.head,
                ) && indices@.params.len() == 0 && len == indices@.head.end,
                Err(e) => parse_head(s.spec_bytes()) == Err::<Head, MediaTypeError>(e),
            },
    {
        let bytes = s.as_bytes();
        proof {
            lemma_parse_head(bytes@);
        }
        match read_head(bytes) {
            Ok((slash, plus, end)) => Ok((Indices { slash, plus, end, params: Vec::new() }, end)),
            Err(e) => Err(e),
        }
    }
}

/// The head made of three offsets.
pub open spec fn head_of(slash: usize, plus: Option<usize>, end: usize) -> Head {
    Head {
        slash: slash as int,
        plus: match plus {
            Some(plus) => Some(plus as int),
            None => None,
        },
        end: end as int,
    }
}

/// Finds the type, the subtype and the suffix at the start of `s`.
fn read_head(s: &[u8]) -> (r: Result<(usize, Option<usize>, usize), MediaTypeError>)
    ensures
        match r {
            Ok((slash, plus, end)) => parse_head(s@) == Ok::<Head, MediaTypeError>(
                head_of(slash, plus, end),
            ) && slash < end <= s@.len(),
            Err(e) => parse_head(s@) == Err::<Head, MediaTypeError>(e),
        },
{
    let n: usize = s.len();
    if n == 0 {
        return Err(MediaTypeError::Empty);
    }
    let slash: usize = find(s, SLASH, 0);
    if slash >= n {
        return Err(MediaTypeError::MissingSlash);
    }
    if let Some(e) = check_name(slice_subrange(s, 0, slash)) {
        return Err(MediaTypeError::InvalidName(Field::Type, e));
    }
    let end: usize = skip_name_chars(s, slash + 1);
    match rfind(s, PLUS, slash + 1, end) {
        None => {
            if let Some(e) = check_name(slice_subrange(s, slash + 1, end)) {
                return Err(MediaTypeError::InvalidName(Field::Subtype, e));
            }
            Ok((slash, None, end))
        },
        Some(plus) => {
            if let Some(e) = check_name(slice_subrange(s, slash + 1, plus)) {
                return Err(MediaTypeError::InvalidName(Field::Subtype, e));
            }
            if let Some(e) = check_name(slice_subrange(s, plus + 1, end)) {
                return Err(MediaTypeError::InvalidName(Field::Suffix, e));
            }
            Ok((slash, Some(plus), end))
        },
    }
}

/// Finds where the value that starts at `from` ends.
fn read_value(s: &[u8], from: usize) -> (r: Result<usize, MediaTypeError>)
    requires
        from <= s@.len(),
    ensures
        match r {
            Ok(end) => parse_value(s@, from as int) == Ok::<int, MediaTypeError>(end as int)
                && from < end <= s@.len(),
            Err(e) => parse_value(s@, from as int) == Err::<int, MediaTypeError>(e),
        },
{
    if from < s.len() && s[from] == QUOTE {
        match find_closing_quote(s, from + 1) {
            None => Err(MediaTypeError::UnterminatedQuote),
            Some(close) => {
                if close == from + 1 {
                    Err(MediaTypeError::EmptyValue)
                } else {
                    Ok(close + 1)
                }
            },
        }
    } else {
        let end: usize = skip_name_chars(s, from);
        if end == from {
            Err(MediaTypeError::EmptyValue)
        } else {
            Ok(end)
        }
    }
}

/// Finds the name and the value of the parameter that starts at `from`.
fn read_param(s: &[u8], from: usize) -> (r: Result<ParamIndices, MediaTypeError>)
    requires
        from <= s@.len(),
    ensures
        match r {
            Ok(indices) => parse_param(s@, from as int) == Ok::<ParamSpan, MediaTypeError>(
                indices@,
            ),
            Err(e) => parse_param(s@, from as int) == Err::<ParamSpan, MediaTypeError>(e),
        },
{
    let name_end: usize = skip_name_chars(s, from);
    if let Some(e) = check_name(slice_subrange(s, from, name_end)) {
        return Err(MediaTypeError::InvalidName(Field::ParamName, e));
    }
    if name_end >= s.len() || s[name_end] != EQUALS {
        return Err(MediaTypeError::MissingEquals);
    }
    match read_value(s, name_end + 1) {
        Err(e) => Err(e),
        Ok(value_end) => Ok(
            ParamIndices { name_start: from, name_end, value_start: name_end + 1, value_end },
        ),
    }
}

/// Finds the parameters that follow the offset `from`, up to the end of `s`.
fn read_params(s: &[u8], from: usize) -> (r: Result<Vec<ParamIndices>, MediaTypeError>)
    requires
        from <= s@.len(),
    ensures
        match r {
            Ok(params) => parse_params(s@, from as int) == Ok::<Seq<ParamSpan>, MediaTypeError>(
                spans_of(params@),
            ),
            Err(e) => parse_params(s@, from as int) == Err::<Seq<ParamSpan>, MediaTypeError>(e),
        },
{
    let n: usize = s.len();
    let mut out: Vec<ParamIndices> = Vec::new();
    let mut at: usize = from;
    proof {
        assert(spans_of(out@) =~= Seq::<ParamSpan>::empty());
        lemma_prepend_empty(parse_params(s@, from as int));
    }
    while at < n
        invariant
            n == s@.len(),
            from <= at <= n,
            parse_params(s@, from as int) == prepend(
                spans_of(out@),
                parse_params(s@, at as int),
            ),
        decreases n - at,
    {
        let b: u8 = s[at];
        if !is_ows(b) && b != SEMICOLON {
            return Err(MediaTypeError::UnexpectedChar(at));
        }
        let semicolon: usize = skip_ows(s, at);
        if semicolon >= n || s[semicolon] != SEMICOLON {
            return Err(MediaTypeError::TrailingInput(at));
        }
        let start: usize = skip_ows(s, semicolon + 1);
        match read_param(s, start) {
            Err(e) => {
                return Err(e);
            },
            Ok(indices) => {
                proof {
                    lemma_parse_param(s@, start as int);
                    let rest = parse_params(s@, indices.value_end as int);
                    let acc = spans_of(out@);
                    assert(spans_of(out@.push(indices)) =~= acc + seq![indices@]);
                    if let Ok(tail) = rest {
                        assert(acc + (seq![indices@] + tail) =~= (acc + seq![indices@]) + tail);
                    }
                }
                out.push(indices);
                at = indices.value_end;
            },
        }
    }
    proof {
        assert(spans_of(out@) + Seq::<ParamSpan>::empty() =~= spans_of(out@));
    }
    Ok(out)
}

/// Nothing put before a result leaves it as it is.
proof fn lemma_prepend_empty(r: Result<Seq<ParamSpan>, MediaTypeError>)
    ensures
        prepend(Seq::empty(), r) == r,
{
    if let Ok(rest) = r {
        assert(Seq::<ParamSpan>::empty() + rest =~= rest);
    }
}

} // verus!
