//! A media type that is written and read back is the media type that was written.

use vstd::prelude::*;
use crate::bytes::{
    is_restricted_name, is_token, lemma_find_byte_unique, lemma_name_run_end_unique,
    lemma_rfind_byte, lemma_rfind_byte_unique, name_char, ows_end, EQUALS, PLUS, QUOTE,
    SEMICOLON, SLASH, SPACE,
};
use crate::error::MediaTypeError;
use crate::media_type::{render, render_head, render_param, render_params, valid_parts};
use crate::name::lemma_name_defect;
use crate::parse::{
    cut, cut_param, lemma_parse_head, lemma_parse_params, parse_head, parse_param, parse_params,
    parse_parts, parse_spans, parse_value, span_ok, Head, ParamSpan, Parts, Spans,
};
use crate::quoted::{escape, lemma_quoted_end, lemma_unescape_escape};
use crate::value::{lemma_value_defect, value_content, value_text};

verus! {

/// The subtype and the suffix can be told apart in the text: the `+` between
/// them is the last one, or, where there is no suffix, there is no `+`.
pub open spec fn suffix_is_last(parts: Parts) -> bool {
    match parts.suffix {
        Some(suffix) => !suffix.contains(PLUS),
        None => !parts.subty.contains(PLUS),
    }
}

/// The head that is read back from a written media type.
pub open spec fn head_written(parts: Parts) -> Head {
    Head {
        slash: parts.ty.len() as int,
        plus: match parts.suffix {
            Some(_) => Some((parts.ty.len() + 1 + parts.subty.len()) as int),
            None => None,
        },
        end: render_head(parts).len() as int,
    }
}

/// A written value is read back to its end and stands for what was written.
pub proof fn lemma_value_read_back(s: Seq<u8>, from: int, content: Seq<u8>)
    requires
        0 <= from,
        content.len() > 0,
        from + value_text(content).len() <= s.len(),
        s.subrange(from, from + value_text(content).len()) == value_text(content),
        from + value_text(content).len() < s.len() ==> s[from + value_text(content).len()]
            == SEMICOLON,
    ensures
        parse_value(s, from) == Ok::<int, MediaTypeError>(from + value_text(content).len()),
        value_content(value_text(content)) == content,
{
    let text = value_text(content);
    let end = from + text.len();
    assert forall|i: int| from <= i < end implies s[i] == text[i - from] by {
        assert(s.subrange(from, end)[i - from] == s[i]);
    }
    if is_token(content) {
        assert(name_char(content[0]));
        assert forall|i: int| from <= i < end implies name_char(#[trigger] s[i]) by {
            assert(name_char(content[i - from]));
        }
        lemma_name_run_end_unique(s, from, end);
    } else {
        let body = escape(content);
        lemma_unescape_escape(content);
        let close = end - 1;
        assert(text[0] == QUOTE);
        assert(text[text.len() - 1] == QUOTE);
        assert(s.subrange(from + 1, close) =~= body) by {
            assert forall|i: int| 0 <= i < body.len() implies s.subrange(from + 1, close)[i]
                == body[i] by {
                assert(text[i + 1] == body[i]);
            }
        }
        lemma_quoted_end(s, from + 1, close);
        assert(text.subrange(1, text.len() - 1) =~= body);
    }
}

/// A written parameter is read back as the name and the value that were written.
pub proof fn lemma_param_read_back(s: Seq<u8>, at: int, param: (Seq<u8>, Seq<u8>))
    requires
        0 <= at,
        is_restricted_name(param.0),
        param.1.len() > 0,
        at + render_param(param).len() <= s.len(),
        s.subrange(at, at + render_param(param).len()) == render_param(param),
        at + render_param(param).len() < s.len() ==> s[at + render_param(param).len()]
            == SEMICOLON,
    ensures
        s[at] == SEMICOLON,
        ows_end(s, at) == at,
        parse_param(s, ows_end(s, at + 1)) matches Ok(span) && span.value_end == at
            + render_param(param).len() && cut_param(s, span) == param,
{
    let name = param.0;
    let text = value_text(param.1);
    let written = render_param(param);
    let end = at + written.len();
    let name_start = at + 2;
    let name_end = name_start + name.len();
    let value_start = name_end + 1;
    assert forall|i: int| at <= i < end implies s[i] == written[i - at] by {
        assert(s.subrange(at, end)[i - at] == s[i]);
    }
    assert(written[0] == SEMICOLON);
    assert(written[1] == SPACE);
    assert(s[at] == SEMICOLON);
    assert(s[at + 1] == SPACE);
    assert(written[2] == name[0]);
    assert(name_char(name[0]));
    assert(ows_end(s, at + 2) == at + 2);
    assert(ows_end(s, at + 1) == at + 2);
    assert forall|i: int| name_start <= i < name_end implies name_char(#[trigger] s[i]) by {
        assert(written[i - at] == name[i - name_start]);
        assert(name_char(name[i - name_start]));
    }
    assert(written[name_end - at] == EQUALS);
    lemma_name_run_end_unique(s, name_start, name_end);
    assert(s.subrange(name_start, name_end) =~= name) by {
        assert forall|i: int| 0 <= i < name.len() implies s.subrange(name_start, name_end)[i]
            == name[i] by {
            assert(written[i + 2] == name[i]);
        }
    }
    lemma_name_defect(name);
    assert(s.subrange(value_start, end) =~= text) by {
        assert forall|i: int| 0 <= i < text.len() implies s.subrange(value_start, end)[i]
            == text[i] by {
            assert(written[i + 3 + name.len()] == text[i]);
        }
    }
    lemma_value_read_back(s, value_start, param.1);
}

/// Written parameters are read back as they were written, one after the other.
pub proof fn lemma_params_read_back(s: Seq<u8>, at: int, params: Seq<(Seq<u8>, Seq<u8>)>)
    requires
        0 <= at <= s.len(),
        s.subrange(at, s.len() as int) == render_params(params),
        forall|i: int|
            0 <= i < params.len() ==> is_restricted_name((#[trigger] params[i]).0)
                && params[i].1.len() > 0,
    ensures
        parse_params(s, at) matches Ok(spans) && spans.len() == params.len() && forall|i: int|
            0 <= i < params.len() ==> cut_param(s, #[trigger] spans[i]) == params[i],
    decreases params.len(),
{
    if params.len() == 0 {
        assert(s.subrange(at, s.len() as int).len() == 0);
    } else {
        let first = params.first();
        let rest = params.drop_first();
        let written = render_param(first);
        let next = at + written.len();
        let tail = s.subrange(at, s.len() as int);
        assert(tail == written + render_params(rest));
        assert(s.subrange(at, next) =~= written) by {
            assert(tail.subrange(0, written.len() as int) =~= written);
            assert(tail.subrange(0, written.len() as int) =~= s.subrange(at, next));
        }
        assert(s.subrange(next, s.len() as int) =~= render_params(rest)) by {
            assert(tail.subrange(written.len() as int, tail.len() as int) =~= render_params(rest));
            assert(tail.subrange(written.len() as int, tail.len() as int) =~= s.subrange(
                next,
                s.len() as int,
            ));
        }
        assert(params[0] == first);
        if rest.len() > 0 {
            assert(rest[0] == params[1]);
            let after = render_param(rest.first());
            assert(after[0] == SEMICOLON);
            assert(render_params(rest)[0] == SEMICOLON);
            assert(s.subrange(next, s.len() as int)[0] == s[next]);
        } else {
            assert(render_params(rest).len() == 0);
        }
        lemma_param_read_back(s, at, first);
        assert forall|i: int| 0 <= i < rest.len() implies is_restricted_name(
            (#[trigger] rest[i]).0,
        ) && rest[i].1.len() > 0 by {
            assert(rest[i] == params[i + 1]);
        }
        lemma_params_read_back(s, next, rest);
        let span = parse_param(s, ows_end(s, at + 1))->Ok_0;
        let others = parse_params(s, next)->Ok_0;
        let spans = seq![span] + others;
        assert(parse_params(s, at) == Ok::<Seq<ParamSpan>, MediaTypeError>(spans));
        assert forall|i: int| 0 <= i < params.len() implies cut_param(s, #[trigger] spans[i])
            == params[i] by {
            if i > 0 {
                assert(spans[i] == others[i - 1]);
                assert(rest[i - 1] == params[i]);
            }
        }
    }
}

/// A written type, subtype and suffix are read back where they were written.
pub proof fn lemma_head_read_back(s: Seq<u8>, parts: Parts)
    requires
        valid_parts(parts),
        suffix_is_last(parts),
        render_head(parts).len() <= s.len(),
        s.subrange(0, render_head(parts).len() as int) == render_head(parts),
        render_head(parts).len() < s.len() ==> s[render_head(parts).len() as int] == SEMICOLON,
    ensures
        parse_head(s) == Ok::<Head, MediaTypeError>(head_written(parts)),
{
    let written = render_head(parts);
    let slash = parts.ty.len() as int;
    let end = written.len() as int;
    let start = slash + 1;
    assert forall|i: int| 0 <= i < end implies s[i] == written[i] by {
        assert(s.subrange(0, end)[i] == s[i]);
    }
    assert forall|i: int| 0 <= i < slash implies #[trigger] s[i] != SLASH by {
        assert(written[i] == parts.ty[i]);
        assert(name_char(parts.ty[i]));
    }
    assert(written[slash] == SLASH);
    lemma_find_byte_unique(s, SLASH, 0, slash);
    assert forall|i: int| 0 <= i < parts.subty.len() implies written[start + i]
        == parts.subty[i] by {}
    assert forall|i: int| start <= i < end implies name_char(#[trigger] s[i]) by {
        if i < start + parts.subty.len() {
            assert(written[i] == parts.subty[i - start]);
            assert(name_char(parts.subty[i - start]));
        } else {
            let suffix = parts.suffix->0;
            if i > start + parts.subty.len() {
                assert(written[i] == suffix[i - start - parts.subty.len() - 1]);
                assert(name_char(suffix[i - start - parts.subty.len() - 1]));
            } else {
                assert(written[i] == PLUS);
            }
        }
    }
    lemma_name_run_end_unique(s, start, end);
    let run = s.subrange(start, end);
    assert(s.subrange(0, slash) =~= parts.ty);
    lemma_name_defect(parts.ty);
    lemma_name_defect(parts.subty);
    match parts.suffix {
        Some(suffix) => {
            let plus = parts.subty.len() as int;
            assert(run[plus] == PLUS) by {
                assert(written[start + plus] == PLUS);
            }
            assert forall|i: int| plus < i < run.len() implies #[trigger] run[i] != PLUS by {
                assert(run[i] == written[start + i]);
                assert(written[start + i] == suffix[i - plus - 1]);
                assert(!suffix.contains(PLUS));
            }
            lemma_rfind_byte_unique(run, PLUS, plus);
            assert(s.subrange(start, start + plus) =~= parts.subty);
            assert(s.subrange(start + 1 + plus, end) =~= suffix) by {
                assert forall|i: int| 0 <= i < suffix.len() implies s.subrange(
                    start + 1 + plus,
                    end,
                )[i] == suffix[i] by {
                    assert(written[start + 1 + plus + i] == suffix[i]);
                }
            }
            lemma_name_defect(suffix);
        },
        None => {
            assert(run =~= parts.subty);
            assert forall|i: int| -1 < i < run.len() implies #[trigger] run[i] != PLUS by {
                assert(!parts.subty.contains(PLUS));
            }
            lemma_rfind_byte_unique(run, PLUS, -1);
        },
    }
}

/// What is read from a text is a media type of valid names and values whose
/// subtype and suffix can be told apart when it is written.
pub proof fn lemma_parsed_is_valid(s: Seq<u8>)
    ensures
        parse_parts(s) matches Ok(parts) ==> valid_parts(parts) && suffix_is_last(parts),
{
    if let Ok(spans) = parse_spans(s) {
        let head = spans.head;
        let parts = cut(s, spans);
        lemma_parse_head(s);
        lemma_parse_params(s, head.end);
        assert forall|i: int| 0 <= i < parts.params.len() implies is_restricted_name(
            (#[trigger] parts.params[i]).0,
        ) && parts.params[i].1.len() > 0 by {
            let span = spans.params[i];
            assert(span_ok(s, span));
            lemma_value_defect(s.subrange(span.value_start, span.value_end));
        }
        let start = head.slash + 1;
        let run = s.subrange(start, head.end);
        lemma_rfind_byte(run, PLUS);
        match head.plus {
            Some(plus) => {
                let suffix = s.subrange(plus + 1, head.end);
                if suffix.contains(PLUS) {
                    let i = choose|i: int| 0 <= i < suffix.len() && suffix[i] == PLUS;
                    assert(run[plus + 1 - start + i] == suffix[i]);
                }
            },
            None => {
                let subty = s.subrange(start, head.end);
                if subty.contains(PLUS) {
                    let i = choose|i: int| 0 <= i < subty.len() && subty[i] == PLUS;
                    assert(run[i] == PLUS);
                }
            },
        }
    }
}

/// Every media type that was read from a text is read again from what is
/// written of it.
pub proof fn lemma_parsed_round_trip(s: Seq<u8>)
    ensures
        parse_parts(s) matches Ok(parts) ==> parse_parts(render(parts)) == Ok::<
            Parts,
            MediaTypeError,
        >(parts),
{
    if let Ok(parts) = parse_parts(s) {
        lemma_parsed_is_valid(s);
        lemma_round_trip(parts);
    }
}

/// Reading what was written gives the media type that was written: its
/// names byte for byte and its values by what they stand for. This holds
/// wherever the subtype and the suffix can be told apart in the text.
pub proof fn lemma_round_trip(parts: Parts)
    requires
        valid_parts(parts),
        suffix_is_last(parts),
    ensures
        parse_parts(render(parts)) == Ok::<Parts, MediaTypeError>(parts),
{
    let s = render(parts);
    let written = render_head(parts);
    let end = written.len() as int;
    let tail = render_params(parts.params);
    assert(s.subrange(0, end) =~= written);
    assert(s.subrange(end, s.len() as int) =~= tail);
    if parts.params.len() > 0 {
        assert(render_param(parts.params.first())[0] == SEMICOLON);
        assert(tail[0] == SEMICOLON);
        assert(s[end] == tail[0]);
    } else {
        assert(tail.len() == 0);
    }
    lemma_head_read_back(s, parts);
    lemma_params_read_back(s, end, parts.params);
    let head = head_written(parts);
    let spans = Spans { head, params: parse_params(s, end)->Ok_0 };
    assert(parse_spans(s) == Ok::<Spans, MediaTypeError>(spans));
    let back = cut(s, spans);
    assert(back.ty =~= parts.ty);
    assert(back.subty =~= parts.subty) by {
        assert forall|i: int| 0 <= i < parts.subty.len() implies written[parts.ty.len() + 1 + i]
            == parts.subty[i] by {}
    }
    match parts.suffix {
        Some(suffix) => {
            assert(back.suffix->0 =~= suffix) by {
                assert forall|i: int| 0 <= i < suffix.len() implies written[parts.ty.len()
                    + parts.subty.len() + 2 + i] == suffix[i] by {}
            }
        },
        None => {},
    }
    assert(back.params =~= parts.params);
}

} // verus!
