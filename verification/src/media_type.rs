//! The media type: a type, a subtype, a suffix and parameters.

use vstd::prelude::*;
use vstd::slice::slice_to_vec;
use vstd::string::*;
use vstd::utf8::*;
use crate::bytes::{fold_seq, is_restricted_name, EQUALS, PLUS, SEMICOLON, SLASH, SPACE};
use crate::error::MediaTypeError;
use crate::hashing::{
    lemma_params_key_push, name_key, params_key, parts_key, push_name_key, push_value_key,
    suffix_key,
};
use crate::name::Name;
use crate::order::{
    lemma_lex_irreflexive, order_of, params_eq, params_less, parts_eq, parts_less, suffix_eq,
    suffix_less,
};
use crate::params::{
    common_start, has_key, lemma_has_key, lemma_without_absent, lookup, pairs_view, without,
    Params, ReadParams, WriteParams,
};
use crate::parse::{
    cut, cut_param, lemma_parse_head, lemma_parse_params, parse_parts, span_ok, spans_of,
    Indices, ParamIndices, Parts,
};
use crate::text::{
    lemma_cut_at_ascii, push_equals, push_plus, push_separator, push_slash, push_str, substr,
};
use crate::value::{value_text, Value};
use core::cmp::Ordering;

verus! {

/// How one parameter is written: `; `, the name, `=`, the value.
pub open spec fn render_param(param: (Seq<u8>, Seq<u8>)) -> Seq<u8> {
    seq![SEMICOLON, SPACE] + param.0 + seq![EQUALS] + value_text(param.1)
}

/// How parameters are written, one after the other.
pub open spec fn render_params(params: Seq<(Seq<u8>, Seq<u8>)>) -> Seq<u8>
    decreases params.len(),
{
    if params.len() == 0 {
        seq![]
    } else {
        render_param(params.first()) + render_params(params.drop_first())
    }
}

/// One more parameter is written behind the others.
pub proof fn lemma_render_push(params: Seq<(Seq<u8>, Seq<u8>)>, param: (Seq<u8>, Seq<u8>))
    ensures
        render_params(params.push(param)) == render_params(params) + render_param(param),
    decreases params.len(),
{
    let all = params.push(param);
    if params.len() == 0 {
        assert(all.drop_first() =~= Seq::empty());
        assert(render_params(all.drop_first()) =~= Seq::<u8>::empty());
        assert(render_params(all) =~= render_param(param));
        assert(render_params(params) + render_param(param) =~= render_param(param));
    } else {
        lemma_render_push(params.drop_first(), param);
        assert(all.drop_first() =~= params.drop_first().push(param));
        assert(render_params(all) =~= render_params(params) + render_param(param));
    }
}

/// Every name of the media type is a restricted name, and every value
/// stands for one byte or more.
pub open spec fn valid_parts(parts: Parts) -> bool {
    &&& is_restricted_name(parts.ty)
    &&& is_restricted_name(parts.subty)
    &&& parts.suffix matches Some(suffix) ==> is_restricted_name(suffix)
    &&& forall|i: int|
        0 <= i < parts.params.len() ==> is_restricted_name((#[trigger] parts.params[i]).0)
            && parts.params[i].1.len() > 0
}

/// How the type, the subtype and the suffix are written.
pub open spec fn render_head(parts: Parts) -> Seq<u8> {
    parts.ty + seq![SLASH] + parts.subty + match parts.suffix {
        Some(suffix) => seq![PLUS] + suffix,
        None => seq![],
    }
}

/// How a media type is written.
pub open spec fn render(parts: Parts) -> Seq<u8> {
    render_head(parts) + render_params(parts.params)
}

/// The bytes of a suffix, if there is one.
pub open spec fn suffix_view(suffix: Option<Name<'_>>) -> Option<Seq<u8>> {
    match suffix {
        Some(suffix) => Some(suffix@),
        None => None,
    }
}

/// The parameters of a media type: a list that was handed in, or one of its own.
#[derive(Debug)]
enum Store<'a> {
    Borrowed(&'a [(Name<'a>, Value<'a>)]),
    Owned(Vec<(Name<'a>, Value<'a>)>),
}

impl<'a> Store<'a> {
    spec fn items(&self) -> Seq<(Name<'a>, Value<'a>)> {
        match self {
            Store::Borrowed(items) => items@,
            Store::Owned(items) => items@,
        }
    }

    fn as_slice(&self) -> (r: &[(Name<'a>, Value<'a>)])
        ensures
            r@ == self.items(),
    {
        match self {
            Store::Borrowed(items) => items,
            Store::Owned(items) => items.as_slice(),
        }
    }
}

/// A media type whose text is kept elsewhere.
#[derive(Debug)]
pub struct MediaType<'a> {
    /// The top-level type.
    pub ty: Name<'a>,
    /// The subtype.
    pub subty: Name<'a>,
    /// The suffix, if there is one.
    pub suffix: Option<Name<'a>>,
    params: Store<'a>,
}

impl<'a> View for MediaType<'a> {
    type V = Parts;

    /// The media type by the bytes of its parts.
    closed spec fn view(&self) -> Parts {
        Parts {
            ty: self.ty@,
            subty: self.subty@,
            suffix: suffix_view(self.suffix),
            params: pairs_view(self.params.items()),
        }
    }
}

impl<'a> MediaType<'a> {
    /// The parameters as they are kept.
    pub closed spec fn stored(&self) -> Seq<(Name<'a>, Value<'a>)> {
        self.params.items()
    }

    /// The view holds the parameters by their bytes.
    pub proof fn lemma_stored(&self)
        ensures
            self@.params == pairs_view(self.stored()),
    {
    }

    /// The parameters are a list that was handed in and has not been changed.
    pub closed spec fn is_borrowed(&self) -> bool {
        self.params is Borrowed
    }

    /// A media type with no suffix and no parameters.
    pub fn new(ty: Name<'a>, subty: Name<'a>) -> (r: MediaType<'a>)
        ensures
            r@.ty == ty@,
            r@.subty == subty@,
            r@.suffix is None,
            r@.params.len() == 0,
            r.stored().len() == 0,
            r.is_borrowed(),
    {
        MediaType { ty, subty, suffix: None, params: Store::Borrowed(&[]) }
    }

    /// A media type of the given parts. The parameters are taken as they
    /// are, a name that occurs twice included.
    pub fn from_parts(
        ty: Name<'a>,
        subty: Name<'a>,
        suffix: Option<Name<'a>>,
        params: &'a [(Name<'a>, Value<'a>)],
    ) -> (r: MediaType<'a>)
        ensures
            r@.ty == ty@,
            r@.subty == subty@,
            r@.suffix == suffix_view(suffix),
            r@.params == pairs_view(params@),
            r.stored() == params@,
            r.is_borrowed(),
    {
        MediaType { ty, subty, suffix, params: Store::Borrowed(params) }
    }

    /// A media type of the given parts, with a list of parameters of its own.
    pub(crate) fn from_parts_unchecked(
        ty: Name<'a>,
        subty: Name<'a>,
        suffix: Option<Name<'a>>,
        params: Vec<(Name<'a>, Value<'a>)>,
    ) -> (r: MediaType<'a>)
        ensures
            r@.ty == ty@,
            r@.subty == subty@,
            r@.suffix == suffix_view(suffix),
            r@.params == pairs_view(params@),
            r.stored() == params@,
            !r.is_borrowed(),
    {
        MediaType { ty, subty, suffix, params: Store::Owned(params) }
    }

    /// Reads a media type from `s` without copying the text.
    pub fn parse<'s: 'a>(s: &'s str) -> (r: Result<MediaType<'a>, MediaTypeError>)
        ensures
            match r {
                Ok(media_type) => parse_parts(s.spec_bytes()) == Ok::<Parts, MediaTypeError>(
                    media_type@,
                ) && !media_type.is_borrowed(),
                Err(e) => parse_parts(s.spec_bytes()) == Err::<Parts, MediaTypeError>(e),
            },
    {
        let ghost all = s.spec_bytes();
        let indices = match Indices::parse(s) {
            Ok((indices, _)) => indices,
            Err(e) => { return Err(e); },
        };
        let ghost spans = indices@;
        proof {
            encode_utf8_valid_utf8(s@);
            lemma_parse_head(all);
            lemma_parse_params(all, spans.head.end);
            lemma_cut_at_ascii(all, spans.head.slash);
            lemma_cut_at_ascii(all, spans.head.end - 1);
            if let Some(plus) = spans.head.plus {
                lemma_cut_at_ascii(all, plus);
            }
        }
        let ty_at = indices.ty();
        let subty_at = indices.subty();
        let ty = Name::new_unchecked(substr(s, ty_at.0, ty_at.1));
        let subty = Name::new_unchecked(substr(s, subty_at.0, subty_at.1));
        let suffix = match indices.suffix() {
            Some(at) => Some(Name::new_unchecked(substr(s, at.0, at.1))),
            None => None,
        };
        let places = indices.params();
        let n: usize = places.len();
        let mut params: Vec<(Name<'a>, Value<'a>)> = Vec::new();
        let mut i: usize = 0;
        while i < n
            invariant
                all == s.spec_bytes(),
                valid_utf8(all),
                n == places@.len(),
                spans_of(places@) == spans.params,
                forall|k: int|
                    0 <= k < spans.params.len() ==> span_ok(all, #[trigger] spans.params[k]),
                0 <= i <= n,
                params@.len() == i,
                forall|k: int|
                    0 <= k < i ==> (#[trigger] params@[k]).0@ == cut_param(all, spans.params[k]).0
                        && params@[k].1@ == cut_param(all, spans.params[k]).1,
            decreases n - i,
        {
            let place: ParamIndices = places[i];
            proof {
                assert(spans_of(places@)[i as int] == place@);
                assert(span_ok(all, spans.params[i as int]));
                lemma_cut_at_ascii(all, place.name_start as int);
                lemma_cut_at_ascii(all, place.name_end as int);
                lemma_cut_at_ascii(all, place.value_end - 1);
            }
            let name = Name::new_unchecked(substr(s, place.name_start, place.name_end));
            let value = Value::new_unchecked(substr(s, place.value_start, place.value_end));
            params.push((name, value));
            i += 1;
        }
        let r = MediaType::from_parts_unchecked(ty, subty, suffix, params);
        proof {
            assert(r@.params =~= cut(all, spans).params);
        }
        Ok(r)
    }

    /// Writes the media type at the end of `out`.
    pub fn write_to(&self, out: &mut String)
        ensures
            encode_utf8(final(out)@) == encode_utf8(old(out)@) + render(self@),
            valid_parts(self@),
    {
        let ghost base = encode_utf8(out@);
        push_str(out, self.ty.as_str());
        push_slash(out);
        push_str(out, self.subty.as_str());
        match self.suffix {
            Some(suffix) => {
                push_plus(out);
                push_str(out, suffix.as_str());
                assert(encode_utf8(out@) =~= base + render_head(self@));
            },
            None => {
                assert(encode_utf8(out@) =~= base + render_head(self@));
            },
        }
        let items = self.params.as_slice();
        let n: usize = items.len();
        let ghost views = self@.params;
        let mut i: usize = 0;
        assert(views.take(0) =~= Seq::empty());
        assert(base + render_head(self@) + Seq::<u8>::empty() =~= base + render_head(self@));
        while i < n
            invariant
                n == items@.len(),
                views == pairs_view(items@),
                0 <= i <= n,
                encode_utf8(out@) == base + render_head(self@) + render_params(
                    views.take(i as int),
                ),
                forall|k: int|
                    0 <= k < i ==> is_restricted_name((#[trigger] views[k]).0) && views[k].1.len()
                        > 0,
            decreases n - i,
        {
            let ghost before = encode_utf8(out@);
            let (name, value) = items[i];
            push_separator(out);
            push_str(out, name.as_str());
            push_equals(out);
            value.write_to(out);
            proof {
                lemma_render_push(views.take(i as int), views[i as int]);
                assert(views.take(i + 1) =~= views.take(i as int).push(views[i as int]));
                assert(views[i as int] == (name@, value@));
                assert(encode_utf8(out@) =~= before + render_param(views[i as int]));
                assert(before + render_param(views[i as int]) =~= base + render_head(self@) + (
                render_params(views.take(i as int)) + render_param(views[i as int])));
            }
            i += 1;
        }
        proof {
            assert(views.take(n as int) =~= views);
            assert(base + render_head(self@) + render_params(views) =~= base + render(self@));
        }
    }

    /// Orders two media types: by the type, then the subtype, then the
    /// suffix, then the parameters in their order.
    pub fn cmp(&self, other: &MediaType) -> (r: Ordering)
        ensures
            r == order_of(parts_less(self@, other@), parts_eq(self@, other@)),
    {
        proof {
            lemma_lex_irreflexive(fold_seq(self@.ty));
            lemma_lex_irreflexive(fold_seq(self@.subty));
            if let Some(suffix) = self@.suffix {
                lemma_lex_irreflexive(fold_seq(suffix));
            }
        }
        match self.ty.cmp(&other.ty) {
            Ordering::Less => { return Ordering::Less; },
            Ordering::Greater => { return Ordering::Greater; },
            Ordering::Equal => {},
        }
        match self.subty.cmp(&other.subty) {
            Ordering::Less => { return Ordering::Less; },
            Ordering::Greater => { return Ordering::Greater; },
            Ordering::Equal => {},
        }
        match compare_suffix(self.suffix, other.suffix) {
            Ordering::Less => { return Ordering::Less; },
            Ordering::Greater => { return Ordering::Greater; },
            Ordering::Equal => {},
        }
        compare_params(self.params.as_slice(), other.params.as_slice())
    }

    /// The bytes by which the media type is hashed. Equal media types have
    /// the same.
    pub fn hash_key(&self) -> (r: Vec<u8>)
        ensures
            r@ == parts_key(self@),
    {
        let mut out: Vec<u8> = Vec::new();
        push_name_key(&mut out, &self.ty);
        push_name_key(&mut out, &self.subty);
        match self.suffix {
            Some(suffix) => {
                out.push(1);
                push_name_key(&mut out, &suffix);
                assert(out@ =~= name_key(self@.ty) + name_key(self@.subty) + suffix_key(
                    self@.suffix,
                ));
            },
            None => {
                out.push(0);
                assert(out@ =~= name_key(self@.ty) + name_key(self@.subty) + suffix_key(
                    self@.suffix,
                ));
            },
        }
        let ghost head = out@;
        let items = self.params.as_slice();
        let ghost views = self@.params;
        let n: usize = items.len();
        let mut i: usize = 0;
        assert(views.take(0) =~= Seq::empty());
        assert(head + params_key(views.take(0)) =~= head);
        while i < n
            invariant
                n == items@.len(),
                views == pairs_view(items@),
                0 <= i <= n,
                out@ == head + params_key(views.take(i as int)),
            decreases n - i,
        {
            let ghost before = out@;
            let (name, value) = items[i];
            push_name_key(&mut out, &name);
            push_value_key(&mut out, &value);
            proof {
                lemma_params_key_push(views.take(i as int), views[i as int]);
                assert(views.take(i + 1) =~= views.take(i as int).push(views[i as int]));
                assert(out@ =~= head + (params_key(views.take(i as int)) + (name_key(name@)
                    + (value@).push(0xffu8))));
            }
            i += 1;
        }
        assert(views.take(n as int) =~= views);
        out
    }

    /// The media type as text.
    pub fn to_string(&self) -> (r: String)
        ensures
            encode_utf8(r@) == render(self@),
            valid_parts(self@),
    {
        let mut out = String::new();
        self.write_to(&mut out);
        assert(Seq::<u8>::empty() + render(self@) =~= render(self@));
        out
    }
}

/// Finds the last entry of `items` that is named `key`.
fn find_last<'a>(items: &[(Name<'a>, Value<'a>)], key: Name) -> (r: Option<usize>)
    ensures
        match r {
            Some(i) => i < items@.len() && lookup(pairs_view(items@), key@) == Some(
                items@[i as int].1@,
            ),
            None => lookup(pairs_view(items@), key@) is None,
        },
{
    let ghost views = pairs_view(items@);
    let mut i: usize = items.len();
    assert(views.take(i as int) =~= views);
    while i > 0
        invariant
            views == pairs_view(items@),
            0 <= i <= items@.len(),
            lookup(views, key@) == lookup(views.take(i as int), key@),
        decreases i,
    {
        i -= 1;
        proof {
            assert(views.take(i + 1).drop_last() =~= views.take(i as int));
            assert(views.take(i + 1).last() == views[i as int]);
        }
        if key == items[i].0 {
            return Some(i);
        }
    }
    None
}

/// Tells whether an entry of `items` is named `key`.
fn contains_key<'a>(items: &[(Name<'a>, Value<'a>)], key: Name) -> (r: bool)
    ensures
        r == has_key(pairs_view(items@), key@),
{
    proof {
        lemma_has_key(pairs_view(items@), key@);
    }
    find_last(items, key).is_some()
}

/// The entries of `items` that are not named `key`, in their order.
fn others<'a>(items: &[(Name<'a>, Value<'a>)], key: Name) -> (r: Vec<(Name<'a>, Value<'a>)>)
    ensures
        pairs_view(r@) == without(pairs_view(items@), key@),
{
    let ghost views = pairs_view(items@);
    let n: usize = items.len();
    let mut out: Vec<(Name<'a>, Value<'a>)> = Vec::new();
    let mut i: usize = 0;
    assert(pairs_view(out@) =~= without(views.take(0), key@));
    while i < n
        invariant
            n == items@.len(),
            views == pairs_view(items@),
            0 <= i <= n,
            pairs_view(out@) == without(views.take(i as int), key@),
        decreases n - i,
    {
        let item = items[i];
        proof {
            assert(views.take(i + 1).drop_last() =~= views.take(i as int));
            assert(views.take(i + 1).last() == views[i as int]);
        }
        if !(key == item.0) {
            proof {
                assert(pairs_view(out@.push(item)) =~= pairs_view(out@).push((item.0@, item.1@)));
            }
            out.push(item);
        }
        i += 1;
    }
    assert(views.take(n as int) =~= views);
    out
}

impl<'a> ReadParams for MediaType<'a> {
    open spec fn params_view(&self) -> Seq<(Seq<u8>, Seq<u8>)> {
        self@.params
    }

    fn params(&self) -> (r: Params<'_>)
        ensures
            r@ == self.stored(),
    {
        Params::from_slice(self.params.as_slice())
    }

    fn get_param(&self, key: Name) -> (r: Option<Value>) {
        let items = self.params.as_slice();
        match find_last(items, key) {
            Some(i) => Some(items[i].1),
            None => None,
        }
    }
}

impl<'a> WriteParams<'a> for MediaType<'a> {
    fn set_param<'k: 'a, 'v: 'a>(&mut self, key: Name<'k>, value: Value<'v>)
        ensures
            final(self)@.ty == old(self)@.ty,
            final(self)@.subty == old(self)@.subty,
            final(self)@.suffix == old(self)@.suffix,
            !final(self).is_borrowed(),
    {
        let mut kept = others(self.params.as_slice(), key);
        proof {
            assert(pairs_view(kept@.push((key, value))) =~= pairs_view(kept@).push((key@, value@)));
        }
        kept.push((key, value));
        self.params = Store::Owned(kept);
    }

    fn remove_params(&mut self, key: Name)
        ensures
            final(self)@.ty == old(self)@.ty,
            final(self)@.subty == old(self)@.subty,
            final(self)@.suffix == old(self)@.suffix,
            has_key(old(self).params_view(), key@) ==> !final(self).is_borrowed(),
    {
        if contains_key(self.params.as_slice(), key) {
            let kept = others(self.params.as_slice(), key);
            self.params = Store::Owned(kept);
        } else {
            proof {
                lemma_without_absent(self@.params, key@);
            }
        }
    }

    fn clear_params(&mut self)
        ensures
            final(self)@.ty == old(self)@.ty,
            final(self)@.subty == old(self)@.subty,
            final(self)@.suffix == old(self)@.suffix,
            old(self).params_view().len() > 0 ==> !final(self).is_borrowed(),
    {
        if self.params.as_slice().len() != 0 {
            self.params = Store::Owned(Vec::new());
            assert(self@.params =~= Seq::empty());
        }
    }
}

/// Orders two suffixes: none before any, and names in their order.
fn compare_suffix(a: Option<Name>, b: Option<Name>) -> (r: Ordering)
    ensures
        r == order_of(
            suffix_less(suffix_view(a), suffix_view(b)),
            suffix_eq(suffix_view(a), suffix_view(b)),
        ),
{
    match (a, b) {
        (None, None) => Ordering::Equal,
        (None, Some(_)) => Ordering::Less,
        (Some(_), None) => Ordering::Greater,
        (Some(x), Some(y)) => x.cmp(&y),
    }
}

/// Orders two lists of parameters by the first place at which they differ.
fn compare_params(a: &[(Name<'_>, Value<'_>)], b: &[(Name<'_>, Value<'_>)]) -> (r: Ordering)
    ensures
        r == order_of(
            params_less(pairs_view(a@), pairs_view(b@)),
            params_eq(pairs_view(a@), pairs_view(b@)),
        ),
{
    let n: usize = common_start(a, b);
    if n == b.len() {
        if n == a.len() {
            Ordering::Equal
        } else {
            Ordering::Greater
        }
    } else if n == a.len() {
        Ordering::Less
    } else {
        match a[n].0.cmp(&b[n].0) {
            Ordering::Less => Ordering::Less,
            Ordering::Greater => Ordering::Greater,
            Ordering::Equal => a[n].1.cmp(&b[n].1),
        }
    }
}

impl<'a> Clone for MediaType<'a> {
    /// A media type with the same parts. A list of parameters that was
    /// handed in is shared; a list of its own is copied.
    fn clone(&self) -> (r: Self)
        ensures
            r@ == self@,
            r.stored() == self.stored(),
            r.is_borrowed() == self.is_borrowed(),
    {
        let params = match &self.params {
            Store::Borrowed(items) => Store::Borrowed(*items),
            Store::Owned(items) => Store::Owned(slice_to_vec(items.as_slice())),
        };
        MediaType { ty: self.ty, subty: self.subty, suffix: self.suffix, params }
    }
}

impl<'a> PartialEq for MediaType<'a> {
    fn eq(&self, other: &Self) -> (r: bool) {
        let a = self.params.as_slice();
        let b = other.params.as_slice();
        let same_suffix = match (self.suffix, other.suffix) {
            (None, None) => true,
            (Some(x), Some(y)) => x == y,
            _ => false,
        };
        let n: usize = common_start(a, b);
        self.ty == other.ty && self.subty == other.subty && same_suffix && n == a.len() && n
            == b.len()
    }
}

impl<'a> Eq for MediaType<'a> {

}

impl<'a> vstd::std_specs::cmp::PartialEqSpecImpl for MediaType<'a> {
    open spec fn obeys_eq_spec() -> bool {
        true
    }

    open spec fn eq_spec(&self, other: &Self) -> bool {
        parts_eq(self@, other@)
    }
}

impl<'a> PartialOrd for MediaType<'a> {
    fn partial_cmp(&self, other: &Self) -> (r: Option<Ordering>) {
        Some(self.cmp(other))
    }
}

impl<'a> vstd::std_specs::cmp::PartialOrdSpecImpl for MediaType<'a> {
    open spec fn obeys_partial_cmp_spec() -> bool {
        true
    }

    open spec fn partial_cmp_spec(&self, other: &Self) -> Option<Ordering> {
        Some(order_of(parts_less(self@, other@), parts_eq(self@, other@)))
    }
}

} // verus!
