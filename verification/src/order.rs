//! The order of byte texts, of names and of lists of parameters.

use vstd::prelude::*;
use crate::bytes::{fold, fold_seq, to_lower};
use crate::name::name_eq;
use crate::parse::Parts;
use core::cmp::Ordering;

verus! {

/// `a` comes before `b` byte by byte: at the first offset where they differ
/// `a` has the smaller byte, or `a` ends there and `b` does not.
pub open spec fn lex_less(a: Seq<u8>, b: Seq<u8>) -> bool
    decreases a.len(),
{
    if b.len() == 0 {
        false
    } else if a.len() == 0 {
        true
    } else if a[0] != b[0] {
        a[0] < b[0]
    } else {
        lex_less(a.skip(1), b.skip(1))
    }
}

/// The name `a` comes before the name `b`, capital letters taken as small ones.
pub open spec fn name_less(a: Seq<u8>, b: Seq<u8>) -> bool {
    lex_less(fold_seq(a), fold_seq(b))
}

/// Two parameters are equal: the names but for the case of letters, and
/// what the values stand for byte for byte.
pub open spec fn pair_eq(p: (Seq<u8>, Seq<u8>), q: (Seq<u8>, Seq<u8>)) -> bool {
    name_eq(p.0, q.0) && p.1 == q.1
}

/// The parameter `p` comes before `q`: by the name, and under one name by the value.
pub open spec fn pair_less(p: (Seq<u8>, Seq<u8>), q: (Seq<u8>, Seq<u8>)) -> bool {
    name_less(p.0, q.0) || (name_eq(p.0, q.0) && lex_less(p.1, q.1))
}

/// Two lists of parameters are equal: as many entries, and equal ones at
/// each place.
pub open spec fn params_eq(a: Seq<(Seq<u8>, Seq<u8>)>, b: Seq<(Seq<u8>, Seq<u8>)>) -> bool {
    a.len() == b.len() && forall|i: int| 0 <= i < a.len() ==> pair_eq(#[trigger] a[i], b[i])
}

/// The list `a` comes before `b`: at the first place where they differ `a`
/// has the entry that comes first, or `a` ends there and `b` does not.
pub open spec fn params_less(a: Seq<(Seq<u8>, Seq<u8>)>, b: Seq<(Seq<u8>, Seq<u8>)>) -> bool
    decreases a.len(),
{
    if b.len() == 0 {
        false
    } else if a.len() == 0 {
        true
    } else if !pair_eq(a[0], b[0]) {
        pair_less(a[0], b[0])
    } else {
        params_less(a.skip(1), b.skip(1))
    }
}

/// Two suffixes are equal: both absent, or the same name.
pub open spec fn suffix_eq(a: Option<Seq<u8>>, b: Option<Seq<u8>>) -> bool {
    match (a, b) {
        (None, None) => true,
        (Some(x), Some(y)) => name_eq(x, y),
        _ => false,
    }
}

/// The suffix `a` comes before `b`: no suffix before any, and names in their order.
pub open spec fn suffix_less(a: Option<Seq<u8>>, b: Option<Seq<u8>>) -> bool {
    match (a, b) {
        (None, Some(_)) => true,
        (Some(x), Some(y)) => name_less(x, y),
        _ => false,
    }
}

/// Two media types are equal: type, subtype and suffix but for the case of
/// letters, and equal parameters in the same order.
pub open spec fn parts_eq(a: Parts, b: Parts) -> bool {
    &&& name_eq(a.ty, b.ty)
    &&& name_eq(a.subty, b.subty)
    &&& suffix_eq(a.suffix, b.suffix)
    &&& params_eq(a.params, b.params)
}

/// The media type `a` comes before `b`: by the type, then the subtype, then
/// the suffix, then the parameters.
pub open spec fn parts_less(a: Parts, b: Parts) -> bool {
    if !name_eq(a.ty, b.ty) {
        name_less(a.ty, b.ty)
    } else if !name_eq(a.subty, b.subty) {
        name_less(a.subty, b.subty)
    } else if !suffix_eq(a.suffix, b.suffix) {
        suffix_less(a.suffix, b.suffix)
    } else {
        params_less(a.params, b.params)
    }
}

/// The result of a comparison in which the left side is less, or equal, or neither.
pub open spec fn order_of(less: bool, equal: bool) -> Ordering {
    if less {
        Ordering::Less
    } else if equal {
        Ordering::Equal
    } else {
        Ordering::Greater
    }
}

/// Equality of media types is an equivalence: each equals itself, and what
/// equals a third equals what the third equals, in either direction.
pub proof fn lemma_parts_eq_equivalence(a: Parts, b: Parts, c: Parts)
    ensures
        parts_eq(a, a),
        parts_eq(a, b) ==> parts_eq(b, a),
        parts_eq(a, b) && parts_eq(b, c) ==> parts_eq(a, c),
{
    if parts_eq(a, b) {
        assert forall|i: int| 0 <= i < b.params.len() implies pair_eq(
            #[trigger] b.params[i],
            a.params[i],
        ) by {
            assert(pair_eq(a.params[i], b.params[i]));
        }
        if parts_eq(b, c) {
            assert forall|i: int| 0 <= i < a.params.len() implies pair_eq(
                #[trigger] a.params[i],
                c.params[i],
            ) by {
                assert(pair_eq(a.params[i], b.params[i]));
                assert(pair_eq(b.params[i], c.params[i]));
            }
        }
    }
}

/// Names that differ in the case of letters only are the same name, so
/// media types that differ in the case of the letters of their names only
/// are equal.
pub proof fn lemma_parts_eq_ignores_case(a: Parts, b: Parts)
    requires
        fold_seq(a.ty) == fold_seq(b.ty),
        fold_seq(a.subty) == fold_seq(b.subty),
        match (a.suffix, b.suffix) {
            (Some(x), Some(y)) => fold_seq(x) == fold_seq(y),
            (None, None) => true,
            _ => false,
        },
        a.params.len() == b.params.len(),
        forall|i: int|
            0 <= i < a.params.len() ==> fold_seq((#[trigger] a.params[i]).0) == fold_seq(
                b.params[i].0,
            ) && a.params[i].1 == b.params[i].1,
    ensures
        parts_eq(a, b),
{
}

/// No text comes before itself.
pub proof fn lemma_lex_irreflexive(a: Seq<u8>)
    ensures
        !lex_less(a, a),
    decreases a.len(),
{
    if a.len() > 0 {
        lemma_lex_irreflexive(a.skip(1));
    }
}

/// Of two texts one comes before the other, or they are the same text, and
/// only one of the three holds.
pub proof fn lemma_lex_total(a: Seq<u8>, b: Seq<u8>)
    ensures
        lex_less(a, b) || a == b || lex_less(b, a),
        !(lex_less(a, b) && lex_less(b, a)),
        !(lex_less(a, b) && a == b),
    decreases a.len(),
{
    lemma_lex_irreflexive(a);
    if a.len() == 0 || b.len() == 0 {
        if a.len() == 0 && b.len() == 0 {
            assert(a =~= b);
        }
    } else if a[0] == b[0] {
        lemma_lex_total(a.skip(1), b.skip(1));
        if a.skip(1) == b.skip(1) {
            assert(a =~= seq![a[0]] + a.skip(1));
            assert(b =~= seq![b[0]] + b.skip(1));
        }
    }
}

/// What comes before a text comes before all that the text comes before.
pub proof fn lemma_lex_transitive(a: Seq<u8>, b: Seq<u8>, c: Seq<u8>)
    requires
        lex_less(a, b),
        lex_less(b, c),
    ensures
        lex_less(a, c),
    decreases a.len(),
{
    if a.len() > 0 && a[0] == b[0] && b[0] == c[0] {
        lemma_lex_transitive(a.skip(1), b.skip(1), c.skip(1));
    }
}

/// Of two parameters one comes before the other, or they are equal, and
/// only one of the three holds.
pub proof fn lemma_pair_total(p: (Seq<u8>, Seq<u8>), q: (Seq<u8>, Seq<u8>))
    ensures
        pair_less(p, q) || pair_eq(p, q) || pair_less(q, p),
        !(pair_less(p, q) && pair_less(q, p)),
        !(pair_less(p, q) && pair_eq(p, q)),
        pair_eq(p, q) == pair_eq(q, p),
{
    lemma_lex_total(fold_seq(p.0), fold_seq(q.0));
    lemma_lex_total(p.1, q.1);
}

/// The order of parameters is transitive, and equal parameters stand in it
/// for each other.
pub proof fn lemma_pair_transitive(
    p: (Seq<u8>, Seq<u8>),
    q: (Seq<u8>, Seq<u8>),
    r: (Seq<u8>, Seq<u8>),
)
    ensures
        pair_less(p, q) && pair_less(q, r) ==> pair_less(p, r),
        pair_eq(p, q) && pair_less(q, r) ==> pair_less(p, r),
        pair_less(p, q) && pair_eq(q, r) ==> pair_less(p, r),
        pair_eq(p, q) && pair_eq(q, r) ==> pair_eq(p, r),
{
    lemma_lex_total(fold_seq(p.0), fold_seq(q.0));
    lemma_lex_total(fold_seq(q.0), fold_seq(r.0));
    if name_less(p.0, q.0) && name_less(q.0, r.0) {
        lemma_lex_transitive(fold_seq(p.0), fold_seq(q.0), fold_seq(r.0));
    }
    if lex_less(p.1, q.1) && lex_less(q.1, r.1) {
        lemma_lex_transitive(p.1, q.1, r.1);
    }
}

/// Two lists that are not empty are equal when their first entries are and
/// the rest is.
pub proof fn lemma_params_eq_step(a: Seq<(Seq<u8>, Seq<u8>)>, b: Seq<(Seq<u8>, Seq<u8>)>)
    requires
        a.len() > 0,
        b.len() > 0,
    ensures
        params_eq(a, b) == (pair_eq(a[0], b[0]) && params_eq(a.skip(1), b.skip(1))),
{
    let x = a.skip(1);
    let y = b.skip(1);
    if params_eq(a, b) {
        assert(pair_eq(a[0], b[0]));
        assert forall|i: int| 0 <= i < x.len() implies pair_eq(#[trigger] x[i], y[i]) by {
            assert(pair_eq(a[i + 1], b[i + 1]));
        }
    }
    if pair_eq(a[0], b[0]) && params_eq(x, y) {
        assert forall|i: int| 0 <= i < a.len() implies pair_eq(#[trigger] a[i], b[i]) by {
            if i > 0 {
                assert(pair_eq(x[i - 1], y[i - 1]));
            }
        }
    }
}

/// Of two lists of parameters one comes before the other, or they are
/// equal, and only one of the three holds.
pub proof fn lemma_params_total(a: Seq<(Seq<u8>, Seq<u8>)>, b: Seq<(Seq<u8>, Seq<u8>)>)
    ensures
        params_less(a, b) || params_eq(a, b) || params_less(b, a),
        !(params_less(a, b) && params_less(b, a)),
        !(params_less(a, b) && params_eq(a, b)),
        params_eq(a, b) == params_eq(b, a),
    decreases a.len(),
{
    if a.len() > 0 && b.len() > 0 {
        lemma_pair_total(a[0], b[0]);
        lemma_params_eq_step(a, b);
        lemma_params_eq_step(b, a);
        lemma_params_total(a.skip(1), b.skip(1));
    }
}

/// The order of lists of parameters is transitive, and equal lists stand
/// in it for each other.
pub proof fn lemma_params_transitive(
    a: Seq<(Seq<u8>, Seq<u8>)>,
    b: Seq<(Seq<u8>, Seq<u8>)>,
    c: Seq<(Seq<u8>, Seq<u8>)>,
)
    ensures
        params_less(a, b) && params_less(b, c) ==> params_less(a, c),
        params_eq(a, b) && params_less(b, c) ==> params_less(a, c),
        params_less(a, b) && params_eq(b, c) ==> params_less(a, c),
        params_eq(a, b) && params_eq(b, c) ==> params_eq(a, c),
    decreases a.len(),
{
    if a.len() > 0 && b.len() > 0 && c.len() > 0 {
        lemma_pair_total(a[0], b[0]);
        lemma_pair_total(b[0], c[0]);
        lemma_pair_total(a[0], c[0]);
        lemma_pair_transitive(a[0], b[0], c[0]);
        lemma_params_eq_step(a, b);
        lemma_params_eq_step(b, c);
        lemma_params_eq_step(a, c);
        lemma_params_transitive(a.skip(1), b.skip(1), c.skip(1));
    }
}

/// The order of media types is total: of two media types one comes before
/// the other, or they are equal, and only one of the three holds.
pub proof fn lemma_parts_total(a: Parts, b: Parts)
    ensures
        parts_less(a, b) || parts_eq(a, b) || parts_less(b, a),
        !(parts_less(a, b) && parts_less(b, a)),
        !(parts_less(a, b) && parts_eq(a, b)),
{
    lemma_lex_total(fold_seq(a.ty), fold_seq(b.ty));
    lemma_lex_total(fold_seq(a.subty), fold_seq(b.subty));
    if let (Some(x), Some(y)) = (a.suffix, b.suffix) {
        lemma_lex_total(fold_seq(x), fold_seq(y));
    }
    lemma_params_total(a.params, b.params);
}

/// The order of media types is transitive, and equal media types stand in
/// it for each other.
pub proof fn lemma_parts_transitive(a: Parts, b: Parts, c: Parts)
    ensures
        parts_less(a, b) && parts_less(b, c) ==> parts_less(a, c),
        parts_eq(a, b) && parts_less(b, c) ==> parts_less(a, c),
        parts_less(a, b) && parts_eq(b, c) ==> parts_less(a, c),
{
    lemma_name_order(a.ty, b.ty, c.ty);
    lemma_name_order(a.subty, b.subty, c.subty);
    if let (Some(x), Some(y), Some(z)) = (a.suffix, b.suffix, c.suffix) {
        lemma_name_order(x, y, z);
    }
    lemma_params_total(a.params, b.params);
    lemma_params_total(b.params, c.params);
    lemma_params_total(a.params, c.params);
    lemma_params_transitive(a.params, b.params, c.params);
}

/// The order of names is total and transitive.
pub proof fn lemma_name_order(a: Seq<u8>, b: Seq<u8>, c: Seq<u8>)
    ensures
        name_less(a, b) || name_eq(a, b) || name_less(b, a),
        !(name_less(a, b) && name_less(b, a)),
        !(name_less(a, b) && name_eq(a, b)),
        name_less(a, b) && name_less(b, c) ==> name_less(a, c),
{
    lemma_lex_total(fold_seq(a), fold_seq(b));
    if name_less(a, b) && name_less(b, c) {
        lemma_lex_transitive(fold_seq(a), fold_seq(b), fold_seq(c));
    }
}

/// Two texts with a common start are ordered as what follows it.
pub proof fn lemma_lex_skip(a: Seq<u8>, b: Seq<u8>, n: int)
    requires
        0 <= n <= a.len(),
        n <= b.len(),
        forall|j: int| 0 <= j < n ==> a[j] == b[j],
    ensures
        lex_less(a, b) == lex_less(a.skip(n), b.skip(n)),
    decreases n,
{
    if n == 0 {
        assert(a.skip(0) =~= a);
        assert(b.skip(0) =~= b);
    } else {
        assert(a[0] == b[0]);
        let x = a.skip(1);
        let y = b.skip(1);
        assert forall|j: int| 0 <= j < n - 1 implies x[j] == y[j] by {
            assert(a[j + 1] == b[j + 1]);
        }
        lemma_lex_skip(x, y, n - 1);
        assert(x.skip(n - 1) =~= a.skip(n));
        assert(y.skip(n - 1) =~= b.skip(n));
    }
}

/// Two texts are ordered by the first offset at which they differ.
pub proof fn lemma_lex_first_difference(a: Seq<u8>, b: Seq<u8>, n: int)
    requires
        0 <= n <= a.len(),
        n <= b.len(),
        forall|j: int| 0 <= j < n ==> a[j] == b[j],
        n < a.len() && n < b.len() ==> a[n] != b[n],
    ensures
        lex_less(a, b) == (n < b.len() && (n == a.len() || a[n] < b[n])),
        (a == b) == (n == a.len() && n == b.len()),
{
    lemma_lex_skip(a, b, n);
    if n == a.len() && n == b.len() {
        assert(a =~= b);
    }
}

/// Two lists with a common start are ordered as what follows it.
pub proof fn lemma_params_skip(
    a: Seq<(Seq<u8>, Seq<u8>)>,
    b: Seq<(Seq<u8>, Seq<u8>)>,
    n: int,
)
    requires
        0 <= n <= a.len(),
        n <= b.len(),
        forall|j: int| 0 <= j < n ==> pair_eq(#[trigger] a[j], b[j]),
    ensures
        params_less(a, b) == params_less(a.skip(n), b.skip(n)),
    decreases n,
{
    if n == 0 {
        assert(a.skip(0) =~= a);
        assert(b.skip(0) =~= b);
    } else {
        assert(pair_eq(a[0], b[0]));
        let x = a.skip(1);
        let y = b.skip(1);
        assert forall|j: int| 0 <= j < n - 1 implies pair_eq(#[trigger] x[j], y[j]) by {
            assert(pair_eq(a[j + 1], b[j + 1]));
        }
        lemma_params_skip(x, y, n - 1);
        assert(x.skip(n - 1) =~= a.skip(n));
        assert(y.skip(n - 1) =~= b.skip(n));
    }
}

/// Two lists are ordered by the first place at which they differ.
pub proof fn lemma_params_first_difference(
    a: Seq<(Seq<u8>, Seq<u8>)>,
    b: Seq<(Seq<u8>, Seq<u8>)>,
    n: int,
)
    requires
        0 <= n <= a.len(),
        n <= b.len(),
        forall|j: int| 0 <= j < n ==> pair_eq(#[trigger] a[j], b[j]),
        n < a.len() && n < b.len() ==> !pair_eq(a[n], b[n]),
    ensures
        params_less(a, b) == (n < b.len() && (n == a.len() || pair_less(a[n], b[n]))),
        params_eq(a, b) == (n == a.len() && n == b.len()),
{
    lemma_params_skip(a, b, n);
    if n < a.len() && n < b.len() {
        assert(a.skip(n)[0] == a[n]);
        assert(b.skip(n)[0] == b[n]);
    }
}

/// The length of the longest common start of `a` and `b`.
pub fn common_prefix(a: &[u8], b: &[u8]) -> (n: usize)
    ensures
        n <= a@.len(),
        n <= b@.len(),
        (a@ == b@) == (n == a@.len() && n == b@.len()),
        lex_less(a@, b@) == (n < b@.len() && (n == a@.len() || a@[n as int] < b@[n as int])),
{
    let mut i: usize = 0;
    while i < a.len() && i < b.len() && a[i] == b[i]
        invariant
            0 <= i <= a@.len(),
            i <= b@.len(),
            forall|j: int| 0 <= j < i ==> a@[j] == b@[j],
        decreases a@.len() - i,
    {
        i += 1;
    }
    proof {
        lemma_lex_first_difference(a@, b@, i as int);
    }
    i
}

/// The length of the longest start of `a` and `b` that differs in the case
/// of letters only.
pub fn common_prefix_folded(a: &[u8], b: &[u8]) -> (n: usize)
    ensures
        n <= a@.len(),
        n <= b@.len(),
        (fold_seq(a@) == fold_seq(b@)) == (n == a@.len() && n == b@.len()),
        lex_less(fold_seq(a@), fold_seq(b@)) == (n < b@.len() && (n == a@.len() || fold(
            a@[n as int],
        ) < fold(b@[n as int]))),
{
    let mut i: usize = 0;
    while i < a.len() && i < b.len() && to_lower(a[i]) == to_lower(b[i])
        invariant
            0 <= i <= a@.len(),
            i <= b@.len(),
            forall|j: int| 0 <= j < i ==> fold(a@[j]) == fold(b@[j]),
        decreases a@.len() - i,
    {
        i += 1;
    }
    proof {
        lemma_lex_first_difference(fold_seq(a@), fold_seq(b@), i as int);
    }
    i
}

/// Orders two texts byte by byte.
pub fn compare_bytes(a: &[u8], b: &[u8]) -> (r: Ordering)
    ensures
        r == order_of(lex_less(a@, b@), a@ == b@),
{
    let n: usize = common_prefix(a, b);
    if n == b.len() {
        if n == a.len() {
            Ordering::Equal
        } else {
            Ordering::Greater
        }
    } else if n == a.len() || a[n] < b[n] {
        Ordering::Less
    } else {
        Ordering::Greater
    }
}

/// Orders two texts byte by byte, capital letters taken as small ones.
pub fn compare_folded(a: &[u8], b: &[u8]) -> (r: Ordering)
    ensures
        r == order_of(lex_less(fold_seq(a@), fold_seq(b@)), fold_seq(a@) == fold_seq(b@)),
{
    let n: usize = common_prefix_folded(a, b);
    if n == b.len() {
        if n == a.len() {
            Ordering::Equal
        } else {
            Ordering::Greater
        }
    } else if n == a.len() || to_lower(a[n]) < to_lower(b[n]) {
        Ordering::Less
    } else {
        Ordering::Greater
    }
}

} // verus!
