//! The parameters of a media type: an ordered list of names and values in
//! which a name may occur more than once, read with the last occurrence
//! winning and written with one entry left for a name.

use vstd::prelude::*;
use crate::name::{name_eq, Name};
use crate::order::{lemma_params_first_difference, pair_eq, pair_less, params_eq, params_less};
use crate::value::Value;

verus! {

/// A list of parameters by their bytes: each name as given, and what each
/// value stands for.
pub open spec fn pairs_view(items: Seq<(Name<'_>, Value<'_>)>) -> Seq<(Seq<u8>, Seq<u8>)> {
    Seq::new(items.len(), |i: int| (items[i].0@, items[i].1@))
}

/// The value read for `key`: that of the last entry whose name is `key`
/// but for the case of letters.
pub open spec fn lookup(params: Seq<(Seq<u8>, Seq<u8>)>, key: Seq<u8>) -> Option<Seq<u8>>
    decreases params.len(),
{
    if params.len() == 0 {
        None
    } else if name_eq(params.last().0, key) {
        Some(params.last().1)
    } else {
        lookup(params.drop_last(), key)
    }
}

/// Some entry has the name `key`, but for the case of letters.
pub open spec fn has_key(params: Seq<(Seq<u8>, Seq<u8>)>, key: Seq<u8>) -> bool {
    exists|i: int| 0 <= i < params.len() && name_eq(#[trigger] params[i].0, key)
}

/// The list without the entries whose name is `key` but for the case of
/// letters, the others in their order.
pub open spec fn without(params: Seq<(Seq<u8>, Seq<u8>)>, key: Seq<u8>) -> Seq<
    (Seq<u8>, Seq<u8>),
>
    decreases params.len(),
{
    if params.len() == 0 {
        params
    } else if name_eq(params.last().0, key) {
        without(params.drop_last(), key)
    } else {
        without(params.drop_last(), key).push(params.last())
    }
}

/// The parameters of a media type, in the order in which they are kept.
#[derive(Clone, Copy, Debug)]
pub struct Params<'p> {
    items: &'p [(Name<'p>, Value<'p>)],
}

impl<'p> View for Params<'p> {
    type V = Seq<(Name<'p>, Value<'p>)>;

    closed spec fn view(&self) -> Seq<(Name<'p>, Value<'p>)> {
        self.items@
    }
}

impl<'p> Params<'p> {
    /// The parameters that `items` holds.
    pub fn from_slice(items: &'p [(Name<'p>, Value<'p>)]) -> (r: Params<'p>)
        ensures
            r@ == items@,
    {
        Params { items }
    }

    /// How many parameters there are, each occurrence of a name counted.
    pub fn len(&self) -> (r: usize)
        ensures
            r == self@.len(),
    {
        self.items.len()
    }

    /// Tells whether there is no parameter.
    pub fn is_empty(&self) -> (r: bool)
        ensures
            r == (self@.len() == 0),
    {
        self.items.len() == 0
    }

    /// The parameter at `index`.
    pub fn get(&self, index: usize) -> (r: Option<(Name<'p>, Value<'p>)>)
        ensures
            r == if index < self@.len() {
                Some(self@[index as int])
            } else {
                None
            },
    {
        if index < self.items.len() {
            Some(self.items[index])
        } else {
            None
        }
    }

    /// All parameters, one after the other.
    pub fn as_slice(&self) -> (r: &'p [(Name<'p>, Value<'p>)])
        ensures
            r@ == self@,
    {
        self.items
    }
}

/// The number of entries at the start of `a` that equal, place by place,
/// those at the start of `b`.
pub fn common_start(a: &[(Name<'_>, Value<'_>)], b: &[(Name<'_>, Value<'_>)]) -> (n: usize)
    ensures
        n <= a@.len(),
        n <= b@.len(),
        params_eq(pairs_view(a@), pairs_view(b@)) == (n == a@.len() && n == b@.len()),
        params_less(pairs_view(a@), pairs_view(b@)) == (n < b@.len() && (n == a@.len()
            || pair_less(
            (a@[n as int].0@, a@[n as int].1@),
            (b@[n as int].0@, b@[n as int].1@),
        ))),
        n < a@.len() && n < b@.len() ==> !pair_eq(
            (a@[n as int].0@, a@[n as int].1@),
            (b@[n as int].0@, b@[n as int].1@),
        ),
{
    let ghost x = pairs_view(a@);
    let ghost y = pairs_view(b@);
    let mut i: usize = 0;
    while i < a.len() && i < b.len() && a[i].0 == b[i].0 && a[i].1 == b[i].1
        invariant
            x == pairs_view(a@),
            y == pairs_view(b@),
            0 <= i <= a@.len(),
            i <= b@.len(),
            forall|j: int| 0 <= j < i ==> pair_eq(#[trigger] x[j], y[j]),
        decreases a@.len() - i,
    {
        i += 1;
    }
    proof {
        lemma_params_first_difference(x, y, i as int);
    }
    i
}

/// Reading the parameters of a media type.
pub trait ReadParams {
    /// The parameters by their bytes, in the order in which they are kept.
    spec fn params_view(&self) -> Seq<(Seq<u8>, Seq<u8>)>;

    /// The parameters, in the order in which they are kept.
    fn params(&self) -> (r: Params<'_>)
        ensures
            pairs_view(r@) == self.params_view(),
    ;

    /// The value of the last parameter named `key`, if there is one.
    fn get_param(&self, key: Name) -> (r: Option<Value>)
        ensures
            match r {
                Some(value) => lookup(self.params_view(), key@) == Some(value@),
                None => lookup(self.params_view(), key@) is None,
            },
    ;
}

/// Changing the parameters of a media type.
pub trait WriteParams<'a>: ReadParams + Sized {
    /// Removes every parameter named `key` and puts `key` with `value` at the end.
    fn set_param<'k: 'a, 'v: 'a>(&mut self, key: Name<'k>, value: Value<'v>)
        ensures
            final(self).params_view() == with_param(old(self).params_view(), key@, value@),
    ;

    /// Removes every parameter named `key`. Where there is none, nothing changes.
    fn remove_params(&mut self, key: Name)
        ensures
            final(self).params_view() == without(old(self).params_view(), key@),
            !has_key(old(self).params_view(), key@) ==> *final(self) == *old(self),
    ;

    /// Removes every parameter. Where there is none, nothing changes.
    fn clear_params(&mut self)
        ensures
            final(self).params_view() == cleared(old(self).params_view()),
            old(self).params_view().len() == 0 ==> *final(self) == *old(self),
    ;
}

/// How often `key` names an entry, the case of letters put aside.
pub open spec fn count_key(params: Seq<(Seq<u8>, Seq<u8>)>, key: Seq<u8>) -> nat
    decreases params.len(),
{
    if params.len() == 0 {
        0
    } else if name_eq(params.last().0, key) {
        count_key(params.drop_last(), key) + 1
    } else {
        count_key(params.drop_last(), key)
    }
}

/// The list after `key` was set to `value`: no other entry named `key`
/// is left, and the new entry is the last.
pub open spec fn with_param(
    params: Seq<(Seq<u8>, Seq<u8>)>,
    key: Seq<u8>,
    value: Seq<u8>,
) -> Seq<(Seq<u8>, Seq<u8>)> {
    without(params, key).push((key, value))
}

/// The list after all parameters were removed.
pub open spec fn cleared(params: Seq<(Seq<u8>, Seq<u8>)>) -> Seq<(Seq<u8>, Seq<u8>)> {
    Seq::empty()
}

/// A name is found exactly when it names an entry, and as often as it does.
pub proof fn lemma_has_key(params: Seq<(Seq<u8>, Seq<u8>)>, key: Seq<u8>)
    ensures
        has_key(params, key) <==> lookup(params, key) is Some,
        has_key(params, key) <==> count_key(params, key) > 0,
    decreases params.len(),
{
    if params.len() > 0 {
        let rest = params.drop_last();
        lemma_has_key(rest, key);
        if name_eq(params.last().0, key) {
            assert(name_eq(params[params.len() - 1].0, key));
        } else if has_key(params, key) {
            let i = choose|i: int| 0 <= i < params.len() && name_eq(#[trigger] params[i].0, key);
            assert(name_eq(rest[i].0, key));
        } else if has_key(rest, key) {
            let i = choose|i: int| 0 <= i < rest.len() && name_eq(#[trigger] rest[i].0, key);
            assert(name_eq(params[i].0, key));
        }
    }
}

/// Removing a name removes every entry that it names, whatever the case of
/// its letters, and nothing is then read for it.
pub proof fn lemma_without(params: Seq<(Seq<u8>, Seq<u8>)>, key: Seq<u8>)
    ensures
        !has_key(without(params, key), key),
        count_key(without(params, key), key) == 0,
        lookup(without(params, key), key) is None,
        without(params, key).len() + count_key(params, key) == params.len(),
    decreases params.len(),
{
    if params.len() > 0 {
        let rest = params.drop_last();
        lemma_without(rest, key);
        if !name_eq(params.last().0, key) {
            assert(without(params, key).drop_last() =~= without(rest, key));
        }
    }
    lemma_has_key(without(params, key), key);
}

/// Removing a name that names no entry changes nothing.
pub proof fn lemma_without_absent(params: Seq<(Seq<u8>, Seq<u8>)>, key: Seq<u8>)
    requires
        !has_key(params, key),
    ensures
        without(params, key) == params,
    decreases params.len(),
{
    if params.len() > 0 {
        let rest = params.drop_last();
        assert(!name_eq(params[params.len() - 1].0, key));
        if has_key(rest, key) {
            let i = choose|i: int| 0 <= i < rest.len() && name_eq(#[trigger] rest[i].0, key);
            assert(name_eq(params[i].0, key));
        }
        lemma_without_absent(rest, key);
        assert(rest.push(params.last()) =~= params);
    }
}

/// Removing a name leaves the other entries as they were, in their order:
/// what is left of two lists in a row is what is left of each, in a row.
pub proof fn lemma_without_concat(
    a: Seq<(Seq<u8>, Seq<u8>)>,
    b: Seq<(Seq<u8>, Seq<u8>)>,
    key: Seq<u8>,
)
    ensures
        without(a + b, key) == without(a, key) + without(b, key),
    decreases b.len(),
{
    if b.len() == 0 {
        assert(a + b =~= a);
        assert(without(a, key) + without(b, key) =~= without(a, key));
    } else {
        lemma_without_concat(a, b.drop_last(), key);
        assert((a + b).drop_last() =~= a + b.drop_last());
        assert((a + b).last() == b.last());
        if !name_eq(b.last().0, key) {
            assert((without(a, key) + without(b.drop_last(), key)).push(b.last()) =~= without(
                a,
                key,
            ) + without(b.drop_last(), key).push(b.last()));
        }
    }
}

/// Removing one name changes what is read for no other name.
pub proof fn lemma_without_other(params: Seq<(Seq<u8>, Seq<u8>)>, key: Seq<u8>, other: Seq<u8>)
    requires
        !name_eq(key, other),
    ensures
        lookup(without(params, key), other) == lookup(params, other),
    decreases params.len(),
{
    if params.len() > 0 {
        let rest = params.drop_last();
        lemma_without_other(rest, key, other);
        if !name_eq(params.last().0, key) {
            assert(without(params, key).drop_last() =~= without(rest, key));
        }
    }
}

/// A value that was set is the value that is read, under the name in any case.
pub proof fn lemma_set_then_get(
    params: Seq<(Seq<u8>, Seq<u8>)>,
    key: Seq<u8>,
    value: Seq<u8>,
    asked: Seq<u8>,
)
    requires
        name_eq(key, asked),
    ensures
        lookup(with_param(params, key, value), asked) == Some(value),
{
    let after = with_param(params, key, value);
    assert(after.last() == (key, value));
}

/// Setting a name leaves one entry for it: the last one, with the value
/// that was set. The entries under other names stay as they were, in their order.
pub proof fn lemma_set_once(params: Seq<(Seq<u8>, Seq<u8>)>, key: Seq<u8>, value: Seq<u8>)
    ensures
        count_key(with_param(params, key, value), key) == 1,
        with_param(params, key, value).last() == (key, value),
        with_param(params, key, value).drop_last() == without(params, key),
{
    let kept = without(params, key);
    lemma_without(params, key);
    assert(kept.push((key, value)).drop_last() =~= kept);
}

/// Setting a name that has just been set replaces the value and nothing
/// else: one entry is left for the name, it is the last one, and it holds
/// the latest value.
pub proof fn lemma_set_twice(
    params: Seq<(Seq<u8>, Seq<u8>)>,
    key: Seq<u8>,
    first: Seq<u8>,
    again: Seq<u8>,
    second: Seq<u8>,
)
    requires
        name_eq(key, again),
    ensures
        with_param(with_param(params, key, first), again, second) == without(params, key).push(
            (again, second),
        ),
        count_key(with_param(with_param(params, key, first), again, second), again) == 1,
        lookup(with_param(with_param(params, key, first), again, second), again) == Some(second),
{
    let kept = without(params, key);
    let once = kept.push((key, first));
    lemma_without(params, key);
    assert(once.drop_last() =~= kept);
    assert(once.last() == (key, first));
    if has_key(kept, again) {
        let i = choose|i: int| 0 <= i < kept.len() && name_eq(#[trigger] kept[i].0, again);
        assert(name_eq(kept[i].0, key));
    }
    lemma_without_absent(kept, again);
    lemma_set_once(once, again, second);
    lemma_set_then_get(once, again, second, again);
}

/// Removing all parameters twice is removing them once.
pub proof fn lemma_clear_twice(params: Seq<(Seq<u8>, Seq<u8>)>)
    ensures
        cleared(cleared(params)) == cleared(params),
        cleared(params).len() == 0,
{
}

} // verus!
