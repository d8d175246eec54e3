//! The bytes by which names, values and media types are hashed, chosen so
//! that what is equal is hashed alike.

use vstd::prelude::*;
use crate::bytes::{fold_seq, to_lower};
use crate::name::Name;
use crate::order::{lemma_params_eq_step, params_eq, parts_eq};
use crate::parse::Parts;
use crate::value::Value;

verus! {

/// The byte that ends the key of a name or of a value. No text that is
/// valid UTF-8 holds it.
pub const KEY_END: u8 = 0xff;

/// The key of a name: its bytes with capital letters made small, and the
/// end byte.
pub open spec fn name_key(name: Seq<u8>) -> Seq<u8> {
    fold_seq(name).push(KEY_END)
}

/// The key of a value: the bytes that it stands for, and the end byte.
pub open spec fn value_key(content: Seq<u8>) -> Seq<u8> {
    content.push(KEY_END)
}

/// The key of a suffix: 0 where there is none, else 1 and the key of the name.
pub open spec fn suffix_key(suffix: Option<Seq<u8>>) -> Seq<u8> {
    match suffix {
        Some(name) => seq![1u8] + name_key(name),
        None => seq![0u8],
    }
}

/// The key of a parameter: that of its name, then that of its value.
pub open spec fn param_key(param: (Seq<u8>, Seq<u8>)) -> Seq<u8> {
    name_key(param.0) + value_key(param.1)
}

/// The key of a list of parameters: the keys of its entries in their order.
pub open spec fn params_key(params: Seq<(Seq<u8>, Seq<u8>)>) -> Seq<u8>
    decreases params.len(),
{
    if params.len() == 0 {
        seq![]
    } else {
        param_key(params.first()) + params_key(params.drop_first())
    }
}

/// The key of a media type: the keys of the type, the subtype, the suffix
/// and the parameters.
pub open spec fn parts_key(parts: Parts) -> Seq<u8> {
    name_key(parts.ty) + name_key(parts.subty) + suffix_key(parts.suffix) + params_key(
        parts.params,
    )
}

/// The key of a list with one more entry is the key of the list, then that
/// of the entry.
pub proof fn lemma_params_key_push(params: Seq<(Seq<u8>, Seq<u8>)>, param: (Seq<u8>, Seq<u8>))
    ensures
        params_key(params.push(param)) == params_key(params) + param_key(param),
    decreases params.len(),
{
    let all = params.push(param);
    if params.len() == 0 {
        assert(all.drop_first() =~= Seq::empty());
        assert(params_key(all.drop_first()) =~= Seq::<u8>::empty());
        assert(params_key(all) =~= param_key(param));
        assert(params_key(params) + param_key(param) =~= param_key(param));
    } else {
        lemma_params_key_push(params.drop_first(), param);
        assert(all.drop_first() =~= params.drop_first().push(param));
        assert(params_key(all) =~= params_key(params) + param_key(param));
    }
}

/// Equal lists of parameters have the same key.
pub proof fn lemma_params_key_eq(a: Seq<(Seq<u8>, Seq<u8>)>, b: Seq<(Seq<u8>, Seq<u8>)>)
    requires
        params_eq(a, b),
    ensures
        params_key(a) == params_key(b),
    decreases a.len(),
{
    if a.len() > 0 {
        lemma_params_eq_step(a, b);
        assert(a.drop_first() =~= a.skip(1));
        assert(b.drop_first() =~= b.skip(1));
        lemma_params_key_eq(a.skip(1), b.skip(1));
    }
}

/// Hashing agrees with equality: equal media types have the same key.
pub proof fn lemma_key_eq(a: Parts, b: Parts)
    requires
        parts_eq(a, b),
    ensures
        parts_key(a) == parts_key(b),
{
    lemma_params_key_eq(a.params, b.params);
}

/// Writes the key of `name` at the end of `out`.
pub fn push_name_key(out: &mut Vec<u8>, name: &Name)
    ensures
        final(out)@ == old(out)@ + name_key(name@),
{
    let bytes = name.as_bytes();
    let n: usize = bytes.len();
    let ghost base = out@;
    let mut i: usize = 0;
    assert(out@ =~= base + fold_seq(bytes@).take(0));
    while i < n
        invariant
            n == bytes@.len(),
            0 <= i <= n,
            out@ == base + fold_seq(bytes@).take(i as int),
        decreases n - i,
    {
        out.push(to_lower(bytes[i]));
        assert(out@ =~= base + fold_seq(bytes@).take(i + 1));
        i += 1;
    }
    out.push(KEY_END);
    assert(fold_seq(bytes@).take(n as int) =~= fold_seq(bytes@));
    assert(out@ =~= base + name_key(name@));
}

/// Writes the key of `value` at the end of `out`.
pub fn push_value_key(out: &mut Vec<u8>, value: &Value)
    ensures
        final(out)@ == old(out)@ + value_key(value@),
{
    let mut content = value.content();
    content.push(KEY_END);
    out.append(&mut content);
}

} // verus!
