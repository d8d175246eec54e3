//! Names: the type, the subtype, the suffix and the name of a parameter.

use vstd::prelude::*;
use vstd::string::*;
use vstd::utf8::*;
use crate::bytes::{
    fold, fold_seq, is_name_start, is_restricted_name, lemma_name_run_end,
    lemma_name_run_end_unique, name_char, name_run_end, name_start, skip_name_chars, to_lower,
    MAX_NAME_LENGTH,
};
use crate::error::ValidationError;
use crate::order::{compare_folded, name_less, order_of};
use core::cmp::Ordering;

verus! {

/// The offset of the first byte of `s` that a name may not hold at that
/// offset, or the length of `s` if there is none.
pub open spec fn first_invalid(s: Seq<u8>) -> int {
    if s.len() > 0 && !name_start(s[0]) {
        0
    } else {
        name_run_end(s, 0)
    }
}

/// What keeps `s` from being a name, if anything does: that it is empty,
/// else that it is too long, else its first byte that is not allowed.
pub open spec fn name_defect(s: Seq<u8>) -> Option<ValidationError> {
    if s.len() == 0 {
        Some(ValidationError::Empty)
    } else if s.len() > MAX_NAME_LENGTH {
        Some(ValidationError::TooLong)
    } else if first_invalid(s) < s.len() {
        Some(ValidationError::InvalidChar(first_invalid(s) as usize))
    } else {
        None
    }
}

/// Two names are the same name when they differ in the case of letters only.
pub open spec fn name_eq(a: Seq<u8>, b: Seq<u8>) -> bool {
    fold_seq(a) == fold_seq(b)
}

/// The texts without a defect are the restricted names.
pub proof fn lemma_name_defect(s: Seq<u8>)
    ensures
        name_defect(s) is None <==> is_restricted_name(s),
        name_defect(s) matches Some(ValidationError::InvalidChar(i)) ==> i < s.len() && (i == 0
            || !name_char(s[i as int])),
{
    lemma_name_run_end(s, 0);
    let e = name_run_end(s, 0);
    assert(s.subrange(0, e) =~= s.take(e));
    if e == s.len() {
        assert(s.subrange(0, e) =~= s);
    } else {
        assert(!name_char(s[e]));
    }
    if is_restricted_name(s) {
        lemma_name_run_end_unique(s, 0, s.len() as int);
    }
}

/// A restricted name. It is compared without regard to the case of its
/// letters and written as it was given.
#[derive(Clone, Copy, Debug)]
pub struct Name<'a> {
    text: &'a str,
}

impl<'a> View for Name<'a> {
    type V = Seq<u8>;

    /// The bytes of the name, as given.
    closed spec fn view(&self) -> Seq<u8> {
        self.text.spec_bytes()
    }
}

impl<'a> Name<'a> {
    #[verifier::type_invariant]
    spec fn valid(self) -> bool {
        is_restricted_name(self.text.spec_bytes())
    }

    /// Makes a name of `s`, or says what keeps `s` from being one.
    pub fn new(s: &'a str) -> (r: Result<Name<'a>, ValidationError>)
        ensures
            match r {
                Ok(name) => name@ == s.spec_bytes() && is_restricted_name(s.spec_bytes()),
                Err(e) => name_defect(s.spec_bytes()) == Some(e),
            },
    {
        let bytes = s.as_bytes();
        proof {
            lemma_name_defect(bytes@);
        }
        match check_name(bytes) {
            Some(e) => Err(e),
            None => Ok(Name { text: s }),
        }
    }

    /// Makes a name of a text that is known to be one.
    pub(crate) fn new_unchecked(s: &'a str) -> (r: Name<'a>)
        requires
            is_restricted_name(s.spec_bytes()),
        ensures
            r@ == s.spec_bytes(),
    {
        Name { text: s }
    }

    /// The name as it was given.
    pub fn as_str(&self) -> (r: &'a str)
        ensures
            r.spec_bytes() == self@,
            is_restricted_name(self@),
    {
        proof {
            use_type_invariant(self);
        }
        self.text
    }

    /// The bytes of the name as it was given.
    pub fn as_bytes(&self) -> (r: &'a [u8])
        ensures
            r@ == self@,
            is_restricted_name(self@),
    {
        proof {
            use_type_invariant(self);
        }
        self.text.as_bytes()
    }

    /// Orders two names by their bytes, capital letters taken as small ones.
    pub fn cmp(&self, other: &Name) -> (r: Ordering)
        ensures
            r == order_of(name_less(self@, other@), name_eq(self@, other@)),
    {
        compare_folded(self.text.as_bytes(), other.text.as_bytes())
    }

    /// The name as text.
    pub fn to_string(&self) -> (r: String)
        ensures
            encode_utf8(r@) == self@,
    {
        self.text.to_owned()
    }
}

/// Looks for what keeps `s` from being a name.
pub fn check_name(s: &[u8]) -> (r: Option<ValidationError>)
    ensures
        r == name_defect(s@),
{
    let n: usize = s.len();
    if n == 0 {
        return Some(ValidationError::Empty);
    }
    if n > MAX_NAME_LENGTH {
        return Some(ValidationError::TooLong);
    }
    if !is_name_start(s[0]) {
        return Some(ValidationError::InvalidChar(0));
    }
    let end: usize = skip_name_chars(s, 0);
    if end < n {
        Some(ValidationError::InvalidChar(end))
    } else {
        None
    }
}

/// Tells whether two texts differ in the case of letters only.
pub fn eq_ignore_case(a: &[u8], b: &[u8]) -> (r: bool)
    ensures
        r == name_eq(a@, b@),
{
    if a.len() != b.len() {
        assert(fold_seq(a@).len() != fold_seq(b@).len());
        return false;
    }
    let n: usize = a.len();
    let mut i: usize = 0;
    while i < n
        invariant
            n == a@.len(),
            n == b@.len(),
            0 <= i <= n,
            forall|j: int| 0 <= j < i ==> fold(a@[j]) == fold(b@[j]),
        decreases n - i,
    {
        if to_lower(a[i]) != to_lower(b[i]) {
            assert(fold_seq(a@)[i as int] != fold_seq(b@)[i as int]);
            return false;
        }
        i += 1;
    }
    assert(fold_seq(a@) =~= fold_seq(b@));
    true
}

impl<'a> PartialEq for Name<'a> {
    fn eq(&self, other: &Self) -> (r: bool) {
        eq_ignore_case(self.text.as_bytes(), other.text.as_bytes())
    }
}

impl<'a> Eq for Name<'a> {

}

impl<'a> vstd::std_specs::cmp::PartialEqSpecImpl for Name<'a> {
    open spec fn obeys_eq_spec() -> bool {
        true
    }

    open spec fn eq_spec(&self, other: &Self) -> bool {
        name_eq(self@, other@)
    }
}

impl<'a> PartialOrd for Name<'a> {
    fn partial_cmp(&self, other: &Self) -> (r: Option<Ordering>) {
        Some(self.cmp(other))
    }
}

impl<'a> vstd::std_specs::cmp::PartialOrdSpecImpl for Name<'a> {
    open spec fn obeys_partial_cmp_spec() -> bool {
        true
    }

    open spec fn partial_cmp_spec(&self, other: &Self) -> Option<Ordering> {
        Some(order_of(name_less(self@, other@), name_eq(self@, other@)))
    }
}

} // verus!
