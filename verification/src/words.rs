//! Nonempty words of arrow labels, stored as `nonempty::NonEmpty<String>` and
//! seen through the sequence of their labels' text.
use crate::utils::{is_subword, labels_contain};
use nonempty::NonEmpty;
use vstd::prelude::*;

verus! {

#[verifier::external_type_specification]
#[verifier::external_body]
#[verifier::reject_recursive_types(T)]
pub struct ExNonEmpty<T>(NonEmpty<T>);

/// The labels of a nonempty word, first to last.
pub uninterp spec fn word_labels(w: NonEmpty<String>) -> Seq<Seq<char>>;

/// `NonEmpty::from_vec`: the word holding the labels of `v` in order, or
/// nothing when `v` is empty.
#[verifier::external_body]
pub(crate) fn word_from_vec(v: Vec<String>) -> (r: Option<NonEmpty<String>>)
    ensures
        r is None <==> v@.len() == 0,
        r matches Some(w) ==> word_labels(w) == v.deep_view(),
{
    NonEmpty::from_vec(v)
}

/// `NonEmpty::iter`, cloned into a vector: the labels of `w` in order (at least one).
#[verifier::external_body]
pub(crate) fn word_to_vec(w: &NonEmpty<String>) -> (r: Vec<String>)
    ensures
        r.deep_view() == word_labels(*w),
        r@.len() >= 1,
{
    w.iter().cloned().collect()
}

/// `NonEmpty::singleton`: the word of the one label `a`.
#[verifier::external_body]
pub(crate) fn word_singleton(a: String) -> (r: NonEmpty<String>)
    ensures
        word_labels(r) == seq![a@],
{
    NonEmpty::singleton(a)
}

/// `NonEmpty::clone`: a word with the same labels.
#[verifier::external_body]
pub(crate) fn word_clone(w: &NonEmpty<String>) -> (r: NonEmpty<String>)
    ensures
        word_labels(r) == word_labels(*w),
{
    w.clone()
}

/// `NonEmpty::eq` (derived, field by field): whether the two words have the same labels.
#[verifier::external_body]
pub(crate) fn word_eq(a: &NonEmpty<String>, b: &NonEmpty<String>) -> (r: bool)
    ensures
        r == (word_labels(*a) == word_labels(*b)),
{
    a == b
}

/// `NonEmpty::len`: the number of labels.
#[verifier::external_body]
pub(crate) fn word_len(w: &NonEmpty<String>) -> (r: usize)
    ensures
        r == word_labels(*w).len(),
        r >= 1,
{
    w.len()
}

/// `NonEmpty::first`: a copy of the first label.
#[verifier::external_body]
pub(crate) fn word_first(w: &NonEmpty<String>) -> (r: String)
    ensures
        r@ == word_labels(*w)[0],
{
    w.first().clone()
}

/// `NonEmpty::last`: a copy of the last label.
#[verifier::external_body]
pub(crate) fn word_last(w: &NonEmpty<String>) -> (r: String)
    ensures
        r@ == word_labels(*w).last(),
{
    w.last().clone()
}

/// Whether the labels `subword` appear as a contiguous block of the nonempty
/// word `word` (the empty subword appears in every word).
pub fn contains_subword_v2(word: &NonEmpty<String>, subword: &[String]) -> (r: bool)
    ensures
        r == is_subword(word_labels(*word), subword.deep_view()),
{
    let letters = word_to_vec(word);
    labels_contain(letters.as_slice(), subword)
}

} // verus!
