use vstd::prelude::*;
use vstd::std_specs::cmp::PartialEqSpec;

verus! {

/// `subword` occurs as a contiguous block of `word` starting at `start`.
pub open spec fn occurs_at<T>(word: Seq<T>, subword: Seq<T>, start: int) -> bool {
    &&& 0 <= start
    &&& start + subword.len() <= word.len()
    &&& word.subrange(start, start + subword.len()) == subword
}

/// `subword` is a contiguous block of `word` (the empty word is a block of every word).
pub open spec fn is_subword<T>(word: Seq<T>, subword: Seq<T>) -> bool {
    exists|start: int| occurs_at(word, subword, start)
}

/// Does `word[start..start + subword.len()]` equal `subword`?
fn matches_at<T: PartialEq>(word: &[T], subword: &[T], start: usize) -> (r: bool)
    requires
        vstd::laws_eq::obeys_concrete_eq::<T>(),
        start + subword@.len() <= word@.len(),
    ensures
        r == occurs_at(word@, subword@, start as int),
{
    proof {
        reveal(vstd::laws_eq::obeys_concrete_eq);
    }
    let wlen = word.len();
    let mut j: usize = 0;
    while j < subword.len()
        invariant
            vstd::laws_eq::obeys_concrete_eq::<T>(),
            T::obeys_eq_spec(),
            forall|x: T, y: T| (x.eq_spec(&y)) <==> (x == y),
            start + subword@.len() <= word@.len(),
            wlen == word@.len(),
            j <= subword@.len(),
            forall|k: int| 0 <= k < j ==> word@[start + k] == subword@[k],
        decreases subword@.len() - j,
    {
        if !(word[start + j] == subword[j]) {
            assert(word@.subrange(start as int, start + subword@.len())[j as int] != subword@[j as int]);
            return false;
        }
        j = j + 1;
    }
    assert(word@.subrange(start as int, start + subword@.len()) =~= subword@);
    true
}

/// Whether the nonempty `subword` appears as a contiguous block inside
/// `word`; a subword longer than the word never appears.
pub fn contains_subword<T: PartialEq>(word: &[T], subword: &[T]) -> (r: bool)
    requires
        vstd::laws_eq::obeys_concrete_eq::<T>(),
        subword@.len() > 0,
    ensures
        r == is_subword(word@, subword@),
{
    if subword.len() > word.len() {
        return false;
    }
    let last: usize = word.len() - subword.len();
    let mut i: usize = 0;
    while i <= last
        invariant_except_break
            i <= last,
        invariant
            vstd::laws_eq::obeys_concrete_eq::<T>(),
            last == word@.len() - subword@.len(),
            forall|k: int| 0 <= k < i ==> !occurs_at(word@, subword@, k),
        ensures
            forall|k: int| 0 <= k <= last ==> !occurs_at(word@, subword@, k),
        decreases last - i,
    {
        if matches_at(word, subword, i) {
            return true;
        }
        if i == last {
            break;
        }
        i = i + 1;
    }
    assert forall|k: int| !occurs_at(word@, subword@, k) by {
        if 0 <= k && k + subword@.len() <= word@.len() {
            assert(k <= last);
        }
    }
    false
}


/// Whether two words of labels are equal, label by label.
pub(crate) fn labels_equal(a: &[String], b: &[String]) -> (r: bool)
    ensures
        r == (a.deep_view() == b.deep_view()),
{
    if a.len() != b.len() {
        proof {
            if a.deep_view() == b.deep_view() {
                assert(a.deep_view().len() == b.deep_view().len());
            }
        }
        return false;
    }
    let mut j: usize = 0;
    while j < a.len()
        invariant
            a@.len() == b@.len(),
            j <= a@.len(),
            forall|k: int| 0 <= k < j ==> a.deep_view()[k] == b.deep_view()[k],
        decreases a@.len() - j,
    {
        if !(a[j] == b[j]) {
            assert(a.deep_view()[j as int] != b.deep_view()[j as int]);
            return false;
        }
        j = j + 1;
    }
    assert(a.deep_view() =~= b.deep_view());
    true
}

/// Whether the word of labels `subword` appears as a contiguous block of `word`.
pub(crate) fn labels_contain(word: &[String], subword: &[String]) -> (r: bool)
    ensures
        r == is_subword(word.deep_view(), subword.deep_view()),
{
    let ghost w = word.deep_view();
    let ghost s = subword.deep_view();
    if subword.len() > word.len() {
        proof {
            if is_subword(w, s) {
                let k = choose|k: int| occurs_at(w, s, k);
                assert(k + s.len() <= w.len());
            }
        }
        return false;
    }
    let wlen: usize = word.len();
    let last: usize = wlen - subword.len();
    let mut i: usize = 0;
    while i <= last
        invariant_except_break
            i <= last,
        invariant
            wlen == word@.len(),
            last == w.len() - s.len(),
            w == word.deep_view(),
            s == subword.deep_view(),
            forall|k: int| 0 <= k < i ==> !occurs_at(w, s, k),
        ensures
            forall|k: int| 0 <= k <= last ==> !occurs_at(w, s, k),
        decreases last - i,
    {
        let mut j: usize = 0;
        let mut all = true;
        while j < subword.len()
            invariant
                i <= last,
                wlen == word@.len(),
                last == w.len() - s.len(),
                w == word.deep_view(),
                s == subword.deep_view(),
                w.len() == word@.len(),
                s.len() == subword@.len(),
                j <= s.len(),
                all ==> forall|k: int| 0 <= k < j ==> w[i + k] == s[k],
                !all ==> !occurs_at(w, s, i as int),
            decreases s.len() - j,
        {
            if !(word[i + j] == subword[j]) {
                assert(w.subrange(i as int, i + s.len())[j as int] != s[j as int]);
                all = false;
            }
            j = j + 1;
        }
        if all {
            assert(w.subrange(i as int, i + s.len()) =~= s);
            assert(occurs_at(w, s, i as int));
            return true;
        }
        if i == last {
            break;
        }
        i = i + 1;
    }
    assert forall|k: int| !occurs_at(w, s, k) by {
        if 0 <= k && k + s.len() <= w.len() {
            assert(k <= last);
        }
    }
    false
}

} // verus!
