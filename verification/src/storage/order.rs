//! Sequences kept in ascending order under a total order, and where a new
//! element goes.

use vstd::prelude::*;
use vstd::relations::{sorted_by, total_ordering};
use vstd::seq_lib::{lemma_multiset_commutative, to_multiset_insert};

verus! {

/// The position a scan from the front gives `e`: the first position holding
/// an element that does not come at or before `e`, or the length if there is
/// none.
pub open spec fn insertion_point<T>(s: Seq<T>, e: T, leq: spec_fn(T, T) -> bool) -> int
    decreases s.len(),
{
    if s.len() == 0 || !leq(s[0], e) {
        0
    } else {
        1 + insertion_point(s.drop_first(), e, leq)
    }
}

/// `e` may stand at position `p` as far as its two neighbours are concerned.
pub open spec fn fits_at<T>(s: Seq<T>, e: T, p: int, leq: spec_fn(T, T) -> bool) -> bool {
    &&& 0 <= p <= s.len()
    &&& p > 0 ==> leq(s[p - 1], e)
    &&& p < s.len() ==> !leq(s[p], e)
}

/// The strict part of `leq`.
pub open spec fn strict_part<T>(leq: spec_fn(T, T) -> bool) -> spec_fn(T, T) -> bool {
    |a: T, b: T| leq(a, b) && a != b
}

/// Everything before the insertion point comes at or before `e`; the element
/// at the insertion point does not.
pub proof fn lemma_insertion_point<T>(s: Seq<T>, e: T, leq: spec_fn(T, T) -> bool)
    ensures
        0 <= insertion_point(s, e, leq) <= s.len(),
        forall|i: int| 0 <= i < insertion_point(s, e, leq) ==> leq(#[trigger] s[i], e),
        insertion_point(s, e, leq) < s.len() ==> !leq(s[insertion_point(s, e, leq)], e),
    decreases s.len(),
{
    if s.len() == 0 || !leq(s[0], e) {
    } else {
        let t = s.drop_first();
        lemma_insertion_point(t, e, leq);
        let p = insertion_point(t, e, leq);
        assert forall|i: int| 0 <= i < p + 1 implies leq(#[trigger] s[i], e) by {
            if i > 0 {
                assert(s[i] == t[i - 1]);
            }
        }
        if p < t.len() {
            assert(s[p + 1] == t[p]);
        }
    }
}

/// In an ascending sequence only the insertion point fits `e` between its
/// neighbours.
pub proof fn lemma_fit_is_insertion_point<T>(s: Seq<T>, e: T, p: int, leq: spec_fn(T, T) -> bool)
    requires
        total_ordering(leq),
        sorted_by(s, leq),
        fits_at(s, e, p, leq),
    ensures
        p == insertion_point(s, e, leq),
{
    lemma_insertion_point(s, e, leq);
    let q = insertion_point(s, e, leq);
    if q < p {
        // s[q] comes after e, yet s[q] <= s[p - 1] <= e
        if q < p - 1 {
            assert(leq(s[q], s[p - 1]));
        }
        assert(leq(s[q], e));
    } else if p < q {
        assert(leq(s[p], e));
    }
}

/// Placing `e` where it fits keeps an ascending sequence ascending.
pub proof fn lemma_insert_keeps_sorted<T>(s: Seq<T>, e: T, p: int, leq: spec_fn(T, T) -> bool)
    requires
        total_ordering(leq),
        sorted_by(s, leq),
        fits_at(s, e, p, leq),
    ensures
        sorted_by(s.insert(p, e), leq),
{
    let t = s.insert(p, e);
    assert forall|i: int, j: int| 0 <= i < j < t.len() implies #[trigger] leq(t[i], t[j]) by {
        if j < p {
            assert(t[i] == s[i] && t[j] == s[j]);
        } else if j == p {
            assert(t[i] == s[i]);
            if i < p - 1 {
                assert(leq(s[i], s[p - 1]));
            }
        } else if i < p {
            assert(t[i] == s[i] && t[j] == s[j - 1]);
            if i < j - 1 {
            } else {
                // i == p - 1, j == p + 1 is impossible here: j - 1 == p > i
            }
        } else if i == p {
            assert(t[j] == s[j - 1]);
            // e < s[p] <= s[j - 1]
            if p < j - 1 {
                assert(leq(s[p], s[j - 1]));
            }
            assert(leq(e, s[p]) || leq(s[p], e));
        } else {
            assert(t[i] == s[i - 1] && t[j] == s[j - 1]);
        }
    }
}

/// A sequence ascends strictly exactly when it ascends and holds nothing twice.
pub proof fn lemma_strict_is_sorted_without_duplicates<T>(s: Seq<T>, leq: spec_fn(T, T) -> bool)
    requires
        total_ordering(leq),
    ensures
        sorted_by(s, strict_part(leq)) <==> sorted_by(s, leq) && s.no_duplicates(),
{
    let lt = strict_part(leq);
    if sorted_by(s, lt) {
        assert forall|i: int, j: int| 0 <= i < j < s.len() implies #[trigger] leq(s[i], s[j]) by {
            assert(lt(s[i], s[j]));
        }
        assert forall|i: int, j: int| 0 <= i < s.len() && 0 <= j < s.len() && i != j implies s[i]
            != s[j] by {
            if i < j {
                assert(lt(s[i], s[j]));
            } else {
                assert(lt(s[j], s[i]));
            }
        }
    }
    if sorted_by(s, leq) && s.no_duplicates() {
        assert forall|i: int, j: int| 0 <= i < j < s.len() implies #[trigger] lt(s[i], s[j]) by {
            assert(leq(s[i], s[j]));
        }
    }
}

/// Placing a new element where it fits keeps a strictly ascending sequence
/// strictly ascending.
pub proof fn lemma_insert_keeps_strictly_sorted<T>(
    s: Seq<T>,
    e: T,
    p: int,
    leq: spec_fn(T, T) -> bool,
)
    requires
        total_ordering(leq),
        sorted_by(s, strict_part(leq)),
        !s.contains(e),
        fits_at(s, e, p, leq),
    ensures
        sorted_by(s.insert(p, e), strict_part(leq)),
{
    lemma_strict_is_sorted_without_duplicates(s, leq);
    lemma_insert_keeps_sorted(s, e, p, leq);
    let t = s.insert(p, e);
    assert forall|i: int, j: int| 0 <= i < t.len() && 0 <= j < t.len() && i != j implies t[i]
        != t[j] by {
        let a = if i < p { i } else { i - 1 };
        let b = if j < p { j } else { j - 1 };
        if i == p {
            assert(t[j] == s[b]);
            assert(s.contains(s[b]));
        } else if j == p {
            assert(t[i] == s[a]);
            assert(s.contains(s[a]));
        } else {
            assert(t[i] == s[a] && t[j] == s[b]);
        }
    }
    lemma_strict_is_sorted_without_duplicates(t, leq);
}

/// An ascending sequence with the elements of `s` is the sorted form of `s`.
pub proof fn lemma_sorted_form<T>(s: Seq<T>, t: Seq<T>, leq: spec_fn(T, T) -> bool)
    requires
        total_ordering(leq),
        sorted_by(t, leq),
        t.to_multiset() == s.to_multiset(),
    ensures
        t == s.sort_by(leq),
{
    s.lemma_sort_by_ensures(leq);
    vstd::seq_lib::lemma_sorted_unique(t, s.sort_by(leq), leq);
}

/// The sorted form of a sequence that holds nothing twice ascends strictly.
pub proof fn lemma_sorted_form_strict<T>(s: Seq<T>, leq: spec_fn(T, T) -> bool)
    requires
        total_ordering(leq),
        s.no_duplicates(),
    ensures
        sorted_by(s.sort_by(leq), strict_part(leq)),
{
    let t = s.sort_by(leq);
    s.lemma_sort_by_ensures(leq);
    s.lemma_multiset_has_no_duplicates();
    t.lemma_multiset_has_no_duplicates_conv();
    lemma_strict_is_sorted_without_duplicates(t, leq);
}

/// A sequence ascends strictly exactly when each element comes strictly
/// before the next.
pub proof fn lemma_strict_by_neighbours<T>(s: Seq<T>, leq: spec_fn(T, T) -> bool)
    requires
        total_ordering(leq),
    ensures
        sorted_by(s, strict_part(leq)) <==> forall|i: int|
            0 <= i < s.len() - 1 ==> leq(#[trigger] s[i], s[i + 1]) && s[i] != s[i + 1],
{
    let lt = strict_part(leq);
    if sorted_by(s, lt) {
        assert forall|i: int| 0 <= i < s.len() - 1 implies leq(#[trigger] s[i], s[i + 1]) && s[i]
            != s[i + 1] by {
            assert(lt(s[i], s[i + 1]));
        }
    }
    if forall|i: int| 0 <= i < s.len() - 1 ==> leq(#[trigger] s[i], s[i + 1]) && s[i] != s[i + 1] {
        assert forall|i: int, j: int| 0 <= i < j < s.len() implies #[trigger] lt(s[i], s[j]) by {
            lemma_chain(s, leq, i, j);
        }
    }
}

/// In a sequence where each element comes strictly before the next, each
/// comes strictly before all that follow.
proof fn lemma_chain<T>(s: Seq<T>, leq: spec_fn(T, T) -> bool, i: int, j: int)
    requires
        total_ordering(leq),
        forall|k: int| 0 <= k < s.len() - 1 ==> leq(#[trigger] s[k], s[k + 1]) && s[k] != s[k + 1],
        0 <= i < j < s.len(),
    ensures
        leq(s[i], s[j]),
        s[i] != s[j],
    decreases j - i,
{
    if j > i + 1 {
        lemma_chain(s, leq, i, j - 1);
        assert(leq(s[j - 1], s[j]) && s[j - 1] != s[j]);
    } else {
        assert(leq(s[i], s[i + 1]) && s[i] != s[i + 1]);
    }
}

/// A change to a sorted sequence.
pub enum Change<T> {
    /// The elements of a scan enter, and the whole is sorted.
    Build(Seq<T>),
    /// One element enters at its insertion point.
    Insert(T),
}

impl<T> Change<T> {
    /// What enters with the change.
    pub open spec fn entering(self) -> Seq<T> {
        match self {
            Change::Build(scan) => scan,
            Change::Insert(e) => seq![e],
        }
    }

    /// The sequence after the change.
    pub open spec fn apply(self, s: Seq<T>, leq: spec_fn(T, T) -> bool) -> Seq<T> {
        match self {
            Change::Build(scan) => (s + scan).sort_by(leq),
            Change::Insert(e) => s.insert(insertion_point(s, e, leq), e),
        }
    }
}

/// The sequence after the changes of `changes`, in turn, to the empty
/// sequence.
pub open spec fn after_changes<T>(changes: Seq<Change<T>>, leq: spec_fn(T, T) -> bool) -> Seq<T>
    decreases changes.len(),
{
    if changes.len() == 0 {
        Seq::empty()
    } else {
        changes.last().apply(after_changes(changes.drop_last(), leq), leq)
    }
}

/// All that enters with the changes of `changes`.
pub open spec fn all_entering<T>(changes: Seq<Change<T>>) -> Seq<T>
    decreases changes.len(),
{
    if changes.len() == 0 {
        Seq::empty()
    } else {
        all_entering(changes.drop_last()) + changes.last().entering()
    }
}

/// Whatever is built and inserted, and in whatever order, the sequence
/// ascends and holds what entered. If nothing entered twice it ascends
/// strictly.
pub proof fn lemma_changes_keep_sorted<T>(changes: Seq<Change<T>>, leq: spec_fn(T, T) -> bool)
    requires
        total_ordering(leq),
    ensures
        sorted_by(after_changes(changes, leq), leq),
        after_changes(changes, leq).to_multiset() == all_entering(changes).to_multiset(),
        all_entering(changes).no_duplicates() ==> sorted_by(
            after_changes(changes, leq),
            strict_part(leq),
        ),
    decreases changes.len(),
{
    let end = after_changes(changes, leq);
    if changes.len() > 0 {
        let before = after_changes(changes.drop_last(), leq);
        let entered = all_entering(changes.drop_last());
        lemma_changes_keep_sorted(changes.drop_last(), leq);
        match changes.last() {
            Change::Build(scan) => {
                (before + scan).lemma_sort_by_ensures(leq);
                lemma_multiset_commutative(before, scan);
                lemma_multiset_commutative(entered, scan);
            },
            Change::Insert(e) => {
                let p = insertion_point(before, e, leq);
                lemma_insertion_point(before, e, leq);
                assert(fits_at(before, e, p, leq)) by {
                    if p > 0 {
                        assert(leq(before[p - 1], e));
                    }
                }
                lemma_insert_keeps_sorted(before, e, p, leq);
                to_multiset_insert(before, p, e);
                lemma_multiset_commutative(entered, seq![e]);
                assert(seq![e].to_multiset() =~= vstd::multiset::Multiset::empty().insert(e)) by {
                    to_multiset_insert(Seq::<T>::empty(), 0, e);
                    assert(Seq::<T>::empty().insert(0, e) =~= seq![e]);
                    assert(Seq::<T>::empty().to_multiset() =~= vstd::multiset::Multiset::empty())
                        by {
                        vstd::seq_lib::to_multiset_len(Seq::<T>::empty());
                        vstd::multiset::lemma_multiset_empty_len(Seq::<T>::empty().to_multiset());
                    }
                }
                assert(end.to_multiset() =~= all_entering(changes).to_multiset());
            },
        }
    } else {
        assert(end =~= all_entering(changes));
    }
    if all_entering(changes).no_duplicates() {
        all_entering(changes).lemma_multiset_has_no_duplicates();
        end.lemma_multiset_has_no_duplicates_conv();
        lemma_strict_is_sorted_without_duplicates(end, leq);
    }
}

} // verus!
