//! Vectors kept in ascending order: finding the place of a new element by
//! bisection, and sorting by merging.

use vstd::prelude::*;
use vstd::multiset::lemma_multiset_empty_len;
use vstd::relations::{sorted_by, total_ordering};
use vstd::seq_lib::{lemma_multiset_commutative, to_multiset_build, to_multiset_len};
use crate::storage::order::{fits_at, lemma_sorted_form};

verus! {

/// A value that stands for a mathematical one, its model, and is ordered by
/// a total order on the models.
pub trait Ordered: Sized {
    /// What the values stand for.
    type Model;

    /// What `self` stands for.
    spec fn model(&self) -> Self::Model;

    /// The order: `order()(a, b)` says that `a` comes at or before `b`.
    spec fn order() -> spec_fn(Self::Model, Self::Model) -> bool;

    /// The order is total.
    proof fn lemma_order_total()
        ensures
            total_ordering(Self::order()),
    ;

    /// Whether `self` comes at or before `other`.
    fn comes_before_or_at(&self, other: &Self) -> (b: bool)
        ensures
            b == Self::order()(self.model(), other.model()),
    ;
}

/// What the elements of `s` stand for, in the same order.
pub open spec fn models<T: Ordered>(s: Seq<T>) -> Seq<T::Model> {
    s.map_values(|e: T| e.model())
}

/// Every element of `low` comes at or before every element of `high`.
pub open spec fn all_before<M>(low: Seq<M>, high: Seq<M>, leq: spec_fn(M, M) -> bool) -> bool {
    forall|i: int, j: int| 0 <= i < low.len() && 0 <= j < high.len() ==> leq(low[i], high[j])
}

/// The elements of `s` descend.
pub open spec fn descending<M>(s: Seq<M>, leq: spec_fn(M, M) -> bool) -> bool {
    forall|i: int, j: int| 0 <= i < j < s.len() ==> leq(s[j], s[i])
}

/// A place where `e` fits between its neighbours in `v`, found by bisection.
pub fn bisect<T: Ordered>(v: &Vec<T>, e: &T) -> (p: usize)
    ensures
        fits_at(models(v@), e.model(), p as int, T::order()),
{
    let mut lo: usize = 0;
    let mut hi: usize = v.len();
    while lo < hi
        invariant
            lo <= hi <= v.len(),
            lo > 0 ==> T::order()(v[lo - 1].model(), e.model()),
            hi < v.len() ==> !T::order()(v[hi as int].model(), e.model()),
        decreases hi - lo,
    {
        let mid: usize = lo + (hi - lo) / 2;
        if v[mid].comes_before_or_at(e) {
            lo = mid + 1;
        } else {
            hi = mid;
        }
    }
    lo
}

/// The elements of two ascending vectors in one ascending vector.
fn merge<T: Ordered>(left: Vec<T>, right: Vec<T>) -> (out: Vec<T>)
    requires
        sorted_by(models(left@), T::order()),
        sorted_by(models(right@), T::order()),
    ensures
        sorted_by(models(out@), T::order()),
        models(out@).to_multiset() == models(left@).to_multiset().add(
            models(right@).to_multiset(),
        ),
{
    let ghost leq = T::order();
    let ghost all = models(left@).to_multiset().add(models(right@).to_multiset());
    let mut a = left;
    let mut b = right;
    // The greatest elements, the greatest first.
    let mut top: Vec<T> = Vec::new();
    proof {
        T::lemma_order_total();
        to_multiset_len(models(top@));
        lemma_multiset_empty_len(models(top@).to_multiset());
        assert(models(a@).to_multiset().add(models(b@).to_multiset()).add(
            models(top@).to_multiset(),
        ) =~= all);
    }
    while a.len() > 0 && b.len() > 0
        invariant
            leq == T::order(),
            total_ordering(leq),
            sorted_by(models(a@), leq),
            sorted_by(models(b@), leq),
            descending(models(top@), leq),
            all_before(models(a@), models(top@), leq),
            all_before(models(b@), models(top@), leq),
            models(a@).to_multiset().add(models(b@).to_multiset()).add(
                models(top@).to_multiset(),
            ) == all,
        decreases a.len() + b.len(),
    {
        let ghost ma = models(a@);
        let ghost mb = models(b@);
        let ghost mt = models(top@);
        let from_right = a[a.len() - 1].comes_before_or_at(&b[b.len() - 1]);
        let x = if from_right {
            b.pop().unwrap()
        } else {
            a.pop().unwrap()
        };
        top.push(x);
        proof {
            let m = x.model();
            assert(models(top@) =~= mt.push(m));
            to_multiset_build(mt, m);
            if from_right {
                assert(mb =~= models(b@).push(m));
                to_multiset_build(models(b@), m);
                assert(models(a@) == ma);
            } else {
                assert(ma =~= models(a@).push(m));
                to_multiset_build(models(a@), m);
                assert(models(b@) == mb);
                assert(leq(mb.last(), m));
            }
            assert(models(a@).to_multiset().add(models(b@).to_multiset()).add(
                models(top@).to_multiset(),
            ) =~= all);
            assert forall|i: int, j: int| 0 <= i < j < models(top@).len() implies leq(
                models(top@)[j],
                models(top@)[i],
            ) by {
                if j == mt.len() {
                    if from_right {
                        assert(leq(mb[mb.len() - 1], mt[i]));
                    } else {
                        assert(leq(ma[ma.len() - 1], mt[i]));
                    }
                }
            }
            assert forall|i: int, j: int|
                0 <= i < models(a@).len() && 0 <= j < models(top@).len() implies leq(
                models(a@)[i],
                models(top@)[j],
            ) by {
                assert(models(a@)[i] == ma[i]);
                if j == mt.len() {
                    if from_right {
                        assert(leq(ma[i], ma[ma.len() - 1]) || i == ma.len() - 1);
                    } else {
                        assert(leq(ma[i], ma[ma.len() - 1]));
                    }
                }
            }
            assert forall|i: int, j: int|
                0 <= i < models(b@).len() && 0 <= j < models(top@).len() implies leq(
                models(b@)[i],
                models(top@)[j],
            ) by {
                assert(models(b@)[i] == mb[i]);
                if j == mt.len() {
                    if from_right {
                        assert(leq(mb[i], mb[mb.len() - 1]));
                    } else {
                        assert(leq(mb[i], mb[mb.len() - 1]) || i == mb.len() - 1);
                    }
                }
            }
            assert(sorted_by(models(a@), leq)) by {
                assert forall|i: int, j: int| 0 <= i < j < models(a@).len() implies leq(
                    models(a@)[i],
                    models(a@)[j],
                ) by {
                    assert(models(a@)[i] == ma[i] && models(a@)[j] == ma[j]);
                }
            }
            assert(sorted_by(models(b@), leq)) by {
                assert forall|i: int, j: int| 0 <= i < j < models(b@).len() implies leq(
                    models(b@)[i],
                    models(b@)[j],
                ) by {
                    assert(models(b@)[i] == mb[i] && models(b@)[j] == mb[j]);
                }
            }
        }
    }
    let ghost ma = models(a@);
    let ghost mb = models(b@);
    let mut out = a;
    out.append(&mut b);
    proof {
        assert(models(out@) =~= ma + mb);
        lemma_multiset_commutative(ma, mb);
        assert(sorted_by(models(out@), leq)) by {
            if ma.len() == 0 {
                assert(models(out@) =~= mb);
            } else {
                assert(models(out@) =~= ma);
            }
        }
        assert forall|i: int, j: int|
            0 <= i < models(out@).len() && 0 <= j < models(top@).len() implies leq(
            models(out@)[i],
            models(top@)[j],
        ) by {
            if ma.len() == 0 {
                assert(models(out@)[i] == mb[i]);
            } else {
                assert(models(out@)[i] == ma[i]);
            }
        }
    }
    while top.len() > 0
        invariant
            leq == T::order(),
            total_ordering(leq),
            sorted_by(models(out@), leq),
            descending(models(top@), leq),
            all_before(models(out@), models(top@), leq),
            models(out@).to_multiset().add(models(top@).to_multiset()) == all,
        decreases top.len(),
    {
        let ghost mo = models(out@);
        let ghost mt = models(top@);
        let x = top.pop().unwrap();
        out.push(x);
        proof {
            let m = x.model();
            assert(mt =~= models(top@).push(m));
            assert(models(out@) =~= mo.push(m));
            to_multiset_build(models(top@), m);
            to_multiset_build(mo, m);
            assert(models(out@).to_multiset().add(models(top@).to_multiset()) =~= all);
            assert forall|i: int, j: int| 0 <= i < j < models(out@).len() implies leq(
                models(out@)[i],
                models(out@)[j],
            ) by {
                if j == mo.len() {
                    assert(leq(mo[i], mt[mt.len() - 1]));
                }
            }
            assert forall|i: int, j: int| 0 <= i < j < models(top@).len() implies leq(
                models(top@)[j],
                models(top@)[i],
            ) by {
                assert(models(top@)[i] == mt[i] && models(top@)[j] == mt[j]);
            }
            assert forall|i: int, j: int|
                0 <= i < models(out@).len() && 0 <= j < models(top@).len() implies leq(
                models(out@)[i],
                models(top@)[j],
            ) by {
                assert(models(top@)[j] == mt[j]);
                if i == mo.len() {
                    assert(leq(mt[mt.len() - 1], mt[j]));
                } else {
                    assert(models(out@)[i] == mo[i]);
                }
            }
        }
    }
    proof {
        to_multiset_len(models(top@));
        lemma_multiset_empty_len(models(top@).to_multiset());
        assert(models(out@).to_multiset() =~= all);
    }
    out
}

/// The elements of `items` in ascending order.
pub fn sort<T: Ordered>(items: Vec<T>) -> (out: Vec<T>)
    ensures
        models(out@) == models(items@).sort_by(T::order()),
    decreases items@.len(),
{
    let n = items.len();
    proof {
        T::lemma_order_total();
    }
    if n <= 1 {
        proof {
            lemma_sorted_form(models(items@), models(items@), T::order());
        }
        return items;
    }
    let ghost whole = models(items@);
    let mut left = items;
    let right = left.split_off(n / 2);
    let ghost ml = models(left@);
    let ghost mr = models(right@);
    let low = sort(left);
    let high = sort(right);
    proof {
        ml.lemma_sort_by_ensures(T::order());
        mr.lemma_sort_by_ensures(T::order());
    }
    let out = merge(low, high);
    proof {
        assert(whole =~= ml + mr);
        lemma_multiset_commutative(ml, mr);
        lemma_sorted_form(whole, models(out@), T::order());
    }
    out
}

} // verus!
