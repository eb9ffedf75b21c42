//! Files made of fixed-width records, one after another, with no header.

use vstd::prelude::*;
use vstd::arithmetic::div_mod::lemma_fundamental_div_mod_converse;

verus! {

/// The records of the elements of `s`, one after another.
pub open spec fn concat_records<T>(s: Seq<T>, record: spec_fn(T) -> Seq<u8>) -> Seq<u8>
    decreases s.len(),
{
    if s.len() == 0 {
        Seq::empty()
    } else {
        concat_records(s.drop_last(), record) + record(s.last())
    }
}

/// The bytes of record `k` in a file of records `width` bytes wide.
pub open spec fn record_at(data: Seq<u8>, width: int, k: int) -> Seq<u8> {
    data.subrange(k * width, (k + 1) * width)
}

/// The whole records of `data`, each `width` bytes wide, read in order.
pub open spec fn split_records<T>(data: Seq<u8>, width: int, parse: spec_fn(Seq<u8>) -> T) -> Seq<T> {
    Seq::new((data.len() as int / width) as nat, |k: int| parse(record_at(data, width, k)))
}

/// Every element of `s` has a record of `width` bytes.
pub open spec fn records_have_width<T>(s: Seq<T>, record: spec_fn(T) -> Seq<u8>, width: int) -> bool {
    forall|i: int| 0 <= i < s.len() ==> (#[trigger] record(s[i])).len() == width
}

/// Record `k` of the concatenation is the record of element `k`.
pub proof fn lemma_concat_records<T>(s: Seq<T>, record: spec_fn(T) -> Seq<u8>, width: int)
    requires
        width >= 0,
        records_have_width(s, record, width),
    ensures
        concat_records(s, record).len() == s.len() * width,
        forall|k: int|
            0 <= k < s.len() ==> #[trigger] record_at(concat_records(s, record), width, k)
                == record(s[k]),
    decreases s.len(),
{
    if s.len() == 0 {
    } else {
        let t = s.drop_last();
        let n = t.len() as int;
        assert forall|i: int| 0 <= i < t.len() implies (#[trigger] record(t[i])).len() == width by {
            assert(t[i] == s[i]);
        }
        lemma_concat_records(t, record, width);
        let head = concat_records(t, record);
        let all = concat_records(s, record);
        assert(record(s[n]).len() == width);
        assert(all.len() == (n + 1) * width) by (nonlinear_arith)
            requires
                all.len() == head.len() + width,
                head.len() == n * width,
        ;
        assert forall|k: int| 0 <= k < s.len() implies #[trigger] record_at(all, width, k)
            == record(s[k]) by {
            assert(0 <= k * width && (k + 1) * width == k * width + width && (k + 1) * width <= (n
                + 1) * width) by (nonlinear_arith)
                requires
                    0 <= k <= n,
                    width >= 0,
            ;
            if k < n {
                assert((k + 1) * width <= n * width) by (nonlinear_arith)
                    requires
                        k < n,
                        width >= 0,
                ;
                assert(record_at(all, width, k) =~= record_at(head, width, k));
                assert(t[k] == s[k]);
            } else {
                assert(record_at(all, width, k) =~= record(s.last()));
            }
        }
    }
}

/// Reading back what was written gives the same elements in the same order.
pub proof fn lemma_split_concat<T>(
    s: Seq<T>,
    record: spec_fn(T) -> Seq<u8>,
    parse: spec_fn(Seq<u8>) -> T,
    width: int,
)
    requires
        width > 0,
        records_have_width(s, record, width),
        forall|i: int| 0 <= i < s.len() ==> parse(#[trigger] record(s[i])) == s[i],
    ensures
        concat_records(s, record).len() as int % width == 0,
        split_records(concat_records(s, record), width, parse) == s,
{
    lemma_concat_records(s, record, width);
    let data = concat_records(s, record);
    lemma_fundamental_div_mod_converse(data.len() as int, width, s.len() as int, 0);
    let back = split_records(data, width, parse);
    assert(back.len() == s.len());
    assert forall|k: int| 0 <= k < s.len() implies back[k] == s[k] by {
        assert(record_at(data, width, k) == record(s[k]));
    }
    assert(back =~= s);
}

} // verus!
