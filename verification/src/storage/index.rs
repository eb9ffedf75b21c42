//! The secondary index of a table: pairs of row number and key, kept in
//! ascending order of key, built from the row file, stored in an index file
//! and extended one entry at a time.

use vstd::prelude::*;
use vstd::relations::{sorted_by, total_ordering};
use vstd::slice::{slice_subrange, slice_to_vec};
use vstd::string::StringExecFns;
use crate::storage::bytes::{
    append_bytes, bytes_lt, first_difference, lemma_bytes_lt_asymmetric, lemma_bytes_lt_connected,
    lemma_bytes_lt_irreflexive, lemma_bytes_lt_skip, lemma_bytes_lt_transitive,
};
use crate::storage::codec::{le_bytes, le_u32_at, lemma_le_bytes_decode, read_u32, write_u32};
use crate::storage::layout::TableMeta;
use crate::storage::order::{
    fits_at, insertion_point, lemma_fit_is_insertion_point, lemma_insert_keeps_sorted,
    lemma_insert_keeps_strictly_sorted, lemma_sorted_form_strict, strict_part,
};
use crate::text::{decimal, decimal_text};
use crate::storage::record::{
    concat_records, lemma_concat_records, lemma_split_concat, record_at, split_records,
};
use crate::storage::sorted::{bisect, models, sort, Ordered};

verus! {

/// Why an index operation failed.
#[derive(Debug, Clone, PartialEq, Eq)]
pub enum IndexErr {
    /// The row file ends inside the key of its last row.
    TruncatedRow,
    /// The index file does not consist of whole records.
    CorruptIndex,
    /// Reading or writing a file failed at `offset` in the file of `table`.
    /// No function of this module fails so: they work on bytes in memory.
    /// It is for the caller that reads and writes the files.
    IoError { table: String, offset: u64 },
}

impl IndexErr {
    /// The message of the error.
    pub open spec fn text(self) -> Seq<char> {
        match self {
            IndexErr::TruncatedRow => "Row file ends inside a key"@,
            IndexErr::CorruptIndex => "Index file does not consist of whole records"@,
            IndexErr::IoError { table, offset } => "I/O error on table "@ + table@ + " at byte "@
                + decimal_text(offset as nat),
        }
    }

    /// The message of the error.
    pub fn message(&self) -> (s: String)
        ensures
            s@ == self.text(),
    {
        match self {
            IndexErr::TruncatedRow => "Row file ends inside a key".to_owned(),
            IndexErr::CorruptIndex => "Index file does not consist of whole records".to_owned(),
            IndexErr::IoError { table, offset } => {
                let number = decimal(*offset);
                "I/O error on table ".to_owned().concat(table.as_str()).concat(" at byte ").concat(
                    number.as_str(),
                )
            },
        }
    }
}

/// An index entry of a table with an integer key.
#[derive(Debug, Clone, Copy, PartialEq, Eq)]
pub struct IndexDataStructureInt {
    /// The position of the row in the table file, counted from 0.
    pub row: u32,
    /// The key of the row.
    pub key_value: u32,
}

impl IndexDataStructureInt {
    /// `self` comes at or before `other`: by key, and by row number among
    /// equal keys.
    pub open spec fn le(self, other: Self) -> bool {
        self.key_value < other.key_value || (self.key_value == other.key_value && self.row
            <= other.row)
    }
}

/// The order of integer-keyed entries, as a relation.
pub open spec fn int_order() -> spec_fn(IndexDataStructureInt, IndexDataStructureInt) -> bool {
    |a: IndexDataStructureInt, b: IndexDataStructureInt| a.le(b)
}

/// The order of integer-keyed entries is total.
pub proof fn lemma_int_order_total()
    ensures
        total_ordering(int_order()),
{
    let leq = int_order();
    assert forall|x: IndexDataStructureInt, y: IndexDataStructureInt| #[trigger]
        leq(x, y) && #[trigger] leq(y, x) implies x == y by {}
}

impl Ordered for IndexDataStructureInt {
    type Model = IndexDataStructureInt;

    open spec fn model(&self) -> IndexDataStructureInt {
        *self
    }

    open spec fn order() -> spec_fn(IndexDataStructureInt, IndexDataStructureInt) -> bool {
        int_order()
    }

    proof fn lemma_order_total() {
        lemma_int_order_total();
    }

    fn comes_before_or_at(&self, other: &Self) -> (b: bool) {
        self.key_value < other.key_value || (self.key_value == other.key_value && self.row
            <= other.row)
    }
}

/// The index of a table with an integer key.
#[derive(Debug, Clone, PartialEq, Eq)]
pub struct IndexInt(pub Vec<IndexDataStructureInt>);

impl View for IndexInt {
    type V = Seq<IndexDataStructureInt>;

    open spec fn view(&self) -> Seq<IndexDataStructureInt> {
        self.0@
    }
}

impl IndexInt {
    /// The entries ascend: keys never decrease, and among equal keys row
    /// numbers never decrease.
    pub open spec fn is_sorted(&self) -> bool {
        sorted_by(self@, int_order())
    }

    /// The entries ascend and no entry stands twice: keys never decrease, and
    /// among equal keys row numbers increase.
    pub open spec fn is_strictly_sorted(&self) -> bool {
        sorted_by(self@, strict_part(int_order()))
    }
}

/// The entries of the rows of a table file, in file order.
pub open spec fn scan_int(table_meta: &TableMeta, rows: Seq<u8>) -> Seq<IndexDataStructureInt> {
    Seq::new(
        table_meta.row_count(rows.len() as int) as nat,
        |i: int|
            IndexDataStructureInt {
                row: i as u32,
                key_value: le_u32_at(rows, table_meta.key_start(i)),
            },
    )
}

/// The record of an entry in the index file: row number, then key, four
/// little-endian bytes each.
pub open spec fn int_record(e: IndexDataStructureInt) -> Seq<u8> {
    le_bytes(e.row) + le_bytes(e.key_value)
}

/// The entry that a record of the index file holds.
pub open spec fn parse_int_record(b: Seq<u8>) -> IndexDataStructureInt {
    IndexDataStructureInt { row: le_u32_at(b, 0), key_value: le_u32_at(b, 4) }
}

/// The content of the index file of `s`.
pub open spec fn encode_int(s: Seq<IndexDataStructureInt>) -> Seq<u8> {
    concat_records(s, |e: IndexDataStructureInt| int_record(e))
}

/// The entries of an index file, in file order.
pub open spec fn decode_int(data: Seq<u8>) -> Seq<IndexDataStructureInt> {
    split_records(data, 8, |b: Seq<u8>| parse_int_record(b))
}

/// Inserts `insert_value` into `index_arr` at a place where it fits between
/// its neighbours. In a sorted index that is the place a scan from the front
/// finds: before the first entry with a greater key, or with the same key and
/// a greater row number; at the end if there is none. The index stays sorted.
pub fn insert_int_index_table(insert_value: IndexDataStructureInt, index_arr: &mut IndexInt) -> (r:
    Result<(), IndexErr>)
    ensures
        r is Ok,
        exists|p: int|
            fits_at(old(index_arr)@, insert_value, p, int_order())
                && final(index_arr)@ == old(index_arr)@.insert(p, insert_value),
        old(index_arr).is_sorted() ==> final(index_arr).is_sorted()
            && final(index_arr)@ == old(index_arr)@.insert(
            insertion_point(old(index_arr)@, insert_value, int_order()),
            insert_value,
        ),
        old(index_arr).is_strictly_sorted() && !old(index_arr)@.contains(insert_value)
            ==> final(index_arr).is_strictly_sorted(),
{
    let p = bisect(&index_arr.0, &insert_value);
    index_arr.0.insert(p, insert_value);
    proof {
        let s = old(index_arr)@;
        assert(models(s) =~= s);
        lemma_int_order_total();
        if sorted_by(s, int_order()) {
            lemma_fit_is_insertion_point(s, insert_value, p as int, int_order());
            lemma_insert_keeps_sorted(s, insert_value, p as int, int_order());
        }
        if sorted_by(s, strict_part(int_order())) && !s.contains(insert_value) {
            lemma_insert_keeps_strictly_sorted(s, insert_value, p as int, int_order());
        }
    }
    Ok(())
}

/// No two entries of a scan are equal: their row numbers differ.
pub proof fn lemma_scan_int_distinct(table_meta: &TableMeta, rows: Seq<u8>)
    requires
        table_meta.wf(),
        table_meta.row_count(rows.len() as int) <= 0x1_0000_0000,
    ensures
        scan_int(table_meta, rows).no_duplicates(),
{
    let s = scan_int(table_meta, rows);
    assert(s.len() <= 0x1_0000_0000);
    assert forall|i: int, j: int| 0 <= i < s.len() && 0 <= j < s.len() && i != j implies s[i]
        != s[j] by {
        assert(s[i].row == i && s[j].row == j);
    }
}

/// Reads the entries of the rows of a table file in file order; `None` if the
/// file ends inside the key of its last row.
fn scan_int_rows(table_meta: &TableMeta, rows: &[u8]) -> (r: Option<Vec<IndexDataStructureInt>>)
    requires
        table_meta.key_type() is Int,
        table_meta.row_count(rows@.len() as int) <= 0x1_0000_0000,
    ensures
        r is None <==> table_meta.truncated(rows@.len() as int),
        r matches Some(v) ==> v@ == scan_int(table_meta, rows@),
{
    proof {
        use_type_invariant(table_meta);
    }
    let len = rows.len();
    let n = table_meta.count_rows(len);
    let mut out: Vec<IndexDataStructureInt> = Vec::new();
    if n == 0 {
        assert(out@ =~= scan_int(table_meta, rows@));
        return Some(out);
    }
    let off = table_meta.key_offset() as usize;
    let step = table_meta.row_bytes() as usize;
    proof {
        table_meta.lemma_rows_before_last(len as int, n - 1);
        assert(table_meta.key_start(n - 1) == off + (n - 1) * step);
    }
    let last = off + (n - 1) * step;
    if len - last < 4 {
        return None;
    }
    let mut i: usize = 0;
    let mut pos: usize = off;
    proof {
        assert(0 * step == 0) by (nonlinear_arith);
    }
    while i < n
        invariant
            table_meta.wf(),
            table_meta.key_type() is Int,
            len == rows@.len(),
            n == table_meta.row_count(len as int),
            n <= 0x1_0000_0000,
            step == table_meta.row_bytes(),
            table_meta.key_start(n - 1) + 4 <= len,
            i <= n,
            i < n ==> pos == table_meta.key_start(i as int),
            out@.len() == i,
            forall|k: int| 0 <= k < i ==> out@[k] == scan_int(table_meta, rows@)[k],
        decreases n - i,
    {
        proof {
            table_meta.lemma_rows_before_last(len as int, i as int);
        }
        let key = read_u32(rows, pos);
        out.push(IndexDataStructureInt { row: i as u32, key_value: key });
        i += 1;
        if i < n {
            proof {
                table_meta.lemma_rows_before_last(len as int, i as int);
                assert(table_meta.key_start(i as int) == table_meta.key_start(i - 1) + step)
                    by (nonlinear_arith)
                    requires
                        table_meta.key_start(i as int) == table_meta.key_offset() + i * step,
                        table_meta.key_start(i - 1) == table_meta.key_offset() + (i - 1) * step,
                ;
            }
            pos = pos + step;
        }
    }
    assert(out@ =~= scan_int(table_meta, rows@));
    Some(out)
}

/// Adds the entries of the rows of a table file to `index_arr` and sorts the
/// whole index. Row `i` of the file has its key at byte `key_offset + i *
/// row_bytes`; the rows are those whose key starts inside the file. Fails,
/// and leaves the index as it was, if the file ends inside the key of its
/// last row.
pub fn build_int_index_table(table_meta: &TableMeta, rows: &[u8], index_arr: &mut IndexInt) -> (r:
    Result<(), IndexErr>)
    requires
        table_meta.key_type() is Int,
        table_meta.row_count(rows@.len() as int) <= 0x1_0000_0000,
    ensures
        r is Err <==> table_meta.truncated(rows@.len() as int),
        r is Err ==> r == Err::<(), IndexErr>(IndexErr::TruncatedRow)
            && final(index_arr)@ == old(index_arr)@,
        r is Ok ==> final(index_arr)@ == (old(index_arr)@ + scan_int(table_meta, rows@)).sort_by(
            int_order(),
        ),
        r is Ok ==> final(index_arr).is_sorted(),
        r is Ok && (old(index_arr)@ + scan_int(table_meta, rows@)).no_duplicates()
            ==> final(index_arr).is_strictly_sorted(),
        r is Ok && old(index_arr)@.len() == 0 ==> final(index_arr).is_strictly_sorted(),
{
    match scan_int_rows(table_meta, rows) {
        None => Err(IndexErr::TruncatedRow),
        Some(mut scanned) => {
            let ghost all = old(index_arr)@ + scan_int(table_meta, rows@);
            let mut items: Vec<IndexDataStructureInt> = Vec::new();
            items.append(&mut index_arr.0);
            items.append(&mut scanned);
            assert(models(items@) =~= all);
            let sorted = sort(items);
            index_arr.0 = sorted;
            proof {
                assert(models(sorted@) =~= sorted@);
                lemma_int_order_total();
                all.lemma_sort_by_ensures(int_order());
                if all.no_duplicates() {
                    lemma_sorted_form_strict(all, int_order());
                }
                if old(index_arr)@.len() == 0 {
                    use_type_invariant(table_meta);
                    lemma_scan_int_distinct(table_meta, rows@);
                    assert(all =~= scan_int(table_meta, rows@));
                }
            }
            Ok(())
        },
    }
}

/// The width of a record in the index file of an integer-keyed table is 8,
/// and a record read back gives the entry it was written from.
proof fn lemma_int_record(e: IndexDataStructureInt)
    ensures
        int_record(e).len() == 8,
        parse_int_record(int_record(e)) == e,
{
    lemma_le_bytes_decode(e.row);
    lemma_le_bytes_decode(e.key_value);
    let b = int_record(e);
    assert(b[0] == le_bytes(e.row)[0] && b[1] == le_bytes(e.row)[1] && b[2] == le_bytes(e.row)[2]
        && b[3] == le_bytes(e.row)[3]);
    assert(b[4] == le_bytes(e.key_value)[0] && b[5] == le_bytes(e.key_value)[1] && b[6]
        == le_bytes(e.key_value)[2] && b[7] == le_bytes(e.key_value)[3]);
}

/// Reading an index file that was written from `s` gives `s` back.
pub proof fn lemma_int_round_trip(s: Seq<IndexDataStructureInt>)
    ensures
        encode_int(s).len() % 8 == 0,
        decode_int(encode_int(s)) == s,
{
    let record = |e: IndexDataStructureInt| int_record(e);
    let parse = |b: Seq<u8>| parse_int_record(b);
    assert forall|i: int| 0 <= i < s.len() implies (#[trigger] record(s[i])).len() == 8 && parse(
        record(s[i]),
    ) == s[i] by {
        lemma_int_record(s[i]);
    }
    lemma_split_concat(s, record, parse, 8);
}

/// Replaces the content of `sink` by the index file of `index_arr`: for each
/// entry in order its row number and its key, four little-endian bytes each,
/// which is the record width that the layout gives.
#[allow(unused_variables)]
pub fn write_int_index_table(table_meta: &TableMeta, index_arr: &IndexInt, sink: &mut Vec<u8>) -> (r:
    Result<(), IndexErr>)
    requires
        table_meta.key_type() is Int,
    ensures
        r is Ok,
        final(sink)@ == encode_int(index_arr@),
        final(sink)@.len() == index_arr@.len() * table_meta.record_bytes(),
{
    proof {
        use_type_invariant(table_meta);
        let record = |e: IndexDataStructureInt| int_record(e);
        assert forall|i: int| 0 <= i < index_arr@.len() implies (#[trigger] record(
            index_arr@[i],
        )).len() == 8 by {
            lemma_int_record(index_arr@[i]);
        }
        lemma_concat_records(index_arr@, record, 8);
    }
    sink.clear();
    let n = index_arr.0.len();
    let mut i: usize = 0;
    while i < n
        invariant
            n == index_arr@.len(),
            i <= n,
            sink@ == encode_int(index_arr@.take(i as int)),
        decreases n - i,
    {
        let e = index_arr.0[i];
        let ghost before = sink@;
        write_u32(sink, e.row);
        write_u32(sink, e.key_value);
        proof {
            let t = index_arr@.take(i + 1);
            assert(t.drop_last() =~= index_arr@.take(i as int));
            assert(t.last() == e);
            assert(sink@ =~= before + int_record(e));
        }
        i += 1;
    }
    proof {
        assert(index_arr@.take(n as int) =~= index_arr@);
    }
    Ok(())
}

/// Appends the entries of an index file to `index_arr`, in file order. A
/// record is four bytes of row number and four bytes of key, which is the
/// record width that the layout gives. Fails, and leaves the index as it
/// was, if the file is not made of whole records.
pub fn read_int_index_table(table_meta: &TableMeta, data: &[u8], index_arr: &mut IndexInt) -> (r:
    Result<(), IndexErr>)
    requires
        table_meta.key_type() is Int,
    ensures
        r is Err <==> data@.len() as int % table_meta.record_bytes() != 0,
        r is Err ==> r == Err::<(), IndexErr>(IndexErr::CorruptIndex)
            && final(index_arr)@ == old(index_arr)@,
        r is Ok ==> final(index_arr)@ == old(index_arr)@ + decode_int(data@),
{
    proof {
        use_type_invariant(table_meta);
    }
    let len = data.len();
    let width: usize = 4 + table_meta.key_bytes() as usize;
    if len % width != 0 {
        return Err(IndexErr::CorruptIndex);
    }
    let n = len / 8;
    let mut i: usize = 0;
    while i < n
        invariant
            len == data@.len(),
            n == len / 8,
            len % 8 == 0,
            i <= n,
            index_arr@ == old(index_arr)@ + decode_int(data@).take(i as int),
        decreases n - i,
    {
        let pos = i * 8;
        let row = read_u32(data, pos);
        let key_value = read_u32(data, pos + 4);
        index_arr.0.push(IndexDataStructureInt { row, key_value });
        proof {
            let b = record_at(data@, 8, i as int);
            assert(b[0] == data@[pos as int] && b[1] == data@[pos + 1] && b[2] == data@[pos + 2]
                && b[3] == data@[pos + 3]);
            assert(b[4] == data@[pos + 4] && b[5] == data@[pos + 5] && b[6] == data@[pos + 6]
                && b[7] == data@[pos + 7]);
            assert(decode_int(data@)[i as int] == parse_int_record(b));
            assert(decode_int(data@).take(i + 1) =~= decode_int(data@).take(i as int).push(
                decode_int(data@)[i as int],
            ));
        }
        i += 1;
    }
    proof {
        assert(decode_int(data@).take(n as int) =~= decode_int(data@));
    }
    Ok(())
}


/// What an entry of a table with a byte-string key stands for.
pub struct StringEntry {
    /// The position of the row in the table file, counted from 0.
    pub row: u32,
    /// The key of the row.
    pub key_value: Seq<u8>,
}

impl StringEntry {
    /// `self` comes at or before `other`: by key in dictionary order, and by
    /// row number among equal keys.
    pub open spec fn le(self, other: Self) -> bool {
        bytes_lt(self.key_value, other.key_value) || (self.key_value == other.key_value
            && self.row <= other.row)
    }
}

/// The order of string-keyed entries, as a relation.
pub open spec fn string_order() -> spec_fn(StringEntry, StringEntry) -> bool {
    |a: StringEntry, b: StringEntry| a.le(b)
}

/// The order of string-keyed entries is total.
pub proof fn lemma_string_order_total()
    ensures
        total_ordering(string_order()),
{
    let leq = string_order();
    assert forall|x: StringEntry| #[trigger] leq(x, x) by {}
    assert forall|x: StringEntry, y: StringEntry| #[trigger] leq(x, y) && #[trigger] leq(
        y,
        x,
    ) implies x == y by {
        lemma_bytes_lt_asymmetric(x.key_value, y.key_value);
        lemma_bytes_lt_irreflexive(x.key_value);
    }
    assert forall|x: StringEntry, y: StringEntry, z: StringEntry| #[trigger]
        leq(x, y) && #[trigger] leq(y, z) implies leq(x, z) by {
        if bytes_lt(x.key_value, y.key_value) && bytes_lt(y.key_value, z.key_value) {
            lemma_bytes_lt_transitive(x.key_value, y.key_value, z.key_value);
        }
    }
    assert forall|x: StringEntry, y: StringEntry| #[trigger] leq(x, y) || #[trigger] leq(
        y,
        x,
    ) by {
        lemma_bytes_lt_connected(x.key_value, y.key_value);
    }
}

/// An index entry of a table with a byte-string key.
#[derive(Debug, Clone, PartialEq, Eq)]
pub struct IndexDataStructureString {
    /// The position of the row in the table file, counted from 0.
    pub row: u32,
    /// The key of the row.
    pub key_value: Vec<u8>,
}

impl View for IndexDataStructureString {
    type V = StringEntry;

    open spec fn view(&self) -> StringEntry {
        StringEntry { row: self.row, key_value: self.key_value@ }
    }
}

impl Ordered for IndexDataStructureString {
    type Model = StringEntry;

    open spec fn model(&self) -> StringEntry {
        self@
    }

    open spec fn order() -> spec_fn(StringEntry, StringEntry) -> bool {
        string_order()
    }

    proof fn lemma_order_total() {
        lemma_string_order_total();
    }

    fn comes_before_or_at(&self, other: &Self) -> (b: bool) {
        let a = self.key_value.as_slice();
        let b = other.key_value.as_slice();
        let n = first_difference(a, b);
        proof {
            lemma_bytes_lt_skip(a@, b@, n as int);
            lemma_bytes_lt_irreflexive(a@);
        }
        if n == a.len() && n == b.len() {
            assert(a@.skip(n as int) =~= b@.skip(n as int));
            self.row <= other.row
        } else if n == b.len() {
            false
        } else if n == a.len() {
            true
        } else {
            a[n] < b[n]
        }
    }
}

/// What the entries of `v` stand for, in the same order.
pub open spec fn entries_of(v: Seq<IndexDataStructureString>) -> Seq<StringEntry> {
    v.map_values(|e: IndexDataStructureString| e@)
}

/// The index of a table with a byte-string key.
#[derive(Debug, Clone, PartialEq, Eq)]
pub struct IndexString(pub Vec<IndexDataStructureString>);

impl View for IndexString {
    type V = Seq<StringEntry>;

    open spec fn view(&self) -> Seq<StringEntry> {
        entries_of(self.0@)
    }
}

impl IndexString {
    /// The entries ascend: keys never decrease, and among equal keys row
    /// numbers never decrease.
    pub open spec fn is_sorted(&self) -> bool {
        sorted_by(self@, string_order())
    }

    /// The entries ascend and no entry stands twice: keys never decrease, and
    /// among equal keys row numbers increase.
    pub open spec fn is_strictly_sorted(&self) -> bool {
        sorted_by(self@, strict_part(string_order()))
    }
}

/// Every key of `s` is `width` bytes long.
pub open spec fn keys_have_width(s: Seq<StringEntry>, width: int) -> bool {
    forall|i: int| 0 <= i < s.len() ==> (#[trigger] s[i]).key_value.len() == width
}

/// The entries of the rows of a table file, in file order.
pub open spec fn scan_string(table_meta: &TableMeta, rows: Seq<u8>) -> Seq<StringEntry> {
    Seq::new(
        table_meta.row_count(rows.len() as int) as nat,
        |i: int|
            StringEntry {
                row: i as u32,
                key_value: rows.subrange(
                    table_meta.key_start(i),
                    table_meta.key_start(i) + table_meta.key_bytes(),
                ),
            },
    )
}

/// The record of an entry in the index file: the row number in four
/// little-endian bytes, then the bytes of the key.
pub open spec fn string_record(e: StringEntry) -> Seq<u8> {
    le_bytes(e.row) + e.key_value
}

/// The entry that a record of the index file holds.
pub open spec fn parse_string_record(b: Seq<u8>) -> StringEntry {
    StringEntry { row: le_u32_at(b, 0), key_value: b.skip(4) }
}

/// The content of the index file of `s`.
pub open spec fn encode_string(s: Seq<StringEntry>) -> Seq<u8> {
    concat_records(s, |e: StringEntry| string_record(e))
}

/// The entries of an index file whose keys are `key_bytes` wide, in file
/// order.
pub open spec fn decode_string(data: Seq<u8>, key_bytes: int) -> Seq<StringEntry> {
    split_records(data, 4 + key_bytes, |b: Seq<u8>| parse_string_record(b))
}

/// Inserts `insert_value` into `index_arr` at a place where it fits between
/// its neighbours. In a sorted index that is the place a scan from the front
/// finds: before the first entry with a greater key, or with the same key and
/// a greater row number; at the end if there is none. The index stays sorted.
pub fn insert_string_index_table(
    insert_value: IndexDataStructureString,
    index_arr: &mut IndexString,
) -> (r: Result<(), IndexErr>)
    ensures
        r is Ok,
        exists|p: int|
            fits_at(old(index_arr)@, insert_value@, p, string_order())
                && final(index_arr)@ == old(index_arr)@.insert(p, insert_value@),
        old(index_arr).is_sorted() ==> final(index_arr).is_sorted()
            && final(index_arr)@ == old(index_arr)@.insert(
            insertion_point(old(index_arr)@, insert_value@, string_order()),
            insert_value@,
        ),
        old(index_arr).is_strictly_sorted() && !old(index_arr)@.contains(insert_value@)
            ==> final(index_arr).is_strictly_sorted(),
{
    let p = bisect(&index_arr.0, &insert_value);
    let ghost e = insert_value@;
    index_arr.0.insert(p, insert_value);
    proof {
        let s = old(index_arr)@;
        assert(models(old(index_arr).0@) =~= s);
        assert(index_arr@ =~= s.insert(p as int, e));
        lemma_string_order_total();
        if sorted_by(s, string_order()) {
            lemma_fit_is_insertion_point(s, e, p as int, string_order());
            lemma_insert_keeps_sorted(s, e, p as int, string_order());
        }
        if sorted_by(s, strict_part(string_order())) && !s.contains(e) {
            lemma_insert_keeps_strictly_sorted(s, e, p as int, string_order());
        }
    }
    Ok(())
}

/// No two entries of a scan are equal: their row numbers differ.
pub proof fn lemma_scan_string_distinct(table_meta: &TableMeta, rows: Seq<u8>)
    requires
        table_meta.wf(),
        table_meta.row_count(rows.len() as int) <= 0x1_0000_0000,
    ensures
        scan_string(table_meta, rows).no_duplicates(),
{
    let s = scan_string(table_meta, rows);
    assert(s.len() <= 0x1_0000_0000);
    assert forall|i: int, j: int| 0 <= i < s.len() && 0 <= j < s.len() && i != j implies s[i]
        != s[j] by {
        assert(s[i].row == i && s[j].row == j);
    }
}

/// Every key of a scan has the width that the layout gives, if the file does
/// not end inside a key.
pub proof fn lemma_scan_string_width(table_meta: &TableMeta, rows: Seq<u8>)
    requires
        table_meta.wf(),
        !table_meta.truncated(rows.len() as int),
    ensures
        keys_have_width(scan_string(table_meta, rows), table_meta.key_bytes() as int),
{
    let s = scan_string(table_meta, rows);
    assert forall|i: int| 0 <= i < s.len() implies (#[trigger] s[i]).key_value.len()
        == table_meta.key_bytes() by {
        table_meta.lemma_rows_before_last(rows.len() as int, i);
    }
}

/// Reads the entries of the rows of a table file in file order; `None` if the
/// file ends inside the key of its last row.
fn scan_string_rows(table_meta: &TableMeta, rows: &[u8]) -> (r: Option<
    Vec<IndexDataStructureString>,
>)
    requires
        table_meta.row_count(rows@.len() as int) <= 0x1_0000_0000,
    ensures
        r is None <==> table_meta.truncated(rows@.len() as int),
        r matches Some(v) ==> entries_of(v@) == scan_string(table_meta, rows@),
{
    proof {
        use_type_invariant(table_meta);
    }
    let len = rows.len();
    let n = table_meta.count_rows(len);
    let mut out: Vec<IndexDataStructureString> = Vec::new();
    if n == 0 {
        assert(entries_of(out@) =~= scan_string(table_meta, rows@));
        return Some(out);
    }
    let off = table_meta.key_offset() as usize;
    let step = table_meta.row_bytes() as usize;
    let width = table_meta.key_bytes() as usize;
    proof {
        table_meta.lemma_rows_before_last(len as int, n - 1);
        assert(table_meta.key_start(n - 1) == off + (n - 1) * step);
    }
    let last = off + (n - 1) * step;
    if len - last < width {
        return None;
    }
    let mut i: usize = 0;
    let mut pos: usize = off;
    proof {
        assert(0 * step == 0) by (nonlinear_arith);
    }
    while i < n
        invariant
            table_meta.wf(),
            len == rows@.len(),
            n == table_meta.row_count(len as int),
            n <= 0x1_0000_0000,
            step == table_meta.row_bytes(),
            width == table_meta.key_bytes(),
            table_meta.key_start(n - 1) + width <= len,
            i <= n,
            i < n ==> pos == table_meta.key_start(i as int),
            out@.len() == i,
            forall|k: int| 0 <= k < i ==> out@[k]@ == scan_string(table_meta, rows@)[k],
        decreases n - i,
    {
        proof {
            table_meta.lemma_rows_before_last(len as int, i as int);
        }
        let key_value = slice_to_vec(slice_subrange(rows, pos, pos + width));
        out.push(IndexDataStructureString { row: i as u32, key_value });
        i += 1;
        if i < n {
            proof {
                table_meta.lemma_rows_before_last(len as int, i as int);
                assert(table_meta.key_start(i as int) == table_meta.key_start(i - 1) + step)
                    by (nonlinear_arith)
                    requires
                        table_meta.key_start(i as int) == table_meta.key_offset() + i * step,
                        table_meta.key_start(i - 1) == table_meta.key_offset() + (i - 1) * step,
                ;
            }
            pos = pos + step;
        }
    }
    assert(entries_of(out@) =~= scan_string(table_meta, rows@));
    Some(out)
}

/// Adds the entries of the rows of a table file to `index_arr` and sorts the
/// whole index. Row `i` of the file has its key in the `key_bytes` bytes from
/// byte `key_offset + i * row_bytes` on; the rows are those whose key starts
/// inside the file. Fails, and leaves the index as it was, if the file ends
/// inside the key of its last row.
pub fn build_string_index_table(
    table_meta: &TableMeta,
    rows: &[u8],
    index_arr: &mut IndexString,
) -> (r: Result<(), IndexErr>)
    requires
        table_meta.key_type() is Str,
        table_meta.row_count(rows@.len() as int) <= 0x1_0000_0000,
    ensures
        r is Err <==> table_meta.truncated(rows@.len() as int),
        r is Err ==> r == Err::<(), IndexErr>(IndexErr::TruncatedRow)
            && final(index_arr)@ == old(index_arr)@,
        r is Ok ==> final(index_arr)@ == (old(index_arr)@ + scan_string(
            table_meta,
            rows@,
        )).sort_by(string_order()),
        r is Ok ==> final(index_arr).is_sorted(),
        r is Ok && (old(index_arr)@ + scan_string(table_meta, rows@)).no_duplicates()
            ==> final(index_arr).is_strictly_sorted(),
        r is Ok && old(index_arr)@.len() == 0 ==> final(index_arr).is_strictly_sorted(),
        r is Ok && keys_have_width(old(index_arr)@, table_meta.key_bytes() as int)
            ==> keys_have_width(final(index_arr)@, table_meta.key_bytes() as int),
{
    match scan_string_rows(table_meta, rows) {
        None => Err(IndexErr::TruncatedRow),
        Some(mut scanned) => {
            let ghost all = old(index_arr)@ + scan_string(table_meta, rows@);
            let mut items: Vec<IndexDataStructureString> = Vec::new();
            items.append(&mut index_arr.0);
            items.append(&mut scanned);
            assert(models(items@) =~= all);
            let sorted = sort(items);
            index_arr.0 = sorted;
            proof {
                assert(models(sorted@) =~= entries_of(sorted@));
                lemma_string_order_total();
                all.lemma_sort_by_ensures(string_order());
                if all.no_duplicates() {
                    lemma_sorted_form_strict(all, string_order());
                }
                use_type_invariant(table_meta);
                if old(index_arr)@.len() == 0 {
                    lemma_scan_string_distinct(table_meta, rows@);
                    assert(all =~= scan_string(table_meta, rows@));
                }
                if keys_have_width(old(index_arr)@, table_meta.key_bytes() as int) {
                    let width = table_meta.key_bytes() as int;
                    let scan = scan_string(table_meta, rows@);
                    lemma_scan_string_width(table_meta, rows@);
                    assert forall|i: int| 0 <= i < index_arr@.len() implies (
                    #[trigger] index_arr@[i]).key_value.len() == width by {
                        let e = index_arr@[i];
                        assert(index_arr@.contains(e));
                        assert(all.contains(e));
                        let j = choose|j: int| 0 <= j < all.len() && all[j] == e;
                        if j < old(index_arr)@.len() {
                            assert(all[j] == old(index_arr)@[j]);
                        } else {
                            assert(all[j] == scan[j - old(index_arr)@.len()]);
                        }
                    }
                }
            }
            Ok(())
        },
    }
}

/// A record read back gives the entry it was written from.
proof fn lemma_string_record(e: StringEntry)
    ensures
        string_record(e).len() == 4 + e.key_value.len(),
        parse_string_record(string_record(e)) == e,
{
    lemma_le_bytes_decode(e.row);
    let b = string_record(e);
    assert(b[0] == le_bytes(e.row)[0] && b[1] == le_bytes(e.row)[1] && b[2] == le_bytes(e.row)[2]
        && b[3] == le_bytes(e.row)[3]);
    assert(b.skip(4) =~= e.key_value);
}

/// Reading an index file that was written from `s`, whose keys all have the
/// width of the layout, gives `s` back.
pub proof fn lemma_string_round_trip(s: Seq<StringEntry>, key_bytes: int)
    requires
        0 <= key_bytes,
        keys_have_width(s, key_bytes),
    ensures
        encode_string(s).len() as int % (4 + key_bytes) == 0,
        decode_string(encode_string(s), key_bytes) == s,
{
    let record = |e: StringEntry| string_record(e);
    let parse = |b: Seq<u8>| parse_string_record(b);
    assert forall|i: int| 0 <= i < s.len() implies (#[trigger] record(s[i])).len() == 4
        + key_bytes && parse(record(s[i])) == s[i] by {
        lemma_string_record(s[i]);
    }
    lemma_split_concat(s, record, parse, 4 + key_bytes);
}

/// Whether every key of `v` is `width` bytes long.
fn all_keys_have_width(v: &Vec<IndexDataStructureString>, width: u32) -> (b: bool)
    ensures
        b == keys_have_width(entries_of(v@), width as int),
{
    let mut i: usize = 0;
    while i < v.len()
        invariant
            i <= v.len(),
            keys_have_width(entries_of(v@).take(i as int), width as int),
        decreases v.len() - i,
    {
        if v[i].key_value.len() != width as usize {
            assert(entries_of(v@)[i as int].key_value.len() != width);
            return false;
        }
        proof {
            let t = entries_of(v@).take(i + 1);
            assert forall|k: int| 0 <= k < t.len() implies (#[trigger] t[k]).key_value.len()
                == width by {
                if k < i {
                    assert(t[k] == entries_of(v@).take(i as int)[k]);
                }
            }
        }
        i += 1;
    }
    assert(entries_of(v@).take(i as int) =~= entries_of(v@));
    true
}

/// Replaces the content of `sink` by the index file of `index_arr`: for each
/// entry in order its row number in four little-endian bytes, then its key.
/// Fails, and leaves `sink` as it was, if some key has not the width that the
/// layout gives.
pub fn write_string_index_table(
    table_meta: &TableMeta,
    index_arr: &IndexString,
    sink: &mut Vec<u8>,
) -> (r: Result<(), IndexErr>)
    requires
        table_meta.key_type() is Str,
    ensures
        r is Ok <==> keys_have_width(index_arr@, table_meta.key_bytes() as int),
        r is Err ==> r == Err::<(), IndexErr>(IndexErr::CorruptIndex)
            && final(sink)@ == old(sink)@,
        r is Ok ==> final(sink)@ == encode_string(index_arr@),
{
    if !all_keys_have_width(&index_arr.0, table_meta.key_bytes()) {
        return Err(IndexErr::CorruptIndex);
    }
    sink.clear();
    let n = index_arr.0.len();
    let mut i: usize = 0;
    while i < n
        invariant
            n == index_arr@.len(),
            i <= n,
            sink@ == encode_string(index_arr@.take(i as int)),
        decreases n - i,
    {
        let ghost before = sink@;
        write_u32(sink, index_arr.0[i].row);
        append_bytes(sink, index_arr.0[i].key_value.as_slice());
        proof {
            let t = index_arr@.take(i + 1);
            assert(t.drop_last() =~= index_arr@.take(i as int));
            assert(t.last() == index_arr.0[i as int]@);
            assert(sink@ =~= before + string_record(t.last()));
        }
        i += 1;
    }
    proof {
        assert(index_arr@.take(n as int) =~= index_arr@);
    }
    Ok(())
}

/// Appends the entries of an index file to `index_arr`, in file order. A
/// record is four bytes of row number and `key_bytes` bytes of key. Fails,
/// and leaves the index as it was, if the file is not made of whole records.
pub fn read_string_index_table(
    table_meta: &TableMeta,
    data: &[u8],
    index_arr: &mut IndexString,
) -> (r: Result<(), IndexErr>)
    requires
        table_meta.key_type() is Str,
    ensures
        r is Err <==> data@.len() as int % table_meta.record_bytes() != 0,
        r is Err ==> r == Err::<(), IndexErr>(IndexErr::CorruptIndex)
            && final(index_arr)@ == old(index_arr)@,
        r is Ok ==> final(index_arr)@ == old(index_arr)@ + decode_string(
            data@,
            table_meta.key_bytes() as int,
        ),
{
    let len = data.len();
    let key_bytes = table_meta.key_bytes();
    let ghost all = decode_string(data@, key_bytes as int);
    if len == 0 {
        assert(index_arr@ =~= old(index_arr)@ + all);
        return Ok(());
    }
    if (len as u64) < 4 + key_bytes as u64 {
        proof {
            vstd::arithmetic::div_mod::lemma_small_mod(len as nat, (4 + key_bytes) as nat);
        }
        return Err(IndexErr::CorruptIndex);
    }
    let width: usize = 4 + key_bytes as usize;
    if len % width != 0 {
        return Err(IndexErr::CorruptIndex);
    }
    let n = len / width;
    let mut i: usize = 0;
    let mut pos: usize = 0;
    proof {
        vstd::arithmetic::div_mod::lemma_fundamental_div_mod(len as int, width as int);
        assert(0 * width == 0) by (nonlinear_arith);
    }
    while i < n
        invariant
            len == data@.len(),
            width == 4 + key_bytes,
            key_bytes == table_meta.key_bytes(),
            all == decode_string(data@, key_bytes as int),
            all.len() == n,
            len == width * n,
            i <= n,
            pos == i * width,
            index_arr@ == old(index_arr)@ + all.take(i as int),
        decreases n - i,
    {
        proof {
            assert((i + 1) * width == i * width + width && (i + 1) * width <= width * n)
                by (nonlinear_arith)
                requires
                    i < n,
                    width > 0,
            ;
        }
        let row = read_u32(data, pos);
        let key_value = slice_to_vec(slice_subrange(data, pos + 4, pos + width));
        let ghost placed = index_arr@;
        index_arr.0.push(IndexDataStructureString { row, key_value });
        proof {
            let b = record_at(data@, width as int, i as int);
            assert(b[0] == data@[pos as int] && b[1] == data@[pos + 1] && b[2] == data@[pos + 2]
                && b[3] == data@[pos + 3]);
            assert(b.skip(4) =~= data@.subrange(pos + 4, pos + width));
            assert(all[i as int] == parse_string_record(b));
            assert(all.take(i + 1) =~= all.take(i as int).push(all[i as int]));
            assert(index_arr@ =~= placed.push(all[i as int]));
        }
        i += 1;
        pos = pos + width;
    }
    proof {
        assert(all.take(n as int) =~= all);
    }
    Ok(())
}


} // verus!
