//! The row format of a table file: how wide a row is and where its key lies.

use vstd::prelude::*;
use vstd::arithmetic::div_mod::lemma_fundamental_div_mod_converse;

verus! {

/// How the primary key of a table is stored.
#[derive(Clone, Copy, Debug, PartialEq, Eq)]
pub enum KeyKind {
    /// A 32-bit unsigned integer, four bytes, least significant byte first.
    Int,
    /// A byte string; the argument is the declared maximum length.
    Str(u32),
}

/// The row format of one table. A value never changes once it is made, and
/// always satisfies [`TableMeta::wf`].
#[derive(Debug)]
pub struct TableMeta {
    table_name: String,
    key_type: KeyKind,
    key_offset: u32,
    key_bytes: u32,
    row_bytes: u32,
}

/// What a row format must satisfy: a row is not empty, the key lies inside the
/// row, and an integer key is four bytes wide.
pub open spec fn valid_layout(key_type: KeyKind, key_offset: u32, key_bytes: u32, row_bytes: u32) -> bool {
    &&& row_bytes > 0
    &&& key_offset + key_bytes <= row_bytes
    &&& key_type is Int ==> key_bytes == 4
}

impl TableMeta {
    /// The name of the table.
    pub closed spec fn spec_table_name(&self) -> Seq<char> {
        self.table_name@
    }

    /// How the key is stored.
    pub closed spec fn spec_key_type(&self) -> KeyKind {
        self.key_type
    }

    /// The offset of the key from the start of a row, in bytes.
    pub closed spec fn spec_key_offset(&self) -> u32 {
        self.key_offset
    }

    /// The width of the key in bytes.
    pub closed spec fn spec_key_bytes(&self) -> u32 {
        self.key_bytes
    }

    /// The width of a row in bytes.
    pub closed spec fn spec_row_bytes(&self) -> u32 {
        self.row_bytes
    }

    /// The invariant of the type.
    #[verifier::type_invariant]
    pub open spec fn wf(&self) -> bool {
        valid_layout(
            self.spec_key_type(),
            self.spec_key_offset(),
            self.spec_key_bytes(),
            self.spec_row_bytes(),
        )
    }

    /// The position in the file of the key of row `row`.
    pub open spec fn key_start(&self, row: int) -> int {
        self.spec_key_offset() + row * self.spec_row_bytes()
    }

    /// The number of rows of a file of `len` bytes: the rows whose key starts
    /// inside the file.
    pub open spec fn row_count(&self, len: int) -> int {
        if len <= self.spec_key_offset() {
            0
        } else {
            (len - self.spec_key_offset() - 1) / (self.spec_row_bytes() as int) + 1
        }
    }

    /// The file ends inside the key of its last row.
    pub open spec fn truncated(&self, len: int) -> bool {
        self.row_count(len) > 0 && self.key_start(self.row_count(len) - 1) + self.spec_key_bytes()
            > len
    }

    /// The width of a record of the index file: a row number and a key.
    pub open spec fn record_bytes(&self) -> int {
        4 + self.spec_key_bytes()
    }

    /// `n` is the row count exactly when the key of row `n - 1` starts inside
    /// the file and that of row `n` does not.
    pub proof fn lemma_row_count(&self, len: int, n: int)
        requires
            self.wf(),
            0 <= len,
            0 <= n,
            n > 0 ==> self.key_start(n - 1) < len,
            len <= self.key_start(n),
        ensures
            n == self.row_count(len),
    {
        let r = self.spec_row_bytes() as int;
        let off = self.spec_key_offset() as int;
        if n == 0 {
            assert(n * r == 0) by (nonlinear_arith)
                requires
                    n == 0,
            ;
        } else {
            assert(self.key_start(n) == self.key_start(n - 1) + r) by (nonlinear_arith)
                requires
                    self.key_start(n) == off + n * r,
                    self.key_start(n - 1) == off + (n - 1) * r,
            ;
            assert(0 <= (n - 1) * r) by (nonlinear_arith)
                requires
                    n >= 1,
                    r > 0,
            ;
            let rest = len - 1 - self.key_start(n - 1);
            assert(len - off - 1 == (n - 1) * r + rest);
            lemma_fundamental_div_mod_converse(len - off - 1, r, n - 1, rest);
        }
    }

    /// Every row but the last has its whole key, and its whole row, in the file.
    pub proof fn lemma_rows_before_last(&self, len: int, i: int)
        requires
            self.wf(),
            0 <= i < self.row_count(len),
        ensures
            0 <= self.key_start(i) < len,
            i + 1 < self.row_count(len) ==> self.key_start(i) + self.spec_key_bytes() <= len,
    {
        let r = self.spec_row_bytes() as int;
        let off = self.spec_key_offset() as int;
        let n = self.row_count(len);
        let q = (len - off - 1) / r;
        vstd::arithmetic::div_mod::lemma_fundamental_div_mod(len - off - 1, r);
        vstd::arithmetic::div_mod::lemma_mod_bound(len - off - 1, r);
        assert(0 <= i * r && i * r <= q * r) by (nonlinear_arith)
            requires
                0 <= i <= q,
                r > 0,
        ;
        assert(r * q == q * r) by (nonlinear_arith);
        if i + 1 < n {
            assert((i + 1) * r <= q * r && (i + 1) * r == i * r + r) by (nonlinear_arith)
                requires
                    0 <= i + 1 <= q,
                    r > 0,
            ;
        }
    }

    /// A row format, if the arguments describe one.
    pub fn new(
        table_name: String,
        key_type: KeyKind,
        key_offset: u32,
        key_bytes: u32,
        row_bytes: u32,
    ) -> (r: Option<TableMeta>)
        ensures
            r is Some <==> valid_layout(key_type, key_offset, key_bytes, row_bytes),
            r matches Some(m) ==> {
                &&& m.wf()
                &&& m.spec_table_name() == table_name@
                &&& m.spec_key_type() == key_type
                &&& m.spec_key_offset() == key_offset
                &&& m.spec_key_bytes() == key_bytes
                &&& m.spec_row_bytes() == row_bytes
            },
    {
        let width_ok = match key_type {
            KeyKind::Int => key_bytes == 4,
            KeyKind::Str(_) => true,
        };
        if row_bytes > 0 && key_bytes <= row_bytes && key_offset <= row_bytes - key_bytes
            && width_ok {
            Some(TableMeta { table_name, key_type, key_offset, key_bytes, row_bytes })
        } else {
            None
        }
    }

    /// The number of rows of a file of `len` bytes.
    pub fn count_rows(&self, len: usize) -> (n: usize)
        ensures
            n == self.row_count(len as int),
    {
        proof {
            use_type_invariant(self);
        }
        let off = self.key_offset as usize;
        if len <= off {
            0
        } else {
            let q = (len - off - 1) / (self.row_bytes as usize);
            q + 1
        }
    }

    /// The name of the table.
    pub fn table_name(&self) -> (name: &str)
        ensures
            name@ == self.spec_table_name(),
    {
        self.table_name.as_str()
    }

    /// How the key is stored.
    #[verifier::when_used_as_spec(spec_key_type)]
    pub fn key_type(&self) -> (kind: KeyKind)
        ensures
            kind == self.spec_key_type(),
    {
        self.key_type
    }

    /// The offset of the key from the start of a row, in bytes.
    #[verifier::when_used_as_spec(spec_key_offset)]
    pub fn key_offset(&self) -> (offset: u32)
        ensures
            offset == self.spec_key_offset(),
    {
        self.key_offset
    }

    /// The width of the key in bytes.
    #[verifier::when_used_as_spec(spec_key_bytes)]
    pub fn key_bytes(&self) -> (width: u32)
        ensures
            width == self.spec_key_bytes(),
    {
        self.key_bytes
    }

    /// The width of a row in bytes.
    #[verifier::when_used_as_spec(spec_row_bytes)]
    pub fn row_bytes(&self) -> (width: u32)
        ensures
            width == self.spec_row_bytes(),
    {
        self.row_bytes
    }
}

impl Clone for TableMeta {
    fn clone(&self) -> (copy: TableMeta)
        ensures
            copy == *self,
    {
        proof {
            use_type_invariant(self);
        }
        TableMeta {
            table_name: self.table_name.clone(),
            key_type: self.key_type,
            key_offset: self.key_offset,
            key_bytes: self.key_bytes,
            row_bytes: self.row_bytes,
        }
    }
}

} // verus!
