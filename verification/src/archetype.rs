//! Archetype storage: tables of entities that share one set of component keys.
//!
//! Each row of an archetype is one entity; each column holds the values of
//! one component key, packed back to back in a single byte vector.  Adding or
//! removing a component moves an entity to another archetype.

use vstd::prelude::*;

use crate::entity::EntityId;

verus! {

/// `n` zero bytes.
pub open spec fn zeros(n: nat) -> Seq<u8> {
    Seq::new(n, |i: int| 0u8)
}

/// The bytes `data` read as consecutive rows of `size` bytes each.  A column
/// of zero-sized values holds no rows.
pub open spec fn rows_of(data: Seq<u8>, size: nat) -> Seq<Seq<u8>> {
    if size == 0 {
        Seq::empty()
    } else {
        Seq::new(data.len() / size, |r: int| data.subrange(r * size, r * size + size))
    }
}

/// A byte vector that holds whole rows of `size` bytes.
pub open spec fn whole_rows(data: Seq<u8>, size: nat) -> bool {
    if size == 0 {
        data.len() == 0
    } else {
        data.len() % size == 0
    }
}

/// `rows` extended with zero rows of `size` bytes up to length `n`.
pub open spec fn padded(rows: Seq<Seq<u8>>, n: nat, size: nat) -> Seq<Seq<u8>> {
    if rows.len() >= n {
        rows
    } else {
        rows + Seq::new((n - rows.len()) as nat, |i: int| zeros(size))
    }
}

proof fn lemma_row_within(r: int, k: int, s: int)
    requires
        0 <= r < k,
        0 <= s,
    ensures
        0 <= r * s,
        r * s + s <= k * s,
{
    assert(0 <= r * s) by (nonlinear_arith)
        requires
            0 <= r,
            0 <= s,
    ;
    assert(r * s + s <= k * s) by (nonlinear_arith)
        requires
            0 <= r < k,
            0 <= s,
    ;
}

proof fn lemma_rows_apart(r: int, q: int, s: int)
    requires
        0 <= r < q,
        0 <= s,
    ensures
        r * s + s <= q * s,
{
    lemma_row_within(r, q, s);
}

proof fn lemma_whole_len(data: Seq<u8>, s: nat)
    requires
        s > 0,
        data.len() % s == 0,
    ensures
        data.len() == (data.len() / s) * s,
        rows_of(data, s).len() == data.len() / s,
        rows_of(data, s).len() <= data.len(),
{
    vstd::arithmetic::div_mod::lemma_fundamental_div_mod(data.len() as int, s as int);
    let k: int = (data.len() / s) as int;
    assert(s * k == k * s) by (nonlinear_arith);
    assert(k <= k * s) by (nonlinear_arith)
        requires
            0 <= k,
            1 <= s,
    ;
}

proof fn lemma_multiple(k: nat, s: nat)
    requires
        s > 0,
    ensures
        (k * s) % s == 0,
        (k * s) / s == k,
{
    vstd::arithmetic::div_mod::lemma_div_multiples_vanish(k as int, s as int);
    vstd::arithmetic::div_mod::lemma_mod_multiples_basic(k as int, s as int);
    assert(s * k == k * s) by (nonlinear_arith);
}

/// The bytes of row `r` of `rows_of(data, s)` are the bytes `data[r * s ..]`.
proof fn lemma_row_bytes(data: Seq<u8>, s: nat, r: int, i: int)
    requires
        s > 0,
        whole_rows(data, s),
        0 <= r < rows_of(data, s).len(),
        0 <= i < s,
    ensures
        rows_of(data, s)[r].len() == s,
        rows_of(data, s)[r][i] == data[r * s + i],
        r * s + s <= data.len(),
{
    lemma_whole_len(data, s);
    lemma_row_within(r, (data.len() / s) as int, s as int);
}

proof fn lemma_rows_push(data: Seq<u8>, s: nat, extra: Seq<u8>)
    requires
        s > 0,
        whole_rows(data, s),
        extra.len() == s,
    ensures
        whole_rows(data + extra, s),
        rows_of(data + extra, s) =~= rows_of(data, s).push(extra),
{
    lemma_whole_len(data, s);
    let k: int = (data.len() / s) as int;
    assert((k + 1) * s == k * s + s) by (nonlinear_arith);
    lemma_multiple((k + 1) as nat, s);
    let d2 = data + extra;
    assert(d2.len() == (k + 1) * s);
    assert forall|r: int| 0 <= r < k + 1 implies #[trigger] rows_of(d2, s)[r] =~= rows_of(
        data,
        s,
    ).push(extra)[r] by {
        lemma_row_within(r, k + 1, s as int);
        if r < k {
            lemma_row_within(r, k, s as int);
            assert(d2.subrange(r * s, r * s + s) =~= data.subrange(r * s, r * s + s));
        } else {
            assert(d2.subrange(r * s, r * s + s) =~= extra);
        }
    }
}

proof fn lemma_rows_padded_step(data: Seq<u8>, s: nat, base: Seq<Seq<u8>>, n: nat)
    requires
        s > 0,
        whole_rows(data, s),
        rows_of(data, s) == padded(base, n, s),
        rows_of(data, s).len() == n,
        base.len() <= n,
    ensures
        whole_rows(data + zeros(s), s),
        rows_of(data + zeros(s), s) == padded(base, n + 1, s),
{
    lemma_rows_push(data, s, zeros(s));
    assert(padded(base, n + 1, s) =~= padded(base, n, s).push(zeros(s)));
}

proof fn lemma_rows_splice(data: Seq<u8>, s: nat, row: int, bytes: Seq<u8>)
    requires
        s > 0,
        whole_rows(data, s),
        0 <= row < rows_of(data, s).len(),
        bytes.len() == s,
    ensures
        row * s + s <= data.len(),
        whole_rows(
            data.subrange(0, row * s) + bytes + data.subrange(row * s + s, data.len() as int),
            s,
        ),
        rows_of(
            data.subrange(0, row * s) + bytes + data.subrange(row * s + s, data.len() as int),
            s,
        ) =~= rows_of(data, s).update(row, bytes),
{
    lemma_whole_len(data, s);
    let k: int = (data.len() / s) as int;
    lemma_row_within(row, k, s as int);
    let d2 = data.subrange(0, row * s) + bytes + data.subrange(row * s + s, data.len() as int);
    assert(d2.len() == data.len());
    assert forall|r: int| 0 <= r < k implies #[trigger] rows_of(d2, s)[r] =~= rows_of(
        data,
        s,
    ).update(row, bytes)[r] by {
        lemma_row_within(r, k, s as int);
        if r < row {
            lemma_rows_apart(r, row, s as int);
            assert(d2.subrange(r * s, r * s + s) =~= data.subrange(r * s, r * s + s));
        } else if r > row {
            lemma_rows_apart(row, r, s as int);
            assert(d2.subrange(r * s, r * s + s) =~= data.subrange(r * s, r * s + s));
        } else {
            assert(d2.subrange(r * s, r * s + s) =~= bytes);
        }
    }
}

proof fn lemma_rows_truncate(data: Seq<u8>, s: nat)
    requires
        s > 0,
        whole_rows(data, s),
        rows_of(data, s).len() > 0,
    ensures
        (rows_of(data, s).len() - 1) * s <= data.len(),
        whole_rows(data.subrange(0, (rows_of(data, s).len() - 1) * s), s),
        rows_of(data.subrange(0, (rows_of(data, s).len() - 1) * s), s) =~= rows_of(
            data,
            s,
        ).drop_last(),
{
    lemma_whole_len(data, s);
    let k: int = (data.len() / s) as int;
    lemma_row_within(k - 1, k, s as int);
    lemma_multiple((k - 1) as nat, s);
    let d2 = data.subrange(0, (k - 1) * s);
    assert forall|r: int| 0 <= r < k - 1 implies #[trigger] rows_of(d2, s)[r] =~= rows_of(
        data,
        s,
    )[r] by {
        lemma_row_within(r, k - 1, s as int);
        lemma_row_within(r, k, s as int);
    }
}

/// Contiguous byte storage for one component key.
pub struct Column {
    /// Size in bytes of one value.
    item_size: usize,
    /// The values, back to back; its length is always a multiple of `item_size`.
    data: Vec<u8>,
}

impl Column {
    /// Size in bytes of one value.
    pub closed spec fn size(&self) -> nat {
        self.item_size as nat
    }

    /// The stored values, one per row.
    pub closed spec fn rows(&self) -> Seq<Seq<u8>> {
        rows_of(self.data@, self.item_size as nat)
    }

    /// The value that row `r` reads as: the row's bytes, or no bytes at all
    /// when values are zero-sized.
    pub open spec fn cell(&self, r: int) -> Seq<u8> {
        if self.size() == 0 {
            Seq::empty()
        } else {
            self.rows()[r]
        }
    }

    pub closed spec fn wf(&self) -> bool {
        whole_rows(self.data@, self.item_size as nat)
    }

    /// A column holds `n` rows; zero-sized columns hold every row count.
    pub open spec fn holds_rows(&self, n: nat) -> bool {
        self.wf() && (self.size() == 0 || self.rows().len() == n)
    }

    pub fn new(item_size: usize) -> (r: Self)
        ensures
            r.wf(),
            r.size() == item_size,
            r.rows() == Seq::<Seq<u8>>::empty(),
    {
        let r = Column { item_size, data: Vec::new() };
        proof {
            if item_size > 0 {
                vstd::arithmetic::div_mod::lemma_small_mod(0, item_size as nat);
            }
            assert(r.rows() =~= Seq::<Seq<u8>>::empty());
        }
        r
    }

    /// Number of values stored.
    pub fn len(&self) -> (r: usize)
        ensures
            r == self.rows().len(),
    {
        if self.item_size == 0 {
            0
        } else {
            self.data.len() / self.item_size
        }
    }

    /// Append a zeroed value.
    pub fn push_zeroed(&mut self)
        requires
            old(self).wf(),
        ensures
            final(self).wf(),
            final(self).size() == old(self).size(),
            old(self).size() > 0 ==> final(self).rows() == old(self).rows().push(
                zeros(old(self).size()),
            ),
            old(self).size() == 0 ==> final(self).rows() == old(self).rows(),
            old(self).size() > 0 ==> column_step(*old(self), ColumnOp::PushZeroed, *final(self)),
    {
        let s = self.item_size;
        let ghost before = self.data@;
        let mut i: usize = 0;
        while i < s
            invariant
                self.item_size == s,
                i <= s,
                self.data@ == before + zeros(i as nat),
            decreases s - i,
        {
            self.data.push(0u8);
            i = i + 1;
            proof {
                assert(self.data@ =~= before + zeros(i as nat));
            }
        }
        proof {
            if s > 0 {
                lemma_rows_push(before, s as nat, zeros(s as nat));
            } else {
                assert(self.data@ =~= before);
            }
        }
    }

    /// Write `bytes` as the value of `row`, first extending the column with
    /// zeroed values up to `row` when it is shorter.
    pub fn write_raw(&mut self, row: usize, bytes: &[u8])
        requires
            old(self).wf(),
            bytes@.len() == old(self).size(),
        ensures
            final(self).wf(),
            final(self).size() == old(self).size(),
            old(self).size() > 0 ==> final(self).rows() == padded(
                old(self).rows(),
                row as nat + 1,
                old(self).size(),
            ).update(row as int, bytes@),
            old(self).size() == 0 ==> final(self).rows() == old(self).rows(),
            old(self).size() > 0 ==> column_step(*old(self), ColumnOp::Write(row), *final(self)),
    {
        let s = self.item_size;
        if s == 0 {
            return;
        }
        let ghost base = self.rows();
        let mut n = self.data.len() / s;
        proof {
            lemma_whole_len(self.data@, s as nat);
            assert(padded(base, n as nat, s as nat) == base);
        }
        while n <= row
            invariant
                self.item_size == s,
                s > 0,
                self.wf(),
                self.rows().len() == n,
                self.rows() == padded(base, n as nat, s as nat),
                base.len() <= n,
                n > row + 1 ==> n == base.len(),
            decreases row + 1 - n,
        {
            let ghost d0 = self.data@;
            self.push_zeroed();
            // the byte count is a `usize`, which bounds the row count
            let byte_count = self.data.len();
            proof {
                assert(self.data@.len() == byte_count);
                lemma_rows_padded_step(d0, s as nat, base, n as nat);
                lemma_whole_len(self.data@, s as nat);
            }
            n = n + 1;
        }
        let ghost mid = self.data@;
        let dl = self.data.len();
        proof {
            lemma_rows_splice(mid, s as nat, row as int, bytes@);
            assert(padded(base, n as nat, s as nat) =~= padded(base, row as nat + 1, s as nat));
        }
        let start = row * s;
        let mut i: usize = 0;
        while i < s
            invariant
                self.item_size == s,
                s > 0,
                i <= s,
                start == row * s,
                start + s <= mid.len(),
                mid.len() == dl,
                bytes@.len() == s,
                self.data@ == mid.subrange(0, start as int) + bytes@.subrange(0, i as int)
                    + mid.subrange(start + i, mid.len() as int),
            decreases s - i,
        {
            self.data.set(start + i, bytes[i]);
            i = i + 1;
            proof {
                assert(self.data@ =~= mid.subrange(0, start as int) + bytes@.subrange(0, i as int)
                    + mid.subrange(start + i, mid.len() as int));
            }
        }
        proof {
            assert(bytes@.subrange(0, s as int) =~= bytes@);
            assert(column_step(*old(self), ColumnOp::Write(row), *self));
        }
    }

    /// A copy of the value stored at `row`.
    pub fn row_bytes(&self, row: usize) -> (r: Vec<u8>)
        requires
            self.wf(),
            self.size() == 0 || row < self.rows().len(),
        ensures
            r@ == self.cell(row as int),
    {
        let s = self.item_size;
        let mut out: Vec<u8> = Vec::new();
        if s == 0 {
            return out;
        }
        let dl = self.data.len();
        proof {
            lemma_row_bytes(self.data@, s as nat, row as int, 0);
        }
        let start = row * s;
        let mut i: usize = 0;
        while i < s
            invariant
                s == self.item_size,
                s > 0,
                i <= s,
                start == row * s,
                start + s <= self.data@.len(),
                self.data@.len() == dl,
                row < self.rows().len(),
                self.wf(),
                out@ =~= self.rows()[row as int].subrange(0, i as int),
            decreases s - i,
        {
            proof {
                lemma_row_bytes(self.data@, s as nat, row as int, i as int);
            }
            out.push(self.data[start + i]);
            i = i + 1;
            proof {
                assert(out@ =~= self.rows()[row as int].subrange(0, i as int));
            }
        }
        proof {
            lemma_row_bytes(self.data@, s as nat, row as int, 0);
            assert(out@ =~= self.rows()[row as int]);
        }
        out
    }

    /// Remove the value at `row` by moving the last value into its place.
    /// Returns `Some(())` when a value is left in the column, `None` when the
    /// column is now empty (it changes nothing when it held no value).
    pub fn swap_remove_row(&mut self, row: usize) -> (r: Option<()>)
        requires
            old(self).wf(),
            old(self).rows().len() == 0 || row < old(self).rows().len(),
        ensures
            final(self).wf(),
            final(self).size() == old(self).size(),
            r is None <==> old(self).rows().len() <= 1,
            old(self).rows().len() == 0 ==> final(self).rows() == old(self).rows(),
            old(self).rows().len() > 0 ==> final(self).rows() == old(self).rows().update(
                row as int,
                old(self).rows().last(),
            ).drop_last(),
            column_step(*old(self), ColumnOp::SwapRemove(row), *final(self)),
    {
        let len = self.len();
        if len == 0 {
            return None;
        }
        let s = self.item_size;
        let last_row = len - 1;
        let ghost d0 = self.data@;
        let dl = self.data.len();
        let ghost last_bytes = self.rows()[last_row as int];
        proof {
            lemma_row_bytes(d0, s as nat, last_row as int, 0);
            lemma_row_bytes(d0, s as nat, row as int, 0);
        }
        if row != last_row {
            let start = row * s;
            let last_start = last_row * s;
            proof {
                lemma_rows_splice(d0, s as nat, row as int, last_bytes);
                lemma_rows_apart(row as int, last_row as int, s as int);
            }
            let mut i: usize = 0;
            while i < s
                invariant
                    self.item_size == s,
                    s > 0,
                    i <= s,
                    start == row * s,
                    last_start == last_row * s,
                    start + s <= d0.len(),
                    last_start + s <= d0.len(),
                    d0.len() == dl,
                    last_bytes == d0.subrange(last_start as int, last_start + s),
                    row != last_row,
                    row < last_row,
                    start + s <= last_start,
                    self.data@ == d0.subrange(0, start as int) + last_bytes.subrange(0, i as int)
                        + d0.subrange(start + i, d0.len() as int),
                decreases s - i,
            {
                let b = self.data[last_start + i];
                self.data.set(start + i, b);
                i = i + 1;
                proof {
                    assert(self.data@ =~= d0.subrange(0, start as int) + last_bytes.subrange(
                        0,
                        i as int,
                    ) + d0.subrange(start + i, d0.len() as int));
                }
            }
            proof {
                assert(last_bytes.subrange(0, s as int) =~= last_bytes);
            }
        }
        let ghost d1 = self.data@;
        proof {
            if row == last_row {
                assert(d1 =~= d0);
                assert(rows_of(d0, s as nat).update(row as int, last_bytes) =~= rows_of(d0, s as nat));
            }
            lemma_rows_truncate(d1, s as nat);
        }
        self.data.truncate(last_row * s);
        if last_row == 0 {
            None
        } else {
            Some(())
        }
    }
}


/// A call that changes a column.
pub enum ColumnOp {
    /// `push_zeroed`.
    PushZeroed,
    /// `write_raw` at the given row.
    Write(usize),
    /// `swap_remove_row` of the given row.
    SwapRemove(usize),
}

/// `after` is what `op` makes of `before`, as the contracts of
/// `push_zeroed`, `write_raw` (with some value of the column's size) and
/// `swap_remove_row` state it for a column of non-zero-sized values.
pub open spec fn column_step(before: Column, op: ColumnOp, after: Column) -> bool {
    &&& after.size() == before.size()
    &&& match op {
        ColumnOp::PushZeroed => after.rows() == before.rows().push(zeros(before.size())),
        ColumnOp::Write(row) => {
            &&& row < after.rows().len()
            &&& after.rows()[row as int].len() == before.size()
            &&& after.rows() == padded(before.rows(), row as nat + 1, before.size()).update(
                row as int,
                after.rows()[row as int],
            )
        },
        ColumnOp::SwapRemove(row) => {
            ||| before.rows().len() == 0 && after.rows() == before.rows()
            ||| row < before.rows().len() && after.rows() == before.rows().update(
                row as int,
                before.rows().last(),
            ).drop_last()
        },
    }
}

/// The number of rows after the calls `ops`, starting from `n` rows: one
/// more per `push_zeroed`, at least `row + 1` after a write at `row`, one
/// less per `swap_remove_row` on a non-empty column.
pub open spec fn rows_after(n: nat, ops: Seq<ColumnOp>) -> nat
    decreases ops.len(),
{
    if ops.len() == 0 {
        n
    } else {
        let m = rows_after(n, ops.drop_last());
        match ops.last() {
            ColumnOp::PushZeroed => m + 1,
            ColumnOp::Write(row) => if m > row {
                m
            } else {
                row as nat + 1
            },
            ColumnOp::SwapRemove(_) => if m > 0 {
                (m - 1) as nat
            } else {
                0
            },
        }
    }
}

/// Over any sequence of calls on a column of non-zero-sized values, its row
/// count follows `rows_after`, and every row it holds has the column's size.
pub proof fn law_column_row_count(cols: Seq<Column>, ops: Seq<ColumnOp>)
    requires
        cols.len() == ops.len() + 1,
        cols[0].size() > 0,
        forall|i: int| 0 <= i < cols.len() ==> (#[trigger] cols[i]).wf(),
        forall|i: int| 0 <= i < ops.len() ==> column_step(cols[i], #[trigger] ops[i], cols[i + 1]),
    ensures
        cols.last().size() == cols[0].size(),
        cols.last().rows().len() == rows_after(cols[0].rows().len(), ops),
        forall|r: int| 0 <= r < cols.last().rows().len() ==> #[trigger] cols.last().cell(r).len() == cols[0].size(),
    decreases ops.len(),
{
    if ops.len() > 0 {
        let k = ops.len() - 1;
        let c0 = cols.drop_last();
        let o0 = ops.drop_last();
        assert forall|i: int| 0 <= i < o0.len() implies column_step(c0[i], #[trigger] o0[i], c0[i + 1]) by {
            assert(ops[i] == o0[i]);
            assert(cols[i] == c0[i]);
            assert(cols[i + 1] == c0[i + 1]);
        }
        assert forall|i: int| 0 <= i < c0.len() implies (#[trigger] c0[i]).wf() by {
            assert(cols[i] == c0[i]);
        }
        law_column_row_count(c0, o0);
        assert(column_step(cols[k], ops[k], cols[k + 1]));
        assert(c0.last() == cols[k]);
        let before = cols[k];
    }
    let last = cols.last();
    assert forall|r: int| 0 <= r < last.rows().len() implies #[trigger] last.cell(r).len() == cols[0].size() by {
        lemma_row_bytes(last.data@, last.size(), r, 0);
    }
}

/// A value written at a row of a column reads back from that row; the rows
/// stored before keep their values, and the rows added to reach `row` read
/// as zeros.
pub proof fn law_column_write_read(before: Column, after: Column, row: nat, bytes: Seq<u8>)
    requires
        before.size() > 0,
        bytes.len() == before.size(),
        after.size() == before.size(),
        after.rows() == padded(before.rows(), row + 1, before.size()).update(row as int, bytes),
    ensures
        after.rows().len() == (if before.rows().len() > row {
            before.rows().len()
        } else {
            row + 1
        }),
        after.cell(row as int) == bytes,
        forall|r: int| 0 <= r < before.rows().len() && r != row ==> after.cell(r) == before.cell(r),
        forall|r: int|
            before.rows().len() <= r < after.rows().len() && r != row ==> after.cell(r) == zeros(
                before.size(),
            ),
{
}

/// The position of `k` in `keys` (meaningful when `keys` holds it once).
pub open spec fn key_pos(keys: Seq<u64>, k: u64) -> int {
    choose|j: int| 0 <= j < keys.len() && keys[j] == k
}

proof fn lemma_key_pos(keys: Seq<u64>, k: u64)
    requires
        keys.contains(k),
    ensures
        0 <= key_pos(keys, k) < keys.len(),
        keys[key_pos(keys, k)] == k,
        keys.no_duplicates() ==> forall|j: int|
            0 <= j < keys.len() && keys[j] == k ==> j == key_pos(keys, k),
{
    let i = choose|i: int| 0 <= i < keys.len() && keys[i] == k;
    assert(0 <= i < keys.len() && keys[i] == k);
}

/// A sorted, duplicate-free list of component keys: an archetype's identity.
pub type ArchetypeId = Vec<u64>;

/// One archetype: a table of entities sharing the same component keys.
pub struct Archetype {
    /// Strictly increasing component keys: the archetype's identity.
    id: ArchetypeId,
    /// Keys of the columns created so far, parallel to `columns`.
    column_keys: Vec<u64>,
    /// Component columns, created the first time a key is written.
    columns: Vec<Column>,
    /// Entity ids in row order (parallel to the columns' rows).
    entities: Vec<EntityId>,
}

impl Archetype {
    /// The component keys that identify this archetype.
    pub closed spec fn signature(&self) -> Seq<u64> {
        self.id@
    }

    /// The entities, in row order.
    pub closed spec fn rows(&self) -> Seq<EntityId> {
        self.entities@
    }

    /// The keys of the columns created so far.
    pub closed spec fn keys(&self) -> Seq<u64> {
        self.column_keys@
    }

    pub open spec fn has_column(&self, k: u64) -> bool {
        self.keys().contains(k)
    }

    pub closed spec fn column_spec(&self, k: u64) -> Column {
        self.columns@[key_pos(self.column_keys@, k)]
    }

    /// Size in bytes of the values of column `k`.
    pub open spec fn column_size(&self, k: u64) -> nat {
        self.column_spec(k).size()
    }

    /// The values of column `k`, one per row.
    pub open spec fn values(&self, k: u64) -> Seq<Seq<u8>> {
        Seq::new(self.rows().len(), |r: int| self.column_spec(k).cell(r))
    }

    /// An archetype holds at most `usize::MAX` rows.
    pub proof fn lemma_rows_bounded(&self)
        ensures
            self.rows().len() <= usize::MAX,
    {
        assert(self.entities.len() == self.entities@.len());
    }

    /// Every value of a column has the column's size.
    pub proof fn lemma_value_len(&self, k: u64, r: int)
        requires
            self.wf(),
            self.has_column(k),
            0 <= r < self.rows().len(),
        ensures
            self.values(k)[r].len() == self.column_size(k),
    {
        lemma_key_pos(self.column_keys@, k);
        let c = self.column_spec(k);
        assert(c.holds_rows(self.entities@.len()));
        if c.size() > 0 {
            lemma_row_bytes(c.data@, c.size(), r, 0);
        }
    }

    pub closed spec fn wf(&self) -> bool {
        &&& self.column_keys@.len() == self.columns@.len()
        &&& self.column_keys@.no_duplicates()
        &&& forall|j: int|
            0 <= j < self.columns@.len() ==> #[trigger] self.columns@[j].holds_rows(
                self.entities@.len(),
            )
    }

    /// Create the archetype with no component keys.
    pub fn empty() -> (r: Self)
        ensures
            r.wf(),
            r.signature() == Seq::<u64>::empty(),
            r.keys() == Seq::<u64>::empty(),
            r.rows() == Seq::<EntityId>::empty(),
    {
        Archetype { id: Vec::new(), column_keys: Vec::new(), columns: Vec::new(), entities: Vec::new() }
    }

    /// Create an archetype for the given key signature, with no rows and no
    /// columns yet.
    pub fn new(id: ArchetypeId) -> (r: Self)
        ensures
            r.wf(),
            r.signature() == id@,
            r.keys() == Seq::<u64>::empty(),
            r.rows() == Seq::<EntityId>::empty(),
    {
        Archetype { id, column_keys: Vec::new(), columns: Vec::new(), entities: Vec::new() }
    }

    /// The archetype's key signature.
    pub fn id(&self) -> (r: &ArchetypeId)
        ensures
            r@ == self.signature(),
    {
        &self.id
    }

    /// Number of entities stored.
    pub fn entity_count(&self) -> (r: usize)
        ensures
            r == self.rows().len(),
    {
        self.entities.len()
    }

    /// The entities, in row order.
    pub fn entities(&self) -> (r: &[EntityId])
        ensures
            r@ == self.rows(),
    {
        self.entities.as_slice()
    }

    fn find_column(&self, k: u64) -> (r: Option<usize>)
        requires
            self.wf(),
        ensures
            r is None <==> !self.has_column(k),
            r matches Some(j) ==> j < self.keys().len() && self.keys()[j as int] == k
                && key_pos(self.keys(), k) == j,
    {
        let mut j: usize = 0;
        while j < self.column_keys.len()
            invariant
                self.wf(),
                j <= self.column_keys@.len(),
                forall|i: int| 0 <= i < j ==> self.column_keys@[i] != k,
            decreases self.column_keys@.len() - j,
        {
            if self.column_keys[j] == k {
                proof {
                    assert(self.column_keys@[j as int] == k);
                    assert(self.column_keys@.contains(k));
                    lemma_key_pos(self.column_keys@, k);
                    assert(self.column_keys@.no_duplicates());
                    assert(key_pos(self.column_keys@, k) == j);
                }
                return Some(j);
            }
            j = j + 1;
        }
        assert(!self.column_keys@.contains(k));
        None
    }

    /// The column of key `k`, if one was created.
    pub fn column(&self, k: u64) -> (r: Option<&Column>)
        requires
            self.wf(),
        ensures
            r is None <==> !self.has_column(k),
            r matches Some(c) ==> *c == self.column_spec(k) && c.holds_rows(self.rows().len())
                && forall|q: int| 0 <= q < self.rows().len() ==> #[trigger] c.cell(q) == self.values(
                k,
            )[q],
    {
        match self.find_column(k) {
            Some(j) => {
                proof {
                    assert(self.columns@[j as int].holds_rows(self.entities@.len()));
                }
                Some(&self.columns[j])
            },
            None => None,
        }
    }

    /// Append `entity` as a new row; every existing column gains a zeroed value.
    pub fn push_entity(&mut self, entity: EntityId)
        requires
            old(self).wf(),
        ensures
            final(self).wf(),
            final(self).signature() == old(self).signature(),
            final(self).keys() == old(self).keys(),
            final(self).rows() == old(self).rows().push(entity),
            forall|k: u64| #[trigger]
                old(self).has_column(k) ==> final(self).column_size(k) == old(self).column_size(k)
                    && final(self).values(k) == old(self).values(k).push(
                    zeros(old(self).column_size(k)),
                ),
    {
        let ghost old_cols = self.columns@;
        let n = self.columns.len();
        assert(forall|i: int| 0 <= i < n ==> (#[trigger] old_cols[i]).holds_rows(self.entities@.len()));
        let mut j: usize = 0;
        while j < n
            invariant
                n == self.columns@.len(),
                n == old_cols.len(),
                j <= n,
                self.entities@ == old(self).entities@,
                self.column_keys@ == old(self).column_keys@,
                self.id@ == old(self).id@,
                forall|i: int| 0 <= i < n ==> (#[trigger] self.columns@[i]).size() == old_cols[i].size(),
                forall|i: int|
                    0 <= i < j ==> (#[trigger] self.columns@[i]).holds_rows(
                        self.entities@.len() + 1,
                    ) && (old_cols[i].size() > 0 ==> self.columns@[i].rows() == old_cols[i].rows().push(
                        zeros(old_cols[i].size()),
                    )),
                forall|i: int| j <= i < n ==> #[trigger] self.columns@[i] == old_cols[i],
                forall|i: int| 0 <= i < n ==> (#[trigger] old_cols[i]).holds_rows(
                    self.entities@.len(),
                ),
            decreases n - j,
        {
            self.columns[j].push_zeroed();
            j = j + 1;
        }
        self.entities.push(entity);
        proof {
            assert forall|k: u64| #[trigger] old(self).has_column(k) implies final(self).column_size(k)
                == old(self).column_size(k) && final(self).values(k) == old(self).values(k).push(
                zeros(old(self).column_size(k)),
            ) by {
                let p = key_pos(self.column_keys@, k);
                lemma_key_pos(self.column_keys@, k);
                let c0 = old_cols[p];
                let c1 = self.columns@[p];
                assert forall|r: int| 0 <= r < self.entities@.len() implies #[trigger] c1.cell(r)
                    == old(self).values(k).push(zeros(old(self).column_size(k)))[r] by {
                    if c0.size() > 0 {
                        if r < old(self).entities@.len() {
                        } else {
                        }
                    } else {
                        assert(c1.cell(r) =~= zeros(0));
                    }
                }
                assert(final(self).values(k) =~= old(self).values(k).push(
                    zeros(old(self).column_size(k)),
                ));
            }
        }
    }

    /// Write `bytes` as the value of key `k` at `row`, creating the column of
    /// `k` (sized by `bytes`) the first time `k` is written; the other rows of
    /// a new column read as zeros, one per entity.
    pub fn write_raw_bytes(&mut self, k: u64, row: usize, bytes: &[u8])
        requires
            old(self).wf(),
            row < old(self).rows().len(),
            old(self).has_column(k) ==> old(self).column_size(k) == bytes@.len(),
        ensures
            final(self).wf(),
            final(self).signature() == old(self).signature(),
            final(self).rows() == old(self).rows(),
            final(self).keys() == (if old(self).has_column(k) {
                old(self).keys()
            } else {
                old(self).keys().push(k)
            }),
            final(self).has_column(k),
            forall|k2: u64| #[trigger]
                final(self).has_column(k2) <==> (old(self).has_column(k2) || k2 == k),
            final(self).column_size(k) == bytes@.len(),
            final(self).values(k) == (if old(self).has_column(k) {
                old(self).values(k)
            } else {
                Seq::new(old(self).rows().len(), |r: int| zeros(bytes@.len()))
            }).update(row as int, bytes@),
            forall|k2: u64| #[trigger]
                old(self).has_column(k2) && k2 != k ==> final(self).column_size(k2) == old(
                    self,
                ).column_size(k2) && final(self).values(k2) == old(self).values(k2),
    {
        let ghost old_cols = self.columns@;
        let ghost n = self.entities@.len();
        match self.find_column(k) {
            Some(j) => {
                assert(self.columns@[j as int].holds_rows(n));
                self.columns[j].write_raw(row, bytes);
                proof {
                    let c0 = old_cols[j as int];
                    let c1 = self.columns@[j as int];
                    assert(c0.holds_rows(n));
                    if c0.size() > 0 {
                        assert(padded(c0.rows(), row as nat + 1, c0.size()) == c0.rows());
                    }
                    assert forall|i: int| 0 <= i < self.columns@.len() implies #[trigger] self.columns@[i].holds_rows(
                        n,
                    ) by {
                        if i != j {
                            assert(self.columns@[i] == old_cols[i]);
                        }
                    }
                    assert(key_pos(self.column_keys@, k) == j);
                    assert forall|r: int| 0 <= r < n implies #[trigger] self.values(k)[r]
                        == old(self).values(k).update(row as int, bytes@)[r] by {
                        if c0.size() == 0 {
                            assert(bytes@ =~= Seq::<u8>::empty());
                        }
                    }
                    assert(self.values(k) =~= old(self).values(k).update(row as int, bytes@));
                    assert forall|k2: u64| #[trigger]
                        old(self).has_column(k2) && k2 != k implies self.column_size(k2) == old(
                            self,
                        ).column_size(k2) && self.values(k2) == old(self).values(k2) by {
                        lemma_key_pos(self.column_keys@, k2);
                        assert(self.values(k2) =~= old(self).values(k2));
                    }
                }
            },
            None => {
                let mut col = Column::new(bytes.len());
                col.write_raw(row, bytes);
                if bytes.len() > 0 {
                    // the rows after `row` read as zeros, up to one row per entity
                    proof {
                        assert(padded(Seq::<Seq<u8>>::empty(), row as nat + 1, bytes@.len())
                            =~= Seq::new(row as nat + 1, |r: int| zeros(bytes@.len())));
                    }
                    let count = self.entities.len();
                    let mut len = row + 1;
                    while len < count
                        invariant
                            col.wf(),
                            col.size() == bytes@.len(),
                            bytes@.len() > 0,
                            row < len <= count,
                            count == n,
                            col.rows() == Seq::new(len as nat, |r: int| zeros(bytes@.len())).update(
                                row as int,
                                bytes@,
                            ),
                        decreases count - len,
                    {
                        col.push_zeroed();
                        len = len + 1;
                        proof {
                            assert(col.rows() =~= Seq::new(len as nat, |r: int| zeros(bytes@.len())).update(
                                row as int,
                                bytes@,
                            ));
                        }
                    }
                }
                self.column_keys.push(k);
                self.columns.push(col);
                proof {
                    let m = self.columns@.len() - 1;
                    assert(self.column_keys@[m] == k);
                    assert(self.column_keys@.contains(k));
                    lemma_key_pos(self.column_keys@, k);
                    assert(key_pos(self.column_keys@, k) == m);
                    assert(self.columns@[m] == col);
                    assert forall|k2: u64| #[trigger]
                        self.has_column(k2) <==> (old(self).has_column(k2) || k2 == k) by {
                        if old(self).has_column(k2) {
                            let p = choose|p: int| 0 <= p < old(self).column_keys@.len() && old(self).column_keys@[p] == k2;
                            assert(self.column_keys@[p] == k2);
                        }
                        if self.has_column(k2) && k2 != k {
                            let p = choose|p: int| 0 <= p < self.column_keys@.len() && self.column_keys@[p] == k2;
                            assert(p < m);
                            assert(old(self).column_keys@[p] == k2);
                        }
                    }
                    assert forall|r: int| 0 <= r < n implies #[trigger] self.values(k)[r]
                        == Seq::new(n, |r: int| zeros(bytes@.len())).update(row as int, bytes@)[r] by {
                        if bytes@.len() == 0 {
                            assert(bytes@ =~= Seq::<u8>::empty());
                            assert(zeros(0) =~= Seq::<u8>::empty());
                        }
                    }
                    assert(self.values(k) =~= Seq::new(n, |r: int| zeros(bytes@.len())).update(
                        row as int,
                        bytes@,
                    ));
                    assert forall|i: int| 0 <= i < self.columns@.len() implies #[trigger] self.columns@[i].holds_rows(
                        n,
                    ) by {
                        if i < m {
                            assert(self.columns@[i] == old_cols[i]);
                        }
                    }
                    assert forall|k2: u64| #[trigger]
                        old(self).has_column(k2) && k2 != k implies self.column_size(k2) == old(
                            self,
                        ).column_size(k2) && self.values(k2) == old(self).values(k2) by {
                        lemma_key_pos(old(self).column_keys@, k2);
                        let p = key_pos(old(self).column_keys@, k2);
                        assert(self.column_keys@[p] == k2);
                        lemma_key_pos(self.column_keys@, k2);
                        assert(self.values(k2) =~= old(self).values(k2));
                    }
                }
            },
        }
    }

    /// A copy of the value of key `k` at `row`; `None` when the archetype has
    /// no column for `k`.
    pub fn read_component(&self, row: usize, k: u64) -> (r: Option<Vec<u8>>)
        requires
            self.wf(),
            row < self.rows().len(),
        ensures
            r is None <==> !self.has_column(k),
            r matches Some(v) ==> v@ == self.values(k)[row as int],
    {
        match self.find_column(k) {
            Some(j) => {
                proof {
                    assert(self.columns@[j as int].holds_rows(self.entities@.len()));
                }
                Some(self.columns[j].row_bytes(row))
            },
            None => None,
        }
    }

    /// Remove the entity at `row` by moving the last entity into its place.
    ///
    /// Returns the entity that was moved into `row`, or `None` when the
    /// removed entity was the last one (or the archetype was empty).
    pub fn swap_remove(&mut self, row: usize) -> (r: Option<EntityId>)
        requires
            old(self).wf(),
            old(self).rows().len() == 0 || row < old(self).rows().len(),
        ensures
            final(self).wf(),
            final(self).signature() == old(self).signature(),
            final(self).keys() == old(self).keys(),
            old(self).rows().len() == 0 ==> r is None && final(self).rows() == old(self).rows()
                && forall|k: u64| #[trigger]
                old(self).has_column(k) ==> final(self).column_size(k) == old(self).column_size(k)
                    && final(self).values(k) == old(self).values(k),
            old(self).rows().len() > 0 ==> {
                &&& final(self).rows() == old(self).rows().update(
                    row as int,
                    old(self).rows().last(),
                ).drop_last()
                &&& r == (if row + 1 == old(self).rows().len() {
                    None
                } else {
                    Some(old(self).rows().last())
                })
                &&& forall|k: u64| #[trigger]
                    old(self).has_column(k) ==> final(self).column_size(k) == old(self).column_size(
                        k,
                    ) && final(self).values(k) == old(self).values(k).update(
                        row as int,
                        old(self).values(k).last(),
                    ).drop_last()
            },
    {
        let n = self.entities.len();
        if n == 0 {
            return None;
        }
        let ghost old_cols = self.columns@;
        let m = self.columns.len();
        let mut j: usize = 0;
        while j < m
            invariant
                m == self.columns@.len(),
                m == old_cols.len(),
                j <= m,
                n == self.entities@.len(),
                n > 0,
                row < n,
                self.entities@ == old(self).entities@,
                self.column_keys@ == old(self).column_keys@,
                self.id@ == old(self).id@,
                forall|i: int| 0 <= i < m ==> (#[trigger] self.columns@[i]).size() == old_cols[i].size(),
                forall|i: int|
                    0 <= i < j ==> (#[trigger] self.columns@[i]).holds_rows((n - 1) as nat) && (
                    old_cols[i].size() > 0 ==> self.columns@[i].rows() == old_cols[i].rows().update(
                        row as int,
                        old_cols[i].rows().last(),
                    ).drop_last()),
                forall|i: int| j <= i < m ==> #[trigger] self.columns@[i] == old_cols[i],
                forall|i: int| 0 <= i < m ==> (#[trigger] old_cols[i]).holds_rows(n as nat),
            decreases m - j,
        {
            self.columns[j].swap_remove_row(row);
            j = j + 1;
        }
        let r = if row == n - 1 {
            self.entities.pop();
            None
        } else {
            self.entities.swap_remove(row);
            Some(self.entities[row])
        };
        proof {
            assert(self.entities@ =~= old(self).entities@.update(
                row as int,
                old(self).entities@.last(),
            ).drop_last());
            assert forall|k: u64| #[trigger] old(self).has_column(k) implies self.column_size(k)
                == old(self).column_size(k) && self.values(k) == old(self).values(k).update(
                row as int,
                old(self).values(k).last(),
            ).drop_last() by {
                lemma_key_pos(self.column_keys@, k);
                assert(self.values(k) =~= old(self).values(k).update(
                    row as int,
                    old(self).values(k).last(),
                ).drop_last());
            }
        }
        r
    }
}

} // verus!
