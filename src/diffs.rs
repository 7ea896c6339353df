//! State diffs of one traced block, and their reconciliation into rows.
use crate::schema::Datatype;
use crate::table::{cells_of, copy_bytes, copy_value, row_width, Accumulator, Cell, Value};
use vstd::prelude::*;

verus! {

/// The change of one facet of an account's state.
#[derive(Debug, Clone, PartialEq, Eq)]
pub enum Diff {
    /// unchanged
    Same,
    /// created with a value
    Born(Vec<u8>),
    /// removed, with the value it had
    Died(Vec<u8>),
    /// changed from one value to another
    Changed(Vec<u8>, Vec<u8>),
}

/// The change of one storage slot.
#[derive(Debug, Clone, PartialEq, Eq)]
pub struct StorageDiff {
    /// the slot's key
    pub slot: Vec<u8>,
    /// the change of the slot's value
    pub diff: Diff,
}

/// The changes of one account's state in one transaction.
#[derive(Debug, Clone, PartialEq, Eq)]
pub struct AccountDiff {
    /// the account's address
    pub address: Vec<u8>,
    /// the balance, as a 32-byte big-endian integer
    pub balance: Diff,
    /// the nonce, as a 32-byte big-endian integer
    pub nonce: Diff,
    /// the code
    pub code: Diff,
    /// the storage slots that changed
    pub storage: Vec<StorageDiff>,
}

/// The state diff of one transaction.
#[derive(Debug, Clone, PartialEq, Eq)]
pub struct TraceDiff {
    /// the transaction's hash
    pub transaction_hash: Option<Vec<u8>>,
    /// the accounts that the transaction touched
    pub state_diff: Option<Vec<AccountDiff>>,
}

/// The state diffs of the transactions of one block, in block order.
#[derive(Debug, Clone, PartialEq, Eq)]
pub struct BlockStateDiffs {
    /// the block's number
    pub block_number: u32,
    /// one entry per transaction
    pub traces: Vec<TraceDiff>,
}

/// One facet of an account's state that a diff dataset reports.
#[derive(Clone, Copy, Debug, PartialEq, Eq, Structural)]
pub enum Facet {
    /// the balance
    Balance,
    /// the nonce
    Nonce,
    /// the code
    Code,
    /// the storage slots
    Storage,
}

/// The dataset that reports a facet.
pub open spec fn facet_datatype(f: Facet) -> Datatype {
    match f {
        Facet::Balance => Datatype::BalanceDiffs,
        Facet::Nonce => Datatype::NonceDiffs,
        Facet::Code => Datatype::CodeDiffs,
        Facet::Storage => Datatype::StorageDiffs,
    }
}

/// The value that an absent side of a diff takes: 32 zero bytes.
pub open spec fn zero_word() -> Seq<u8> {
    Seq::new(32, |i: int| 0u8)
}

/// The (from, to) pair of a diff: an absent side is the zero word.
pub open spec fn reconcile(d: Diff) -> (Seq<u8>, Seq<u8>) {
    match d {
        Diff::Same => (zero_word(), zero_word()),
        Diff::Born(v) => (zero_word(), v@),
        Diff::Died(v) => (v@, zero_word()),
        Diff::Changed(a, b) => (a@, b@),
    }
}

/// The diff of a facet other than storage.
pub open spec fn facet_diff(a: AccountDiff, f: Facet) -> Diff {
    match f {
        Facet::Balance => a.balance,
        Facet::Nonce => a.nonce,
        _ => a.code,
    }
}

/// A row of a balance, nonce or code diff table.
pub open spec fn value_row(
    block: u32,
    index: int,
    hash: Cell,
    address: Seq<u8>,
    d: Diff,
    chain: u64,
) -> Seq<Cell> {
    seq![
        Cell::UInt(block as u64),
        Cell::UInt(index as u64),
        hash,
        Cell::Bytes(address),
        Cell::Bytes(reconcile(d).0),
        Cell::Bytes(reconcile(d).1),
        Cell::UInt(chain),
    ]
}

/// A row of the storage diff table.
pub open spec fn slot_row(
    block: u32,
    index: int,
    hash: Cell,
    address: Seq<u8>,
    s: StorageDiff,
    chain: u64,
) -> Seq<Cell> {
    seq![
        Cell::UInt(block as u64),
        Cell::UInt(index as u64),
        hash,
        Cell::Bytes(address),
        Cell::Bytes(s.slot@),
        Cell::Bytes(reconcile(s.diff).0),
        Cell::Bytes(reconcile(s.diff).1),
        Cell::UInt(chain),
    ]
}

/// The storage rows of an account: one per changed slot.
pub open spec fn slot_rows(
    block: u32,
    index: int,
    hash: Cell,
    address: Seq<u8>,
    s: Seq<StorageDiff>,
    chain: u64,
) -> Seq<Seq<Cell>>
    decreases s.len(),
{
    if s.len() == 0 {
        Seq::empty()
    } else {
        slot_rows(block, index, hash, address, s.drop_last(), chain).push(
            slot_row(block, index, hash, address, s.last(), chain),
        )
    }
}

/// The rows of one facet that an account contributes.
pub open spec fn account_rows(
    block: u32,
    index: int,
    hash: Cell,
    a: AccountDiff,
    f: Facet,
    chain: u64,
) -> Seq<Seq<Cell>> {
    if f == Facet::Storage {
        slot_rows(block, index, hash, a.address@, a.storage@, chain)
    } else {
        seq![value_row(block, index, hash, a.address@, facet_diff(a, f), chain)]
    }
}

/// The rows of one facet that a list of accounts contributes, in order.
pub open spec fn accounts_rows(
    block: u32,
    index: int,
    hash: Cell,
    accts: Seq<AccountDiff>,
    f: Facet,
    chain: u64,
) -> Seq<Seq<Cell>>
    decreases accts.len(),
{
    if accts.len() == 0 {
        Seq::empty()
    } else {
        accounts_rows(block, index, hash, accts.drop_last(), f, chain) + account_rows(
            block,
            index,
            hash,
            accts.last(),
            f,
            chain,
        )
    }
}

/// The hash cell of a transaction: null where the hash is missing.
pub open spec fn hash_cell(h: Option<Vec<u8>>) -> Cell {
    match h {
        Some(b) => Cell::Bytes(b@),
        None => Cell::Null,
    }
}

/// The rows of one facet that the transaction at `index` contributes; none
/// where its state diff is missing.
pub open spec fn trace_rows(block: u32, index: int, t: TraceDiff, f: Facet, chain: u64) -> Seq<Seq<Cell>> {
    match t.state_diff {
        Some(a) => accounts_rows(block, index, hash_cell(t.transaction_hash), a@, f, chain),
        None => Seq::empty(),
    }
}

/// The rows of one facet that a list of transactions contributes, in order.
pub open spec fn traces_rows(block: u32, ts: Seq<TraceDiff>, f: Facet, chain: u64) -> Seq<Seq<Cell>>
    decreases ts.len(),
{
    if ts.len() == 0 {
        Seq::empty()
    } else {
        traces_rows(block, ts.drop_last(), f, chain) + trace_rows(
            block,
            ts.len() - 1,
            ts.last(),
            f,
            chain,
        )
    }
}

/// The rows of one facet that a block's state diffs contribute, on chain `chain`.
pub open spec fn response_rows(r: BlockStateDiffs, f: Facet, chain: u64) -> Seq<Seq<Cell>> {
    traces_rows(r.block_number, r.traces@, f, chain)
}

/// The 32 zero bytes.
pub fn zero_bytes() -> (r: Vec<u8>)
    ensures
        r@ == zero_word(),
{
    let mut v: Vec<u8> = Vec::new();
    let mut i: usize = 0;
    while i < 32
        invariant
            i <= 32,
            v@.len() == i,
            forall|k: int| 0 <= k < i ==> v@[k] == 0u8,
        decreases 32 - i,
    {
        v.push(0u8);
        i = i + 1;
    }
    assert(v@ =~= zero_word());
    v
}

/// Reconcile a diff into its (from, to) pair.
pub fn reconcile_diff(d: &Diff) -> (r: (Vec<u8>, Vec<u8>))
    ensures
        (r.0@, r.1@) == reconcile(*d),
{
    match d {
        Diff::Same => (zero_bytes(), zero_bytes()),
        Diff::Born(v) => (zero_bytes(), copy_bytes(v)),
        Diff::Died(v) => (copy_bytes(v), zero_bytes()),
        Diff::Changed(a, b) => (copy_bytes(a), copy_bytes(b)),
    }
}

fn value_row_exec(
    block: u32,
    index: usize,
    hash: &Value,
    address: &Vec<u8>,
    d: &Diff,
    chain: u64,
) -> (r: Vec<Value>)
    ensures
        cells_of(r@) == value_row(block, index as int, hash@, address@, *d, chain),
        r@.len() == 7,
{
    let (from, to) = reconcile_diff(d);
    let mut r: Vec<Value> = Vec::new();
    r.push(Value::UInt(block as u64));
    r.push(Value::UInt(index as u64));
    r.push(copy_value(hash));
    r.push(Value::Bytes(copy_bytes(address)));
    r.push(Value::Bytes(from));
    r.push(Value::Bytes(to));
    r.push(Value::UInt(chain));
    assert(cells_of(r@) =~= value_row(block, index as int, hash@, address@, *d, chain));
    r
}

fn slot_row_exec(
    block: u32,
    index: usize,
    hash: &Value,
    address: &Vec<u8>,
    s: &StorageDiff,
    chain: u64,
) -> (r: Vec<Value>)
    ensures
        cells_of(r@) == slot_row(block, index as int, hash@, address@, *s, chain),
        r@.len() == 8,
{
    let (from, to) = reconcile_diff(&s.diff);
    let mut r: Vec<Value> = Vec::new();
    r.push(Value::UInt(block as u64));
    r.push(Value::UInt(index as u64));
    r.push(copy_value(hash));
    r.push(Value::Bytes(copy_bytes(address)));
    r.push(Value::Bytes(copy_bytes(&s.slot)));
    r.push(Value::Bytes(from));
    r.push(Value::Bytes(to));
    r.push(Value::UInt(chain));
    assert(cells_of(r@) =~= slot_row(block, index as int, hash@, address@, *s, chain));
    r
}

fn append_account(
    acc: &mut Accumulator,
    block: u32,
    index: usize,
    hash: &Value,
    a: &AccountDiff,
    f: Facet,
    chain: u64,
)
    requires
        old(acc).wf(),
        old(acc).spec_datatype() == facet_datatype(f),
    ensures
        final(acc).wf(),
        final(acc).spec_datatype() == old(acc).spec_datatype(),
        final(acc).active() == old(acc).active(),
        final(acc)@ == old(acc)@ + account_rows(block, index as int, hash@, *a, f, chain),
{
    if f == Facet::Storage {
        let mut i: usize = 0;
        while i < a.storage.len()
            invariant
                i <= a.storage@.len(),
                acc.wf(),
                acc.spec_datatype() == Datatype::StorageDiffs,
                acc.active() == old(acc).active(),
                acc@ == old(acc)@ + slot_rows(block, index as int, hash@, a.address@, a.storage@.take(i as int), chain),
            decreases a.storage@.len() - i,
        {
            assert(a.storage@.take(i + 1).drop_last() =~= a.storage@.take(i as int));
            let row = slot_row_exec(block, index, hash, &a.address, &a.storage[i], chain);
            assert(row_width(Datatype::StorageDiffs) == 8);
            acc.push_row(&row);
            i = i + 1;
            assert(acc@ =~= old(acc)@ + slot_rows(block, index as int, hash@, a.address@, a.storage@.take(i as int), chain));
        }
        assert(a.storage@.take(i as int) =~= a.storage@);
    } else {
        let d = match f {
            Facet::Balance => &a.balance,
            Facet::Nonce => &a.nonce,
            _ => &a.code,
        };
        let row = value_row_exec(block, index, hash, &a.address, d, chain);
        assert(row_width(facet_datatype(f)) == 7);
        acc.push_row(&row);
        assert(acc@ =~= old(acc)@ + account_rows(block, index as int, hash@, *a, f, chain));
    }
}

fn hash_value(h: &Option<Vec<u8>>) -> (r: Value)
    ensures
        r@ == hash_cell(*h),
{
    match h {
        Some(b) => Value::Bytes(copy_bytes(b)),
        None => Value::Null,
    }
}

/// Append to an accumulator the rows of one facet that a block's state diffs
/// contribute on chain `chain`: one row per account for balance, nonce and
/// code, one row per changed slot for storage; a transaction without a hash
/// gives rows with a null hash.
pub fn append_facet_rows(acc: &mut Accumulator, response: &BlockStateDiffs, f: Facet, chain: u64)
    requires
        old(acc).wf(),
        old(acc).spec_datatype() == facet_datatype(f),
    ensures
        final(acc).wf(),
        final(acc).spec_datatype() == old(acc).spec_datatype(),
        final(acc).active() == old(acc).active(),
        final(acc)@ == old(acc)@ + response_rows(*response, f, chain),
{
    let block = response.block_number;
    let ts = &response.traces;
    let mut t: usize = 0;
    while t < ts.len()
        invariant
            t <= ts@.len(),
            ts == &response.traces,
            block == response.block_number,
            acc.wf(),
            acc.spec_datatype() == facet_datatype(f),
            acc.active() == old(acc).active(),
            acc@ == old(acc)@ + traces_rows(block, ts@.take(t as int), f, chain),
        decreases ts@.len() - t,
    {
        assert(ts@.take(t + 1).drop_last() =~= ts@.take(t as int));
        let ghost before = acc@;
        let trace = &ts[t];
        match &trace.state_diff {
            Some(accts) => {
                let hash = hash_value(&trace.transaction_hash);
                let mut i: usize = 0;
                while i < accts.len()
                    invariant
                        i <= accts@.len(),
                        acc.wf(),
                        acc.spec_datatype() == facet_datatype(f),
                        acc.active() == old(acc).active(),
                        hash@ == hash_cell(trace.transaction_hash),
                        acc@ == before + accounts_rows(block, t as int, hash@, accts@.take(i as int), f, chain),
                    decreases accts@.len() - i,
                {
                    assert(accts@.take(i + 1).drop_last() =~= accts@.take(i as int));
                    append_account(acc, block, t, &hash, &accts[i], f, chain);
                    i = i + 1;
                    assert(acc@ =~= before + accounts_rows(block, t as int, hash@, accts@.take(i as int), f, chain));
                }
                assert(accts@.take(i as int) =~= accts@);
            },
            None => {},
        }
        t = t + 1;
        assert(acc@ =~= old(acc)@ + traces_rows(block, ts@.take(t as int), f, chain));
    }
    assert(ts@.take(t as int) =~= ts@);
}

proof fn lemma_slot_rows_index(
    block: u32,
    index: int,
    hash: Cell,
    address: Seq<u8>,
    s: Seq<StorageDiff>,
    chain: u64,
)
    ensures
        slot_rows(block, index, hash, address, s, chain).len() == s.len(),
        forall|k: int| 0 <= k < s.len() ==> #[trigger] slot_rows(block, index, hash, address, s, chain)[k]
            == slot_row(block, index, hash, address, s[k], chain),
    decreases s.len(),
{
    if s.len() > 0 {
        lemma_slot_rows_index(block, index, hash, address, s.drop_last(), chain);
        assert forall|k: int| 0 <= k < s.len() implies #[trigger] slot_rows(block, index, hash, address, s, chain)[k]
            == slot_row(block, index, hash, address, s[k], chain) by {
            if k < s.len() - 1 {
                assert(s.drop_last()[k] == s[k]);
            }
        }
    }
}

/// Every facet of an account reconciles each diff variant alike: an
/// unchanged value to (zero, zero), a created one to (zero, value), a removed
/// one to (value, zero), a changed one to (from, to). Balance, nonce and code
/// give one row per account, with the pair in its from and to cells; storage
/// gives one row per slot, with the slot's pair in its from and to cells.
pub proof fn lemma_reconciliation(block: u32, index: int, hash: Cell, a: AccountDiff, f: Facet, chain: u64)
    ensures
        f != Facet::Storage ==> {
            let rows = account_rows(block, index, hash, a, f, chain);
            &&& rows.len() == 1
            &&& rows[0].len() == 7
            &&& rows[0][4] == Cell::Bytes(reconcile(facet_diff(a, f)).0)
            &&& rows[0][5] == Cell::Bytes(reconcile(facet_diff(a, f)).1)
        },
        f == Facet::Storage ==> {
            let rows = account_rows(block, index, hash, a, f, chain);
            &&& rows.len() == a.storage@.len()
            &&& forall|k: int| 0 <= k < rows.len() ==> {
                &&& (#[trigger] rows[k]).len() == 8
                &&& rows[k][4] == Cell::Bytes(a.storage@[k].slot@)
                &&& rows[k][5] == Cell::Bytes(reconcile(a.storage@[k].diff).0)
                &&& rows[k][6] == Cell::Bytes(reconcile(a.storage@[k].diff).1)
            }
        },
{
    lemma_slot_rows_index(block, index, hash, a.address@, a.storage@, chain);
}

proof fn lemma_accounts_rows_index(
    block: u32,
    index: int,
    hash: Cell,
    accts: Seq<AccountDiff>,
    f: Facet,
    chain: u64,
)
    requires
        f != Facet::Storage,
    ensures
        accounts_rows(block, index, hash, accts, f, chain).len() == accts.len(),
        forall|k: int| 0 <= k < accts.len() ==> #[trigger] accounts_rows(block, index, hash, accts, f, chain)[k]
            == value_row(block, index, hash, accts[k].address@, facet_diff(accts[k], f), chain),
    decreases accts.len(),
{
    if accts.len() > 0 {
        lemma_accounts_rows_index(block, index, hash, accts.drop_last(), f, chain);
        assert forall|k: int| 0 <= k < accts.len() implies #[trigger] accounts_rows(block, index, hash, accts, f, chain)[k]
            == value_row(block, index, hash, accts[k].address@, facet_diff(accts[k], f), chain) by {
            if k < accts.len() - 1 {
                assert(accts.drop_last()[k] == accts[k]);
            }
        }
    }
}

/// Whether `row` is the row of the account at `a` of the transaction at `t`.
pub open spec fn is_account_row(block: u32, ts: Seq<TraceDiff>, f: Facet, chain: u64, row: Seq<Cell>, t: int, a: int) -> bool {
    &&& 0 <= t < ts.len()
    &&& ts[t].state_diff is Some
    &&& 0 <= a < ts[t].state_diff.unwrap()@.len()
    &&& row == value_row(
        block,
        t,
        hash_cell(ts[t].transaction_hash),
        ts[t].state_diff.unwrap()@[a].address@,
        facet_diff(ts[t].state_diff.unwrap()@[a], f),
        chain,
    )
}

/// Whether `row` is the row of some account of some transaction of `ts`.
pub open spec fn is_some_account_row(block: u32, ts: Seq<TraceDiff>, f: Facet, chain: u64, row: Seq<Cell>) -> bool {
    exists|t: int, a: int| is_account_row(block, ts, f, chain, row, t, a)
}

/// Every balance, nonce or code row of a block is the row of one account of
/// one of its transactions, whose from and to cells are that account's
/// reconciled pair for the facet.
pub proof fn lemma_rows_reconciled(r: BlockStateDiffs, f: Facet, chain: u64)
    requires
        f != Facet::Storage,
    ensures
        forall|k: int|
            0 <= k < response_rows(r, f, chain).len() ==> is_some_account_row(
                r.block_number,
                r.traces@,
                f,
                chain,
                #[trigger] response_rows(r, f, chain)[k],
            ),
{
    lemma_traces_rows_reconciled(r.block_number, r.traces@, f, chain);
}

proof fn lemma_traces_rows_reconciled(block: u32, ts: Seq<TraceDiff>, f: Facet, chain: u64)
    requires
        f != Facet::Storage,
    ensures
        forall|k: int|
            0 <= k < traces_rows(block, ts, f, chain).len() ==> is_some_account_row(
                block,
                ts,
                f,
                chain,
                #[trigger] traces_rows(block, ts, f, chain)[k],
            ),
    decreases ts.len(),
{
    if ts.len() > 0 {
        let p = ts.drop_last();
        lemma_traces_rows_reconciled(block, p, f, chain);
        let head = traces_rows(block, p, f, chain);
        let tail = trace_rows(block, ts.len() - 1, ts.last(), f, chain);
        let all = traces_rows(block, ts, f, chain);
        assert(all == head + tail);
        assert forall|k: int| 0 <= k < all.len() implies is_some_account_row(block, ts, f, chain, #[trigger] all[k]) by {
            if k < head.len() {
                assert(is_some_account_row(block, p, f, chain, head[k]));
                let (t, a) = choose|t: int, a: int| is_account_row(block, p, f, chain, head[k], t, a);
                assert(p[t] == ts[t]);
                assert(is_account_row(block, ts, f, chain, all[k], t, a));
            } else {
                let t = ts.len() - 1;
                let accts = ts.last().state_diff.unwrap()@;
                lemma_accounts_rows_index(block, t, hash_cell(ts.last().transaction_hash), accts, f, chain);
                let a = k - head.len();
                assert(ts.last().state_diff is Some);
                assert(all[k] == tail[a]);
                assert(is_account_row(block, ts, f, chain, all[k], t, a));
            }
        }
    }
}

/// Whether every row of `rows` starts with the block number `block`.
pub open spec fn rows_of_block(rows: Seq<Seq<Cell>>, block: u32) -> bool {
    forall|k: int| 0 <= k < rows.len() ==> (#[trigger] rows[k]).len() > 0 && rows[k][0] == Cell::UInt(block as u64)
}

proof fn lemma_concat_of_block(a: Seq<Seq<Cell>>, b: Seq<Seq<Cell>>, block: u32)
    requires
        rows_of_block(a, block),
        rows_of_block(b, block),
    ensures
        rows_of_block(a + b, block),
{
    assert forall|k: int| 0 <= k < (a + b).len() implies (#[trigger] (a + b)[k]).len() > 0 && (a + b)[k][0]
        == Cell::UInt(block as u64) by {
        if k < a.len() {
            assert((a + b)[k] == a[k]);
        } else {
            assert((a + b)[k] == b[k - a.len()]);
        }
    }
}

/// Every row that a block's state diffs give, of any facet, starts with the
/// block's number.
pub proof fn lemma_response_rows_of_block(r: BlockStateDiffs, f: Facet, chain: u64)
    ensures
        rows_of_block(response_rows(r, f, chain), r.block_number),
{
    lemma_traces_of_block(r.block_number, r.traces@, f, chain);
}

proof fn lemma_traces_of_block(block: u32, ts: Seq<TraceDiff>, f: Facet, chain: u64)
    ensures
        rows_of_block(traces_rows(block, ts, f, chain), block),
    decreases ts.len(),
{
    if ts.len() > 0 {
        lemma_traces_of_block(block, ts.drop_last(), f, chain);
        let t = ts.last();
        if let Some(a) = t.state_diff {
            lemma_accounts_of_block(block, ts.len() - 1, hash_cell(t.transaction_hash), a@, f, chain);
        }
        lemma_concat_of_block(
            traces_rows(block, ts.drop_last(), f, chain),
            trace_rows(block, ts.len() - 1, t, f, chain),
            block,
        );
    }
}

proof fn lemma_accounts_of_block(block: u32, index: int, hash: Cell, accts: Seq<AccountDiff>, f: Facet, chain: u64)
    ensures
        rows_of_block(accounts_rows(block, index, hash, accts, f, chain), block),
    decreases accts.len(),
{
    if accts.len() > 0 {
        lemma_accounts_of_block(block, index, hash, accts.drop_last(), f, chain);
        let a = accts.last();
        lemma_slot_rows_index(block, index, hash, a.address@, a.storage@, chain);
        lemma_concat_of_block(
            accounts_rows(block, index, hash, accts.drop_last(), f, chain),
            account_rows(block, index, hash, a, f, chain),
            block,
        );
    }
}

/// Whether `rows` holds the row of the account at `a` of the transaction at
/// `t`.
pub open spec fn has_account_row(block: u32, ts: Seq<TraceDiff>, f: Facet, chain: u64, rows: Seq<Seq<Cell>>, t: int, a: int) -> bool {
    exists|k: int| 0 <= k < rows.len() && is_account_row(block, ts, f, chain, #[trigger] rows[k], t, a)
}

/// Each account of each transaction of a block with a state diff has its
/// balance, nonce or code row among the block's rows, with the account's
/// reconciled pair in its from and to cells.
pub proof fn lemma_every_account_has_row(r: BlockStateDiffs, f: Facet, chain: u64, t: int, a: int)
    requires
        f != Facet::Storage,
        0 <= t < r.traces@.len(),
        r.traces@[t].state_diff is Some,
        0 <= a < r.traces@[t].state_diff.unwrap()@.len(),
    ensures
        has_account_row(r.block_number, r.traces@, f, chain, response_rows(r, f, chain), t, a),
{
    lemma_traces_have_rows(r.block_number, r.traces@, f, chain, t, a);
}

proof fn lemma_traces_have_rows(block: u32, ts: Seq<TraceDiff>, f: Facet, chain: u64, t: int, a: int)
    requires
        f != Facet::Storage,
        0 <= t < ts.len(),
        ts[t].state_diff is Some,
        0 <= a < ts[t].state_diff.unwrap()@.len(),
    ensures
        has_account_row(block, ts, f, chain, traces_rows(block, ts, f, chain), t, a),
    decreases ts.len(),
{
    let p = ts.drop_last();
    let head = traces_rows(block, p, f, chain);
    let tail = trace_rows(block, ts.len() - 1, ts.last(), f, chain);
    let all = traces_rows(block, ts, f, chain);
    assert(all == head + tail);
    if t < ts.len() - 1 {
        assert(p[t] == ts[t]);
        lemma_traces_have_rows(block, p, f, chain, t, a);
        let k = choose|k: int| 0 <= k < head.len() && is_account_row(block, p, f, chain, #[trigger] head[k], t, a);
        assert(all[k] == head[k]);
        assert(is_account_row(block, ts, f, chain, all[k], t, a));
    } else {
        let accts = ts.last().state_diff.unwrap()@;
        lemma_accounts_rows_index(block, t, hash_cell(ts.last().transaction_hash), accts, f, chain);
        let k = head.len() + a;
        assert(all[k] == tail[a]);
        assert(is_account_row(block, ts, f, chain, all[k], t, a));
    }
}

/// Whether `row` is the storage row of slot `z` of the account at `a` of the
/// transaction at `t`.
pub open spec fn is_slot_row(block: u32, ts: Seq<TraceDiff>, chain: u64, row: Seq<Cell>, t: int, a: int, z: int) -> bool {
    &&& 0 <= t < ts.len()
    &&& ts[t].state_diff is Some
    &&& 0 <= a < ts[t].state_diff.unwrap()@.len()
    &&& 0 <= z < ts[t].state_diff.unwrap()@[a].storage@.len()
    &&& row == slot_row(
        block,
        t,
        hash_cell(ts[t].transaction_hash),
        ts[t].state_diff.unwrap()@[a].address@,
        ts[t].state_diff.unwrap()@[a].storage@[z],
        chain,
    )
}

/// Whether `rows` holds the storage row of slot `z` of account `a` of
/// transaction `t`.
pub open spec fn has_slot_row(block: u32, ts: Seq<TraceDiff>, chain: u64, rows: Seq<Seq<Cell>>, t: int, a: int, z: int) -> bool {
    exists|k: int| 0 <= k < rows.len() && is_slot_row(block, ts, chain, #[trigger] rows[k], t, a, z)
}

proof fn lemma_accounts_have_slot_row(
    block: u32,
    index: int,
    hash: Cell,
    accts: Seq<AccountDiff>,
    chain: u64,
    a: int,
    z: int,
)
    requires
        0 <= a < accts.len(),
        0 <= z < accts[a].storage@.len(),
    ensures
        exists|k: int|
            0 <= k < accounts_rows(block, index, hash, accts, Facet::Storage, chain).len()
                && #[trigger] accounts_rows(block, index, hash, accts, Facet::Storage, chain)[k]
                == slot_row(block, index, hash, accts[a].address@, accts[a].storage@[z], chain),
    decreases accts.len(),
{
    let p = accts.drop_last();
    let head = accounts_rows(block, index, hash, p, Facet::Storage, chain);
    let last = accts.last();
    let tail = account_rows(block, index, hash, last, Facet::Storage, chain);
    let all = accounts_rows(block, index, hash, accts, Facet::Storage, chain);
    assert(all == head + tail);
    if a < accts.len() - 1 {
        assert(p[a] == accts[a]);
        lemma_accounts_have_slot_row(block, index, hash, p, chain, a, z);
        let k = choose|k: int| 0 <= k < head.len() && #[trigger] head[k]
            == slot_row(block, index, hash, p[a].address@, p[a].storage@[z], chain);
        assert(all[k] == head[k]);
    } else {
        lemma_slot_rows_index(block, index, hash, last.address@, last.storage@, chain);
        assert(all[head.len() + z] == tail[z]);
    }
}

/// Each changed slot of each account of each transaction of a block with a
/// state diff has its storage row among the block's rows, with the slot's
/// reconciled pair in its from and to cells.
pub proof fn lemma_every_slot_has_row(r: BlockStateDiffs, chain: u64, t: int, a: int, z: int)
    requires
        0 <= t < r.traces@.len(),
        r.traces@[t].state_diff is Some,
        0 <= a < r.traces@[t].state_diff.unwrap()@.len(),
        0 <= z < r.traces@[t].state_diff.unwrap()@[a].storage@.len(),
    ensures
        has_slot_row(r.block_number, r.traces@, chain, response_rows(r, Facet::Storage, chain), t, a, z),
{
    lemma_traces_have_slot_row(r.block_number, r.traces@, chain, t, a, z);
}

proof fn lemma_traces_have_slot_row(block: u32, ts: Seq<TraceDiff>, chain: u64, t: int, a: int, z: int)
    requires
        0 <= t < ts.len(),
        ts[t].state_diff is Some,
        0 <= a < ts[t].state_diff.unwrap()@.len(),
        0 <= z < ts[t].state_diff.unwrap()@[a].storage@.len(),
    ensures
        has_slot_row(block, ts, chain, traces_rows(block, ts, Facet::Storage, chain), t, a, z),
    decreases ts.len(),
{
    let f = Facet::Storage;
    let p = ts.drop_last();
    let head = traces_rows(block, p, f, chain);
    let tail = trace_rows(block, ts.len() - 1, ts.last(), f, chain);
    let all = traces_rows(block, ts, f, chain);
    assert(all == head + tail);
    if t < ts.len() - 1 {
        assert(p[t] == ts[t]);
        lemma_traces_have_slot_row(block, p, chain, t, a, z);
        let k = choose|k: int| 0 <= k < head.len() && is_slot_row(block, p, chain, #[trigger] head[k], t, a, z);
        assert(all[k] == head[k]);
        assert(is_slot_row(block, ts, chain, all[k], t, a, z));
    } else {
        let accts = ts.last().state_diff.unwrap()@;
        let h = hash_cell(ts.last().transaction_hash);
        lemma_accounts_have_slot_row(block, t, h, accts, chain, a, z);
        let k = choose|k: int|
            0 <= k < accounts_rows(block, t, h, accts, f, chain).len()
                && #[trigger] accounts_rows(block, t, h, accts, f, chain)[k]
                == slot_row(block, t, h, accts[a].address@, accts[a].storage@[z], chain);
        assert(all[head.len() + k] == tail[k]);
        assert(is_slot_row(block, ts, chain, all[head.len() + k], t, a, z));
    }
}

} // verus!
