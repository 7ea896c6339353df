//! Per-dataset column sets: balance diffs and ERC-20 balances.
use crate::diffs::{append_facet_rows, response_rows, BlockStateDiffs, Facet};
use crate::schema::{catalog, Datatype, Schema, SchemaError};
use crate::table::{catalog_position, cells_of, copy_bytes, row_width, Accumulator, Cell, Table, Value};
use vstd::prelude::*;

verus! {

/// The value of a hex digit, either case.
pub open spec fn hex_digit_value(c: char) -> Option<u8> {
    if '0' <= c && c <= '9' {
        Some((c as u32 - '0' as u32) as u8)
    } else if 'a' <= c && c <= 'f' {
        Some((c as u32 - 'a' as u32 + 10) as u8)
    } else if 'A' <= c && c <= 'F' {
        Some((c as u32 - 'A' as u32 + 10) as u8)
    } else {
        None
    }
}

/// Whether `s` is `0x` followed by an even number of hex digits.
pub open spec fn is_prefixed_hex(s: Seq<char>) -> bool {
    &&& s.len() >= 2
    &&& s[0] == '0'
    &&& s[1] == 'x'
    &&& (s.len() - 2) % 2 == 0
    &&& forall|i: int| 2 <= i < s.len() ==> (#[trigger] hex_digit_value(s[i])) is Some
}

/// The bytes that pairs of hex digits spell, high digit first.
pub open spec fn hex_pairs(d: Seq<char>) -> Seq<u8> {
    Seq::new(
        d.len() / 2,
        |i: int|
            (hex_digit_value(d[2 * i]).unwrap() * 16 + hex_digit_value(d[2 * i + 1]).unwrap()) as u8,
    )
}

/// Relies on `prefix_hex::decode` into `Vec<u8>`: it strips a leading `0x`
/// and decodes the rest as pairs of hex digits, failing on anything else.
/// It reads the first two characters of a string that is not `0x`-prefixed,
/// so the string must have two.
#[verifier::external_body]
fn decode_prefixed_hex(s: &str) -> (r: Option<Vec<u8>>)
    requires
        s@.len() >= 2,
    ensures
        r is Some <==> is_prefixed_hex(s@),
        r matches Some(b) ==> b@ == hex_pairs(s@.skip(2)),
{
    prefix_hex::decode::<Vec<u8>>(s).ok()
}

/// The selector of ERC-20 `balanceOf(address)`.
pub open spec fn balance_of_selector() -> Seq<u8> {
    seq![0x70u8, 0xa0u8, 0x82u8, 0x31u8]
}

/// `n` zero bytes.
pub open spec fn zeros(n: nat) -> Seq<u8> {
    Seq::new(n, |i: int| 0u8)
}

/// A byte string left-padded with zeros to 32 bytes.
pub open spec fn word_of(b: Seq<u8>) -> Seq<u8> {
    zeros((32 - b.len()) as nat) + b
}

fn left_pad(b: &Vec<u8>) -> (r: Vec<u8>)
    requires
        b@.len() <= 32,
    ensures
        r@ == word_of(b@),
{
    let mut r: Vec<u8> = Vec::new();
    let pad = 32 - b.len();
    let mut i: usize = 0;
    while i < pad
        invariant
            i <= pad,
            r@ == zeros(i as nat),
        decreases pad - i,
    {
        r.push(0u8);
        i = i + 1;
        assert(r@ =~= zeros(i as nat));
    }
    let mut j: usize = 0;
    while j < b.len()
        invariant
            j <= b@.len(),
            r@ == zeros(pad as nat) + b@.take(j as int),
        decreases b@.len() - j,
    {
        r.push(b[j]);
        j = j + 1;
        assert(r@ =~= zeros(pad as nat) + b@.take(j as int));
    }
    assert(b@.take(j as int) =~= b@);
    r
}

/// The call data of `balanceOf(address)`: the selector, then the address
/// left-padded to 32 bytes.
pub fn balance_of_call_data(address: &Vec<u8>) -> (r: Vec<u8>)
    requires
        address@.len() <= 32,
    ensures
        r@ == balance_of_selector() + word_of(address@),
{
    let sig = "0x70a08231";
    proof {
        reveal_strlit("0x70a08231");
        assert(sig@.len() >= 2);
        assert(is_prefixed_hex(sig@));
        assert(hex_pairs(sig@.skip(2)) =~= balance_of_selector());
    }
    let mut data = match decode_prefixed_hex(sig) {
        Some(b) => b,
        None => Vec::new(),
    };
    let arg = left_pad(address);
    let mut i: usize = 0;
    let ghost start = data@;
    while i < arg.len()
        invariant
            i <= arg@.len(),
            data@ == start + arg@.take(i as int),
        decreases arg@.len() - i,
    {
        data.push(arg[i]);
        i = i + 1;
        assert(data@ =~= start + arg@.take(i as int));
    }
    assert(arg@.take(i as int) =~= arg@);
    data
}

/// The 256-bit balance that a `balanceOf` call returned, as 32 big-endian
/// bytes: absent where the call failed or returned more than 32 bytes.
pub open spec fn balance_of_result(ret: Option<Seq<u8>>) -> Option<Seq<u8>> {
    match ret {
        Some(b) => if b.len() <= 32 {
            Some(word_of(b))
        } else {
            None
        },
        None => None,
    }
}

/// The view of an optional byte string.
pub open spec fn opt_bytes(o: Option<Vec<u8>>) -> Option<Seq<u8>> {
    match o {
        Some(v) => Some(v@),
        None => None,
    }
}

/// Decode what a `balanceOf` call returned, if it succeeded, into a 32-byte
/// big-endian balance.
pub fn decode_balance(ret: Option<Vec<u8>>) -> (r: Option<Vec<u8>>)
    ensures
        match r {
            Some(b) => balance_of_result(opt_bytes(ret)) == Some(b@),
            None => balance_of_result(opt_bytes(ret)) is None,
        },
{
    match ret {
        Some(b) => if b.len() <= 32 {
            Some(left_pad(&b))
        } else {
            None
        },
        None => None,
    }
}

/// The balance of one address in one ERC-20 contract at one block.
#[derive(Debug, Clone, PartialEq, Eq)]
pub struct Erc20Balance {
    /// the block's number
    pub block_number: u32,
    /// the contract's address
    pub erc20: Vec<u8>,
    /// the holder's address
    pub address: Vec<u8>,
    /// the balance as 32 big-endian bytes, absent where the call failed
    pub balance: Option<Vec<u8>>,
    /// the id of the chain
    pub chain_id: u64,
}

/// The row of an ERC-20 balance.
pub open spec fn erc20_row(b: Erc20Balance) -> Seq<Cell> {
    seq![
        Cell::UInt(b.block_number as u64),
        Cell::Bytes(b.erc20@),
        Cell::Bytes(b.address@),
        match b.balance {
            Some(v) => Cell::Bytes(v@),
            None => Cell::Null,
        },
        Cell::UInt(b.chain_id),
    ]
}

/// The columns of the ERC-20 balances dataset.
pub struct Erc20BalancesColumns {
    acc: Accumulator,
}

impl Erc20BalancesColumns {
    /// The rows appended so far.
    pub closed spec fn view(&self) -> Seq<Seq<Cell>> {
        self.acc@
    }

    /// The active columns, in output order.
    pub closed spec fn active(&self) -> Seq<(Seq<char>, crate::schema::ColumnType)> {
        self.acc.active()
    }

    /// The accumulator is well formed and of this dataset.
    pub closed spec fn wf(&self) -> bool {
        self.acc.wf() && self.acc.spec_datatype() == Datatype::Erc20Balances
    }

    /// Empty columns for the schema; fails with `UnknownColumn` where the
    /// schema names a column outside the dataset's catalog.
    pub fn new(schema: &Schema) -> (r: Result<Erc20BalancesColumns, SchemaError>)
        ensures
            match r {
                Ok(c) => c.wf() && c@ == Seq::<Seq<Cell>>::empty() && c.active() == schema.view(),
                Err(e) => e == SchemaError::UnknownColumn,
            },
            r is Ok <==> forall|j: int|
                0 <= j < schema.view().len() ==> catalog_position(
                    catalog(Datatype::Erc20Balances),
                    #[trigger] schema.view()[j].0,
                ) is Some,
            schema.wf() && schema.spec_datatype() == Datatype::Erc20Balances ==> r is Ok,
    {
        proof {
            if schema.wf() && schema.spec_datatype() == Datatype::Erc20Balances {
                assert forall|j: int| 0 <= j < schema.view().len() implies catalog_position(
                    catalog(Datatype::Erc20Balances),
                    #[trigger] schema.view()[j].0,
                ) is Some by {
                    crate::collect::lemma_lookup_position(catalog(Datatype::Erc20Balances), schema.view()[j].0);
                }
            }
        }
        match Accumulator::new(Datatype::Erc20Balances, schema) {
            Ok(acc) => Ok(Erc20BalancesColumns { acc }),
            Err(e) => Err(e),
        }
    }

    /// Append the row of one balance.
    pub fn transform(&mut self, response: &Erc20Balance)
        requires
            old(self).wf(),
        ensures
            final(self).wf(),
            final(self).active() == old(self).active(),
            final(self)@ == old(self)@.push(erc20_row(*response)),
    {
        let mut row: Vec<Value> = Vec::new();
        row.push(Value::UInt(response.block_number as u64));
        row.push(Value::Bytes(copy_bytes(&response.erc20)));
        row.push(Value::Bytes(copy_bytes(&response.address)));
        match &response.balance {
            Some(v) => row.push(Value::Bytes(copy_bytes(v))),
            None => row.push(Value::Null),
        }
        row.push(Value::UInt(response.chain_id));
        assert(cells_of(row@) =~= erc20_row(*response));
        assert(row_width(Datatype::Erc20Balances) == 5);
        self.acc.push_row(&row);
    }

    /// The table of the columns.
    pub fn into_table(self) -> (t: Table)
        requires
            self.wf(),
        ensures
            t.wf(),
            t.spec_datatype() == Datatype::Erc20Balances,
            t.schema() == self.active(),
            crate::table::holds_rows(t, self@),
    {
        self.acc.into_table()
    }
}

/// The columns of the balance diffs dataset.
pub struct BalanceDiffColumns {
    acc: Accumulator,
    chain_id: u64,
}

impl BalanceDiffColumns {
    /// The rows appended so far.
    pub closed spec fn view(&self) -> Seq<Seq<Cell>> {
        self.acc@
    }

    /// The active columns, in output order.
    pub closed spec fn active(&self) -> Seq<(Seq<char>, crate::schema::ColumnType)> {
        self.acc.active()
    }

    /// The accumulator is well formed and of this dataset.
    pub closed spec fn wf(&self) -> bool {
        self.acc.wf() && self.acc.spec_datatype() == Datatype::BalanceDiffs
    }

    /// The chain whose id every row carries.
    pub closed spec fn chain_id(&self) -> u64 {
        self.chain_id
    }

    /// Empty columns for the schema, for rows of chain `chain_id`; fails with
    /// `UnknownColumn` where the schema names a column outside the dataset's
    /// catalog.
    pub fn new(schema: &Schema, chain_id: u64) -> (r: Result<BalanceDiffColumns, SchemaError>)
        ensures
            match r {
                Ok(c) => c.wf() && c@ == Seq::<Seq<Cell>>::empty() && c.active() == schema.view()
                    && c.chain_id() == chain_id,
                Err(e) => e == SchemaError::UnknownColumn,
            },
            r is Ok <==> forall|j: int|
                0 <= j < schema.view().len() ==> catalog_position(
                    catalog(Datatype::BalanceDiffs),
                    #[trigger] schema.view()[j].0,
                ) is Some,
            schema.wf() && schema.spec_datatype() == Datatype::BalanceDiffs ==> r is Ok,
    {
        proof {
            if schema.wf() && schema.spec_datatype() == Datatype::BalanceDiffs {
                assert forall|j: int| 0 <= j < schema.view().len() implies catalog_position(
                    catalog(Datatype::BalanceDiffs),
                    #[trigger] schema.view()[j].0,
                ) is Some by {
                    crate::collect::lemma_lookup_position(catalog(Datatype::BalanceDiffs), schema.view()[j].0);
                }
            }
        }
        match Accumulator::new(Datatype::BalanceDiffs, schema) {
            Ok(acc) => Ok(BalanceDiffColumns { acc, chain_id }),
            Err(e) => Err(e),
        }
    }

    /// Append one row per account of each transaction of the block, with the
    /// account's balance before and after.
    pub fn process_balance_diffs(&mut self, response: &BlockStateDiffs)
        requires
            old(self).wf(),
        ensures
            final(self).wf(),
            final(self).active() == old(self).active(),
            final(self).chain_id() == old(self).chain_id(),
            final(self)@ == old(self)@ + response_rows(*response, Facet::Balance, old(self).chain_id()),
    {
        let chain = self.chain_id;
        append_facet_rows(&mut self.acc, response, Facet::Balance, chain);
    }

    /// The table of the columns.
    pub fn into_table(self) -> (t: Table)
        requires
            self.wf(),
        ensures
            t.wf(),
            t.spec_datatype() == Datatype::BalanceDiffs,
            t.schema() == self.active(),
            crate::table::holds_rows(t, self@),
    {
        self.acc.into_table()
    }
}

} // verus!
