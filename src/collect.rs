//! The collect stage: fail-fast draining of fetch results into tables, and
//! the scheduling of fetches under a concurrency budget.
use crate::diffs::{
    append_facet_rows, facet_datatype, has_account_row, has_slot_row, is_account_row, is_slot_row,
    is_some_account_row, lemma_every_account_has_row, lemma_every_slot_has_row, lemma_response_rows_of_block,
    lemma_rows_reconciled, response_rows,
    BlockStateDiffs, Facet,
};
use crate::schema::{catalog, lookup, Datatype, Schema, SchemaError};
use crate::table::catalog_position;
use crate::table::{holds_rows, is_sorted_reordering, Accumulator, Cell, Table};
use vstd::prelude::*;

verus! {

/// Error of the collect stage.
#[derive(Clone, Copy, Debug, PartialEq, Eq, Structural)]
pub enum CollectError {
    /// The fetch of the unit with this key failed.
    Fetch(u64),
    /// A dataset was asked for that was not collected.
    BadSchema,
    /// A schema does not fit its dataset.
    Schema(SchemaError),
    /// A sort key names no column of the table.
    SchemaMismatch,
}

/// Whether entry `i` is the first of `s` for dataset `d`.
pub open spec fn first_schema_index(s: Seq<(Datatype, Schema)>, d: Datatype, i: int) -> bool {
    &&& 0 <= i < s.len()
    &&& s[i].0 == d
    &&& forall|k: int| 0 <= k < i ==> (#[trigger] s[k]).0 != d
}

/// Whether `s` holds a schema for dataset `d`.
pub open spec fn has_schema(s: Seq<(Datatype, Schema)>, d: Datatype) -> bool {
    exists|i: int| 0 <= i < s.len() && (#[trigger] s[i]).0 == d
}

/// No two entries of a list of schemas are for one dataset.
pub open spec fn distinct_datatypes(s: Seq<(Datatype, Schema)>) -> bool {
    forall|i: int, j: int| 0 <= i < s.len() && 0 <= j < s.len() && i != j ==> s[i].0 != s[j].0
}

/// Whether a unit's fetch succeeded: a response came, for the unit's block.
pub open spec fn response_fits(key: u64, r: Option<BlockStateDiffs>) -> bool {
    r matches Some(x) && x.block_number as u64 == key
}

/// The failure state after one fetch outcome: the first failure sticks.
pub open spec fn next_failure(f: Option<CollectError>, key: u64, ok: bool) -> Option<CollectError> {
    if f is Some {
        f
    } else if ok {
        None
    } else {
        Some(CollectError::Fetch(key))
    }
}

/// The failure state after a run of fetch outcomes (key, success).
pub open spec fn failure_after(f: Option<CollectError>, outcomes: Seq<(u64, bool)>) -> Option<
    CollectError,
>
    decreases outcomes.len(),
{
    if outcomes.len() == 0 {
        f
    } else {
        next_failure(
            failure_after(f, outcomes.drop_last()),
            outcomes.last().0,
            outcomes.last().1,
        )
    }
}

/// A run of fetch outcomes in which any unit failed leaves the collection
/// failed, with the key of the first unit that failed.
pub proof fn lemma_fail_fast(outcomes: Seq<(u64, bool)>, k: int)
    requires
        0 <= k < outcomes.len(),
        !outcomes[k].1,
        forall|i: int| 0 <= i < k ==> (#[trigger] outcomes[i]).1,
    ensures
        failure_after(None, outcomes) == Some(CollectError::Fetch(outcomes[k].0)),
    decreases outcomes.len(),
{
    if k < outcomes.len() - 1 {
        lemma_fail_fast(outcomes.drop_last(), k);
    } else {
        lemma_no_failure(outcomes.drop_last());
    }
}

proof fn lemma_no_failure(outcomes: Seq<(u64, bool)>)
    requires
        forall|i: int| 0 <= i < outcomes.len() ==> (#[trigger] outcomes[i]).1,
    ensures
        failure_after(None, outcomes) is None,
    decreases outcomes.len(),
{
    if outcomes.len() > 0 {
        lemma_no_failure(outcomes.drop_last());
    }
}

fn find_schema(schemas: &Vec<(Datatype, Schema)>, d: Datatype) -> (r: Option<usize>)
    ensures
        r matches Some(i) ==> first_schema_index(schemas@, d, i as int),
        r is None ==> !has_schema(schemas@, d),
{
    let mut i: usize = 0;
    while i < schemas.len()
        invariant
            i <= schemas@.len(),
            forall|k: int| 0 <= k < i ==> (#[trigger] schemas@[k]).0 != d,
        decreases schemas@.len() - i,
    {
        if schemas[i].0 == d {
            return Some(i);
        }
        i = i + 1;
    }
    None
}

/// Whether every column of `s` is in the catalog of dataset `d`.
pub open spec fn schema_fits(s: Schema, d: Datatype) -> bool {
    forall|j: int| 0 <= j < s.view().len() ==> catalog_position(catalog(d), #[trigger] s.view()[j].0) is Some
}

/// Whether the first schema of each diff dataset fits its catalog.
pub open spec fn schemas_fit(s: Seq<(Datatype, Schema)>) -> bool {
    forall|f: Facet, i: int| #[trigger] first_schema_index(s, facet_datatype(f), i) ==> schema_fits(s[i].1, facet_datatype(f))
}

proof fn lemma_first_unique(s: Seq<(Datatype, Schema)>, d: Datatype, i: int, k: int)
    requires
        first_schema_index(s, d, i),
        first_schema_index(s, d, k),
    ensures
        i == k,
{
    if i < k {
        assert(s[i].0 != d);
    } else if k < i {
        assert(s[k].0 != d);
    }
}

/// The accumulators of the four diff datasets, of which those with a schema
/// are active, and whether a fetch has failed.
pub struct DiffCollector {
    storage: Option<Accumulator>,
    balance: Option<Accumulator>,
    nonce: Option<Accumulator>,
    code: Option<Accumulator>,
    failure: Option<CollectError>,
    chain_id: u64,
}

impl DiffCollector {
    /// The accumulator of a facet, if its dataset is active.
    pub closed spec fn slot(&self, f: Facet) -> Option<Accumulator> {
        match f {
            Facet::Storage => self.storage,
            Facet::Balance => self.balance,
            Facet::Nonce => self.nonce,
            Facet::Code => self.code,
        }
    }

    /// Whether the dataset of a facet is collected.
    pub open spec fn active(&self, f: Facet) -> bool {
        self.slot(f) is Some
    }

    /// The full rows collected so far for a facet.
    pub open spec fn rows(&self, f: Facet) -> Seq<Seq<Cell>> {
        self.slot(f).unwrap()@
    }

    /// The first fetch failure, if any.
    pub closed spec fn failure(&self) -> Option<CollectError> {
        self.failure
    }

    /// The chain whose id every row carries.
    pub closed spec fn chain_id(&self) -> u64 {
        self.chain_id
    }

    /// Each active accumulator is well formed and belongs to its facet's dataset.
    pub closed spec fn wf(&self) -> bool {
        &&& slot_ok(self.storage, Facet::Storage)
        &&& slot_ok(self.balance, Facet::Balance)
        &&& slot_ok(self.nonce, Facet::Nonce)
        &&& slot_ok(self.code, Facet::Code)
    }

    /// What well-formedness says of each facet.
    pub proof fn lemma_wf(&self, f: Facet)
        requires
            self.wf(),
        ensures
            slot_ok(self.slot(f), f),
    {
    }

    /// Collectors for the diff datasets that `schemas` names; for each, its first schema.
    ///
    /// Fails with `UnknownColumn` when such a schema names a column outside
    /// its dataset's catalog.
    pub fn new(schemas: &Vec<(Datatype, Schema)>, chain_id: u64) -> (r: Result<DiffCollector, SchemaError>)
        requires
            distinct_datatypes(schemas@),
        ensures
            match r {
                Ok(c) => {
                    &&& c.wf()
                    &&& c.failure() is None
                    &&& c.chain_id() == chain_id
                    &&& forall|f: Facet| #[trigger]
                        c.active(f) == has_schema(schemas@, facet_datatype(f))
                    &&& forall|f: Facet| #[trigger]
                        c.active(f) ==> c.rows(f) == Seq::<Seq<Cell>>::empty() && exists|i: int|
                            first_schema_index(schemas@, facet_datatype(f), i)
                                && c.slot(f).unwrap().active() == schemas@[i].1.view()
                },
                Err(e) => e == SchemaError::UnknownColumn,
            },
            r is Ok <==> schemas_fit(schemas@),
    {
        let storage = match Self::open_one(schemas, Datatype::StorageDiffs) {
            Ok(a) => a,
            Err(e) => {
                proof {
                    let i = choose|i: int| first_schema_index(schemas@, Datatype::StorageDiffs, i) && !schema_fits(schemas@[i].1, Datatype::StorageDiffs);
                    assert(first_schema_index(schemas@, facet_datatype(Facet::Storage), i));
                }
                return Err(e);
            },
        };
        let balance = match Self::open_one(schemas, Datatype::BalanceDiffs) {
            Ok(a) => a,
            Err(e) => {
                proof {
                    let i = choose|i: int| first_schema_index(schemas@, Datatype::BalanceDiffs, i) && !schema_fits(schemas@[i].1, Datatype::BalanceDiffs);
                    assert(first_schema_index(schemas@, facet_datatype(Facet::Balance), i));
                }
                return Err(e);
            },
        };
        let nonce = match Self::open_one(schemas, Datatype::NonceDiffs) {
            Ok(a) => a,
            Err(e) => {
                proof {
                    let i = choose|i: int| first_schema_index(schemas@, Datatype::NonceDiffs, i) && !schema_fits(schemas@[i].1, Datatype::NonceDiffs);
                    assert(first_schema_index(schemas@, facet_datatype(Facet::Nonce), i));
                }
                return Err(e);
            },
        };
        let code = match Self::open_one(schemas, Datatype::CodeDiffs) {
            Ok(a) => a,
            Err(e) => {
                proof {
                    let i = choose|i: int| first_schema_index(schemas@, Datatype::CodeDiffs, i) && !schema_fits(schemas@[i].1, Datatype::CodeDiffs);
                    assert(first_schema_index(schemas@, facet_datatype(Facet::Code), i));
                }
                return Err(e);
            },
        };
        let c = DiffCollector { storage, balance, nonce, code, failure: None, chain_id };
        assert forall|f: Facet, i: int| #[trigger] first_schema_index(schemas@, facet_datatype(f), i) implies schema_fits(schemas@[i].1, facet_datatype(f)) by {
            let k = choose|k: int| first_schema_index(schemas@, facet_datatype(f), k) && c.slot(f).unwrap().active() == schemas@[k].1.view();
            match f {
                Facet::Storage => {},
                Facet::Balance => {},
                Facet::Nonce => {},
                Facet::Code => {},
            }
            lemma_first_unique(schemas@, facet_datatype(f), i, k);
        }
        assert forall|f: Facet| #[trigger] c.active(f) implies c.rows(f) == Seq::<Seq<Cell>>::empty() && exists|i: int|
                            first_schema_index(schemas@, facet_datatype(f), i)
                                && c.slot(f).unwrap().active() == schemas@[i].1.view() by {
            match f {
                Facet::Storage => {},
                Facet::Balance => {},
                Facet::Nonce => {},
                Facet::Code => {},
            }
        }
        assert forall|f: Facet| #[trigger] c.active(f) == has_schema(schemas@, facet_datatype(f)) by {
            match f {
                Facet::Storage => {},
                Facet::Balance => {},
                Facet::Nonce => {},
                Facet::Code => {},
            }
        }
        Ok(c)
    }

    fn open_one(schemas: &Vec<(Datatype, Schema)>, d: Datatype) -> (r: Result<
        Option<Accumulator>,
        SchemaError,
    >)
        ensures
            match r {
                Ok(Some(a)) => {
                    &&& a.wf()
                    &&& a.spec_datatype() == d
                    &&& a@ == Seq::<Seq<Cell>>::empty()
                    &&& has_schema(schemas@, d)
                    &&& exists|i: int| first_schema_index(schemas@, d, i) && a.active() == schemas@[i].1.view() && schema_fits(schemas@[i].1, d)
                },
                Ok(None) => !has_schema(schemas@, d),
                Err(e) => e == SchemaError::UnknownColumn && exists|i: int| first_schema_index(schemas@, d, i) && !schema_fits(schemas@[i].1, d),
            },
    {
        match find_schema(schemas, d) {
            None => Ok(None),
            Some(i) => match Accumulator::new(d, &schemas[i].1) {
                Ok(a) => Ok(Some(a)),
                Err(e) => Err(e),
            },
        }
    }

    /// Take in the outcome of one unit's fetch, the unit's key being its block
    /// number. A response for that block is a success: every active dataset
    /// gains the rows of the response. No response, or one for another block,
    /// is the unit's failure: the collection fails, unless it has failed
    /// already. After a failure, responses are dropped.
    pub fn ingest(&mut self, key: u64, response: Option<&BlockStateDiffs>)
        requires
            old(self).wf(),
        ensures
            final(self).wf(),
            final(self).chain_id() == old(self).chain_id(),
            final(self).failure() == next_failure(
                old(self).failure(),
                key,
                response is Some && response.unwrap().block_number as u64 == key,
            ),
            forall|f: Facet| #[trigger] final(self).active(f) == old(self).active(f),
            forall|f: Facet| #[trigger]
                final(self).active(f) ==> final(self).slot(f).unwrap().active() == old(self).slot(
                    f,
                ).unwrap().active(),
            forall|f: Facet| #[trigger]
                final(self).active(f) ==> final(self).rows(f) == if old(self).failure() is None
                    && response is Some && response.unwrap().block_number as u64 == key {
                    old(self).rows(f) + response_rows(*response.unwrap(), f, old(self).chain_id())
                } else {
                    old(self).rows(f)
                },
    {
        if self.failure.is_some() {
            return;
        }
        match response {
            None => {
                self.failure = Some(CollectError::Fetch(key));
            },
            Some(resp) => {
                if resp.block_number as u64 != key {
                    self.failure = Some(CollectError::Fetch(key));
                    return;
                }
                let chain = self.chain_id;
                if let Some(a) = &mut self.storage {
                    append_facet_rows(a, resp, Facet::Storage, chain);
                }
                if let Some(a) = &mut self.balance {
                    append_facet_rows(a, resp, Facet::Balance, chain);
                }
                if let Some(a) = &mut self.nonce {
                    append_facet_rows(a, resp, Facet::Nonce, chain);
                }
                if let Some(a) = &mut self.code {
                    append_facet_rows(a, resp, Facet::Code, chain);
                }
                assert forall|f: Facet| #[trigger] self.active(f) implies self.rows(f) == if old(self).failure() is None
                    && response is Some && response.unwrap().block_number as u64 == key {
                    old(self).rows(f) + response_rows(*response.unwrap(), f, old(self).chain_id())
                } else {
                    old(self).rows(f)
                } by {
                    match f {
                        Facet::Storage => {},
                        Facet::Balance => {},
                        Facet::Nonce => {},
                        Facet::Code => {},
                    }
                }
            },
        }
    }

    /// Whether a fetch has failed; from then on, responses are dropped.
    pub fn failed(&self) -> (r: bool)
        ensures
            r == self.failure() is Some,
    {
        self.failure.is_some()
    }

    /// The tables of the active datasets, or the first fetch failure; never a
    /// partial result.
    pub fn finish(self) -> (r: Result<DiffTables, CollectError>)
        requires
            self.wf(),
        ensures
            match r {
                Err(e) => self.failure() == Some(e),
                Ok(ts) => {
                    &&& self.failure() is None
                    &&& ts.wf()
                    &&& forall|f: Facet| #[trigger] ts.table(f) is Some == self.active(f)
                    &&& forall|f: Facet| #[trigger]
                        self.active(f) ==> assembled(self.slot(f).unwrap(), ts.table(f).unwrap())
                },
            },
    {
        if let Some(e) = self.failure {
            return Err(e);
        }
        let ghost me = self;
        proof {
            me.lemma_wf(Facet::Storage);
            me.lemma_wf(Facet::Balance);
            me.lemma_wf(Facet::Nonce);
            me.lemma_wf(Facet::Code);
        }
        let storage = match self.storage {
            Some(a) => Some(a.into_table()),
            None => None,
        };
        let balance = match self.balance {
            Some(a) => Some(a.into_table()),
            None => None,
        };
        let nonce = match self.nonce {
            Some(a) => Some(a.into_table()),
            None => None,
        };
        let code = match self.code {
            Some(a) => Some(a.into_table()),
            None => None,
        };
        let ts = DiffTables { storage, balance, nonce, code };
        assert forall|f: Facet| #[trigger] me.active(f) implies assembled(me.slot(f).unwrap(), ts.table(f).unwrap()) by {
            match f {
                Facet::Storage => {},
                Facet::Balance => {},
                Facet::Nonce => {},
                Facet::Code => {},
            }
        }
        assert forall|f: Facet| #[trigger] ts.table(f) is Some == me.active(f) by {
            match f {
                Facet::Storage => {},
                Facet::Balance => {},
                Facet::Nonce => {},
                Facet::Code => {},
            }
        }
        Ok(ts)
    }
}

/// The tables of the diff datasets that were collected.
pub struct DiffTables {
    storage: Option<Table>,
    balance: Option<Table>,
    nonce: Option<Table>,
    code: Option<Table>,
}

/// Whether a table, if there is one, is well formed and belongs to the facet's dataset.
pub open spec fn table_ok(t: Option<Table>, f: Facet) -> bool {
    t matches Some(x) ==> x.wf() && x.spec_datatype() == facet_datatype(f)
}

impl DiffTables {
    /// The table of a facet's dataset, if it was collected.
    pub closed spec fn table(&self, f: Facet) -> Option<Table> {
        match f {
            Facet::Storage => self.storage,
            Facet::Balance => self.balance,
            Facet::Nonce => self.nonce,
            Facet::Code => self.code,
        }
    }

    /// Every table is well formed and belongs to its facet's dataset.
    pub closed spec fn wf(&self) -> bool {
        &&& table_ok(self.storage, Facet::Storage)
        &&& table_ok(self.balance, Facet::Balance)
        &&& table_ok(self.nonce, Facet::Nonce)
        &&& table_ok(self.code, Facet::Code)
    }

    /// What well-formedness says of each facet.
    pub proof fn lemma_wf(&self, f: Facet)
        requires
            self.wf(),
        ensures
            table_ok(self.table(f), f),
    {
    }

    /// Take out the table of a dataset; fails with `BadSchema` when that
    /// dataset was not collected.
    pub fn remove(&mut self, d: Datatype) -> (r: Result<Table, CollectError>)
        requires
            old(self).wf(),
        ensures
            final(self).wf(),
            match r {
                Ok(t) => exists|f: Facet| #![auto]
                    facet_datatype(f) == d && old(self).table(f) == Some(t) && final(self).table(f) is None,
                Err(e) => e == CollectError::BadSchema && *final(self) == *old(self) && forall|f: Facet| #![auto]
                    facet_datatype(f) == d ==> old(self).table(f) is None,
            },
            forall|f: Facet| #![auto] facet_datatype(f) != d ==> final(self).table(f) == old(self).table(f),
    {
        let taken = match d {
            Datatype::StorageDiffs => self.storage.take(),
            Datatype::BalanceDiffs => self.balance.take(),
            Datatype::NonceDiffs => self.nonce.take(),
            Datatype::CodeDiffs => self.code.take(),
            Datatype::Erc20Balances => None,
        };
        match taken {
            Some(t) => {
                assert(match d {
                    Datatype::StorageDiffs => facet_datatype(Facet::Storage) == d,
                    Datatype::BalanceDiffs => facet_datatype(Facet::Balance) == d,
                    Datatype::NonceDiffs => facet_datatype(Facet::Nonce) == d,
                    _ => facet_datatype(Facet::Code) == d,
                });
                Ok(t)
            },
            None => Err(CollectError::BadSchema),
        }
    }
}

/// Whether an accumulator, if there is one, is well formed and belongs to the facet's dataset.
pub open spec fn slot_ok(a: Option<Accumulator>, f: Facet) -> bool {
    a matches Some(x) ==> x.wf() && x.spec_datatype() == facet_datatype(f)
}

/// Whether table `t` is what accumulator `a` assembles to.
pub open spec fn assembled(a: Accumulator, t: Table) -> bool {
    &&& t.schema() == a.active()
    &&& t.spec_datatype() == a.spec_datatype()
    &&& holds_rows(t, a@)
}

/// The (key, success) pairs of a run of fetch outcomes.
pub open spec fn outcome_flags(o: Seq<(u64, Option<BlockStateDiffs>)>) -> Seq<(u64, bool)> {
    o.map_values(|x: (u64, Option<BlockStateDiffs>)| (x.0, response_fits(x.0, x.1)))
}

/// The rows of one facet that the successful responses of a run contribute
/// on chain `chain`, in order.
pub open spec fn outcome_rows(o: Seq<(u64, Option<BlockStateDiffs>)>, f: Facet, chain: u64) -> Seq<Seq<Cell>>
    decreases o.len(),
{
    if o.len() == 0 {
        Seq::empty()
    } else {
        outcome_rows(o.drop_last(), f, chain) + if response_fits(o.last().0, o.last().1) {
            response_rows(o.last().1.unwrap(), f, chain)
        } else {
            Seq::empty()
        }
    }
}

/// What the tables collected from a run of fetch outcomes hold: for each
/// diff dataset with a schema, its first schema's columns over the rows of
/// every response.
pub open spec fn collected(
    schemas: Seq<(Datatype, Schema)>,
    chain: u64,
    o: Seq<(u64, Option<BlockStateDiffs>)>,
    ts: DiffTables,
) -> bool {
    &&& ts.wf()
    &&& forall|f: Facet| #[trigger] ts.table(f) is Some == has_schema(schemas, facet_datatype(f))
    &&& forall|f: Facet| #[trigger]
        ts.table(f) is Some ==> exists|i: int|
            first_schema_index(schemas, facet_datatype(f), i) && ts.table(f).unwrap().schema()
                == schemas[i].1.view() && holds_rows(ts.table(f).unwrap(), outcome_rows(o, f, chain))
}

/// Collect the tables of the diff datasets that `schemas` names from a run of
/// fetch outcomes, each a unit key with its response or none where the fetch
/// failed.
///
/// A unit whose response is missing, or is for another block than the
/// unit's key, has failed. Fails with `Schema(UnknownColumn)` when a schema
/// does not fit its dataset, and else with the first fetch failure; never
/// returns a partial result. Every row carries `chain_id`.
pub fn state_diffs_to_tables(
    schemas: &Vec<(Datatype, Schema)>,
    chain_id: u64,
    outcomes: &Vec<(u64, Option<BlockStateDiffs>)>,
) -> (r: Result<DiffTables, CollectError>)
    requires
        distinct_datatypes(schemas@),
    ensures
        !schemas_fit(schemas@) ==> r == Err::<DiffTables, CollectError>(
            CollectError::Schema(SchemaError::UnknownColumn),
        ),
        schemas_fit(schemas@) ==> match failure_after(None, outcome_flags(outcomes@)) {
            Some(e) => r == Err::<DiffTables, CollectError>(e),
            None => r matches Ok(ts) && collected(schemas@, chain_id, outcomes@, ts),
        },
{
    let mut c = match DiffCollector::new(schemas, chain_id) {
        Ok(c) => c,
        Err(e) => {
            return Err(CollectError::Schema(e));
        },
    };
    let ghost c0 = c;
    let ghost flags = outcome_flags(outcomes@);
    let mut i: usize = 0;
    while i < outcomes.len()
        invariant
            i <= outcomes@.len(),
            flags == outcome_flags(outcomes@),
            c.wf(),
            c.failure() == failure_after(None, flags.take(i as int)),
            c.chain_id() == chain_id,
            forall|f: Facet| #[trigger] c.active(f) == c0.active(f),
            forall|f: Facet| #[trigger] c.active(f) ==> c.slot(f).unwrap().active() == c0.slot(f).unwrap().active(),
            forall|f: Facet| #[trigger]
                c.active(f) && c.failure() is None ==> c.rows(f) == outcome_rows(outcomes@.take(i as int), f, chain_id),
        decreases outcomes@.len() - i,
    {
        assert(flags.take(i + 1).drop_last() =~= flags.take(i as int));
        assert(outcomes@.take(i + 1).drop_last() =~= outcomes@.take(i as int));
        let ghost before = c;
        c.ingest(outcomes[i].0, outcomes[i].1.as_ref());
        i = i + 1;
        assert forall|f: Facet| #[trigger]
            c.active(f) && c.failure() is None implies c.rows(f) == outcome_rows(outcomes@.take(i as int), f, chain_id) by {
            assert(before.failure() is None);
        }
    }
    assert(flags.take(i as int) =~= flags);
    assert(outcomes@.take(i as int) =~= outcomes@);
    let r = c.finish();
    proof {
        if r is Ok {
            let ts = r->Ok_0;
            assert forall|f: Facet| #[trigger] ts.table(f) is Some implies exists|i: int|
                first_schema_index(schemas@, facet_datatype(f), i) && ts.table(f).unwrap().schema()
                    == schemas@[i].1.view() && holds_rows(ts.table(f).unwrap(), outcome_rows(outcomes@, f, chain_id)) by {
                assert(c.active(f));
                assert(c0.active(f));
            }
        }
    }
    r
}

/// Collect the table of one diff dataset from a run of fetch outcomes, and
/// sort it by `sort_keys` where they are given.
///
/// Fails as `state_diffs_to_tables` does, then with `BadSchema` when the
/// dataset was not collected, then with `SchemaMismatch` when a sort key
/// names no column of its table.
pub fn collect_single(
    datatype: &Datatype,
    schemas: &Vec<(Datatype, Schema)>,
    chain_id: u64,
    outcomes: &Vec<(u64, Option<BlockStateDiffs>)>,
    sort_keys: Option<&Vec<String>>,
) -> (r: Result<Table, CollectError>)
    requires
        distinct_datatypes(schemas@),
    ensures
        !schemas_fit(schemas@) ==> r == Err::<Table, CollectError>(
            CollectError::Schema(SchemaError::UnknownColumn),
        ),
        schemas_fit(schemas@) ==> match failure_after(None, outcome_flags(outcomes@)) {
            Some(e) => r == Err::<Table, CollectError>(e),
            None => if datatype == Datatype::Erc20Balances || !has_schema(schemas@, *datatype) {
                r == Err::<Table, CollectError>(CollectError::BadSchema)
            } else {
                exists|f: Facet, a: Table| #![auto] facet_datatype(f) == *datatype && a.wf()
                    && a.spec_datatype() == *datatype
                    && (exists|i: int| first_schema_index(schemas@, *datatype, i) && a.schema() == schemas@[i].1.view())
                    && holds_rows(a, outcome_rows(outcomes@, f, chain_id))
                    && match sort_keys {
                        None => r == Ok::<Table, CollectError>(a),
                        Some(k) => if a.has_columns(crate::schema::names_of(k@)) {
                            r matches Ok(t) && t.wf() && t.schema() == a.schema() && is_sorted_reordering(a, t, a.key_positions(crate::schema::names_of(k@)))
                        } else {
                            r == Err::<Table, CollectError>(CollectError::SchemaMismatch)
                        },
                    }
            },
        },
{
    let mut ts = match state_diffs_to_tables(schemas, chain_id, outcomes) {
        Ok(ts) => ts,
        Err(e) => {
            return Err(e);
        },
    };
    let ghost ts0 = ts;
    proof {
        ts.lemma_wf(Facet::Storage);
        ts.lemma_wf(Facet::Balance);
        ts.lemma_wf(Facet::Nonce);
        ts.lemma_wf(Facet::Code);
    }
    let mut t = match ts.remove(*datatype) {
        Ok(t) => t,
        Err(e) => {
            proof {
                if *datatype != Datatype::Erc20Balances && has_schema(schemas@, *datatype) {
                    let f = match *datatype {
                        Datatype::StorageDiffs => Facet::Storage,
                        Datatype::BalanceDiffs => Facet::Balance,
                        Datatype::NonceDiffs => Facet::Nonce,
                        _ => Facet::Code,
                    };
                    assert(facet_datatype(f) == *datatype);
                    assert(ts0.table(f) is Some);
                }
            }
            return Err(e);
        },
    };
    let ghost f = choose|f: Facet| #![auto] facet_datatype(f) == *datatype && ts0.table(f) == Some(t);
    proof {
        ts0.lemma_wf(f);
        assert(ts0.table(f) is Some);
    }
    match sort_keys {
        None => Ok(t),
        Some(k) => {
            match t.sort(k) {
                Ok(_) => Ok(t),
                Err(e) => Err(e),
            }
        },
    }
}

/// A column that the schema leaves out has no accumulator and no column in
/// the assembled table.
pub proof fn lemma_column_inactivation(a: Accumulator, t: Table, name: Seq<char>)
    requires
        assembled(a, t),
        forall|j: int| 0 <= j < a.active().len() ==> (#[trigger] a.active()[j]).0 != name,
    ensures
        forall|j: int| 0 <= j < t.schema().len() ==> (#[trigger] t.schema()[j]).0 != name,
{
}

/// Whether the first schema of `datatype` in `schemas` holds a column named
/// `column_name`; false where there is no such schema.
pub fn included(schemas: &Vec<(Datatype, Schema)>, datatype: Datatype, column_name: &String) -> (r: bool)
    ensures
        r == exists|i: int|
            first_schema_index(schemas@, datatype, i) && lookup(schemas@[i].1.view(), column_name@) is Some,
{
    match find_schema(schemas, datatype) {
        Some(i) => {
            let r = schemas[i].1.contains_key(column_name);
            proof {
                if !r {
                    assert forall|k: int| first_schema_index(schemas@, datatype, k) implies !(lookup(schemas@[k].1.view(), column_name@) is Some) by {
                        lemma_first_unique(schemas@, datatype, i as int, k);
                    }
                }
            }
            r
        },
        None => false,
    }
}

/// Whether each schema of the list is well formed and was resolved for the
/// dataset it is listed under.
pub open spec fn schemas_paired(s: Seq<(Datatype, Schema)>) -> bool {
    forall|i: int| 0 <= i < s.len() ==> (#[trigger] s[i]).1.wf() && s[i].1.spec_datatype() == s[i].0
}

pub(crate) proof fn lemma_lookup_position(c: Seq<(Seq<char>, crate::schema::ColumnType)>, n: Seq<char>)
    ensures
        lookup(c, n) is Some <==> catalog_position(c, n) is Some,
    decreases c.len(),
{
    if c.len() > 0 && c[0].0 != n {
        lemma_lookup_position(c.subrange(1, c.len() as int), n);
    }
}

/// Schemas resolved for the datasets they are listed under fit their catalogs.
pub proof fn lemma_paired_schemas_fit(s: Seq<(Datatype, Schema)>)
    requires
        schemas_paired(s),
    ensures
        schemas_fit(s),
{
    assert forall|f: Facet, i: int| #[trigger] first_schema_index(s, facet_datatype(f), i) implies schema_fits(
        s[i].1,
        facet_datatype(f),
    ) by {
        let v = s[i].1.view();
        assert forall|j: int| 0 <= j < v.len() implies catalog_position(catalog(facet_datatype(f)), #[trigger] v[j].0) is Some by {
            assert(s[i].1.wf());
            lemma_lookup_position(catalog(facet_datatype(f)), v[j].0);
        }
    }
}

/// Collection is fail-fast: with schemas resolved for their datasets, a run
/// in which some unit failed fails with the first failed unit's key, so
/// `state_diffs_to_tables` and `collect_single` return that error and no
/// table.
pub proof fn lemma_fail_fast_collection(s: Seq<(Datatype, Schema)>, o: Seq<(u64, Option<BlockStateDiffs>)>, k: int)
    requires
        schemas_paired(s),
        0 <= k < o.len(),
        !response_fits(o[k].0, o[k].1),
        forall|i: int| 0 <= i < k ==> response_fits(o[i].0, #[trigger] o[i].1),
    ensures
        schemas_fit(s),
        failure_after(None, outcome_flags(o)) == Some(CollectError::Fetch(o[k].0)),
{
    lemma_paired_schemas_fit(s);
    let fl = outcome_flags(o);
    assert forall|i: int| 0 <= i < k implies (#[trigger] fl[i]).1 by {
        assert(response_fits(o[i].0, o[i].1));
    }
    lemma_fail_fast(fl, k);
}

/// In every collected table, the table and each of its columns have the row
/// count of the rows emitted for its dataset.
pub proof fn lemma_collected_rows_aligned(
    s: Seq<(Datatype, Schema)>,
    chain: u64,
    o: Seq<(u64, Option<BlockStateDiffs>)>,
    ts: DiffTables,
    f: Facet,
)
    requires
        collected(s, chain, o, ts),
        ts.table(f) is Some,
    ensures
        ts.table(f).unwrap().wf(),
        ts.table(f).unwrap().spec_n_rows() == crate::table::capped_count(outcome_rows(o, f, chain).len()),
        forall|j: int| 0 <= j < ts.table(f).unwrap().schema().len() ==> (#[trigger] ts.table(f).unwrap().cells(j)).len()
            == outcome_rows(o, f, chain).len(),
{
    ts.lemma_wf(f);
}

/// A column that a dataset's schema leaves out is absent from its collected
/// table, which has exactly the schema's columns in schema order.
pub proof fn lemma_collected_omits_inactive(
    s: Seq<(Datatype, Schema)>,
    chain: u64,
    o: Seq<(u64, Option<BlockStateDiffs>)>,
    ts: DiffTables,
    f: Facet,
    i: int,
    name: Seq<char>,
)
    requires
        collected(s, chain, o, ts),
        first_schema_index(s, facet_datatype(f), i),
        forall|j: int| 0 <= j < s[i].1.view().len() ==> (#[trigger] s[i].1.view()[j]).0 != name,
    ensures
        ts.table(f) is Some,
        ts.table(f).unwrap().schema() == s[i].1.view(),
        forall|j: int| 0 <= j < ts.table(f).unwrap().schema().len() ==> (#[trigger] ts.table(f).unwrap().schema()[j]).0 != name,
{
    assert(has_schema(s, facet_datatype(f)));
    let k = choose|k: int| first_schema_index(s, facet_datatype(f), k) && ts.table(f).unwrap().schema()
        == s[k].1.view() && holds_rows(ts.table(f).unwrap(), outcome_rows(o, f, chain));
    lemma_first_unique(s, facet_datatype(f), i, k);
}

/// Whether `row` is the row of some account of some transaction of a
/// successful outcome of the run.
pub open spec fn is_outcome_account_row(o: Seq<(u64, Option<BlockStateDiffs>)>, f: Facet, chain: u64, row: Seq<Cell>) -> bool {
    exists|i: int|
        0 <= i < o.len() && response_fits(o[i].0, o[i].1) && is_some_account_row(
            o[i].1.unwrap().block_number,
            o[i].1.unwrap().traces@,
            f,
            chain,
            row,
        )
}

/// Every row collected for balance, nonce or code comes from one account of
/// one transaction of a successful response, with that account's reconciled
/// (from, to) pair for the facet; a collected table holds these rows column
/// by column (`holds_rows`).
pub proof fn lemma_outcome_rows_reconciled(o: Seq<(u64, Option<BlockStateDiffs>)>, f: Facet, chain: u64)
    requires
        f != Facet::Storage,
    ensures
        forall|k: int|
            0 <= k < outcome_rows(o, f, chain).len() ==> is_outcome_account_row(
                o,
                f,
                chain,
                #[trigger] outcome_rows(o, f, chain)[k],
            ),
    decreases o.len(),
{
    if o.len() > 0 {
        let p = o.drop_last();
        lemma_outcome_rows_reconciled(p, f, chain);
        let head = outcome_rows(p, f, chain);
        let all = outcome_rows(o, f, chain);
        assert forall|k: int| 0 <= k < all.len() implies is_outcome_account_row(o, f, chain, #[trigger] all[k]) by {
            if k < head.len() {
                assert(is_outcome_account_row(p, f, chain, head[k]));
                let i = choose|i: int|
                    0 <= i < p.len() && response_fits(p[i].0, p[i].1) && is_some_account_row(
                        p[i].1.unwrap().block_number,
                        p[i].1.unwrap().traces@,
                        f,
                        chain,
                        head[k],
                    );
                assert(p[i] == o[i]);
            } else {
                let r = o.last().1.unwrap();
                lemma_rows_reconciled(r, f, chain);
                assert(all[k] == response_rows(r, f, chain)[k - head.len()]);
                assert(o[o.len() - 1] == o.last());
            }
        }
    }
}

/// Every collected row starts with an integer block number.
proof fn lemma_outcome_rows_uint(o: Seq<(u64, Option<BlockStateDiffs>)>, f: Facet, chain: u64)
    ensures
        forall|k: int| 0 <= k < outcome_rows(o, f, chain).len() ==> (#[trigger] outcome_rows(o, f, chain)[k]).len() > 0
            && outcome_rows(o, f, chain)[k][0] is UInt,
    decreases o.len(),
{
    if o.len() > 0 {
        let p = o.drop_last();
        lemma_outcome_rows_uint(p, f, chain);
        let head = outcome_rows(p, f, chain);
        let all = outcome_rows(o, f, chain);
        if response_fits(o.last().0, o.last().1) {
            lemma_response_rows_of_block(o.last().1.unwrap(), f, chain);
        }
        assert forall|k: int| 0 <= k < all.len() implies (#[trigger] all[k]).len() > 0 && all[k][0] is UInt by {
            if k < head.len() {
                assert(all[k] == head[k]);
            } else {
                let r = o.last().1.unwrap();
                assert(all[k] == response_rows(r, f, chain)[k - head.len()]);
            }
        }
    }
}

/// Sorting a collected diff table by `block_number` leaves its block numbers
/// non-decreasing, and rows with equal block numbers in their order before
/// the sort.
pub proof fn lemma_sorted_by_block_number(
    a: Table,
    t: Table,
    o: Seq<(u64, Option<BlockStateDiffs>)>,
    f: Facet,
    chain: u64,
)
    requires
        a.wf(),
        a.spec_datatype() == facet_datatype(f),
        holds_rows(a, outcome_rows(o, f, chain)),
        a.has_columns(seq!["block_number"@]),
        is_sorted_reordering(a, t, a.key_positions(seq!["block_number"@])),
    ensures
        ({
            let j = catalog_position(a.schema(), "block_number"@).unwrap() as int;
            &&& 0 <= j < a.schema().len()
            &&& a.schema()[j].0 == "block_number"@
            &&& forall|k1: int, k2: int|
                0 <= k1 < k2 < a.spec_n_rows() ==> (#[trigger] t.cells(j)[k1])->UInt_0 <= (
                #[trigger] t.cells(j)[k2])->UInt_0
            &&& exists|p: Seq<usize>|
                {
                    &&& crate::order::is_permutation(p, a.spec_n_rows() as int)
                    &&& forall|k: int| 0 <= k < a.spec_n_rows() ==> #[trigger] t.cells(j)[k] == a.cells(j)[p[k] as int]
                    &&& forall|k1: int, k2: int|
                        0 <= k1 < k2 < a.spec_n_rows() && a.cells(j)[p[k1] as int] == a.cells(j)[p[k2] as int]
                            ==> #[trigger] p[k1] < #[trigger] p[k2]
                }
        }),
{
    let n = "block_number"@;
    assert(seq![n][0] == n);
    crate::table::lemma_catalog_position(a.schema(), n);
    let j = catalog_position(a.schema(), n).unwrap() as int;
    assert(a.key_positions(seq![n]) =~= seq![j]);
    let rows = outcome_rows(o, f, chain);
    lemma_outcome_rows_uint(o, f, chain);
    assert(catalog(a.spec_datatype())[0].0 == n);
    assert(catalog_position(catalog(a.spec_datatype()), n) == Some(0nat));
    a.lemma_row_alignment();
    assert forall|k: int| 0 <= k < a.spec_n_rows() implies (#[trigger] a.cells(j)[k]) is UInt by {
        assert(a.cells(j).len() == a.spec_n_rows());
        assert(a.cells(j)[k] == rows[k][0]);
    }
    crate::table::lemma_sorted_by_uint_column(a, t, j);
}

/// Each account of each transaction of each successful response of a run has
/// its balance, nonce or code row among the collected rows, with the
/// account's reconciled (from, to) pair in its from and to cells; a collected
/// table holds these rows column by column (`holds_rows`).
pub proof fn lemma_every_account_collected(
    o: Seq<(u64, Option<BlockStateDiffs>)>,
    f: Facet,
    chain: u64,
    i: int,
    t: int,
    a: int,
)
    requires
        f != Facet::Storage,
        0 <= i < o.len(),
        response_fits(o[i].0, o[i].1),
        0 <= t < o[i].1.unwrap().traces@.len(),
        o[i].1.unwrap().traces@[t].state_diff is Some,
        0 <= a < o[i].1.unwrap().traces@[t].state_diff.unwrap()@.len(),
    ensures
        has_account_row(o[i].1.unwrap().block_number, o[i].1.unwrap().traces@, f, chain, outcome_rows(o, f, chain), t, a),
    decreases o.len(),
{
    let p = o.drop_last();
    let head = outcome_rows(p, f, chain);
    let all = outcome_rows(o, f, chain);
    let r = o[i].1.unwrap();
    if i < o.len() - 1 {
        assert(p[i] == o[i]);
        lemma_every_account_collected(p, f, chain, i, t, a);
        let k = choose|k: int| 0 <= k < head.len() && is_account_row(r.block_number, r.traces@, f, chain, #[trigger] head[k], t, a);
        assert(all[k] == head[k]);
    } else {
        assert(o[i] == o.last());
        lemma_every_account_has_row(r, f, chain, t, a);
        let rr = response_rows(r, f, chain);
        let k = choose|k: int| 0 <= k < rr.len() && is_account_row(r.block_number, r.traces@, f, chain, #[trigger] rr[k], t, a);
        assert(all[head.len() + k] == rr[k]);
    }
}

/// Each changed slot of each account of each transaction of each successful
/// response of a run has its storage row among the collected rows, with the
/// slot's reconciled (from, to) pair in its from and to cells.
pub proof fn lemma_every_slot_collected(
    o: Seq<(u64, Option<BlockStateDiffs>)>,
    chain: u64,
    i: int,
    t: int,
    a: int,
    z: int,
)
    requires
        0 <= i < o.len(),
        response_fits(o[i].0, o[i].1),
        0 <= t < o[i].1.unwrap().traces@.len(),
        o[i].1.unwrap().traces@[t].state_diff is Some,
        0 <= a < o[i].1.unwrap().traces@[t].state_diff.unwrap()@.len(),
        0 <= z < o[i].1.unwrap().traces@[t].state_diff.unwrap()@[a].storage@.len(),
    ensures
        has_slot_row(
            o[i].1.unwrap().block_number,
            o[i].1.unwrap().traces@,
            chain,
            outcome_rows(o, Facet::Storage, chain),
            t,
            a,
            z,
        ),
    decreases o.len(),
{
    let f = Facet::Storage;
    let p = o.drop_last();
    let head = outcome_rows(p, f, chain);
    let all = outcome_rows(o, f, chain);
    let r = o[i].1.unwrap();
    if i < o.len() - 1 {
        assert(p[i] == o[i]);
        lemma_every_slot_collected(p, chain, i, t, a, z);
        let k = choose|k: int| 0 <= k < head.len() && is_slot_row(r.block_number, r.traces@, chain, #[trigger] head[k], t, a, z);
        assert(all[k] == head[k]);
    } else {
        assert(o[i] == o.last());
        lemma_every_slot_has_row(r, chain, t, a, z);
        let rr = response_rows(r, f, chain);
        let k = choose|k: int| 0 <= k < rr.len() && is_slot_row(r.block_number, r.traces@, chain, #[trigger] rr[k], t, a, z);
        assert(all[head.len() + k] == rr[k]);
    }
}

} // verus!
