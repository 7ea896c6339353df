use cryo_freeze::collect::{collect_single, state_diffs_to_tables, CollectError, DiffCollector};
use cryo_freeze::datasets::{balance_of_call_data, decode_balance, BalanceDiffColumns, Erc20Balance, Erc20BalancesColumns};
use cryo_freeze::diffs::{reconcile_diff, zero_bytes, AccountDiff, BlockStateDiffs, Diff, StorageDiff, TraceDiff};
use cryo_freeze::fetch::{FetchScheduler, RateLimiter};
use cryo_freeze::schema::{ColumnEncoding, ColumnType, Datatype, Schema, SchemaError};
use cryo_freeze::table::{Table, Value};

fn word(n: u64) -> Vec<u8> {
    let mut w = vec![0u8; 24];
    w.extend_from_slice(&n.to_be_bytes());
    w
}

fn schema(d: Datatype) -> Schema {
    d.get_schema(&ColumnEncoding::Binary, &None, &None).unwrap()
}

fn account(addr: u8, balance: Diff, nonce: Diff) -> AccountDiff {
    AccountDiff { address: vec![addr; 20], balance, nonce, code: Diff::Same, storage: vec![] }
}

fn block(number: u32, accounts: Vec<AccountDiff>) -> BlockStateDiffs {
    BlockStateDiffs {
        block_number: number,
        traces: vec![TraceDiff { transaction_hash: Some(vec![0xaa; 32]), state_diff: Some(accounts) }],
    }
}

fn col(t: &Table, name: &str) -> Vec<Value> {
    t.column(&name.to_string()).unwrap().clone()
}

#[test]
fn reconciliation_of_each_variant() {
    let z = zero_bytes();
    assert_eq!(z, vec![0u8; 32]);
    assert_eq!(reconcile_diff(&Diff::Same), (z.clone(), z.clone()));
    assert_eq!(reconcile_diff(&Diff::Born(word(5))), (z.clone(), word(5)));
    assert_eq!(reconcile_diff(&Diff::Died(word(7))), (word(7), z.clone()));
    assert_eq!(reconcile_diff(&Diff::Changed(word(1), word(2))), (word(1), word(2)));
}

#[test]
fn reconciliation_alike_across_facets() {
    let a = AccountDiff {
        address: vec![1; 20],
        balance: Diff::Born(word(3)),
        nonce: Diff::Born(word(3)),
        code: Diff::Born(word(3)),
        storage: vec![StorageDiff { slot: word(9), diff: Diff::Born(word(3)) }],
    };
    let schemas = vec![
        (Datatype::BalanceDiffs, schema(Datatype::BalanceDiffs)),
        (Datatype::NonceDiffs, schema(Datatype::NonceDiffs)),
        (Datatype::CodeDiffs, schema(Datatype::CodeDiffs)),
        (Datatype::StorageDiffs, schema(Datatype::StorageDiffs)),
    ];
    let mut ts = state_diffs_to_tables(&schemas, 1, &vec![(4, Some(block(4, vec![a])))]).unwrap();
    for d in [Datatype::BalanceDiffs, Datatype::NonceDiffs, Datatype::CodeDiffs, Datatype::StorageDiffs] {
        let t = ts.remove(d).unwrap();
        assert_eq!(col(&t, "from_value"), vec![Value::Bytes(vec![0; 32])]);
        assert_eq!(col(&t, "to_value"), vec![Value::Bytes(word(3))]);
    }
}

#[test]
fn fan_out_balance_only() {
    let resp = block(100, vec![account(7, Diff::Changed(word(10), word(20)), Diff::Same)]);
    let schemas = vec![(Datatype::BalanceDiffs, schema(Datatype::BalanceDiffs))];
    let mut ts = state_diffs_to_tables(&schemas, 1, &vec![(100, Some(resp))]).unwrap();
    let t = ts.remove(Datatype::BalanceDiffs).unwrap();
    assert_eq!(t.n_rows(), 1);
    assert_eq!(col(&t, "from_value"), vec![Value::Bytes(word(10))]);
    assert_eq!(col(&t, "to_value"), vec![Value::Bytes(word(20))]);
    assert_eq!(col(&t, "block_number"), vec![Value::UInt(100)]);
    assert_eq!(col(&t, "address"), vec![Value::Bytes(vec![7; 20])]);
    assert!(matches!(ts.remove(Datatype::NonceDiffs), Err(CollectError::BadSchema)));
}

#[test]
fn fan_out_balance_and_nonce() {
    let resp = block(100, vec![account(7, Diff::Changed(word(10), word(20)), Diff::Same)]);
    let schemas = vec![
        (Datatype::BalanceDiffs, schema(Datatype::BalanceDiffs)),
        (Datatype::NonceDiffs, schema(Datatype::NonceDiffs)),
    ];
    let mut ts = state_diffs_to_tables(&schemas, 1, &vec![(100, Some(resp))]).unwrap();
    let b = ts.remove(Datatype::BalanceDiffs).unwrap();
    let n = ts.remove(Datatype::NonceDiffs).unwrap();
    assert_eq!(b.n_rows(), 1);
    assert_eq!(col(&b, "to_value"), vec![Value::Bytes(word(20))]);
    assert_eq!(n.n_rows(), 1);
    assert_eq!(col(&n, "from_value"), vec![Value::Bytes(vec![0; 32])]);
    assert_eq!(col(&n, "to_value"), vec![Value::Bytes(vec![0; 32])]);
}

#[test]
fn storage_fans_out_per_slot_and_keeps_hashless_traces() {
    let mut a = account(1, Diff::Same, Diff::Same);
    a.storage = vec![
        StorageDiff { slot: word(1), diff: Diff::Changed(word(2), word(3)) },
        StorageDiff { slot: word(4), diff: Diff::Died(word(5)) },
    ];
    let empty = account(2, Diff::Same, Diff::Same);
    let resp = BlockStateDiffs {
        block_number: 9,
        traces: vec![
            TraceDiff { transaction_hash: None, state_diff: Some(vec![a.clone()]) },
            TraceDiff { transaction_hash: Some(vec![1; 32]), state_diff: Some(vec![a, empty]) },
            TraceDiff { transaction_hash: Some(vec![2; 32]), state_diff: None },
        ],
    };
    let schemas = vec![(Datatype::StorageDiffs, schema(Datatype::StorageDiffs))];
    let mut ts = state_diffs_to_tables(&schemas, 1, &vec![(9, Some(resp))]).unwrap();
    let t = ts.remove(Datatype::StorageDiffs).unwrap();
    assert_eq!(t.n_rows(), 4);
    assert_eq!(
        col(&t, "slot"),
        vec![Value::Bytes(word(1)), Value::Bytes(word(4)), Value::Bytes(word(1)), Value::Bytes(word(4))]
    );
    assert_eq!(col(&t, "from_value")[..2], [Value::Bytes(word(2)), Value::Bytes(word(5))]);
    assert_eq!(col(&t, "to_value")[..2], [Value::Bytes(word(3)), Value::Bytes(vec![0; 32])]);
    assert_eq!(col(&t, "transaction_index"), vec![Value::UInt(0), Value::UInt(0), Value::UInt(1), Value::UInt(1)]);
    assert_eq!(
        col(&t, "transaction_hash"),
        vec![Value::Null, Value::Null, Value::Bytes(vec![1; 32]), Value::Bytes(vec![1; 32])]
    );
}

#[test]
fn hashless_trace_gives_balance_rows() {
    let resp = BlockStateDiffs {
        block_number: 3,
        traces: vec![TraceDiff { transaction_hash: None, state_diff: Some(vec![account(4, Diff::Born(word(1)), Diff::Same)]) }],
    };
    let mut c = BalanceDiffColumns::new(&schema(Datatype::BalanceDiffs), 1).unwrap();
    c.process_balance_diffs(&resp);
    let t = c.into_table();
    assert_eq!(t.n_rows(), 1);
    assert_eq!(col(&t, "transaction_hash"), vec![Value::Null]);
    assert_eq!(col(&t, "to_value"), vec![Value::Bytes(word(1))]);
}

#[test]
fn response_for_another_block_fails_its_unit() {
    let schemas = vec![(Datatype::BalanceDiffs, schema(Datatype::BalanceDiffs))];
    let outcomes = vec![(5, Some(block(7, vec![account(1, Diff::Same, Diff::Same)])))];
    assert!(matches!(state_diffs_to_tables(&schemas, 1, &outcomes), Err(CollectError::Fetch(5))));
}

#[test]
fn chain_id_column_carries_the_chain() {
    let s = Datatype::BalanceDiffs
        .get_schema(&ColumnEncoding::Binary, &Some(vec!["block_number".to_string(), "chain_id".to_string()]), &None)
        .unwrap();
    let schemas = vec![(Datatype::BalanceDiffs, s)];
    let outcomes = vec![(6, Some(block(6, vec![account(1, Diff::Same, Diff::Same), account(2, Diff::Same, Diff::Same)])))];
    let mut ts = state_diffs_to_tables(&schemas, 137, &outcomes).unwrap();
    let t = ts.remove(Datatype::BalanceDiffs).unwrap();
    assert_eq!(t.column_names(), vec!["block_number", "chain_id"]);
    assert_eq!(col(&t, "chain_id"), vec![Value::UInt(137), Value::UInt(137)]);
}

#[test]
fn inactive_columns_are_omitted() {
    let s = Datatype::BalanceDiffs
        .get_schema(&ColumnEncoding::Binary, &None, &Some(vec!["transaction_hash".to_string(), "address".to_string()]))
        .unwrap();
    let schemas = vec![(Datatype::BalanceDiffs, s)];
    let resp = block(5, vec![account(7, Diff::Same, Diff::Same), account(8, Diff::Same, Diff::Same)]);
    let mut ts = state_diffs_to_tables(&schemas, 1, &vec![(5, Some(resp))]).unwrap();
    let t = ts.remove(Datatype::BalanceDiffs).unwrap();
    assert_eq!(t.n_columns(), 4);
    assert!(t.column(&"address".to_string()).is_none());
    assert!(t.column(&"transaction_hash".to_string()).is_none());
    assert_eq!(t.column_names(), vec!["block_number", "transaction_index", "from_value", "to_value"]);
}

#[test]
fn rows_stay_aligned() {
    let schemas = vec![(Datatype::BalanceDiffs, schema(Datatype::BalanceDiffs))];
    let outcomes = vec![
        (1, Some(block(1, vec![account(1, Diff::Same, Diff::Same)]))),
        (2, Some(block(2, vec![account(1, Diff::Same, Diff::Same), account(2, Diff::Same, Diff::Same)]))),
    ];
    let mut ts = state_diffs_to_tables(&schemas, 1, &outcomes).unwrap();
    let t = ts.remove(Datatype::BalanceDiffs).unwrap();
    assert_eq!(t.n_rows(), 3);
    for name in t.column_names() {
        assert_eq!(t.column(&name).unwrap().len(), 3);
    }
}

#[test]
fn one_failed_fetch_fails_the_collection() {
    let schemas = vec![(Datatype::BalanceDiffs, schema(Datatype::BalanceDiffs))];
    let outcomes = vec![
        (1, Some(block(1, vec![account(1, Diff::Same, Diff::Same)]))),
        (2, None),
        (3, Some(block(3, vec![account(1, Diff::Same, Diff::Same)]))),
    ];
    assert!(matches!(state_diffs_to_tables(&schemas, 1, &outcomes), Err(CollectError::Fetch(2))));
    let mut c = DiffCollector::new(&schemas, 1).unwrap();
    c.ingest(1, None);
    c.ingest(2, None);
    assert!(matches!(c.finish(), Err(CollectError::Fetch(1))));
}

#[test]
fn misfit_schema_is_bad_schema() {
    let s = Datatype::Erc20Balances.get_schema(&ColumnEncoding::Binary, &None, &None).unwrap();
    let schemas = vec![(Datatype::BalanceDiffs, s)];
    assert!(matches!(
        state_diffs_to_tables(&schemas, 1, &vec![]),
        Err(CollectError::Schema(SchemaError::UnknownColumn))
    ));
}

#[test]
fn sort_is_stable_by_block_number() {
    let schemas = vec![(Datatype::BalanceDiffs, schema(Datatype::BalanceDiffs))];
    let outcomes = vec![
        (3, Some(block(3, vec![account(1, Diff::Same, Diff::Same)]))),
        (1, Some(block(1, vec![account(2, Diff::Same, Diff::Same), account(3, Diff::Same, Diff::Same)]))),
        (2, Some(block(2, vec![account(4, Diff::Same, Diff::Same)]))),
        (1, Some(block(1, vec![account(5, Diff::Same, Diff::Same)]))),
    ];
    let keys = vec!["block_number".to_string()];
    let t = collect_single(&Datatype::BalanceDiffs, &schemas, 1, &outcomes, Some(&keys)).unwrap();
    assert_eq!(
        col(&t, "block_number"),
        vec![Value::UInt(1), Value::UInt(1), Value::UInt(1), Value::UInt(2), Value::UInt(3)]
    );
    assert_eq!(
        col(&t, "address"),
        vec![
            Value::Bytes(vec![2; 20]),
            Value::Bytes(vec![3; 20]),
            Value::Bytes(vec![5; 20]),
            Value::Bytes(vec![4; 20]),
            Value::Bytes(vec![1; 20]),
        ]
    );
}

#[test]
fn sort_by_two_keys_and_bytes() {
    let schemas = vec![(Datatype::BalanceDiffs, schema(Datatype::BalanceDiffs))];
    let outcomes = vec![
        (2, Some(block(2, vec![account(9, Diff::Same, Diff::Same), account(3, Diff::Same, Diff::Same)]))),
        (1, Some(block(1, vec![account(5, Diff::Same, Diff::Same)]))),
    ];
    let keys = vec!["block_number".to_string(), "address".to_string()];
    let t = collect_single(&Datatype::BalanceDiffs, &schemas, 1, &outcomes, Some(&keys)).unwrap();
    assert_eq!(
        col(&t, "address"),
        vec![Value::Bytes(vec![5; 20]), Value::Bytes(vec![3; 20]), Value::Bytes(vec![9; 20])]
    );
}

#[test]
fn sort_key_missing_is_schema_mismatch() {
    let schemas = vec![(Datatype::BalanceDiffs, schema(Datatype::BalanceDiffs))];
    let keys = vec!["slot".to_string()];
    let r = collect_single(&Datatype::BalanceDiffs, &schemas, 1, &vec![], Some(&keys));
    assert!(matches!(r, Err(CollectError::SchemaMismatch)));
    let r = collect_single(&Datatype::NonceDiffs, &schemas, 1, &vec![], None);
    assert!(matches!(r, Err(CollectError::BadSchema)));
    let r = collect_single(&Datatype::BalanceDiffs, &schemas, 1, &vec![], None).unwrap();
    assert_eq!(r.n_rows(), 0);
}

#[test]
fn scheduler_respects_budget() {
    let mut s = FetchScheduler::new(vec![10, 11, 12, 13, 14], 2);
    assert_eq!(s.launch(), Some(10));
    assert_eq!(s.launch(), Some(11));
    assert_eq!(s.launch(), None);
    assert!(s.complete());
    assert_eq!(s.launch(), Some(12));
    assert_eq!(s.launch(), None);
    assert!(s.complete());
    assert!(s.complete());
    assert_eq!(s.launch(), Some(13));
    assert_eq!(s.launch(), Some(14));
    assert_eq!(s.launch(), None);
    assert!(!s.is_done());
    assert!(s.complete());
    assert!(s.complete());
    assert!(!s.complete());
    assert!(s.is_done());
}

#[test]
fn scheduler_never_exceeds_budget() {
    let units: Vec<u64> = (0..20).collect();
    let mut s = FetchScheduler::new(units, 3);
    let mut in_flight = 0usize;
    let mut launched = Vec::new();
    let mut step = 0u64;
    while !s.is_done() {
        while let Some(u) = s.launch() {
            in_flight += 1;
            launched.push(u);
            assert!(in_flight <= 3);
        }
        if step % 2 == 0 && s.complete() {
            in_flight -= 1;
        } else if s.complete() {
            in_flight -= 1;
        }
        step += 1;
    }
    assert_eq!(launched, (0..20).collect::<Vec<u64>>());
}

#[test]
fn balance_of_call_data_pads_address() {
    let data = balance_of_call_data(&vec![0x11; 20]);
    assert_eq!(data.len(), 36);
    assert_eq!(&data[..4], &[0x70, 0xa0, 0x82, 0x31]);
    assert_eq!(&data[4..16], &[0u8; 12]);
    assert_eq!(&data[16..], &[0x11; 20]);
}

#[test]
fn decode_balance_pads_or_fails() {
    assert_eq!(decode_balance(None), None);
    assert_eq!(decode_balance(Some(vec![1, 2])), Some({
        let mut w = vec![0u8; 30];
        w.extend_from_slice(&[1, 2]);
        w
    }));
    assert_eq!(decode_balance(Some(word(77))), Some(word(77)));
    assert_eq!(decode_balance(Some(vec![0; 33])), None);
}

#[test]
fn erc20_rows() {
    let s = Datatype::Erc20Balances.get_schema(&ColumnEncoding::Binary, &None, &None).unwrap();
    let mut c = Erc20BalancesColumns::new(&s).unwrap();
    c.transform(&Erc20Balance { block_number: 8, erc20: vec![1; 20], address: vec![2; 20], balance: Some(word(5)), chain_id: 1 });
    c.transform(&Erc20Balance { block_number: 9, erc20: vec![1; 20], address: vec![3; 20], balance: None, chain_id: 1 });
    let t = c.into_table();
    assert_eq!(t.n_rows(), 2);
    assert_eq!(col(&t, "balance"), vec![Value::Bytes(word(5)), Value::Null]);
    assert_eq!(col(&t, "block_number"), vec![Value::UInt(8), Value::UInt(9)]);
    assert_eq!(col(&t, "chain_id"), vec![Value::UInt(1), Value::UInt(1)]);
    let wrong = Datatype::StorageDiffs.get_schema(&ColumnEncoding::Binary, &None, &None).unwrap();
    assert!(Erc20BalancesColumns::new(&wrong).is_err());
}

#[test]
fn balance_diff_columns() {
    let mut c = BalanceDiffColumns::new(&schema(Datatype::BalanceDiffs), 1).unwrap();
    c.process_balance_diffs(&block(4, vec![account(1, Diff::Died(word(6)), Diff::Same)]));
    let t = c.into_table();
    assert_eq!(col(&t, "from_value"), vec![Value::Bytes(word(6))]);
    assert_eq!(col(&t, "to_value"), vec![Value::Bytes(vec![0; 32])]);
    assert_eq!(t.datatype(), Datatype::BalanceDiffs);
}

#[test]
fn rate_limiter_spaces_slots() {
    let mut l = RateLimiter::new(100);
    assert_eq!(l.reserve_slot(5), 5);
    assert_eq!(l.reserve_slot(10), 105);
    assert_eq!(l.reserve_slot(400), 400);
    assert_eq!(l.reserve_slot(401), 500);
    let mut s = RateLimiter::new(10);
    assert_eq!(s.reserve_slot(u64::MAX - 3), u64::MAX - 3);
    assert_eq!(s.reserve_slot(0), u64::MAX);
}

#[test]
fn table_reports_column_types() {
    let s = Datatype::Erc20Balances.get_schema(&ColumnEncoding::Hex, &None, &None).unwrap();
    let c = Erc20BalancesColumns::new(&s).unwrap();
    let t = c.into_table();
    assert_eq!(
        t.column_types(),
        vec![ColumnType::UInt32, ColumnType::Hex, ColumnType::Hex, ColumnType::UInt256, ColumnType::UInt64]
    );
}

#[test]
fn table_without_columns_counts_rows() {
    let s = Datatype::NonceDiffs.get_schema(&ColumnEncoding::Binary, &Some(vec![]), &None).unwrap();
    assert_eq!(s.len(), 0);
    let schemas = vec![(Datatype::NonceDiffs, s)];
    let outcomes = vec![(2, Some(block(2, vec![account(1, Diff::Same, Diff::Same), account(2, Diff::Same, Diff::Same)])))];
    let mut ts = state_diffs_to_tables(&schemas, 1, &outcomes).unwrap();
    let t = ts.remove(Datatype::NonceDiffs).unwrap();
    assert_eq!(t.n_columns(), 0);
    assert_eq!(t.n_rows(), 2);
}

#[test]
fn column_constructors_accept_their_own_schema() {
    assert!(BalanceDiffColumns::new(&schema(Datatype::BalanceDiffs), 1).is_ok());
    assert!(BalanceDiffColumns::new(&schema(Datatype::StorageDiffs), 1).is_err());
    let e = Datatype::Erc20Balances.get_schema(&ColumnEncoding::Binary, &None, &None).unwrap();
    assert!(Erc20BalancesColumns::new(&e).is_ok());
}
