use cryo_freeze::collect::included;
use cryo_freeze::schema::compute_used_columns;
use cryo_freeze::schema::{ColumnEncoding, ColumnType, Datatype, SchemaError};

fn names(v: &[&str]) -> Vec<String> {
    v.iter().map(|s| s.to_string()).collect()
}

fn schema_names(d: Datatype, enc: ColumnEncoding, inc: Option<Vec<String>>, exc: Option<Vec<String>>) -> Result<Vec<(String, ColumnType)>, SchemaError> {
    d.get_schema(&enc, &inc, &exc).map(|s| s.columns())
}

#[test]
fn column_type_names() {
    assert_eq!(ColumnType::Int32.as_str(), "int32");
    assert_eq!(ColumnType::Int64.as_str(), "int64");
    assert_eq!(ColumnType::UInt32.as_str(), "uint32");
    assert_eq!(ColumnType::UInt64.as_str(), "uint64");
    assert_eq!(ColumnType::UInt256.as_str(), "uint256");
    assert_eq!(ColumnType::Float64.as_str(), "float64");
    assert_eq!(ColumnType::Decimal128.as_str(), "decimal128");
    assert_eq!(ColumnType::String.as_str(), "string");
    assert_eq!(ColumnType::Binary.as_str(), "binary");
    assert_eq!(ColumnType::Hex.as_str(), "hex");
}

#[test]
fn dataset_names_and_defaults() {
    assert_eq!(Datatype::BalanceDiffs.name(), "balance_diffs");
    assert_eq!(Datatype::Erc20Balances.name(), "erc20_balances");
    assert_eq!(Datatype::StorageDiffs.name(), "storage_diffs");
    assert_eq!(
        Datatype::BalanceDiffs.default_columns(),
        names(&["block_number", "transaction_index", "transaction_hash", "address", "from_value", "to_value"])
    );
    assert_eq!(Datatype::Erc20Balances.default_columns(), names(&["block_number", "erc20", "address", "balance", "chain_id"]));
    assert_eq!(Datatype::BalanceDiffs.default_sort(), names(&["block_number", "transaction_index"]));
    assert_eq!(Datatype::Erc20Balances.default_sort(), names(&["block_number"]));
    let cat = Datatype::StorageDiffs.column_types();
    assert_eq!(cat.len(), 8);
    assert_eq!(cat[4], ("slot".to_string(), ColumnType::Binary));
    assert_eq!(cat[7], ("chain_id".to_string(), ColumnType::UInt64));
    let cat = Datatype::BalanceDiffs.column_types();
    assert_eq!(cat.len(), 7);
    assert_eq!(cat[6], ("chain_id".to_string(), ColumnType::UInt64));
    let cat = Datatype::CodeDiffs.column_types();
    assert_eq!(cat[4], ("from_value".to_string(), ColumnType::Binary));
    let cat = Datatype::NonceDiffs.column_types();
    assert_eq!(cat[5], ("to_value".to_string(), ColumnType::UInt256));
}

#[test]
fn resolve_all_gives_catalog_in_order() {
    let r = schema_names(Datatype::Erc20Balances, ColumnEncoding::Binary, Some(names(&["all"])), None).unwrap();
    assert_eq!(
        r,
        vec![
            ("block_number".to_string(), ColumnType::UInt32),
            ("erc20".to_string(), ColumnType::Binary),
            ("address".to_string(), ColumnType::Binary),
            ("balance".to_string(), ColumnType::UInt256),
            ("chain_id".to_string(), ColumnType::UInt64),
        ]
    );
    let all_with_exc = schema_names(Datatype::Erc20Balances, ColumnEncoding::Binary, Some(names(&["all"])), Some(names(&["erc20"]))).unwrap();
    assert_eq!(all_with_exc, r);
}

#[test]
fn resolve_hex_overlays_binary_columns() {
    let r = schema_names(Datatype::Erc20Balances, ColumnEncoding::Hex, None, None).unwrap();
    assert_eq!(r[0].1, ColumnType::UInt32);
    assert_eq!(r[1].1, ColumnType::Hex);
    assert_eq!(r[2].1, ColumnType::Hex);
    assert_eq!(r[3].1, ColumnType::UInt256);
    assert_eq!(r[4].1, ColumnType::UInt64);
}

#[test]
fn resolve_exclude_present_and_absent() {
    let base = schema_names(Datatype::BalanceDiffs, ColumnEncoding::Binary, None, None).unwrap();
    let without = schema_names(Datatype::BalanceDiffs, ColumnEncoding::Binary, None, Some(names(&["address"]))).unwrap();
    let expect: Vec<_> = base.iter().filter(|e| e.0 != "address").cloned().collect();
    assert_eq!(without, expect);
    assert_eq!(without.len(), 5);
    assert_eq!(base.len(), 6);
    let same = schema_names(Datatype::BalanceDiffs, ColumnEncoding::Binary, None, Some(names(&["chain_id"]))).unwrap();
    assert_eq!(same, base);
    let all = schema_names(Datatype::BalanceDiffs, ColumnEncoding::Binary, Some(names(&["all"])), None).unwrap();
    assert_eq!(all.len(), 7);
}

#[test]
fn resolve_include_keeps_given_order() {
    let r = schema_names(Datatype::BalanceDiffs, ColumnEncoding::Binary, Some(names(&["to_value", "block_number", "to_value"])), None).unwrap();
    assert_eq!(r, vec![("to_value".to_string(), ColumnType::UInt256), ("block_number".to_string(), ColumnType::UInt32)]);
    let r = schema_names(Datatype::BalanceDiffs, ColumnEncoding::Binary, Some(names(&["address"])), Some(names(&["to_value"]))).unwrap();
    assert_eq!(r, vec![("address".to_string(), ColumnType::Binary)]);
}

#[test]
fn resolve_conflict_and_unknown() {
    let r = schema_names(Datatype::BalanceDiffs, ColumnEncoding::Binary, Some(names(&["address", "to_value"])), Some(names(&["to_value"])));
    assert_eq!(r, Err(SchemaError::ConflictingColumnSelection));
    let r = schema_names(Datatype::BalanceDiffs, ColumnEncoding::Binary, Some(names(&["address", "nope"])), None);
    assert_eq!(r, Err(SchemaError::UnknownColumn));
    let r = schema_names(Datatype::Erc20Balances, ColumnEncoding::Binary, Some(names(&["slot"])), None);
    assert_eq!(r, Err(SchemaError::UnknownColumn));
}

#[test]
fn used_columns_branches() {
    let d = Datatype::BalanceDiffs;
    let defaults = d.default_columns();
    assert_eq!(compute_used_columns(defaults.clone(), &None, &None, &d), Ok(defaults.clone()));
    assert_eq!(
        compute_used_columns(defaults.clone(), &None, &Some(names(&["block_number", "to_value"])), &d),
        Ok(names(&["transaction_index", "transaction_hash", "address", "from_value"]))
    );
    assert_eq!(compute_used_columns(defaults.clone(), &Some(names(&["x", "y"])), &None, &d), Ok(names(&["x", "y"])));
    assert_eq!(
        compute_used_columns(defaults.clone(), &Some(names(&["x"])), &Some(names(&["x"])), &d),
        Err(SchemaError::ConflictingColumnSelection)
    );
    assert_eq!(compute_used_columns(names(&["a"]), &Some(names(&["all"])), &None, &d).unwrap().len(), 7);
}

#[test]
fn schema_lookup_and_included() {
    let s = Datatype::StorageDiffs.get_schema(&ColumnEncoding::Binary, &Some(names(&["slot", "address"])), &None).unwrap();
    assert_eq!(s.len(), 2);
    assert_eq!(s.column(0), ("slot".to_string(), ColumnType::Binary));
    assert_eq!(s.get(&"address".to_string()), Some(ColumnType::Binary));
    assert!(!s.contains_key(&"to_value".to_string()));
    assert_eq!(s.datatype(), Datatype::StorageDiffs);
    let schemas = vec![(Datatype::StorageDiffs, s)];
    assert!(included(&schemas, Datatype::StorageDiffs, &"slot".to_string()));
    assert!(!included(&schemas, Datatype::StorageDiffs, &"to_value".to_string()));
    assert!(!included(&schemas, Datatype::BalanceDiffs, &"slot".to_string()));
}
