//! Column types, dataset catalogs and schema resolution.
use indexmap::IndexMap;
use vstd::prelude::*;

verus! {

/// Datatype of a column.
#[derive(Clone, Copy, Debug, PartialEq, Eq, Structural)]
pub enum ColumnType {
    /// 32-bit signed integer
    Int32,
    /// 64-bit signed integer
    Int64,
    /// 32-bit unsigned integer
    UInt32,
    /// 64-bit unsigned integer
    UInt64,
    /// 256-bit unsigned integer, held as 32 big-endian bytes
    UInt256,
    /// 64-bit floating point
    Float64,
    /// fixed-precision decimal
    Decimal128,
    /// UTF-8 string
    String,
    /// raw binary
    Binary,
    /// hex-encoded string
    Hex,
}

/// The name of a column type.
pub open spec fn column_type_name(t: ColumnType) -> Seq<char> {
    match t {
        ColumnType::Int32 => "int32"@,
        ColumnType::Int64 => "int64"@,
        ColumnType::UInt32 => "uint32"@,
        ColumnType::UInt64 => "uint64"@,
        ColumnType::UInt256 => "uint256"@,
        ColumnType::Float64 => "float64"@,
        ColumnType::Decimal128 => "decimal128"@,
        ColumnType::String => "string"@,
        ColumnType::Binary => "binary"@,
        ColumnType::Hex => "hex"@,
    }
}

impl ColumnType {
    /// Convert a column type to its name.
    pub fn as_str(&self) -> (r: &'static str)
        ensures
            r@ == column_type_name(*self),
    {
        match *self {
            ColumnType::Int32 => "int32",
            ColumnType::Int64 => "int64",
            ColumnType::UInt32 => "uint32",
            ColumnType::UInt64 => "uint64",
            ColumnType::UInt256 => "uint256",
            ColumnType::Float64 => "float64",
            ColumnType::Decimal128 => "decimal128",
            ColumnType::String => "string",
            ColumnType::Binary => "binary",
            ColumnType::Hex => "hex",
        }
    }
}

/// Error of schema resolution.
#[derive(Clone, Copy, Debug, PartialEq, Eq, Structural)]
pub enum SchemaError {
    /// A requested column is not in the dataset's catalog.
    UnknownColumn,
    /// A column is both included and excluded.
    ConflictingColumnSelection,
}

/// How binary columns are represented in the output.
#[derive(Clone, Copy, Debug, PartialEq, Eq, Structural)]
pub enum ColumnEncoding {
    /// raw bytes
    Binary,
    /// hex text
    Hex,
}

/// Identifier of a dataset.
#[derive(Clone, Copy, Debug, PartialEq, Eq, Hash, Structural)]
pub enum Datatype {
    /// balance changes per address
    BalanceDiffs,
    /// code changes per address
    CodeDiffs,
    /// nonce changes per address
    NonceDiffs,
    /// storage slot changes per address
    StorageDiffs,
    /// ERC-20 balances of addresses
    Erc20Balances,
}

/// The four datasets that one state-diff trace feeds.
pub open spec fn is_diff_datatype(d: Datatype) -> bool {
    d != Datatype::Erc20Balances
}

/// The full column catalog of a dataset, in catalog order.
pub open spec fn catalog(d: Datatype) -> Seq<(Seq<char>, ColumnType)> {
    match d {
        Datatype::StorageDiffs => seq![
            ("block_number"@, ColumnType::UInt32),
            ("transaction_index"@, ColumnType::UInt32),
            ("transaction_hash"@, ColumnType::Binary),
            ("address"@, ColumnType::Binary),
            ("slot"@, ColumnType::Binary),
            ("from_value"@, ColumnType::Binary),
            ("to_value"@, ColumnType::Binary),
            ("chain_id"@, ColumnType::UInt64),
        ],
        Datatype::Erc20Balances => seq![
            ("block_number"@, ColumnType::UInt32),
            ("erc20"@, ColumnType::Binary),
            ("address"@, ColumnType::Binary),
            ("balance"@, ColumnType::UInt256),
            ("chain_id"@, ColumnType::UInt64),
        ],
        _ => seq![
            ("block_number"@, ColumnType::UInt32),
            ("transaction_index"@, ColumnType::UInt32),
            ("transaction_hash"@, ColumnType::Binary),
            ("address"@, ColumnType::Binary),
            ("from_value"@, diff_value_type(d)),
            ("to_value"@, diff_value_type(d)),
            ("chain_id"@, ColumnType::UInt64),
        ],
    }
}

/// The type of the from/to values of a diff dataset other than storage.
pub open spec fn diff_value_type(d: Datatype) -> ColumnType {
    if d == Datatype::CodeDiffs {
        ColumnType::Binary
    } else {
        ColumnType::UInt256
    }
}

/// The names of a list of (name, type) entries.
pub open spec fn entry_names(e: Seq<(Seq<char>, ColumnType)>) -> Seq<Seq<char>> {
    e.map_values(|x: (Seq<char>, ColumnType)| x.0)
}

/// The views of a list of strings.
pub open spec fn names_of(v: Seq<String>) -> Seq<Seq<char>> {
    v.map_values(|s: String| s@)
}

/// The view of a list of (name, type) entries.
pub open spec fn entries_of(v: Seq<(String, ColumnType)>) -> Seq<(Seq<char>, ColumnType)> {
    v.map_values(|x: (String, ColumnType)| (x.0@, x.1))
}

/// The catalog entries of a dataset's default columns: all of them for
/// ERC-20 balances, all but `chain_id`, the last, for the diff datasets.
pub open spec fn default_entries(d: Datatype) -> Seq<(Seq<char>, ColumnType)> {
    if d == Datatype::Erc20Balances {
        catalog(d)
    } else {
        catalog(d).drop_last()
    }
}

/// The default columns of a dataset.
pub open spec fn default_columns_of(d: Datatype) -> Seq<Seq<char>> {
    entry_names(default_entries(d))
}

/// The default sort keys of a dataset.
pub open spec fn default_sort_of(d: Datatype) -> Seq<Seq<char>> {
    if d == Datatype::Erc20Balances {
        seq!["block_number"@]
    } else {
        seq!["block_number"@, "transaction_index"@]
    }
}

fn entry(name: &str, t: ColumnType) -> (r: (String, ColumnType))
    ensures
        r.0@ == name@,
        r.1 == t,
{
    (String::from_str(name), t)
}

fn name_list(v: &Vec<(String, ColumnType)>) -> (r: Vec<String>)
    ensures
        names_of(r@) == entry_names(entries_of(v@)),
{
    let mut r: Vec<String> = Vec::new();
    let mut i: usize = 0;
    while i < v.len()
        invariant
            i <= v.len(),
            r@.len() == i,
            names_of(r@) == entry_names(entries_of(v@)).take(i as int),
        decreases v.len() - i,
    {
        let name = v[i].0.clone();
        assert(name@ == entries_of(v@)[i as int].0);
        r.push(name);
        i = i + 1;
        assert(names_of(r@) =~= entry_names(entries_of(v@)).take(i as int));
    }
    assert(entry_names(entries_of(v@)).take(i as int) =~= entry_names(entries_of(v@)));
    r
}

impl Datatype {
    /// The dataset's name.
    pub fn name(&self) -> (r: &'static str)
        ensures
            r@ == datatype_name(*self),
    {
        match *self {
            Datatype::BalanceDiffs => "balance_diffs",
            Datatype::CodeDiffs => "code_diffs",
            Datatype::NonceDiffs => "nonce_diffs",
            Datatype::StorageDiffs => "storage_diffs",
            Datatype::Erc20Balances => "erc20_balances",
        }
    }

    /// The full column catalog, in catalog order.
    pub fn column_types(&self) -> (r: Vec<(String, ColumnType)>)
        ensures
            entries_of(r@) == catalog(*self),
    {
        let mut v: Vec<(String, ColumnType)> = Vec::new();
        match *self {
            Datatype::StorageDiffs => {
                v.push(entry("block_number", ColumnType::UInt32));
                v.push(entry("transaction_index", ColumnType::UInt32));
                v.push(entry("transaction_hash", ColumnType::Binary));
                v.push(entry("address", ColumnType::Binary));
                v.push(entry("slot", ColumnType::Binary));
                v.push(entry("from_value", ColumnType::Binary));
                v.push(entry("to_value", ColumnType::Binary));
                v.push(entry("chain_id", ColumnType::UInt64));
            },
            Datatype::Erc20Balances => {
                v.push(entry("block_number", ColumnType::UInt32));
                v.push(entry("erc20", ColumnType::Binary));
                v.push(entry("address", ColumnType::Binary));
                v.push(entry("balance", ColumnType::UInt256));
                v.push(entry("chain_id", ColumnType::UInt64));
            },
            _ => {
                let t = if *self == Datatype::CodeDiffs {
                    ColumnType::Binary
                } else {
                    ColumnType::UInt256
                };
                v.push(entry("block_number", ColumnType::UInt32));
                v.push(entry("transaction_index", ColumnType::UInt32));
                v.push(entry("transaction_hash", ColumnType::Binary));
                v.push(entry("address", ColumnType::Binary));
                v.push(entry("from_value", t));
                v.push(entry("to_value", t));
                v.push(entry("chain_id", ColumnType::UInt64));
            },
        }
        assert(entries_of(v@) =~= catalog(*self));
        v
    }

    /// The columns materialised when the caller names none.
    pub fn default_columns(&self) -> (r: Vec<String>)
        ensures
            names_of(r@) == default_columns_of(*self),
    {
        let mut c = self.column_types();
        if *self != Datatype::Erc20Balances {
            c.pop();
            assert(entries_of(c@) =~= catalog(*self).drop_last());
        }
        name_list(&c)
    }

    /// The columns that a table of this dataset is sorted by.
    pub fn default_sort(&self) -> (r: Vec<String>)
        ensures
            names_of(r@) == default_sort_of(*self),
    {
        let mut v: Vec<String> = Vec::new();
        v.push(String::from_str("block_number"));
        if *self != Datatype::Erc20Balances {
            v.push(String::from_str("transaction_index"));
        }
        assert(names_of(v@) =~= default_sort_of(*self));
        v
    }
}

/// The name of a dataset.
pub open spec fn datatype_name(d: Datatype) -> Seq<char> {
    match d {
        Datatype::BalanceDiffs => "balance_diffs"@,
        Datatype::CodeDiffs => "code_diffs"@,
        Datatype::NonceDiffs => "nonce_diffs"@,
        Datatype::StorageDiffs => "storage_diffs"@,
        Datatype::Erc20Balances => "erc20_balances"@,
    }
}

/// Whether a wanted list is the single sentinel that asks for every column.
pub open spec fn is_all_sentinel(inc: Seq<Seq<char>>) -> bool {
    inc.len() == 1 && inc[0] == "all"@
}

/// Whether some name of `a` is also in `b`.
pub open spec fn overlaps(a: Seq<Seq<char>>, b: Seq<Seq<char>>) -> bool {
    exists|i: int| 0 <= i < a.len() && #[trigger] b.contains(a[i])
}

/// The names of `s` that are not in `exc`, in the order of `s`.
pub open spec fn without(s: Seq<Seq<char>>, exc: Seq<Seq<char>>) -> Seq<Seq<char>>
    decreases s.len(),
{
    if s.len() == 0 {
        s
    } else if exc.contains(s.last()) {
        without(s.drop_last(), exc)
    } else {
        without(s.drop_last(), exc).push(s.last())
    }
}

/// The column names selected by a wanted and an unwanted list.
pub open spec fn used_columns(
    d: Datatype,
    defaults: Seq<Seq<char>>,
    inc: Option<Seq<Seq<char>>>,
    exc: Option<Seq<Seq<char>>>,
) -> Result<Seq<Seq<char>>, SchemaError> {
    match inc {
        Some(i) => if is_all_sentinel(i) {
            Ok(entry_names(catalog(d)))
        } else {
            match exc {
                Some(e) => if overlaps(i, e) {
                    Err(SchemaError::ConflictingColumnSelection)
                } else {
                    Ok(i)
                },
                None => Ok(i),
            }
        },
        None => match exc {
            Some(e) => Ok(without(defaults, e)),
            None => Ok(defaults),
        },
    }
}

/// The type of the first catalog entry named `n`.
pub open spec fn lookup(c: Seq<(Seq<char>, ColumnType)>, n: Seq<char>) -> Option<ColumnType>
    decreases c.len(),
{
    if c.len() == 0 {
        None
    } else if c[0].0 == n {
        Some(c[0].1)
    } else {
        lookup(c.subrange(1, c.len() as int), n)
    }
}

/// A column type as the output encoding shows it.
pub open spec fn overlay(t: ColumnType, enc: ColumnEncoding) -> ColumnType {
    if enc == ColumnEncoding::Hex && t == ColumnType::Binary {
        ColumnType::Hex
    } else {
        t
    }
}

/// Whether no two entries share a name.
pub open spec fn distinct_names(m: Seq<(Seq<char>, ColumnType)>) -> bool {
    forall|i: int, j: int| 0 <= i < m.len() && 0 <= j < m.len() && i != j ==> m[i].0 != m[j].0
}

/// Ordered-map insertion: an entry with the name is updated in place, else one is appended.
pub open spec fn entries_insert(
    m: Seq<(Seq<char>, ColumnType)>,
    k: Seq<char>,
    v: ColumnType,
) -> Seq<(Seq<char>, ColumnType)> {
    if exists|i: int| 0 <= i < m.len() && m[i].0 == k {
        m.update(choose|i: int| 0 <= i < m.len() && m[i].0 == k, (k, v))
    } else {
        m.push((k, v))
    }
}

/// The schema built from a list of used names, or the first failure.
pub open spec fn schema_of(
    used: Seq<Seq<char>>,
    c: Seq<(Seq<char>, ColumnType)>,
    enc: ColumnEncoding,
) -> Result<Seq<(Seq<char>, ColumnType)>, SchemaError>
    decreases used.len(),
{
    if used.len() == 0 {
        Ok(Seq::empty())
    } else {
        match schema_of(used.drop_last(), c, enc) {
            Err(e) => Err(e),
            Ok(m) => match lookup(c, used.last()) {
                None => Err(SchemaError::UnknownColumn),
                Some(t) => Ok(entries_insert(m, used.last(), overlay(t, enc))),
            },
        }
    }
}

/// The schema that a dataset resolves to.
pub open spec fn resolve(
    d: Datatype,
    enc: ColumnEncoding,
    inc: Option<Seq<Seq<char>>>,
    exc: Option<Seq<Seq<char>>>,
) -> Result<Seq<(Seq<char>, ColumnType)>, SchemaError> {
    match used_columns(d, default_columns_of(d), inc, exc) {
        Err(e) => Err(e),
        Ok(u) => schema_of(u, catalog(d), enc),
    }
}

/// The views of an optional list of strings.
pub open spec fn opt_names(v: Option<Vec<String>>) -> Option<Seq<Seq<char>>> {
    match v {
        Some(x) => Some(names_of(x@)),
        None => None,
    }
}

/// The entries that an ordered map from column names to types holds, in order.
pub uninterp spec fn index_map_entries(m: IndexMap<String, ColumnType>) -> Seq<(Seq<char>, ColumnType)>;

#[verifier::external_type_specification]
#[verifier::external_body]
#[verifier::reject_recursive_types(K)]
#[verifier::reject_recursive_types(V)]
#[verifier::reject_recursive_types(S)]
pub struct ExIndexMap<K, V, S>(IndexMap<K, V, S>);

/// Relies on `IndexMap::new`: a new map holds no entries.
#[verifier::external_body]
fn index_map_new() -> (m: IndexMap<String, ColumnType>)
    ensures
        index_map_entries(m) == Seq::<(Seq<char>, ColumnType)>::empty(),
{
    IndexMap::new()
}

/// Relies on `IndexMap::insert`: an existing key keeps its place and takes the
/// new value; a new key goes last.
#[verifier::external_body]
fn index_map_insert(m: &mut IndexMap<String, ColumnType>, k: String, v: ColumnType)
    requires
        distinct_names(index_map_entries(*old(m))),
    ensures
        index_map_entries(*final(m)) == entries_insert(index_map_entries(*old(m)), k@, v),
{
    m.insert(k, v);
}

/// Relies on `IndexMap::len`: the number of entries.
#[verifier::external_body]
fn index_map_len(m: &IndexMap<String, ColumnType>) -> (r: usize)
    ensures
        r == index_map_entries(*m).len(),
{
    m.len()
}

/// Relies on `IndexMap::get_index`: the entry at a position of the order.
#[verifier::external_body]
fn index_map_get_index(m: &IndexMap<String, ColumnType>, i: usize) -> (r: Option<(&String, &ColumnType)>)
    ensures
        i < index_map_entries(*m).len() <==> r.is_some(),
        r matches Some((k, v)) ==> k@ == index_map_entries(*m)[i as int].0 && *v
            == index_map_entries(*m)[i as int].1,
{
    m.get_index(i)
}

/// An ordered mapping from column name to column type: the columns that a
/// dataset materialises, in output order.
pub struct Schema {
    datatype: Datatype,
    map: IndexMap<String, ColumnType>,
}

impl Schema {
    /// The entries in order.
    pub closed spec fn view(&self) -> Seq<(Seq<char>, ColumnType)> {
        index_map_entries(self.map)
    }

    /// No two columns share a name.
    pub open spec fn wf(&self) -> bool {
        &&& distinct_names(self.view())
        &&& names_in_catalog(self.view(), catalog(self.spec_datatype()))
    }

    /// The dataset the schema was resolved for.
    pub closed spec fn spec_datatype(&self) -> Datatype {
        self.datatype
    }

    /// The dataset the schema was resolved for.
    pub fn datatype(&self) -> (r: Datatype)
        ensures
            r == self.spec_datatype(),
    {
        self.datatype
    }

    /// The number of columns.
    pub fn len(&self) -> (r: usize)
        ensures
            r == self.view().len(),
    {
        index_map_len(&self.map)
    }

    /// The name and type of the column at a position.
    pub fn column(&self, i: usize) -> (r: (String, ColumnType))
        requires
            i < self.view().len(),
        ensures
            r.0@ == self.view()[i as int].0,
            r.1 == self.view()[i as int].1,
    {
        match index_map_get_index(&self.map, i) {
            Some((k, v)) => (k.clone(), *v),
            None => (String::new(), ColumnType::Binary),
        }
    }

    /// The columns in order.
    pub fn columns(&self) -> (r: Vec<(String, ColumnType)>)
        ensures
            entries_of(r@) == self.view(),
    {
        let n = self.len();
        let mut r: Vec<(String, ColumnType)> = Vec::new();
        let mut i: usize = 0;
        while i < n
            invariant
                n == self.view().len(),
                i <= n,
                r@.len() == i,
                entries_of(r@) == self.view().take(i as int),
            decreases n - i,
        {
            let e = self.column(i);
            r.push(e);
            i = i + 1;
            assert(entries_of(r@) =~= self.view().take(i as int));
        }
        assert(self.view().take(n as int) =~= self.view());
        r
    }

    /// The type of the column with a name, if the schema holds it.
    pub fn get(&self, name: &String) -> (r: Option<ColumnType>)
        ensures
            r == lookup(self.view(), name@),
    {
        let n = self.len();
        let mut i: usize = 0;
        assert(self.view().subrange(0, n as int) =~= self.view());
        while i < n
            invariant
                n == self.view().len(),
                i <= n,
                lookup(self.view(), name@) == lookup(self.view().subrange(i as int, n as int), name@),
            decreases n - i,
        {
            let e = self.column(i);
            assert(self.view().subrange(i as int, n as int).subrange(1, n - i) =~= self.view().subrange(
                i + 1,
                n as int,
            ));
            if e.0 == *name {
                return Some(e.1);
            }
            i = i + 1;
        }
        assert(self.view().subrange(n as int, n as int).len() == 0);
        None
    }

    /// Whether the schema holds a column of that name.
    pub fn contains_key(&self, name: &String) -> (r: bool)
        ensures
            r == lookup(self.view(), name@).is_some(),
    {
        self.get(name).is_some()
    }
}

fn contains_name(v: &Vec<String>, s: &String) -> (r: bool)
    ensures
        r == names_of(v@).contains(s@),
{
    let mut i: usize = 0;
    while i < v.len()
        invariant
            i <= v.len(),
            forall|k: int| 0 <= k < i ==> v@[k]@ != s@,
        decreases v.len() - i,
    {
        if v[i] == *s {
            assert(names_of(v@)[i as int] == s@);
            return true;
        }
        i = i + 1;
    }
    assert(!names_of(v@).contains(s@)) by {
        if names_of(v@).contains(s@) {
            let k = choose|k: int| 0 <= k < names_of(v@).len() && names_of(v@)[k] == s@;
            assert(v@[k]@ == s@);
        }
    }
    false
}

fn copy_names(v: &Vec<String>) -> (r: Vec<String>)
    ensures
        names_of(r@) == names_of(v@),
{
    let mut r: Vec<String> = Vec::new();
    let mut i: usize = 0;
    while i < v.len()
        invariant
            i <= v.len(),
            r@.len() == i,
            names_of(r@) == names_of(v@).take(i as int),
        decreases v.len() - i,
    {
        r.push(v[i].clone());
        i = i + 1;
        assert(names_of(r@) =~= names_of(v@).take(i as int));
    }
    assert(names_of(v@).take(i as int) =~= names_of(v@));
    r
}

fn without_names(s: &Vec<String>, exc: &Vec<String>) -> (r: Vec<String>)
    ensures
        names_of(r@) == without(names_of(s@), names_of(exc@)),
{
    let mut r: Vec<String> = Vec::new();
    let mut i: usize = 0;
    while i < s.len()
        invariant
            i <= s.len(),
            names_of(r@) == without(names_of(s@).take(i as int), names_of(exc@)),
        decreases s.len() - i,
    {
        let ghost pre = names_of(s@).take(i as int);
        assert(names_of(s@).take(i + 1).drop_last() =~= pre);
        if !contains_name(exc, &s[i]) {
            let ghost old_r = r@;
            r.push(s[i].clone());
            assert(names_of(r@) =~= names_of(old_r).push(s@[i as int]@));
        }
        i = i + 1;
    }
    assert(names_of(s@).take(i as int) =~= names_of(s@));
    r
}

fn has_overlap(a: &Vec<String>, b: &Vec<String>) -> (r: bool)
    ensures
        r == overlaps(names_of(a@), names_of(b@)),
{
    let mut i: usize = 0;
    while i < a.len()
        invariant
            i <= a.len(),
            forall|k: int| 0 <= k < i ==> !names_of(b@).contains(#[trigger] names_of(a@)[k]),
        decreases a.len() - i,
    {
        if contains_name(b, &a[i]) {
            assert(names_of(b@).contains(names_of(a@)[i as int]));
            return true;
        }
        i = i + 1;
    }
    false
}

/// Compute the names of the columns to materialise, in output order.
///
/// With the single name `all` as wanted list, every catalog column; with
/// wanted and unwanted lists, the wanted list if the two are disjoint; with an
/// wanted list alone, that list; with an unwanted list alone, the defaults
/// without the excluded names; with neither, the defaults.
pub fn compute_used_columns(
    default_columns: Vec<String>,
    include_columns: &Option<Vec<String>>,
    exclude_columns: &Option<Vec<String>>,
    datatype: &Datatype,
) -> (r: Result<Vec<String>, SchemaError>)
    ensures
        match r {
            Ok(v) => used_columns(
                *datatype,
                names_of(default_columns@),
                opt_names(*include_columns),
                opt_names(*exclude_columns),
            ) == Ok::<Seq<Seq<char>>, SchemaError>(names_of(v@)),
            Err(e) => used_columns(
                *datatype,
                names_of(default_columns@),
                opt_names(*include_columns),
                opt_names(*exclude_columns),
            ) == Err::<Seq<Seq<char>>, SchemaError>(e),
        },
{
    match include_columns {
        Some(wanted) => {
            let all = String::from_str("all");
            if wanted.len() == 1 && wanted[0] == all {
                assert(names_of(wanted@)[0] == wanted@[0]@);
                let c = datatype.column_types();
                return Ok(name_list(&c));
            }
            assert(!is_all_sentinel(names_of(wanted@))) by {
                if is_all_sentinel(names_of(wanted@)) {
                    assert(names_of(wanted@)[0] == wanted@[0]@);
                }
            }
            match exclude_columns {
                Some(unwanted) => {
                    if has_overlap(wanted, unwanted) {
                        Err(SchemaError::ConflictingColumnSelection)
                    } else {
                        Ok(copy_names(wanted))
                    }
                },
                None => Ok(copy_names(wanted)),
            }
        },
        None => match exclude_columns {
            Some(unwanted) => Ok(without_names(&default_columns, unwanted)),
            None => Ok(default_columns),
        },
    }
}

/// Whether the catalog `c` has a column of each name of `m`.
pub open spec fn names_in_catalog(m: Seq<(Seq<char>, ColumnType)>, c: Seq<(Seq<char>, ColumnType)>) -> bool {
    forall|j: int| 0 <= j < m.len() ==> lookup(c, #[trigger] m[j].0) is Some
}

/// Inserting into entries with distinct names keeps them distinct, and adds
/// no name but the inserted one.
pub proof fn lemma_insert_keeps_distinct(m: Seq<(Seq<char>, ColumnType)>, k: Seq<char>, v: ColumnType)
    requires
        distinct_names(m),
    ensures
        distinct_names(entries_insert(m, k, v)),
        forall|j: int| 0 <= j < entries_insert(m, k, v).len() ==> (#[trigger] entries_insert(m, k, v)[j]).0 == k
            || (j < m.len() && entries_insert(m, k, v)[j].0 == m[j].0),
{
    if exists|i: int| 0 <= i < m.len() && m[i].0 == k {
        let c = choose|i: int| 0 <= i < m.len() && m[i].0 == k;
        let r = m.update(c, (k, v));
        assert forall|i: int, j: int| 0 <= i < r.len() && 0 <= j < r.len() && i != j implies r[i].0
            != r[j].0 by {
            assert(r[i].0 == m[i].0);
            assert(r[j].0 == m[j].0);
        }
    } else {
        let r = m.push((k, v));
        assert forall|i: int, j: int| 0 <= i < r.len() && 0 <= j < r.len() && i != j implies r[i].0
            != r[j].0 by {
            if i < m.len() && j < m.len() {
                assert(r[i] == m[i] && r[j] == m[j]);
            }
        }
    }
}

/// Once a prefix of the used names fails, every longer prefix fails.
proof fn lemma_schema_failure_extends(
    used: Seq<Seq<char>>,
    k: int,
    c: Seq<(Seq<char>, ColumnType)>,
    enc: ColumnEncoding,
)
    requires
        0 <= k <= used.len(),
        schema_of(used.take(k), c, enc) is Err,
    ensures
        schema_of(used, c, enc) == schema_of(used.take(k), c, enc),
    decreases used.len() - k,
{
    if k < used.len() {
        assert(used.take(k + 1).drop_last() =~= used.take(k));
        lemma_schema_failure_extends(used, k + 1, c, enc);
    } else {
        assert(used.take(k) =~= used);
    }
}

fn catalog_type(c: &Vec<(String, ColumnType)>, n: &String) -> (r: Option<ColumnType>)
    ensures
        r == lookup(entries_of(c@), n@),
{
    let len = c.len();
    let ghost e = entries_of(c@);
    let mut i: usize = 0;
    assert(e.subrange(0, len as int) =~= e);
    while i < len
        invariant
            len == c.len(),
            e == entries_of(c@),
            i <= len,
            lookup(e, n@) == lookup(e.subrange(i as int, len as int), n@),
        decreases len - i,
    {
        assert(e.subrange(i as int, len as int).subrange(1, len - i) =~= e.subrange(i + 1, len as int));
        if c[i].0 == *n {
            return Some(c[i].1);
        }
        i = i + 1;
    }
    None
}

impl Datatype {
    /// Resolve the schema of this dataset from the output encoding and the
    /// optional lists of wanted and unwanted columns.
    pub fn get_schema(
        &self,
        binary_column_format: &ColumnEncoding,
        include_columns: &Option<Vec<String>>,
        exclude_columns: &Option<Vec<String>>,
    ) -> (r: Result<Schema, SchemaError>)
        ensures
            match r {
                Ok(s) => resolve(
                    *self,
                    *binary_column_format,
                    opt_names(*include_columns),
                    opt_names(*exclude_columns),
                ) == Ok::<Seq<(Seq<char>, ColumnType)>, SchemaError>(s.view()) && s.wf()
                    && s.spec_datatype() == *self,
                Err(e) => resolve(
                    *self,
                    *binary_column_format,
                    opt_names(*include_columns),
                    opt_names(*exclude_columns),
                ) == Err::<Seq<(Seq<char>, ColumnType)>, SchemaError>(e),
            },
    {
        let column_types = self.column_types();
        let default_columns = self.default_columns();
        let used = match compute_used_columns(default_columns, include_columns, exclude_columns, self) {
            Ok(u) => u,
            Err(e) => {
                return Err(e);
            },
        };
        let ghost names = names_of(used@);
        assert(resolve(*self, *binary_column_format, opt_names(*include_columns), opt_names(*exclude_columns))
            == schema_of(names, catalog(*self), *binary_column_format));
        let mut map = index_map_new();
        let mut i: usize = 0;
        assert(names.take(0) =~= Seq::<Seq<char>>::empty());
        while i < used.len()
            invariant
                names == names_of(used@),
                resolve(*self, *binary_column_format, opt_names(*include_columns), opt_names(*exclude_columns))
                    == schema_of(names, catalog(*self), *binary_column_format),
                i <= used.len(),
                entries_of(column_types@) == catalog(*self),
                schema_of(names.take(i as int), catalog(*self), *binary_column_format) == Ok::<
                    Seq<(Seq<char>, ColumnType)>,
                    SchemaError,
                >(index_map_entries(map)),
                distinct_names(index_map_entries(map)),
                names_in_catalog(index_map_entries(map), catalog(*self)),
            decreases used.len() - i,
        {
            assert(names.take(i + 1).drop_last() =~= names.take(i as int));
            assert(names.take(i + 1).last() == used@[i as int]@);
            match catalog_type(&column_types, &used[i]) {
                None => {
                    assert(schema_of(names.take(i + 1), catalog(*self), *binary_column_format)
                        == Err::<Seq<(Seq<char>, ColumnType)>, SchemaError>(SchemaError::UnknownColumn));
                    proof {
                        lemma_schema_failure_extends(names, i + 1, catalog(*self), *binary_column_format);
                    }
                    return Err(SchemaError::UnknownColumn);
                },
                Some(t) => {
                    let shown = if *binary_column_format == ColumnEncoding::Hex && t == ColumnType::Binary {
                        ColumnType::Hex
                    } else {
                        t
                    };
                    proof {
                        lemma_insert_keeps_distinct(index_map_entries(map), used@[i as int]@, shown);
                    }
                    let ghost m0 = index_map_entries(map);
                    index_map_insert(&mut map, used[i].clone(), shown);
                    assert(names_in_catalog(index_map_entries(map), catalog(*self))) by {
                        assert forall|j: int| 0 <= j < index_map_entries(map).len() implies lookup(
                            catalog(*self),
                            #[trigger] index_map_entries(map)[j].0,
                        ) is Some by {
                            if index_map_entries(map)[j].0 != used@[i as int]@ {
                                assert(lookup(catalog(*self), m0[j].0) is Some);
                            }
                        }
                    }
                },
            }
            i = i + 1;
        }
        assert(names.take(i as int) =~= names);
        Ok(Schema { datatype: *self, map })
    }
}

/// Catalog entries with each type as the output encoding shows it.
pub open spec fn overlay_all(c: Seq<(Seq<char>, ColumnType)>, enc: ColumnEncoding) -> Seq<
    (Seq<char>, ColumnType),
> {
    c.map_values(|e: (Seq<char>, ColumnType)| (e.0, overlay(e.1, enc)))
}

/// No two catalog columns of a dataset share a name.
pub proof fn lemma_catalog_distinct(d: Datatype)
    ensures
        distinct_names(catalog(d)),
{
    reveal_strlit("block_number");
    reveal_strlit("transaction_index");
    reveal_strlit("transaction_hash");
    reveal_strlit("address");
    reveal_strlit("slot");
    reveal_strlit("from_value");
    reveal_strlit("to_value");
    reveal_strlit("erc20");
    reveal_strlit("balance");
    reveal_strlit("chain_id");
    let c = catalog(d);
    assert forall|i: int, j: int| 0 <= i < c.len() && 0 <= j < c.len() && i != j implies c[i].0
        != c[j].0 by {
        if c[i].0.len() == c[j].0.len() {
            assert(c[i].0[0] != c[j].0[0] || c[i].0[1] != c[j].0[1] || c[i].0[c[i].0.len() - 1] != c[j].0[c[j].0.len() - 1]);
        }
    }
}

proof fn lemma_lookup_distinct(c: Seq<(Seq<char>, ColumnType)>, k: int)
    requires
        distinct_names(c),
        0 <= k < c.len(),
    ensures
        lookup(c, c[k].0) == Some(c[k].1),
    decreases c.len(),
{
    if k > 0 {
        let t = c.subrange(1, c.len() as int);
        assert(c[0].0 != c[k].0);
        assert(t[k - 1] == c[k]);
        lemma_lookup_distinct(t, k - 1);
    }
}

/// Resolving the names of distinct entries that the catalog holds gives
/// those entries, overlaid, in their order.
proof fn lemma_schema_of_entries(
    c: Seq<(Seq<char>, ColumnType)>,
    e: Seq<(Seq<char>, ColumnType)>,
    enc: ColumnEncoding,
)
    requires
        distinct_names(e),
        forall|k: int| 0 <= k < e.len() ==> lookup(c, #[trigger] e[k].0) == Some(e[k].1),
    ensures
        schema_of(entry_names(e), c, enc) == Ok::<Seq<(Seq<char>, ColumnType)>, SchemaError>(
            overlay_all(e, enc),
        ),
    decreases e.len(),
{
    if e.len() > 0 {
        let p = e.drop_last();
        assert(entry_names(e).drop_last() =~= entry_names(p));
        assert forall|k: int| 0 <= k < p.len() implies lookup(c, #[trigger] p[k].0) == Some(p[k].1) by {
            assert(p[k] == e[k]);
        }
        lemma_schema_of_entries(c, p, enc);
        let m = overlay_all(p, enc);
        let last = e.last();
        assert(lookup(c, last.0) == Some(last.1));
        assert(!(exists|i: int| 0 <= i < m.len() && m[i].0 == last.0)) by {
            if exists|i: int| 0 <= i < m.len() && m[i].0 == last.0 {
                let i = choose|i: int| 0 <= i < m.len() && m[i].0 == last.0;
                assert(e[i].0 == e[e.len() - 1].0);
            }
        }
        assert(overlay_all(e, enc) =~= m.push((last.0, overlay(last.1, enc))));
        assert(entry_names(e).last() == last.0);
        assert(entries_insert(m, last.0, overlay(last.1, enc)) == m.push((last.0, overlay(last.1, enc))));
    } else {
        assert(overlay_all(e, enc) =~= Seq::<(Seq<char>, ColumnType)>::empty());
        assert(entry_names(e).len() == 0);
    }
}

/// Asking for the single name `all` resolves to every catalog column, in
/// catalog order, whatever else is excluded.
pub proof fn lemma_resolve_all(d: Datatype, enc: ColumnEncoding, exc: Option<Seq<Seq<char>>>)
    ensures
        resolve(d, enc, Some(seq!["all"@]), exc) == Ok::<Seq<(Seq<char>, ColumnType)>, SchemaError>(
            overlay_all(catalog(d), enc),
        ),
{
    lemma_catalog_distinct(d);
    let c = catalog(d);
    assert forall|k: int| 0 <= k < c.len() implies lookup(c, #[trigger] c[k].0) == Some(c[k].1) by {
        lemma_lookup_distinct(c, k);
    }
    lemma_schema_of_entries(c, c, enc);
}

proof fn lemma_without_absent(s: Seq<Seq<char>>, x: Seq<char>)
    requires
        !s.contains(x),
    ensures
        without(s, seq![x]) == s,
    decreases s.len(),
{
    if s.len() > 0 {
        assert(!s.drop_last().contains(x)) by {
            if s.drop_last().contains(x) {
                let i = choose|i: int| 0 <= i < s.drop_last().len() && s.drop_last()[i] == x;
                assert(s[i] == x);
            }
        }
        lemma_without_absent(s.drop_last(), x);
        assert(s.last() != x);
        assert(!seq![x].contains(s.last())) by {
            if seq![x].contains(s.last()) {
                let i = choose|i: int| 0 <= i < 1 && seq![x][i] == s.last();
            }
        }
        assert(s.drop_last().push(s.last()) =~= s);
    }
}

/// Excluding a name that is not a default column changes nothing.
pub proof fn lemma_resolve_exclude_absent(d: Datatype, enc: ColumnEncoding, x: Seq<char>)
    requires
        !default_columns_of(d).contains(x),
    ensures
        resolve(d, enc, None, Some(seq![x])) == resolve(d, enc, None, None),
{
    lemma_without_absent(default_columns_of(d), x);
}

/// The catalog entries whose names are not `x`, in catalog order.
pub open spec fn entries_without(c: Seq<(Seq<char>, ColumnType)>, x: Seq<char>) -> Seq<(Seq<char>, ColumnType)>
    decreases c.len(),
{
    if c.len() == 0 {
        c
    } else if c.last().0 == x {
        entries_without(c.drop_last(), x)
    } else {
        entries_without(c.drop_last(), x).push(c.last())
    }
}

proof fn lemma_entries_without(c: Seq<(Seq<char>, ColumnType)>, x: Seq<char>)
    ensures
        entry_names(entries_without(c, x)) == without(entry_names(c), seq![x]),
        forall|k: int| 0 <= k < entries_without(c, x).len() ==> exists|i: int| 0 <= i < c.len() && c[i] == #[trigger] entries_without(c, x)[k],
        forall|k: int| 0 <= k < entries_without(c, x).len() ==> (#[trigger] entries_without(c, x)[k]).0 != x,
        distinct_names(c) ==> distinct_names(entries_without(c, x)),
    decreases c.len(),
{
    if c.len() > 0 {
        let p = c.drop_last();
        lemma_entries_without(p, x);
        assert(entry_names(c).drop_last() =~= entry_names(p));
        assert(entry_names(c).last() == c.last().0);
        assert(seq![x].contains(c.last().0) <==> c.last().0 == x) by {
            if seq![x].contains(c.last().0) {
                let i = choose|i: int| 0 <= i < 1 && seq![x][i] == c.last().0;
            }
            if c.last().0 == x {
                assert(seq![x][0] == x);
            }
        }
        let w = entries_without(p, x);
        if c.last().0 != x {
            assert(entry_names(w.push(c.last())) =~= entry_names(w).push(c.last().0));
            assert forall|k: int| 0 <= k < w.push(c.last()).len() implies exists|i: int| 0 <= i < c.len() && c[i] == #[trigger] w.push(c.last())[k] by {
                if k < w.len() {
                    let i = choose|i: int| 0 <= i < p.len() && p[i] == w[k];
                    assert(c[i] == p[i]);
                } else {
                    assert(c[c.len() - 1] == w.push(c.last())[k]);
                }
            }
            if distinct_names(c) {
                assert(distinct_names(p));
                let r = w.push(c.last());
                assert forall|i: int, j: int| 0 <= i < r.len() && 0 <= j < r.len() && i != j implies r[i].0 != r[j].0 by {
                    if i < w.len() && j == w.len() {
                        let a = choose|a: int| 0 <= a < p.len() && p[a] == w[i];
                        assert(c[a] == p[a]);
                    } else if j < w.len() && i == w.len() {
                        let a = choose|a: int| 0 <= a < p.len() && p[a] == w[j];
                        assert(c[a] == p[a]);
                    } else if i < w.len() && j < w.len() {
                        assert(r[i] == w[i] && r[j] == w[j]);
                    }
                }
            }
        } else {
            assert forall|k: int| 0 <= k < w.len() implies exists|i: int| 0 <= i < c.len() && c[i] == #[trigger] w[k] by {
                let i = choose|i: int| 0 <= i < p.len() && p[i] == w[k];
                assert(c[i] == p[i]);
            }
            if distinct_names(c) {
                assert(distinct_names(p));
            }
        }
    }
}

/// Excluding a default column gives every default column but that one, in
/// default order.
pub proof fn lemma_resolve_exclude_present(d: Datatype, enc: ColumnEncoding, x: Seq<char>)
    requires
        default_columns_of(d).contains(x),
    ensures
        resolve(d, enc, None, Some(seq![x])) == Ok::<Seq<(Seq<char>, ColumnType)>, SchemaError>(
            overlay_all(entries_without(default_entries(d), x), enc),
        ),
        forall|k: int| 0 <= k < entries_without(default_entries(d), x).len() ==> (#[trigger] entries_without(default_entries(d), x)[k]).0 != x,
{
    let c = catalog(d);
    let dflt = default_entries(d);
    lemma_default_entries(d);
    lemma_entries_without(dflt, x);
    let e = entries_without(dflt, x);
    assert forall|k: int| 0 <= k < e.len() implies lookup(c, #[trigger] e[k].0) == Some(e[k].1) by {
        let i = choose|i: int| 0 <= i < dflt.len() && dflt[i] == e[k];
        assert(lookup(c, dflt[i].0) == Some(dflt[i].1));
    }
    lemma_schema_of_entries(c, e, enc);
}

/// Overlapping wanted and unwanted lists fail, unless the wanted list is the
/// single name `all`.
pub proof fn lemma_resolve_conflict(
    d: Datatype,
    enc: ColumnEncoding,
    inc: Seq<Seq<char>>,
    exc: Seq<Seq<char>>,
)
    requires
        overlaps(inc, exc),
        !is_all_sentinel(inc),
    ensures
        resolve(d, enc, Some(inc), Some(exc)) == Err::<Seq<(Seq<char>, ColumnType)>, SchemaError>(
            SchemaError::ConflictingColumnSelection,
        ),
{
}

/// With neither list, a dataset resolves to its default columns, in catalog
/// order.
pub proof fn lemma_resolve_defaults(d: Datatype, enc: ColumnEncoding)
    ensures
        resolve(d, enc, None, None) == Ok::<Seq<(Seq<char>, ColumnType)>, SchemaError>(
            overlay_all(default_entries(d), enc),
        ),
{
    lemma_default_entries(d);
    lemma_schema_of_entries(catalog(d), default_entries(d), enc);
}

/// The default entries are distinct, and each is what the catalog gives for its name.
proof fn lemma_default_entries(d: Datatype)
    ensures
        distinct_names(default_entries(d)),
        forall|k: int| 0 <= k < default_entries(d).len() ==> lookup(catalog(d), #[trigger] default_entries(d)[k].0)
            == Some(default_entries(d)[k].1),
{
    lemma_catalog_distinct(d);
    let c = catalog(d);
    let e = default_entries(d);
    assert forall|k: int| 0 <= k < e.len() implies lookup(c, #[trigger] e[k].0) == Some(e[k].1) by {
        assert(e[k] == c[k]);
        lemma_lookup_distinct(c, k);
    }
    assert forall|i: int, j: int| 0 <= i < e.len() && 0 <= j < e.len() && i != j implies e[i].0 != e[j].0 by {
        assert(e[i] == c[i] && e[j] == c[j]);
    }
}

} // verus!
