//! Column accumulators and the tables assembled from them.
use crate::collect::CollectError;
use crate::order::{
    cell_less, is_permutation, key_lt, lemma_insert_step, sorted_by, stable_by, uniform_keys,
};
use crate::schema::{catalog, entries_of, ColumnType, Datatype, Schema, SchemaError};
use vstd::prelude::*;

verus! {

/// The value of one cell.
#[derive(Debug, Clone, PartialEq, Eq)]
pub enum Value {
    /// an unsigned integer
    UInt(u64),
    /// a byte string; 256-bit integers are 32 big-endian bytes
    Bytes(Vec<u8>),
    /// no value
    Null,
}

/// What a cell holds, as a mathematical value.
pub enum Cell {
    /// an unsigned integer
    UInt(u64),
    /// a byte string
    Bytes(Seq<u8>),
    /// no value
    Null,
}

impl View for Value {
    type V = Cell;

    open spec fn view(&self) -> Cell {
        match self {
            Value::UInt(n) => Cell::UInt(*n),
            Value::Bytes(b) => Cell::Bytes(b@),
            Value::Null => Cell::Null,
        }
    }
}

/// The cells of a list of values.
pub open spec fn cells_of(v: Seq<Value>) -> Seq<Cell> {
    v.map_values(|x: Value| x@)
}

/// A copy of a byte string.
pub fn copy_bytes(b: &Vec<u8>) -> (r: Vec<u8>)
    ensures
        r@ == b@,
{
    let r = b.clone();
    assert(r@ =~= b@);
    r
}

/// A copy of a value.
pub fn copy_value(v: &Value) -> (r: Value)
    ensures
        r@ == v@,
{
    match v {
        Value::UInt(n) => Value::UInt(*n),
        Value::Bytes(b) => Value::Bytes(copy_bytes(b)),
        Value::Null => Value::Null,
    }
}

/// The number of columns in a dataset's catalog: the width of its full rows.
pub open spec fn row_width(d: Datatype) -> nat {
    catalog(d).len()
}

/// The position of the first catalog entry named `n`.
pub open spec fn catalog_position(c: Seq<(Seq<char>, ColumnType)>, n: Seq<char>) -> Option<nat>
    decreases c.len(),
{
    if c.len() == 0 {
        None
    } else if c[0].0 == n {
        Some(0)
    } else {
        match catalog_position(c.subrange(1, c.len() as int), n) {
            Some(p) => Some(p + 1),
            None => None,
        }
    }
}

fn find_position(c: &Vec<(String, ColumnType)>, n: &String) -> (r: Option<usize>)
    ensures
        r matches Some(p) ==> catalog_position(entries_of(c@), n@) == Some(p as nat),
        r is None ==> catalog_position(entries_of(c@), n@) is None,
{
    let len = c.len();
    let ghost e = entries_of(c@);
    let mut i: usize = 0;
    assert(e.subrange(0, len as int) =~= e);
    while i < len
        invariant
            len == c.len(),
            e == entries_of(c@),
            i <= len,
            match catalog_position(e.subrange(i as int, len as int), n@) {
                Some(p) => catalog_position(e, n@) == Some((p + i) as nat),
                None => catalog_position(e, n@) is None,
            },
        decreases len - i,
    {
        assert(e.subrange(i as int, len as int).subrange(1, len - i) =~= e.subrange(i + 1, len as int));
        if c[i].0 == *n {
            return Some(i);
        }
        i = i + 1;
    }
    None
}

/// Where a found catalog position points.
pub(crate) proof fn lemma_catalog_position(c: Seq<(Seq<char>, ColumnType)>, n: Seq<char>)
    requires
        catalog_position(c, n) is Some,
    ensures
        catalog_position(c, n).unwrap() < c.len(),
        c[catalog_position(c, n).unwrap() as int].0 == n,
    decreases c.len(),
{
    if c[0].0 != n {
        let t = c.subrange(1, c.len() as int);
        lemma_catalog_position(t, n);
    }
}

/// The growing columns of one dataset.
///
/// Each appended row is a full row over the dataset's catalog; only the
/// columns that the schema activates keep their cell of it.
pub struct Accumulator {
    datatype: Datatype,
    names: Vec<String>,
    types: Vec<ColumnType>,
    fields: Vec<usize>,
    columns: Vec<Vec<Value>>,
    n_rows: usize,
    rows: Ghost<Seq<Seq<Cell>>>,
}

impl Accumulator {
    /// The full rows appended so far, in order.
    pub closed spec fn view(&self) -> Seq<Seq<Cell>> {
        self.rows@
    }

    /// The dataset whose rows are accumulated.
    pub closed spec fn spec_datatype(&self) -> Datatype {
        self.datatype
    }

    /// The active columns, in output order.
    pub closed spec fn active(&self) -> Seq<(Seq<char>, ColumnType)> {
        Seq::new(self.names@.len(), |j: int| (self.names@[j]@, self.types@[j]))
    }

    /// The cells kept so far in the active column at position `j`.
    pub closed spec fn column_cells(&self, j: int) -> Seq<Cell> {
        cells_of(self.columns@[j]@)
    }

    /// The catalog position of the active column at position `j`.
    pub closed spec fn field(&self, j: int) -> int {
        self.fields@[j] as int
    }

    /// Every active column holds, row by row, the cell of its catalog field.
    pub closed spec fn wf(&self) -> bool {
        &&& self.n_rows as nat == capped_count(self.rows@.len())
        &&& self.types@.len() == self.names@.len()
        &&& self.fields@.len() == self.names@.len()
        &&& self.columns@.len() == self.names@.len()
        &&& forall|j: int| 0 <= j < self.names@.len() ==> {
            &&& #[trigger] self.fields@[j] < row_width(self.datatype)
            &&& catalog(self.datatype)[self.fields@[j] as int].0 == self.names@[j]@
            &&& catalog_position(catalog(self.datatype), self.names@[j]@) == Some(self.fields@[j] as nat)
            &&& self.columns@[j].len() == self.rows@.len()
        }
        &&& forall|k: int| 0 <= k < self.rows@.len() ==> #[trigger] self.rows@[k].len() == row_width(
            self.datatype,
        )
        &&& forall|j: int, k: int|
            0 <= j < self.names@.len() && 0 <= k < self.rows@.len() ==> #[trigger] self.columns@[j]@[k]@
                == self.rows@[k][self.fields@[j] as int]
    }

    /// The laws of the accumulator's view, for callers outside this module.
    pub proof fn lemma_wf(&self)
        requires
            self.wf(),
        ensures
            forall|j: int| 0 <= j < self.active().len() ==> {
                &&& 0 <= #[trigger] self.field(j) < row_width(self.spec_datatype())
                &&& catalog(self.spec_datatype())[self.field(j)].0 == self.active()[j].0
                &&& catalog_position(catalog(self.spec_datatype()), self.active()[j].0) == Some(
                    self.field(j) as nat,
                )
                &&& self.column_cells(j).len() == self@.len()
            },
            forall|j: int, k: int|
                0 <= j < self.active().len() && 0 <= k < self@.len() ==> #[trigger] self.column_cells(
                    j,
                )[k] == self@[k][self.field(j)],
            forall|k: int| 0 <= k < self@.len() ==> #[trigger] self@[k].len() == row_width(
                self.spec_datatype(),
            ),
    {
        assert forall|j: int, k: int|
            0 <= j < self.active().len() && 0 <= k < self@.len() implies #[trigger] self.column_cells(
            j,
        )[k] == self@[k][self.field(j)] by {
            assert(self.columns@[j]@[k]@ == self.rows@[k][self.fields@[j] as int]);
        }
    }

    /// Empty accumulators for the columns that `schema` activates.
    ///
    /// Fails with `UnknownColumn` when the schema names a column that is not
    /// in the dataset's catalog.
    pub fn new(datatype: Datatype, schema: &Schema) -> (r: Result<Accumulator, SchemaError>)
        ensures
            match r {
                Ok(a) => {
                    &&& a.wf()
                    &&& a@ == Seq::<Seq<Cell>>::empty()
                    &&& a.spec_datatype() == datatype
                    &&& a.active() == schema.view()
                    &&& forall|j: int| 0 <= j < schema.view().len() ==> catalog_position(
                        catalog(datatype),
                        #[trigger] schema.view()[j].0,
                    ) is Some
                },
                Err(e) => {
                    &&& e == SchemaError::UnknownColumn
                    &&& exists|j: int|
                        0 <= j < schema.view().len() && catalog_position(
                            catalog(datatype),
                            #[trigger] schema.view()[j].0,
                        ) is None
                },
            },
    {
        let c = datatype.column_types();
        let n = schema.len();
        let mut names: Vec<String> = Vec::new();
        let mut types: Vec<ColumnType> = Vec::new();
        let mut fields: Vec<usize> = Vec::new();
        let mut columns: Vec<Vec<Value>> = Vec::new();
        let mut j: usize = 0;
        while j < n
            invariant
                n == schema.view().len(),
                entries_of(c@) == catalog(datatype),
                j <= n,
                names@.len() == j,
                types@.len() == j,
                fields@.len() == j,
                columns@.len() == j,
                forall|i: int| 0 <= i < j ==> {
                    &&& (#[trigger] names@[i])@ == schema.view()[i].0
                    &&& types@[i] == schema.view()[i].1
                    &&& fields@[i] < row_width(datatype)
                    &&& catalog(datatype)[fields@[i] as int].0 == names@[i]@
                    &&& catalog_position(catalog(datatype), names@[i]@) == Some(fields@[i] as nat)
                    &&& columns@[i].len() == 0
                    &&& catalog_position(catalog(datatype), schema.view()[i].0) is Some
                },
            decreases n - j,
        {
            let (name, t) = schema.column(j);
            match find_position(&c, &name) {
                None => {
                    return Err(SchemaError::UnknownColumn);
                },
                Some(p) => {
                    proof {
                        lemma_catalog_position(catalog(datatype), name@);
                    }
                    names.push(name);
                    types.push(t);
                    fields.push(p);
                    columns.push(Vec::new());
                },
            }
            j = j + 1;
        }
        let a = Accumulator { datatype, names, types, fields, columns, n_rows: 0, rows: Ghost(Seq::empty()) };
        assert(a.active() =~= schema.view());
        assert forall|i: int| 0 <= i < n implies {
            &&& #[trigger] a.fields@[i] < row_width(datatype)
            &&& catalog(datatype)[a.fields@[i] as int].0 == a.names@[i]@
            &&& catalog_position(catalog(datatype), a.names@[i]@) == Some(a.fields@[i] as nat)
            &&& a.columns@[i].len() == a.rows@.len()
        } by {
            assert(a.names@[i]@ == schema.view()[i].0);
        }
        assert forall|i: int| 0 <= i < n implies catalog_position(
            catalog(datatype),
            #[trigger] schema.view()[i].0,
        ) is Some by {
            assert(a.names@[i]@ == schema.view()[i].0);
        }
        Ok(a)
    }

    /// Append one full row: every active column takes its cell of it.
    pub fn push_row(&mut self, row: &Vec<Value>)
        requires
            old(self).wf(),
            row@.len() == row_width(old(self).spec_datatype()),
        ensures
            final(self).wf(),
            final(self)@ == old(self)@.push(cells_of(row@)),
            final(self).spec_datatype() == old(self).spec_datatype(),
            final(self).active() == old(self).active(),
    {
        let ghost old_rows = self.rows@;
        let ghost new_row = cells_of(row@);
        let n = self.names.len();
        let mut j: usize = 0;
        assert forall|i: int| 0 <= i < n implies (#[trigger] self.columns@[i]).len() == old_rows.len() by {
            assert(self.fields@[i] < row_width(self.datatype));
        }
        while j < n
            invariant
                n == self.names@.len(),
                j <= n,
                self.types@.len() == n,
                self.fields@.len() == n,
                self.columns@.len() == n,
                self.rows@ == old_rows,
                self.n_rows == old(self).n_rows,
                self.n_rows as nat == capped_count(old_rows.len()),
                self.datatype == old(self).datatype,
                self.names == old(self).names,
                self.types == old(self).types,
                self.fields == old(self).fields,
                row@.len() == row_width(self.datatype),
                new_row == cells_of(row@),
                forall|k: int| 0 <= k < old_rows.len() ==> #[trigger] old_rows[k].len() == row_width(
                    self.datatype,
                ),
                forall|i: int| 0 <= i < n ==> {
                    &&& #[trigger] self.fields@[i] < row_width(self.datatype)
                    &&& catalog(self.datatype)[self.fields@[i] as int].0 == self.names@[i]@
                    &&& catalog_position(catalog(self.datatype), self.names@[i]@) == Some(self.fields@[i] as nat)
                },
                forall|i: int| 0 <= i < n ==> (#[trigger] self.columns@[i]).len() == if i < j {
                    old_rows.len() + 1 as int
                } else {
                    old_rows.len() as int
                },
                forall|i: int, k: int|
                    0 <= i < n && 0 <= k < old_rows.len() ==> #[trigger] self.columns@[i]@[k]@
                        == old_rows[k][self.fields@[i] as int],
                forall|i: int| 0 <= i < j ==> #[trigger] self.columns@[i]@[old_rows.len() as int]@
                    == new_row[self.fields@[i] as int],
            decreases n - j,
        {
            let f = self.fields[j];
            let v = copy_value(&row[f]);
            self.columns[j].push(v);
            j = j + 1;
        }
        self.rows = Ghost(old_rows.push(new_row));
        if self.n_rows < usize::MAX {
            self.n_rows = self.n_rows + 1;
        }
        assert forall|j: int, k: int|
            0 <= j < self.names@.len() && 0 <= k < self.rows@.len() implies #[trigger] self.columns@[j]@[k]@
            == self.rows@[k][self.fields@[j] as int] by {
            if k < old_rows.len() {
                assert(self.rows@[k] == old_rows[k]);
            }
        }
    }
}

/// A finished table: named, typed columns of one row count.
pub struct Table {
    datatype: Datatype,
    names: Vec<String>,
    types: Vec<ColumnType>,
    columns: Vec<Vec<Value>>,
    n_rows: usize,
}

/// A row count as a `usize` holds it: saturated at its largest value.
pub open spec fn capped_count(n: nat) -> nat {
    if n <= usize::MAX {
        n
    } else {
        usize::MAX as nat
    }
}

impl Table {
    /// The dataset the table belongs to.
    pub closed spec fn spec_datatype(&self) -> Datatype {
        self.datatype
    }

    /// The columns' names and types, in order.
    pub closed spec fn schema(&self) -> Seq<(Seq<char>, ColumnType)> {
        Seq::new(self.names@.len(), |j: int| (self.names@[j]@, self.types@[j]))
    }

    /// The cells of the column at position `j`.
    pub closed spec fn cells(&self, j: int) -> Seq<Cell> {
        cells_of(self.columns@[j]@)
    }

    /// The number of rows.
    pub closed spec fn spec_n_rows(&self) -> nat {
        self.n_rows as nat
    }

    /// Every column has the table's row count.
    pub closed spec fn wf(&self) -> bool {
        &&& self.types@.len() == self.names@.len()
        &&& self.columns@.len() == self.names@.len()
        &&& forall|j: int| 0 <= j < self.columns@.len() ==> (#[trigger] self.columns@[j])@.len()
            == self.spec_n_rows()
    }

    /// The key of row `r` over the columns at positions `kpos`.
    pub open spec fn row_key(&self, kpos: Seq<int>, r: int) -> Seq<Cell> {
        Seq::new(kpos.len(), |u: int| self.cells(kpos[u])[r])
    }

    /// The keys of all rows over the columns at positions `kpos`.
    pub open spec fn row_keys(&self, kpos: Seq<int>) -> Seq<Seq<Cell>> {
        Seq::new(self.spec_n_rows(), |r: int| self.row_key(kpos, r))
    }

    /// Whether every name of `keys` is a column of the table.
    pub open spec fn has_columns(&self, keys: Seq<Seq<char>>) -> bool {
        forall|u: int| 0 <= u < keys.len() ==> catalog_position(self.schema(), #[trigger] keys[u]) is Some
    }

    /// The positions of the columns that `keys` names.
    pub open spec fn key_positions(&self, keys: Seq<Seq<char>>) -> Seq<int> {
        Seq::new(keys.len(), |u: int| catalog_position(self.schema(), keys[u]).unwrap() as int)
    }

    /// Every column has the table's row count; a table with columns has the
    /// row count of each of them.
    pub proof fn lemma_row_alignment(&self)
        requires
            self.wf(),
        ensures
            forall|j: int| 0 <= j < self.schema().len() ==> (#[trigger] self.cells(j)).len()
                == self.spec_n_rows(),
    {
        assert forall|j: int| 0 <= j < self.schema().len() implies (#[trigger] self.cells(j)).len()
            == self.spec_n_rows() by {
            assert(self.columns@[j]@.len() == self.spec_n_rows());
        }
    }

    /// The number of rows.
    pub fn n_rows(&self) -> (r: usize)
        ensures
            r == self.spec_n_rows(),
    {
        self.n_rows
    }

    /// The number of columns.
    pub fn n_columns(&self) -> (r: usize)
        requires
            self.wf(),
        ensures
            r == self.schema().len(),
    {
        self.names.len()
    }

    /// The types of the columns, in order.
    pub fn column_types(&self) -> (r: Vec<ColumnType>)
        requires
            self.wf(),
        ensures
            r@.len() == self.schema().len(),
            forall|j: int| 0 <= j < r@.len() ==> #[trigger] r@[j] == self.schema()[j].1,
    {
        let mut r: Vec<ColumnType> = Vec::new();
        let mut j: usize = 0;
        while j < self.types.len()
            invariant
                self.wf(),
                j <= self.types@.len(),
                r@.len() == j,
                forall|i: int| 0 <= i < j ==> #[trigger] r@[i] == self.types@[i],
            decreases self.types@.len() - j,
        {
            r.push(self.types[j]);
            j = j + 1;
        }
        r
    }

    /// The dataset the table belongs to.
    pub fn datatype(&self) -> (r: Datatype)
        ensures
            r == self.spec_datatype(),
    {
        self.datatype
    }

    /// The names of the columns, in order.
    pub fn column_names(&self) -> (r: Vec<String>)
        requires
            self.wf(),
        ensures
            r@.len() == self.schema().len(),
            forall|j: int| 0 <= j < r@.len() ==> (#[trigger] r@[j])@ == self.schema()[j].0,
    {
        let mut r: Vec<String> = Vec::new();
        let mut j: usize = 0;
        while j < self.names.len()
            invariant
                j <= self.names@.len(),
                r@.len() == j,
                forall|i: int| 0 <= i < j ==> (#[trigger] r@[i])@ == self.names@[i]@,
            decreases self.names@.len() - j,
        {
            r.push(self.names[j].clone());
            j = j + 1;
        }
        r
    }

    /// The cells of the column named `name`, if the table has one.
    pub fn column(&self, name: &String) -> (r: Option<&Vec<Value>>)
        requires
            self.wf(),
        ensures
            match catalog_position(self.schema(), name@) {
                Some(p) => r matches Some(c) && cells_of(c@) == self.cells(p as int),
                None => r is None,
            },
    {
        match self.position(name) {
            Some(p) => Some(&self.columns[p]),
            None => None,
        }
    }

    fn position(&self, name: &String) -> (r: Option<usize>)
        requires
            self.wf(),
        ensures
            r matches Some(p) ==> catalog_position(self.schema(), name@) == Some(p as nat) && p
                < self.schema().len(),
            r is None ==> catalog_position(self.schema(), name@) is None,
    {
        let len = self.names.len();
        let ghost e = self.schema();
        let mut i: usize = 0;
        assert(e.subrange(0, len as int) =~= e);
        while i < len
            invariant
                len == self.names@.len(),
                e == self.schema(),
                i <= len,
                match catalog_position(e.subrange(i as int, len as int), name@) {
                    Some(p) => catalog_position(e, name@) == Some((p + i) as nat),
                    None => catalog_position(e, name@) is None,
                },
            decreases len - i,
        {
            assert(e.subrange(i as int, len as int).subrange(1, len - i) =~= e.subrange(
                i + 1,
                len as int,
            ));
            assert(e[i as int].0 == self.names@[i as int]@);
            if self.names[i] == *name {
                return Some(i);
            }
            i = i + 1;
        }
        None
    }

    fn key_less(&self, kpos: &Vec<usize>, r1: usize, r2: usize) -> (r: bool)
        requires
            self.wf(),
            r1 < self.spec_n_rows(),
            r2 < self.spec_n_rows(),
            forall|u: int| 0 <= u < kpos@.len() ==> #[trigger] kpos@[u] < self.schema().len(),
        ensures
            r == key_lt(
                self.row_key(kpos@.map_values(|x: usize| x as int), r1 as int),
                self.row_key(kpos@.map_values(|x: usize| x as int), r2 as int),
            ),
    {
        let ghost kp = kpos@.map_values(|x: usize| x as int);
        let ghost a = self.row_key(kp, r1 as int);
        let ghost b = self.row_key(kp, r2 as int);
        let mut u: usize = 0;
        assert(a.skip(0) =~= a);
        assert(b.skip(0) =~= b);
        while u < kpos.len()
            invariant
                self.wf(),
                r1 < self.spec_n_rows(),
                r2 < self.spec_n_rows(),
                forall|u: int| 0 <= u < kpos@.len() ==> #[trigger] kpos@[u] < self.schema().len(),
                kp == kpos@.map_values(|x: usize| x as int),
                a == self.row_key(kp, r1 as int),
                b == self.row_key(kp, r2 as int),
                u <= kpos@.len(),
                key_lt(a, b) == key_lt(a.skip(u as int), b.skip(u as int)),
            decreases kpos@.len() - u,
        {
            assert(a.skip(u as int).drop_first() =~= a.skip(u + 1));
            assert(b.skip(u as int).drop_first() =~= b.skip(u + 1));
            let c = kpos[u];
            assert(self.columns@[c as int]@.len() == self.spec_n_rows());
            let x = &self.columns[c][r1];
            let y = &self.columns[c][r2];
            assert(a.skip(u as int)[0] == x@);
            assert(b.skip(u as int)[0] == y@);
            if cell_less(x, y) {
                return true;
            }
            if cell_less(y, x) {
                return false;
            }
            u = u + 1;
        }
        false
    }

    /// Sort the rows, stably and ascending, by the columns that `keys` names.
    ///
    /// Fails with `SchemaMismatch`, leaving the table as it was, when a key
    /// names no column of the table.
    pub fn sort(&mut self, keys: &Vec<String>) -> (r: Result<(), CollectError>)
        requires
            old(self).wf(),
        ensures
            final(self).wf(),
            final(self).schema() == old(self).schema(),
            final(self).spec_datatype() == old(self).spec_datatype(),
            final(self).spec_n_rows() == old(self).spec_n_rows(),
            match r {
                Ok(_) => old(self).has_columns(crate::schema::names_of(keys@)) && is_sorted_reordering(
                    *old(self),
                    *final(self),
                    old(self).key_positions(crate::schema::names_of(keys@)),
                ),
                Err(e) => e == CollectError::SchemaMismatch && !old(self).has_columns(
                    crate::schema::names_of(keys@),
                ) && *final(self) == *old(self),
            },
    {
        let ghost knames = crate::schema::names_of(keys@);
        let mut kpos: Vec<usize> = Vec::new();
        let mut u: usize = 0;
        while u < keys.len()
            invariant
                self.wf(),
                knames == crate::schema::names_of(keys@),
                u <= keys@.len(),
                kpos@.len() == u,
                forall|v: int| 0 <= v < u ==> catalog_position(self.schema(), #[trigger] knames[v])
                    == Some(kpos@[v] as nat) && kpos@[v] < self.schema().len(),
            decreases keys@.len() - u,
        {
            match self.position(&keys[u]) {
                Some(p) => {
                    kpos.push(p);
                },
                None => {
                    assert(catalog_position(self.schema(), knames[u as int]) is None);
                    return Err(CollectError::SchemaMismatch);
                },
            }
            u = u + 1;
        }
        let ghost kp = kpos@.map_values(|x: usize| x as int);
        assert(kp =~= self.key_positions(knames));
        assert forall|v: int| 0 <= v < kpos@.len() implies #[trigger] kpos@[v] < self.schema().len() by {
            assert(catalog_position(self.schema(), knames[v]) == Some(kpos@[v] as nat));
        }
        let ghost ks = self.row_keys(kp);
        assert(uniform_keys(ks, kp.len()));
        let n = self.n_rows();
        let mut perm: Vec<usize> = Vec::new();
        let mut i: usize = 0;
        while i < n
            invariant
                self.wf(),
                n == self.spec_n_rows(),
                kp == kpos@.map_values(|x: usize| x as int),
                ks == self.row_keys(kp),
                uniform_keys(ks, kp.len()),
                forall|v: int| 0 <= v < kpos@.len() ==> #[trigger] kpos@[v] < self.schema().len(),
                i <= n,
                is_permutation(perm@, i as int),
                sorted_by(ks, perm@),
                stable_by(ks, perm@),
            decreases n - i,
        {
            let mut j: usize = perm.len();
            while j > 0 && self.key_less(&kpos, i, perm[j - 1])
                invariant
                    self.wf(),
                    n == self.spec_n_rows(),
                    kp == kpos@.map_values(|x: usize| x as int),
                    ks == self.row_keys(kp),
                    forall|v: int| 0 <= v < kpos@.len() ==> #[trigger] kpos@[v] < self.schema().len(),
                    i < n,
                    is_permutation(perm@, i as int),
                    j <= perm@.len(),
                    forall|m: int| j <= m < perm@.len() ==> key_lt(ks[i as int], #[trigger] ks[perm@[m] as int]),
                decreases j,
            {
                j = j - 1;
            }
            proof {
                lemma_insert_step(ks, kp.len(), perm@, i, j as int);
            }
            perm.insert(j, i);
            i = i + 1;
        }
        let ncols = self.columns.len();
        let mut cols: Vec<Vec<Value>> = Vec::new();
        let mut c: usize = 0;
        while c < ncols
            invariant
                self.wf(),
                ncols == self.columns@.len(),
                n == self.spec_n_rows(),
                is_permutation(perm@, n as int),
                c <= ncols,
                cols@.len() == c,
                forall|a: int| 0 <= a < c ==> (#[trigger] cols@[a])@.len() == n,
                forall|a: int, k: int| 0 <= a < c && 0 <= k < n ==> (#[trigger] cols@[a]@[k])@ == self.cells(a)[perm@[k] as int],
            decreases ncols - c,
        {
            assert(self.columns@[c as int]@.len() == n);
            let mut col: Vec<Value> = Vec::new();
            let mut k: usize = 0;
            while k < n
                invariant
                    self.wf(),
                    ncols == self.columns@.len(),
                    c < ncols,
                    self.columns@[c as int]@.len() == n,
                    is_permutation(perm@, n as int),
                    k <= n,
                    col@.len() == k,
                    forall|k2: int| 0 <= k2 < k ==> (#[trigger] col@[k2])@ == self.cells(c as int)[perm@[k2] as int],
                decreases n - k,
            {
                let v = copy_value(&self.columns[c][perm[k]]);
                col.push(v);
                k = k + 1;
            }
            cols.push(col);
            c = c + 1;
        }
        let ghost before = *self;
        self.columns = cols;
        assert(self.schema() =~= before.schema());
        assert(is_sorted_reordering(before, *self, kp)) by {
            assert forall|a: int, k: int| 0 <= a < before.schema().len() && 0 <= k < n implies #[trigger] self.cells(a)[k]
                == before.cells(a)[perm@[k] as int] by {
                assert(self.columns@[a]@[k]@ == before.cells(a)[perm@[k] as int]);
            }
            assert forall|k: int| 0 <= k < n implies #[trigger] ks[perm@[k] as int] == self.row_key(kp, k) by {
                assert(ks[perm@[k] as int] =~= self.row_key(kp, k));
            }
        }
        Ok(())
    }
}

/// Whether table `t` has one row per full row of `rows`, and holds, column by
/// column, their cells at each column's catalog position.
pub open spec fn holds_rows(t: Table, rows: Seq<Seq<Cell>>) -> bool {
    &&& t.spec_n_rows() == capped_count(rows.len())
    &&& forall|j: int| 0 <= j < t.schema().len() ==> (#[trigger] t.cells(j)).len() == rows.len()
    &&& forall|j: int, k: int|
        0 <= j < t.schema().len() && 0 <= k < rows.len() ==> #[trigger] t.cells(j)[k]
            == rows[k][catalog_position(catalog(t.spec_datatype()), t.schema()[j].0).unwrap() as int]
}

/// Whether `b` holds the rows of `a` in an order that sorts them ascending by
/// the key columns at `kpos` and keeps rows with equal keys in their order.
pub open spec fn is_sorted_reordering(a: Table, b: Table, kpos: Seq<int>) -> bool {
    exists|p: Seq<usize>|
        {
            &&& is_permutation(p, a.spec_n_rows() as int)
            &&& forall|j: int, k: int|
                0 <= j < a.schema().len() && 0 <= k < a.spec_n_rows() ==> #[trigger] b.cells(j)[k]
                    == a.cells(j)[p[k] as int]
            &&& sorted_by(a.row_keys(kpos), p)
            &&& stable_by(a.row_keys(kpos), p)
        }
}

/// Sorting by one column of integers leaves that column non-decreasing, and
/// rows with equal values in their original order.
pub proof fn lemma_sorted_by_uint_column(a: Table, b: Table, j: int)
    requires
        0 <= j < a.schema().len(),
        is_sorted_reordering(a, b, seq![j]),
        forall|k: int| 0 <= k < a.spec_n_rows() ==> (#[trigger] a.cells(j)[k]) is UInt,
    ensures
        forall|k1: int, k2: int|
            0 <= k1 < k2 < a.spec_n_rows() ==> (#[trigger] b.cells(j)[k1])->UInt_0 <= (
            #[trigger] b.cells(j)[k2])->UInt_0,
        exists|p: Seq<usize>|
            {
                &&& is_permutation(p, a.spec_n_rows() as int)
                &&& forall|k: int| 0 <= k < a.spec_n_rows() ==> #[trigger] b.cells(j)[k] == a.cells(j)[p[k] as int]
                &&& forall|k1: int, k2: int|
                    0 <= k1 < k2 < a.spec_n_rows() && a.cells(j)[p[k1] as int] == a.cells(j)[p[k2] as int]
                        ==> #[trigger] p[k1] < #[trigger] p[k2]
            },
{
    let kp = seq![j];
    let p = choose|p: Seq<usize>|
        {
            &&& is_permutation(p, a.spec_n_rows() as int)
            &&& forall|jj: int, k: int|
                0 <= jj < a.schema().len() && 0 <= k < a.spec_n_rows() ==> #[trigger] b.cells(jj)[k]
                    == a.cells(jj)[p[k] as int]
            &&& sorted_by(a.row_keys(kp), p)
            &&& stable_by(a.row_keys(kp), p)
        };
    let ks = a.row_keys(kp);
    assert forall|r: int| 0 <= r < a.spec_n_rows() implies #[trigger] ks[r] == seq![a.cells(j)[r]] by {
        assert(ks[r] =~= seq![a.cells(j)[r]]);
    }
    assert forall|k1: int, k2: int|
        0 <= k1 < k2 < a.spec_n_rows() implies (#[trigger] b.cells(j)[k1])->UInt_0 <= (
        #[trigger] b.cells(j)[k2])->UInt_0 by {
        let x = a.cells(j)[p[k1] as int];
        let y = a.cells(j)[p[k2] as int];
        assert(p[k1] < a.spec_n_rows() && p[k2] < a.spec_n_rows());
        assert(!key_lt(ks[p[k2] as int], ks[p[k1] as int]));
        assert(seq![y].drop_first() =~= Seq::<Cell>::empty());
        assert(seq![x].drop_first() =~= Seq::<Cell>::empty());
    }
    assert forall|k1: int, k2: int|
        0 <= k1 < k2 < a.spec_n_rows() && a.cells(j)[p[k1] as int] == a.cells(j)[p[k2] as int]
            implies #[trigger] p[k1] < #[trigger] p[k2] by {
        assert(p[k1] < a.spec_n_rows() && p[k2] < a.spec_n_rows());
        assert(ks[p[k1] as int] == ks[p[k2] as int]);
    }
}

impl Accumulator {
    /// The table of the active columns, in schema order, with one row per
    /// appended row.
    pub fn into_table(self) -> (t: Table)
        requires
            self.wf(),
        ensures
            t.wf(),
            t.spec_datatype() == self.spec_datatype(),
            t.schema() == self.active(),
            t.spec_n_rows() == capped_count(self@.len()),
            holds_rows(t, self@),
    {
        proof {
            self.lemma_wf();
        }
        let t = Table {
            datatype: self.datatype,
            names: self.names,
            types: self.types,
            columns: self.columns,
            n_rows: self.n_rows,
        };
        assert(t.schema() =~= self.active());
        proof {
            if t.columns@.len() > 0 {
                assert(self.fields@[0] < row_width(self.datatype));
            }
        }
        assert forall|j: int| 0 <= j < t.columns@.len() implies (#[trigger] t.columns@[j])@.len()
            == t.spec_n_rows() by {
            assert(self.fields@[j] < row_width(self.datatype));
            assert(self.fields@[0] < row_width(self.datatype));
        }
        assert forall|j: int| 0 <= j < t.schema().len() implies (#[trigger] t.cells(j)).len() == self@.len() by {
            assert(self.fields@[j] < row_width(self.datatype));
        }
        assert forall|j: int, k: int|
            0 <= j < t.schema().len() && 0 <= k < self@.len() implies #[trigger] t.cells(j)[k]
            == self@[k][catalog_position(catalog(t.spec_datatype()), t.schema()[j].0).unwrap() as int] by {
            assert(self.fields@[j] < row_width(self.datatype));
            assert(self.columns@[j]@[k]@ == self.rows@[k][self.fields@[j] as int]);
        }
        assert forall|j: int| 0 <= j < t.schema().len() implies catalog_position(
            catalog(t.spec_datatype()),
            t.schema()[j].0,
        ) == Some(self.field(j) as nat) by {
            assert(self.fields@[j] < row_width(self.datatype));
        }
        t
    }
}

} // verus!
