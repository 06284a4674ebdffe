use vstd::prelude::*;

verus! {

/// The type that a column of a dataset declares for its values.
#[derive(Debug, Clone, Copy, PartialEq, Eq, Structural)]
pub enum ColumnType {
    String,
    Integer,
}

/// One cell of a dataset.
#[derive(Debug)]
pub enum Value {
    String(String),
    Integer(i32),
}

/// The mathematical value of a cell.
pub enum SpecValue {
    Str(Seq<char>),
    Int(i32),
}

impl View for Value {
    type V = SpecValue;

    open spec fn view(&self) -> SpecValue {
        match self {
            Value::String(s) => SpecValue::Str(s@),
            Value::Integer(n) => SpecValue::Int(*n),
        }
    }
}

/// Whether a cell value agrees with the declared type of its column.
pub open spec fn value_has_type(v: SpecValue, t: ColumnType) -> bool {
    match v {
        SpecValue::Str(_) => t == ColumnType::String,
        SpecValue::Int(_) => t == ColumnType::Integer,
    }
}

impl Value {
    /// A copy of this value.
    pub fn copy(&self) -> (res: Value)
        ensures
            res@ == self@,
    {
        match self {
            Value::String(s) => Value::String(s.clone()),
            Value::Integer(n) => Value::Integer(*n),
        }
    }

    /// Whether two values are the same value.
    pub fn same_as(&self, other: &Value) -> (res: bool)
        ensures
            res == (self@ == other@),
    {
        match (self, other) {
            (Value::String(a), Value::String(b)) => a.eq(b),
            (Value::Integer(a), Value::Integer(b)) => *a == *b,
            _ => false,
        }
    }
}

impl PartialEq for Value {
    fn eq(&self, other: &Value) -> (res: bool) {
        self.same_as(other)
    }
}

impl vstd::std_specs::cmp::PartialEqSpecImpl for Value {
    open spec fn obeys_eq_spec() -> bool {
        true
    }

    open spec fn eq_spec(&self, other: &Value) -> bool {
        self@ == other@
    }
}

/// One row of a dataset: its values, column by column.
#[derive(Debug)]
pub struct Row {
    values: Vec<Value>,
}

impl View for Row {
    type V = Seq<SpecValue>;

    closed spec fn view(&self) -> Seq<SpecValue> {
        self.values@.map_values(|v: Value| v@)
    }
}

impl Row {
    pub fn new(values: Vec<Value>) -> (row: Row)
        ensures
            row@ == values@.map_values(|v: Value| v@),
    {
        Row { values }
    }

    /// The number of values in the row.
    pub fn len(&self) -> (n: usize)
        ensures
            n == self@.len(),
    {
        self.values.len()
    }

    /// The value in column `index`.
    pub fn get_value(&self, index: usize) -> (v: &Value)
        requires
            index < self@.len(),
        ensures
            v@ == self@[index as int],
    {
        &self.values[index]
    }

    /// A copy of this row.
    pub fn copy(&self) -> (res: Row)
        ensures
            res@ == self@,
    {
        let mut values: Vec<Value> = Vec::new();
        let n = self.values.len();
        for i in 0..n
            invariant
                n == self.values@.len(),
                values@.len() == i,
                forall|k: int| 0 <= k < i ==> (#[trigger] values@[k])@ == self.values@[k]@,
        {
            values.push(self.values[i].copy());
        }
        let res = Row { values };
        assert(res@ =~= self@);
        res
    }
}

/// The mathematical value of a dataset: its columns (name and type) and its rows.
pub struct SpecDataset {
    pub columns: Seq<(Seq<char>, ColumnType)>,
    pub rows: Seq<Seq<SpecValue>>,
}

/// Whether a row fits the columns: one value per column, each of the column's type.
pub open spec fn row_fits(columns: Seq<(Seq<char>, ColumnType)>, row: Seq<SpecValue>) -> bool {
    &&& row.len() == columns.len()
    &&& forall|j: int| 0 <= j < row.len() ==> value_has_type(#[trigger] row[j], columns[j].1)
}

impl SpecDataset {
    /// Every row fits the columns.
    pub open spec fn wf(self) -> bool {
        forall|i: int| 0 <= i < self.rows.len() ==> row_fits(self.columns, #[trigger] self.rows[i])
    }
}

/// `i` is the first column whose name is `name`.
pub open spec fn is_first_column(columns: Seq<(Seq<char>, ColumnType)>, name: Seq<char>, i: int) -> bool {
    &&& 0 <= i < columns.len()
    &&& columns[i].0 == name
    &&& forall|j: int| 0 <= j < i ==> (#[trigger] columns[j]).0 != name
}

/// Some column is called `name`.
pub open spec fn has_column(columns: Seq<(Seq<char>, ColumnType)>, name: Seq<char>) -> bool {
    exists|i: int| 0 <= i < columns.len() && (#[trigger] columns[i]).0 == name
}

/// The position of the first column called `name` (-1 where there is none).
pub open spec fn column_pos(columns: Seq<(Seq<char>, ColumnType)>, name: Seq<char>) -> int {
    if exists|i: int| is_first_column(columns, name, i) {
        choose|i: int| is_first_column(columns, name, i)
    } else {
        -1
    }
}

/// The first column with a name is unique, and it exists exactly when some column has the name.
pub proof fn lemma_column_pos(columns: Seq<(Seq<char>, ColumnType)>, name: Seq<char>)
    ensures
        has_column(columns, name) <==> 0 <= column_pos(columns, name),
        has_column(columns, name) ==> is_first_column(columns, name, column_pos(columns, name)),
        forall|i: int| is_first_column(columns, name, i) ==> i == column_pos(columns, name),
{
    if has_column(columns, name) {
        let k = choose|i: int| 0 <= i < columns.len() && (#[trigger] columns[i]).0 == name;
        lemma_first_exists(columns, name, k);
        let p = column_pos(columns, name);
        assert(is_first_column(columns, name, p));
        assert forall|i: int| is_first_column(columns, name, i) implies i == p by {
            if i < p {
                assert(columns[i].0 == name);
            } else if p < i {
                assert(columns[p].0 == name);
            }
        }
    } else {
        assert forall|i: int| !is_first_column(columns, name, i) by {
            if 0 <= i < columns.len() && columns[i].0 == name {
                assert(has_column(columns, name));
            }
        }
    }
}

proof fn lemma_first_exists(columns: Seq<(Seq<char>, ColumnType)>, name: Seq<char>, k: int)
    requires
        0 <= k < columns.len(),
        columns[k].0 == name,
    ensures
        exists|i: int| is_first_column(columns, name, i),
    decreases k,
{
    if forall|j: int| 0 <= j < k ==> (#[trigger] columns[j]).0 != name {
        assert(is_first_column(columns, name, k));
    } else {
        let j = choose|j: int| 0 <= j < k && (#[trigger] columns[j]).0 == name;
        lemma_first_exists(columns, name, j);
    }
}

/// A table of rows under named, typed columns.
#[derive(Debug)]
pub struct Dataset {
    columns: Vec<(String, ColumnType)>,
    rows: Vec<Row>,
}

pub open spec fn column_view(c: (String, ColumnType)) -> (Seq<char>, ColumnType) {
    (c.0@, c.1)
}

impl View for Dataset {
    type V = SpecDataset;

    closed spec fn view(&self) -> SpecDataset {
        SpecDataset {
            columns: self.columns@.map_values(|c: (String, ColumnType)| column_view(c)),
            rows: self.rows@.map_values(|r: Row| r@),
        }
    }
}

impl Dataset {
    /// Every row of the dataset fits its columns.
    #[verifier::type_invariant]
    pub open spec fn wf(&self) -> bool {
        self@.wf()
    }

    /// An empty dataset with the given columns.
    pub fn new(columns: Vec<(String, ColumnType)>) -> (d: Dataset)
        ensures
            d@.columns == columns@.map_values(|c: (String, ColumnType)| column_view(c)),
            d@.rows == Seq::<Seq<SpecValue>>::empty(),
    {
        let d = Dataset { columns, rows: Vec::new() };
        assert(d@.rows =~= Seq::<Seq<SpecValue>>::empty());
        d
    }

    /// The columns of the dataset.
    pub fn columns(&self) -> (c: &Vec<(String, ColumnType)>)
        ensures
            c@.map_values(|c: (String, ColumnType)| column_view(c)) == self@.columns,
    {
        &self.columns
    }

    /// The number of rows.
    pub fn len(&self) -> (n: usize)
        ensures
            n == self@.rows.len(),
    {
        self.rows.len()
    }

    /// The row at position `i`.
    pub fn get_row(&self, i: usize) -> (r: &Row)
        requires
            i < self@.rows.len(),
        ensures
            r@ == self@.rows[i as int],
    {
        &self.rows[i]
    }

    /// Appends a row that fits the columns.
    pub fn add_row(&mut self, row: Row)
        requires
            row_fits(old(self)@.columns, row@),
        ensures
            final(self)@.columns == old(self)@.columns,
            final(self)@.rows == old(self)@.rows.push(row@),
    {
        proof {
            use_type_invariant(&*self);
        }
        let ghost columns = self@.columns;
        let ghost before = self@.rows;
        let mut rows: Vec<Row> = Vec::new();
        std::mem::swap(&mut rows, &mut self.rows);
        rows.push(row);
        proof {
            let after = rows@.map_values(|r: Row| r@);
            assert(after =~= before.push(row@));
            assert forall|i: int| 0 <= i < after.len() implies row_fits(columns, #[trigger] after[i]) by {
                if i < before.len() {
                    assert(row_fits(columns, before[i]));
                }
            }
        }
        self.rows = rows;
        assert(self@.rows =~= old(self)@.rows.push(row@));
    }

    /// Appends the row where it fits the columns, and reports whether it did.
    pub fn try_add_row(&mut self, row: Row) -> (added: bool)
        ensures
            added == row_fits(old(self)@.columns, row@),
            final(self)@.columns == old(self)@.columns,
            final(self)@.rows == if added {
                old(self)@.rows.push(row@)
            } else {
                old(self)@.rows
            },
    {
        let n = self.columns.len();
        if row.len() != n {
            return false;
        }
        for j in 0..n
            invariant
                n == self@.columns.len(),
                row@.len() == n,
                forall|k: int| 0 <= k < j ==> value_has_type(#[trigger] row@[k], self@.columns[k].1),
        {
            let fits = match (row.get_value(j), self.columns[j].1) {
                (Value::String(_), ColumnType::String) => true,
                (Value::Integer(_), ColumnType::Integer) => true,
                _ => false,
            };
            if !fits {
                return false;
            }
        }
        self.add_row(row);
        true
    }

    /// The position of the first column called `column`, if there is one.
    pub fn find_column(&self, column: &String) -> (res: Option<usize>)
        ensures
            match res {
                Some(i) => is_first_column(self@.columns, column@, i as int),
                None => !has_column(self@.columns, column@),
            },
    {
        let n = self.columns.len();
        for i in 0..n
            invariant
                n == self.columns@.len(),
                forall|j: int| 0 <= j < i ==> (#[trigger] self@.columns[j]).0 != column@,
        {
            if self.columns[i].0 == *column {
                return Some(i);
            }
        }
        proof {
            if has_column(self@.columns, column@) {
                let k = choose|k: int| 0 <= k < self@.columns.len() && (#[trigger] self@.columns[k]).0 == column@;
                assert(self@.columns[k].0 != column@);
            }
        }
        None
    }

    /// The position of the first column called `column`.
    pub fn column_index(&self, column: &String) -> (i: usize)
        requires
            has_column(self@.columns, column@),
        ensures
            i == column_pos(self@.columns, column@),
    {
        proof {
            lemma_column_pos(self@.columns, column@);
        }
        match self.find_column(column) {
            Some(i) => i,
            None => 0,
        }
    }

    /// The type of the first column called `column`.
    pub fn column_type(&self, column: &String) -> (t: ColumnType)
        requires
            has_column(self@.columns, column@),
        ensures
            t == self@.columns[column_pos(self@.columns, column@)].1,
    {
        let i = self.column_index(column);
        self.columns[i].1
    }

    /// A copy of this dataset.
    pub fn copy(&self) -> (res: Dataset)
        ensures
            res@ == self@,
    {
        let mut columns: Vec<(String, ColumnType)> = Vec::new();
        let n = self.columns.len();
        for i in 0..n
            invariant
                n == self.columns@.len(),
                columns@.len() == i,
                forall|k: int| 0 <= k < i ==> column_view(#[trigger] columns@[k]) == column_view(self.columns@[k]),
        {
            columns.push((self.columns[i].0.clone(), self.columns[i].1));
        }
        let mut rows: Vec<Row> = Vec::new();
        let m = self.rows.len();
        for i in 0..m
            invariant
                m == self.rows@.len(),
                rows@.len() == i,
                forall|k: int| 0 <= k < i ==> (#[trigger] rows@[k])@ == self.rows@[k]@,
        {
            rows.push(self.rows[i].copy());
        }
        proof {
            use_type_invariant(self);
            assert(columns@.map_values(|c: (String, ColumnType)| column_view(c)) =~= self@.columns);
            assert(rows@.map_values(|r: Row| r@) =~= self@.rows);
        }
        let res = Dataset { columns, rows };
        res
    }
}

} // verus!
