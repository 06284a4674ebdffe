use vstd::prelude::*;

use crate::dataset::{
    column_pos, column_view, has_column, is_first_column, lemma_column_pos, row_fits, ColumnType, Dataset, Row,
    value_has_type, SpecDataset, SpecValue, Value,
};
use crate::query::{
    aggregation_column, result_column_name, Aggregation, Condition, Query, SpecAggregation,
    SpecCondition, SpecQuery,
};

verus! {

broadcast use vstd::seq_lib::group_seq_properties;

// ---------------------------------------------------------------------------------------------
// Conditions
// ---------------------------------------------------------------------------------------------

/// Whether `row`, read under `columns`, satisfies the condition.
pub open spec fn row_matches_spec(
    columns: Seq<(Seq<char>, ColumnType)>,
    row: Seq<SpecValue>,
    c: SpecCondition,
) -> bool
    decreases c,
{
    match c {
        SpecCondition::Equal(name, v) => row[column_pos(columns, name)] == v,
        SpecCondition::Not(inner) => !row_matches_spec(columns, row, *inner),
        SpecCondition::And(l, r) => row_matches_spec(columns, row, *l) && row_matches_spec(
            columns,
            row,
            *r,
        ),
        SpecCondition::Or(l, r) => row_matches_spec(columns, row, *l) || row_matches_spec(
            columns,
            row,
            *r,
        ),
    }
}

/// Whether evaluating the condition on `row` only reads columns that the dataset has and
/// the row holds. `And` and `Or` stop after their left side where it decides the result, so
/// their right side is only read when the left side does not decide.
pub open spec fn can_evaluate(
    columns: Seq<(Seq<char>, ColumnType)>,
    row: Seq<SpecValue>,
    c: SpecCondition,
) -> bool
    decreases c,
{
    match c {
        SpecCondition::Equal(name, _) => has_column(columns, name) && column_pos(columns, name)
            < row.len(),
        SpecCondition::Not(inner) => can_evaluate(columns, row, *inner),
        SpecCondition::And(l, r) => can_evaluate(columns, row, *l) && (row_matches_spec(
            columns,
            row,
            *l,
        ) ==> can_evaluate(columns, row, *r)),
        SpecCondition::Or(l, r) => can_evaluate(columns, row, *l) && (!row_matches_spec(
            columns,
            row,
            *l,
        ) ==> can_evaluate(columns, row, *r)),
    }
}

/// Every row of the dataset can be tested against the condition.
pub open spec fn condition_applies(d: SpecDataset, c: SpecCondition) -> bool {
    forall|i: int| 0 <= i < d.rows.len() ==> can_evaluate(d.columns, #[trigger] d.rows[i], c)
}

/// The test that a row satisfies `c` under `columns`.
pub open spec fn matches_pred(columns: Seq<(Seq<char>, ColumnType)>, c: SpecCondition) -> spec_fn(
    Seq<SpecValue>,
) -> bool {
    |r: Seq<SpecValue>| row_matches_spec(columns, r, c)
}

/// The dataset that keeps, in order, the rows that satisfy `c`.
pub open spec fn spec_filter(d: SpecDataset, c: SpecCondition) -> SpecDataset {
    SpecDataset { columns: d.columns, rows: d.rows.filter(matches_pred(d.columns, c)) }
}

/// Returns whether `row` satisfies `condition`, reading columns by name in `dataset`.
pub fn row_matches(row: &Row, dataset: &Dataset, condition: &Condition) -> (res: bool)
    requires
        can_evaluate(dataset@.columns, row@, condition@),
    ensures
        res == row_matches_spec(dataset@.columns, row@, condition@),
    decreases condition,
{
    match condition {
        Condition::Equal(col_name, expected) => {
            let idx = dataset.column_index(col_name);
            row.get_value(idx).same_as(expected)
        },
        Condition::Not(inner) => !row_matches(row, dataset, inner),
        Condition::And(left, right) => {
            row_matches(row, dataset, left) && row_matches(row, dataset, right)
        },
        Condition::Or(left, right) => {
            row_matches(row, dataset, left) || row_matches(row, dataset, right)
        },
    }
}

/// Returns a dataset with the same columns that holds, in their order, the rows of `dataset`
/// that satisfy `filter`.
pub fn filter_dataset(dataset: &Dataset, filter: &Condition) -> (res: Dataset)
    requires
        condition_applies(dataset@, filter@),
    ensures
        res@ == spec_filter(dataset@, filter@),
{
    proof {
        use_type_invariant(dataset);
    }
    let mut result = Dataset::new(copy_columns(dataset.columns()));
    let ghost pred = matches_pred(dataset@.columns, filter@);
    let n = dataset.len();
    for i in 0..n
        invariant
            n == dataset@.rows.len(),
            dataset@.wf(),
            condition_applies(dataset@, filter@),
            pred == matches_pred(dataset@.columns, filter@),
            result@.columns == dataset@.columns,
            result@.rows == dataset@.rows.take(i as int).filter(pred),
    {
        let row = dataset.get_row(i);
        proof {
            assert(dataset@.rows.take(i + 1) =~= dataset@.rows.take(i as int).push(row@));
            dataset@.rows.take(i as int).lemma_filter_push(row@, pred);
            assert(row_fits(dataset@.columns, dataset@.rows[i as int]));
            assert(can_evaluate(dataset@.columns, dataset@.rows[i as int], filter@));
        }
        let keep = row_matches(row, dataset, filter);
        if keep {
            result.add_row(row.copy());
        }
    }
    assert(dataset@.rows.take(n as int) =~= dataset@.rows);
    result
}

/// A copy of a list of columns.
pub fn copy_columns(columns: &Vec<(String, ColumnType)>) -> (res: Vec<(String, ColumnType)>)
    ensures
        res@.map_values(|c: (String, ColumnType)| column_view(c)) == columns@.map_values(
            |c: (String, ColumnType)| column_view(c),
        ),
{
    let mut res: Vec<(String, ColumnType)> = Vec::new();
    let n = columns.len();
    for i in 0..n
        invariant
            n == columns@.len(),
            res@.len() == i,
            forall|k: int| 0 <= k < i ==> column_view(#[trigger] res@[k]) == column_view(columns@[k]),
    {
        res.push((columns[i].0.clone(), columns[i].1));
    }
    assert(res@.map_values(|c: (String, ColumnType)| column_view(c)) =~= columns@.map_values(
        |c: (String, ColumnType)| column_view(c),
    ));
    res
}


// ---------------------------------------------------------------------------------------------
// Grouping
// ---------------------------------------------------------------------------------------------

/// The test that a row holds `key` in column `col`.
pub open spec fn key_pred(col: int, key: SpecValue) -> spec_fn(Seq<SpecValue>) -> bool {
    |r: Seq<SpecValue>| r[col] == key
}

/// The distinct values of column `col` over `rows`, in the order of their first appearance.
pub open spec fn group_keys(rows: Seq<Seq<SpecValue>>, col: int) -> Seq<SpecValue>
    decreases rows.len(),
{
    if rows.len() == 0 {
        Seq::empty()
    } else {
        let keys = group_keys(rows.drop_last(), col);
        let k = rows.last()[col];
        if keys.contains(k) {
            keys
        } else {
            keys.push(k)
        }
    }
}

/// The rows of `d` that hold `key` in column `col`, under the same columns.
pub open spec fn rows_with_key(d: SpecDataset, col: int, key: SpecValue) -> SpecDataset {
    SpecDataset { columns: d.columns, rows: d.rows.filter(key_pred(col, key)) }
}

/// One group per distinct value of the named column, in order of first appearance; each
/// group holds, in their order, the rows with that value.
pub open spec fn spec_group_by(d: SpecDataset, name: Seq<char>) -> Seq<(SpecValue, SpecDataset)> {
    let col = column_pos(d.columns, name);
    group_keys(d.rows, col).map_values(|k: SpecValue| (k, rows_with_key(d, col, k)))
}

/// The mathematical value of a list of groups.
pub open spec fn groups_view(groups: Seq<(Value, Dataset)>) -> Seq<(SpecValue, SpecDataset)> {
    groups.map_values(|g: (Value, Dataset)| (g.0@, g.1@))
}

/// The mathematical values of a list of values.
pub open spec fn values_view(v: Seq<Value>) -> Seq<SpecValue> {
    v.map_values(|x: Value| x@)
}

/// Whether `v` holds a value equal to `key`.
fn contains_value(v: &Vec<Value>, key: &Value) -> (res: bool)
    ensures
        res == values_view(v@).contains(key@),
{
    let n = v.len();
    for i in 0..n
        invariant
            n == v@.len(),
            forall|j: int| 0 <= j < i ==> (#[trigger] v@[j])@ != key@,
    {
        if v[i].same_as(key) {
            assert(values_view(v@)[i as int] == key@);
            return true;
        }
    }
    proof {
        if values_view(v@).contains(key@) {
            let j = choose|j: int|
                0 <= j < v@.len() && #[trigger] values_view(v@)[j] == key@;
            assert(v@[j]@ == key@);
        }
    }
    false
}

/// The distinct values of column `col` of the dataset, in the order of their first appearance.
fn distinct_keys(dataset: &Dataset, col: usize) -> (keys: Vec<Value>)
    requires
        col < dataset@.columns.len(),
    ensures
        values_view(keys@) == group_keys(dataset@.rows, col as int),
{
    proof {
        use_type_invariant(dataset);
    }
    let mut keys: Vec<Value> = Vec::new();
    let n = dataset.len();
    for i in 0..n
        invariant
            n == dataset@.rows.len(),
            dataset@.wf(),
            col < dataset@.columns.len(),
            values_view(keys@) == group_keys(dataset@.rows.take(i as int), col as int),
    {
        let row = dataset.get_row(i);
        assert(row_fits(dataset@.columns, dataset@.rows[i as int]));
        let key = row.get_value(col);
        proof {
            let t = dataset@.rows.take(i + 1);
            assert(t.drop_last() =~= dataset@.rows.take(i as int));
            assert(t.last() == row@);
        }
        if !contains_value(&keys, key) {
            let ghost before = keys@;
            keys.push(key.copy());
            assert(values_view(keys@) =~= values_view(before).push(
                key@,
            ));
        }
    }
    assert(dataset@.rows.take(n as int) =~= dataset@.rows);
    keys
}

/// The rows of the dataset that hold `key` in column `col`, under the same columns.
fn select_key(dataset: &Dataset, col: usize, key: &Value) -> (res: Dataset)
    requires
        col < dataset@.columns.len(),
    ensures
        res@ == rows_with_key(dataset@, col as int, key@),
{
    proof {
        use_type_invariant(dataset);
    }
    let mut result = Dataset::new(copy_columns(dataset.columns()));
    let ghost pred = key_pred(col as int, key@);
    let n = dataset.len();
    for i in 0..n
        invariant
            n == dataset@.rows.len(),
            dataset@.wf(),
            col < dataset@.columns.len(),
            pred == key_pred(col as int, key@),
            result@.columns == dataset@.columns,
            result@.rows == dataset@.rows.take(i as int).filter(pred),
    {
        let row = dataset.get_row(i);
        proof {
            assert(dataset@.rows.take(i + 1) =~= dataset@.rows.take(i as int).push(row@));
            dataset@.rows.take(i as int).lemma_filter_push(row@, pred);
            assert(row_fits(dataset@.columns, dataset@.rows[i as int]));
        }
        if row.get_value(col).same_as(key) {
            result.add_row(row.copy());
        }
    }
    assert(dataset@.rows.take(n as int) =~= dataset@.rows);
    result
}

/// Splits the dataset into one group per distinct value of the column `group_by_column`, in
/// the order in which the values first appear; each group holds, in their order, the rows
/// with that value, under the same columns.
pub fn group_by_dataset(dataset: Dataset, group_by_column: &String) -> (groups: Vec<(Value, Dataset)>)
    requires
        has_column(dataset@.columns, group_by_column@),
    ensures
        groups_view(groups@) == spec_group_by(dataset@, group_by_column@),
{
    let col = dataset.column_index(group_by_column);
    proof {
        lemma_column_pos(dataset@.columns, group_by_column@);
    }
    let keys = distinct_keys(&dataset, col);
    let mut groups: Vec<(Value, Dataset)> = Vec::new();
    let ghost spec_groups = spec_group_by(dataset@, group_by_column@);
    let k = keys.len();
    for j in 0..k
        invariant
            k == keys@.len(),
            col == column_pos(dataset@.columns, group_by_column@),
            col < dataset@.columns.len(),
            values_view(keys@) == group_keys(dataset@.rows, col as int),
            spec_groups == spec_group_by(dataset@, group_by_column@),
            groups_view(groups@) == spec_groups.take(j as int),
    {
        let g = select_key(&dataset, col, &keys[j]);
        let ghost before = groups@;
        groups.push((keys[j].copy(), g));
        proof {
            assert(values_view(keys@)[j as int] == keys@[j as int]@);
            assert(groups_view(groups@) =~= groups_view(before).push(spec_groups[j as int]));
            assert(spec_groups.take(j + 1) =~= spec_groups.take(j as int).push(spec_groups[j as int]));
        }
    }
    assert(spec_groups.take(k as int) =~= spec_groups);
    groups
}


// ---------------------------------------------------------------------------------------------
// Aggregation
// ---------------------------------------------------------------------------------------------

/// The integer in a value (0 for a string).
pub open spec fn int_of(v: SpecValue) -> int {
    match v {
        SpecValue::Int(n) => n as int,
        SpecValue::Str(_) => 0,
    }
}

/// The sum of the integers in column `col` over `rows`.
pub open spec fn column_sum(rows: Seq<Seq<SpecValue>>, col: int) -> int
    decreases rows.len(),
{
    if rows.len() == 0 {
        0
    } else {
        column_sum(rows.drop_last(), col) + int_of(rows.last()[col])
    }
}

/// Every row holds an integer in column `col`.
pub open spec fn all_integers(rows: Seq<Seq<SpecValue>>, col: int) -> bool {
    forall|i: int| 0 <= i < rows.len() ==> (#[trigger] rows[i])[col] is Int
}

/// Summing column `col` row by row never leaves the range of `i32`.
pub open spec fn sums_fit_i32(rows: Seq<Seq<SpecValue>>, col: int) -> bool {
    forall|k: int|
        0 <= k <= rows.len() ==> i32::MIN <= #[trigger] column_sum(rows.take(k), col) <= i32::MAX
}

/// Rust's integer division, which rounds towards zero.
pub open spec fn trunc_div(a: int, b: int) -> int {
    let q: int = (if a < 0 {
        -a
    } else {
        a
    }) / (if b < 0 {
        -b
    } else {
        b
    });
    if (a < 0) != (b < 0) {
        -q
    } else {
        q
    }
}

/// Whether the aggregation can summarise the group: a sum or an average reads a column that
/// exists, holds integers in every row and sums within `i32`; an average also needs at least
/// one row (and no more than `i32::MAX`, the count it divides by).
pub open spec fn can_aggregate(g: SpecDataset, a: SpecAggregation) -> bool {
    match a {
        SpecAggregation::Count(_) => true,
        SpecAggregation::Sum(c) => {
            let col = column_pos(g.columns, c);
            &&& has_column(g.columns, c)
            &&& all_integers(g.rows, col)
            &&& sums_fit_i32(g.rows, col)
        },
        SpecAggregation::Average(c) => {
            let col = column_pos(g.columns, c);
            &&& has_column(g.columns, c)
            &&& all_integers(g.rows, col)
            &&& sums_fit_i32(g.rows, col)
            &&& 0 < g.rows.len() <= i32::MAX
        },
    }
}

/// The summary of one group: its number of rows (as `i32`), the sum of a column, or that sum
/// divided by the number of rows, rounded towards zero.
pub open spec fn spec_aggregate_group(g: SpecDataset, a: SpecAggregation) -> SpecValue {
    match a {
        SpecAggregation::Count(_) => SpecValue::Int(g.rows.len() as i32),
        SpecAggregation::Sum(c) => SpecValue::Int(
            column_sum(g.rows, column_pos(g.columns, c)) as i32,
        ),
        SpecAggregation::Average(c) => SpecValue::Int(
            trunc_div(column_sum(g.rows, column_pos(g.columns, c)), g.rows.len() as int) as i32,
        ),
    }
}

/// Each group's key with the summary of its rows.
pub open spec fn spec_aggregate(groups: Seq<(SpecValue, SpecDataset)>, a: SpecAggregation) -> Seq<
    (SpecValue, SpecValue),
> {
    groups.map_values(|g: (SpecValue, SpecDataset)| (g.0, spec_aggregate_group(g.1, a)))
}

/// The mathematical value of a list of pairs of values.
pub open spec fn pairs_view(p: Seq<(Value, Value)>) -> Seq<(SpecValue, SpecValue)> {
    p.map_values(|x: (Value, Value)| (x.0@, x.1@))
}

/// The sum of column `col` over the rows of `group`.
fn sum_column(group: &Dataset, col: usize) -> (sum: i32)
    requires
        col < group@.columns.len(),
        all_integers(group@.rows, col as int),
        sums_fit_i32(group@.rows, col as int),
    ensures
        sum == column_sum(group@.rows, col as int),
{
    proof {
        use_type_invariant(group);
    }
    let mut sum: i32 = 0;
    let n = group.len();
    assert(group@.rows.take(0) =~= Seq::<Seq<SpecValue>>::empty());
    for i in 0..n
        invariant
            n == group@.rows.len(),
            group@.wf(),
            col < group@.columns.len(),
            all_integers(group@.rows, col as int),
            sums_fit_i32(group@.rows, col as int),
            sum == column_sum(group@.rows.take(i as int), col as int),
    {
        let row = group.get_row(i);
        assert(row_fits(group@.columns, group@.rows[i as int]));
        proof {
            let t = group@.rows.take(i + 1);
            assert(t.drop_last() =~= group@.rows.take(i as int));
            assert(t.last() == row@);
            assert(i32::MIN <= column_sum(t, col as int) <= i32::MAX);
        }
        match row.get_value(col) {
            Value::Integer(n) => {
                sum = sum + *n;
            },
            Value::String(_) => {
                assert(group@.rows[i as int][col as int] is Int);
            },
        }
    }
    assert(group@.rows.take(n as int) =~= group@.rows);
    sum
}

/// The summary of one group under the aggregation.
fn aggregate_group(group: &Dataset, aggregation: &Aggregation) -> (v: Value)
    requires
        can_aggregate(group@, aggregation@),
    ensures
        v@ == spec_aggregate_group(group@, aggregation@),
{
    match aggregation {
        Aggregation::Count(_) => Value::Integer(group.len() as i32),
        Aggregation::Sum(col_name) => {
            let idx = group.column_index(col_name);
            proof {
                lemma_column_pos(group@.columns, col_name@);
            }
            Value::Integer(sum_column(group, idx))
        },
        Aggregation::Average(col_name) => {
            let idx = group.column_index(col_name);
            proof {
                lemma_column_pos(group@.columns, col_name@);
            }
            let count = group.len() as i32;
            let sum = sum_column(group, idx);
            Value::Integer(sum / count)
        },
    }
}

/// Summarises each group into a single value, keeping the groups' keys and order.
pub fn aggregate_dataset(dataset: Vec<(Value, Dataset)>, aggregation: &Aggregation) -> (result: Vec<
    (Value, Value),
>)
    requires
        forall|i: int|
            0 <= i < dataset@.len() ==> can_aggregate(
                (#[trigger] dataset@[i]).1@,
                aggregation@,
            ),
    ensures
        pairs_view(result@) == spec_aggregate(groups_view(dataset@), aggregation@),
{
    let mut result: Vec<(Value, Value)> = Vec::new();
    let n = dataset.len();
    for i in 0..n
        invariant
            n == dataset@.len(),
            forall|i: int|
                0 <= i < dataset@.len() ==> can_aggregate(
                    (#[trigger] dataset@[i]).1@,
                    aggregation@,
                ),
            pairs_view(result@) == spec_aggregate(groups_view(dataset@), aggregation@).take(
                i as int,
            ),
    {
        let (key, group) = &dataset[i];
        let value = aggregate_group(group, aggregation);
        let ghost before = result@;
        result.push((key.copy(), value));
        proof {
            let s = spec_aggregate(groups_view(dataset@), aggregation@);
            assert(pairs_view(result@) =~= pairs_view(before).push(s[i as int]));
            assert(s.take(i + 1) =~= s.take(i as int).push(s[i as int]));
        }
    }
    assert(spec_aggregate(groups_view(dataset@), aggregation@).take(n as int) =~= spec_aggregate(
        groups_view(dataset@),
        aggregation@,
    ));
    result
}


// ---------------------------------------------------------------------------------------------
// Queries
// ---------------------------------------------------------------------------------------------

/// The rows of the filtered dataset, grouped by the query's column.
pub open spec fn query_groups(d: SpecDataset, q: SpecQuery) -> Seq<(SpecValue, SpecDataset)> {
    spec_group_by(spec_filter(d, q.filter), q.group_by)
}

/// Whether the query can run on the dataset without failing: its filter applies to every row,
/// its grouping column exists, and its aggregation can summarise every group.
pub open spec fn query_applies(d: SpecDataset, q: SpecQuery) -> bool {
    &&& condition_applies(d, q.filter)
    &&& has_column(d.columns, q.group_by)
    &&& forall|i: int|
        0 <= i < query_groups(d, q).len() ==> can_aggregate(
            (#[trigger] query_groups(d, q)[i]).1,
            q.aggregate,
        )
}

/// The answer to a query: one row per group, holding the group's key and its summary, under
/// the grouping column (with its type) and the aggregation's result column (integers).
pub open spec fn spec_query(d: SpecDataset, q: SpecQuery) -> SpecDataset {
    SpecDataset {
        columns: seq![
            (q.group_by, d.columns[column_pos(d.columns, q.group_by)].1),
            (result_column_name(q.aggregate), ColumnType::Integer),
        ],
        rows: spec_aggregate(query_groups(d, q), q.aggregate).map_values(
            |p: (SpecValue, SpecValue)| seq![p.0, p.1],
        ),
    }
}

/// Every key of `group_keys` is the value of column `col` in some row.
pub proof fn lemma_group_keys_from_rows(rows: Seq<Seq<SpecValue>>, col: int)
    ensures
        forall|j: int|
            0 <= j < group_keys(rows, col).len() ==> exists|i: int|
                0 <= i < rows.len() && (#[trigger] rows[i])[col] == #[trigger] group_keys(
                    rows,
                    col,
                )[j],
    decreases rows.len(),
{
    if rows.len() > 0 {
        let prev = rows.drop_last();
        lemma_group_keys_from_rows(prev, col);
        let keys = group_keys(rows, col);
        assert forall|j: int| 0 <= j < keys.len() implies exists|i: int|
            0 <= i < rows.len() && (#[trigger] rows[i])[col] == #[trigger] keys[j] by {
            if j < group_keys(prev, col).len() {
                let i = choose|i: int|
                    0 <= i < prev.len() && (#[trigger] prev[i])[col] == group_keys(prev, col)[j];
                assert(rows[i] == prev[i]);
            } else {
                assert(rows[rows.len() - 1][col] == keys[j]);
            }
        }
    }
}

/// Runs a query: filters the dataset, groups the remaining rows by the query's column,
/// summarises each group, and returns one row per group with the group's key and its summary.
pub fn compute_query_on_dataset(dataset: &Dataset, query: &Query) -> (result: Dataset)
    requires
        query_applies(dataset@, query@),
    ensures
        result@ == spec_query(dataset@, query@),
{
    let filtered = filter_dataset(dataset, query.get_filter());
    proof {
        use_type_invariant(&filtered);
        lemma_group_keys_from_rows(filtered@.rows, column_pos(filtered@.columns, query@.group_by));
        lemma_column_pos(dataset@.columns, query@.group_by);
    }
    let grouped = group_by_dataset(filtered, query.get_group_by());
    proof {
        assert forall|i: int| 0 <= i < grouped@.len() implies can_aggregate(
            (#[trigger] grouped@[i]).1@,
            query@.aggregate,
        ) by {
            assert(groups_view(grouped@)[i] == query_groups(dataset@, query@)[i]);
        }
    }
    let aggregated = aggregate_dataset(grouped, query.get_aggregate());

    let group_by_column_name = query.get_group_by();
    let group_by_column_type = dataset.column_type(group_by_column_name);
    let columns = vec![
        (group_by_column_name.clone(), group_by_column_type),
        (query.get_aggregate().get_result_column_name(), ColumnType::Integer),
    ];
    let mut result = Dataset::new(columns);
    let ghost answer = spec_query(dataset@, query@);
    assert(result@.columns =~= answer.columns);
    let n = aggregated.len();
    for i in 0..n
        invariant
            n == aggregated@.len(),
            answer == spec_query(dataset@, query@),
            pairs_view(aggregated@) == spec_aggregate(query_groups(dataset@, query@), query@.aggregate),
            result@.columns == answer.columns,
            result@.rows == answer.rows.take(i as int),
            forall|j: int|
                0 <= j < group_keys(filtered@.rows, column_pos(dataset@.columns, query@.group_by)).len()
                    ==> value_has_type(
                    #[trigger] group_keys(filtered@.rows, column_pos(dataset@.columns, query@.group_by))[j],
                    answer.columns[0].1,
                ),
            query_groups(dataset@, query@) == spec_group_by(filtered@, query@.group_by),
            filtered@.columns == dataset@.columns,
    {
        let (key, value) = &aggregated[i];
        let row = Row::new(vec![key.copy(), value.copy()]);
        proof {
            let p = pairs_view(aggregated@)[i as int];
            assert(p == (key@, value@));
            assert(row@ =~= seq![key@, value@]);
            assert(value_has_type(row@[0], answer.columns[0].1));
            assert(row_fits(result@.columns, row@));
        }
        result.add_row(row);
        assert(answer.rows.take(i + 1) =~= answer.rows.take(i as int).push(answer.rows[i as int]));
    }
    assert(answer.rows.take(n as int) =~= answer.rows);
    result
}


// ---------------------------------------------------------------------------------------------
// Laws
// ---------------------------------------------------------------------------------------------

proof fn lemma_filter_twice<A>(s: Seq<A>, p: spec_fn(A) -> bool)
    ensures
        s.filter(p).filter(p) == s.filter(p),
    decreases s.len(),
{
    if s.len() > 0 {
        let t = s.drop_last();
        let x = s.last();
        assert(s =~= t.push(x));
        lemma_filter_twice(t, p);
        t.lemma_filter_push(x, p);
        if p(x) {
            t.filter(p).lemma_filter_push(x, p);
        }
    }
}

proof fn lemma_filter_both<A>(s: Seq<A>, p: spec_fn(A) -> bool, q: spec_fn(A) -> bool, pq: spec_fn(A) -> bool)
    requires
        forall|x: A| #[trigger] pq(x) == (p(x) && q(x)),
    ensures
        s.filter(pq) == s.filter(p).filter(q),
    decreases s.len(),
{
    if s.len() > 0 {
        let t = s.drop_last();
        let x = s.last();
        assert(s =~= t.push(x));
        lemma_filter_both(t, p, q, pq);
        t.lemma_filter_push(x, pq);
        t.lemma_filter_push(x, p);
        if p(x) {
            t.filter(p).lemma_filter_push(x, q);
        }
    }
}

proof fn lemma_filter_split<A>(s: Seq<A>, p: spec_fn(A) -> bool, np: spec_fn(A) -> bool)
    requires
        forall|x: A| #[trigger] np(x) == !p(x),
    ensures
        s.filter(p).len() + s.filter(np).len() == s.len(),
    decreases s.len(),
{
    if s.len() > 0 {
        let t = s.drop_last();
        let x = s.last();
        assert(s =~= t.push(x));
        lemma_filter_split(t, p, np);
        t.lemma_filter_push(x, p);
        t.lemma_filter_push(x, np);
    }
}

/// Filtering twice by the same condition keeps what filtering once keeps.
pub proof fn law_filter_idempotent(d: SpecDataset, c: SpecCondition)
    ensures
        spec_filter(spec_filter(d, c), c) == spec_filter(d, c),
{
    lemma_filter_twice(d.rows, matches_pred(d.columns, c));
}

/// Filtering by `(a AND b)` keeps the rows that filtering by `a`, then by `b`, keeps.
pub proof fn law_filter_and(d: SpecDataset, a: SpecCondition, b: SpecCondition)
    ensures
        spec_filter(d, SpecCondition::And(Box::new(a), Box::new(b))) == spec_filter(
            spec_filter(d, a),
            b,
        ),
{
    let c = SpecCondition::And(Box::new(a), Box::new(b));
    assert forall|r: Seq<SpecValue>| #[trigger] matches_pred(d.columns, c)(r) == (matches_pred(
        d.columns,
        a,
    )(r) && matches_pred(d.columns, b)(r)) by {}
    lemma_filter_both(
        d.rows,
        matches_pred(d.columns, a),
        matches_pred(d.columns, b),
        matches_pred(d.columns, c),
    );
}

/// Every row satisfies either a condition or its negation: the rows that a filter keeps and
/// the rows that the negated filter keeps together number the rows of the dataset.
pub proof fn law_filter_not_complements(d: SpecDataset, c: SpecCondition)
    ensures
        spec_filter(d, c).rows.len() + spec_filter(d, SpecCondition::Not(Box::new(c))).rows.len()
            == d.rows.len(),
{
    let n = SpecCondition::Not(Box::new(c));
    assert forall|r: Seq<SpecValue>| #[trigger] matches_pred(d.columns, n)(r) == !matches_pred(
        d.columns,
        c,
    )(r) by {}
    lemma_filter_split(d.rows, matches_pred(d.columns, c), matches_pred(d.columns, n));
}


/// Filtering by `(a OR b)` keeps the rows that filtering by `!((!(a) AND !(b)))` keeps: a row
/// satisfies `a OR b` exactly when it fails neither side.
pub proof fn law_filter_or(d: SpecDataset, a: SpecCondition, b: SpecCondition)
    ensures
        spec_filter(d, SpecCondition::Or(Box::new(a), Box::new(b))) == spec_filter(
            d,
            SpecCondition::Not(
                Box::new(
                    SpecCondition::And(
                        Box::new(SpecCondition::Not(Box::new(a))),
                        Box::new(SpecCondition::Not(Box::new(b))),
                    ),
                ),
            ),
        ),
{
    let c = SpecCondition::Or(Box::new(a), Box::new(b));
    let e = SpecCondition::Not(
        Box::new(
            SpecCondition::And(
                Box::new(SpecCondition::Not(Box::new(a))),
                Box::new(SpecCondition::Not(Box::new(b))),
            ),
        ),
    );
    assert forall|r: Seq<SpecValue>| #[trigger] matches_pred(d.columns, c)(r) == matches_pred(
        d.columns,
        e,
    )(r) by {
        let na = SpecCondition::Not(Box::new(a));
        let nb = SpecCondition::Not(Box::new(b));
        let both = SpecCondition::And(Box::new(na), Box::new(nb));
        assert(row_matches_spec(d.columns, r, na) == !row_matches_spec(d.columns, r, a));
        assert(row_matches_spec(d.columns, r, nb) == !row_matches_spec(d.columns, r, b));
        assert(row_matches_spec(d.columns, r, both) == (row_matches_spec(d.columns, r, na)
            && row_matches_spec(d.columns, r, nb)));
    }
    assert(matches_pred(d.columns, c) =~= matches_pred(d.columns, e));
}

/// No value occurs twice in `s`.
pub open spec fn distinct_values(s: Seq<SpecValue>) -> bool {
    forall|i: int, j: int| 0 <= i < j < s.len() ==> s[i] != s[j]
}

/// The number of rows over all groups.
pub open spec fn grouped_row_count(groups: Seq<(SpecValue, SpecDataset)>) -> int
    decreases groups.len(),
{
    if groups.len() == 0 {
        0
    } else {
        grouped_row_count(groups.drop_last()) + groups.last().1.rows.len()
    }
}

/// The number of rows holding each of `keys` in column `col`, added up over the keys.
spec fn key_counts(rows: Seq<Seq<SpecValue>>, col: int, keys: Seq<SpecValue>) -> int
    decreases keys.len(),
{
    if keys.len() == 0 {
        0
    } else {
        key_counts(rows, col, keys.drop_last()) + rows.filter(key_pred(col, keys.last())).len()
    }
}

/// How often `v` occurs in `s`.
spec fn occurrences(s: Seq<SpecValue>, v: SpecValue) -> int
    decreases s.len(),
{
    if s.len() == 0 {
        0
    } else {
        occurrences(s.drop_last(), v) + if s.last() == v {
            1int
        } else {
            0int
        }
    }
}

proof fn lemma_occurs_once(s: Seq<SpecValue>, v: SpecValue)
    requires
        distinct_values(s),
    ensures
        occurrences(s, v) == if s.contains(v) {
            1int
        } else {
            0int
        },
    decreases s.len(),
{
    if s.len() > 0 {
        let t = s.drop_last();
        assert(distinct_values(t));
        lemma_occurs_once(t, v);
        if s.last() == v {
            if t.contains(v) {
                let i = choose|i: int| 0 <= i < t.len() && t[i] == v;
                assert(s[i] == s[s.len() - 1]);
            }
        } else {
            if s.contains(v) {
                let i = choose|i: int| 0 <= i < s.len() && s[i] == v;
                assert(t[i] == v);
            }
        }
    }
}

proof fn lemma_key_counts_push(t: Seq<Seq<SpecValue>>, x: Seq<SpecValue>, col: int, keys: Seq<SpecValue>)
    ensures
        key_counts(t.push(x), col, keys) == key_counts(t, col, keys) + occurrences(keys, x[col]),
    decreases keys.len(),
{
    if keys.len() > 0 {
        lemma_key_counts_push(t, x, col, keys.drop_last());
        t.lemma_filter_push(x, key_pred(col, keys.last()));
    }
}

proof fn lemma_key_counts_cover(rows: Seq<Seq<SpecValue>>, col: int, keys: Seq<SpecValue>)
    requires
        distinct_values(keys),
        forall|i: int| 0 <= i < rows.len() ==> keys.contains((#[trigger] rows[i])[col]),
    ensures
        key_counts(rows, col, keys) == rows.len(),
    decreases rows.len(),
{
    if rows.len() == 0 {
        lemma_key_counts_empty(col, keys);
    } else {
        let t = rows.drop_last();
        let x = rows.last();
        assert(rows =~= t.push(x));
        assert forall|i: int| 0 <= i < t.len() implies keys.contains((#[trigger] t[i])[col]) by {
            assert(rows[i] == t[i]);
        }
        lemma_key_counts_cover(t, col, keys);
        lemma_key_counts_push(t, x, col, keys);
        assert(keys.contains(rows[rows.len() - 1][col]));
        lemma_occurs_once(keys, x[col]);
    }
}

proof fn lemma_key_counts_empty(col: int, keys: Seq<SpecValue>)
    ensures
        key_counts(Seq::empty(), col, keys) == 0,
    decreases keys.len(),
{
    if keys.len() > 0 {
        lemma_key_counts_empty(col, keys.drop_last());
        reveal(Seq::filter);
    }
}

/// The keys of a grouping are distinct, and every row's key is among them.
pub proof fn lemma_group_keys_distinct_cover(rows: Seq<Seq<SpecValue>>, col: int)
    ensures
        distinct_values(group_keys(rows, col)),
        forall|i: int| 0 <= i < rows.len() ==> group_keys(rows, col).contains((#[trigger] rows[i])[col]),
    decreases rows.len(),
{
    if rows.len() > 0 {
        let t = rows.drop_last();
        lemma_group_keys_distinct_cover(t, col);
        let kt = group_keys(t, col);
        let k = group_keys(rows, col);
        let x = rows.last()[col];
        assert forall|i: int| 0 <= i < rows.len() implies k.contains((#[trigger] rows[i])[col]) by {
            if i < t.len() {
                assert(rows[i] == t[i]);
                assert(kt.contains(t[i][col]));
                if !kt.contains(x) {
                    let j = choose|j: int| 0 <= j < kt.len() && kt[j] == t[i][col];
                    assert(k[j] == kt[j]);
                }
            } else {
                if !kt.contains(x) {
                    assert(k[kt.len() as int] == x);
                }
            }
        }
    }
}

proof fn lemma_grouped_row_count(d: SpecDataset, col: int, keys: Seq<SpecValue>)
    ensures
        grouped_row_count(keys.map_values(|k: SpecValue| (k, rows_with_key(d, col, k))))
            == key_counts(d.rows, col, keys),
    decreases keys.len(),
{
    if keys.len() > 0 {
        let f = |k: SpecValue| (k, rows_with_key(d, col, k));
        assert(keys.map_values(f).drop_last() =~= keys.drop_last().map_values(f));
        lemma_grouped_row_count(d, col, keys.drop_last());
    }
}

/// Grouping neither loses nor repeats a row: the groups have distinct keys, every row of the
/// dataset belongs to the group of its key, every row of a group holds the group's key, and the
/// groups' rows number the dataset's rows.
pub proof fn law_group_by_partitions(d: SpecDataset, name: Seq<char>)
    ensures
        ({
            let groups = spec_group_by(d, name);
            let col = column_pos(d.columns, name);
            &&& forall|i: int, j: int|
                0 <= i < j < groups.len() ==> (#[trigger] groups[i]).0 != (#[trigger] groups[j]).0
            &&& forall|r: int|
                0 <= r < d.rows.len() ==> exists|i: int|
                    0 <= i < groups.len() && (#[trigger] groups[i]).0 == (#[trigger] d.rows[r])[col]
            &&& forall|i: int, r: int|
                0 <= i < groups.len() && 0 <= r < groups[i].1.rows.len() ==> (#[trigger] groups[
                    i
                ].1.rows[r])[col] == groups[i].0
            &&& grouped_row_count(groups) == d.rows.len()
        }),
{
    let groups = spec_group_by(d, name);
    let col = column_pos(d.columns, name);
    let keys = group_keys(d.rows, col);
    lemma_group_keys_distinct_cover(d.rows, col);
    assert forall|i: int, j: int| 0 <= i < j < groups.len() implies (#[trigger] groups[i]).0
        != (#[trigger] groups[j]).0 by {
        assert(keys[i] != keys[j]);
    }
    assert forall|r: int| 0 <= r < d.rows.len() implies exists|i: int|
        0 <= i < groups.len() && (#[trigger] groups[i]).0 == (#[trigger] d.rows[r])[col] by {
        assert(keys.contains(d.rows[r][col]));
        let i = choose|i: int| 0 <= i < keys.len() && keys[i] == d.rows[r][col];
        assert(groups[i].0 == keys[i]);
    }
    assert forall|i: int, r: int|
        0 <= i < groups.len() && 0 <= r < groups[i].1.rows.len() implies (#[trigger] groups[
        i
    ].1.rows[r])[col] == groups[i].0 by {
        d.rows.lemma_filter_pred(key_pred(col, keys[i]), r);
    }
    lemma_grouped_row_count(d, col, keys);
    lemma_key_counts_cover(d.rows, col, keys);
}


/// The integers of the second values of the pairs, added up.
pub open spec fn summary_total(pairs: Seq<(SpecValue, SpecValue)>) -> int
    decreases pairs.len(),
{
    if pairs.len() == 0 {
        0
    } else {
        summary_total(pairs.drop_last()) + int_of(pairs.last().1)
    }
}

proof fn lemma_count_totals(groups: Seq<(SpecValue, SpecDataset)>, a: SpecAggregation)
    requires
        a is Count,
        forall|i: int| 0 <= i < groups.len() ==> (#[trigger] groups[i]).1.rows.len() <= i32::MAX,
    ensures
        summary_total(spec_aggregate(groups, a)) == grouped_row_count(groups),
    decreases groups.len(),
{
    if groups.len() > 0 {
        let t = groups.drop_last();
        assert(spec_aggregate(groups, a).drop_last() =~= spec_aggregate(t, a));
        assert forall|i: int| 0 <= i < t.len() implies (#[trigger] t[i]).1.rows.len() <= i32::MAX by {
            assert(t[i] == groups[i]);
        }
        lemma_count_totals(t, a);
        assert(groups.last().1.rows.len() <= i32::MAX);
    }
}

/// A counting query counts every row that passes its filter once: its counts add up to the
/// number of filtered rows (where every count fits in `i32`).
pub proof fn law_counts_add_up(d: SpecDataset, q: SpecQuery)
    requires
        q.aggregate is Count,
        forall|i: int|
            0 <= i < query_groups(d, q).len() ==> (#[trigger] query_groups(d, q)[i]).1.rows.len()
                <= i32::MAX,
    ensures
        summary_total(spec_aggregate(query_groups(d, q), q.aggregate)) == spec_filter(
            d,
            q.filter,
        ).rows.len(),
{
    lemma_count_totals(query_groups(d, q), q.aggregate);
    law_group_by_partitions(spec_filter(d, q.filter), q.group_by);
}


/// The sums of column `vcol` over the rows holding each of `keys` in column `col`, added up
/// over the keys.
spec fn key_sums(rows: Seq<Seq<SpecValue>>, col: int, keys: Seq<SpecValue>, vcol: int) -> int
    decreases keys.len(),
{
    if keys.len() == 0 {
        0
    } else {
        key_sums(rows, col, keys.drop_last(), vcol) + column_sum(
            rows.filter(key_pred(col, keys.last())),
            vcol,
        )
    }
}

proof fn lemma_key_sums_push(
    t: Seq<Seq<SpecValue>>,
    x: Seq<SpecValue>,
    col: int,
    keys: Seq<SpecValue>,
    vcol: int,
)
    ensures
        key_sums(t.push(x), col, keys, vcol) == key_sums(t, col, keys, vcol) + occurrences(
            keys,
            x[col],
        ) * int_of(x[vcol]),
    decreases keys.len(),
{
    if keys.len() > 0 {
        lemma_key_sums_push(t, x, col, keys.drop_last(), vcol);
        t.lemma_filter_push(x, key_pred(col, keys.last()));
        let f = t.filter(key_pred(col, keys.last()));
        assert(f.push(x).drop_last() =~= f);
        let o = occurrences(keys.drop_last(), x[col]);
        if keys.last() == x[col] {
            assert((o + 1) * int_of(x[vcol]) == o * int_of(x[vcol]) + int_of(x[vcol]))
                by (nonlinear_arith);
        }
    }
}

proof fn lemma_key_sums_empty(col: int, keys: Seq<SpecValue>, vcol: int)
    ensures
        key_sums(Seq::empty(), col, keys, vcol) == 0,
    decreases keys.len(),
{
    if keys.len() > 0 {
        lemma_key_sums_empty(col, keys.drop_last(), vcol);
        reveal(Seq::filter);
    }
}

proof fn lemma_key_sums_cover(rows: Seq<Seq<SpecValue>>, col: int, keys: Seq<SpecValue>, vcol: int)
    requires
        distinct_values(keys),
        forall|i: int| 0 <= i < rows.len() ==> keys.contains((#[trigger] rows[i])[col]),
    ensures
        key_sums(rows, col, keys, vcol) == column_sum(rows, vcol),
    decreases rows.len(),
{
    if rows.len() == 0 {
        lemma_key_sums_empty(col, keys, vcol);
    } else {
        let t = rows.drop_last();
        let x = rows.last();
        assert(rows =~= t.push(x));
        assert forall|i: int| 0 <= i < t.len() implies keys.contains((#[trigger] t[i])[col]) by {
            assert(rows[i] == t[i]);
        }
        lemma_key_sums_cover(t, col, keys, vcol);
        lemma_key_sums_push(t, x, col, keys, vcol);
        assert(keys.contains(rows[rows.len() - 1][col]));
        lemma_occurs_once(keys, x[col]);
    }
}

proof fn lemma_sum_totals(d: SpecDataset, col: int, keys: Seq<SpecValue>, c: Seq<char>)
    requires
        forall|i: int|
            0 <= i < keys.len() ==> can_aggregate(
                rows_with_key(d, col, #[trigger] keys[i]),
                SpecAggregation::Sum(c),
            ),
    ensures
        summary_total(
            spec_aggregate(
                keys.map_values(|k: SpecValue| (k, rows_with_key(d, col, k))),
                SpecAggregation::Sum(c),
            ),
        ) == key_sums(d.rows, col, keys, column_pos(d.columns, c)),
    decreases keys.len(),
{
    if keys.len() > 0 {
        let f = |k: SpecValue| (k, rows_with_key(d, col, k));
        let a = SpecAggregation::Sum(c);
        let t = keys.drop_last();
        assert(keys.map_values(f).drop_last() =~= t.map_values(f));
        assert(spec_aggregate(keys.map_values(f), a).drop_last() =~= spec_aggregate(
            t.map_values(f),
            a,
        ));
        assert forall|i: int| 0 <= i < t.len() implies can_aggregate(
            rows_with_key(d, col, #[trigger] t[i]),
            a,
        ) by {
            assert(t[i] == keys[i]);
        }
        lemma_sum_totals(d, col, t, c);
        let g = rows_with_key(d, col, keys.last());
        assert(can_aggregate(g, a));
        let vcol = column_pos(d.columns, c);
        assert(g.rows.take(g.rows.len() as int) =~= g.rows);
    }
}

/// A summing query adds every row that passes its filter once: its sums add up to the sum of
/// the column over the filtered rows (where every group's sum fits in `i32`).
pub proof fn law_sums_add_up(d: SpecDataset, q: SpecQuery)
    requires
        q.aggregate is Sum,
        forall|i: int|
            0 <= i < query_groups(d, q).len() ==> can_aggregate(
                (#[trigger] query_groups(d, q)[i]).1,
                q.aggregate,
            ),
    ensures
        summary_total(spec_aggregate(query_groups(d, q), q.aggregate)) == column_sum(
            spec_filter(d, q.filter).rows,
            column_pos(d.columns, aggregation_column(q.aggregate)),
        ),
{
    let f = spec_filter(d, q.filter);
    let col = column_pos(f.columns, q.group_by);
    let keys = group_keys(f.rows, col);
    let c = aggregation_column(q.aggregate);
    assert(q.aggregate == SpecAggregation::Sum(c));
    assert forall|i: int| 0 <= i < keys.len() implies can_aggregate(
        rows_with_key(f, col, #[trigger] keys[i]),
        SpecAggregation::Sum(c),
    ) by {
        assert(query_groups(d, q)[i] == (keys[i], rows_with_key(f, col, keys[i])));
    }
    lemma_sum_totals(f, col, keys, c);
    lemma_group_keys_distinct_cover(f.rows, col);
    lemma_key_sums_cover(f.rows, col, keys, column_pos(f.columns, c));
}

/// An `==` condition holds of a row exactly when the row holds the expected value in the first
/// column of that name (at position `i`).
pub proof fn law_equal_condition(
    columns: Seq<(Seq<char>, ColumnType)>,
    row: Seq<SpecValue>,
    name: Seq<char>,
    v: SpecValue,
    i: int,
)
    requires
        is_first_column(columns, name, i),
    ensures
        row_matches_spec(columns, row, SpecCondition::Equal(name, v)) == (row[i] == v),
{
    lemma_column_pos(columns, name);
}

/// Filtering by `name == v` keeps, in order, exactly the rows whose value in the column `name`
/// (the first of that name, at position `i`) is `v`, and keeps the columns.
pub proof fn law_filter_equal(d: SpecDataset, name: Seq<char>, v: SpecValue, i: int)
    requires
        is_first_column(d.columns, name, i),
    ensures
        spec_filter(d, SpecCondition::Equal(name, v)).columns == d.columns,
        spec_filter(d, SpecCondition::Equal(name, v)).rows == d.rows.filter(
            |r: Seq<SpecValue>| r[i] == v,
        ),
{
    lemma_column_pos(d.columns, name);
    assert(matches_pred(d.columns, SpecCondition::Equal(name, v)) =~= (|r: Seq<SpecValue>| r[i]
        == v));
}

/// The average of a group is its column sum divided by its number of rows, rounded towards zero:
/// the average times the number of rows falls short of a non-negative sum, or exceeds a negative
/// one, by less than the number of rows.
pub proof fn law_average_rounds_towards_zero(g: SpecDataset, c: Seq<char>)
    requires
        can_aggregate(g, SpecAggregation::Average(c)),
    ensures
        ({
            let s = column_sum(g.rows, column_pos(g.columns, c));
            let n = g.rows.len() as int;
            let a = int_of(spec_aggregate_group(g, SpecAggregation::Average(c)));
            &&& 0 <= s ==> a * n <= s < a * n + n
            &&& s < 0 ==> a * n - n < s <= a * n
        }),
{
    let col = column_pos(g.columns, c);
    let s = column_sum(g.rows, col);
    let n = g.rows.len() as int;
    assert(g.rows.take(n) =~= g.rows);
    assert(i32::MIN <= column_sum(g.rows.take(n), col) <= i32::MAX);
    assert(i32::MIN <= s <= i32::MAX);
    let q = trunc_div(s, n);
    if 0 <= s {
        assert(q == s / n);
        assert(n * (s / n) <= s < n * (s / n) + n && 0 <= s / n <= s) by (nonlinear_arith)
            requires
                0 <= s,
                0 < n,
        ;
        assert(i32::MIN <= q <= i32::MAX);
        assert((q as i32) as int == q);
        assert(q * n == n * q) by (nonlinear_arith);
    } else {
        let t = -s;
        assert(q == -(t / n));
        assert(n * (t / n) <= t < n * (t / n) + n && 0 <= t / n <= t) by (nonlinear_arith)
            requires
                0 < t,
                0 < n,
        ;
        assert(i32::MIN <= q <= i32::MAX);
        assert((q as i32) as int == q);
        assert(q * n == -(n * (t / n))) by (nonlinear_arith)
            requires
                q == -(t / n),
        ;
    }
}

// ---------------------------------------------------------------------------------------------
// Checking that a query can run
// ---------------------------------------------------------------------------------------------

/// Whether the condition can be evaluated on the row (see `can_evaluate`).
fn can_evaluate_row(row: &Row, dataset: &Dataset, condition: &Condition) -> (res: bool)
    ensures
        res == can_evaluate(dataset@.columns, row@, condition@),
    decreases condition,
{
    match condition {
        Condition::Equal(col_name, _) => {
            match dataset.find_column(col_name) {
                Some(i) => {
                    proof {
                        lemma_column_pos(dataset@.columns, col_name@);
                    }
                    i < row.len()
                },
                None => {
                    proof {
                        lemma_column_pos(dataset@.columns, col_name@);
                    }
                    false
                },
            }
        },
        Condition::Not(inner) => can_evaluate_row(row, dataset, inner),
        Condition::And(left, right) => {
            if !can_evaluate_row(row, dataset, left) {
                false
            } else if row_matches(row, dataset, left) {
                can_evaluate_row(row, dataset, right)
            } else {
                true
            }
        },
        Condition::Or(left, right) => {
            if !can_evaluate_row(row, dataset, left) {
                false
            } else if !row_matches(row, dataset, left) {
                can_evaluate_row(row, dataset, right)
            } else {
                true
            }
        },
    }
}

/// Whether the condition can be evaluated on every row of the dataset.
pub fn check_condition(dataset: &Dataset, condition: &Condition) -> (res: bool)
    ensures
        res == condition_applies(dataset@, condition@),
{
    let n = dataset.len();
    for i in 0..n
        invariant
            n == dataset@.rows.len(),
            forall|j: int|
                0 <= j < i ==> can_evaluate(dataset@.columns, #[trigger] dataset@.rows[j], condition@),
    {
        if !can_evaluate_row(dataset.get_row(i), dataset, condition) {
            return false;
        }
    }
    true
}

/// Whether the aggregation can summarise the group (see `can_aggregate`).
pub fn check_aggregation(group: &Dataset, aggregation: &Aggregation) -> (res: bool)
    ensures
        res == can_aggregate(group@, aggregation@),
{
    proof {
        use_type_invariant(group);
    }
    let col_name = match aggregation {
        Aggregation::Count(_) => {
            return true;
        },
        Aggregation::Sum(c) => c,
        Aggregation::Average(c) => c,
    };
    let col = match group.find_column(col_name) {
        Some(i) => i,
        None => {
            return false;
        },
    };
    proof {
        lemma_column_pos(group@.columns, col_name@);
    }
    assert(aggregation@ == SpecAggregation::Sum(col_name@) || aggregation@
        == SpecAggregation::Average(col_name@));
    let ghost rows = group@.rows;
    let n = group.len();
    let mut sum: i64 = 0;
    assert(rows.take(0) =~= Seq::<Seq<SpecValue>>::empty());
    for i in 0..n
        invariant
            n == rows.len(),
            rows == group@.rows,
            group@.wf(),
            col == column_pos(group@.columns, col_name@),
            col < group@.columns.len(),
            aggregation@ == SpecAggregation::Sum(col_name@) || aggregation@
                == SpecAggregation::Average(col_name@),
            forall|j: int| 0 <= j < i ==> (#[trigger] rows[j])[col as int] is Int,
            forall|k: int|
                0 <= k <= i ==> i32::MIN <= #[trigger] column_sum(rows.take(k), col as int)
                    <= i32::MAX,
            sum == column_sum(rows.take(i as int), col as int),
    {
        let row = group.get_row(i);
        assert(row_fits(group@.columns, rows[i as int]));
        proof {
            let t = rows.take(i + 1);
            assert(t.drop_last() =~= rows.take(i as int));
            assert(t.last() == rows[i as int]);
        }
        match row.get_value(col) {
            Value::Integer(v) => {
                sum = sum + *v as i64;
                if sum < i32::MIN as i64 || sum > i32::MAX as i64 {
                    assert(!sums_fit_i32(rows, col as int)) by {
                        assert(column_sum(rows.take(i + 1), col as int) == sum);
                    }
                    return false;
                }
            },
            Value::String(_) => {
                assert(!all_integers(rows, col as int)) by {
                    assert(!(rows[i as int][col as int] is Int));
                }
                return false;
            },
        }
    }
    assert(rows.take(n as int) =~= rows);
    match aggregation {
        Aggregation::Average(_) => n > 0 && n <= i32::MAX as usize,
        _ => true,
    }
}

/// Whether the query can run on the dataset (see `query_applies`).
pub fn check_query(dataset: &Dataset, query: &Query) -> (res: bool)
    ensures
        res == query_applies(dataset@, query@),
{
    if !check_condition(dataset, query.get_filter()) {
        return false;
    }
    if dataset.find_column(query.get_group_by()).is_none() {
        return false;
    }
    let filtered = filter_dataset(dataset, query.get_filter());
    let groups = group_by_dataset(filtered, query.get_group_by());
    let ghost qg = query_groups(dataset@, query@);
    let n = groups.len();
    for i in 0..n
        invariant
            n == groups@.len(),
            groups_view(groups@) == qg,
            qg == query_groups(dataset@, query@),
            forall|j: int| 0 <= j < i ==> can_aggregate((#[trigger] qg[j]).1, query@.aggregate),
    {
        assert(groups_view(groups@)[i as int].1 == groups@[i as int].1@);
        if !check_aggregation(&groups[i].1, query.get_aggregate()) {
            return false;
        }
    }
    true
}

/// Runs the query where it can run on the dataset, and returns `None` where it cannot.
pub fn try_compute_query_on_dataset(dataset: &Dataset, query: &Query) -> (res: Option<Dataset>)
    ensures
        match res {
            Some(r) => query_applies(dataset@, query@) && r@ == spec_query(dataset@, query@),
            None => !query_applies(dataset@, query@),
        },
{
    if check_query(dataset, query) {
        Some(compute_query_on_dataset(dataset, query))
    } else {
        None
    }
}

} // verus!
