use course_projects::analytics::{
    aggregate_dataset, check_query, compute_query_on_dataset, filter_dataset, group_by_dataset,
    row_matches, try_compute_query_on_dataset,
};
use course_projects::dataset::{ColumnType, Dataset, Row, Value};
use course_projects::query::{Aggregation, Condition, Query};

fn s(x: &str) -> String {
    x.to_string()
}

fn sv(x: &str) -> Value {
    Value::String(x.to_string())
}

/// name, section, grade
fn students() -> Dataset {
    let mut d = Dataset::new(vec![
        (s("name"), ColumnType::String),
        (s("section"), ColumnType::String),
        (s("grade"), ColumnType::Integer),
    ]);
    let rows = [
        ("Ann", "A1", 90),
        ("Bob", "B1", 70),
        ("Cat", "A1", 80),
        ("Dan", "A2", 60),
        ("Eve", "B1", 75),
        ("Fay", "A1", 85),
    ];
    for (name, section, grade) in rows {
        d.add_row(Row::new(vec![sv(name), sv(section), Value::Integer(grade)]));
    }
    d
}

fn column(d: &Dataset, col: usize) -> Vec<Value> {
    (0..d.len()).map(|i| d.get_row(i).get_value(col).copy()).collect()
}

fn eq(col: &str, v: Value) -> Condition {
    Condition::Equal(s(col), v)
}

#[test]
fn row_matches_equal_not_and_or() {
    let d = students();
    let ann = d.get_row(0);
    assert!(row_matches(ann, &d, &eq("section", sv("A1"))));
    assert!(!row_matches(ann, &d, &eq("section", sv("B1"))));
    assert!(row_matches(ann, &d, &Condition::Not(Box::new(eq("section", sv("B1"))))));
    assert!(row_matches(
        ann,
        &d,
        &Condition::And(Box::new(eq("section", sv("A1"))), Box::new(eq("grade", Value::Integer(90))))
    ));
    assert!(!row_matches(
        ann,
        &d,
        &Condition::And(Box::new(eq("section", sv("A1"))), Box::new(eq("grade", Value::Integer(91))))
    ));
    assert!(row_matches(
        ann,
        &d,
        &Condition::Or(Box::new(eq("section", sv("B1"))), Box::new(eq("name", sv("Ann"))))
    ));
    // A string never equals an integer.
    assert!(!row_matches(ann, &d, &eq("grade", sv("90"))));
}

#[test]
fn row_matches_and_stops_after_a_false_left_side() {
    let d = students();
    let ann = d.get_row(0);
    // The right side names a column that does not exist; it is never read.
    let c = Condition::And(Box::new(eq("section", sv("B1"))), Box::new(eq("missing", sv("x"))));
    assert!(!row_matches(ann, &d, &c));
    let c = Condition::Or(Box::new(eq("section", sv("A1"))), Box::new(eq("missing", sv("x"))));
    assert!(row_matches(ann, &d, &c));
}

#[test]
fn filter_keeps_matching_rows_in_order() {
    let d = students();
    let f = filter_dataset(&d, &eq("section", sv("A1")));
    assert_eq!(f.len(), 3);
    assert_eq!(column(&f, 0), vec![sv("Ann"), sv("Cat"), sv("Fay")]);
    assert_eq!(f.columns().len(), 3);
    assert_eq!(f.columns()[2], (s("grade"), ColumnType::Integer));
}

#[test]
fn filter_is_idempotent() {
    let d = students();
    let c = eq("section", sv("B1"));
    let once = filter_dataset(&d, &c);
    let twice = filter_dataset(&once, &c);
    assert_eq!(column(&once, 0), column(&twice, 0));
}

#[test]
fn filter_by_and_is_filter_then_filter() {
    let d = students();
    let a = eq("section", sv("A1"));
    let b = Condition::Not(Box::new(eq("name", sv("Cat"))));
    let both = filter_dataset(&d, &Condition::And(Box::new(eq("section", sv("A1"))), Box::new(Condition::Not(Box::new(eq("name", sv("Cat")))))));
    let seq = filter_dataset(&filter_dataset(&d, &a), &b);
    assert_eq!(column(&both, 0), column(&seq, 0));
    assert_eq!(column(&both, 0), vec![sv("Ann"), sv("Fay")]);
}

#[test]
fn filter_and_negated_filter_split_the_rows() {
    let d = students();
    let c = eq("section", sv("A1"));
    let yes = filter_dataset(&d, &c);
    let no = filter_dataset(&d, &Condition::Not(Box::new(eq("section", sv("A1")))));
    assert_eq!(yes.len() + no.len(), d.len());
    assert_eq!(column(&no, 0), vec![sv("Bob"), sv("Dan"), sv("Eve")]);
}

#[test]
fn group_by_first_appearance_order() {
    let d = students();
    let groups = group_by_dataset(d, &s("section"));
    let keys: Vec<Value> = groups.iter().map(|g| g.0.copy()).collect();
    assert_eq!(keys, vec![sv("A1"), sv("B1"), sv("A2")]);
    assert_eq!(column(&groups[0].1, 0), vec![sv("Ann"), sv("Cat"), sv("Fay")]);
    assert_eq!(column(&groups[1].1, 0), vec![sv("Bob"), sv("Eve")]);
    assert_eq!(column(&groups[2].1, 0), vec![sv("Dan")]);
    let total: usize = groups.iter().map(|g| g.1.len()).sum();
    assert_eq!(total, 6);
}

#[test]
fn group_by_of_empty_dataset_has_no_groups() {
    let d = Dataset::new(vec![(s("a"), ColumnType::Integer)]);
    assert!(group_by_dataset(d, &s("a")).is_empty());
}

#[test]
fn aggregate_count_sum_average() {
    let groups = group_by_dataset(students(), &s("section"));
    let counts = aggregate_dataset(group_by_dataset(students(), &s("section")), &Aggregation::Count(s("name")));
    assert_eq!(counts, vec![
        (sv("A1"), Value::Integer(3)),
        (sv("B1"), Value::Integer(2)),
        (sv("A2"), Value::Integer(1)),
    ]);
    let sums = aggregate_dataset(groups, &Aggregation::Sum(s("grade")));
    assert_eq!(sums, vec![
        (sv("A1"), Value::Integer(255)),
        (sv("B1"), Value::Integer(145)),
        (sv("A2"), Value::Integer(60)),
    ]);
    let avgs = aggregate_dataset(group_by_dataset(students(), &s("section")), &Aggregation::Average(s("grade")));
    assert_eq!(avgs, vec![
        (sv("A1"), Value::Integer(85)),
        (sv("B1"), Value::Integer(72)),
        (sv("A2"), Value::Integer(60)),
    ]);
}

#[test]
fn average_rounds_towards_zero() {
    let mut d = Dataset::new(vec![(s("k"), ColumnType::String), (s("v"), ColumnType::Integer)]);
    d.add_row(Row::new(vec![sv("a"), Value::Integer(-7)]));
    d.add_row(Row::new(vec![sv("a"), Value::Integer(0)]));
    let avgs = aggregate_dataset(group_by_dataset(d, &s("k")), &Aggregation::Average(s("v")));
    assert_eq!(avgs, vec![(sv("a"), Value::Integer(-3))]);
}

#[test]
fn compute_query_example() {
    let d = students();
    let q = Query::new(
        Condition::Or(Box::new(eq("section", sv("A1"))), Box::new(eq("section", sv("B1")))),
        s("section"),
        Aggregation::Average(s("grade")),
    );
    assert!(check_query(&d, &q));
    let r = compute_query_on_dataset(&d, &q);
    assert_eq!(r.columns().len(), 2);
    assert_eq!(r.columns()[0], (s("section"), ColumnType::String));
    assert_eq!(r.columns()[1], (s("Average(grade)"), ColumnType::Integer));
    assert_eq!(r.len(), 2);
    assert_eq!(*r.get_row(0).get_value(0), sv("A1"));
    assert_eq!(*r.get_row(0).get_value(1), Value::Integer(85));
    assert_eq!(*r.get_row(1).get_value(0), sv("B1"));
    assert_eq!(*r.get_row(1).get_value(1), Value::Integer(72));
}

#[test]
fn counts_add_up_to_filtered_rows() {
    let d = students();
    let q = Query::new(Condition::Not(Box::new(eq("name", sv("Dan")))), s("section"), Aggregation::Count(s("name")));
    let r = compute_query_on_dataset(&d, &q);
    let total: i32 = (0..r.len())
        .map(|i| match r.get_row(i).get_value(1) {
            Value::Integer(n) => *n,
            _ => panic!("count is not an integer"),
        })
        .sum();
    assert_eq!(total, 5);
    assert_eq!(r.columns()[1].0, "Count(name)");
}

#[test]
fn result_column_names() {
    assert_eq!(Aggregation::Count(s("x")).get_result_column_name(), "Count(x)");
    assert_eq!(Aggregation::Sum(s("x")).get_result_column_name(), "Sum(x)");
    assert_eq!(Aggregation::Average(s("x")).get_result_column_name(), "Average(x)");
}

#[test]
fn queries_that_cannot_run_are_refused() {
    let d = students();
    // Missing filter column.
    let q = Query::new(eq("room", sv("1")), s("section"), Aggregation::Count(s("name")));
    assert!(!check_query(&d, &q));
    assert!(try_compute_query_on_dataset(&d, &q).is_none());
    // Missing grouping column.
    let q = Query::new(eq("section", sv("A1")), s("room"), Aggregation::Count(s("name")));
    assert!(try_compute_query_on_dataset(&d, &q).is_none());
    // Sum of a string column.
    let q = Query::new(eq("section", sv("A1")), s("section"), Aggregation::Sum(s("name")));
    assert!(try_compute_query_on_dataset(&d, &q).is_none());
    // Sum of a missing column.
    let q = Query::new(eq("section", sv("A1")), s("section"), Aggregation::Average(s("age")));
    assert!(try_compute_query_on_dataset(&d, &q).is_none());
    // Count never fails.
    let q = Query::new(eq("section", sv("A1")), s("section"), Aggregation::Count(s("age")));
    assert!(try_compute_query_on_dataset(&d, &q).is_some());
}

#[test]
fn sum_overflow_is_refused() {
    let mut d = Dataset::new(vec![(s("k"), ColumnType::String), (s("v"), ColumnType::Integer)]);
    d.add_row(Row::new(vec![sv("a"), Value::Integer(i32::MAX)]));
    d.add_row(Row::new(vec![sv("a"), Value::Integer(1)]));
    let q = Query::new(eq("k", sv("a")), s("k"), Aggregation::Sum(s("v")));
    assert!(try_compute_query_on_dataset(&d, &q).is_none());
    let q = Query::new(eq("k", sv("a")), s("k"), Aggregation::Count(s("v")));
    assert!(try_compute_query_on_dataset(&d, &q).is_some());
}

#[test]
fn empty_filter_result_gives_empty_answer() {
    let d = students();
    let q = Query::new(eq("section", sv("Z9")), s("section"), Aggregation::Sum(s("grade")));
    let r = try_compute_query_on_dataset(&d, &q).unwrap();
    assert_eq!(r.len(), 0);
    assert_eq!(r.columns().len(), 2);
}

#[test]
fn rows_must_fit_the_columns() {
    let mut d = Dataset::new(vec![(s("a"), ColumnType::String), (s("b"), ColumnType::Integer)]);
    assert!(!d.try_add_row(Row::new(vec![sv("x")])));
    assert!(!d.try_add_row(Row::new(vec![Value::Integer(1), Value::Integer(2)])));
    assert!(d.try_add_row(Row::new(vec![sv("x"), Value::Integer(2)])));
    assert_eq!(d.len(), 1);
    assert_eq!(d.column_index(&s("b")), 1);
    assert_eq!(d.column_type(&s("a")), ColumnType::String);
    assert_eq!(d.find_column(&s("c")), None);
}

#[test]
fn sums_add_up_to_filtered_total() {
    let d = students();
    let q = Query::new(Condition::Not(Box::new(eq("section", sv("A2")))), s("section"), Aggregation::Sum(s("grade")));
    let r = compute_query_on_dataset(&d, &q);
    let total: i32 = (0..r.len())
        .map(|i| match r.get_row(i).get_value(1) {
            Value::Integer(n) => *n,
            _ => panic!("sum is not an integer"),
        })
        .sum();
    assert_eq!(total, 90 + 70 + 80 + 75 + 85);
}
