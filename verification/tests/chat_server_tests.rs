use course_projects::analytics::compute_query_on_dataset;
use course_projects::chatbot::{history_after_prompt, session_file_name, session_source, SessionSource};
use course_projects::dataset::{ColumnType, Dataset, Row, Value};
use course_projects::query::{Aggregation, Condition, Query};
use course_projects::server::{fast_rpc, hello, slow_rpc};

#[test]
fn file_names() {
    assert_eq!(session_file_name(&"alice".to_string()), "alice.txt");
    assert_eq!(session_file_name(&String::new()), ".txt");
}

#[test]
fn history_drops_the_system_prompt() {
    let h = vec!["system".to_string(), "hi".to_string(), "hello!".to_string()];
    assert_eq!(history_after_prompt(h), vec!["hi".to_string(), "hello!".to_string()]);
    assert!(history_after_prompt(vec!["system".to_string()]).is_empty());
}

#[test]
fn session_sources() {
    assert_eq!(session_source(true, true), SessionSource::Cached);
    assert_eq!(session_source(true, false), SessionSource::Cached);
    assert_eq!(session_source(false, true), SessionSource::Saved);
    assert_eq!(session_source(false, false), SessionSource::Fresh);
}

fn data() -> Dataset {
    let mut d = Dataset::new(vec![("band".to_string(), ColumnType::String), ("rating".to_string(), ColumnType::Integer)]);
    for (b, r) in [("a", 3), ("b", 5), ("a", 4), ("c", 1)] {
        d.add_row(Row::new(vec![Value::String(b.to_string()), Value::Integer(r)]));
    }
    d
}

fn query() -> Query {
    Query::new(
        Condition::Not(Box::new(Condition::Equal("band".to_string(), Value::String("c".to_string())))),
        "band".to_string(),
        Aggregation::Sum("rating".to_string()),
    )
}

fn rows(d: &Dataset) -> Vec<Vec<Value>> {
    (0..d.len())
        .map(|i| {
            let r = d.get_row(i);
            (0..r.len()).map(|j| r.get_value(j).copy()).collect()
        })
        .collect()
}

#[test]
fn server_answers() {
    assert_eq!(hello(), "hello");
    let d = data();
    let copy = slow_rpc(&d);
    assert_eq!(rows(&copy), rows(&d));
    // The slow path (client queries the copy) and the fast path (server queries) agree.
    let slow = compute_query_on_dataset(&copy, &query());
    let fast = fast_rpc(&d, query());
    assert_eq!(rows(&slow), rows(&fast));
    assert_eq!(
        rows(&fast),
        vec![
            vec![Value::String("a".to_string()), Value::Integer(7)],
            vec![Value::String("b".to_string()), Value::Integer(5)],
        ]
    );
}
