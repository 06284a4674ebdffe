use vstd::prelude::*;

use crate::dataset::{SpecValue, Value};
use crate::text::{chars_of, push_char, push_chars};

verus! {

/// A condition on the rows of a dataset.
#[derive(Debug)]
pub enum Condition {
    /// The named column holds the value.
    Equal(String, Value),
    Not(Box<Condition>),
    And(Box<Condition>, Box<Condition>),
    Or(Box<Condition>, Box<Condition>),
}

/// The mathematical value of a condition.
pub enum SpecCondition {
    Equal(Seq<char>, SpecValue),
    Not(Box<SpecCondition>),
    And(Box<SpecCondition>, Box<SpecCondition>),
    Or(Box<SpecCondition>, Box<SpecCondition>),
}

pub open spec fn condition_view(c: Condition) -> SpecCondition
    decreases c,
{
    match c {
        Condition::Equal(name, v) => SpecCondition::Equal(name@, v@),
        Condition::Not(inner) => SpecCondition::Not(Box::new(condition_view(*inner))),
        Condition::And(l, r) => SpecCondition::And(
            Box::new(condition_view(*l)),
            Box::new(condition_view(*r)),
        ),
        Condition::Or(l, r) => SpecCondition::Or(
            Box::new(condition_view(*l)),
            Box::new(condition_view(*r)),
        ),
    }
}

impl View for Condition {
    type V = SpecCondition;

    open spec fn view(&self) -> SpecCondition {
        condition_view(*self)
    }
}

/// How each group of rows is summarised: each variant names the column it reads.
#[derive(Debug)]
pub enum Aggregation {
    Count(String),
    Sum(String),
    Average(String),
}

pub enum SpecAggregation {
    Count(Seq<char>),
    Sum(Seq<char>),
    Average(Seq<char>),
}

impl View for Aggregation {
    type V = SpecAggregation;

    open spec fn view(&self) -> SpecAggregation {
        match self {
            Aggregation::Count(c) => SpecAggregation::Count(c@),
            Aggregation::Sum(c) => SpecAggregation::Sum(c@),
            Aggregation::Average(c) => SpecAggregation::Average(c@),
        }
    }
}

/// The name of the column that holds an aggregation's results, such as `Count(name)`.
pub open spec fn result_column_name(a: SpecAggregation) -> Seq<char> {
    match a {
        SpecAggregation::Count(c) => seq!['C', 'o', 'u', 'n', 't', '('] + c + seq![')'],
        SpecAggregation::Sum(c) => seq!['S', 'u', 'm', '('] + c + seq![')'],
        SpecAggregation::Average(c) => seq!['A', 'v', 'e', 'r', 'a', 'g', 'e', '('] + c + seq![')'],
    }
}

impl Aggregation {
    /// The name of the result column: the aggregation's name, then the column in brackets.
    pub fn get_result_column_name(&self) -> (name: String)
        ensures
            name@ == result_column_name(self@),
    {
        let (prefix, column): (Vec<char>, &String) = match self {
            Aggregation::Count(c) => (vec!['C', 'o', 'u', 'n', 't', '('], c),
            Aggregation::Sum(c) => (vec!['S', 'u', 'm', '('], c),
            Aggregation::Average(c) => (vec!['A', 'v', 'e', 'r', 'a', 'g', 'e', '('], c),
        };
        let mut name = String::new();
        push_chars(&mut name, &prefix);
        let col = chars_of(column.as_str());
        push_chars(&mut name, &col);
        push_char(&mut name, ')');
        proof {
            assert(prefix@ =~= match self@ {
                SpecAggregation::Count(_) => seq!['C', 'o', 'u', 'n', 't', '('],
                SpecAggregation::Sum(_) => seq!['S', 'u', 'm', '('],
                SpecAggregation::Average(_) => seq!['A', 'v', 'e', 'r', 'a', 'g', 'e', '('],
            });
        }
        name
    }
}

/// The column an aggregation reads.
pub open spec fn aggregation_column(a: SpecAggregation) -> Seq<char> {
    match a {
        SpecAggregation::Count(c) => c,
        SpecAggregation::Sum(c) => c,
        SpecAggregation::Average(c) => c,
    }
}

/// A query: keep the rows that satisfy a filter, group them by a column, and summarise
/// each group.
#[derive(Debug)]
pub struct Query {
    filter: Condition,
    group_by: String,
    aggregate: Aggregation,
}

pub struct SpecQuery {
    pub filter: SpecCondition,
    pub group_by: Seq<char>,
    pub aggregate: SpecAggregation,
}

impl View for Query {
    type V = SpecQuery;

    closed spec fn view(&self) -> SpecQuery {
        SpecQuery { filter: self.filter@, group_by: self.group_by@, aggregate: self.aggregate@ }
    }
}

impl Query {
    pub fn new(filter: Condition, group_by: String, aggregate: Aggregation) -> (q: Query)
        ensures
            q@ == (SpecQuery { filter: filter@, group_by: group_by@, aggregate: aggregate@ }),
    {
        Query { filter, group_by, aggregate }
    }

    pub fn get_filter(&self) -> (c: &Condition)
        ensures
            c@ == self@.filter,
    {
        &self.filter
    }

    pub fn get_group_by(&self) -> (g: &String)
        ensures
            g@ == self@.group_by,
    {
        &self.group_by
    }

    pub fn get_aggregate(&self) -> (a: &Aggregation)
        ensures
            a@ == self@.aggregate,
    {
        &self.aggregate
    }
}

} // verus!
