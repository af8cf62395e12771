use crate::vector::{Metadata, MetadataValue};
use vstd::prelude::*;

verus! {

/// What a filter asks of one field: equality with a value, or a set of
/// operators.
#[derive(Debug)]
pub enum FilterValue {
    Direct(MetadataValue),
    Operator(FilterOperator),
}

/// The operators on one field. Those that are present must all hold.
#[derive(Debug)]
pub struct FilterOperator {
    /// `$ne`: the field is present and differs from the value.
    pub ne: Option<MetadataValue>,
    /// `$in`: the field is present and equals one of the values.
    pub in_values: Option<Vec<MetadataValue>>,
    /// `$nin`: the field is absent or equals none of the values.
    pub nin: Option<Vec<MetadataValue>>,
}

/// A where-clause: field names with what is asked of each. Every clause
/// must hold; the empty filter accepts everything.
pub type WhereFilter = Vec<(String, FilterValue)>;

/// Whether `value` equals one of `values`.
pub open spec fn contains_value(values: Seq<MetadataValue>, value: MetadataValue) -> bool {
    exists|i: int| 0 <= i < values.len() && value.matches(&#[trigger] values[i])
}

/// Whether a field, found or absent, satisfies the operators.
pub open spec fn operator_accepts(found: Option<MetadataValue>, op: FilterOperator) -> bool {
    &&& op.ne matches Some(v) ==> (found matches Some(x) && !x.matches(&v))
    &&& op.in_values matches Some(vs) ==> (found matches Some(x) && contains_value(vs@, x))
    &&& op.nin matches Some(vs) ==> (found matches Some(x) ==> !contains_value(vs@, x))
}

/// Whether a field, found or absent, satisfies one clause.
pub open spec fn clause_accepts(found: Option<MetadataValue>, clause: FilterValue) -> bool {
    match clause {
        FilterValue::Direct(expected) => found matches Some(x) && x.matches(&expected),
        FilterValue::Operator(op) => operator_accepts(found, op),
    }
}

/// The value that `metadata` binds to `key`, if any.
pub open spec fn field_of(metadata: Map<Seq<char>, MetadataValue>, key: Seq<char>) -> Option<
    MetadataValue,
> {
    if metadata.contains_key(key) {
        Some(metadata[key])
    } else {
        None
    }
}

/// Whether `metadata` satisfies every clause of `filter`.
pub open spec fn filter_accepts(
    metadata: Map<Seq<char>, MetadataValue>,
    filter: Seq<(String, FilterValue)>,
) -> bool {
    forall|i: int|
        0 <= i < filter.len() ==> clause_accepts(
            field_of(metadata, (#[trigger] filter[i]).0@),
            filter[i].1,
        )
}

/// Whether `value` equals one of `values`.
fn value_in(values: &Vec<MetadataValue>, value: &MetadataValue) -> (r: bool)
    ensures
        r == contains_value(values@, *value),
{
    let mut i: usize = 0;
    while i < values.len()
        invariant
            i <= values.len(),
            forall|j: int| 0 <= j < i ==> !value.matches(&#[trigger] values@[j]),
        decreases values.len() - i,
    {
        if *value == values[i] {
            return true;
        }
        i += 1;
    }
    false
}

/// Evaluates the operators of one clause on a field.
fn operator_matches(found: Option<&MetadataValue>, op: &FilterOperator) -> (r: bool)
    ensures
        r == operator_accepts(
            match found {
                Some(x) => Some(*x),
                None => None,
            },
            *op,
        ),
{
    if let Some(v) = &op.ne {
        match found {
            Some(x) => {
                if *x == *v {
                    return false;
                }
            },
            None => {
                return false;
            },
        }
    }
    if let Some(vs) = &op.in_values {
        match found {
            Some(x) => {
                if !value_in(vs, x) {
                    return false;
                }
            },
            None => {
                return false;
            },
        }
    }
    if let Some(vs) = &op.nin {
        if let Some(x) = found {
            if value_in(vs, x) {
                return false;
            }
        }
    }
    true
}

/// Whether `metadata` satisfies every clause of `filter`.
pub fn matches_filter(metadata: &Metadata, filter: &WhereFilter) -> (r: bool)
    ensures
        r == filter_accepts(metadata@, filter@),
{
    let mut i: usize = 0;
    while i < filter.len()
        invariant
            i <= filter.len(),
            forall|j: int|
                0 <= j < i ==> clause_accepts(
                    field_of(metadata@, (#[trigger] filter@[j]).0@),
                    filter@[j].1,
                ),
        decreases filter.len() - i,
    {
        let found = metadata.lookup(&filter[i].0);
        let holds = match &filter[i].1 {
            FilterValue::Direct(expected) => match found {
                Some(x) => *x == *expected,
                None => false,
            },
            FilterValue::Operator(op) => operator_matches(found, op),
        };
        if !holds {
            return false;
        }
        i += 1;
    }
    true
}

} // verus!
