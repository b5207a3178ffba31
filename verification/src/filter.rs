//! Boolean filter evaluator over point ids.
//!
//! A filter is a tree of conditions combined with `should` (at least one
//! matches), `must` (all match) and `must_not` (none matches) branches,
//! plus an optional nested-object branch that consults only the `must`
//! conditions of its inner filter, one level deep.

use vstd::prelude::*;

verus! {

/// One node of an optimized filter tree.
///
/// A `Checker` stands for the compiled per-point predicate of the
/// surrounding engine: point `id` matches when entry `id` of the table is
/// `true`, and ids beyond the table never match.
pub enum OptimizedCondition {
    Checker(Vec<bool>),
    /// Nested filter
    Filter(OptimizedFilter),
}

/// A condition tree over point ids.
pub struct OptimizedFilter {
    /// At least one of those conditions should match
    pub should: Option<Vec<OptimizedCondition>>,
    /// All conditions must match
    pub must: Option<Vec<OptimizedCondition>>,
    /// All conditions must NOT match
    pub must_not: Option<Vec<OptimizedCondition>>,
    /// Nested object filter
    pub nested: Option<Box<NestedOptimizedFilter>>,
}

/// Nested object filter: only the `must` branch of the inner filter is
/// consulted, and only leaf checkers are supported there.
pub struct NestedOptimizedFilter {
    pub path: String,
    pub filter: OptimizedFilter,
}

/// What a leaf checker says of one point id.
pub open spec fn checker_matches(table: Seq<bool>, point_id: u32) -> bool {
    (point_id as int) < table.len() && table[point_id as int]
}

/// What one condition says of one point id.
pub open spec fn condition_matches(condition: OptimizedCondition, point_id: u32) -> bool
    decreases condition,
{
    match condition {
        OptimizedCondition::Checker(table) => checker_matches(table@, point_id),
        OptimizedCondition::Filter(filter) => filter_matches(filter, point_id),
    }
}

/// A missing branch always matches; otherwise at least one condition matches.
pub open spec fn should_matches(conditions: Option<Vec<OptimizedCondition>>, point_id: u32) -> bool
    decreases conditions,
{
    match conditions {
        None => true,
        Some(cs) => exists|i: int|
            0 <= i < cs@.len() && condition_matches(#[trigger] cs@[i], point_id),
    }
}

/// A missing branch always matches; otherwise every condition matches.
pub open spec fn must_matches(conditions: Option<Vec<OptimizedCondition>>, point_id: u32) -> bool
    decreases conditions,
{
    match conditions {
        None => true,
        Some(cs) => forall|i: int|
            0 <= i < cs@.len() ==> condition_matches(#[trigger] cs@[i], point_id),
    }
}

/// A missing branch always matches; otherwise no condition matches.
pub open spec fn must_not_matches(
    conditions: Option<Vec<OptimizedCondition>>,
    point_id: u32,
) -> bool
    decreases conditions,
{
    match conditions {
        None => true,
        Some(cs) => forall|i: int|
            0 <= i < cs@.len() ==> !condition_matches(#[trigger] cs@[i], point_id),
    }
}

/// A nested branch matches when every `must` condition of its inner filter
/// matches; a missing branch or a missing `must` always matches. The inner
/// `should`, `must_not` and nested branches are not consulted.
pub open spec fn nested_matches(
    nested: Option<Box<NestedOptimizedFilter>>,
    point_id: u32,
) -> bool
    decreases nested,
{
    match nested {
        None => true,
        Some(n) => match n.filter.must {
            None => true,
            Some(cs) => forall|i: int|
                0 <= i < cs@.len() ==> condition_matches(#[trigger] cs@[i], point_id),
        },
    }
}

/// What the whole filter says of one point id.
pub open spec fn filter_matches(filter: OptimizedFilter, point_id: u32) -> bool
    decreases filter,
{
    &&& should_matches(filter.should, point_id)
    &&& must_matches(filter.must, point_id)
    &&& must_not_matches(filter.must_not, point_id)
    &&& nested_matches(filter.nested, point_id)
}

/// Well-formed condition: any filter below it is well-formed.
pub open spec fn condition_wf(condition: OptimizedCondition) -> bool
    decreases condition,
{
    match condition {
        OptimizedCondition::Checker(_) => true,
        OptimizedCondition::Filter(filter) => filter_wf(filter),
    }
}

/// Well-formed branch: every condition in it is well-formed.
pub open spec fn conditions_wf(conditions: Option<Vec<OptimizedCondition>>) -> bool
    decreases conditions,
{
    match conditions {
        None => true,
        Some(cs) => forall|i: int| 0 <= i < cs@.len() ==> condition_wf(#[trigger] cs@[i]),
    }
}

/// Well-formed nested branch: the inner `must` conditions, when present,
/// are all leaf checkers (only one level of nesting is supported).
pub open spec fn nested_wf(nested: Option<Box<NestedOptimizedFilter>>) -> bool {
    match nested {
        None => true,
        Some(n) => match n.filter.must {
            None => true,
            Some(cs) => forall|i: int|
                0 <= i < cs@.len() ==> (#[trigger] cs@[i]) is Checker,
        },
    }
}

/// Well-formed filter tree.
pub open spec fn filter_wf(filter: OptimizedFilter) -> bool
    decreases filter,
{
    &&& conditions_wf(filter.should)
    &&& conditions_wf(filter.must)
    &&& conditions_wf(filter.must_not)
    &&& nested_wf(filter.nested)
}

/// Reads one leaf checker table.
fn check_table(table: &Vec<bool>, point_id: u32) -> (r: bool)
    ensures
        r == checker_matches(table@, point_id),
{
    let id = point_id as usize;
    if id < table.len() {
        table[id]
    } else {
        false
    }
}

/// Evaluates a whole filter tree for one point id.
pub fn check_optimized_filter(filter: &OptimizedFilter, point_id: u32) -> (r: bool)
    requires
        filter_wf(*filter),
    ensures
        r == filter_matches(*filter, point_id),
    decreases *filter,
{
    check_should(&filter.should, point_id) && check_must(&filter.must, point_id)
        && check_must_not(&filter.must_not, point_id) && check_nested(&filter.nested, point_id)
}

/// Evaluates the nested branch: only `must` of the inner filter, and only
/// its leaf checkers, are consulted; every one of them has to match.
fn check_nested(nested: &Option<Box<NestedOptimizedFilter>>, point_id: u32) -> (r: bool)
    requires
        nested_wf(*nested),
    ensures
        r == nested_matches(*nested, point_id),
{
    match nested {
        None => true,
        Some(n) => match &n.filter.must {
            None => true,
            Some(conditions) => {
                let len = conditions.len();
                let mut i: usize = 0;
                while i < len
                    invariant
                        len == conditions@.len(),
                        0 <= i <= len,
                        nested_wf(*nested),
                        *nested == Some(*n),
                        n.filter.must == Some(*conditions),
                        forall|j: int|
                            0 <= j < i ==> condition_matches(#[trigger] conditions@[j], point_id),
                    decreases len - i,
                {
                    match &conditions[i] {
                        OptimizedCondition::Checker(table) => {
                            if !check_table(table, point_id) {
                                assert(!condition_matches(conditions@[i as int], point_id));
                                return false;
                            }
                        },
                        OptimizedCondition::Filter(_) => {
                            assert((*nested)->0.filter.must->0@[i as int] is Checker);
                            assert(conditions@[i as int] is Checker);
                            assert(false);
                        },
                    }
                    i = i + 1;
                }
                true
            },
        },
    }
}

/// Evaluates one condition.
fn check_condition(condition: &OptimizedCondition, point_id: u32) -> (r: bool)
    requires
        condition_wf(*condition),
    ensures
        r == condition_matches(*condition, point_id),
    decreases *condition,
{
    match condition {
        OptimizedCondition::Filter(filter) => check_optimized_filter(filter, point_id),
        OptimizedCondition::Checker(table) => check_table(table, point_id),
    }
}

/// Evaluates a `should` branch: at least one condition matches.
fn check_should(should: &Option<Vec<OptimizedCondition>>, point_id: u32) -> (r: bool)
    requires
        conditions_wf(*should),
    ensures
        r == should_matches(*should, point_id),
    decreases *should,
{
    match should {
        None => true,
        Some(conditions) => {
            let len = conditions.len();
            let mut i: usize = 0;
            while i < len
                invariant
                    len == conditions@.len(),
                    0 <= i <= len,
                    conditions_wf(*should),
                    *should == Some(*conditions),
                    forall|j: int|
                        0 <= j < i ==> !condition_matches(#[trigger] conditions@[j], point_id),
                decreases len - i,
            {
                proof {
                    assert(condition_wf((*should)->0@[i as int]));
                    assert(condition_wf(conditions@[i as int]));
                    assert(decreases_to!(*should => (*should)->0));
                    assert(decreases_to!((*should)->0 => (*should)->0@));
                    assert(decreases_to!((*should)->0@ => (*should)->0@[i as int]));
                    assert(decreases_to!(*should => conditions@[i as int]));
                }
                if check_condition(&conditions[i], point_id) {
                    assert(condition_matches(conditions@[i as int], point_id));
                    return true;
                }
                i = i + 1;
            }
            false
        },
    }
}

/// Evaluates a `must` branch: every condition matches.
fn check_must(must: &Option<Vec<OptimizedCondition>>, point_id: u32) -> (r: bool)
    requires
        conditions_wf(*must),
    ensures
        r == must_matches(*must, point_id),
    decreases *must,
{
    match must {
        None => true,
        Some(conditions) => {
            let len = conditions.len();
            let mut i: usize = 0;
            while i < len
                invariant
                    len == conditions@.len(),
                    0 <= i <= len,
                    conditions_wf(*must),
                    *must == Some(*conditions),
                    forall|j: int|
                        0 <= j < i ==> condition_matches(#[trigger] conditions@[j], point_id),
                decreases len - i,
            {
                proof {
                    assert(condition_wf((*must)->0@[i as int]));
                    assert(condition_wf(conditions@[i as int]));
                    assert(decreases_to!(*must => (*must)->0));
                    assert(decreases_to!((*must)->0 => (*must)->0@));
                    assert(decreases_to!((*must)->0@ => (*must)->0@[i as int]));
                    assert(decreases_to!(*must => conditions@[i as int]));
                }
                if !check_condition(&conditions[i], point_id) {
                    return false;
                }
                i = i + 1;
            }
            true
        },
    }
}

/// Evaluates a `must_not` branch: no condition matches.
fn check_must_not(must: &Option<Vec<OptimizedCondition>>, point_id: u32) -> (r: bool)
    requires
        conditions_wf(*must),
    ensures
        r == must_not_matches(*must, point_id),
    decreases *must,
{
    match must {
        None => true,
        Some(conditions) => {
            let len = conditions.len();
            let mut i: usize = 0;
            while i < len
                invariant
                    len == conditions@.len(),
                    0 <= i <= len,
                    conditions_wf(*must),
                    *must == Some(*conditions),
                    forall|j: int|
                        0 <= j < i ==> !condition_matches(#[trigger] conditions@[j], point_id),
                decreases len - i,
            {
                proof {
                    assert(condition_wf((*must)->0@[i as int]));
                    assert(condition_wf(conditions@[i as int]));
                    assert(decreases_to!(*must => (*must)->0));
                    assert(decreases_to!((*must)->0 => (*must)->0@));
                    assert(decreases_to!((*must)->0@ => (*must)->0@[i as int]));
                    assert(decreases_to!(*must => conditions@[i as int]));
                }
                if check_condition(&conditions[i], point_id) {
                    return false;
                }
                i = i + 1;
            }
            true
        },
    }
}

} // verus!
