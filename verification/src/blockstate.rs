//! The parts of block state and block model files that select models.
use std::collections::HashMap;
use vstd::prelude::*;

verus! {

/// When a part of a multipart block state applies.
pub enum Condition {
    Logical(LogicalCondition),
    /// All properties must match. Values may contain `|`.
    States(HashMap<String, String>),
}

/// A combination of conditions.
pub enum LogicalCondition {
    Or(Vec<Condition>),
    And(Vec<Condition>),
}

/// The places where an item model can be displayed.
#[derive(Clone, Copy, PartialEq, Eq, Structural, Debug, Hash)]
pub enum DisplayPosition {
    ThirdpersonRighthand,
    ThirdpersonLefthand,
    FirstpersonRighthand,
    FirstpersonLefthand,
    Gui,
    Head,
    Ground,
    Fixed,
    OnShelf,
}

} // verus!
