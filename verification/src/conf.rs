//! Constraint configurations: which fields of a resource are generated, and
//! how.

use vstd::prelude::*;
use crate::json::{Json, JsonValue, json_seq};

verus! {

/// What happens to an existing enum of a field when a rule brings values.
#[derive(Debug, Clone, Copy, PartialEq, Eq, Structural)]
pub enum ValuesMode {
    /// The rule's values replace the enum.
    Override,
    /// The rule's values are appended to the enum.
    Add,
}

/// One entry of a constraint's `fields` list.
#[derive(Debug)]
pub struct FieldConfig {
    /// The dotted path of the field, or a regular expression over such paths.
    pub path: String,
    /// Fixed values to choose from.
    pub values: Option<Vec<JsonValue>>,
    /// Regular expressions that generate values.
    pub regex_values: Option<Vec<String>>,
    /// What happens to an existing enum when `values` are given.
    pub values_mode: Option<ValuesMode>,
    /// Whether the field is always generated.
    pub required: bool,
    /// Bounds on the number of elements of an array.
    pub minmax: Option<(usize, usize)>,
    /// Whether the field is removed from the schema.
    pub remove: bool,
    /// Whether `path` is a regular expression.
    pub regex: bool,
}

/// A constraint configuration for one resource kind.
#[derive(Debug)]
pub struct ConstraintConfig {
    pub group: String,
    pub version: String,
    pub kind: String,
    pub fields: Vec<FieldConfig>,
}

/// The mathematical value of a [`FieldConfig`].
pub struct FieldRule {
    pub path: Seq<char>,
    pub values: Option<Seq<Json>>,
    pub regex_values: Option<Seq<Seq<char>>>,
    pub values_mode: Option<ValuesMode>,
    pub required: bool,
    pub minmax: Option<(usize, usize)>,
    pub remove: bool,
    pub regex: bool,
}

/// The mathematical value of a [`ConstraintConfig`].
pub struct Constraint {
    pub group: Seq<char>,
    pub version: Seq<char>,
    pub kind: Seq<char>,
    pub fields: Seq<FieldRule>,
}

/// The views of a list of strings.
pub open spec fn str_seq(v: Seq<String>) -> Seq<Seq<char>> {
    Seq::new(v.len(), |i: int| v[i]@)
}

impl View for FieldConfig {
    type V = FieldRule;

    open spec fn view(&self) -> FieldRule {
        FieldRule {
            path: self.path@,
            values: match self.values {
                Some(v) => Some(json_seq(v@)),
                None => None,
            },
            regex_values: match self.regex_values {
                Some(v) => Some(str_seq(v@)),
                None => None,
            },
            values_mode: self.values_mode,
            required: self.required,
            minmax: self.minmax,
            remove: self.remove,
            regex: self.regex,
        }
    }
}

impl View for ConstraintConfig {
    type V = Constraint;

    open spec fn view(&self) -> Constraint {
        Constraint {
            group: self.group@,
            version: self.version@,
            kind: self.kind@,
            fields: Seq::new(self.fields@.len(), |i: int| self.fields@[i]@),
        }
    }
}

} // verus!
