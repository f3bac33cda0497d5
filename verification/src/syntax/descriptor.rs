//! Descriptors of node and edge patterns.

use vstd::prelude::*;

use super::expr::{BinOp, Expr};
use crate::model::value::Value;
use crate::text::copy_text;
use crate::typing::descriptor_type::{DescriptorType, DescriptorTypeView};

verus! {

/// What a node or edge pattern says of the element.
#[derive(Debug, PartialEq)]
pub struct Descriptor {
    /// The variable that the element is bound to.
    pub var: Option<String>,
    /// The label and property constraint.
    pub dtype: DescriptorType,
    /// Equalities written inside the braces; rewritten into filters before
    /// type checking.
    pub value_filters: Vec<(String, Expr)>,
    /// Predicates moved here out of filters after type checking.
    pub value_preds: Vec<(String, BinOp, Value)>,
}

impl Descriptor {
    /// The name of the variable.
    pub open spec fn var_name(self) -> Option<Seq<char>> {
        match self.var {
            Some(v) => Some(v@),
            None => None,
        }
    }

    /// The printed form.
    pub open spec fn text(self) -> Seq<char> {
        match self.var {
            Some(v) => v@ + ": "@ + self.dtype@.text(),
            None => self.dtype@.text(),
        }
    }

    /// A descriptor without filters.
    pub fn new(var: Option<String>, dtype: DescriptorType) -> (r: Self)
        ensures
            r.var == var,
            r.dtype == dtype,
            r.value_filters@.len() == 0,
            r.value_preds@.len() == 0,
    {
        Descriptor { var, dtype, value_filters: Vec::new(), value_preds: Vec::new() }
    }

    /// A descriptor with equalities to be rewritten.
    pub fn with_filters(
        var: Option<String>,
        dtype: DescriptorType,
        value_filters: Vec<(String, Expr)>,
    ) -> (r: Self)
        ensures
            r.var == var,
            r.dtype == dtype,
            r.value_filters == value_filters,
            r.value_preds@.len() == 0,
    {
        Descriptor { var, dtype, value_filters, value_preds: Vec::new() }
    }

    /// A variable without constraints.
    pub fn var_only(name: &str) -> (r: Self)
        ensures
            r.var_name() == Some(name@),
            r.dtype@ == DescriptorTypeView::star(),
            r.value_filters@.len() == 0,
            r.value_preds@.len() == 0,
    {
        Descriptor {
            var: Some(copy_text(name)),
            dtype: DescriptorType::star(),
            value_filters: Vec::new(),
            value_preds: Vec::new(),
        }
    }

    /// A constraint without a variable.
    pub fn type_only(dtype: DescriptorType) -> (r: Self)
        ensures
            r.var is None,
            r.dtype == dtype,
            r.value_filters@.len() == 0,
            r.value_preds@.len() == 0,
    {
        Descriptor { var: None, dtype, value_filters: Vec::new(), value_preds: Vec::new() }
    }

    /// The printed form.
    pub fn to_string(&self) -> (r: String)
        ensures
            r@ == self.text(),
    {
        match &self.var {
            Some(v) => {
                let mut s = v.clone();
                s.append(": ");
                s.append(self.dtype.to_string().as_str());
                s
            },
            None => self.dtype.to_string(),
        }
    }
}

} // verus!
