//! The records of the product catalogue that enrichment jobs look up.

use vstd::prelude::*;

verus! {

/// A product category; categories may nest.
#[derive(Debug, Clone)]
pub struct Category {
    pub id: i32,
    pub name: String,
    pub parent_category_id: Option<i32>,
}

/// A product with its hit counter.
#[derive(Debug, Clone)]
pub struct Product {
    pub id: i32,
    pub name: String,
    pub description: Option<String>,
    pub category_id: i32,
    pub hits: i64,
}

} // verus!
