//! Raw input rows, as read from the input record.
use vstd::prelude::*;

verus! {

/// Where an article is stored.
#[derive(Debug, Clone, Copy, PartialEq, Eq, Structural)]
pub struct ArticleLocation {
    pub warehouse: u16,
    pub aisle: u16,
    pub position: u16,
    pub article_id: u16,
}

/// One order: its id and the ids of the articles it asks for (repeats allowed).
#[derive(Debug, Clone)]
pub struct Order {
    pub order_id: u16,
    pub article_ids: Vec<u16>,
}

/// The volume of one article.
#[derive(Debug, Clone, Copy, PartialEq, Eq, Structural)]
pub struct Article {
    pub article_id: u16,
    pub volume: u16,
}

/// The whole input record.
#[derive(Debug, Clone)]
pub struct Input {
    pub article_locations: Vec<ArticleLocation>,
    pub orders: Vec<Order>,
    pub articles: Vec<Article>,
}

} // verus!
