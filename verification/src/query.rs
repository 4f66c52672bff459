pub mod fast_wild_compare;
pub mod filter;
pub mod id_where_clause;
pub mod index_where_clause;
pub mod query;
pub mod query_builder;
pub mod result_ids;
pub mod sort;
pub mod where_clause;
