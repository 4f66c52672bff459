pub mod collection_schema;
pub mod index_schema;
pub mod layout;
pub mod property_schema;
