pub mod bytes;
pub mod compare;
pub mod data_type;
pub mod float;
pub mod object_builder;
pub mod object_info;
pub mod property;
pub mod value;
