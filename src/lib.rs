//! Classification of delimited-text columns into standard and customer
//! extension fields, with verified partitioning and filtered field views.

pub mod outside;
pub mod schema;
pub mod source;
pub mod laws;
