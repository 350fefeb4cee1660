pub mod arbiter;
pub mod mytype;
