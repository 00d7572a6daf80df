pub mod span;
pub mod scan;
pub mod text;
pub mod encode;
pub mod bang;
pub mod template;
pub mod cache;
pub mod resolver;
pub mod sources;
