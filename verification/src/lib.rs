pub mod text;
pub mod links;
pub mod page;
pub mod fetch;
pub mod session;
