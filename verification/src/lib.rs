//! A streaming document-assembly core: an element classifier, an attribute
//! linker, a token-driven tree builder, and an order-preserving resource-link
//! collector, together with the small caches used by the surrounding system.

pub mod builder;
pub mod cache;
pub mod collector;
pub mod compositor;
pub mod dom;
pub mod font_context;
pub mod text;
