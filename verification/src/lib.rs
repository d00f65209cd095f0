//! A verified core of an HTTP application toolkit: a router that compiles
//! declarative path templates into matchers, and a middleware engine that
//! drives an ordered chain of request handlers around a per-request context.

pub mod app;
pub mod chain;
pub mod context;
pub mod method;
pub mod router;
pub mod path;
pub mod query;
pub mod compile;
pub mod laws;
pub mod matching;
pub mod pattern;
pub mod static_app;
pub mod status;
