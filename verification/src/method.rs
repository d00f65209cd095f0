//! HTTP request methods.

use vstd::prelude::*;

verus! {

/// An HTTP request method.
#[derive(Clone, Copy, PartialEq, Eq, Structural, Debug)]
pub enum Method {
    Get,
    Post,
    Put,
    Patch,
    Options,
    Delete,
    Head,
    Trace,
    Connect,
}

} // verus!
