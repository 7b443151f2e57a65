//! Request and response bodies of the shortening service.
use vstd::prelude::*;

verus! {

/// A request to shorten `url`.
pub struct ShortenURLReq {
    pub url: String,
}

/// The token under which the shortened URL is reachable.
pub struct ShortenURLRes {
    pub short_url: String,
}

} // verus!
