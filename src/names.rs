//! The fixed sets of header names that never enter a signed exchange.

use vstd::prelude::*;
use crate::text::same_text;

verus! {

/// Hop-by-hop and connection headers, the names the exchange reserves for
/// its own fields, and the names a distributing cache forbids.
pub open spec fn is_uncached_name(k: Seq<char>) -> bool {
    k == "connection"@
        || k == "keep-alive"@
        || k == "proxy-connection"@
        || k == "trailer"@
        || k == "transfer-encoding"@
        || k == "upgrade"@
        || k == ":status"@
        || k == "content-encoding"@
        || k == "digest"@
        || k == "variant-key-04"@
        || k == "variants-04"@
}

/// Headers that carry or change client-visible session state.
pub open spec fn is_stateful_name(k: Seq<char>) -> bool {
    k == "authentication-control"@
        || k == "authentication-info"@
        || k == "clear-site-data"@
        || k == "optional-www-authenticate"@
        || k == "proxy-authenticate"@
        || k == "proxy-authentication-info"@
        || k == "public-key-pins"@
        || k == "sec-websocket-accept"@
        || k == "set-cookie"@
        || k == "set-cookie2"@
        || k == "setprofile"@
        || k == "strict-transport-security"@
        || k == "www-authenticate"@
}

/// Whether `k` is a header name that must not be cached.
pub fn is_uncached_header(k: &str) -> (r: bool)
    ensures
        r == is_uncached_name(k@),
{
    same_text(k, "connection")
        || same_text(k, "keep-alive")
        || same_text(k, "proxy-connection")
        || same_text(k, "trailer")
        || same_text(k, "transfer-encoding")
        || same_text(k, "upgrade")
        || same_text(k, ":status")
        || same_text(k, "content-encoding")
        || same_text(k, "digest")
        || same_text(k, "variant-key-04")
        || same_text(k, "variants-04")
}

/// Whether `k` is a header name that carries session state.
pub fn is_stateful_header(k: &str) -> (r: bool)
    ensures
        r == is_stateful_name(k@),
{
    same_text(k, "authentication-control")
        || same_text(k, "authentication-info")
        || same_text(k, "clear-site-data")
        || same_text(k, "optional-www-authenticate")
        || same_text(k, "proxy-authenticate")
        || same_text(k, "proxy-authentication-info")
        || same_text(k, "public-key-pins")
        || same_text(k, "sec-websocket-accept")
        || same_text(k, "set-cookie")
        || same_text(k, "set-cookie2")
        || same_text(k, "setprofile")
        || same_text(k, "strict-transport-security")
        || same_text(k, "www-authenticate")
}

} // verus!
