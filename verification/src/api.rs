//! Entry points for the browser build.
use vstd::prelude::*;
use crate::lehmer::{LehmerDecoder, route_count, decode_spec};

verus! {

/// The solver's name and version.
pub fn version() -> (v: String)
    ensures
        v@ == "HDQTS v6.2 Rust/WASM — Lehmer-Enhanced Edition"@,
{
    "HDQTS v6.2 Rust/WASM — Lehmer-Enhanced Edition".to_string()
}

/// The full route (starting at city 0) that `index` names among the routes of `n` cities.
pub fn decode_route(n: usize, index: usize) -> (route: Vec<usize>)
    requires
        route_count(n as nat) <= usize::MAX,
    ensures
        route@ == seq![0usize] + decode_spec(n as nat, index as nat),
{
    let decoder = LehmerDecoder::new(n);
    decoder.decode_full_route(index)
}

/// The number of routes through `n` cities that start at city 0: `(n-1)!`.
pub fn total_routes(n: usize) -> (t: usize)
    requires
        route_count(n as nat) <= usize::MAX,
    ensures
        t == route_count(n as nat),
{
    let decoder = LehmerDecoder::new(n);
    decoder.total_permutations()
}

} // verus!
