//! Detection engine for cyclic arbitrage on constant-product pools.
//!
//! The engine keeps a graph of tokens in which every pool is a pair of directed
//! edges, searches it from a base token for cycles of negative total weight, turns
//! what it finds into closed routes at the base token, and looks for the input that
//! earns most on a route.
//!
//! Every real quantity is a fixed-point number, an integer count of millionths: token
//! amounts, fee rates, gas prices, percentages and the weights of the edges. Raw
//! balances as they stand on chain are 128-bit integers.
//!
//! * [`math`]: one swap, a chain of swaps, the search for the best input, and the
//!   arithmetic on 256-bit products that the rest needs.
//! * [`weights`]: fixed-point logarithms and the weight of one direction of a pool.
//! * [`log_laws`]: how close these logarithms are to the true ones, and what the sign
//!   of the weight of a cycle says of its rates.
//! * [`topology`]: which node has an edge to which, kept in a `petgraph` graph.
//! * [`graph`]: the token graph, its pools and the profit of a route in it.
//! * [`search`] and [`cycles`]: the search for negative cycles and the routes that
//!   its result gives.
//! * [`cycle_laws`]: that a cycle among the predecessors of the search, and the route
//!   made of it, weighs less than nothing.
//! * [`multi_path`]: evaluation of all routes and the choice among the results.
//! * [`arbitrage`]: the fixed route of three swaps.
//! * [`types`], [`config`], [`constants`], [`hexcode`]: tokens, snapshots, routes,
//!   opportunities, settings and addresses.
//! * [`cache`], [`batch_fetcher`], [`pools`], [`display`], [`logging`], [`text`],
//!   [`clock`]: what stands between the engine and the programs around it.

pub mod arbitrage;
pub mod batch_fetcher;
pub mod cache;
pub mod clock;
pub mod config;
pub mod constants;
pub mod cycle_laws;
pub mod cycles;
pub mod display;
pub mod graph;
pub mod hexcode;
pub mod log_laws;
pub mod logging;
pub mod math;
pub mod multi_path;
pub mod pools;
pub mod search;
pub mod text;
pub mod topology;
pub mod types;
pub mod weights;
