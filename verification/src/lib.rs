//! Attribute-partitioned filtered nearest-neighbour search.
pub mod answers;
pub mod assemble;
pub mod binary;
pub mod bitset;
pub mod bridges;
pub mod centres;
pub mod chance;
pub mod config;
pub mod construct;
pub mod coverage;
pub mod covering;
pub mod cross;
pub mod crossing;
pub mod descent;
pub mod distance;
pub mod error;
pub mod evaluate;
pub mod explore;
pub mod fabric;
pub mod filter;
pub mod graph;
pub mod index;
pub mod indexing;
pub mod io;
pub mod ivf;
pub mod kmeans;
pub mod likeness;
pub mod medoid;
pub mod order;
pub mod partition;
pub mod point;
pub mod probe;
pub mod probing;
pub mod pure;
pub mod quantize;
pub mod query;
pub mod reach;
pub mod reassembly;
pub mod relayout;
pub mod reproduce;
pub mod search;
pub mod select;
pub mod serving;
pub mod session;
pub mod single;
pub mod sketches;
pub mod spans;
pub mod sparse;
pub mod tally;
pub mod text;
pub mod thorough;
pub mod tuples;
pub mod vamana;
pub mod vecstore;
pub mod walk;
pub mod weave;
mod wipe;
