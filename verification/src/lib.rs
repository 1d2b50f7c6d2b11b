//! Circuits over encrypted integers.
//!
//! A program on encrypted data is a graph of elementary gates. This crate holds
//! the graph ([`graph`]), the integer types that compile arithmetic into it
//! ([`integer`], [`circuits`], [`sign`]), the multiplexer networks it borrows
//! from `mux_circuits` ([`mux`]), the interface to a cipher ([`backend`]), the
//! engine that evaluates a finished graph ([`engine`]) and the byte form of
//! encrypted integers ([`serial`]).
//!
//! What holds across these modules is proved in [`laws`].
//!
//! Every gate has a plain meaning, a natural number, and every contract is
//! stated over that meaning: what a node of the graph stands for once each
//! input is bound to a value.

pub mod bits;

pub mod graph;

pub mod sign;

pub mod engine;

pub mod backend;

pub mod mux;

pub mod circuits;

pub mod integer;

pub mod serial;

pub mod laws;
