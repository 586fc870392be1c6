//! The engine of a security-first AUR helper.
//!
//! A package is vetted before it is built: its metadata ([`trust`]), its recipe
//! ([`scan`]) and what is known of both ([`ioc`]) give findings, and the findings
//! give a verdict ([`score`], [`security`]). A verdict is held against the flags
//! of the user ([`gate`]). What was approved is remembered ([`review`]), the
//! dependencies are put in order ([`resolve`], [`graph`]), and the build runs in
//! two phases in a sandbox ([`makepkg`], [`sandbox`]).
//!
//! Everything here computes on plain values. Requests, files and programs are
//! the caller's work.

pub mod compat;
pub mod devel;
pub mod digest;
pub mod gate;
pub mod graph;
pub mod ioc;
pub mod makepkg;
pub mod names;
pub mod order;
pub mod package;
pub mod pacman;
pub mod paths;
pub mod pattern;
pub mod recipe;
pub mod report;
pub mod resolve;
pub mod review;
pub mod rpc;
pub mod sandbox;
pub mod scan;
pub mod score;
pub mod security;
pub mod sort;
pub mod text;
pub mod trust;
pub mod upgrade;
