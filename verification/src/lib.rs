//! Margin analysis for superconducting (HFQ/SFQ) circuits simulated with JoSIM:
//! netlist annotation handling, simulator output conversion and the bisection
//! decisions of the margin search.
use vstd::prelude::*;

pub mod annotations;
pub mod config;
pub mod flux;
pub mod josim;
pub mod scan;
pub mod search;
pub mod substitute;
pub mod text;
pub mod timing;
pub mod transient;
