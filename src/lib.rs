//! Compiles a grid of coloured cells into a typed circuit graph and simulates it.
//!
//! The pipeline runs leaf to root: a cell class per grid coordinate
//! ([`resel::Resel`]), a partition of the grid into connected regions
//! ([`regionmap::RegionMap`]), five incidence relations between the dense
//! indices of those regions ([`incidencemap::IncidenceMap`]), and a tick of
//! combinational evaluation over persistent wire state
//! ([`resocircuit::ResoCircuit`]).

pub mod grid;
pub mod resel;
pub mod reselboard;
pub mod regionmap;
pub mod incidencemap;
pub mod resocircuit;
