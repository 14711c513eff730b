//! Conversion of labelled CIC-IDS flow rows into directional NetFlow-style
//! records, grouped by traffic label.
pub mod text;
pub mod cic;
pub mod nf;
