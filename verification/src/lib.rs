//! Summing a large collection of unsigned 32-bit integers in three ways:
//! one sequential scan, a scan over fixed chunks that are handed to one
//! worker each, and a work-stealing parallel scan.
//!
//! Every reducer returns the same 64-bit total, the mathematical sum of the
//! elements, which the contracts state over [`sequential::total`]. The lists
//! to sum are drawn at random or read from text, one number per line.

pub mod sequential;
pub mod partition;
pub mod manual;
pub mod work_stealing;
pub mod generate;
pub mod parse;
