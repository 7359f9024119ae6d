//! A small toolbox for command-line programs: text predicates, a substring
//! search over the lines of text files with byte-exact positions, the textual
//! encoding of what that search finds, and the helpers built around them.

pub mod decimal;
pub mod descriptor;
pub mod distributor;
pub mod letters;
pub mod occurrence;
pub mod runs;
pub mod rux_debug;
pub mod rux_fires;
pub mod rux_paths;
pub mod rux_rands;
pub mod rux_texts;
pub mod rux_winds;
pub mod scanning;
pub mod unicode;
