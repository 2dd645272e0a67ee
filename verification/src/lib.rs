//! Writing genome-wide quantitative tracks in the bigWig format.

pub mod bbi;
pub mod bbiwrite;
pub mod bedchromdata;
pub mod bedparser;
pub mod bigwigread;
pub mod bigwigwrite;
pub mod bytes;
pub mod chromtree;
pub mod cirtree;
pub mod encode;
pub mod layout;
pub mod lineparser;
pub mod merge;
pub mod rtree;
pub mod tempfilebuffer;
pub mod text;
pub mod zoom;
