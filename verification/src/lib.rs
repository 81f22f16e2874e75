//! The verified core of a video duplicate and clip finder.

pub mod amounts;
pub mod augment;
pub mod big;
pub mod bits;
pub mod candidates;
pub mod cliques;
pub mod clustering;
pub mod compare;
pub mod confirm;
pub mod container;
pub mod corroborate;
pub mod crops;
pub mod demux;
pub mod display;
pub mod disposal;
pub mod document;
pub mod enumeration;
pub mod errno;
pub mod evidence;
pub mod fates;
pub mod figures;
pub mod fingerprint;
pub mod folders;
pub mod frames;
pub mod groupings;
pub mod hash_index;
pub mod headers;
pub mod knobs;
pub mod lookups;
pub mod matching;
pub mod measures;
pub mod media;
pub mod odds;
pub mod ordering;
pub mod outcomes;
pub mod overlap;
pub mod paths;
pub mod picture;
pub mod probes;
pub mod profile;
pub mod quantity;
pub mod readouts;
pub mod removals;
pub mod report;
pub mod rows;
pub mod sampling;
pub mod seqs;
pub mod sets;
pub mod stats;
pub mod tables;
pub mod text;
pub mod thumbnail;
pub mod timeline;
pub mod verdicts;
pub mod walks;
pub mod witness;
