//! Reads archives of the "BSA" kind, version 103: a fixed header, a folder table, one block of
//! file records per folder, a table of file names and the files' data, all located by byte
//! offsets. Every decoder is stated against the bytes it reads.
pub mod bsa;
pub mod data;
