//! A tagger for FLAC rips, built around the disc barcode and the ISRC.
pub mod apple;
pub mod flac;
pub mod library;
pub mod pairing;
pub mod ranking;
pub mod select;
pub mod selection;
pub mod session;
pub mod similarity;
pub mod table;
pub mod tagger;
pub mod tags;
pub mod text;
pub mod ui;
