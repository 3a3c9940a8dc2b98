//! Unbox: conversion of DSSAD data directories.
//!
//! The library holds the logic of the converter: the grammar of a recorded
//! message line, the CRC-32 check of its payload, the framing of the payload
//! as base64, the statistics of a converted file, the choice of which files
//! of a directory tree are converted and into what, and the bookkeeping of a
//! running conversion.

pub mod converter;
pub mod crc;
pub mod encoding;
pub mod payload;
pub mod progress;
pub mod record;
pub mod unicode;
pub mod text;
pub mod theme;
pub mod txt_converter;

