//! Verified text handling for a small tool that downloads audio, tags it and
//! stores it under a cleaned-up file name.

pub mod args;
pub mod file_overrides;
pub mod text;
pub mod normalization;
pub mod tagging;
pub mod video;
pub mod logger;
pub mod downloader;
pub mod thumbnail;
