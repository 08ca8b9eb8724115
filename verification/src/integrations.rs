//! Importers for external morphology formats.

pub mod grace;
pub mod swc_file;
pub mod swc_line;
