//! FIDL wire-format encoding and decoding, component manifest capability
//! identifiers, service paths and small setting-service building blocks.

pub mod cmc;
pub mod component;
pub mod fidl;
pub mod setui;
