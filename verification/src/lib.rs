//! Modern Greek lookup-coverage helpers: syllable stress detection,
//! enclitic double accentuation, punctuation-attached index variants, and the
//! analysis of decoded dictionary index labels.
pub mod text;
pub mod accent;
pub mod punctuation;
pub mod utf16;
pub mod label_order;
pub mod index_dump;
