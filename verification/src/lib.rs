//! A localization table: a compact, immutable lookup structure that resolves
//! a user-facing string by (translation key, locale), with a designated
//! fallback key (`"_"`) used when a locale lacks an explicit translation for a
//! key, and a fixed sentinel string for cells that neither the explicit nor
//! the fallback input covers.
//!
//! The table is produced once, in full, by [`build`], which validates the
//! authored input (no locale may repeat within one key's group), orders both
//! axes lexicographically, and fills the dense matrix. Lookups never panic:
//! an unknown key or locale degrades to position 0 of its axis.

pub mod builder;
pub mod laws;
pub mod order;
pub mod table;

pub use builder::build;
pub use builder::BuildError;
pub use builder::KeyGroup;
pub use builder::TranslationEntry;
pub use table::LocaleHandle;
pub use table::LocalizationTable;
