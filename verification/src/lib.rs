//! A deterministic, compact, human-readable text encoding for a generic
//! structured-value model. The canonical form is byte-identical for
//! semantically equal data regardless of input ordering, and supports use as
//! a dedup/equality key and as a hash fingerprint.

pub mod error;
pub mod floatfmt;
pub mod hex;
pub mod laws;
pub mod loose;
pub mod numfmt;
pub mod order;
pub mod strings;
pub mod types;

pub use types::GValue;
pub use types::MapEntry;
pub use types::RefId;
pub use types::StructValue;
pub use types::SumValue;
pub use types::Timestamp;
pub use types::field;
pub use error::GlyphError;
pub use loose::LooseCanonOpts;
pub use loose::NullStyle;
pub use loose::canon_null;
pub use loose::canonicalize_loose;
pub use loose::canonicalize_loose_no_tabular;
pub use loose::canonicalize_loose_with_opts;
pub use loose::equal_loose;
pub use loose::fingerprint_loose;
pub use loose::hash_loose;
pub use loose::is_ref_bare_safe;
pub use loose::write_canon_ref;
pub use numfmt::canon_int;
pub use strings::canon_string;
pub use strings::is_bare_safe;
pub use strings::quote_string;
