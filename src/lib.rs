// Conversion of `free` and `df` reports into typed records.
//
// `df` finds its column boundaries from whitespace alignment and maps each
// column to a field by its header text; `free` pairs header labels with the
// values of `label: value ...` rows. Both read human-readable magnitudes
// through `number`.

pub mod df;
pub mod error;
pub mod free;
pub mod number;
pub mod text;
