//! Validated ingestion for a delimited table of used-car listings.
//!
//! The crate accepts one raw text line at a time, splits it on commas,
//! trims each field, and keeps a row only when it has enough fields and
//! the four fields at the fixed schema positions (year, engine size,
//! mileage, price) each parse as a finite double. What that means is
//! specified exactly: the decimal-number grammar of `f64` literals —
//! without the `inf`, `infinity` and `nan` spellings — together with an
//! exact textual magnitude test that accepts a value exactly when it is
//! strictly below 2^1024 - 2^970, the threshold at which `f64` rounding
//! reaches infinity. The floating-point analysis that consumes the
//! validated rows (statistics, the linear solver, the regression fit)
//! lives outside the verified crate, which hands it the validated field
//! texts.

pub mod numeric;
pub mod rows;
