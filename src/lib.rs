//! Index logic of a three-dimensional interpolation grid: axis sizes with
//! their ghost layer, the dense row-major sample field, the stencils read by
//! the interpolation schemes and the location of a query's cell.

mod axis;
mod field;
mod locate;
mod shape;

pub use crate::axis::{ConfigError, Dir, Type};
pub use crate::field::{
    clamp_index, laid_out, lemma_constant_sampler_constant_field, z_first, z_width, Recorded, SampleField, Sampler,
};
pub use crate::locate::{answers, locate_cell, DomainError, Side};
pub use crate::shape::{clamp_spec, interior, lex_lt, GridShape};
