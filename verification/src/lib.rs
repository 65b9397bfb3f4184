//! Directive-driven structured formatting.
//!
//! A composite type is described by its variants and fields. Each field may
//! carry directives that say whether the field is left out of the rendered
//! record and how an included field is rendered. This crate holds the directive
//! model, the merger that folds the fragments attached to a field into one
//! directive, the builder that turns a described type into a rendering plan,
//! and the sequence of renderer calls that executing a plan amounts to.
//!
//! Two byte-buffer renderers, [`hexbuf`] and [`hexbuf_str`], are included as
//! ready-made custom renderers.

pub mod field_attributes;
pub mod hex;
pub mod merge;
pub mod plan;
pub mod render;
pub mod retain;

pub use field_attributes::{ConflictError, DebugFormat, FieldAttributes, SkipMode};
pub use hex::{hexbuf, hexbuf_str};
pub use merge::{parse_field_attributes, Fragment, InternalFieldAttributes, MergeError};
pub use plan::{
    build, field_action, filter_out_skipped_fields, plan_variant, record_style, BuildError, FieldAction,
    FieldRef, FieldShape, FieldsKind, RecordStyle, RenderingPlan, VariantPlan, VariantShape,
};
pub use render::{render, RenderState, SinkCall};
pub use retain::try_retain;
