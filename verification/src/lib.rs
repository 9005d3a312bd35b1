//! Typed configuration resolved from environment variables and a manifest
//! document.
//!
//! Values for the fields of a configuration struct are looked up by
//! priority: an environment variable first, then an entry of a loaded
//! manifest document, and otherwise the field keeps its default value.
//! Raw text is decoded into the field's expected kind by a fixed coercion
//! grammar, and the whole resolution fails fast on the first bad value.
//!
//! `codec` decodes raw text tokens, `value` holds the document tree and
//! its structural coercions, `source` looks fields up by priority,
//! `resolver` walks a struct's field descriptors, `registry` keeps the
//! process-wide source under first-caller-wins rules, and `config` is a
//! ready-made configuration struct resolved through the whole pipeline.

use vstd::prelude::*;

pub mod codec;
pub mod config;
pub mod registry;
pub mod resolver;
pub mod source;
pub mod value;

use crate::codec::ValView;
use crate::resolver::{resolve_spec, DescView};
use crate::source::{ConfigError, ConfigSource, ErrView};

verus! {

/// A configuration struct which can be generated from the active source.
///
/// An implementing type declares the package its fields are namespaced
/// under, its ordered field descriptors, and the decoded-value form of
/// its own fields and of its default value. `generate` resolves a fresh
/// instance: each field takes the value its source yields, decoded into
/// the field's kind, or keeps its default; the first error aborts the
/// whole resolution with no partial result.
pub trait Configure: Sized {
    /// The package name the fields are namespaced under.
    spec fn package_spec() -> Seq<char>;

    /// The declared field descriptors, in order.
    spec fn descriptors_spec() -> Seq<DescView>;

    /// The fields of this instance as decoded values, in declared order.
    spec fn fields_view(&self) -> Seq<ValView>;

    /// The fields of the default instance.
    spec fn defaults_view() -> Seq<ValView>;

    /// Generate this configuration from the active source.
    fn generate(source: &mut ConfigSource) -> (r: Result<Self, ConfigError>)
        ensures
            ({
                let (res, s2) = resolve_spec(
                    Self::package_spec(),
                    Self::descriptors_spec(),
                    Self::defaults_view(),
                    old(source)@,
                );
                &&& final(source)@ == s2
                &&& match r {
                    Ok(c) => res == Ok::<Seq<ValView>, ErrView>(c.fields_view()),
                    Err(e) => res == Err::<Seq<ValView>, ErrView>(e@),
                }
            }),
    ;

    /// Regenerate this configuration: on success every field updates to
    /// a fresh resolution from the defaults; on failure none does.
    fn regenerate(&mut self, source: &mut ConfigSource) -> (r: Result<(), ConfigError>)
        ensures
            ({
                let (res, s2) = resolve_spec(
                    Self::package_spec(),
                    Self::descriptors_spec(),
                    Self::defaults_view(),
                    old(source)@,
                );
                &&& final(source)@ == s2
                &&& match r {
                    Ok(_) => res is Ok && final(self).fields_view() == res->Ok_0,
                    Err(e) => res == Err::<Seq<ValView>, ErrView>(e@) && *final(self) == *old(self),
                }
            }),
    {
        match Self::generate(source) {
            Ok(c) => {
                *self = c;
                Ok(())
            },
            Err(e) => Err(e),
        }
    }
}

} // verus!
