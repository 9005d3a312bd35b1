//! The active configuration source: installed once, first caller wins.
//!
//! The hosting binary holds one value of [`ActiveConfiguration`] for the
//! life of the process. An explicit `set` before anything asked for
//! configuration wins; otherwise the first `get` installs its fallback,
//! and every later call observes the same installed source.

use vstd::prelude::*;
use crate::source::{ConfigSource, SourceView};

verus! {

/// The mathematical form of the registry: the installed source, if any,
/// and whether an explicit `set` installed it.
pub struct RegistryView {
    pub source: Option<SourceView>,
    pub overriden: bool,
}

/// The holder of the active configuration source.
pub struct ActiveConfiguration {
    source: Option<ConfigSource>,
    overriden: bool,
}

impl View for ActiveConfiguration {
    type V = RegistryView;

    closed spec fn view(&self) -> RegistryView {
        RegistryView {
            source: match self.source {
                Some(s) => Some(s@),
                None => None,
            },
            overriden: self.overriden,
        }
    }
}

impl ActiveConfiguration {
    /// A registry with nothing installed yet.
    pub fn new() -> (r: ActiveConfiguration)
        ensures
            r@.source is None,
            !r@.overriden,
    {
        ActiveConfiguration { source: None, overriden: false }
    }

    /// Install the source, only if none has been installed yet; later
    /// calls change nothing. Only an explicit `set` marks the registry
    /// overriden.
    pub fn set(&mut self, source: ConfigSource)
        ensures
            old(self)@.source is None ==> final(self)@.source == Some(source@)
                && final(self)@.overriden,
            old(self)@.source is Some ==> final(self)@ == old(self)@,
    {
        if self.source.is_none() {
            self.overriden = true;
            self.source = Some(source);
        }
    }

    /// The active source: what was installed, or the given fallback,
    /// installed now; either way the caller gets a copy of the source
    /// every later call will observe.
    pub fn get(&mut self, fallback: ConfigSource) -> (r: ConfigSource)
        ensures
            final(self)@.overriden == old(self)@.overriden,
            match old(self)@.source {
                Some(s) => final(self)@.source == Some(s) && r@ == s,
                None => final(self)@.source == Some(fallback@) && r@ == fallback@,
            },
    {
        match &self.source {
            Some(s) => s.clone(),
            None => {
                let copy = fallback.clone();
                self.source = Some(fallback);
                copy
            },
        }
    }

    /// Whether the active source is still the default choice: the
    /// opposite of `is_overriden`.
    pub fn is_default(&self) -> (r: bool)
        ensures
            r == !self@.overriden,
    {
        !self.is_overriden()
    }

    /// Whether an explicit `set` installed the active source: the
    /// opposite of `is_default`.
    pub fn is_overriden(&self) -> (r: bool)
        ensures
            r == self@.overriden,
    {
        self.overriden
    }
}

} // verus!
