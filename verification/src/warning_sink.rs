use vstd::prelude::*;

verus! {

/// Sink that captures all warnings, mostly for knowing whether any warnings
/// were encountered.
pub trait WarningSink {
    /// The number of warnings the sink has counted.
    spec fn spec_warnings_count(&self) -> nat;

    /// Counts one more warning (the count stops at `usize::MAX`).
    fn emit_warning(&mut self, msg: &str)
        ensures
            final(self).spec_warnings_count() == saturating_count(old(self).spec_warnings_count() + 1),
    ;

    /// Useful to combine several warning sinks into one, for example when
    /// warnings are collected elsewhere while a progress bar runs.
    fn add_to_warning_count(&mut self, extra_warning_count: usize)
        ensures
            final(self).spec_warnings_count()
                == saturating_count(old(self).spec_warnings_count() + extra_warning_count as nat),
    ;

    fn warnings_count(&self) -> (r: usize)
        ensures
            r == self.spec_warnings_count(),
    ;

    fn encountered_any_warnings(&self) -> (r: bool)
        ensures
            r == (self.spec_warnings_count() != 0),
    {
        self.warnings_count() != 0
    }
}

/// A count that stops at `usize::MAX`.
pub open spec fn saturating_count(n: nat) -> nat {
    if n <= usize::MAX { n } else { usize::MAX as nat }
}

/// The warning sink of the command line tool: it counts the warnings and
/// hands each one to `print`.
pub struct CliWarningSink<F: Fn(&str)> {
    warnings_count: usize,
    print: F,
}

impl<F: Fn(&str)> CliWarningSink<F> {
    #[verifier::type_invariant]
    spec fn print_callable(&self) -> bool {
        forall|m: &str| call_requires(self.print, (m,))
    }

    /// A sink that has counted nothing yet.
    pub fn new(print: F) -> (r: Self)
        requires
            forall|m: &str| call_requires(print, (m,)),
        ensures
            r.spec_warnings_count() == 0,
    {
        CliWarningSink { warnings_count: 0, print }
    }
}

impl<F: Fn(&str)> WarningSink for CliWarningSink<F> {
    closed spec fn spec_warnings_count(&self) -> nat {
        self.warnings_count as nat
    }

    fn emit_warning(&mut self, msg: &str) {
        proof {
            use_type_invariant(&*self);
        }
        (self.print)(msg);
        if self.warnings_count < usize::MAX {
            self.warnings_count = self.warnings_count + 1;
        }
    }

    fn add_to_warning_count(&mut self, extra_warning_count: usize) {
        proof {
            use_type_invariant(&*self);
        }
        self.warnings_count = self.warnings_count.saturating_add(extra_warning_count);
    }

    fn warnings_count(&self) -> (r: usize) {
        self.warnings_count
    }
}

}
