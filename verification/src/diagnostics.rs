use vstd::prelude::*;

use crate::span::Span;

verus! {

#[derive(Clone, Copy, Debug, PartialEq, Eq, Structural)]
pub enum Severity {
    Warning,
    Error,
}

#[derive(Clone, Debug)]
pub struct Diagnostic {
    pub severity: Severity,
    pub message: String,
    pub span: Option<Span>,
}

/// What a diagnostic says, as plain values.
pub struct DiagnosticView {
    pub severity: Severity,
    pub message: Seq<char>,
    pub span: Option<Span>,
}

impl View for Diagnostic {
    type V = DiagnosticView;

    open spec fn view(&self) -> DiagnosticView {
        DiagnosticView { severity: self.severity, message: self.message@, span: self.span }
    }
}

pub open spec fn diag(severity: Severity, span: Option<Span>, message: Seq<char>) -> DiagnosticView {
    DiagnosticView { severity, message, span }
}

pub open spec fn error_at(span: Option<Span>, message: Seq<char>) -> DiagnosticView {
    diag(Severity::Error, span, message)
}

pub open spec fn warning_at(span: Option<Span>, message: Seq<char>) -> DiagnosticView {
    diag(Severity::Warning, span, message)
}

/// Number of diagnostics of the given severity in `items`.
pub open spec fn count_severity(items: Seq<DiagnosticView>, severity: Severity) -> nat
    decreases items.len(),
{
    if items.len() == 0 {
        0
    } else {
        count_severity(items.drop_last(), severity) + if items.last().severity == severity {
            1nat
        } else {
            0nat
        }
    }
}

/// Number of errors in `items`.
pub open spec fn error_count(items: Seq<DiagnosticView>) -> nat {
    count_severity(items, Severity::Error)
}

/// No error was reported between `a` and `b`.
pub open spec fn clean(a: Seq<DiagnosticView>, b: Seq<DiagnosticView>) -> bool {
    error_count(a) == error_count(b)
}

/// `b` holds the diagnostics of `a`, in the same places, and maybe more after them.
pub open spec fn extends(a: Seq<DiagnosticView>, b: Seq<DiagnosticView>) -> bool {
    &&& a.len() <= b.len()
    &&& forall|i: int| 0 <= i < a.len() ==> #[trigger] b[i] == a[i]
}

/// Whether some diagnostic in `items` is an error.
pub open spec fn has_error(items: Seq<DiagnosticView>) -> bool {
    exists|i: int| 0 <= i < items.len() && items[i].severity == Severity::Error
}

/// The diagnostics reported so far, in the order they were reported.
#[derive(Debug)]
pub struct Diagnostics {
    items: Vec<Diagnostic>,
}

impl View for Diagnostics {
    type V = Seq<DiagnosticView>;

    closed spec fn view(&self) -> Seq<DiagnosticView> {
        self.items@.map_values(|d: Diagnostic| d@)
    }
}

impl Diagnostics {
    pub fn new() -> (d: Diagnostics)
        ensures
            d@ == Seq::<DiagnosticView>::empty(),
    {
        let d = Diagnostics { items: Vec::new() };
        assert(d@ =~= Seq::<DiagnosticView>::empty());
        d
    }

    fn push(&mut self, severity: Severity, span: Option<Span>, message: String)
        ensures
            final(self)@ == old(self)@.push(diag(severity, span, message@)),
    {
        let d = Diagnostic { severity, message, span };
        self.items.push(d);
        assert(self@ =~= old(self)@.push(diag(severity, span, d.message@)));
    }

    /// Records a warning.
    pub fn warning(&mut self, span: Option<Span>, message: String)
        ensures
            final(self)@ == old(self)@.push(warning_at(span, message@)),
            extends(old(self)@, final(self)@),
            error_count(final(self)@) == error_count(old(self)@),
    {
        self.push(Severity::Warning, span, message);
        assert(self@.drop_last() =~= old(self)@);
    }

    /// Records an error.
    pub fn error(&mut self, span: Option<Span>, message: String)
        ensures
            final(self)@ == old(self)@.push(error_at(span, message@)),
            extends(old(self)@, final(self)@),
            error_count(final(self)@) == error_count(old(self)@) + 1,
    {
        self.push(Severity::Error, span, message);
        assert(self@.drop_last() =~= old(self)@);
    }

    fn count(&self, severity: Severity) -> (n: usize)
        ensures
            n == count_severity(self@, severity),
    {
        let mut n: usize = 0;
        let mut i: usize = 0;
        while i < self.items.len()
            invariant
                i <= self.items@.len(),
                self@.len() == self.items@.len(),
                n == count_severity(self@.take(i as int), severity),
                n <= i,
            decreases self.items.len() - i,
        {
            assert(self@.take(i + 1).drop_last() =~= self@.take(i as int));
            if self.items[i].severity == severity {
                n += 1;
            }
            i += 1;
        }
        assert(self@.take(self@.len() as int) =~= self@);
        n
    }

    /// Whether any error has been reported.
    pub fn has_errors(&self) -> (b: bool)
        ensures
            b == has_error(self@),
    {
        let mut i: usize = 0;
        while i < self.items.len()
            invariant
                i <= self.items@.len(),
                self@.len() == self.items@.len(),
                forall|k: int| 0 <= k < i ==> self@[k].severity != Severity::Error,
            decreases self.items.len() - i,
        {
            if self.items[i].severity == Severity::Error {
                assert(self@[i as int].severity == Severity::Error);
                return true;
            }
            i += 1;
        }
        false
    }

    /// Number of errors reported.
    pub fn errors_count(&self) -> (n: usize)
        ensures
            n == count_severity(self@, Severity::Error),
    {
        self.count(Severity::Error)
    }

    /// Number of warnings reported.
    pub fn warnings_count(&self) -> (n: usize)
        ensures
            n == count_severity(self@, Severity::Warning),
    {
        self.count(Severity::Warning)
    }

    /// All diagnostics, in the order they were reported.
    pub fn items(&self) -> (r: &[Diagnostic])
        ensures
            r@.map_values(|d: Diagnostic| d@) == self@,
    {
        self.items.as_slice()
    }
}

/// Every diagnostic is either a warning or an error: the two counts add up to the
/// number of diagnostics.
pub proof fn lemma_counts_partition(items: Seq<DiagnosticView>)
    ensures
        count_severity(items, Severity::Error) + count_severity(items, Severity::Warning)
            == items.len(),
    decreases items.len(),
{
    if items.len() > 0 {
        lemma_counts_partition(items.drop_last());
    }
}

/// There are errors exactly when the error count is positive.
pub proof fn lemma_has_error_iff_count(items: Seq<DiagnosticView>)
    ensures
        has_error(items) <==> count_severity(items, Severity::Error) > 0,
    decreases items.len(),
{
    if items.len() > 0 {
        lemma_has_error_iff_count(items.drop_last());
        let p = items.drop_last();
        if has_error(p) {
            let i = choose|i: int| 0 <= i < p.len() && p[i].severity == Severity::Error;
            assert(items[i] == p[i]);
        }
        if has_error(items) && items.last().severity != Severity::Error {
            let i = choose|i: int| 0 <= i < items.len() && items[i].severity == Severity::Error;
            assert(p[i] == items[i]);
        }
    }
}

/// Appending diagnostics keeps every error already reported.
pub proof fn lemma_has_error_extends(a: Seq<DiagnosticView>, b: Seq<DiagnosticView>)
    requires
        has_error(a),
    ensures
        has_error(a + b),
{
    let i = choose|i: int| 0 <= i < a.len() && a[i].severity == Severity::Error;
    assert((a + b)[i] == a[i]);
}

} // verus!
