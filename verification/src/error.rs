//! Diagnostics: source spans, severities, error kinds, and the collector
//! that gathers diagnostics during a compilation pass.

use vstd::prelude::*;

verus! {

/// A region of source code, with its position and line/column for reports.
#[derive(Debug, Clone, Copy, PartialEq, Eq, Structural)]
pub struct Span {
    pub start: usize,
    pub end: usize,
    pub line: u32,
    pub column: u32,
}

impl Span {
    pub fn new(start: usize, end: usize, line: u32, column: u32) -> (r: Span)
        ensures
            r == (Span { start, end, line, column }),
    {
        Span { start, end, line, column }
    }

    /// The span used where no location is known.
    pub fn unknown() -> (r: Span)
        ensures
            r == (Span { start: 0, end: 0, line: 0, column: 0 }),
    {
        Span { start: 0, end: 0, line: 0, column: 0 }
    }
}

/// How serious a diagnostic is.
#[derive(Debug, Clone, Copy, PartialEq, Eq, Structural)]
pub enum Severity {
    Error,
    Warning,
    Info,
    Hint,
}

/// What went wrong, from scanning through name resolution to the
/// consensus- and network-specific checks.
#[derive(Debug, Clone, PartialEq, Eq)]
pub enum ErrorKind {
    UnexpectedCharacter(char),
    UnterminatedString,
    InvalidNumber,
    UnexpectedToken { expected: String, found: String },
    UnexpectedEof,
    InvalidSyntax(String),
    UndeclaredVariable(String),
    DuplicateDefinition(String),
    TypeMismatch { expected: String, found: String },
    InvalidConsensusConfig(String),
    InvalidValidatorCount,
    UnsupportedConsensusAlgorithm(String),
    InvalidTimeout,
    MissingReplicatedAnnotation,
    InvalidNetworkConfig(String),
    InvalidPort,
    UnsupportedDiscoveryMethod(String),
}

/// One report: its severity, kind, message, location, and optional help.
#[derive(Debug, Clone, PartialEq, Eq)]
pub struct Diagnostic {
    pub severity: Severity,
    pub kind: ErrorKind,
    pub message: String,
    pub span: Span,
    pub help: Option<String>,
}

impl Diagnostic {
    /// An error report without help text.
    pub fn error(kind: ErrorKind, message: String, span: Span) -> (r: Diagnostic)
        ensures
            r == (Diagnostic { severity: Severity::Error, kind, message, span, help: Option::None }),
    {
        Diagnostic { severity: Severity::Error, kind, message, span, help: None }
    }

    /// A warning report without help text.
    pub fn warning(kind: ErrorKind, message: String, span: Span) -> (r: Diagnostic)
        ensures
            r == (Diagnostic {
                severity: Severity::Warning,
                kind,
                message,
                span,
                help: Option::None,
            }),
    {
        Diagnostic { severity: Severity::Warning, kind, message, span, help: None }
    }

    /// The same report with help text attached.
    pub fn with_help(self, help: String) -> (r: Diagnostic)
        ensures
            r == (Diagnostic {
                severity: self.severity,
                kind: self.kind,
                message: self.message,
                span: self.span,
                help: Option::Some(help),
            }),
    {
        Diagnostic {
            severity: self.severity,
            kind: self.kind,
            message: self.message,
            span: self.span,
            help: Some(help),
        }
    }
}

/// Result of a compilation step: the value, or every diagnostic gathered.
pub type CompilerResult<T> = Result<T, Vec<Diagnostic>>;

/// Gathers diagnostics during a pass, and decides at the end whether the
/// pass succeeded.
#[derive(Debug)]
pub struct DiagnosticCollector {
    pub diagnostics: Vec<Diagnostic>,
}

impl Default for DiagnosticCollector {
    fn default() -> (r: DiagnosticCollector)
        ensures
            r.diagnostics@.len() == 0,
    {
        DiagnosticCollector { diagnostics: Vec::new() }
    }
}

impl DiagnosticCollector {
    pub fn new() -> (r: DiagnosticCollector)
        ensures
            r.diagnostics@.len() == 0,
    {
        DiagnosticCollector { diagnostics: Vec::new() }
    }

    /// Record an error.
    pub fn error(&mut self, kind: ErrorKind, message: String, span: Span)
        ensures
            final(self).diagnostics@ == old(self).diagnostics@.push(
                (Diagnostic { severity: Severity::Error, kind, message, span, help: Option::None }),
            ),
    {
        self.diagnostics.push(Diagnostic::error(kind, message, span));
    }

    /// Record a warning.
    pub fn warning(&mut self, kind: ErrorKind, message: String, span: Span)
        ensures
            final(self).diagnostics@ == old(self).diagnostics@.push(
                (Diagnostic {
                    severity: Severity::Warning,
                    kind,
                    message,
                    span,
                    help: Option::None,
                }),
            ),
    {
        self.diagnostics.push(Diagnostic::warning(kind, message, span));
    }

    /// Whether any gathered diagnostic is an error.
    pub fn has_errors(&self) -> (r: bool)
        ensures
            r == exists|i: int|
                0 <= i < self.diagnostics@.len() && self.diagnostics@[i].severity
                    == Severity::Error,
    {
        let n = self.diagnostics.len();
        let mut i: usize = 0;
        while i < n
            invariant
                n == self.diagnostics@.len(),
                i <= n,
                forall|j: int| 0 <= j < i ==> self.diagnostics@[j].severity != Severity::Error,
            decreases n - i,
        {
            if matches!(self.diagnostics[i].severity, Severity::Error) {
                return true;
            }
            i = i + 1;
        }
        false
    }

    /// Finish the pass: the value when nothing was gathered, otherwise
    /// every diagnostic.
    pub fn into_result<T>(self, value: T) -> (r: CompilerResult<T>)
        ensures
            self.diagnostics@.len() == 0 <==> r is Ok,
            r matches Result::Ok(v) ==> v == value,
            r matches Result::Err(ds) ==> ds@ == self.diagnostics@,
    {
        if self.diagnostics.is_empty() {
            Ok(value)
        } else {
            Err(self.diagnostics)
        }
    }

    /// The diagnostics gathered so far.
    pub fn diagnostics(&self) -> (r: &[Diagnostic])
        ensures
            r@ == self.diagnostics@,
    {
        self.diagnostics.as_slice()
    }
}

} // verus!
