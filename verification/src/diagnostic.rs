//! Diagnostics: the ordered report every pass returns to the driver.
//! The core never renders a diagnostic; it returns data and the caller
//! decides how to show it.

use vstd::prelude::*;

verus! {

/// Severity of one diagnostic.
///
/// `Error` is a user-fixable fault (unresolved name, type mismatch, missing
/// entry point, cyclic or missing dependency) and halts pipeline progression
/// at the next gate. `Warning` is a lint advisory and never halts the
/// pipeline. `Internal` signals a defect in the compiler itself (for example
/// a binding id looked up but absent); it is surfaced to the user with a
/// request to report it upstream, and gates exactly as `Error` does.
#[derive(Clone, Copy, Debug, PartialEq, Eq, Structural)]
pub enum Severity {
    Error,
    Warning,
    Internal,
}

/// One entry of the report: a severity, a message, and an optional source
/// span (byte offsets into the module's source file).
#[derive(Debug)]
pub struct Diagnostic {
    pub severity: Severity,
    pub message: String,
    pub span: Option<(usize, usize)>,
}

/// Severities that halt the pipeline at the next gate: user errors and
/// internal defects. Warnings never gate.
pub open spec fn gates(s: Severity) -> bool {
    s is Error || s is Internal
}

/// Whether an accumulated report contains a diagnostic that gates.
pub open spec fn any_gating(ds: Seq<Diagnostic>) -> bool {
    exists|i: int| 0 <= i < ds.len() && gates(ds[i].severity)
}

/// The ghost shape of one diagnostic: severity, message contents, span.
/// Phase contracts describe their reports as sequences of these.
pub type DiagEntry = (Severity, Seq<char>, Option<(usize, usize)>);

/// The report `ds` carries exactly the modelled diagnostics, in order.
pub open spec fn diags_match(ds: Seq<Diagnostic>, m: Seq<DiagEntry>) -> bool {
    &&& ds.len() == m.len()
    &&& forall|i: int|
        0 <= i < m.len() ==> {
            &&& (#[trigger] ds[i]).severity == m[i].0
            &&& ds[i].message@ == m[i].1
            &&& ds[i].span == m[i].2
        }
}

/// A gating entry somewhere in a modelled report.
pub open spec fn model_gating(m: Seq<DiagEntry>) -> bool {
    exists|i: int| 0 <= i < m.len() && gates(m[i].0)
}

/// Appending one matching diagnostic keeps a report matching its model.
pub proof fn lemma_diags_match_push(ds: Seq<Diagnostic>, m: Seq<DiagEntry>, d: Diagnostic, e: DiagEntry)
    requires
        diags_match(ds, m),
        d.severity == e.0,
        d.message@ == e.1,
        d.span == e.2,
    ensures
        diags_match(ds.push(d), m.push(e)),
{
}

/// Reports matching two models concatenate to a report matching the
/// concatenated model.
pub proof fn lemma_diags_match_concat(
    ds1: Seq<Diagnostic>,
    m1: Seq<DiagEntry>,
    ds2: Seq<Diagnostic>,
    m2: Seq<DiagEntry>,
)
    requires
        diags_match(ds1, m1),
        diags_match(ds2, m2),
    ensures
        diags_match(ds1 + ds2, m1 + m2),
{
}

/// `new` is `old` with diagnostics matching `m` appended, in order.
pub open spec fn extends_matching(
    old: Seq<Diagnostic>,
    new: Seq<Diagnostic>,
    m: Seq<DiagEntry>,
) -> bool {
    &&& new.len() == old.len() + m.len()
    &&& new.take(old.len() as int) == old
    &&& diags_match(new.skip(old.len() as int), m)
}

/// A report extends itself by nothing.
pub proof fn lemma_extends_refl(ds: Seq<Diagnostic>)
    ensures
        extends_matching(ds, ds, Seq::<DiagEntry>::empty()),
{
    assert(ds.take(ds.len() as int) =~= ds);
    assert(ds.skip(ds.len() as int) =~= Seq::<Diagnostic>::empty());
}

/// Pushing one matching diagnostic extends a report by one model entry.
pub proof fn lemma_extends_push(ds: Seq<Diagnostic>, d: Diagnostic, e: DiagEntry)
    requires
        d.severity == e.0,
        d.message@ == e.1,
        d.span == e.2,
    ensures
        extends_matching(ds, ds.push(d), seq![e]),
{
    assert(ds.push(d).take(ds.len() as int) =~= ds);
    assert(ds.push(d).skip(ds.len() as int) =~= seq![d]);
}

/// Two extensions in a row extend by the concatenated models.
pub proof fn lemma_extends_trans(
    a: Seq<Diagnostic>,
    b: Seq<Diagnostic>,
    c: Seq<Diagnostic>,
    m1: Seq<DiagEntry>,
    m2: Seq<DiagEntry>,
)
    requires
        extends_matching(a, b, m1),
        extends_matching(b, c, m2),
    ensures
        extends_matching(a, c, m1 + m2),
{
    assert(c.take(a.len() as int) =~= b.take(a.len() as int));
    assert forall|i: int| 0 <= i < m1.len() + m2.len() implies {
        &&& (#[trigger] c.skip(a.len() as int)[i]).severity == (m1 + m2)[i].0
        &&& c.skip(a.len() as int)[i].message@ == (m1 + m2)[i].1
        &&& c.skip(a.len() as int)[i].span == (m1 + m2)[i].2
    } by {
        if i < m1.len() {
            assert(c.skip(a.len() as int)[i] == b.skip(a.len() as int)[i]);
            assert(b.skip(a.len() as int)[i].severity == m1[i].0);
        } else {
            assert(c.skip(a.len() as int)[i] == c.skip(b.len() as int)[i - m1.len()]);
        }
    }
}

/// A report matching a model, extended by a further model, matches the
/// concatenation.
pub proof fn lemma_extends_matches(
    a: Seq<Diagnostic>,
    b: Seq<Diagnostic>,
    ma: Seq<DiagEntry>,
    m2: Seq<DiagEntry>,
)
    requires
        diags_match(a, ma),
        extends_matching(a, b, m2),
    ensures
        diags_match(b, ma + m2),
{
    assert forall|i: int| 0 <= i < ma.len() + m2.len() implies {
        &&& (#[trigger] b[i]).severity == (ma + m2)[i].0
        &&& b[i].message@ == (ma + m2)[i].1
        &&& b[i].span == (ma + m2)[i].2
    } by {
        if i < ma.len() {
            assert(b[i] == b.take(a.len() as int)[i]);
        } else {
            assert(b[i] == b.skip(a.len() as int)[i - a.len()]);
        }
    }
}

/// A concatenated model gates exactly when one of its parts does.
pub proof fn lemma_model_gating_concat(a: Seq<DiagEntry>, b: Seq<DiagEntry>)
    ensures
        model_gating(a + b) == (model_gating(a) || model_gating(b)),
{
    if model_gating(a + b) {
        let i = choose|i: int| 0 <= i < (a + b).len() && gates((a + b)[i].0);
        if i < a.len() {
            assert(gates(a[i].0));
        } else {
            assert(gates(b[i - a.len()].0));
        }
    }
    if model_gating(a) {
        let i = choose|i: int| 0 <= i < a.len() && gates(a[i].0);
        assert(gates((a + b)[i].0));
    }
    if model_gating(b) {
        let i = choose|i: int| 0 <= i < b.len() && gates(b[i].0);
        assert(gates((a + b)[a.len() + i].0));
    }
}

/// A matching report gates exactly when its model does.
pub proof fn lemma_diags_match_gating(ds: Seq<Diagnostic>, m: Seq<DiagEntry>)
    requires
        diags_match(ds, m),
    ensures
        any_gating(ds) == model_gating(m),
{
    if any_gating(ds) {
        let i = choose|i: int| 0 <= i < ds.len() && gates(ds[i].severity);
        assert(gates(m[i].0));
    }
    if model_gating(m) {
        let i = choose|i: int| 0 <= i < m.len() && gates(m[i].0);
        assert(gates(ds[i].severity));
    }
}

impl Diagnostic {
    /// An `Error`-severity diagnostic without a source span.
    pub fn error(message: String) -> (d: Diagnostic)
        ensures
            d.severity is Error,
            d.message == message,
            d.span is None,
    {
        Diagnostic { severity: Severity::Error, message, span: None }
    }

    /// An `Error`-severity diagnostic pointing at a source span.
    pub fn error_at(message: String, span: Option<(usize, usize)>) -> (d: Diagnostic)
        ensures
            d.severity is Error,
            d.message == message,
            d.span == span,
    {
        Diagnostic { severity: Severity::Error, message, span }
    }

    /// A `Warning`-severity diagnostic pointing at a source span.
    pub fn warning_at(message: String, span: Option<(usize, usize)>) -> (d: Diagnostic)
        ensures
            d.severity is Warning,
            d.message == message,
            d.span == span,
    {
        Diagnostic { severity: Severity::Warning, message, span }
    }

    /// An `Internal`-severity diagnostic pointing at a source span.
    pub fn internal_at(message: String, span: Option<(usize, usize)>) -> (d: Diagnostic)
        ensures
            d.severity is Internal,
            d.message == message,
            d.span == span,
    {
        Diagnostic { severity: Severity::Internal, message, span }
    }

    /// A `Warning`-severity diagnostic without a source span.
    pub fn warning(message: String) -> (d: Diagnostic)
        ensures
            d.severity is Warning,
            d.message == message,
            d.span is None,
    {
        Diagnostic { severity: Severity::Warning, message, span: None }
    }

    /// An `Internal`-severity diagnostic without a source span.
    pub fn internal(message: String) -> (d: Diagnostic)
        ensures
            d.severity is Internal,
            d.message == message,
            d.span is None,
    {
        Diagnostic { severity: Severity::Internal, message, span: None }
    }

    /// Whether a renderer must attach the "report this to the maintainers"
    /// note: exactly the `Internal` diagnostics.
    pub fn needs_bug_report(&self) -> (r: bool)
        ensures
            r == (self.severity is Internal),
    {
        self.severity == Severity::Internal
    }
}

/// True iff the report holds a diagnostic that halts the pipeline at a gate
/// (`Error` or `Internal` severity); the driver's sole stop authority.
pub fn has_error(ds: &Vec<Diagnostic>) -> (r: bool)
    ensures
        r == any_gating(ds@),
{
    let mut i: usize = 0;
    while i < ds.len()
        invariant
            0 <= i <= ds.len(),
            forall|j: int| 0 <= j < i ==> !gates(ds@[j].severity),
        decreases ds.len() - i,
    {
        let s = ds[i].severity;
        if s == Severity::Error || s == Severity::Internal {
            return true;
        }
        i += 1;
    }
    false
}

} // verus!
