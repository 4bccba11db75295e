//! Running `check` and `validate`: which files to scan and in what order,
//! the outcome of a check, the validation summary and the exit code.
use vstd::prelude::*;
use crate::checks::{count_severity, finding_views, run, spec_findings, Finding, Summary};
use crate::config::Config;
use crate::exceptions::ExceptionEntry;
use crate::globs::{first_bad_glob, set_builds, GlobError, GlobFilter};
use crate::inventory::{slug_set, Inventory};
use crate::report::{human, human_text, plural, sort_findings, sorted_by_key, stable_sort};
use crate::scan::ScanOutput;
use crate::text::{chars_of, compare_chars, dec_digits, lemma_seq_lt_irreflexive, lemma_seq_lt_total,
    lemma_seq_lt_transitive, push_char, push_dec, push_str, seq_lt, str_views};

verus! {

/// Options of `check`.
pub struct CheckOpts {
    /// File or directory of inventory YAML.
    pub inventory: String,
    /// Config file; when absent the nearest `.reqtrace.toml` is used.
    pub config: Option<String>,
    /// Where to write the JSON report, if anywhere.
    pub json: Option<String>,
    /// Files and directories to scan, in place of the configured globs.
    pub doc_paths: Vec<String>,
}

/// Options of `validate`.
pub struct ValidateOpts {
    /// File or directory of inventory YAML.
    pub inventory: String,
    /// Config file; when absent the nearest `.reqtrace.toml` is used.
    pub config: Option<String>,
}

/// Why the scan set could not be resolved.
#[derive(Debug, Clone, PartialEq, Eq)]
pub enum RunError {
    /// Neither doc paths nor configured globs.
    NoDocs,
    /// A doc path names nothing on disk.
    MissingDocPath { path: String },
    /// The configured globs do not compile.
    Glob(GlobError),
}

impl RunError {
    pub open spec fn spec_message(&self) -> Seq<char> {
        match self {
            RunError::NoDocs => "no docs to scan: pass <doc-paths> or set [scan].globs in config"@,
            RunError::MissingDocPath { path } => "doc path "@ + path@ + " does not exist"@,
            RunError::Glob(GlobError::Invalid { glob, detail }) => "invalid glob `"@ + glob@ + "`: "@ + detail@,
            RunError::Glob(GlobError::Build { detail }) => "building glob set: "@ + detail@,
        }
    }

    /// The error as one line of text.
    pub fn message(&self) -> (m: String)
        ensures
            m@ == self.spec_message(),
    {
        let mut m = String::new();
        match self {
            RunError::NoDocs => push_str(&mut m, "no docs to scan: pass <doc-paths> or set [scan].globs in config"),
            RunError::MissingDocPath { path } => {
                push_str(&mut m, "doc path ");
                push_str(&mut m, path.as_str());
                push_str(&mut m, " does not exist");
            },
            RunError::Glob(GlobError::Invalid { glob, detail }) => {
                push_str(&mut m, "invalid glob `");
                push_str(&mut m, glob.as_str());
                push_str(&mut m, "`: ");
                push_str(&mut m, detail.as_str());
            },
            RunError::Glob(GlobError::Build { detail }) => {
                push_str(&mut m, "building glob set: ");
                push_str(&mut m, detail.as_str());
            },
        }
        assert(m@ =~= self.spec_message());
        m
    }
}

// ---------------------------------------------------------------------------
// Where the files to scan come from

/// Doc paths, when given, replace the configured globs entirely.
pub enum ScanSource {
    /// Scan the doc paths given on the command line.
    DocPaths,
    /// Scan the files below the working directory that the globs select.
    Globs(GlobFilter),
}

/// Doc paths win; else the configured globs, compiled; neither is a usage
/// error.
///
/// Covers: cli~docpaths~1
pub fn scan_source(has_doc_paths: bool, cfg: &Config) -> (r: Result<ScanSource, RunError>)
    ensures
        has_doc_paths ==> r matches Ok(ScanSource::DocPaths),
        !has_doc_paths && cfg.globs@.len() == 0 ==> r matches Err(RunError::NoDocs),
        !has_doc_paths && cfg.globs@.len() > 0 ==> match first_bad_glob(str_views(cfg.globs@)) {
            Some(i) => r matches Err(RunError::Glob(GlobError::Invalid { glob, .. })) && glob@ == cfg.globs@[i]@,
            None => if set_builds(str_views(cfg.globs@)) {
                r matches Ok(ScanSource::Globs(f)) && f.patterns() == str_views(cfg.globs@)
            } else {
                r matches Err(RunError::Glob(GlobError::Build { .. }))
            },
        },
{
    if has_doc_paths {
        Ok(ScanSource::DocPaths)
    } else if cfg.globs.len() > 0 {
        match GlobFilter::compile(&cfg.globs) {
            Ok(f) => Ok(ScanSource::Globs(f)),
            Err(e) => Err(RunError::Glob(e)),
        }
    } else {
        Err(RunError::NoDocs)
    }
}

/// Hidden: a file or directory below the walk's root whose name starts
/// with `.`; a name that is not UTF-8 is not hidden.
pub fn is_hidden(depth: usize, name: Option<&str>) -> (r: bool)
    ensures
        r == (depth > 0 && (name matches Some(s) && s@.len() > 0 && s@[0] == '.')),
{
    if depth == 0 {
        return false;
    }
    match name {
        Some(s) => {
            let v = chars_of(s);
            v.len() > 0 && v[0] == '.'
        },
        None => false,
    }
}

/// `\` turned into `/`.
pub open spec fn forward_slashes(p: Seq<char>) -> Seq<char> {
    p.map_values(|c: char| if c == '\\' { '/' } else { c })
}

/// A relative path as reported: `/` separators, one leading `./` dropped.
pub open spec fn display_of(rel: Seq<char>) -> Seq<char> {
    let s = forward_slashes(rel);
    if s.len() >= 2 && s[0] == '.' && s[1] == '/' {
        s.skip(2)
    } else {
        s
    }
}

/// Paths are reported relative to the working directory with `/`
/// separators; `rel` is the path already made relative.
///
/// Covers: cli~determinism~2
pub fn display_path(rel: &str) -> (r: String)
    ensures
        r@ == display_of(rel@),
        forall|i: int| 0 <= i < r@.len() ==> #[trigger] r@[i] != '\\',
{
    let v = chars_of(rel);
    let ghost s = forward_slashes(rel@);
    let start: usize = if v.len() >= 2 && v[0] == '.' && (v[1] == '/' || v[1] == '\\') {
        2
    } else {
        0
    };
    let mut out = String::new();
    let mut i: usize = start;
    assert(s.skip(start as int).take(0) =~= Seq::<char>::empty());
    while i < v.len()
        invariant
            v@ == rel@,
            s == forward_slashes(rel@),
            start <= i <= v@.len(),
            out@ == s.skip(start as int).take(i - start),
        decreases v.len() - i,
    {
        let c = v[i];
        if c == '\\' {
            push_char(&mut out, '/');
        } else {
            push_char(&mut out, c);
        }
        assert(s.skip(start as int).take(i + 1 - start) =~= s.skip(start as int).take(i - start).push(s[i as int]));
        i = i + 1;
    }
    assert(s.skip(start as int).take(v@.len() - start) =~= s.skip(start as int));
    assert(s.skip(0) =~= s);
    assert forall|i: int| 0 <= i < out@.len() implies #[trigger] out@[i] != '\\' by {
        assert(out@[i] == s[i + start]);
    }
    out
}

// ---------------------------------------------------------------------------
// The scan set: display paths, each once, in ascending order

/// A file to scan: its display path and which of the caller's paths it is.
pub struct ScanEntry {
    pub display: String,
    pub source: usize,
}

/// Display paths strictly ascending.
pub open spec fn entries_sorted(es: Seq<ScanEntry>) -> bool {
    forall|a: int, b: int| 0 <= a < b < es.len() ==> seq_lt(#[trigger] es[a].display@, #[trigger] es[b].display@)
}

/// The set maps display path `k` to source `v`.
pub open spec fn holds_entry(es: Seq<ScanEntry>, k: Seq<char>, v: usize) -> bool {
    exists|i: int| 0 <= i < es.len() && #[trigger] es[i].display@ == k && es[i].source == v
}

/// The files to scan, keyed by display path: each once, ascending, so the
/// scan order does not depend on the order the files were found in.
pub struct ScanSet {
    pub entries: Vec<ScanEntry>,
}

impl ScanSet {
    pub open spec fn wf(&self) -> bool {
        entries_sorted(self.entries@)
    }

    pub fn new() -> (s: ScanSet)
        ensures
            s.wf(),
            s.entries@.len() == 0,
    {
        ScanSet { entries: Vec::new() }
    }

    /// Records `source` under `display`; a display path seen before keeps
    /// its place and takes the new source.
    #[verifier::rlimit(60)]
    pub fn insert(&mut self, display: String, source: usize)
        requires
            old(self).wf(),
        ensures
            final(self).wf(),
            forall|k: Seq<char>, v: usize| #[trigger] holds_entry(final(self).entries@, k, v) <==> ((k == display@ && v == source)
                || (k != display@ && holds_entry(old(self).entries@, k, v))),
    {
        let dv = chars_of(display.as_str());
        let ghost dk = display@;
        let ghost es = self.entries@;
        let mut p: usize = 0;
        let mut c: i8 = -1;
        while c == -1 && p < self.entries.len()
            invariant
                self.entries@ == es,
                entries_sorted(es),
                dv@ == dk,
                p <= es.len(),
                forall|a: int| 0 <= a < p ==> seq_lt(#[trigger] es[a].display@, dk),
                c == -1 || c == 0 || c == 1,
                c == 0 ==> p < es.len() && es[p as int].display@ == dk,
                c == 1 ==> p < es.len() && seq_lt(dk, es[p as int].display@),
            decreases (es.len() - p) * 2 + (if c == -1 { 1int } else { 0int }),
        {
            let ev = chars_of(self.entries[p].display.as_str());
            c = compare_chars(&ev, &dv);
            if c == -1 {
                p = p + 1;
            }
        }
        if p < self.entries.len() && c == 0 {
            self.entries.set(p, ScanEntry { display, source });
            proof {
                let ns = self.entries@;
                assert forall|a: int, b: int| 0 <= a < b < ns.len() implies seq_lt(#[trigger] ns[a].display@, #[trigger] ns[b].display@) by {
                    assert(ns[a].display@ == es[a].display@);
                    assert(ns[b].display@ == es[b].display@);
                }
                lemma_replace_entry(es, p as int, ScanEntry { display, source });
            }
        } else {
            proof {
                assert forall|a: int| p <= a < es.len() implies seq_lt(dk, #[trigger] es[a].display@) by {
                    if a > p {
                        lemma_seq_lt_transitive(dk, es[p as int].display@, es[a].display@);
                    }
                }
            }
            self.entries.insert(p, ScanEntry { display, source });
            proof {
                let ns = self.entries@;
                assert(ns =~= es.insert(p as int, ScanEntry { display, source }));
                assert forall|a: int, b: int| 0 <= a < b < ns.len() implies seq_lt(#[trigger] ns[a].display@, #[trigger] ns[b].display@) by {
                    if b < p {
                        assert(ns[a] == es[a] && ns[b] == es[b]);
                    } else if b == p {
                        assert(ns[a] == es[a]);
                    } else if a < p {
                        assert(ns[a] == es[a] && ns[b] == es[b - 1]);
                        lemma_seq_lt_transitive(es[a].display@, dk, es[b - 1].display@);
                    } else if a == p {
                        assert(ns[b] == es[b - 1]);
                    } else {
                        assert(ns[a] == es[a - 1] && ns[b] == es[b - 1]);
                    }
                }
                lemma_insert_entry(es, p as int, ScanEntry { display, source });
            }
        }
    }
}

/// The entries as (display path, source) pairs.
pub open spec fn entry_views(es: Seq<ScanEntry>) -> Seq<(Seq<char>, usize)> {
    Seq::new(es.len(), |i: int| (es[i].display@, es[i].source))
}

proof fn lemma_sorted_min(es: Seq<ScanEntry>, k: Seq<char>, v: usize)
    requires
        entries_sorted(es),
        es.len() > 0,
        holds_entry(es, k, v),
    ensures
        k == es[0].display@ || seq_lt(es[0].display@, k),
{
    let i = choose|i: int| 0 <= i < es.len() && #[trigger] es[i].display@ == k && es[i].source == v;
    if i > 0 {
        assert(seq_lt(es[0].display@, es[i].display@));
    }
}

/// The scan set is canonical: two sets that map the same display paths to
/// the same sources hold the same entries in the same order, whatever order
/// the files were inserted in.
///
/// Covers: cli~determinism~2
#[verifier::rlimit(60)]
pub proof fn law_scan_set_canonical(a: Seq<ScanEntry>, b: Seq<ScanEntry>)
    requires
        entries_sorted(a),
        entries_sorted(b),
        forall|k: Seq<char>, v: usize| #[trigger] holds_entry(a, k, v) <==> holds_entry(b, k, v),
    ensures
        entry_views(a) == entry_views(b),
    decreases a.len() + b.len(),
{
    if a.len() == 0 || b.len() == 0 {
        if a.len() > 0 {
            assert(holds_entry(a, a[0].display@, a[0].source));
        }
        if b.len() > 0 {
            assert(holds_entry(b, b[0].display@, b[0].source));
            assert(holds_entry(a, b[0].display@, b[0].source));
        }
        assert(entry_views(a) =~= entry_views(b));
    } else {
        let (ka, va) = (a[0].display@, a[0].source);
        let (kb, vb) = (b[0].display@, b[0].source);
        assert(holds_entry(a, ka, va));
        assert(holds_entry(b, kb, vb));
        lemma_sorted_min(b, ka, va);
        lemma_sorted_min(a, kb, vb);
        lemma_seq_lt_total(ka, kb);
        assert(ka == kb);
        // Keys are unique, so the sources agree too.
        let j = choose|j: int| 0 <= j < b.len() && #[trigger] b[j].display@ == ka && b[j].source == va;
        if j > 0 {
            assert(seq_lt(b[0].display@, b[j].display@));
            lemma_seq_lt_irreflexive(ka);
        }
        assert(va == vb);
        let a1 = a.drop_first();
        let b1 = b.drop_first();
        assert forall|x: int, y: int| 0 <= x < y < a1.len() implies seq_lt(#[trigger] a1[x].display@, #[trigger] a1[y].display@) by {
            assert(a1[x] == a[x + 1] && a1[y] == a[y + 1]);
        }
        assert forall|x: int, y: int| 0 <= x < y < b1.len() implies seq_lt(#[trigger] b1[x].display@, #[trigger] b1[y].display@) by {
            assert(b1[x] == b[x + 1] && b1[y] == b[y + 1]);
        }
        lemma_seq_lt_irreflexive(ka);
        assert forall|k: Seq<char>, v: usize| #[trigger] holds_entry(a1, k, v) <==> holds_entry(b1, k, v) by {
            assert forall|k2: Seq<char>, v2: usize| #[trigger] holds_entry(a1, k2, v2) <==> (holds_entry(a, k2, v2) && k2 != ka) by {
                if holds_entry(a1, k2, v2) {
                    let i = choose|i: int| 0 <= i < a1.len() && #[trigger] a1[i].display@ == k2 && a1[i].source == v2;
                    assert(a[i + 1] == a1[i]);
                    assert(a[i + 1].display@ == k2);
                    assert(seq_lt(a[0].display@, a[i + 1].display@));
                }
                if holds_entry(a, k2, v2) && k2 != ka {
                    let i = choose|i: int| 0 <= i < a.len() && #[trigger] a[i].display@ == k2 && a[i].source == v2;
                    assert(i != 0);
                    assert(a1[i - 1] == a[i]);
                    assert(a1[i - 1].display@ == k2);
                }
            }
            assert forall|k2: Seq<char>, v2: usize| #[trigger] holds_entry(b1, k2, v2) <==> (holds_entry(b, k2, v2) && k2 != ka) by {
                if holds_entry(b1, k2, v2) {
                    let i = choose|i: int| 0 <= i < b1.len() && #[trigger] b1[i].display@ == k2 && b1[i].source == v2;
                    assert(b[i + 1] == b1[i]);
                    assert(b[i + 1].display@ == k2);
                    assert(seq_lt(b[0].display@, b[i + 1].display@));
                }
                if holds_entry(b, k2, v2) && k2 != ka {
                    let i = choose|i: int| 0 <= i < b.len() && #[trigger] b[i].display@ == k2 && b[i].source == v2;
                    assert(i != 0);
                    assert(b1[i - 1] == b[i]);
                    assert(b1[i - 1].display@ == k2);
                }
            }
            assert(holds_entry(a1, k, v) == (holds_entry(a, k, v) && k != ka));
            assert(holds_entry(b1, k, v) == (holds_entry(b, k, v) && k != ka));
        }
        law_scan_set_canonical(a1, b1);
        assert(entry_views(a1) == entry_views(b1));
        assert(entry_views(a).len() == entry_views(b).len()) by {
            assert(entry_views(a1).len() == entry_views(b1).len());
        }
        assert forall|i: int| 0 <= i < a.len() implies #[trigger] entry_views(a)[i] == entry_views(b)[i] by {
            if i > 0 {
                assert(entry_views(a1)[i - 1] == entry_views(a)[i]);
                assert(entry_views(b1)[i - 1] == entry_views(b)[i]);
            }
        }
        assert(entry_views(a) =~= entry_views(b));
    }
}

proof fn lemma_replace_entry(es: Seq<ScanEntry>, p: int, e: ScanEntry)
    requires
        entries_sorted(es),
        0 <= p < es.len(),
        es[p].display@ == e.display@,
    ensures
        forall|k: Seq<char>, v: usize| #[trigger] holds_entry(es.update(p, e), k, v) <==> ((k == e.display@ && v == e.source)
            || (k != e.display@ && holds_entry(es, k, v))),
{
    let ns = es.update(p, e);
    lemma_seq_lt_irreflexive(e.display@);
    assert forall|k: Seq<char>, v: usize| #[trigger] holds_entry(ns, k, v) implies ((k == e.display@ && v == e.source)
        || (k != e.display@ && holds_entry(es, k, v))) by {
        let i = choose|i: int| 0 <= i < ns.len() && #[trigger] ns[i].display@ == k && ns[i].source == v;
        if i != p {
            assert(es[i] == ns[i]);
            assert(es[i].display@ == k && es[i].source == v);
            if k == e.display@ {
                if i < p {
                    assert(seq_lt(es[i].display@, es[p].display@));
                } else {
                    assert(seq_lt(es[p].display@, es[i].display@));
                }
            }
        }
    }
    assert forall|k: Seq<char>, v: usize| ((k == e.display@ && v == e.source)
        || (k != e.display@ && holds_entry(es, k, v))) implies #[trigger] holds_entry(ns, k, v) by {
        if k == e.display@ && v == e.source {
            assert(ns[p].display@ == k);
        } else {
            let i = choose|i: int| 0 <= i < es.len() && #[trigger] es[i].display@ == k && es[i].source == v;
            assert(i != p);
            assert(ns[i] == es[i]);
            assert(ns[i].display@ == k);
        }
    }
}

proof fn lemma_insert_entry(es: Seq<ScanEntry>, p: int, e: ScanEntry)
    requires
        0 <= p <= es.len(),
        forall|a: int| 0 <= a < p ==> seq_lt(#[trigger] es[a].display@, e.display@),
        forall|a: int| p <= a < es.len() ==> seq_lt(e.display@, #[trigger] es[a].display@),
    ensures
        forall|k: Seq<char>, v: usize| #[trigger] holds_entry(es.insert(p, e), k, v) <==> ((k == e.display@ && v == e.source)
            || (k != e.display@ && holds_entry(es, k, v))),
{
    let ns = es.insert(p, e);
    lemma_seq_lt_irreflexive(e.display@);
    assert forall|k: Seq<char>, v: usize| #[trigger] holds_entry(ns, k, v) implies ((k == e.display@ && v == e.source)
        || (k != e.display@ && holds_entry(es, k, v))) by {
        let i = choose|i: int| 0 <= i < ns.len() && #[trigger] ns[i].display@ == k && ns[i].source == v;
        if i < p {
            assert(ns[i] == es[i]);
            assert(es[i].display@ == k && es[i].source == v);
            assert(seq_lt(es[i].display@, e.display@));
        } else if i > p {
            assert(ns[i] == es[i - 1]);
            assert(es[i - 1].display@ == k && es[i - 1].source == v);
            assert(seq_lt(e.display@, es[i - 1].display@));
        }
    }
    assert forall|k: Seq<char>, v: usize| ((k == e.display@ && v == e.source)
        || (k != e.display@ && holds_entry(es, k, v))) implies #[trigger] holds_entry(ns, k, v) by {
        if k == e.display@ && v == e.source {
            assert(ns[p].display@ == k);
        } else {
            let i = choose|i: int| 0 <= i < es.len() && #[trigger] es[i].display@ == k && es[i].source == v;
            if i < p {
                assert(ns[i] == es[i]);
                assert(ns[i].display@ == k);
            } else {
                assert(ns[i + 1] == es[i]);
                assert(ns[i + 1].display@ == k);
            }
        }
    }
}

// ---------------------------------------------------------------------------
// Outcomes

/// Findings alone decide: any failure exits 1; warnings alone exit 0.
///
/// Covers: cli~exit-codes~1
pub fn exit_code(summary: &Summary) -> (r: i32)
    ensures
        r == (if summary.fail > 0 { 1i32 } else { 0i32 }),
{
    if summary.fail > 0 {
        1
    } else {
        0
    }
}

/// The result of `check` on loaded inputs.
pub struct CheckOutcome {
    /// Sorted by check, ID, file and line.
    pub findings: Vec<Finding>,
    pub summary: Summary,
    /// The human report.
    pub human: String,
    pub exit_code: i32,
}

/// Runs the checks, sorts the findings and renders the human report.
///
/// Covers: cli~determinism~2, cli~exit-codes~1, out~summary~1
pub fn check_outcome(inv: &Inventory, scanned: &ScanOutput, exceptions: &[ExceptionEntry], cfg: &Config) -> (r: CheckOutcome)
    requires
        inv.wf(),
    ensures
        finding_views(r.findings@) == stable_sort(
            spec_findings(inv.items@, inv.denom_keys(), scanned@, exceptions@, cfg.severity@),
        ),
        sorted_by_key(finding_views(r.findings@)),
        r.summary.denominator == inv.denom_keys().len(),
        r.summary.covered == crate::checks::count_covered(inv.denom_keys(), scanned@.links),
        r.summary.exceptions == crate::checks::count_excepted(inv.denom_keys(), scanned@.links, exceptions@),
        r.summary.fail == count_severity(spec_findings(inv.items@, inv.denom_keys(), scanned@, exceptions@, cfg.severity@), crate::checks::Severity::Fail),
        r.summary.warn == count_severity(spec_findings(inv.items@, inv.denom_keys(), scanned@, exceptions@, cfg.severity@), crate::checks::Severity::Warn),
        r.human@ == human_text(finding_views(r.findings@), r.summary),
        r.exit_code == (if r.summary.fail > 0 { 1i32 } else { 0i32 }),
{
    let (mut findings, summary) = run(inv, scanned, exceptions, cfg);
    let n = findings.len();
    proof {
        crate::checks::law_severity_counts(finding_views(findings@));
        assert(finding_views(findings@).len() == n);
    }
    sort_findings(&mut findings);
    let text = human(&findings, &summary);
    let code = exit_code(&summary);
    CheckOutcome { findings, summary, human: text, exit_code: code }
}

// ---------------------------------------------------------------------------
// Validation summaries

/// `n word`, with an `s` unless `n` is 1.
pub open spec fn count_word(n: nat, word: Seq<char>) -> Seq<char> {
    dec_digits(n) + " "@ + word + plural(n as int)
}

/// `inventory OK: I item(s), S slug(s), D in denominator`.
pub open spec fn inventory_ok_text(items: nat, slugs: nat, denominator: nat) -> Seq<char> {
    "inventory OK: "@ + count_word(items, "item"@) + ", "@ + count_word(slugs, "slug"@) + ", "@ + dec_digits(denominator)
        + " in denominator"@
}

/// The line `validate` prints for an inventory that loaded.
pub fn inventory_ok_line(inv: &Inventory) -> (r: String)
    requires
        inv.wf(),
    ensures
        r@ == inventory_ok_text(inv.items@.len(), slug_set(inv.items@).len(), inv.denom_keys().len()),
{
    let n = inv.items.len();
    let slugs = inv.slug_count();
    let d = inv.denominator();
    let mut out = String::new();
    push_str(&mut out, "inventory OK: ");
    push_count_word(&mut out, n, "item");
    push_str(&mut out, ", ");
    push_count_word(&mut out, slugs, "slug");
    push_str(&mut out, ", ");
    push_dec(&mut out, d.len() as u64);
    push_str(&mut out, " in denominator");
    assert(str_views(d@).len() == d@.len());
    assert(out@ =~= inventory_ok_text(inv.items@.len(), slug_set(inv.items@).len(), inv.denom_keys().len()));
    out
}

/// `n word` with an `s` unless `n` is 1.
fn push_count_word(out: &mut String, n: usize, word: &str)
    ensures
        final(out)@ == old(out)@ + count_word(n as nat, word@),
{
    push_dec(out, n as u64);
    push_str(out, " ");
    push_str(out, word);
    if n != 1 {
        push_str(out, "s");
    }
    assert(out@ =~= old(out)@ + count_word(n as nat, word@));
}

/// `exceptions OK: N entry` / `entries`.
pub open spec fn exceptions_ok_text(n: nat) -> Seq<char> {
    "exceptions OK: "@ + dec_digits(n) + " entr"@ + if n == 1 {
        "y"@
    } else {
        "ies"@
    }
}

/// The line `validate` prints for an exception file that loaded.
pub fn exceptions_ok_line(entries: &[ExceptionEntry]) -> (r: String)
    ensures
        r@ == exceptions_ok_text(entries@.len()),
{
    let n = entries.len();
    let mut out = String::new();
    push_str(&mut out, "exceptions OK: ");
    push_dec(&mut out, n as u64);
    push_str(&mut out, " entr");
    if n == 1 {
        push_str(&mut out, "y");
    } else {
        push_str(&mut out, "ies");
    }
    assert(out@ =~= exceptions_ok_text(entries@.len()));
    out
}

} // verus!
