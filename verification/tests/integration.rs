//! Integration tests: the normative requirements and examples, on in-memory
//! inputs.

use reqtrace::checks::{self, Severity};
use reqtrace::config::{Config, Policy, RawConfig};
use reqtrace::exceptions::{self, ExceptionEntry, ExceptionError};
use reqtrace::id::ReqId;
use reqtrace::inventory::{Inventory, InventoryError, Status};
use reqtrace::report;
use reqtrace::runner::{self, ScanSet, ScanSource};
use reqtrace::scan::{self, LinkKind, ScanFile};

// ---------------------------------------------------------------------------
// Helpers: YAML text to the library's entries, and in-memory inputs

fn load_inventory(file: &str, text: &str) -> Result<Inventory, InventoryError> {
    Inventory::load_texts(&[(file.to_string(), text.to_string())])
}

fn load_exceptions(file: &str, text: &str) -> Result<Vec<ExceptionEntry>, ExceptionError> {
    exceptions::load_text(file, text)
}

fn scan_file(name: &str, text: &str) -> ScanFile {
    ScanFile {
        path: name.to_string(),
        display: name.to_string(),
        text: text.to_string(),
    }
}

fn raw_config(text: &str) -> RawConfig {
    let v: toml::Value = toml::from_str(text).unwrap();
    let scan = v.get("scan");
    let globs = scan
        .and_then(|s| s.get("globs"))
        .and_then(|g| g.as_array())
        .map(|a| a.iter().map(|x| x.as_str().unwrap().to_string()).collect())
        .unwrap_or_default();
    let exceptions = scan
        .and_then(|s| s.get("exceptions"))
        .and_then(|e| e.as_str())
        .map(|s| s.to_string());
    let severity = v
        .get("severity")
        .and_then(|s| s.as_table())
        .map(|t| {
            t.iter()
                .map(|(k, v)| (k.clone(), v.as_str().unwrap().to_string()))
                .collect()
        })
        .unwrap_or_default();
    RawConfig {
        globs,
        exceptions,
        severity,
    }
}

fn denom_has(denom: &[String], key: &str) -> bool {
    denom.iter().any(|s| s == key)
}

// ---------------------------------------------------------------------------
// The normative scenarios

// Covers: inv~id-grammar~2
#[test]
fn id_grammar() {
    for ok in [
        "req~login-throttling~2",
        "cli~exit-codes~1",
        "a~b~1",
        "dsn~retry-queue~10",
    ] {
        assert!(ReqId::parse(ok).is_some(), "should accept {ok}");
    }
    for bad in [
        "Req~x~1",    // uppercase type
        "req~x~0",    // rev 0
        "req~x~01",   // leading zero
        "req~-x~1",   // leading hyphen
        "req~x-~1",   // trailing hyphen
        "req~x--y~1", // consecutive hyphens
        "req~x",      // missing rev
        "req~x~1~2",  // extra segment
    ] {
        assert!(ReqId::parse(bad).is_none(), "should reject {bad}");
    }
}

// Covers: inv~current-rev~1, inv~coverage-denominator~2
#[test]
fn current_rev_and_denominator() {
    let inv = load_inventory(
        "inv.yaml",
        r#"
- id: req~a~1
  status: confirmed
- id: req~a~2
  status: disputed
- id: req~b~1
  status: assumed
- id: req~c~1
  status: retired
"#,
    )
    .unwrap();
    // Highest rev wins; its status alone decides membership.
    assert_eq!(inv.current_rev("req~a"), Some(2));
    assert_eq!(inv.current_item("req~a").unwrap().status, Status::Disputed);
    let denom = inv.denominator();
    assert!(!denom_has(&denom, "req~a"), "current rev disputed → out");
    assert!(denom_has(&denom, "req~b"));
    assert!(!denom_has(&denom, "req~c"));
}

// Covers: inv~dup-ids~2
#[test]
fn duplicate_rev_is_an_error() {
    let r = load_inventory(
        "inv.yaml",
        "- id: req~a~1\n  status: confirmed\n- id: req~a~1\n  status: assumed\n",
    );
    assert!(r.is_err());
}

#[test]
fn invalid_status_and_id_are_errors() {
    let bad_status = load_inventory("s.yaml", "- id: req~a~1\n  status: shipped\n");
    assert!(bad_status.is_err());
    let err = load_inventory("i.yaml", "- id: REQ~a~1\n  status: confirmed\n")
        .unwrap_err()
        .message();
    assert!(
        err.contains("REQ~a~1"),
        "error names the offending ID: {err}"
    );
    assert!(err.contains("i.yaml:1"), "error carries the line: {err}");
}

// Covers: ann~grammar~2, ann~fences~1, ann~headings~1, ann~malformed~2
#[test]
fn scanner_forms_fences_and_attribution() {
    let content = [
        "Preamble covers nothing.",
        "",
        "# Design",
        "",
        "Covers: req~a~2, req~b~1",
        "",
        "```",
        "Covers: req~fake~9",
        "# Not A Heading",
        "```",
        "",
        "<!-- Covers: req~c~1 -->",
        "// Covers: req~d~1",
        "/// Derived: dsn~e~1",
        "- Covers: req~f~1",
        "# Covers: notanid",
    ]
    .join("\n");
    let out = scan::scan_files(&[scan_file("doc.md", &content)]);

    let ids: Vec<String> = out.links.iter().map(|l| l.id.to_text()).collect();
    assert_eq!(
        ids,
        ["req~a~2", "req~b~1", "req~c~1", "req~d~1", "dsn~e~1", "req~f~1"],
        "fenced Covers ignored, all comment forms recognized"
    );
    assert!(out
        .links
        .iter()
        .all(|l| l.loc.section.as_deref() == Some("Design")));
    assert_eq!(out.links[4].kind, LinkKind::Derived);
    assert_eq!(out.malformed.len(), 1, "`# Covers: notanid` is malformed");
    assert_eq!(out.malformed[0].loc.line, 16);
    // The fenced pseudo-heading must not have opened a section.
    assert!(out
        .sections
        .iter()
        .all(|s| s.loc.section.as_deref() != Some("Not A Heading")));
}

#[test]
fn unbalanced_html_comment_is_malformed() {
    let out = scan::scan_files(&[scan_file("doc.md", "<!-- Covers: req~a~1\n")]);
    assert!(out.links.is_empty());
    assert_eq!(out.malformed.len(), 1);
}

// Non-Markdown files: no heading tracking, section = file.
// Covers: ann~headings~1
#[test]
fn code_comments_are_not_headings() {
    let out = scan::scan_files(&[scan_file(
        "job.py",
        "# just a python comment\nx = 1\n# Covers: req~a~1\n",
    )]);
    assert_eq!(out.links.len(), 1);
    assert_eq!(out.links[0].loc.section, None);
    assert!(
        out.malformed.is_empty(),
        "plain comments aren't malformed annotations"
    );
}

/// The scenario of one uncovered H item (fail), one stale link (warn), one
/// applied exception. Checks the summary invariant
/// denominator = covered + exceptions + uncovered findings.
#[test]
fn end_to_end_spec_example() {
    let inv = load_inventory(
        "inv.yaml",
        r#"
- id: req~lockout-notice~1
  status: confirmed
  rating: [H, M]
  owner: pm-jane
- id: req~login-throttling~2
  status: confirmed
- id: req~mobile-push~1
  status: confirmed
"#,
    )
    .unwrap();
    let exc = load_exceptions(
        "not-in-scope.yaml",
        "- id: req~mobile-push~1\n  justification: \"Mobile repo's responsibility\"\n",
    )
    .unwrap();
    let scanned = scan::scan_files(&[scan_file(
        "design.md",
        "# Rate limiting design\n\nCovers: req~login-throttling~1\n",
    )]);
    let cfg = Config::defaults();
    let (mut findings, summary) = checks::run(&inv, &scanned, &exc, &cfg);
    report::sort_findings(&mut findings);

    assert_eq!(summary.denominator, 3);
    assert_eq!(summary.covered, 1, "stale-but-linked counts as covered");
    assert_eq!(summary.exceptions, 1);
    assert_eq!(
        summary.denominator,
        summary.covered
            + summary.exceptions
            + findings.iter().filter(|f| f.check == "uncovered").count(),
        "out~summary~1 invariant"
    );

    assert_eq!(findings.len(), 2);
    let stale = findings.iter().find(|f| f.check == "stale").unwrap();
    assert_eq!(
        stale.severity,
        Severity::Warn,
        "unrated → warn under by-rating"
    );
    assert_eq!(stale.id.as_deref(), Some("req~login-throttling~2"));
    assert_eq!(stale.covered_rev, Some(1));
    assert_eq!(stale.current_rev, Some(2));
    assert_eq!(
        stale.location.as_ref().unwrap().section.as_deref(),
        Some("Rate limiting design")
    );

    let uncovered = findings.iter().find(|f| f.check == "uncovered").unwrap();
    assert_eq!(
        uncovered.severity,
        Severity::Fail,
        "H rating → fail under by-rating"
    );
    assert_eq!(uncovered.id.as_deref(), Some("req~lockout-notice~1"));
    assert_eq!(uncovered.owner.as_deref(), Some("pm-jane"));

    // Rendering twice is byte-identical.
    // Covers: cli~determinism~2
    let human1 = report::human(&findings, &summary);
    let human2 = report::human(&findings, &summary);
    assert_eq!(human1, human2);

    let human = human1;
    assert!(
        human.contains("FAIL uncovered  req~lockout-notice~1   [H,M] owner:pm-jane"),
        "{human}"
    );
    assert!(
        human.contains("2 findings (1 fail, 1 warn) · 1/3 covered · 1 exception"),
        "{human}"
    );
    let fail_pos = human.find("FAIL").unwrap();
    let warn_pos = human.find("WARN").unwrap();
    assert!(fail_pos < warn_pos, "worst first");
}

// Derived targets exempt from orphaned.
// Covers: ann~derived~1
#[test]
fn derived_is_not_orphaned() {
    let inv = load_inventory("inv.yaml", "- id: req~a~1\n  status: confirmed\n").unwrap();
    let scanned = scan::scan_files(&[scan_file(
        "d.md",
        "Covers: req~a~1\nDerived: dsn~new-thing~1\n",
    )]);
    let (findings, _) = checks::run(&inv, &scanned, &[], &Config::defaults());
    assert!(findings.is_empty(), "{findings:?}");
}

#[test]
fn orphaned_and_stale_exception() {
    let inv = load_inventory("inv.yaml", "- id: req~a~1\n  status: confirmed\n").unwrap();
    let scanned = scan::scan_files(&[scan_file("d.md", "Covers: req~a~1, req~ghost~1\n")]);
    let exc = load_exceptions("exc.yaml", "- id: req~gone~1\n  justification: obsolete\n").unwrap();
    let (findings, summary) = checks::run(&inv, &scanned, &exc, &Config::defaults());

    let orphaned = findings.iter().find(|f| f.check == "orphaned").unwrap();
    assert_eq!(orphaned.severity, Severity::Fail);
    assert_eq!(orphaned.id.as_deref(), Some("req~ghost~1"));

    let stale_exc = findings
        .iter()
        .find(|f| f.check == "stale-exception")
        .unwrap();
    assert_eq!(stale_exc.severity, Severity::Warn);
    assert_eq!(summary.exceptions, 0, "unapplied exception not counted");
}

// Exception matches on type~slug across revs.
// Covers: exc~matching~1
#[test]
fn exception_survives_revving() {
    let inv = load_inventory("inv.yaml", "- id: req~push~2\n  status: confirmed\n").unwrap();
    let exc = load_exceptions("exc.yaml", "- id: req~push~1\n  justification: elsewhere\n").unwrap();
    let scanned = scan::scan_files(&[]);
    let (findings, summary) = checks::run(&inv, &scanned, &exc, &Config::defaults());
    assert!(
        findings.is_empty(),
        "old-rev exception still suppresses: {findings:?}"
    );
    assert_eq!(summary.exceptions, 1);
}

// Covers: exc~justification~1
#[test]
fn exception_without_justification_is_error() {
    let r = load_exceptions("exc.yaml", "- id: req~a~1\n  justification: \"  \"\n");
    assert!(r.is_err());
}

// Covers: chk~severity-config~1
#[test]
fn severity_config_overrides() {
    let inv = load_inventory("inv.yaml", "- id: req~a~1\n  status: confirmed\n  rating: [H]\n").unwrap();
    let scanned = scan::scan_files(&[]);

    let mut cfg = Config::defaults();
    cfg.severity.insert("uncovered".into(), Policy::Off);
    let (findings, summary) = checks::run(&inv, &scanned, &[], &cfg);
    assert!(findings.is_empty());
    assert_eq!(summary.fail, 0);

    let cfg2 = Config::defaults();
    let (findings2, _) = checks::run(&inv, &scanned, &[], &cfg2);
    assert_eq!(findings2[0].severity, Severity::Fail, "H → fail by default");
}

#[test]
fn config_file_parsing_and_unknown_check() {
    let good = raw_config(
        "[scan]\nglobs = [\"docs/**/*.md\"]\nexceptions = \"exc.yaml\"\n\n[severity]\nuncovered = \"warn\"\nmalformed-annotation = \"off\"\n",
    );
    let cfg = Config::from_raw(&good, "dir/.reqtrace.toml", "dir").unwrap();
    assert_eq!(cfg.policy("uncovered"), Policy::Warn);
    assert_eq!(cfg.policy("malformed-annotation"), Policy::Off);
    assert_eq!(
        cfg.policy("orphaned"),
        Policy::Fail,
        "untouched defaults survive"
    );
    assert_eq!(cfg.exceptions.as_deref().unwrap(), "dir/exc.yaml");

    let bad = raw_config("[severity]\nbogus-check = \"fail\"\n");
    assert!(Config::from_raw(&bad, "dir/bad.toml", "dir").is_err());
}

// Covers: cli~docpaths~1
#[test]
fn scan_set_resolution() {
    // The tree: docs/a.md, docs/b.md, src/c.rs, .hidden/d.md.
    let tree = ["docs/a.md", "docs/b.md", "src/c.rs", ".hidden/d.md"];

    // doc-paths replace globs entirely
    let mut cfg = Config::defaults();
    cfg.globs = vec!["src/**/*.rs".into()];
    assert!(matches!(
        runner::scan_source(true, &cfg),
        Ok(ScanSource::DocPaths)
    ));
    let mut set = ScanSet::new();
    for (i, p) in tree.iter().enumerate() {
        let hidden = p.split('/').enumerate().any(|(d, n)| runner::is_hidden(d + 1, Some(n)));
        if p.starts_with("docs/") && !hidden {
            set.insert(runner::display_path(p), i);
        }
    }
    let names: Vec<&str> = set.entries.iter().map(|e| e.display.as_str()).collect();
    assert_eq!(names, ["docs/a.md", "docs/b.md"]);

    // globs used when no doc-paths
    let filter = match runner::scan_source(false, &cfg) {
        Ok(ScanSource::Globs(f)) => f,
        _ => panic!("globs expected"),
    };
    let mut set2 = ScanSet::new();
    for (i, p) in tree.iter().enumerate() {
        let hidden = p.split('/').enumerate().any(|(d, n)| runner::is_hidden(d + 1, Some(n)));
        if !hidden && filter.is_match(p) {
            set2.insert(runner::display_path(p), i);
        }
    }
    let names2: Vec<&str> = set2.entries.iter().map(|e| e.display.as_str()).collect();
    assert_eq!(names2, ["src/c.rs"]);

    // neither → usage error
    let empty_cfg = Config::defaults();
    assert!(runner::scan_source(false, &empty_cfg).is_err());
}

#[test]
fn unparented_when_enabled() {
    let inv = load_inventory("inv.yaml", "- id: req~a~1\n  status: confirmed\n").unwrap();
    let scanned = scan::scan_files(&[scan_file(
        "d.md",
        "# Annotated\n\nCovers: req~a~1\n\n# Bare\n\nSome prose here.\n",
    )]);
    let mut cfg = Config::defaults();
    cfg.severity.insert("unparented".into(), Policy::Warn);
    let (findings, _) = checks::run(&inv, &scanned, &[], &cfg);
    let unparented: Vec<_> = findings
        .iter()
        .filter(|f| f.check == "unparented")
        .collect();
    assert_eq!(unparented.len(), 1);
    assert_eq!(
        unparented[0].location.as_ref().unwrap().section.as_deref(),
        Some("Bare")
    );
}
