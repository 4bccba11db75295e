//! Edge cases, error variants, exact renderings and the laws on concrete
//! values.

use reqtrace::checks::{self, Finding, Severity, Summary};
use reqtrace::config::{self, Config, ConfigErrorKind, ConfigSource, Policy, RawConfig};
use reqtrace::exceptions::{self, ExcErrorKind, ExceptionEntry, ExceptionError};
use reqtrace::globs::{GlobError, GlobFilter};
use reqtrace::id::ReqId;
use reqtrace::inventory::{self, InvErrorKind, Inventory, InventoryError, Rating, Status};
use reqtrace::report;
use reqtrace::runner::{self, RunError, ScanSet, ScanSource};
use reqtrace::scan::{self, LinkKind, Location, ScanFile, ScanOutput};

fn inv_of(text: &str) -> Result<Inventory, InventoryError> {
    Inventory::load_texts(&[("inv.yaml".to_string(), text.to_string())])
}

fn exc_of(text: &str) -> Result<Vec<ExceptionEntry>, ExceptionError> {
    exceptions::load_text("exc.yaml", text)
}

fn file(name: &str, text: &str) -> ScanFile {
    ScanFile {
        path: name.to_string(),
        display: name.to_string(),
        text: text.to_string(),
    }
}

fn inv_err(text: &str) -> InventoryError {
    inv_of(text).unwrap_err()
}

fn exc_err(text: &str) -> ExceptionError {
    exc_of(text).unwrap_err()
}

fn raw(severity: &[(&str, &str)]) -> RawConfig {
    RawConfig {
        globs: Vec::new(),
        exceptions: None,
        severity: severity
            .iter()
            .map(|(a, b)| (a.to_string(), b.to_string()))
            .collect(),
    }
}

fn finding(check: &'static str, id: &str, file: &str, line: usize, severity: Severity) -> Finding {
    Finding {
        check,
        id: Some(id.to_string()),
        rating: None,
        owner: None,
        covered_rev: None,
        current_rev: None,
        severity,
        location: Some(Location {
            file: file.to_string(),
            section: None,
            line,
        }),
    }
}

// ---------------------------------------------------------------------------
// IDs

#[test]
fn id_text_round_trip() {
    let id = ReqId::parse("dsn~retry-queue~10").unwrap();
    assert_eq!(id.ty, "dsn");
    assert_eq!(id.slug, "retry-queue");
    assert_eq!(id.rev, 10);
    assert_eq!(id.to_text(), "dsn~retry-queue~10");
    assert_eq!(id.slug_key(), "dsn~retry-queue");
    assert_eq!(ReqId::parse(&id.to_text()), Some(id));
}

#[test]
fn id_edge_cases() {
    assert!(ReqId::parse("r2~a1-b2~123").is_some());
    assert!(ReqId::parse("2r~a~1").is_none(), "type starts with a letter");
    assert!(ReqId::parse("req~~1").is_none(), "empty slug");
    assert!(ReqId::parse("req~a~").is_none(), "empty rev");
    assert!(ReqId::parse(" req~a~1").is_none(), "no surrounding space");
    assert!(ReqId::parse("req~a~99999999999").is_none(), "rev beyond u32");
    assert_eq!(ReqId::parse("req~a~4294967295").unwrap().rev, 4294967295);
}

// ---------------------------------------------------------------------------
// Scanning

#[test]
fn backticked_ids_are_accepted() {
    let out = scan::scan_files(&[file(
        "d.md",
        "Covers: `req~login-throttling~2`\nCovers: req~a~1 , `req~b~2`\nDerived: `dsn~retry-queue~1`\n",
    )]);
    let ids: Vec<String> = out.links.iter().map(|l| l.id.to_text()).collect();
    assert_eq!(ids, ["req~login-throttling~2", "req~a~1", "req~b~2", "dsn~retry-queue~1"]);
    assert_eq!(out.links[3].kind, LinkKind::Derived);
    assert!(out.malformed.is_empty());
}

#[test]
fn unbalanced_backtick_is_malformed() {
    let out = scan::scan_files(&[file("d.md", "Covers: `req~a~1\n")]);
    assert!(out.links.is_empty());
    assert_eq!(out.malformed.len(), 1);
    assert_eq!(out.malformed[0].loc.line, 1);
}

#[test]
fn html_comment_forms() {
    let out = scan::scan_files(&[file(
        "d.md",
        "<!-- Derived: dsn~x~1 -->\n  <!--Covers: req~a~1, req~b~1-->\n",
    )]);
    let ids: Vec<String> = out.links.iter().map(|l| l.id.to_text()).collect();
    assert_eq!(ids, ["dsn~x~1", "req~a~1", "req~b~1"]);
    assert_eq!(out.links[0].kind, LinkKind::Derived);
    assert_eq!(out.links[1].loc.line, 2);
}

#[test]
fn tilde_fences_hide_annotations() {
    let out = scan::scan_files(&[file(
        "d.md",
        "~~~\nCovers: req~x~1\n~~~\nCovers: req~y~1\n",
    )]);
    let ids: Vec<String> = out.links.iter().map(|l| l.id.to_text()).collect();
    assert_eq!(ids, ["req~y~1"]);
}

#[test]
fn fences_count_only_in_markdown() {
    let out = scan::scan_files(&[file("a.py", "```\n# Covers: req~x~1\n```\n")]);
    assert_eq!(out.links.len(), 1);
    assert_eq!(out.sections.len(), 1);
}

#[test]
fn trailing_comma_is_malformed() {
    let out = scan::scan_files(&[file("d.md", "Covers: req~x~1,\nDerived:\n")]);
    assert!(out.links.is_empty());
    assert_eq!(out.malformed.len(), 2);
    assert_eq!(out.malformed[1].loc.line, 2);
}

#[test]
fn heading_levels_and_sections() {
    let text = "intro\n# One\nCovers: req~a~1\n###### Six\ntext\n####### Seven\n";
    let out = scan::scan_files(&[file("d.md", text)]);
    assert_eq!(out.links[0].loc.section.as_deref(), Some("One"));
    let titles: Vec<Option<&str>> = out.sections.iter().map(|s| s.loc.section.as_deref()).collect();
    assert_eq!(titles, [None, Some("One"), Some("Six")]);
    assert!(out.sections[0].has_content && !out.sections[0].has_annotation);
    assert!(out.sections[1].has_annotation);
    assert_eq!(out.sections[2].loc.line, 4);
    assert!(out.sections[2].has_content, "seven hashes are content");
}

#[test]
fn each_file_is_scanned_in_order() {
    let out = scan::scan_files(&[
        file("b.md", "# B\nCovers: req~b~1\n"),
        file("a.txt", "Covers: req~a~1\n"),
    ]);
    assert_eq!(out.links[0].loc.file, "b.md");
    assert_eq!(out.links[1].loc.file, "a.txt");
    assert_eq!(out.links[1].loc.section, None);
    assert_eq!(out.sections.len(), 3);
}

#[test]
fn markdown_by_extension() {
    assert!(scan::is_markdown("docs/a.md"));
    assert!(scan::is_markdown("A.MD"));
    assert!(scan::is_markdown("x/y.Markdown"));
    assert!(!scan::is_markdown(".md"));
    assert!(!scan::is_markdown("notes.txt"));
    assert!(!scan::is_markdown("md"));
    assert!(scan::is_markdown("a.md/."));
    assert!(scan::is_markdown("docs/a.md/./"));
    assert!(!scan::is_markdown("."));
    assert!(!scan::is_markdown("a.md/.."));
}

#[test]
fn plain_file_is_one_section_law() {
    let out = scan::scan_files(&[file("x.rs", "# Heading?\n// Covers: req~a~1\n# Covers: bad\n")]);
    assert_eq!(out.sections.len(), 1);
    assert_eq!(out.sections[0].loc.section, None);
    assert_eq!(out.sections[0].loc.line, 1);
    assert!(out.links.iter().all(|l| l.loc.section.is_none()));
    assert!(out.malformed.iter().all(|m| m.loc.section.is_none()));
}

#[test]
fn annotation_is_never_a_heading_law() {
    let out = scan::scan_files(&[file("d.md", "# Covers: req~a~1\n")]);
    assert_eq!(out.links.len(), 1);
    assert_eq!(out.sections.len(), 1);
}

// ---------------------------------------------------------------------------
// Inventory

#[test]
fn inventory_error_variants() {
    let e = inv_err("- id: [unclosed\n");
    assert_eq!(e.kind, InvErrorKind::Yaml);
    assert!(e.message().starts_with("parsing inventory inv.yaml: "));

    let e = inv_err("- just text\n");
    assert_eq!(e.kind, InvErrorKind::NotMapping);
    assert_eq!(e.message(), "inv.yaml: inventory entries must be mappings");

    let e = inv_err("- status: confirmed\n");
    assert_eq!(e.kind, InvErrorKind::MissingId);
    assert_eq!(e.message(), "inv.yaml: inventory entry missing required `id`");

    let e = inv_err("- id: req~a~1\n- id: req~b~x\n  status: confirmed\n");
    assert_eq!(e.kind, InvErrorKind::MissingStatus, "first error wins");
    assert_eq!(e.message(), "inv.yaml:1: item `req~a~1` missing required `status`");

    let e = inv_err("- id: req~b~x\n  status: confirmed\n");
    assert_eq!(e.kind, InvErrorKind::InvalidId);
    assert_eq!(e.message(), "inv.yaml:1: invalid requirement ID `req~b~x`");

    let e = inv_err("- id: req~a~1\n  status: shipped\n");
    assert_eq!(e.kind, InvErrorKind::InvalidStatus);
    assert_eq!(e.message(), "inv.yaml:1: item `req~a~1` has invalid status `shipped`");

    let e = inv_err("- id: req~a~1\n  status: confirmed\n  rating: [H, M, L]\n");
    assert_eq!(e.kind, InvErrorKind::RatingShape);
    assert_eq!(e.message(), "inv.yaml:1: item `req~a~1` rating must be [value] or [value, risk]");

    let e = inv_err("- id: req~a~1\n  status: confirmed\n  rating: []\n");
    assert_eq!(e.kind, InvErrorKind::RatingShape);

    let e = inv_err("- id: req~a~1\n  status: confirmed\n  rating: [X]\n");
    assert_eq!(e.kind, InvErrorKind::InvalidRating);
    assert_eq!(e.message(), "inv.yaml:1: item `req~a~1` has invalid rating `X` (want H|M|L)");

    let e = inv_err("- id: req~a~1\n  status: confirmed\n  rating: H\n");
    assert_eq!(e.kind, InvErrorKind::RatingNotList);
    assert_eq!(e.message(), "inv.yaml:1: item `req~a~1` rating must be a list");

    let e = inv_err("- id: req~a~1\n  status: confirmed\n- id: req~a~1\n  status: assumed\n");
    assert_eq!(e.kind, InvErrorKind::Duplicate);
    assert_eq!(
        e.message(),
        "duplicate ID `req~a~1` in inv.yaml: same type~slug and rev appears twice"
    );
}

#[test]
fn error_line_is_first_line_holding_the_id() {
    let e = inv_err("# header\n\n- id: req~a~1\n  status: confirmed\n- id: Bad~a~1\n  status: confirmed\n");
    assert_eq!(e.line, 5);
    assert_eq!(inventory::find_line("x\nab\nb", "b"), 2);
    assert_eq!(inventory::find_line("x\ny", "z"), 0);
}

#[test]
fn tagged_strings_and_odd_keys() {
    let inv = inv_of("- id: !t req~a~1\n  status: !s confirmed\n  1: ignored\n  owner: !o ann\n").unwrap();
    assert_eq!(inv.items[0].id.to_text(), "req~a~1");
    assert_eq!(inv.items[0].owner.as_deref(), Some("ann"));
    let e = inv_err("- id: req~a~1\n  status: confirmed\n  rating: !r [H]\n");
    assert_eq!(e.kind, InvErrorKind::RatingNotList, "a tagged list is not a list");
    let e = inv_err("- id: req~a~1\n  status: confirmed\n  rating: !r null\n");
    assert_eq!(e.kind, InvErrorKind::RatingNotList, "a tagged null is not null");
    let v = exc_of("- !m {id: req~a~1, justification: ok}\n").unwrap();
    assert_eq!(v[0].id.to_text(), "req~a~1", "a tagged mapping is a mapping");
}

#[test]
fn blank_inventory_file_contributes_nothing() {
    let inv = Inventory::load_texts(&[
        ("a.yaml".to_string(), "  \n".to_string()),
        ("b.yaml".to_string(), "- id: req~a~1\n  status: confirmed\n".to_string()),
    ])
    .unwrap();
    assert_eq!(inv.items.len(), 1);
    assert_eq!(inv.items[0].file, "b.yaml");
}

#[test]
fn duplicate_across_files_is_an_error() {
    let r = Inventory::load_texts(&[
        ("a.yaml".to_string(), "- id: req~a~1\n  status: confirmed\n".to_string()),
        ("b.yaml".to_string(), "- id: req~a~1\n  status: retired\n".to_string()),
    ]);
    let e = r.unwrap_err();
    assert_eq!(e.kind, InvErrorKind::Duplicate);
    assert_eq!(e.file, "b.yaml");
}

#[test]
fn current_rev_is_highest_in_any_order() {
    let inv = inv_of(
        "- id: req~a~3\n  status: retired\n- id: req~a~1\n  status: confirmed\n- id: req~b~2\n  status: extracted\n",
    )
    .unwrap();
    assert_eq!(inv.current_rev("req~a"), Some(3));
    assert_eq!(inv.current_rev("req~z"), None);
    assert!(inv.has_slug("req~b"));
    assert!(!inv.has_slug("req~z"));
    assert!(inv.current_item("req~z").is_none());
    assert!(inv.denominator().is_empty(), "retired and extracted are out");
    assert_eq!(inv.slug_count(), 2);
}

#[test]
fn denominator_is_sorted() {
    let inv = inv_of(
        "- id: req~c~1\n  status: confirmed\n- id: dsn~b~1\n  status: assumed\n- id: req~a~1\n  status: confirmed\n",
    )
    .unwrap();
    assert_eq!(inv.denominator(), ["dsn~b", "req~a", "req~c"]);
}

#[test]
fn statuses_and_ratings() {
    assert_eq!(Status::parse("extracted"), Some(Status::Extracted));
    assert_eq!(Status::parse("Confirmed"), None);
    assert!(Status::Confirmed.in_denominator());
    assert!(Status::Assumed.in_denominator());
    assert!(!Status::Disputed.in_denominator());
    assert!(!Status::Retired.in_denominator());
    assert!(!Status::Extracted.in_denominator());
    assert_eq!(Rating::parse("M"), Some(Rating::M));
    assert_eq!(Rating::parse("h"), None);
    assert_eq!(Rating::L.as_str(), "L");
    let inv = inv_of("- id: req~a~1\n  status: confirmed\n  rating: [M, H]\n  owner: bob\n").unwrap();
    let item = &inv.items[0];
    assert_eq!(item.rating_value(), Some(Rating::M));
    assert_eq!(item.rating_strings(), Some(vec!["M".to_string(), "H".to_string()]));
    assert_eq!(item.owner.as_deref(), Some("bob"));
}

#[test]
fn validate_summary_lines() {
    let inv = inv_of(
        "- id: req~a~1\n  status: confirmed\n- id: req~a~2\n  status: confirmed\n- id: req~b~1\n  status: disputed\n",
    )
    .unwrap();
    assert_eq!(
        runner::inventory_ok_line(&inv),
        "inventory OK: 3 items, 2 slugs, 1 in denominator"
    );
    let one = inv_of("- id: req~a~1\n  status: retired\n").unwrap();
    assert_eq!(
        runner::inventory_ok_line(&one),
        "inventory OK: 1 item, 1 slug, 0 in denominator"
    );
    let exc = exc_of("- id: req~a~1\n  justification: x\n").unwrap();
    assert_eq!(runner::exceptions_ok_line(&exc), "exceptions OK: 1 entry");
    assert_eq!(runner::exceptions_ok_line(&[]), "exceptions OK: 0 entries");
}

// ---------------------------------------------------------------------------
// Exceptions

#[test]
fn exception_error_variants() {
    let e = exc_err("- id: [x\n");
    assert_eq!(e.kind, ExcErrorKind::Yaml);
    assert!(e.message().starts_with("parsing exception file exc.yaml: "));

    let e = exc_err("- plain\n");
    assert_eq!(e.kind, ExcErrorKind::NotMapping);
    assert_eq!(e.message(), "exc.yaml: exception entries must be mappings");

    let e = exc_err("- justification: because\n");
    assert_eq!(e.kind, ExcErrorKind::MissingId);
    assert_eq!(e.message(), "exc.yaml: exception entry missing `id`");

    let e = exc_err("- id: req~a\n  justification: because\n");
    assert_eq!(e.kind, ExcErrorKind::InvalidId);
    assert_eq!(e.message(), "exc.yaml: invalid exception ID `req~a`");

    let e = exc_err("- id: req~a~1\n");
    assert_eq!(e.kind, ExcErrorKind::NoJustification);
    assert_eq!(e.message(), "exc.yaml: exception `req~a~1` has no non-empty justification");
}

#[test]
fn blank_exception_file_is_empty() {
    assert!(exc_of("\n \n").unwrap().is_empty());
    let v = exc_of("- id: req~a~2\n  justification: ok\n").unwrap();
    assert_eq!(v[0].id.to_text(), "req~a~2");
}

// ---------------------------------------------------------------------------
// Config

#[test]
fn policies_parse() {
    assert_eq!(Policy::parse("fail"), Some(Policy::Fail));
    assert_eq!(Policy::parse("warn"), Some(Policy::Warn));
    assert_eq!(Policy::parse("off"), Some(Policy::Off));
    assert_eq!(Policy::parse("by-rating"), Some(Policy::ByRating));
    assert_eq!(Policy::parse("Fail"), None);
}

#[test]
fn default_policies() {
    let cfg = Config::defaults();
    assert_eq!(cfg.policy("uncovered"), Policy::ByRating);
    assert_eq!(cfg.policy("stale"), Policy::ByRating);
    assert_eq!(cfg.policy("orphaned"), Policy::Fail);
    assert_eq!(cfg.policy("unparented"), Policy::Off);
    assert_eq!(cfg.policy("stale-exception"), Policy::Warn);
    assert_eq!(cfg.policy("malformed-annotation"), Policy::Fail);
    assert_eq!(cfg.policy("no-such-check"), Policy::Off);
    assert!(cfg.globs.is_empty());
    assert!(cfg.exceptions.is_none());
}

#[test]
fn config_error_variants() {
    let e = Config::from_raw(&raw(&[("bogus", "fail")]), "c.toml", ".").unwrap_err();
    assert_eq!(e.kind, ConfigErrorKind::UnknownCheck);
    assert_eq!(e.message(), "c.toml: unknown check `bogus` in [severity]");
    let e = Config::from_raw(&raw(&[("stale", "loud")]), "c.toml", ".").unwrap_err();
    assert_eq!(e.kind, ConfigErrorKind::InvalidSeverity);
    assert_eq!(
        e.message(),
        "c.toml: invalid severity `loud` for `stale` (want fail|warn|off|by-rating)"
    );
}

#[test]
fn exception_path_joins_config_dir() {
    let mut r = raw(&[]);
    r.exceptions = Some("exc.yaml".to_string());
    let cfg = Config::from_raw(&r, "/p/.reqtrace.toml", "/p").unwrap();
    assert_eq!(cfg.exceptions.as_deref(), Some("/p/exc.yaml"));
    r.exceptions = Some("/abs/e.yaml".to_string());
    let cfg = Config::from_raw(&r, "/p/.reqtrace.toml", "/p/").unwrap();
    assert_eq!(cfg.exceptions.as_deref(), Some("/abs/e.yaml"));
    assert_eq!(config::join_path_exec("", "e.yaml"), "e.yaml");
}

#[test]
fn discovery_prefers_explicit_then_nearest() {
    let src = |path: &str, pol: &str| ConfigSource {
        path: path.to_string(),
        base: ".".to_string(),
        raw: raw(&[("uncovered", pol)]),
    };
    let cfg = config::discover(&Some(src("explicit", "off")), &[Some(src("near", "warn"))]).unwrap();
    assert_eq!(cfg.policy("uncovered"), Policy::Off);
    let cfg = config::discover(&None, &[None, Some(src("parent", "warn")), Some(src("root", "fail"))]).unwrap();
    assert_eq!(cfg.policy("uncovered"), Policy::Warn);
    let cfg = config::discover(&None, &[None, None]).unwrap();
    assert_eq!(cfg.policy("uncovered"), Policy::ByRating);
    let e = config::discover(&None, &[Some(src("bad", "nope"))]).unwrap_err();
    assert_eq!(e.kind, ConfigErrorKind::InvalidSeverity);
}

// ---------------------------------------------------------------------------
// Checks and their laws

fn spec_example() -> (Inventory, ScanOutput, Vec<ExceptionEntry>) {
    let inv = inv_of(
        "- id: req~lockout-notice~1\n  status: confirmed\n  rating: [H, M]\n  owner: pm-jane\n- id: req~login-throttling~2\n  status: confirmed\n- id: req~mobile-push~1\n  status: confirmed\n",
    )
    .unwrap();
    let scanned = scan::scan_files(&[file(
        "design.md",
        "# Rate limiting design\n\nCovers: req~login-throttling~1\n",
    )]);
    let exc = exc_of("- id: req~mobile-push~1\n  justification: \"Mobile repo's responsibility\"\n").unwrap();
    (inv, scanned, exc)
}

#[test]
fn human_report_exact() {
    let (inv, scanned, exc) = spec_example();
    let out = runner::check_outcome(&inv, &scanned, &exc, &Config::defaults());
    assert_eq!(
        out.human,
        "FAIL uncovered  req~lockout-notice~1   [H,M] owner:pm-jane\n\
         WARN stale      req~login-throttling~2 covered rev 1, current rev 2\n\
         \x20               → design.md § \"Rate limiting design\"\n\
         2 findings (1 fail, 1 warn) · 1/3 covered · 1 exception\n"
    );
    assert_eq!(out.exit_code, 1);
    assert_eq!(out.summary.fail + out.summary.warn, out.findings.len());
}

#[test]
fn human_report_plurals_and_plain_locations() {
    let summary = Summary {
        denominator: 0,
        covered: 0,
        exceptions: 2,
        fail: 0,
        warn: 1,
    };
    let mut f = finding("orphaned", "req~x~1", "a.txt", 3, Severity::Warn);
    f.check = "orphaned";
    let text = report::human(&[f], &summary);
    assert_eq!(
        text,
        "WARN orphaned   req~x~1                not in inventory at any rev\n\
         \x20               → a.txt\n\
         1 finding (0 fail, 1 warn) · 0/0 covered · 2 exceptions\n"
    );
    let empty = Summary { denominator: 1, covered: 1, exceptions: 0, fail: 0, warn: 0 };
    assert_eq!(report::human(&[], &empty), "0 findings (0 fail, 0 warn) · 1/1 covered · 0 exceptions\n");
}

#[test]
fn detail_texts() {
    let summary = Summary { denominator: 0, covered: 0, exceptions: 0, fail: 3, warn: 0 };
    let mut m = finding("malformed-annotation", "", "d.md", 1, Severity::Fail);
    m.id = None;
    let mut u = finding("unparented", "", "d.md", 2, Severity::Fail);
    u.id = None;
    let mut s = finding("stale-exception", "req~gone~1", "", 0, Severity::Fail);
    s.location = None;
    let text = report::human(&[m, u, s], &summary);
    assert!(text.contains("FAIL malformed-annotation                        line fails the annotation grammar\n"));
    assert!(text.contains("FAIL unparented                        section has content but no Covers:/Derived:\n"));
    assert!(text.contains("FAIL stale-exception req~gone~1             exception target not in inventory\n"));
}

#[test]
fn summary_adds_up_law() {
    let (inv, scanned, exc) = spec_example();
    let (findings, summary) = checks::run(&inv, &scanned, &exc, &Config::defaults());
    let uncovered = findings.iter().filter(|f| f.check == "uncovered").count();
    assert_eq!(summary.denominator, summary.covered + summary.exceptions + uncovered);
    assert_eq!(summary.fail + summary.warn, findings.len());
}

#[test]
fn covered_and_excepted_slug_counts_once() {
    // A slug both linked and excepted is covered; its exception spares no
    // finding, so it is not counted as applied and the summary adds up.
    let inv = inv_of("- id: req~a~1\n  status: confirmed\n").unwrap();
    let scanned = scan::scan_files(&[file("d.md", "Covers: req~a~1\n")]);
    let exc = exc_of("- id: req~a~1\n  justification: x\n").unwrap();
    let (findings, summary) = checks::run(&inv, &scanned, &exc, &Config::defaults());
    assert!(findings.is_empty());
    assert_eq!((summary.denominator, summary.covered, summary.exceptions), (1, 1, 0));
}

#[test]
fn derived_links_exempt_law() {
    let inv = inv_of("- id: req~a~2\n  status: confirmed\n").unwrap();
    let with = scan::scan_files(&[file("d.md", "Covers: req~a~2\nDerived: req~a~1, dsn~new~1\n")]);
    let without = scan::scan_files(&[file("d.md", "Covers: req~a~2\n")]);
    let (f1, s1) = checks::run(&inv, &with, &[], &Config::defaults());
    let (f2, s2) = checks::run(&inv, &without, &[], &Config::defaults());
    assert!(f1.is_empty() && f2.is_empty());
    assert_eq!(s1, s2);
}

#[test]
fn matching_ignores_revs_law() {
    let inv = inv_of("- id: req~a~3\n  status: confirmed\n- id: req~b~1\n  status: confirmed\n").unwrap();
    let s1 = scan::scan_files(&[file("d.md", "Covers: req~a~1\n")]);
    let s2 = scan::scan_files(&[file("d.md", "Covers: req~a~3\n")]);
    let e1 = exc_of("- id: req~b~7\n  justification: x\n").unwrap();
    let (f1, sum1) = checks::run(&inv, &s1, &e1, &Config::defaults());
    let (f2, sum2) = checks::run(&inv, &s2, &e1, &Config::defaults());
    assert_eq!(sum1.covered, sum2.covered);
    assert_eq!(sum1.exceptions, 1);
    assert!(f1.iter().all(|f| f.check != "uncovered"));
    assert!(f2.is_empty());
    assert_eq!(f1.len(), 1);
    assert_eq!(f1[0].check, "stale");
}

#[test]
fn by_rating_and_forced_policies() {
    let inv = inv_of(
        "- id: req~h~1\n  status: confirmed\n  rating: [H]\n- id: req~m~1\n  status: assumed\n  rating: [M, H]\n- id: req~n~1\n  status: confirmed\n",
    )
    .unwrap();
    let scanned = scan::scan_files(&[]);
    let (f, s) = checks::run(&inv, &scanned, &[], &Config::defaults());
    let sev: Vec<(&str, Severity)> = f.iter().map(|x| (x.id.as_deref().unwrap(), x.severity)).collect();
    assert_eq!(
        sev,
        [("req~h~1", Severity::Fail), ("req~m~1", Severity::Warn), ("req~n~1", Severity::Warn)]
    );
    assert_eq!((s.fail, s.warn), (1, 2));
    let mut cfg = Config::defaults();
    cfg.severity.insert("uncovered".into(), Policy::Fail);
    let (_, s) = checks::run(&inv, &scanned, &[], &cfg);
    assert_eq!((s.fail, s.warn), (3, 0));
    assert_eq!(runner::exit_code(&s), 1);
}

#[test]
fn malformed_findings_follow_policy() {
    let inv = inv_of("- id: req~a~1\n  status: retired\n").unwrap();
    let scanned = scan::scan_files(&[file("d.md", "Covers: nope\n")]);
    let (f, _) = checks::run(&inv, &scanned, &[], &Config::defaults());
    assert_eq!(f.len(), 1);
    assert_eq!(f[0].check, "malformed-annotation");
    assert_eq!(f[0].location.as_ref().unwrap().line, 1);
    let mut cfg = Config::defaults();
    cfg.severity.insert("malformed-annotation".into(), Policy::Off);
    let (f, _) = checks::run(&inv, &scanned, &[], &cfg);
    assert!(f.is_empty());
}

// ---------------------------------------------------------------------------
// Ordering and the run

#[test]
fn sort_is_by_check_id_file_line_and_stable() {
    let mut fs = vec![
        finding("uncovered", "req~b~1", "a", 1, Severity::Warn),
        finding("stale", "req~a~1", "b", 9, Severity::Warn),
        finding("stale", "req~a~1", "b", 2, Severity::Warn),
        finding("stale", "req~a~1", "a", 5, Severity::Warn),
        finding("orphaned", "req~z~1", "a", 1, Severity::Fail),
        finding("stale", "req~a~1", "a", 5, Severity::Fail),
    ];
    report::sort_findings(&mut fs);
    let keys: Vec<(&str, &str, usize, Severity)> = fs
        .iter()
        .map(|f| (f.check, f.location.as_ref().unwrap().file.as_str(), f.location.as_ref().unwrap().line, f.severity))
        .collect();
    assert_eq!(
        keys,
        [
            ("orphaned", "a", 1, Severity::Fail),
            ("stale", "a", 5, Severity::Warn),
            ("stale", "a", 5, Severity::Fail),
            ("stale", "b", 2, Severity::Warn),
            ("stale", "b", 9, Severity::Warn),
            ("uncovered", "a", 1, Severity::Warn),
        ]
    );
}

#[test]
fn exit_codes() {
    let s = Summary { denominator: 0, covered: 0, exceptions: 0, fail: 0, warn: 5 };
    assert_eq!(runner::exit_code(&s), 0, "warnings alone exit 0");
    let s = Summary { fail: 1, ..s };
    assert_eq!(runner::exit_code(&s), 1);
}

#[test]
fn run_errors_and_messages() {
    assert_eq!(
        RunError::NoDocs.message(),
        "no docs to scan: pass <doc-paths> or set [scan].globs in config"
    );
    assert_eq!(
        RunError::MissingDocPath { path: "x/y".into() }.message(),
        "doc path x/y does not exist"
    );
    let mut cfg = Config::defaults();
    cfg.globs = vec!["docs/*.md".into(), "a[".into(), "b[".into()];
    match runner::scan_source(false, &cfg) {
        Err(RunError::Glob(GlobError::Invalid { glob, detail })) => {
            assert_eq!(glob, "a[", "the first bad pattern is reported");
            let m = RunError::Glob(GlobError::Invalid { glob, detail: detail.clone() }).message();
            assert!(m.starts_with("invalid glob `a[`: "));
            assert!(!detail.is_empty());
        }
        _ => panic!("invalid glob expected"),
    }
    assert_eq!(
        RunError::Glob(GlobError::Build { detail: "too big".into() }).message(),
        "building glob set: too big"
    );
}

#[test]
fn glob_filter_matches() {
    let f = GlobFilter::compile(&vec!["docs/**/*.md".to_string(), "*.txt".to_string()]).unwrap();
    assert!(f.is_match("docs/a.md"));
    assert!(f.is_match("docs/x/y/z.md"));
    assert!(f.is_match("notes.txt"));
    assert!(!f.is_match("src/a.rs"));
    assert!(!f.is_match("docs/a.markdown"));
    let none = GlobFilter::compile(&Vec::new()).unwrap();
    assert!(!none.is_match("docs/a.md"));
}

#[test]
fn display_paths() {
    assert_eq!(runner::display_path("./docs/a.md"), "docs/a.md");
    assert_eq!(runner::display_path("docs\\sub\\a.md"), "docs/sub/a.md");
    assert_eq!(runner::display_path(".\\a.md"), "a.md");
    assert_eq!(runner::display_path("././a.md"), "./a.md");
    assert_eq!(runner::display_path("a/./b"), "a/./b");
    assert_eq!(runner::display_path(""), "");
}

#[test]
fn hidden_entries() {
    assert!(!runner::is_hidden(0, Some(".")));
    assert!(runner::is_hidden(1, Some(".git")));
    assert!(!runner::is_hidden(1, Some("docs")));
    assert!(!runner::is_hidden(2, None));
    assert!(!runner::is_hidden(1, Some("")));
}

#[test]
fn scan_set_orders_and_dedups() {
    let mut set = ScanSet::new();
    set.insert("b.md".into(), 0);
    set.insert("a.md".into(), 1);
    set.insert("c.md".into(), 2);
    set.insert("b.md".into(), 3);
    let got: Vec<(&str, usize)> = set.entries.iter().map(|e| (e.display.as_str(), e.source)).collect();
    assert_eq!(got, [("a.md", 1), ("b.md", 3), ("c.md", 2)]);
}

#[test]
fn scan_source_choice() {
    let cfg = Config::defaults();
    assert!(matches!(runner::scan_source(true, &cfg), Ok(ScanSource::DocPaths)));
    assert!(matches!(runner::scan_source(false, &cfg), Err(RunError::NoDocs)));
}

#[test]
fn scan_set_is_canonical_law() {
    let names = ["docs/b.md", "a.md", "docs/a.md", "z/y.rs"];
    let mut forward = ScanSet::new();
    for (i, n) in names.iter().enumerate() {
        forward.insert(n.to_string(), i);
    }
    let mut backward = ScanSet::new();
    for (i, n) in names.iter().enumerate().rev() {
        backward.insert(n.to_string(), i);
    }
    let f: Vec<(&str, usize)> = forward.entries.iter().map(|e| (e.display.as_str(), e.source)).collect();
    let b: Vec<(&str, usize)> = backward.entries.iter().map(|e| (e.display.as_str(), e.source)).collect();
    assert_eq!(f, b);
    assert_eq!(f, [("a.md", 1), ("docs/a.md", 2), ("docs/b.md", 0), ("z/y.rs", 3)]);
}

#[test]
fn inventory_files_are_yaml() {
    assert!(scan::is_yaml_file("inv/reqs.yaml"));
    assert!(!scan::is_yaml_file("inv/reqs.yml"));
    assert!(!scan::is_yaml_file("inv/reqs.YAML"));
    assert!(!scan::is_yaml_file(".yaml"));
    assert!(scan::is_yaml_file("a.b.yaml"));
}

#[test]
fn scan_concatenates_law() {
    let a = file("a.md", "# A\nCovers: req~a~1\nCovers: bad\n");
    let b = file("b.txt", "Covers: req~b~1\n");
    let both = scan::scan_files(&[a.clone(), b.clone()]);
    let one = scan::scan_files(&[a]);
    let two = scan::scan_files(&[b]);
    let ids = |o: &ScanOutput| o.links.iter().map(|l| (l.id.to_text(), l.loc.clone())).collect::<Vec<_>>();
    let mut joined = ids(&one);
    joined.extend(ids(&two));
    assert_eq!(ids(&both), joined);
    assert_eq!(both.malformed.len(), one.malformed.len() + two.malformed.len());
    assert_eq!(both.sections.len(), one.sections.len() + two.sections.len());
    let none = scan::scan_files(&[]);
    assert!(none.links.is_empty() && none.malformed.is_empty() && none.sections.is_empty());
}

#[test]
fn sort_is_idempotent_and_canonical_law() {
    let make = || {
        vec![
            finding("stale", "req~a~1", "b", 2, Severity::Warn),
            finding("orphaned", "req~z~1", "a", 1, Severity::Fail),
            finding("stale", "req~a~1", "a", 5, Severity::Warn),
        ]
    };
    let mut p = make();
    let mut q = make();
    q.reverse();
    report::sort_findings(&mut p);
    report::sort_findings(&mut q);
    let key = |v: &Vec<Finding>| {
        v.iter()
            .map(|f| (f.check, f.location.as_ref().unwrap().file.clone(), f.location.as_ref().unwrap().line))
            .collect::<Vec<_>>()
    };
    assert_eq!(key(&p), key(&q));
    let before = key(&p);
    report::sort_findings(&mut p);
    assert_eq!(key(&p), before);
}

#[test]
fn slug_key_identifies_type_and_slug_law() {
    let a = ReqId::parse("req~login-throttling~2").unwrap();
    let b = ReqId::parse("req~login-throttling~7").unwrap();
    let c = ReqId::parse("req~login~1").unwrap();
    let d = ReqId::parse("re~qlogin~1").unwrap();
    assert_eq!(a.slug_key(), "req~login-throttling");
    assert_eq!(a.slug_key(), b.slug_key());
    assert_ne!(a.slug_key(), c.slug_key());
    assert_ne!(c.slug_key(), d.slug_key());
}
