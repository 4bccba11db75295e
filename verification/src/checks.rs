//! The coverage checks: findings and summary arithmetic.
use vstd::prelude::*;
use crate::config::{policy_of, Config, Policy};
use crate::exceptions::ExceptionEntry;
use crate::id::{id_text, key_text};
use crate::inventory::{
    counts_in_denominator, current_of, has_key, rating_text, spec_rating_value, Inventory, Item, Rating,
};
use crate::scan::{copy_opt, opt_view, LinkKind, LinkView, LocView, Location, ScanOutput, ScanOutputView};
use crate::text::{chars_of, search_sorted, seq_lt, str_views};

verus! {

#[derive(Debug, Clone, Copy, PartialEq, Eq, PartialOrd, Ord, Structural)]
pub enum Severity {
    Fail,
    Warn,
}

pub open spec fn severity_text(s: Severity) -> Seq<char> {
    match s {
        Severity::Fail => "fail"@,
        Severity::Warn => "warn"@,
    }
}

impl Severity {
    pub fn as_str(self) -> (r: &'static str)
        ensures
            r@ == severity_text(self),
    {
        match self {
            Severity::Fail => "fail",
            Severity::Warn => "warn",
        }
    }
}

#[derive(Debug, Clone)]
pub struct Finding {
    pub check: &'static str,
    pub id: Option<String>,
    pub rating: Option<Vec<String>>,
    pub owner: Option<String>,
    pub covered_rev: Option<u32>,
    pub current_rev: Option<u32>,
    pub severity: Severity,
    pub location: Option<Location>,
}

pub struct FindingView {
    pub check: Seq<char>,
    pub id: Option<Seq<char>>,
    pub rating: Option<Seq<Seq<char>>>,
    pub owner: Option<Seq<char>>,
    pub covered_rev: Option<u32>,
    pub current_rev: Option<u32>,
    pub severity: Severity,
    pub location: Option<LocView>,
}

pub open spec fn opt_strs_view(o: Option<Vec<String>>) -> Option<Seq<Seq<char>>> {
    match o {
        Some(v) => Some(str_views(v@)),
        None => None,
    }
}

pub open spec fn opt_loc_view(o: Option<Location>) -> Option<LocView> {
    match o {
        Some(l) => Some(l@),
        None => None,
    }
}

impl View for Finding {
    type V = FindingView;

    open spec fn view(&self) -> FindingView {
        FindingView {
            check: self.check@,
            id: opt_view(self.id),
            rating: opt_strs_view(self.rating),
            owner: opt_view(self.owner),
            covered_rev: self.covered_rev,
            current_rev: self.current_rev,
            severity: self.severity,
            location: opt_loc_view(self.location),
        }
    }
}

pub open spec fn finding_views(v: Seq<Finding>) -> Seq<FindingView> {
    Seq::new(v.len(), |i: int| v[i]@)
}

#[derive(Debug, Clone, Copy, PartialEq, Eq, Structural)]
pub struct Summary {
    pub denominator: usize,
    pub covered: usize,
    pub exceptions: usize,
    pub fail: usize,
    pub warn: usize,
}

/// by-rating: H → fail; M, L, or unrated → warn. Off suppresses the finding.
pub open spec fn spec_resolve(policy: Policy, rating_value: Option<Rating>) -> Option<Severity> {
    match policy {
        Policy::Fail => Some(Severity::Fail),
        Policy::Warn => Some(Severity::Warn),
        Policy::Off => None,
        Policy::ByRating => Some(
            if rating_value == Some(Rating::H) {
                Severity::Fail
            } else {
                Severity::Warn
            },
        ),
    }
}

fn resolve(policy: Policy, rating_value: Option<Rating>) -> (r: Option<Severity>)
    ensures
        r == spec_resolve(policy, rating_value),
{
    match policy {
        Policy::Fail => Some(Severity::Fail),
        Policy::Warn => Some(Severity::Warn),
        Policy::Off => None,
        Policy::ByRating => Some(
            match rating_value {
                Some(Rating::H) => Severity::Fail,
                _ => Severity::Warn,
            },
        ),
    }
}

// ---------------------------------------------------------------------------
// What the checks find

pub open spec fn link_key(l: LinkView) -> Seq<char> {
    key_text(l.id.0, l.id.1)
}

/// Some `Covers:` link names `type~slug` `k`, at any rev.
pub open spec fn key_covered(links: Seq<LinkView>, k: Seq<char>) -> bool {
    exists|i: int| 0 <= i < links.len() && links[i].kind == LinkKind::Covers && #[trigger] link_key(links[i]) == k
}

/// Some exception names `type~slug` `k`, at any rev.
pub open spec fn key_excepted(excs: Seq<ExceptionEntry>, k: Seq<char>) -> bool {
    exists|i: int| 0 <= i < excs.len() && #[trigger] excs[i].id.key() == k
}

pub open spec fn rating_views(r: Option<Vec<Rating>>) -> Option<Seq<Seq<char>>> {
    match r {
        Some(v) => Some(v@.map_values(|x: Rating| rating_text(x))),
        None => None,
    }
}

pub open spec fn bare_finding(check: Seq<char>, severity: Severity) -> FindingView {
    FindingView {
        check,
        id: None,
        rating: None,
        owner: None,
        covered_rev: None,
        current_rev: None,
        severity,
        location: None,
    }
}

pub open spec fn uncovered_view(it: Item, severity: Severity) -> FindingView {
    FindingView {
        id: Some(it.id.text()),
        rating: rating_views(it.rating),
        owner: opt_view(it.owner),
        ..bare_finding("uncovered"@, severity)
    }
}

pub open spec fn orphaned_view(l: LinkView, severity: Severity) -> FindingView {
    FindingView {
        id: Some(id_text(l.id.0, l.id.1, l.id.2)),
        location: Some(l.loc),
        ..bare_finding("orphaned"@, severity)
    }
}

pub open spec fn stale_view(it: Item, l: LinkView, severity: Severity) -> FindingView {
    FindingView {
        id: Some(it.id.text()),
        covered_rev: Some(l.id.2),
        current_rev: Some(it.id.rev),
        location: Some(l.loc),
        ..bare_finding("stale"@, severity)
    }
}

/// `uncovered`: denominator slugs (ascending) with no covering link and no
/// exception, with the current item's rating and owner.
pub open spec fn uncovered_part(
    items: Seq<Item>,
    d: Seq<Seq<char>>,
    links: Seq<LinkView>,
    excs: Seq<ExceptionEntry>,
    pol: Policy,
) -> Seq<FindingView>
    decreases d.len(),
{
    if d.len() == 0 {
        Seq::empty()
    } else {
        let rest = uncovered_part(items, d.drop_last(), links, excs, pol);
        let k = d.last();
        if key_covered(links, k) || key_excepted(excs, k) {
            rest
        } else {
            match current_of(items, k) {
                Some(x) => match spec_resolve(pol, spec_rating_value(items[x].rating)) {
                    Some(sev) => rest.push(uncovered_view(items[x], sev)),
                    None => rest,
                },
                None => rest,
            }
        }
    }
}

/// `orphaned` and `stale`, per `Covers:` link in scan order: a link whose
/// `type~slug` is in the inventory at no rev; a link below the current rev.
pub open spec fn link_part(items: Seq<Item>, links: Seq<LinkView>, orph: Policy, stale: Policy) -> Seq<FindingView>
    decreases links.len(),
{
    if links.len() == 0 {
        Seq::empty()
    } else {
        let rest = link_part(items, links.drop_last(), orph, stale);
        let l = links.last();
        if l.kind != LinkKind::Covers {
            rest
        } else {
            match current_of(items, link_key(l)) {
                None => match spec_resolve(orph, None) {
                    Some(sev) => rest.push(orphaned_view(l, sev)),
                    None => rest,
                },
                Some(x) => if l.id.2 < items[x].id.rev {
                    match spec_resolve(stale, spec_rating_value(items[x].rating)) {
                        Some(sev) => rest.push(stale_view(items[x], l, sev)),
                        None => rest,
                    }
                } else {
                    rest
                },
            }
        }
    }
}

/// `stale-exception`: exceptions whose `type~slug` is in the inventory at no
/// rev.
pub open spec fn exception_part(items: Seq<Item>, excs: Seq<ExceptionEntry>, pol: Policy) -> Seq<FindingView>
    decreases excs.len(),
{
    if excs.len() == 0 {
        Seq::empty()
    } else {
        let rest = exception_part(items, excs.drop_last(), pol);
        let e = excs.last();
        if !has_key(items, e.id.key()) {
            match spec_resolve(pol, None) {
                Some(sev) => rest.push(FindingView { id: Some(e.id.text()), ..bare_finding("stale-exception"@, sev) }),
                None => rest,
            }
        } else {
            rest
        }
    }
}

/// `malformed-annotation`: one per malformed line.
pub open spec fn malformed_part(locs: Seq<LocView>, pol: Policy) -> Seq<FindingView>
    decreases locs.len(),
{
    if locs.len() == 0 {
        Seq::empty()
    } else {
        let rest = malformed_part(locs.drop_last(), pol);
        match spec_resolve(pol, None) {
            Some(sev) => rest.push(
                FindingView { location: Some(locs.last()), ..bare_finding("malformed-annotation"@, sev) },
            ),
            None => rest,
        }
    }
}

/// `unparented`: sections with content but no `Covers:`/`Derived:` line.
pub open spec fn unparented_part(secs: Seq<crate::scan::SectionView>, pol: Policy) -> Seq<FindingView>
    decreases secs.len(),
{
    if secs.len() == 0 {
        Seq::empty()
    } else {
        let rest = unparented_part(secs.drop_last(), pol);
        let s = secs.last();
        if s.has_content && !s.has_annotation {
            match spec_resolve(pol, None) {
                Some(sev) => rest.push(FindingView { location: Some(s.loc), ..bare_finding("unparented"@, sev) }),
                None => rest,
            }
        } else {
            rest
        }
    }
}

/// All findings, in the order the checks run.
pub open spec fn spec_findings(
    items: Seq<Item>,
    d: Seq<Seq<char>>,
    scan: ScanOutputView,
    excs: Seq<ExceptionEntry>,
    sev: Map<Seq<char>, Policy>,
) -> Seq<FindingView> {
    uncovered_part(items, d, scan.links, excs, policy_of(sev, "uncovered"@)) + link_part(
        items,
        scan.links,
        policy_of(sev, "orphaned"@),
        policy_of(sev, "stale"@),
    ) + exception_part(items, excs, policy_of(sev, "stale-exception"@)) + malformed_part(
        scan.malformed,
        policy_of(sev, "malformed-annotation"@),
    ) + unparented_part(scan.sections, policy_of(sev, "unparented"@))
}

/// How many of `d` satisfy `covered` / `excepted`.
pub open spec fn count_covered(d: Seq<Seq<char>>, links: Seq<LinkView>) -> nat
    decreases d.len(),
{
    if d.len() == 0 {
        0
    } else {
        count_covered(d.drop_last(), links) + if key_covered(links, d.last()) {
            1nat
        } else {
            0nat
        }
    }
}

/// The applied exceptions: slugs of `d` that an exception names and no
/// `Covers:` link covers (an exception that spares an `uncovered` finding).
pub open spec fn count_excepted(d: Seq<Seq<char>>, links: Seq<LinkView>, excs: Seq<ExceptionEntry>) -> nat
    decreases d.len(),
{
    if d.len() == 0 {
        0
    } else {
        count_excepted(d.drop_last(), links, excs) + if key_excepted(excs, d.last()) && !key_covered(links, d.last()) {
            1nat
        } else {
            0nat
        }
    }
}

pub open spec fn count_severity(fs: Seq<FindingView>, s: Severity) -> nat
    decreases fs.len(),
{
    if fs.len() == 0 {
        0
    } else {
        count_severity(fs.drop_last(), s) + if fs.last().severity == s {
            1nat
        } else {
            0nat
        }
    }
}

/// Every finding is a failure or a warning: the two counts add up to the
/// number of findings.
pub proof fn law_severity_counts(fs: Seq<FindingView>)
    ensures
        count_severity(fs, Severity::Fail) + count_severity(fs, Severity::Warn) == fs.len(),
    decreases fs.len(),
{
    if fs.len() > 0 {
        law_severity_counts(fs.drop_last());
    }
}

/// Some finding fails exactly when the failure count is not zero, so the
/// exit code is 1 exactly when some finding is at fail severity.
///
/// Covers: cli~exit-codes~1
pub proof fn law_fail_count_positive(fs: Seq<FindingView>)
    ensures
        count_severity(fs, Severity::Fail) > 0 <==> exists|i: int| 0 <= i < fs.len() && (#[trigger] fs[i]).severity == Severity::Fail,
    decreases fs.len(),
{
    if fs.len() > 0 {
        let f0 = fs.drop_last();
        law_fail_count_positive(f0);
        if exists|i: int| 0 <= i < f0.len() && (#[trigger] f0[i]).severity == Severity::Fail {
            let i = choose|i: int| 0 <= i < f0.len() && (#[trigger] f0[i]).severity == Severity::Fail;
            assert(fs[i] == f0[i]);
        }
        if exists|i: int| 0 <= i < fs.len() && (#[trigger] fs[i]).severity == Severity::Fail {
            let i = choose|i: int| 0 <= i < fs.len() && (#[trigger] fs[i]).severity == Severity::Fail;
            if i < fs.len() - 1 {
                assert(f0[i] == fs[i]);
            }
        }
    }
}

/// How many findings come from check `c`.
pub open spec fn count_check(fs: Seq<FindingView>, c: Seq<char>) -> nat
    decreases fs.len(),
{
    if fs.len() == 0 {
        0
    } else {
        count_check(fs.drop_last(), c) + if fs.last().check == c {
            1nat
        } else {
            0nat
        }
    }
}

proof fn lemma_count_check_add(a: Seq<FindingView>, b: Seq<FindingView>, c: Seq<char>)
    ensures
        count_check(a + b, c) == count_check(a, c) + count_check(b, c),
    decreases b.len(),
{
    if b.len() > 0 {
        lemma_count_check_add(a, b.drop_last(), c);
        assert((a + b).drop_last() =~= a + b.drop_last());
    } else {
        assert(a + b =~= a);
    }
}

/// A sequence none of whose findings comes from check `c` counts none.
proof fn lemma_count_check_none(fs: Seq<FindingView>, c: Seq<char>)
    requires
        forall|i: int| 0 <= i < fs.len() ==> (#[trigger] fs[i]).check != c,
    ensures
        count_check(fs, c) == 0,
    decreases fs.len(),
{
    if fs.len() > 0 {
        lemma_count_check_none(fs.drop_last(), c);
    }
}

proof fn lemma_check_names_differ()
    ensures
        "uncovered"@.len() == 9,
        "orphaned"@.len() == 8,
        "stale"@.len() == 5,
        "stale-exception"@.len() == 15,
        "malformed-annotation"@.len() == 20,
        "unparented"@.len() == 10,
{
    reveal_strlit("uncovered");
    reveal_strlit("orphaned");
    reveal_strlit("stale");
    reveal_strlit("stale-exception");
    reveal_strlit("malformed-annotation");
    reveal_strlit("unparented");
}

proof fn lemma_link_part_checks(items: Seq<Item>, links: Seq<LinkView>, orph: Policy, stale: Policy)
    ensures
        forall|i: int| 0 <= i < link_part(items, links, orph, stale).len() ==> {
            let c = (#[trigger] link_part(items, links, orph, stale)[i]).check;
            c == "orphaned"@ || c == "stale"@
        },
    decreases links.len(),
{
    if links.len() > 0 {
        lemma_link_part_checks(items, links.drop_last(), orph, stale);
    }
}

proof fn lemma_exception_part_checks(items: Seq<Item>, excs: Seq<ExceptionEntry>, pol: Policy)
    ensures
        forall|i: int| 0 <= i < exception_part(items, excs, pol).len() ==> (#[trigger] exception_part(items, excs, pol)[i]).check
            == "stale-exception"@,
    decreases excs.len(),
{
    if excs.len() > 0 {
        lemma_exception_part_checks(items, excs.drop_last(), pol);
    }
}

proof fn lemma_malformed_part_checks(locs: Seq<LocView>, pol: Policy)
    ensures
        forall|i: int| 0 <= i < malformed_part(locs, pol).len() ==> (#[trigger] malformed_part(locs, pol)[i]).check
            == "malformed-annotation"@,
    decreases locs.len(),
{
    if locs.len() > 0 {
        lemma_malformed_part_checks(locs.drop_last(), pol);
    }
}

proof fn lemma_unparented_part_checks(secs: Seq<crate::scan::SectionView>, pol: Policy)
    ensures
        forall|i: int| 0 <= i < unparented_part(secs, pol).len() ==> (#[trigger] unparented_part(secs, pol)[i]).check
            == "unparented"@,
    decreases secs.len(),
{
    if secs.len() > 0 {
        lemma_unparented_part_checks(secs.drop_last(), pol);
    }
}

/// Each slug of `d` is covered, excepted or reported uncovered, and only
/// one of them.
proof fn lemma_uncovered_partition(
    items: Seq<Item>,
    d: Seq<Seq<char>>,
    links: Seq<LinkView>,
    excs: Seq<ExceptionEntry>,
    pol: Policy,
)
    requires
        pol != Policy::Off,
        forall|i: int| 0 <= i < d.len() ==> current_of(items, #[trigger] d[i]) is Some,
    ensures
        d.len() == count_covered(d, links) + count_excepted(d, links, excs) + count_check(
            uncovered_part(items, d, links, excs, pol),
            "uncovered"@,
        ),
    decreases d.len(),
{
    if d.len() > 0 {
        let d0 = d.drop_last();
        assert forall|i: int| 0 <= i < d0.len() implies current_of(items, #[trigger] d0[i]) is Some by {
            assert(d0[i] == d[i]);
        }
        lemma_uncovered_partition(items, d0, links, excs, pol);
        let k = d.last();
        assert(k == d[d.len() - 1]);
        let rest = uncovered_part(items, d0, links, excs, pol);
        if !(key_covered(links, k) || key_excepted(excs, k)) {
            let x = current_of(items, k)->0;
            let sev = spec_resolve(pol, spec_rating_value(items[x].rating))->0;
            let u = uncovered_part(items, d, links, excs, pol);
            assert(u == rest.push(uncovered_view(items[x], sev)));
            assert(u.drop_last() =~= rest);
        }
    }
}

/// The summary adds up: with `uncovered` not switched off, the denominator
/// is the covered slugs plus the applied exceptions plus the `uncovered`
/// findings.
///
/// Covers: out~summary~1
pub proof fn law_summary_adds_up(
    inv: &Inventory,
    scan: ScanOutputView,
    excs: Seq<ExceptionEntry>,
    sev: Map<Seq<char>, Policy>,
)
    requires
        inv.wf(),
        policy_of(sev, "uncovered"@) != Policy::Off,
    ensures
        inv.denom_keys().len() == count_covered(inv.denom_keys(), scan.links) + count_excepted(
            inv.denom_keys(),
            scan.links,
            excs,
        )
            + count_check(spec_findings(inv.items@, inv.denom_keys(), scan, excs, sev), "uncovered"@),
{
    let items = inv.items@;
    let d = inv.denom_keys();
    inv.lemma_denominator();
    assert forall|i: int| 0 <= i < d.len() implies current_of(items, #[trigger] d[i]) is Some by {
        assert(d.contains(d[i]));
    }
    let u = uncovered_part(items, d, scan.links, excs, policy_of(sev, "uncovered"@));
    let l = link_part(items, scan.links, policy_of(sev, "orphaned"@), policy_of(sev, "stale"@));
    let e = exception_part(items, excs, policy_of(sev, "stale-exception"@));
    let m = malformed_part(scan.malformed, policy_of(sev, "malformed-annotation"@));
    let p = unparented_part(scan.sections, policy_of(sev, "unparented"@));
    lemma_uncovered_partition(items, d, scan.links, excs, policy_of(sev, "uncovered"@));
    lemma_check_names_differ();
    lemma_link_part_checks(items, scan.links, policy_of(sev, "orphaned"@), policy_of(sev, "stale"@));
    lemma_exception_part_checks(items, excs, policy_of(sev, "stale-exception"@));
    lemma_malformed_part_checks(scan.malformed, policy_of(sev, "malformed-annotation"@));
    lemma_unparented_part_checks(scan.sections, policy_of(sev, "unparented"@));
    assert forall|i: int| 0 <= i < l.len() implies (#[trigger] l[i]).check != "uncovered"@ by {
        assert(l[i].check.len() != 9);
    }
    assert forall|i: int| 0 <= i < e.len() implies (#[trigger] e[i]).check != "uncovered"@ by {
        assert(e[i].check.len() != 9);
    }
    assert forall|i: int| 0 <= i < m.len() implies (#[trigger] m[i]).check != "uncovered"@ by {
        assert(m[i].check.len() != 9);
    }
    assert forall|i: int| 0 <= i < p.len() implies (#[trigger] p[i]).check != "uncovered"@ by {
        assert(p[i].check.len() != 9);
    }
    lemma_count_check_none(l, "uncovered"@);
    lemma_count_check_none(e, "uncovered"@);
    lemma_count_check_none(m, "uncovered"@);
    lemma_count_check_none(p, "uncovered"@);
    lemma_count_check_add(u, l, "uncovered"@);
    lemma_count_check_add(u + l, e, "uncovered"@);
    lemma_count_check_add(u + l + e, m, "uncovered"@);
    lemma_count_check_add(u + l + e + m, p, "uncovered"@);
}

/// The `Covers:` links of `links`, in order.
pub open spec fn covers_only(links: Seq<LinkView>) -> Seq<LinkView>
    decreases links.len(),
{
    if links.len() == 0 {
        Seq::empty()
    } else if links.last().kind == LinkKind::Covers {
        covers_only(links.drop_last()).push(links.last())
    } else {
        covers_only(links.drop_last())
    }
}

#[verifier::rlimit(60)]
proof fn lemma_covers_only_contains(links: Seq<LinkView>)
    ensures
        forall|x: LinkView| #[trigger] covers_only(links).contains(x) <==> (links.contains(x) && x.kind == LinkKind::Covers),
    decreases links.len(),
{
    if links.len() > 0 {
        let l0 = links.drop_last();
        lemma_covers_only_contains(l0);
        let r = covers_only(l0);
        assert forall|x: LinkView| #[trigger] covers_only(links).contains(x) <==> (links.contains(x) && x.kind
            == LinkKind::Covers) by {
            if links.contains(x) && x.kind == LinkKind::Covers {
                let i = choose|i: int| 0 <= i < links.len() && links[i] == x;
                if i < links.len() - 1 {
                    assert(l0[i] == x);
                    assert(l0.contains(x));
                    assert(r.contains(x));
                    let j = choose|j: int| 0 <= j < r.len() && r[j] == x;
                    if links.last().kind == LinkKind::Covers {
                        assert(covers_only(links)[j] == x);
                    }
                } else {
                    assert(covers_only(links) == r.push(x));
                    assert(covers_only(links)[r.len() as int] == x);
                }
            }
            if covers_only(links).contains(x) {
                let j = choose|j: int| 0 <= j < covers_only(links).len() && covers_only(links)[j] == x;
                if j < r.len() {
                    assert(r[j] == x);
                    assert(r.contains(x));
                    let i = choose|i: int| 0 <= i < l0.len() && l0[i] == x;
                    assert(links[i] == x);
                } else {
                    assert(links[links.len() - 1] == x);
                }
            }
        }
    }
}

proof fn lemma_key_covered_covers_only(links: Seq<LinkView>, k: Seq<char>)
    ensures
        key_covered(links, k) == key_covered(covers_only(links), k),
{
    lemma_covers_only_contains(links);
    let c = covers_only(links);
    if key_covered(links, k) {
        let i = choose|i: int| 0 <= i < links.len() && links[i].kind == LinkKind::Covers && #[trigger] link_key(links[i]) == k;
        assert(links.contains(links[i]));
        assert(c.contains(links[i]));
        let j = choose|j: int| 0 <= j < c.len() && c[j] == links[i];
        assert(link_key(c[j]) == k);
    }
    if key_covered(c, k) {
        let j = choose|j: int| 0 <= j < c.len() && c[j].kind == LinkKind::Covers && #[trigger] link_key(c[j]) == k;
        assert(c.contains(c[j]));
        let i = choose|i: int| 0 <= i < links.len() && links[i] == c[j];
        assert(link_key(links[i]) == k);
    }
}

proof fn lemma_link_part_covers_only(items: Seq<Item>, links: Seq<LinkView>, orph: Policy, stale: Policy)
    ensures
        link_part(items, links, orph, stale) == link_part(items, covers_only(links), orph, stale),
    decreases links.len(),
{
    if links.len() > 0 {
        lemma_link_part_covers_only(items, links.drop_last(), orph, stale);
        if links.last().kind == LinkKind::Covers {
            let r = covers_only(links.drop_last());
            assert(r.push(links.last()).drop_last() =~= r);
        }
    }
}

proof fn lemma_uncovered_covers_only(
    items: Seq<Item>,
    d: Seq<Seq<char>>,
    links: Seq<LinkView>,
    excs: Seq<ExceptionEntry>,
    pol: Policy,
)
    ensures
        uncovered_part(items, d, links, excs, pol) == uncovered_part(items, d, covers_only(links), excs, pol),
        count_covered(d, links) == count_covered(d, covers_only(links)),
        count_excepted(d, links, excs) == count_excepted(d, covers_only(links), excs),
    decreases d.len(),
{
    if d.len() > 0 {
        lemma_uncovered_covers_only(items, d.drop_last(), links, excs, pol);
        lemma_key_covered_covers_only(links, d.last());
    }
}

/// Derived links are exempt: only `Covers:` links count. Dropping every
/// `Derived:` link from a scan changes no finding, no covered count and no
/// count of applied exceptions.
///
/// Covers: ann~derived~1
pub proof fn law_derived_links_exempt(
    items: Seq<Item>,
    d: Seq<Seq<char>>,
    scan: ScanOutputView,
    excs: Seq<ExceptionEntry>,
    sev: Map<Seq<char>, Policy>,
)
    ensures
        spec_findings(items, d, scan, excs, sev) == spec_findings(
            items,
            d,
            ScanOutputView { links: covers_only(scan.links), ..scan },
            excs,
            sev,
        ),
        count_covered(d, scan.links) == count_covered(d, covers_only(scan.links)),
        count_excepted(d, scan.links, excs) == count_excepted(d, covers_only(scan.links), excs),
{
    lemma_uncovered_covers_only(items, d, scan.links, excs, policy_of(sev, "uncovered"@));
    lemma_link_part_covers_only(items, scan.links, policy_of(sev, "orphaned"@), policy_of(sev, "stale"@));
}

/// `links2` names the same slugs as `links`, link for link and of the same
/// kind, at whatever revs.
pub open spec fn same_link_slugs(links: Seq<LinkView>, links2: Seq<LinkView>) -> bool {
    &&& links.len() == links2.len()
    &&& forall|i: int| 0 <= i < links.len() ==> (#[trigger] links[i]).kind == links2[i].kind && link_key(links[i]) == link_key(
        links2[i],
    )
}

/// `excs2` names the same slugs as `excs`, entry for entry, at whatever revs.
pub open spec fn same_exception_slugs(excs: Seq<ExceptionEntry>, excs2: Seq<ExceptionEntry>) -> bool {
    &&& excs.len() == excs2.len()
    &&& forall|i: int| 0 <= i < excs.len() ==> (#[trigger] excs[i]).id.key() == excs2[i].id.key()
}

proof fn lemma_same_slugs_match(
    links: Seq<LinkView>,
    links2: Seq<LinkView>,
    excs: Seq<ExceptionEntry>,
    excs2: Seq<ExceptionEntry>,
    k: Seq<char>,
)
    requires
        same_link_slugs(links, links2),
        same_exception_slugs(excs, excs2),
    ensures
        key_covered(links, k) == key_covered(links2, k),
        key_excepted(excs, k) == key_excepted(excs2, k),
{
    if key_covered(links, k) {
        let i = choose|i: int| 0 <= i < links.len() && links[i].kind == LinkKind::Covers && #[trigger] link_key(links[i]) == k;
        assert(links[i].kind == links2[i].kind && link_key(links[i]) == link_key(links2[i]));
    }
    if key_covered(links2, k) {
        let i = choose|i: int| 0 <= i < links2.len() && links2[i].kind == LinkKind::Covers && #[trigger] link_key(links2[i]) == k;
        assert(links[i].kind == links2[i].kind && link_key(links[i]) == link_key(links2[i]));
    }
    if key_excepted(excs, k) {
        let i = choose|i: int| 0 <= i < excs.len() && #[trigger] excs[i].id.key() == k;
        assert(excs2[i].id.key() == k);
    }
    if key_excepted(excs2, k) {
        let i = choose|i: int| 0 <= i < excs2.len() && #[trigger] excs2[i].id.key() == k;
        assert(excs[i].id.key() == k);
    }
}

/// Coverage and exceptions match on `type~slug`, a rev only signals
/// staleness: links and exceptions that name the same slugs at other revs
/// give the same `uncovered` findings and the same covered and exception
/// counts.
///
/// Covers: chk~matching~1, exc~matching~1
pub proof fn law_matching_ignores_revs(
    items: Seq<Item>,
    d: Seq<Seq<char>>,
    links: Seq<LinkView>,
    links2: Seq<LinkView>,
    excs: Seq<ExceptionEntry>,
    excs2: Seq<ExceptionEntry>,
    pol: Policy,
)
    requires
        same_link_slugs(links, links2),
        same_exception_slugs(excs, excs2),
    ensures
        uncovered_part(items, d, links, excs, pol) == uncovered_part(items, d, links2, excs2, pol),
        count_covered(d, links) == count_covered(d, links2),
        count_excepted(d, links, excs) == count_excepted(d, links2, excs2),
    decreases d.len(),
{
    if d.len() > 0 {
        law_matching_ignores_revs(items, d.drop_last(), links, links2, excs, excs2, pol);
        lemma_same_slugs_match(links, links2, excs, excs2, d.last());
    }
}

proof fn lemma_uncovered_part_names(
    items: Seq<Item>,
    d: Seq<Seq<char>>,
    links: Seq<LinkView>,
    excs: Seq<ExceptionEntry>,
    pol: Policy,
)
    ensures
        forall|i: int| 0 <= i < uncovered_part(items, d, links, excs, pol).len() ==> exists|j: int| 0 <= j < d.len()
            && uncovered_of(items, links, excs, pol, #[trigger] uncovered_part(items, d, links, excs, pol)[i], d[j]),
    decreases d.len(),
{
    if d.len() > 0 {
        let d0 = d.drop_last();
        lemma_uncovered_part_names(items, d0, links, excs, pol);
        let u = uncovered_part(items, d, links, excs, pol);
        let r = uncovered_part(items, d0, links, excs, pol);
        assert forall|i: int| 0 <= i < u.len() implies exists|j: int| 0 <= j < d.len() && uncovered_of(items, links, excs, pol, #[trigger] u[i], d[j]) by {
            if i < r.len() {
                assert(u[i] == r[i]);
                let j = choose|j: int| 0 <= j < d0.len() && uncovered_of(items, links, excs, pol, r[i], d0[j]);
                assert(d[j] == d0[j]);
            } else {
                let k = d[d.len() - 1];
                assert(d.last() == k);
                let x = current_of(items, k)->0;
                if pol != Policy::Off {
                    lemma_resolve_rated(pol, items[x].rating);
                }
                assert(uncovered_of(items, links, excs, pol, u[i], k));
            }
        }
    }
}

/// Finding `f` reports slug `k` as uncovered: `k` has no `Covers:` link and
/// no exception, and `f` reports its current item under policy `pol`.
pub open spec fn uncovered_of(
    items: Seq<Item>,
    links: Seq<LinkView>,
    excs: Seq<ExceptionEntry>,
    pol: Policy,
    f: FindingView,
    k: Seq<char>,
) -> bool {
    &&& !key_covered(links, k)
    &&& !key_excepted(excs, k)
    &&& current_of(items, k) matches Some(x) && uncovered_reported(f, items[x], pol)
}

/// `f` reports item `it` as uncovered: its ID, its rating texts and its
/// owner, no place, at the severity `pol` gives `it`.
pub open spec fn uncovered_reported(f: FindingView, it: Item, pol: Policy) -> bool {
    &&& pol != Policy::Off
    &&& f.id == Some(it.id.text())
    &&& f.rating == rating_views(it.rating)
    &&& f.owner == opt_view(it.owner)
    &&& f.location is None
    &&& f.severity == rated_severity(pol, it.rating)
}

/// Only a denominator slug with no `Covers:` link at any rev and no
/// exception is reported `uncovered`, with its current item's ID, rating
/// and owner, at the severity the `uncovered` policy gives that item; a
/// slug covered only by a stale link is covered.
///
/// Covers: chk~uncovered~1, chk~matching~1
pub proof fn law_uncovered_only_when_unlinked(
    items: Seq<Item>,
    d: Seq<Seq<char>>,
    scan: ScanOutputView,
    excs: Seq<ExceptionEntry>,
    sev: Map<Seq<char>, Policy>,
    i: int,
)
    requires
        0 <= i < spec_findings(items, d, scan, excs, sev).len(),
        spec_findings(items, d, scan, excs, sev)[i].check == "uncovered"@,
    ensures
        exists|j: int| 0 <= j < d.len() && uncovered_of(
            items,
            scan.links,
            excs,
            policy_of(sev, "uncovered"@),
            spec_findings(items, d, scan, excs, sev)[i],
            #[trigger] d[j],
        ),
{
    let u = uncovered_part(items, d, scan.links, excs, policy_of(sev, "uncovered"@));
    let l = link_part(items, scan.links, policy_of(sev, "orphaned"@), policy_of(sev, "stale"@));
    let e = exception_part(items, excs, policy_of(sev, "stale-exception"@));
    let m = malformed_part(scan.malformed, policy_of(sev, "malformed-annotation"@));
    let p = unparented_part(scan.sections, policy_of(sev, "unparented"@));
    let all = spec_findings(items, d, scan, excs, sev);
    assert(all == u + l + e + m + p);
    lemma_check_names_differ();
    lemma_link_part_checks(items, scan.links, policy_of(sev, "orphaned"@), policy_of(sev, "stale"@));
    lemma_exception_part_checks(items, excs, policy_of(sev, "stale-exception"@));
    lemma_malformed_part_checks(scan.malformed, policy_of(sev, "malformed-annotation"@));
    lemma_unparented_part_checks(scan.sections, policy_of(sev, "unparented"@));
    lemma_uncovered_part_names(items, d, scan.links, excs, policy_of(sev, "uncovered"@));
    if i < u.len() {
        assert(all[i] == u[i]);
    } else if i < u.len() + l.len() {
        assert(all[i] == l[i - u.len()]);
        assert(all[i].check.len() != 9);
    } else if i < u.len() + l.len() + e.len() {
        assert(all[i] == e[i - u.len() - l.len()]);
        assert(all[i].check.len() != 9);
    } else if i < u.len() + l.len() + e.len() + m.len() {
        assert(all[i] == m[i - u.len() - l.len() - e.len()]);
        assert(all[i].check.len() != 9);
    } else {
        assert(all[i] == p[i - u.len() - l.len() - e.len() - m.len()]);
        assert(all[i].check.len() != 9);
    }
}

/// The severity a policy gives a finding about an item: `fail` and `warn`
/// as named; by-rating `fail` exactly when the item's first rating (its
/// value) is H, else `warn`.
pub open spec fn rated_severity(pol: Policy, rating: Option<Vec<Rating>>) -> Severity {
    if pol == Policy::Fail || (pol == Policy::ByRating && (rating matches Some(v) && v@.len() > 0 && v@[0] == Rating::H)) {
        Severity::Fail
    } else {
        Severity::Warn
    }
}

proof fn lemma_resolve_rated(pol: Policy, rating: Option<Vec<Rating>>)
    requires
        pol != Policy::Off,
    ensures
        spec_resolve(pol, spec_rating_value(rating)) == Some(rated_severity(pol, rating)),
{
}

/// `f` reports link `l` as stale against `it`, the current item of its slug,
/// at the severity `pol` gives `it`.
pub open spec fn stale_reported(f: FindingView, l: LinkView, it: Item, pol: Policy) -> bool {
    &&& pol != Policy::Off
    &&& l.kind == LinkKind::Covers
    &&& l.id.2 < it.id.rev
    &&& f.id == Some(it.id.text())
    &&& f.covered_rev == Some(l.id.2)
    &&& f.current_rev == Some(it.id.rev)
    &&& f.location == Some(l.loc)
    &&& f.severity == rated_severity(pol, it.rating)
}

proof fn lemma_link_part_stale(items: Seq<Item>, links: Seq<LinkView>, orph: Policy, stale: Policy)
    ensures
        forall|i: int| 0 <= i < link_part(items, links, orph, stale).len() && (#[trigger] link_part(items, links, orph, stale)[i]).check
            == "stale"@ ==> exists|j: int| 0 <= j < links.len() && (current_of(items, link_key(#[trigger] links[j])) matches Some(x)
            && stale_reported(link_part(items, links, orph, stale)[i], links[j], items[x], stale)),
    decreases links.len(),
{
    if links.len() > 0 {
        let l0 = links.drop_last();
        lemma_link_part_stale(items, l0, orph, stale);
        lemma_check_names_differ();
        let r = link_part(items, l0, orph, stale);
        let u = link_part(items, links, orph, stale);
        let last = links.len() - 1;
        assert(links.last() == links[last]);
        assert forall|i: int| 0 <= i < u.len() && (#[trigger] u[i]).check == "stale"@ implies exists|j: int|
            0 <= j < links.len() && (current_of(items, link_key(#[trigger] links[j])) matches Some(x) && stale_reported(
                u[i],
                links[j],
                items[x],
                stale,
            )) by {
            if i < r.len() {
                assert(u[i] == r[i]);
                let j = choose|j: int| 0 <= j < l0.len() && (current_of(items, link_key(#[trigger] l0[j])) matches Some(x)
                    && stale_reported(r[i], l0[j], items[x], stale));
                assert(links[j] == l0[j]);
            } else {
                let l = links.last();
                match current_of(items, link_key(l)) {
                    None => {
                        assert(u[i].check == "orphaned"@);
                        assert(u[i].check.len() == 8);
                    },
                    Some(x) => {
                        if stale != Policy::Off {
                            lemma_resolve_rated(stale, items[x].rating);
                        }
                        assert(stale_reported(u[i], links[last], items[x], stale));
                    },
                }
            }
        }
    }
}

/// A stale finding reports a `Covers:` link whose rev is below the current
/// rev of its slug: it names the current item, both revs and the link's
/// place, at the severity the `stale` policy gives the current item (under
/// by-rating, `fail` exactly when that item's rating value is H).
///
/// Covers: chk~stale~1, chk~severity-config~1
pub proof fn law_stale_findings(
    items: Seq<Item>,
    d: Seq<Seq<char>>,
    scan: ScanOutputView,
    excs: Seq<ExceptionEntry>,
    sev: Map<Seq<char>, Policy>,
    i: int,
)
    requires
        0 <= i < spec_findings(items, d, scan, excs, sev).len(),
        spec_findings(items, d, scan, excs, sev)[i].check == "stale"@,
    ensures
        exists|j: int| 0 <= j < scan.links.len() && (current_of(items, link_key(#[trigger] scan.links[j])) matches Some(x)
            && stale_reported(spec_findings(items, d, scan, excs, sev)[i], scan.links[j], items[x], policy_of(sev, "stale"@))),
{
    let u = uncovered_part(items, d, scan.links, excs, policy_of(sev, "uncovered"@));
    let l = link_part(items, scan.links, policy_of(sev, "orphaned"@), policy_of(sev, "stale"@));
    let e = exception_part(items, excs, policy_of(sev, "stale-exception"@));
    let m = malformed_part(scan.malformed, policy_of(sev, "malformed-annotation"@));
    let p = unparented_part(scan.sections, policy_of(sev, "unparented"@));
    let all = spec_findings(items, d, scan, excs, sev);
    assert(all == u + l + e + m + p);
    lemma_check_names_differ();
    lemma_uncovered_part_checks(items, d, scan.links, excs, policy_of(sev, "uncovered"@));
    lemma_link_part_stale(items, scan.links, policy_of(sev, "orphaned"@), policy_of(sev, "stale"@));
    lemma_exception_part_checks(items, excs, policy_of(sev, "stale-exception"@));
    lemma_malformed_part_checks(scan.malformed, policy_of(sev, "malformed-annotation"@));
    lemma_unparented_part_checks(scan.sections, policy_of(sev, "unparented"@));
    if i < u.len() {
        assert(all[i] == u[i]);
        assert(all[i].check.len() != 5);
    } else if i < u.len() + l.len() {
        assert(all[i] == l[i - u.len()]);
    } else if i < u.len() + l.len() + e.len() {
        assert(all[i] == e[i - u.len() - l.len()]);
        assert(all[i].check.len() != 5);
    } else if i < u.len() + l.len() + e.len() + m.len() {
        assert(all[i] == m[i - u.len() - l.len() - e.len()]);
        assert(all[i].check.len() != 5);
    } else {
        assert(all[i] == p[i - u.len() - l.len() - e.len() - m.len()]);
        assert(all[i].check.len() != 5);
    }
}

proof fn lemma_uncovered_part_checks(
    items: Seq<Item>,
    d: Seq<Seq<char>>,
    links: Seq<LinkView>,
    excs: Seq<ExceptionEntry>,
    pol: Policy,
)
    ensures
        forall|i: int| 0 <= i < uncovered_part(items, d, links, excs, pol).len() ==> (#[trigger] uncovered_part(
            items,
            d,
            links,
            excs,
            pol,
        )[i]).check == "uncovered"@,
    decreases d.len(),
{
    if d.len() > 0 {
        lemma_uncovered_part_checks(items, d.drop_last(), links, excs, pol);
    }
}

// ---------------------------------------------------------------------------
// Running the checks

/// Whether each denominator slug has a covering link.
fn covered_flags(d: &Vec<Vec<char>>, scan: &ScanOutput) -> (r: Vec<bool>)
    requires
        forall|a: int, b: int| 0 <= a < b < d@.len() ==> seq_lt(#[trigger] d@[a]@, #[trigger] d@[b]@),
    ensures
        r@.len() == d@.len(),
        forall|p: int| 0 <= p < d@.len() ==> #[trigger] r@[p] == key_covered(scan@.links, d@[p]@),
{
    let mut flags: Vec<bool> = Vec::new();
    let mut p: usize = 0;
    while p < d.len()
        invariant
            p <= d@.len(),
            flags@.len() == p,
            forall|q: int| 0 <= q < p ==> !#[trigger] flags@[q],
        decreases d.len() - p,
    {
        flags.push(false);
        p = p + 1;
    }
    let ghost links = scan@.links;
    let mut i: usize = 0;
    while i < scan.links.len()
        invariant
            i <= scan.links@.len(),
            links == scan@.links,
            flags@.len() == d@.len(),
            forall|a: int, b: int| 0 <= a < b < d@.len() ==> seq_lt(#[trigger] d@[a]@, #[trigger] d@[b]@),
            forall|q: int| 0 <= q < d@.len() ==> #[trigger] flags@[q] == key_covered(links.take(i as int), d@[q]@),
        decreases scan.links.len() - i,
    {
        let l = &scan.links[i];
        assert(links[i as int] == l@);
        let ghost old_flags = flags@;
        let ghost hit: Option<int> = None;
        if l.kind == LinkKind::Covers {
            let k = chars_of(l.id.slug_key().as_str());
            assert(k@ == link_key(l@));
            match search_sorted(d, &k) {
                Some(p) => {
                    flags.set(p, true);
                    proof {
                        hit = Some(p as int);
                    }
                },
                None => {},
            }
        }
        proof {
            crate::text::lemma_seq_lt_irreflexive(link_key(l@));
            assert forall|q: int| 0 <= q < d@.len() implies #[trigger] flags@[q] == key_covered(links.take(i + 1), d@[q]@) by {
                if hit is Some {
                    let hp = hit->0;
                    if q != hp {
                        assert(flags@[q] == old_flags[q]);
                        if q < hp {
                            assert(seq_lt(d@[q]@, d@[hp]@));
                        } else {
                            assert(seq_lt(d@[hp]@, d@[q]@));
                        }
                        crate::text::lemma_seq_lt_irreflexive(d@[q]@);
                    }
                } else {
                    assert(flags@[q] == old_flags[q]);
                }
                if key_covered(links.take(i as int), d@[q]@) {
                    let w = choose|w: int| 0 <= w < i && links.take(i as int)[w].kind == LinkKind::Covers
                        && #[trigger] link_key(links.take(i as int)[w]) == d@[q]@;
                    assert(links.take(i + 1)[w] == links.take(i as int)[w]);
                }
                if key_covered(links.take(i + 1), d@[q]@) {
                    let w = choose|w: int| 0 <= w < i + 1 && links.take(i + 1)[w].kind == LinkKind::Covers
                        && #[trigger] link_key(links.take(i + 1)[w]) == d@[q]@;
                    if w < i {
                        assert(links.take(i as int)[w] == links.take(i + 1)[w]);
                    }
                }
                if l.kind == LinkKind::Covers && link_key(l@) == d@[q]@ {
                    assert(links.take(i + 1)[i as int] == l@);
                }
            }
        }
        i = i + 1;
    }
    assert(links.take(links.len() as int) =~= links);
    flags
}

/// Whether each denominator slug has an exception.
fn excepted_flags(d: &Vec<Vec<char>>, excs: &[ExceptionEntry]) -> (r: Vec<bool>)
    requires
        forall|a: int, b: int| 0 <= a < b < d@.len() ==> seq_lt(#[trigger] d@[a]@, #[trigger] d@[b]@),
    ensures
        r@.len() == d@.len(),
        forall|p: int| 0 <= p < d@.len() ==> #[trigger] r@[p] == key_excepted(excs@, d@[p]@),
{
    let mut flags: Vec<bool> = Vec::new();
    let mut p: usize = 0;
    while p < d.len()
        invariant
            p <= d@.len(),
            flags@.len() == p,
            forall|q: int| 0 <= q < p ==> !#[trigger] flags@[q],
        decreases d.len() - p,
    {
        flags.push(false);
        p = p + 1;
    }
    let mut i: usize = 0;
    while i < excs.len()
        invariant
            i <= excs@.len(),
            flags@.len() == d@.len(),
            forall|a: int, b: int| 0 <= a < b < d@.len() ==> seq_lt(#[trigger] d@[a]@, #[trigger] d@[b]@),
            forall|q: int| 0 <= q < d@.len() ==> #[trigger] flags@[q] == key_excepted(excs@.take(i as int), d@[q]@),
        decreases excs.len() - i,
    {
        let k = chars_of(excs[i].id.slug_key().as_str());
        let ghost old_flags = flags@;
        let ghost hit: Option<int> = None;
        match search_sorted(d, &k) {
            Some(p) => {
                flags.set(p, true);
                proof {
                    hit = Some(p as int);
                }
            },
            None => {},
        }
        proof {
            let es = excs@;
            assert forall|q: int| 0 <= q < d@.len() implies #[trigger] flags@[q] == key_excepted(es.take(i + 1), d@[q]@) by {
                if hit is Some {
                    let hp = hit->0;
                    if q != hp {
                        assert(flags@[q] == old_flags[q]);
                        if q < hp {
                            assert(seq_lt(d@[q]@, d@[hp]@));
                        } else {
                            assert(seq_lt(d@[hp]@, d@[q]@));
                        }
                        crate::text::lemma_seq_lt_irreflexive(d@[q]@);
                    }
                } else {
                    assert(flags@[q] == old_flags[q]);
                }
                if key_excepted(es.take(i as int), d@[q]@) {
                    let w = choose|w: int| 0 <= w < i && #[trigger] es.take(i as int)[w].id.key() == d@[q]@;
                    assert(es.take(i + 1)[w] == es.take(i as int)[w]);
                }
                if key_excepted(es.take(i + 1), d@[q]@) {
                    let w = choose|w: int| 0 <= w < i + 1 && #[trigger] es.take(i + 1)[w].id.key() == d@[q]@;
                    if w < i {
                        assert(es.take(i as int)[w] == es.take(i + 1)[w]);
                    }
                }
                if es[i as int].id.key() == d@[q]@ {
                    assert(es.take(i + 1)[i as int] == es[i as int]);
                }
            }
        }
        i = i + 1;
    }
    assert(excs@.take(excs@.len() as int) =~= excs@);
    flags
}

fn new_finding(check: &'static str, severity: Severity) -> (f: Finding)
    ensures
        f@ == bare_finding(check@, severity),
{
    Finding {
        check,
        id: None,
        rating: None,
        owner: None,
        covered_rev: None,
        current_rev: None,
        severity,
        location: None,
    }
}

fn push_finding(out: &mut Vec<Finding>, f: Finding)
    ensures
        finding_views(final(out)@) == finding_views(old(out)@).push(f@),
{
    out.push(f);
    assert(finding_views(out@) =~= finding_views(old(out)@).push(f@));
}

fn uncovered_findings(
    inv: &Inventory,
    dkeys: &Vec<String>,
    covered: &Vec<bool>,
    excepted: &Vec<bool>,
    pol: Policy,
    out: &mut Vec<Finding>,
    Ghost(links): Ghost<Seq<LinkView>>,
    Ghost(excs): Ghost<Seq<ExceptionEntry>>,
)
    requires
        inv.wf(),
        str_views(dkeys@) == inv.denom_keys(),
        covered@.len() == dkeys@.len(),
        excepted@.len() == dkeys@.len(),
        forall|p: int| 0 <= p < dkeys@.len() ==> #[trigger] covered@[p] == key_covered(links, dkeys@[p]@),
        forall|p: int| 0 <= p < dkeys@.len() ==> #[trigger] excepted@[p] == key_excepted(excs, dkeys@[p]@),
    ensures
        finding_views(final(out)@) == finding_views(old(out)@) + uncovered_part(inv.items@, inv.denom_keys(), links, excs, pol),
{
    let ghost d = inv.denom_keys();
    proof {
        inv.lemma_denominator();
    }
    let mut p: usize = 0;
    assert(d.take(0) =~= Seq::<Seq<char>>::empty());
    assert(finding_views(out@) =~= finding_views(old(out)@) + uncovered_part(inv.items@, d.take(0), links, excs, pol));
    while p < dkeys.len()
        invariant
            inv.wf(),
            p <= dkeys@.len(),
            d == inv.denom_keys(),
            str_views(dkeys@) == d,
            covered@.len() == dkeys@.len(),
            excepted@.len() == dkeys@.len(),
            forall|p: int| 0 <= p < dkeys@.len() ==> #[trigger] covered@[p] == key_covered(links, dkeys@[p]@),
            forall|p: int| 0 <= p < dkeys@.len() ==> #[trigger] excepted@[p] == key_excepted(excs, dkeys@[p]@),
            forall|k: Seq<char>| #[trigger] d.contains(k) <==> (current_of(inv.items@, k) matches Some(x)
                && counts_in_denominator(inv.items@[x].status)),
            finding_views(out@) == finding_views(old(out)@) + uncovered_part(inv.items@, d.take(p as int), links, excs, pol),
        decreases dkeys.len() - p,
    {
        let ghost k = d[p as int];
        assert(dkeys@[p as int]@ == k);
        assert(d.take(p + 1).drop_last() =~= d.take(p as int));
        assert(d.take(p + 1).last() == k);
        let ghost before = finding_views(out@);
        if !covered[p] && !excepted[p] {
            assert(d.contains(k));
            match inv.current_item(dkeys[p].as_str()) {
                Some(it) => {
                    match resolve(pol, it.rating_value()) {
                        Some(sev) => {
                            let mut f = new_finding("uncovered", sev);
                            f.id = Some(it.id.to_text());
                            f.rating = it.rating_strings();
                            f.owner = copy_opt(&it.owner);
                            assert(f@ == uncovered_view(*it, sev));
                            push_finding(out, f);
                        },
                        None => {},
                    }
                },
                None => {},
            }
        }
        assert(finding_views(out@) =~= finding_views(old(out)@) + uncovered_part(inv.items@, d.take(p + 1), links, excs, pol));
        p = p + 1;
    }
    assert(d.take(dkeys@.len() as int) =~= d);
}

fn link_findings(inv: &Inventory, scan: &ScanOutput, orph: Policy, stale: Policy, out: &mut Vec<Finding>)
    requires
        inv.wf(),
    ensures
        finding_views(final(out)@) == finding_views(old(out)@) + link_part(inv.items@, scan@.links, orph, stale),
{
    let ghost links = scan@.links;
    let mut i: usize = 0;
    assert(links.take(0) =~= Seq::<LinkView>::empty());
    assert(finding_views(out@) =~= finding_views(old(out)@) + link_part(inv.items@, links.take(0), orph, stale));
    while i < scan.links.len()
        invariant
            inv.wf(),
            i <= scan.links@.len(),
            links == scan@.links,
            finding_views(out@) == finding_views(old(out)@) + link_part(inv.items@, links.take(i as int), orph, stale),
        decreases scan.links.len() - i,
    {
        let l = &scan.links[i];
        assert(links[i as int] == l@);
        assert(links.take(i + 1).drop_last() =~= links.take(i as int));
        assert(links.take(i + 1).last() == l@);
        if l.kind == LinkKind::Covers {
            let key = l.id.slug_key();
            assert(key@ == link_key(l@));
            match inv.current_rev(key.as_str()) {
                None => {
                    match resolve(orph, None) {
                        Some(sev) => {
                            let mut f = new_finding("orphaned", sev);
                            f.id = Some(l.id.to_text());
                            f.location = Some(l.loc.copy());
                            assert(f@ == orphaned_view(l@, sev));
                            push_finding(out, f);
                        },
                        None => {},
                    }
                },
                Some(cur) => {
                    if l.id.rev < cur {
                        match inv.current_item(key.as_str()) {
                            Some(it) => {
                                match resolve(stale, it.rating_value()) {
                                    Some(sev) => {
                                        let mut f = new_finding("stale", sev);
                                        f.id = Some(it.id.to_text());
                                        f.covered_rev = Some(l.id.rev);
                                        f.current_rev = Some(cur);
                                        f.location = Some(l.loc.copy());
                                        assert(f@ == stale_view(*it, l@, sev));
                                        push_finding(out, f);
                                    },
                                    None => {},
                                }
                            },
                            None => {},
                        }
                    }
                },
            }
        }
        assert(finding_views(out@) =~= finding_views(old(out)@) + link_part(inv.items@, links.take(i + 1), orph, stale));
        i = i + 1;
    }
    assert(links.take(links.len() as int) =~= links);
}

fn exception_findings(inv: &Inventory, excs: &[ExceptionEntry], pol: Policy, out: &mut Vec<Finding>)
    requires
        inv.wf(),
    ensures
        finding_views(final(out)@) == finding_views(old(out)@) + exception_part(inv.items@, excs@, pol),
{
    let mut i: usize = 0;
    assert(excs@.take(0) =~= Seq::<ExceptionEntry>::empty());
    assert(finding_views(out@) =~= finding_views(old(out)@) + exception_part(inv.items@, excs@.take(0), pol));
    while i < excs.len()
        invariant
            inv.wf(),
            i <= excs@.len(),
            finding_views(out@) == finding_views(old(out)@) + exception_part(inv.items@, excs@.take(i as int), pol),
        decreases excs.len() - i,
    {
        let e = &excs[i];
        assert(excs@.take(i + 1).drop_last() =~= excs@.take(i as int));
        assert(excs@.take(i + 1).last() == *e);
        let key = e.id.slug_key();
        if !inv.has_slug(key.as_str()) {
            match resolve(pol, None) {
                Some(sev) => {
                    let mut f = new_finding("stale-exception", sev);
                    f.id = Some(e.id.to_text());
                    push_finding(out, f);
                },
                None => {},
            }
        }
        assert(finding_views(out@) =~= finding_views(old(out)@) + exception_part(inv.items@, excs@.take(i + 1), pol));
        i = i + 1;
    }
    assert(excs@.take(excs@.len() as int) =~= excs@);
}

fn malformed_findings(scan: &ScanOutput, pol: Policy, out: &mut Vec<Finding>)
    ensures
        finding_views(final(out)@) == finding_views(old(out)@) + malformed_part(scan@.malformed, pol),
{
    let ghost ms = scan@.malformed;
    let mut i: usize = 0;
    assert(ms.take(0) =~= Seq::<LocView>::empty());
    assert(finding_views(out@) =~= finding_views(old(out)@) + malformed_part(ms.take(0), pol));
    while i < scan.malformed.len()
        invariant
            i <= scan.malformed@.len(),
            ms == scan@.malformed,
            finding_views(out@) == finding_views(old(out)@) + malformed_part(ms.take(i as int), pol),
        decreases scan.malformed.len() - i,
    {
        assert(ms.take(i + 1).drop_last() =~= ms.take(i as int));
        assert(ms.take(i + 1).last() == scan.malformed@[i as int].loc@);
        match resolve(pol, None) {
            Some(sev) => {
                let mut f = new_finding("malformed-annotation", sev);
                f.location = Some(scan.malformed[i].loc.copy());
                push_finding(out, f);
            },
            None => {},
        }
        assert(finding_views(out@) =~= finding_views(old(out)@) + malformed_part(ms.take(i + 1), pol));
        i = i + 1;
    }
    assert(ms.take(ms.len() as int) =~= ms);
}

fn unparented_findings(scan: &ScanOutput, pol: Policy, out: &mut Vec<Finding>)
    ensures
        finding_views(final(out)@) == finding_views(old(out)@) + unparented_part(scan@.sections, pol),
{
    let ghost ss = scan@.sections;
    let mut i: usize = 0;
    assert(ss.take(0) =~= Seq::<crate::scan::SectionView>::empty());
    assert(finding_views(out@) =~= finding_views(old(out)@) + unparented_part(ss.take(0), pol));
    while i < scan.sections.len()
        invariant
            i <= scan.sections@.len(),
            ss == scan@.sections,
            finding_views(out@) == finding_views(old(out)@) + unparented_part(ss.take(i as int), pol),
        decreases scan.sections.len() - i,
    {
        let sec = &scan.sections[i];
        assert(ss.take(i + 1).drop_last() =~= ss.take(i as int));
        assert(ss.take(i + 1).last() == sec@);
        if sec.has_content && !sec.has_annotation {
            match resolve(pol, None) {
                Some(sev) => {
                    let mut f = new_finding("unparented", sev);
                    f.location = Some(sec.loc.copy());
                    push_finding(out, f);
                },
                None => {},
            }
        }
        assert(finding_views(out@) =~= finding_views(old(out)@) + unparented_part(ss.take(i + 1), pol));
        i = i + 1;
    }
    assert(ss.take(ss.len() as int) =~= ss);
}

fn count_flags(Ghost(d): Ghost<Seq<Seq<char>>>, flags: &Vec<bool>, Ghost(links): Ghost<Seq<LinkView>>) -> (n: usize)
    requires
        flags@.len() == d.len(),
        forall|p: int| 0 <= p < d.len() ==> #[trigger] flags@[p] == key_covered(links, d[p]),
    ensures
        n == count_covered(d, links),
{
    let mut n: usize = 0;
    let mut p: usize = 0;
    assert(d.take(0) =~= Seq::<Seq<char>>::empty());
    while p < flags.len()
        invariant
            p <= flags@.len(),
            flags@.len() == d.len(),
            forall|p: int| 0 <= p < d.len() ==> #[trigger] flags@[p] == key_covered(links, d[p]),
            n == count_covered(d.take(p as int), links),
            n <= p,
        decreases flags.len() - p,
    {
        assert(d.take(p + 1).drop_last() =~= d.take(p as int));
        if flags[p] {
            n = n + 1;
        }
        p = p + 1;
    }
    assert(d.take(d.len() as int) =~= d);
    n
}

fn count_exc_flags(
    Ghost(d): Ghost<Seq<Seq<char>>>,
    flags: &Vec<bool>,
    covered: &Vec<bool>,
    Ghost(links): Ghost<Seq<LinkView>>,
    Ghost(excs): Ghost<Seq<ExceptionEntry>>,
) -> (n: usize)
    requires
        flags@.len() == d.len(),
        covered@.len() == d.len(),
        forall|p: int| 0 <= p < d.len() ==> #[trigger] flags@[p] == key_excepted(excs, d[p]),
        forall|p: int| 0 <= p < d.len() ==> #[trigger] covered@[p] == key_covered(links, d[p]),
    ensures
        n == count_excepted(d, links, excs),
{
    let mut n: usize = 0;
    let mut p: usize = 0;
    assert(d.take(0) =~= Seq::<Seq<char>>::empty());
    while p < flags.len()
        invariant
            p <= flags@.len(),
            flags@.len() == d.len(),
            covered@.len() == d.len(),
            forall|p: int| 0 <= p < d.len() ==> #[trigger] flags@[p] == key_excepted(excs, d[p]),
            forall|p: int| 0 <= p < d.len() ==> #[trigger] covered@[p] == key_covered(links, d[p]),
            n == count_excepted(d.take(p as int), links, excs),
            n <= p,
        decreases flags.len() - p,
    {
        assert(d.take(p + 1).drop_last() =~= d.take(p as int));
        if flags[p] && !covered[p] {
            n = n + 1;
        }
        p = p + 1;
    }
    assert(d.take(d.len() as int) =~= d);
    n
}

fn count_sev(fs: &Vec<Finding>, s: Severity) -> (n: usize)
    ensures
        n == count_severity(finding_views(fs@), s),
{
    let ghost v = finding_views(fs@);
    let mut n: usize = 0;
    let mut i: usize = 0;
    assert(v.take(0) =~= Seq::<FindingView>::empty());
    while i < fs.len()
        invariant
            i <= fs@.len(),
            v == finding_views(fs@),
            n == count_severity(v.take(i as int), s),
            n <= i,
        decreases fs.len() - i,
    {
        assert(v.take(i + 1).drop_last() =~= v.take(i as int));
        assert(v.take(i + 1).last() == fs@[i as int]@);
        if fs[i].severity == s {
            n = n + 1;
        }
        i = i + 1;
    }
    assert(v.take(v.len() as int) =~= v);
    n
}

/// Runs every check: `uncovered` over the denominator, then `orphaned` and
/// `stale` over the `Covers:` links (`Derived:` links are exempt), then
/// `stale-exception`, `malformed-annotation` and `unparented`; each at the
/// severity its policy gives, none when the policy is `off`. The summary
/// counts the denominator, its covered slugs, the exceptions applied to
/// slugs that nothing covers, and the findings per severity.
///
/// Covers: chk~matching~1, chk~uncovered~1, chk~stale~1, ann~derived~1, exc~matching~1, out~summary~1
#[verifier::rlimit(60)]
pub fn run(inv: &Inventory, scan: &ScanOutput, exceptions: &[ExceptionEntry], cfg: &Config) -> (r: (Vec<Finding>, Summary))
    requires
        inv.wf(),
    ensures
        finding_views(r.0@) == spec_findings(inv.items@, inv.denom_keys(), scan@, exceptions@, cfg.severity@),
        r.1.denominator == inv.denom_keys().len(),
        r.1.covered == count_covered(inv.denom_keys(), scan@.links),
        r.1.exceptions == count_excepted(inv.denom_keys(), scan@.links, exceptions@),
        r.1.fail == count_severity(finding_views(r.0@), Severity::Fail),
        r.1.warn == count_severity(finding_views(r.0@), Severity::Warn),
{
    let dkeys = inv.denominator();
    let ghost d = inv.denom_keys();
    proof {
        inv.lemma_denominator();
    }
    let mut dchars: Vec<Vec<char>> = Vec::new();
    let mut p: usize = 0;
    while p < dkeys.len()
        invariant
            p <= dkeys@.len(),
            dchars@.len() == p,
            forall|q: int| 0 <= q < p ==> #[trigger] dchars@[q]@ == dkeys@[q]@,
        decreases dkeys.len() - p,
    {
        dchars.push(chars_of(dkeys[p].as_str()));
        p = p + 1;
    }
    assert forall|a: int, b: int| 0 <= a < b < dchars@.len() implies seq_lt(#[trigger] dchars@[a]@, #[trigger] dchars@[b]@) by {
        assert(dchars@[a]@ == str_views(dkeys@)[a]);
        assert(dchars@[b]@ == str_views(dkeys@)[b]);
    }
    let covered = covered_flags(&dchars, scan);
    let excepted = excepted_flags(&dchars, exceptions);
    proof {
        assert forall|q: int| 0 <= q < dkeys@.len() implies dchars@[q]@ == #[trigger] dkeys@[q]@ by {}
    }
    let mut findings: Vec<Finding> = Vec::new();
    assert(finding_views(findings@) =~= Seq::<FindingView>::empty());
    uncovered_findings(inv, &dkeys, &covered, &excepted, cfg.policy("uncovered"), &mut findings, Ghost(scan@.links), Ghost(exceptions@));
    link_findings(inv, scan, cfg.policy("orphaned"), cfg.policy("stale"), &mut findings);
    exception_findings(inv, exceptions, cfg.policy("stale-exception"), &mut findings);
    malformed_findings(scan, cfg.policy("malformed-annotation"), &mut findings);
    unparented_findings(scan, cfg.policy("unparented"), &mut findings);
    proof {
        assert forall|q: int| 0 <= q < d.len() implies #[trigger] covered@[q] == key_covered(scan@.links, d[q]) by {
            assert(d[q] == dchars@[q]@);
        }
        assert forall|q: int| 0 <= q < d.len() implies #[trigger] excepted@[q] == key_excepted(exceptions@, d[q]) by {
            assert(d[q] == dchars@[q]@);
        }
    }
    let n_covered = count_flags(Ghost(d), &covered, Ghost(scan@.links));
    let n_exc = count_exc_flags(Ghost(d), &excepted, &covered, Ghost(scan@.links), Ghost(exceptions@));
    let fail = count_sev(&findings, Severity::Fail);
    let warn = count_sev(&findings, Severity::Warn);
    let summary = Summary { denominator: dkeys.len(), covered: n_covered, exceptions: n_exc, fail, warn };
    (findings, summary)
}

} // verus!
