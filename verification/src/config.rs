//! Config (`.reqtrace.toml`): severity policy, scan globs, exception path,
//! and discovery of which config applies.
use vstd::prelude::*;
use crate::text::{clone_strings, push_str, str_eq, str_views};

verus! {

#[derive(Debug, Clone, Copy, PartialEq, Eq, Structural)]
pub enum Policy {
    Fail,
    Warn,
    Off,
    ByRating,
}

/// What `Policy::parse` gives for a text.
pub open spec fn spec_policy(s: Seq<char>) -> Option<Policy> {
    if s == "fail"@ {
        Some(Policy::Fail)
    } else if s == "warn"@ {
        Some(Policy::Warn)
    } else if s == "off"@ {
        Some(Policy::Off)
    } else if s == "by-rating"@ {
        Some(Policy::ByRating)
    } else {
        None
    }
}

impl Policy {
    /// `fail` | `warn` | `off` | `by-rating`.
    pub fn parse(s: &str) -> (r: Option<Policy>)
        ensures
            r == spec_policy(s@),
    {
        if str_eq(s, "fail") {
            Some(Policy::Fail)
        } else if str_eq(s, "warn") {
            Some(Policy::Warn)
        } else if str_eq(s, "off") {
            Some(Policy::Off)
        } else if str_eq(s, "by-rating") {
            Some(Policy::ByRating)
        } else {
            None
        }
    }
}

/// The six check names.
pub open spec fn is_check_name(s: Seq<char>) -> bool {
    ||| s == "malformed-annotation"@
    ||| s == "orphaned"@
    ||| s == "stale"@
    ||| s == "stale-exception"@
    ||| s == "uncovered"@
    ||| s == "unparented"@
}

pub fn check_name_known(s: &str) -> (r: bool)
    ensures
        r == is_check_name(s@),
{
    str_eq(s, "malformed-annotation") || str_eq(s, "orphaned") || str_eq(s, "stale") || str_eq(
        s,
        "stale-exception",
    ) || str_eq(s, "uncovered") || str_eq(s, "unparented")
}

/// A per-check severity policy: a map from check name to policy, where a
/// later `insert` replaces an earlier one.
#[derive(Debug, Clone)]
pub struct SeverityMap {
    entries: Vec<(String, Policy)>,
}

pub open spec fn entry_key(e: (String, Policy)) -> Seq<char> {
    let (k, _) = e;
    k@
}

pub open spec fn entry_policy(e: (String, Policy)) -> Policy {
    let (_, p) = e;
    p
}

pub open spec fn entries_map(es: Seq<(String, Policy)>) -> Map<Seq<char>, Policy>
    decreases es.len(),
{
    if es.len() == 0 {
        Map::empty()
    } else {
        entries_map(es.drop_last()).insert(entry_key(es.last()), entry_policy(es.last()))
    }
}

proof fn lemma_entries_map_suffix(es: Seq<(String, Policy)>, i: int, k: Seq<char>)
    requires
        0 <= i <= es.len(),
        forall|j: int| i <= j < es.len() ==> entry_key(#[trigger] es[j]) != k,
    ensures
        entries_map(es).contains_key(k) == entries_map(es.take(i)).contains_key(k),
        entries_map(es).contains_key(k) ==> entries_map(es)[k] == entries_map(es.take(i))[k],
    decreases es.len(),
{
    if es.len() > i {
        assert(es.drop_last().take(i) =~= es.take(i));
        lemma_entries_map_suffix(es.drop_last(), i, k);
    } else {
        assert(es.take(i) =~= es);
    }
}

impl View for SeverityMap {
    type V = Map<Seq<char>, Policy>;

    open spec fn view(&self) -> Map<Seq<char>, Policy> {
        self.as_map()
    }
}

impl SeverityMap {
    pub closed spec fn as_map(&self) -> Map<Seq<char>, Policy> {
        entries_map(self.entries@)
    }

    pub fn new() -> (m: SeverityMap)
        ensures
            m@ == Map::<Seq<char>, Policy>::empty(),
    {
        SeverityMap { entries: Vec::new() }
    }

    /// Sets the policy of `check`, replacing any earlier one.
    pub fn insert(&mut self, check: String, policy: Policy)
        ensures
            final(self)@ == old(self)@.insert(check@, policy),
    {
        let ghost k = check@;
        self.entries.push((check, policy));
        assert(self.entries@.drop_last() =~= old(self).entries@);
    }

    /// The policy set for `check`, if any.
    pub fn get(&self, check: &str) -> (r: Option<Policy>)
        ensures
            r == (if self@.contains_key(check@) {
                Some(self@[check@])
            } else {
                None
            }),
    {
        let mut i = self.entries.len();
        while i > 0
            invariant
                i <= self.entries@.len(),
                forall|j: int| i <= j < self.entries@.len() ==> entry_key(#[trigger] self.entries@[j]) != check@,
            decreases i,
        {
            let (k, p) = &self.entries[i - 1];
            if str_eq(k.as_str(), check) {
                proof {
                    assert(self.entries@.take(i as int).drop_last() =~= self.entries@.take(i - 1));
                    assert(entry_key(self.entries@[i - 1]) == check@);
                    assert(self.entries@.take(i as int).last() == self.entries@[i - 1]);
                    assert(entry_policy(self.entries@[i - 1]) == *p);
                    assert(entries_map(self.entries@.take(i as int)) == entries_map(self.entries@.take(i - 1)).insert(
                        entry_key(self.entries@[i - 1]),
                        entry_policy(self.entries@[i - 1]),
                    ));
                    assert(entries_map(self.entries@.take(i as int)).contains_key(check@));
                    assert(entries_map(self.entries@.take(i as int))[check@] == *p);
                    lemma_entries_map_suffix(self.entries@, i as int, check@);
                    assert(entries_map(self.entries@).contains_key(check@));
                    assert(entries_map(self.entries@)[check@] == *p);
                    assert(self.as_map() == entries_map(self.entries@));
                    assert(self@ == self.as_map());
                    assert(self@.contains_key(check@) && self@[check@] == *p);
                }
                return Some(*p);
            }
            i = i - 1;
        }
        proof {
            lemma_entries_map_suffix(self.entries@, 0, check@);
            assert(self.entries@.take(0) =~= Seq::<(String, Policy)>::empty());
        }
        None
    }
}

#[derive(Debug, Clone)]
pub struct Config {
    pub globs: Vec<String>,
    /// Exception file path, resolved relative to the config file's directory.
    pub exceptions: Option<String>,
    pub severity: SeverityMap,
}

/// The built-in severity of each check.
pub open spec fn default_severity() -> Map<Seq<char>, Policy> {
    Map::empty().insert("uncovered"@, Policy::ByRating).insert("stale"@, Policy::ByRating).insert(
        "orphaned"@,
        Policy::Fail,
    ).insert("unparented"@, Policy::Off).insert("stale-exception"@, Policy::Warn).insert(
        "malformed-annotation"@,
        Policy::Fail,
    )
}

/// The policy a severity map gives a check: `off` when it has none.
pub open spec fn policy_of(m: Map<Seq<char>, Policy>, check: Seq<char>) -> Policy {
    if m.contains_key(check) {
        m[check]
    } else {
        Policy::Off
    }
}

impl Config {
    /// Built-in defaults per the check table. No scan globs and no exception
    /// file.
    pub fn defaults() -> (c: Config)
        ensures
            c.globs@.len() == 0,
            c.exceptions is None,
            c.severity@ == default_severity(),
    {
        let mut severity = SeverityMap::new();
        severity.insert(String::from_str("uncovered"), Policy::ByRating);
        severity.insert(String::from_str("stale"), Policy::ByRating);
        severity.insert(String::from_str("orphaned"), Policy::Fail);
        severity.insert(String::from_str("unparented"), Policy::Off);
        severity.insert(String::from_str("stale-exception"), Policy::Warn);
        severity.insert(String::from_str("malformed-annotation"), Policy::Fail);
        Config { globs: Vec::new(), exceptions: None, severity }
    }

    /// The policy for `check`; `off` for a check that has none.
    pub fn policy(&self, check: &str) -> (p: Policy)
        ensures
            p == policy_of(self.severity@, check@),
    {
        match self.severity.get(check) {
            Some(p) => p,
            None => Policy::Off,
        }
    }

    /// Applies a parsed config file on top of the defaults: its globs, its
    /// exception path joined to `base` (the config file's directory), and its
    /// `[severity]` entries in order. Fails on the first entry that names an
    /// unknown check or an unknown policy.
    pub fn from_raw(raw: &RawConfig, path: &str, base: &str) -> (r: Result<Config, ConfigError>)
        ensures
            r is Ok <==> raw_severity_ok(raw.severity@),
            r matches Ok(c) ==> str_views(c.globs@) == str_views(raw.globs@) && c.severity@ == apply_severity(
                default_severity(),
                raw.severity@,
            ) && match raw.exceptions {
                Some(e) => c.exceptions matches Some(p) && p@ == join_path(base@, e@),
                None => c.exceptions is None,
            },
            r matches Err(e) ==> e@ == first_severity_error(path@, raw.severity@),
    {
        let mut cfg = Config::defaults();
        cfg.globs = clone_strings(&raw.globs);
        cfg.exceptions = match &raw.exceptions {
            Some(e) => Some(join_path_exec(base, e.as_str())),
            None => None,
        };
        let mut i: usize = 0;
        assert(raw.severity@.take(0) =~= Seq::<(String, String)>::empty());
        while i < raw.severity.len()
            invariant
                i <= raw.severity@.len(),
                raw_severity_ok(raw.severity@.take(i as int)),
                cfg.severity@ == apply_severity(default_severity(), raw.severity@.take(i as int)),
                str_views(cfg.globs@) == str_views(raw.globs@),
                match raw.exceptions {
                    Some(e) => cfg.exceptions matches Some(p) && p@ == join_path(base@, e@),
                    None => cfg.exceptions is None,
                },
                first_severity_error(path@, raw.severity@) == first_severity_error_from(
                    path@,
                    raw.severity@,
                    i as int,
                ),
            decreases raw.severity.len() - i,
        {
            let (check, value) = &raw.severity[i];
            assert(raw.severity@.take(i + 1).drop_last() =~= raw.severity@.take(i as int));
            if !check_name_known(check.as_str()) {
                return Err(
                    ConfigError {
                        kind: ConfigErrorKind::UnknownCheck,
                        path: String::from_str(path),
                        check: check.clone(),
                        value: value.clone(),
                    },
                );
            }
            let policy = Policy::parse(value.as_str());
            match policy {
                Some(p) => {
                    cfg.severity.insert(check.clone(), p);
                },
                None => {
                    return Err(
                        ConfigError {
                            kind: ConfigErrorKind::InvalidSeverity,
                            path: String::from_str(path),
                            check: check.clone(),
                            value: value.clone(),
                        },
                    );
                },
            }
            i = i + 1;
        }
        assert(raw.severity@.take(raw.severity@.len() as int) =~= raw.severity@);
        Ok(cfg)
    }
}

/// A config file as parsed: `[scan].globs`, `[scan].exceptions` and the
/// `[severity]` table as (check, value) pairs in order.
#[derive(Debug, Clone)]
pub struct RawConfig {
    pub globs: Vec<String>,
    pub exceptions: Option<String>,
    pub severity: Vec<(String, String)>,
}

pub open spec fn pair_fst(e: (String, String)) -> Seq<char> {
    let (a, _) = e;
    a@
}

pub open spec fn pair_snd(e: (String, String)) -> Seq<char> {
    let (_, b) = e;
    b@
}

/// Each entry names a known check and a known policy.
pub open spec fn raw_severity_ok(es: Seq<(String, String)>) -> bool {
    forall|i: int|
        0 <= i < es.len() ==> is_check_name(pair_fst(#[trigger] es[i])) && spec_policy(
            pair_snd(es[i]),
        ) is Some
}

/// The map after applying the entries in order.
pub open spec fn apply_severity(m: Map<Seq<char>, Policy>, es: Seq<(String, String)>) -> Map<
    Seq<char>,
    Policy,
>
    decreases es.len(),
{
    if es.len() == 0 {
        m
    } else {
        apply_severity(m, es.drop_last()).insert(
            pair_fst(es.last()),
            spec_policy(pair_snd(es.last()))->0,
        )
    }
}

/// Every check of the built-in table is configurable and no other name is:
/// a name is a known check exactly when the defaults give it a policy, the
/// defaults give six checks a policy, and a `[severity]` table is accepted
/// exactly when each entry names a check of the defaults and a policy.
///
/// Covers: chk~severity-config~1
pub proof fn law_configurable_checks(name: Seq<char>, es: Seq<(String, String)>)
    ensures
        is_check_name(name) <==> default_severity().contains_key(name),
        default_severity().dom().len() == 6,
        raw_severity_ok(es) <==> forall|i: int|
            0 <= i < es.len() ==> default_severity().contains_key(pair_fst(#[trigger] es[i])) && spec_policy(
                pair_snd(es[i]),
            ) is Some,
{
    lemma_check_names_are_defaults();
    reveal_strlit("uncovered");
    reveal_strlit("stale");
    reveal_strlit("orphaned");
    reveal_strlit("unparented");
    reveal_strlit("stale-exception");
    reveal_strlit("malformed-annotation");
    let m0 = Map::<Seq<char>, Policy>::empty();
    let m1 = m0.insert("uncovered"@, Policy::ByRating);
    let m2 = m1.insert("stale"@, Policy::ByRating);
    let m3 = m2.insert("orphaned"@, Policy::Fail);
    let m4 = m3.insert("unparented"@, Policy::Off);
    let m5 = m4.insert("stale-exception"@, Policy::Warn);
    let m6 = m5.insert("malformed-annotation"@, Policy::Fail);
    assert(m0.dom() =~= Set::<Seq<char>>::empty());
    assert(!m0.dom().contains("uncovered"@));
    assert(!m1.dom().contains("stale"@)) by {
        assert("stale"@.len() != "uncovered"@.len());
    }
    assert(!m2.dom().contains("orphaned"@)) by {
        assert("orphaned"@.len() != "uncovered"@.len());
        assert("orphaned"@.len() != "stale"@.len());
    }
    assert(!m3.dom().contains("unparented"@)) by {
        assert("unparented"@.len() != "uncovered"@.len());
        assert("unparented"@.len() != "stale"@.len());
        assert("unparented"@.len() != "orphaned"@.len());
    }
    assert(!m4.dom().contains("stale-exception"@)) by {
        assert("stale-exception"@.len() != "uncovered"@.len());
        assert("stale-exception"@.len() != "stale"@.len());
        assert("stale-exception"@.len() != "orphaned"@.len());
        assert("stale-exception"@.len() != "unparented"@.len());
    }
    assert(!m5.dom().contains("malformed-annotation"@)) by {
        assert("malformed-annotation"@.len() != "uncovered"@.len());
        assert("malformed-annotation"@.len() != "stale"@.len());
        assert("malformed-annotation"@.len() != "orphaned"@.len());
        assert("malformed-annotation"@.len() != "unparented"@.len());
        assert("malformed-annotation"@.len() != "stale-exception"@.len());
    }
    assert(m6 == default_severity());
}

proof fn lemma_check_names_are_defaults()
    ensures
        forall|name: Seq<char>| is_check_name(name) <==> #[trigger] default_severity().contains_key(name),
{
}

#[derive(Debug, Clone, Copy, PartialEq, Eq, Structural)]
pub enum ConfigErrorKind {
    UnknownCheck,
    InvalidSeverity,
}

/// A config that names an unknown check or an unknown policy.
#[derive(Debug, Clone)]
pub struct ConfigError {
    pub kind: ConfigErrorKind,
    pub path: String,
    pub check: String,
    pub value: String,
}

pub struct ConfigErrorView {
    pub kind: ConfigErrorKind,
    pub path: Seq<char>,
    pub check: Seq<char>,
    pub value: Seq<char>,
}

impl View for ConfigError {
    type V = ConfigErrorView;

    open spec fn view(&self) -> ConfigErrorView {
        ConfigErrorView { kind: self.kind, path: self.path@, check: self.check@, value: self.value@ }
    }
}

/// The error for the first bad entry at or after `i`.
pub open spec fn first_severity_error_from(path: Seq<char>, es: Seq<(String, String)>, i: int) -> ConfigErrorView
    decreases es.len() - i,
{
    if i < 0 || i >= es.len() {
        ConfigErrorView { kind: ConfigErrorKind::UnknownCheck, path, check: Seq::empty(), value: Seq::empty() }
    } else if !is_check_name(pair_fst(es[i])) {
        ConfigErrorView { kind: ConfigErrorKind::UnknownCheck, path, check: pair_fst(es[i]), value: pair_snd(es[i]) }
    } else if spec_policy(pair_snd(es[i])) is None {
        ConfigErrorView {
            kind: ConfigErrorKind::InvalidSeverity,
            path,
            check: pair_fst(es[i]),
            value: pair_snd(es[i]),
        }
    } else {
        first_severity_error_from(path, es, i + 1)
    }
}

pub open spec fn first_severity_error(path: Seq<char>, es: Seq<(String, String)>) -> ConfigErrorView {
    first_severity_error_from(path, es, 0)
}

impl ConfigError {
    pub open spec fn spec_message(&self) -> Seq<char> {
        match self.kind {
            ConfigErrorKind::UnknownCheck => self.path@ + ": unknown check `"@ + self.check@
                + "` in [severity]"@,
            ConfigErrorKind::InvalidSeverity => self.path@ + ": invalid severity `"@ + self.value@
                + "` for `"@ + self.check@ + "` (want fail|warn|off|by-rating)"@,
        }
    }

    /// The error as the tool reports it.
    pub fn message(&self) -> (m: String)
        ensures
            m@ == self.spec_message(),
    {
        let mut m = self.path.clone();
        match self.kind {
            ConfigErrorKind::UnknownCheck => {
                push_str(&mut m, ": unknown check `");
                push_str(&mut m, self.check.as_str());
                push_str(&mut m, "` in [severity]");
            },
            ConfigErrorKind::InvalidSeverity => {
                push_str(&mut m, ": invalid severity `");
                push_str(&mut m, self.value.as_str());
                push_str(&mut m, "` for `");
                push_str(&mut m, self.check.as_str());
                push_str(&mut m, "` (want fail|warn|off|by-rating)");
            },
        }
        m
    }
}

/// `Path::join` of a relative or absolute `/`-separated path onto `base`.
pub open spec fn join_path(base: Seq<char>, rel: Seq<char>) -> Seq<char> {
    if rel.len() > 0 && rel[0] == '/' {
        rel
    } else if base.len() == 0 || base.last() == '/' {
        base + rel
    } else {
        base + seq!['/'] + rel
    }
}

pub fn join_path_exec(base: &str, rel: &str) -> (r: String)
    ensures
        r@ == join_path(base@, rel@),
{
    let r = crate::text::chars_of(rel);
    let b = crate::text::chars_of(base);
    let mut out = String::new();
    if r.len() > 0 && r[0] == '/' {
        push_str(&mut out, rel);
    } else {
        push_str(&mut out, base);
        if !(b.len() == 0 || b[b.len() - 1] == '/') {
            crate::text::push_char(&mut out, '/');
        }
        push_str(&mut out, rel);
    }
    assert(out@ =~= join_path(base@, rel@));
    out
}

/// A config file found on disk: its path (for messages), its directory and
/// its parsed contents.
#[derive(Debug, Clone)]
pub struct ConfigSource {
    pub path: String,
    pub base: String,
    pub raw: RawConfig,
}

/// The index of the first `Some` in `cands`, if any.
pub open spec fn first_found(cands: Seq<Option<ConfigSource>>) -> Option<int> {
    if exists|i: int| 0 <= i < cands.len() && cands[i] is Some {
        Some(choose|i: int| 0 <= i < cands.len() && cands[i] is Some && forall|j: int| 0 <= j < i ==> cands[j] is None)
    } else {
        None
    }
}

/// The config source that applies.
pub open spec fn chosen_config(explicit: Option<ConfigSource>, ancestors: Seq<Option<ConfigSource>>) -> Option<ConfigSource> {
    match explicit {
        Some(c) => Some(c),
        None => match first_found(ancestors) {
            Some(i) => ancestors[i],
            None => None,
        },
    }
}

/// Which config applies: an explicit one; else the one found nearest (the
/// first `Some` among the current directory and its ancestors, in order);
/// else the built-in defaults.
///
/// Covers: cli~config-discovery~1
pub fn discover(explicit: &Option<ConfigSource>, ancestors: &[Option<ConfigSource>]) -> (r: Result<Config, ConfigError>)
    ensures
        ({
            match chosen_config(*explicit, ancestors@) {
                Some(c) => {
                    &&& (r is Ok <==> raw_severity_ok(c.raw.severity@))
                    &&& r matches Ok(cfg) ==> cfg.severity@ == apply_severity(default_severity(), c.raw.severity@)
                        && str_views(cfg.globs@) == str_views(c.raw.globs@)
                    &&& r matches Ok(cfg) ==> match c.raw.exceptions {
                        Some(e) => cfg.exceptions matches Some(p) && p@ == join_path(c.base@, e@),
                        None => cfg.exceptions is None,
                    }
                    &&& r matches Err(e) ==> e@ == first_severity_error(c.path@, c.raw.severity@)
                },
                None => r matches Ok(cfg) && cfg.severity@ == default_severity() && cfg.globs@.len() == 0
                    && cfg.exceptions is None,
            }
        }),
{
    match explicit {
        Some(c) => {
            assert(chosen_config(*explicit, ancestors@) == Some(*c));
            return Config::from_raw(&c.raw, c.path.as_str(), c.base.as_str());
        },
        None => {},
    }
    let mut i: usize = 0;
    while i < ancestors.len()
        invariant
            i <= ancestors@.len(),
            *explicit is None,
            forall|j: int| 0 <= j < i ==> ancestors@[j] is None,
        decreases ancestors.len() - i,
    {
        match &ancestors[i] {
            Some(c) => {
                proof {
                    let w = choose|k: int| 0 <= k < ancestors@.len() && ancestors@[k] is Some && forall|j: int| 0 <= j < k ==> ancestors@[j] is None;
                    assert(ancestors@[i as int] is Some);
                    if w < i {
                        assert(ancestors@[w] is None);
                    }
                    if w > i {
                        assert(ancestors@[i as int] is None);
                    }
                    assert(first_found(ancestors@) == Some(i as int));
                    assert(chosen_config(*explicit, ancestors@) == Some(*c));
                }
                return Config::from_raw(&c.raw, c.path.as_str(), c.base.as_str());
            },
            None => {},
        }
        i = i + 1;
    }
    Ok(Config::defaults())
}

} // verus!
