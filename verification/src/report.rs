//! Report ordering and the human-readable rendering.
use vstd::prelude::*;
use crate::checks::{finding_views, opt_loc_view, opt_strs_view, Finding, FindingView, Severity, Summary};
use crate::scan::{copy_opt, opt_view, LocView};
use crate::text::{
    chars_of, clone_strings, compare_chars, dec_digits, lemma_seq_lt_irreflexive, lemma_seq_lt_total,
    lemma_seq_lt_transitive, push_char, push_chars, push_dec, push_str, seq_lt, starts_with_at, str_eq, trim_end,
    ws_start_back, ws_start_back_exec,
};

verus! {

// ---------------------------------------------------------------------------
// Ordering

/// The sort key: check, then ID, then file, then line (absent ones as empty
/// or 0).
pub open spec fn finding_key(f: FindingView) -> (Seq<char>, Seq<char>, Seq<char>, int) {
    (
        f.check,
        match f.id {
            Some(s) => s,
            None => Seq::empty(),
        },
        match f.location {
            Some(l) => l.file,
            None => Seq::empty(),
        },
        match f.location {
            Some(l) => l.line,
            None => 0,
        },
    )
}

pub open spec fn key_lt(a: (Seq<char>, Seq<char>, Seq<char>, int), b: (Seq<char>, Seq<char>, Seq<char>, int)) -> bool {
    ||| seq_lt(a.0, b.0)
    ||| (a.0 == b.0 && seq_lt(a.1, b.1))
    ||| (a.0 == b.0 && a.1 == b.1 && seq_lt(a.2, b.2))
    ||| (a.0 == b.0 && a.1 == b.1 && a.2 == b.2 && a.3 < b.3)
}

/// No finding's key is below that of a finding before it.
pub open spec fn sorted_by_key(fs: Seq<FindingView>) -> bool {
    forall|i: int, j: int| 0 <= i < j < fs.len() ==> !key_lt(finding_key(#[trigger] fs[j]), finding_key(#[trigger] fs[i]))
}

proof fn lemma_key_lt(a: (Seq<char>, Seq<char>, Seq<char>, int), b: (Seq<char>, Seq<char>, Seq<char>, int), c: (Seq<char>, Seq<char>, Seq<char>, int))
    ensures
        !key_lt(a, a),
        key_lt(a, b) ==> !key_lt(b, a),
        !key_lt(a, b) && !key_lt(b, a) ==> a == b,
        key_lt(a, b) && key_lt(b, c) ==> key_lt(a, c),
        !key_lt(b, a) && !key_lt(c, b) ==> !key_lt(c, a),
{
    lemma_seq_lt_irreflexive(a.0);
    lemma_seq_lt_irreflexive(a.1);
    lemma_seq_lt_irreflexive(a.2);
    lemma_seq_lt_total(a.0, b.0);
    lemma_seq_lt_total(a.1, b.1);
    lemma_seq_lt_total(a.2, b.2);
    lemma_seq_lt_total(b.0, c.0);
    lemma_seq_lt_total(b.1, c.1);
    lemma_seq_lt_total(b.2, c.2);
    lemma_seq_lt_total(a.0, c.0);
    lemma_seq_lt_total(a.1, c.1);
    lemma_seq_lt_total(a.2, c.2);
    if seq_lt(a.0, b.0) && seq_lt(b.0, c.0) {
        lemma_seq_lt_transitive(a.0, b.0, c.0);
    }
    if seq_lt(a.1, b.1) && seq_lt(b.1, c.1) {
        lemma_seq_lt_transitive(a.1, b.1, c.1);
    }
    if seq_lt(a.2, b.2) && seq_lt(b.2, c.2) {
        lemma_seq_lt_transitive(a.2, b.2, c.2);
    }
    if seq_lt(c.0, b.0) && seq_lt(b.0, a.0) {
        lemma_seq_lt_transitive(c.0, b.0, a.0);
    }
    if seq_lt(c.1, b.1) && seq_lt(b.1, a.1) {
        lemma_seq_lt_transitive(c.1, b.1, a.1);
    }
    if seq_lt(c.2, b.2) && seq_lt(b.2, a.2) {
        lemma_seq_lt_transitive(c.2, b.2, a.2);
    }
}

/// Where insertion sort puts a finding with key `k` into `s`: after every
/// finding whose key is not above `k`.
pub open spec fn ins_pos(s: Seq<FindingView>, k: (Seq<char>, Seq<char>, Seq<char>, int)) -> int
    decreases s.len(),
{
    if s.len() == 0 {
        0
    } else if key_lt(k, finding_key(s.last())) {
        ins_pos(s.drop_last(), k)
    } else {
        s.len() as int
    }
}

/// `s` sorted by key, stably: findings with equal keys keep their order.
pub open spec fn stable_sort(s: Seq<FindingView>) -> Seq<FindingView>
    decreases s.len(),
{
    if s.len() == 0 {
        s
    } else {
        let r = stable_sort(s.drop_last());
        r.insert(ins_pos(r, finding_key(s.last())), s.last())
    }
}

proof fn lemma_ins_pos(s: Seq<FindingView>, k: (Seq<char>, Seq<char>, Seq<char>, int), p: int)
    requires
        0 <= p <= s.len(),
        forall|a: int| p <= a < s.len() ==> key_lt(k, finding_key(#[trigger] s[a])),
        p == 0 || !key_lt(k, finding_key(s[p - 1])),
    ensures
        ins_pos(s, k) == p,
    decreases s.len(),
{
    if s.len() > p {
        assert(key_lt(k, finding_key(s[s.len() - 1])));
        let s0 = s.drop_last();
        assert forall|a: int| p <= a < s0.len() implies key_lt(k, finding_key(#[trigger] s0[a])) by {
            assert(s0[a] == s[a]);
        }
        if p > 0 {
            assert(s0[p - 1] == s[p - 1]);
        }
        lemma_ins_pos(s0, k, p);
    }
}

/// In a sorted `r`, `ins_pos` is after every finding whose key is not above
/// `k` and before every finding whose key is.
proof fn lemma_ins_pos_sorted(r: Seq<FindingView>, k: (Seq<char>, Seq<char>, Seq<char>, int))
    requires
        sorted_by_key(r),
    ensures
        0 <= ins_pos(r, k) <= r.len(),
        forall|a: int| ins_pos(r, k) <= a < r.len() ==> key_lt(k, finding_key(#[trigger] r[a])),
        forall|a: int| 0 <= a < ins_pos(r, k) ==> !key_lt(k, finding_key(#[trigger] r[a])),
    decreases r.len(),
{
    if r.len() > 0 {
        let r0 = r.drop_last();
        assert forall|x: int, y: int| 0 <= x < y < r0.len() implies !key_lt(finding_key(#[trigger] r0[y]), finding_key(#[trigger] r0[x])) by {
            assert(r0[x] == r[x] && r0[y] == r[y]);
        }
        lemma_ins_pos_sorted(r0, k);
        let last = finding_key(r[r.len() - 1]);
        if key_lt(k, last) {
            assert forall|a: int| ins_pos(r, k) <= a < r.len() implies key_lt(k, finding_key(#[trigger] r[a])) by {
                if a < r.len() - 1 {
                    assert(r0[a] == r[a]);
                }
            }
            assert forall|a: int| 0 <= a < ins_pos(r, k) implies !key_lt(k, finding_key(#[trigger] r[a])) by {
                assert(r0[a] == r[a]);
            }
        } else {
            assert forall|a: int| 0 <= a < ins_pos(r, k) implies !key_lt(k, finding_key(#[trigger] r[a])) by {
                if a < r.len() - 1 {
                    assert(!key_lt(finding_key(r[r.len() - 1]), finding_key(r[a])));
                    lemma_key_lt(finding_key(r[a]), last, k);
                    lemma_key_lt(k, finding_key(r[a]), last);
                }
            }
        }
    }
}

/// `stable_sort` sorts, and keeps every finding as often as it was there.
proof fn lemma_stable_sort(s: Seq<FindingView>)
    ensures
        sorted_by_key(stable_sort(s)),
        stable_sort(s).to_multiset() == s.to_multiset(),
        stable_sort(s).len() == s.len(),
    decreases s.len(),
{
    broadcast use vstd::seq_lib::group_to_multiset_ensures;

    if s.len() > 0 {
        let s0 = s.drop_last();
        let x = s.last();
        lemma_stable_sort(s0);
        let r = stable_sort(s0);
        let k = finding_key(x);
        lemma_ins_pos_sorted(r, k);
        let p = ins_pos(r, k);
        let t = r.insert(p, x);
        assert(stable_sort(s) == t);
        assert forall|a: int, b: int| 0 <= a < b < t.len() implies !key_lt(finding_key(#[trigger] t[b]), finding_key(#[trigger] t[a])) by {
            if b < p {
                assert(t[a] == r[a] && t[b] == r[b]);
            } else if b == p {
                assert(t[a] == r[a]);
            } else if a < p {
                assert(t[a] == r[a] && t[b] == r[b - 1]);
                lemma_key_lt(finding_key(r[a]), k, finding_key(r[b - 1]));
                lemma_key_lt(k, finding_key(r[b - 1]), finding_key(r[a]));
            } else if a == p {
                assert(t[b] == r[b - 1]);
                lemma_key_lt(k, finding_key(r[b - 1]), k);
            } else {
                assert(t[a] == r[a - 1] && t[b] == r[b - 1]);
            }
        }
        vstd::seq_lib::to_multiset_insert(r, p, x);
        assert(s =~= s0.push(x));
        vstd::seq_lib::to_multiset_build(s0, x);
    }
}

/// A sorted list is its own sort.
proof fn lemma_sorted_fixed(t: Seq<FindingView>)
    requires
        sorted_by_key(t),
    ensures
        stable_sort(t) == t,
    decreases t.len(),
{
    if t.len() > 0 {
        let t0 = t.drop_last();
        assert forall|x: int, y: int| 0 <= x < y < t0.len() implies !key_lt(finding_key(#[trigger] t0[y]), finding_key(#[trigger] t0[x])) by {
            assert(t0[x] == t[x] && t0[y] == t[y]);
        }
        lemma_sorted_fixed(t0);
        let k = finding_key(t.last());
        if t0.len() > 0 {
            assert(!key_lt(finding_key(t[t.len() - 1]), finding_key(t[t.len() - 2])));
            assert(ins_pos(t0, k) == t0.len());
        }
        assert(t0.insert(t0.len() as int, t.last()) =~= t);
    }
}

/// Sorting is idempotent: sorting sorted findings changes nothing.
///
/// Covers: cli~determinism~2
pub proof fn law_sort_idempotent(s: Seq<FindingView>)
    ensures
        stable_sort(stable_sort(s)) == stable_sort(s),
{
    lemma_stable_sort(s);
    lemma_sorted_fixed(stable_sort(s));
}

/// Two sorted lists with the same findings, where equal keys mean equal
/// findings, are the same list.
proof fn lemma_sorted_same(a: Seq<FindingView>, b: Seq<FindingView>)
    requires
        sorted_by_key(a),
        sorted_by_key(b),
        a.to_multiset() == b.to_multiset(),
        forall|x: FindingView, y: FindingView| a.contains(x) && a.contains(y) && finding_key(x) == finding_key(y) ==> x == y,
    ensures
        a == b,
    decreases a.len(),
{
    broadcast use vstd::seq_lib::group_to_multiset_ensures;

    assert(a.len() == a.to_multiset().len());
    assert(b.len() == b.to_multiset().len());
    if a.len() == 0 {
        assert(a =~= b);
    } else {
        let a0 = a[0];
        let b0 = b[0];
        assert(a.contains(a0));
        assert(a.to_multiset().count(a0) > 0);
        assert(b.contains(a0));
        let j = choose|j: int| 0 <= j < b.len() && b[j] == a0;
        assert(b.contains(b0));
        assert(b.to_multiset().count(b0) > 0);
        assert(a.contains(b0));
        let i = choose|i: int| 0 <= i < a.len() && a[i] == b0;
        if i > 0 {
            assert(!key_lt(finding_key(a[i]), finding_key(a[0])));
        }
        if j > 0 {
            assert(!key_lt(finding_key(b[j]), finding_key(b[0])));
        }
        lemma_key_lt(finding_key(a0), finding_key(b0), finding_key(a0));
        assert(finding_key(a0) == finding_key(b0));
        assert(a0 == b0);
        let a1 = a.remove(0);
        let b1 = b.remove(0);
        assert(a1.to_multiset() == a.to_multiset().remove(a0));
        assert(b1.to_multiset() == b.to_multiset().remove(b0));
        assert forall|x: int, y: int| 0 <= x < y < a1.len() implies !key_lt(finding_key(#[trigger] a1[y]), finding_key(#[trigger] a1[x])) by {
            assert(a1[x] == a[x + 1] && a1[y] == a[y + 1]);
        }
        assert forall|x: int, y: int| 0 <= x < y < b1.len() implies !key_lt(finding_key(#[trigger] b1[y]), finding_key(#[trigger] b1[x])) by {
            assert(b1[x] == b[x + 1] && b1[y] == b[y + 1]);
        }
        assert forall|x: FindingView| a1.contains(x) implies a.contains(x) by {
            let k = choose|k: int| 0 <= k < a1.len() && a1[k] == x;
            assert(a[k + 1] == x);
        }
        lemma_sorted_same(a1, b1);
        assert(a =~= seq![a0] + a1);
        assert(b =~= seq![b0] + b1);
    }
}

/// Sorting is canonical: findings that are a permutation of one another,
/// where findings with the same key (check, ID, file, line) are the same,
/// sort to the same list, whatever order they came in.
///
/// Covers: cli~determinism~2
pub proof fn law_sort_canonical(s1: Seq<FindingView>, s2: Seq<FindingView>)
    requires
        s1.to_multiset() == s2.to_multiset(),
        forall|i: int, j: int|
            0 <= i < s1.len() && 0 <= j < s1.len() && finding_key(#[trigger] s1[i]) == finding_key(#[trigger] s1[j]) ==> s1[i] == s1[j],
    ensures
        stable_sort(s1) == stable_sort(s2),
{
    broadcast use vstd::seq_lib::group_to_multiset_ensures;

    lemma_stable_sort(s1);
    lemma_stable_sort(s2);
    let a = stable_sort(s1);
    assert forall|x: FindingView, y: FindingView| a.contains(x) && a.contains(y) && finding_key(x) == finding_key(y) implies x == y by {
        assert(a.to_multiset().count(x) > 0);
        assert(a.to_multiset().count(y) > 0);
        assert(s1.contains(x));
        assert(s1.contains(y));
        let i = choose|i: int| 0 <= i < s1.len() && s1[i] == x;
        let j = choose|j: int| 0 <= j < s1.len() && s1[j] == y;
        assert(finding_key(s1[i]) == finding_key(s1[j]));
    }
    lemma_sorted_same(a, stable_sort(s2));
}

struct Key {
    check: Vec<char>,
    id: Vec<char>,
    file: Vec<char>,
    line: usize,
}

spec fn key_view(k: Key) -> (Seq<char>, Seq<char>, Seq<char>, int) {
    (k.check@, k.id@, k.file@, k.line as int)
}

fn key_of(f: &Finding) -> (k: Key)
    ensures
        key_view(k) == finding_key(f@),
{
    let check = chars_of(f.check);
    let id = match &f.id {
        Some(s) => chars_of(s.as_str()),
        None => Vec::new(),
    };
    let (file, line) = match &f.location {
        Some(l) => (chars_of(l.file.as_str()), l.line),
        None => (Vec::new(), 0),
    };
    let k = Key { check, id, file, line };
    assert(key_view(k) =~= finding_key(f@));
    k
}

fn key_less(a: &Key, b: &Key) -> (r: bool)
    ensures
        r == key_lt(key_view(*a), key_view(*b)),
{
    let c = compare_chars(&a.check, &b.check);
    if c != 0 {
        return c < 0;
    }
    let c = compare_chars(&a.id, &b.id);
    if c != 0 {
        return c < 0;
    }
    let c = compare_chars(&a.file, &b.file);
    if c != 0 {
        return c < 0;
    }
    a.line < b.line
}

impl Finding {
    /// A field-for-field copy.
    pub fn copy(&self) -> (c: Finding)
        ensures
            c@ == self@,
    {
        let rating = match &self.rating {
            Some(v) => Some(clone_strings(v)),
            None => None,
        };
        let location = match &self.location {
            Some(l) => Some(l.copy()),
            None => None,
        };
        let c = Finding {
            check: self.check,
            id: copy_opt(&self.id),
            rating,
            owner: copy_opt(&self.owner),
            covered_rev: self.covered_rev,
            current_rev: self.current_rev,
            severity: self.severity,
            location,
        };
        assert(c@ =~= self@);
        c
    }
}

/// Sorts findings by check, then ID, then file, then line; findings with
/// equal keys keep their order.
///
/// Covers: cli~determinism~2
#[verifier::rlimit(60)]
pub fn sort_findings(findings: &mut Vec<Finding>)
    ensures
        finding_views(final(findings)@) == stable_sort(finding_views(old(findings)@)),
        sorted_by_key(finding_views(final(findings)@)),
        finding_views(final(findings)@).to_multiset() == finding_views(old(findings)@).to_multiset(),
{
    let ghost src = finding_views(findings@);
    let mut out: Vec<Finding> = Vec::new();
    let mut keys: Vec<Key> = Vec::new();
    let mut i: usize = 0;
    assert(src.take(0) =~= Seq::<FindingView>::empty());
    assert(finding_views(out@) =~= Seq::<FindingView>::empty());
    while i < findings.len()
        invariant
            i <= findings@.len(),
            src == finding_views(findings@),
            keys@.len() == out@.len(),
            forall|a: int| 0 <= a < keys@.len() ==> #[trigger] key_view(keys@[a]) == finding_key(out@[a]@),
            sorted_by_key(finding_views(out@)),
            finding_views(out@).to_multiset() == src.take(i as int).to_multiset(),
            finding_views(out@) == stable_sort(src.take(i as int)),
        decreases findings.len() - i,
    {
        let f = findings[i].copy();
        let k = key_of(&f);
        let mut p = out.len();
        while p > 0 && key_less(&k, &keys[p - 1])
            invariant
                p <= out@.len(),
                keys@.len() == out@.len(),
                forall|a: int| p <= a < keys@.len() ==> key_lt(key_view(k), #[trigger] key_view(keys@[a])),
            decreases p,
        {
            p = p - 1;
        }
        let ghost ov = finding_views(out@);
        let ghost kv = key_view(k);
        proof {
            assert forall|a: int| 0 <= a < p implies !key_lt(kv, finding_key(#[trigger] ov[a])) by {
                assert(ov[a] == out@[a]@);
                assert(key_view(keys@[p - 1]) == finding_key(ov[p - 1]));
                assert(!key_lt(kv, finding_key(ov[p - 1])));
                if a < p - 1 {
                    assert(!key_lt(finding_key(ov[p - 1]), finding_key(ov[a])));
                    lemma_key_lt(finding_key(ov[a]), finding_key(ov[p - 1]), kv);
                }
            }
        }
        proof {
            assert forall|a: int| p <= a < ov.len() implies key_lt(kv, finding_key(#[trigger] ov[a])) by {
                assert(key_view(keys@[a]) == finding_key(out@[a]@));
            }
            if p > 0 {
                assert(key_view(keys@[p - 1]) == finding_key(ov[p - 1]));
            }
            lemma_ins_pos(ov, kv, p as int);
            assert(src.take(i + 1).drop_last() =~= src.take(i as int));
            assert(src.take(i + 1).last() == f@);
        }
        out.insert(p, f);
        keys.insert(p, k);
        proof {
            let nv = finding_views(out@);
            assert(nv =~= ov.insert(p as int, f@));
            assert forall|a: int| 0 <= a < keys@.len() implies #[trigger] key_view(keys@[a]) == finding_key(out@[a]@) by {
                if a < p {
                } else if a > p {
                    assert(keys@[a] == old_keys_at(keys@, a));
                }
            }
            assert forall|x: int, y: int| 0 <= x < y < nv.len() implies !key_lt(finding_key(#[trigger] nv[y]), finding_key(#[trigger] nv[x])) by {
                if y < p {
                    assert(nv[x] == ov[x] && nv[y] == ov[y]);
                } else if y == p {
                    assert(nv[x] == ov[x]);
                    assert(nv[y] == f@);
                } else if x < p {
                    assert(nv[x] == ov[x] && nv[y] == ov[y - 1]);
                    assert(!key_lt(kv, finding_key(ov[x])));
                    assert(key_lt(kv, key_view(keys@[y])));
                    lemma_key_lt(finding_key(ov[x]), kv, finding_key(ov[y - 1]));
                    lemma_key_lt(kv, finding_key(ov[y - 1]), finding_key(ov[x]));
                } else if x == p {
                    assert(nv[y] == ov[y - 1]);
                    assert(key_lt(kv, key_view(keys@[y])));
                    lemma_key_lt(kv, finding_key(ov[y - 1]), kv);
                } else {
                    assert(nv[x] == ov[x - 1] && nv[y] == ov[y - 1]);
                }
            }
            vstd::seq_lib::to_multiset_insert(ov, p as int, f@);
            assert(src.take(i + 1) =~= src.take(i as int).push(src[i as int]));
            vstd::seq_lib::to_multiset_build(src.take(i as int), src[i as int]);
        }
        i = i + 1;
    }
    assert(src.take(findings@.len() as int) =~= src);
    *findings = out;
}

spec fn old_keys_at(keys: Seq<Key>, a: int) -> Key {
    keys[a]
}

// ---------------------------------------------------------------------------
// Human rendering

pub open spec fn spaces(n: nat) -> Seq<char> {
    Seq::new(n, |i: int| ' ')
}

/// `{:<w}`: left-aligned, padded with spaces to at least `w` characters.
pub open spec fn pad(s: Seq<char>, w: nat) -> Seq<char> {
    if s.len() >= w {
        s
    } else {
        s + spaces((w - s.len()) as nat)
    }
}

/// `items` joined by `sep`.
pub open spec fn join(items: Seq<Seq<char>>, sep: Seq<char>) -> Seq<char>
    decreases items.len(),
{
    if items.len() == 0 {
        Seq::empty()
    } else if items.len() == 1 {
        items[0]
    } else {
        join(items.drop_last(), sep) + sep + items.last()
    }
}

pub open spec fn opt_num(o: Option<u32>) -> Seq<char> {
    match o {
        Some(n) => dec_digits(n as nat),
        None => seq!['0'],
    }
}

/// The text after the ID on a finding's line.
pub open spec fn detail(f: FindingView) -> Seq<char> {
    if f.check == "uncovered"@ {
        match (f.rating, f.owner) {
            (Some(r), Some(o)) => "["@ + join(r, ","@) + "]"@ + " "@ + "owner:"@ + o,
            (Some(r), None) => "["@ + join(r, ","@) + "]"@,
            (None, Some(o)) => "owner:"@ + o,
            (None, None) => Seq::empty(),
        }
    } else if f.check == "stale"@ {
        "covered rev "@ + opt_num(f.covered_rev) + ", current rev "@ + opt_num(f.current_rev)
    } else if f.check == "orphaned"@ {
        "not in inventory at any rev"@
    } else if f.check == "stale-exception"@ {
        "exception target not in inventory"@
    } else if f.check == "malformed-annotation"@ {
        "line fails the annotation grammar"@
    } else if f.check == "unparented"@ {
        "section has content but no Covers:/Derived:"@
    } else {
        Seq::empty()
    }
}

/// `s` ends with `t`.
pub open spec fn ends_with(s: Seq<char>, t: Seq<char>) -> bool {
    t.len() <= s.len() && s.subrange(s.len() - t.len(), s.len() as int) == t
}

/// The length an uncovered finding's detail has: its rating part, its owner
/// part, and one space when both are there.
pub open spec fn uncovered_detail_len(f: FindingView) -> int {
    let rl: int = match f.rating {
        Some(r) => join(r, seq![',']).len() as int + 2,
        None => 0,
    };
    let ol: int = match f.owner {
        Some(o) => o.len() as int + 6,
        None => 0,
    };
    rl + ol + if f.rating is Some && f.owner is Some {
        1int
    } else {
        0int
    }
}

/// An uncovered finding shows its rating, when it has one, first, as
/// `[value,risk]`; its owner, when it has one, last, as `owner:<owner>`,
/// whether or not there is a rating; a space between the two; nothing
/// else.
///
/// Covers: chk~uncovered~1
pub proof fn law_uncovered_detail(f: FindingView)
    requires
        f.check == "uncovered"@,
    ensures
        f.owner matches Some(o) ==> ends_with(detail(f), seq!['o', 'w', 'n', 'e', 'r', ':'] + o),
        f.rating matches Some(r) ==> starts_with_at(detail(f), 0, seq!['['] + join(r, seq![',']) + seq![']']),
        f.rating matches Some(r) ==> (f.owner is Some ==> detail(f)[join(r, seq![',']).len() as int + 2] == ' '),
        detail(f).len() == uncovered_detail_len(f),
{
    reveal_strlit("[");
    reveal_strlit("]");
    reveal_strlit(",");
    reveal_strlit(" ");
    reveal_strlit("owner:");
    let d = detail(f);
    match (f.rating, f.owner) {
        (Some(r), Some(o)) => {
            let rp = "["@ + join(r, ","@) + "]"@;
            assert(d == rp + " "@ + ("owner:"@ + o)) by {
                assert(d =~= rp + " "@ + ("owner:"@ + o));
            }
            assert(d.subrange(0, rp.len() as int) =~= rp);
            assert(d.subrange(d.len() - ("owner:"@ + o).len(), d.len() as int) =~= "owner:"@ + o);
        },
        (Some(r), None) => {
            let rp = "["@ + join(r, ","@) + "]"@;
            assert(d.subrange(0, rp.len() as int) =~= rp);
        },
        (None, Some(o)) => {
            assert(d.subrange(0, d.len() as int) =~= d);
        },
        (None, None) => {},
    }
    assert(","@ =~= seq![',']);
    assert("["@ =~= seq!['[']);
    assert("]"@ =~= seq![']']);
    assert("owner:"@ =~= seq!['o', 'w', 'n', 'e', 'r', ':']);
}

pub open spec fn severity_word(s: Severity) -> Seq<char> {
    match s {
        Severity::Fail => "FAIL"@,
        Severity::Warn => "WARN"@,
    }
}

pub open spec fn location_line(l: Option<LocView>) -> Seq<char> {
    match l {
        Some(loc) => match loc.section {
            Some(s) => "                → "@ + loc.file + " § \""@ + s + "\"\n"@,
            None => "                → "@ + loc.file + "\n"@,
        },
        None => Seq::empty(),
    }
}

/// One finding: `SEV check id detail`, columns padded to 10 and 22, trailing
/// whitespace trimmed; then its location, if any.
pub open spec fn finding_text(f: FindingView) -> Seq<char> {
    let id = match f.id {
        Some(s) => s,
        None => Seq::empty(),
    };
    trim_end(severity_word(f.severity) + " "@ + pad(f.check, 10) + " "@ + pad(id, 22) + " "@ + detail(f))
        + "\n"@ + location_line(f.location)
}

/// The findings of one severity, in order.
pub open spec fn findings_text(fs: Seq<FindingView>, s: Severity) -> Seq<char>
    decreases fs.len(),
{
    if fs.len() == 0 {
        Seq::empty()
    } else {
        findings_text(fs.drop_last(), s) + if fs.last().severity == s {
            finding_text(fs.last())
        } else {
            Seq::empty()
        }
    }
}

pub open spec fn plural(n: int) -> Seq<char> {
    if n == 1 {
        Seq::empty()
    } else {
        "s"@
    }
}

pub open spec fn count_part(s: Summary) -> Seq<char> {
    let total = s.fail + s.warn;
    dec_digits(total as nat) + " finding"@ + plural(total) + " ("@
}

pub open spec fn severity_part(s: Summary) -> Seq<char> {
    dec_digits(s.fail as nat) + " fail, "@ + dec_digits(s.warn as nat) + " warn) · "@
}

pub open spec fn coverage_part(s: Summary) -> Seq<char> {
    dec_digits(s.covered as nat) + "/"@ + dec_digits(s.denominator as nat) + " covered · "@
}

pub open spec fn exception_part(s: Summary) -> Seq<char> {
    dec_digits(s.exceptions as nat) + " exception"@ + plural(s.exceptions as int) + "\n"@
}

/// `N finding(s) (F fail, W warn) · C/D covered · E exception(s)`.
pub open spec fn summary_text(s: Summary) -> Seq<char> {
    count_part(s) + severity_part(s) + coverage_part(s) + exception_part(s)
}

/// The whole human report: failures, then warnings, then the summary line.
pub open spec fn human_text(fs: Seq<FindingView>, s: Summary) -> Seq<char> {
    findings_text(fs, Severity::Fail) + findings_text(fs, Severity::Warn) + summary_text(s)
}

fn push_padded(out: &mut String, s: &str, w: usize)
    ensures
        final(out)@ == old(out)@ + pad(s@, w as nat),
{
    let v = chars_of(s);
    push_str(out, s);
    let mut n = v.len();
    while n < w
        invariant
            v@ == s@,
            v@.len() <= n <= w || (n == v@.len() && n >= w),
            out@ == old(out)@ + s@ + spaces((n - v@.len()) as nat),
        decreases w - n,
    {
        push_char(out, ' ');
        assert(spaces((n + 1 - v@.len()) as nat) =~= spaces((n - v@.len()) as nat).push(' '));
        n = n + 1;
    }
    if v.len() >= w {
        assert(spaces(0) =~= Seq::<char>::empty());
    }
    assert(out@ =~= old(out)@ + pad(s@, w as nat));
}

fn push_opt_num(out: &mut String, o: Option<u32>)
    ensures
        final(out)@ == old(out)@ + opt_num(o),
{
    match o {
        Some(n) => push_dec(out, n as u64),
        None => {
            push_char(out, '0');
        },
    }
}

fn push_joined(out: &mut String, items: &Vec<String>, sep: &str)
    ensures
        final(out)@ == old(out)@ + join(crate::text::str_views(items@), sep@),
{
    let ghost v = crate::text::str_views(items@);
    let ghost start = out@;
    let mut i: usize = 0;
    assert(v.take(0) =~= Seq::<Seq<char>>::empty());
    assert(out@ =~= start + join(v.take(0), sep@));
    while i < items.len()
        invariant
            i <= items@.len(),
            v == crate::text::str_views(items@),
            out@ == start + join(v.take(i as int), sep@),
        decreases items.len() - i,
    {
        assert(v.take(i + 1).drop_last() =~= v.take(i as int));
        assert(v.take(i + 1).last() == items@[i as int]@);
        if i > 0 {
            push_str(out, sep);
        } else {
            assert(v.take(i + 1) =~= seq![items@[0]@]);
        }
        push_str(out, items[i].as_str());
        assert(out@ =~= start + join(v.take(i + 1), sep@));
        i = i + 1;
    }
    assert(v.take(items@.len() as int) =~= v);
}

#[verifier::rlimit(80)]
fn push_detail(out: &mut String, f: &Finding)
    ensures
        final(out)@ == old(out)@ + detail(f@),
{
    if str_eq(f.check, "uncovered") {
        match &f.rating {
            Some(r) => {
                push_str(out, "[");
                push_joined(out, r, ",");
                push_str(out, "]");
                match &f.owner {
                    Some(o) => {
                        push_str(out, " ");
                        push_str(out, "owner:");
                        push_str(out, o.as_str());
                    },
                    None => {},
                }
            },
            None => {
                match &f.owner {
                    Some(o) => {
                        push_str(out, "owner:");
                        push_str(out, o.as_str());
                    },
                    None => {},
                }
            },
        }
    } else if str_eq(f.check, "stale") {
        push_str(out, "covered rev ");
        push_opt_num(out, f.covered_rev);
        push_str(out, ", current rev ");
        push_opt_num(out, f.current_rev);
    } else if str_eq(f.check, "orphaned") {
        push_str(out, "not in inventory at any rev");
    } else if str_eq(f.check, "stale-exception") {
        push_str(out, "exception target not in inventory");
    } else if str_eq(f.check, "malformed-annotation") {
        push_str(out, "line fails the annotation grammar");
    } else if str_eq(f.check, "unparented") {
        push_str(out, "section has content but no Covers:/Derived:");
    }
    assert(out@ =~= old(out)@ + detail(f@));
}

#[verifier::rlimit(80)]
fn render_finding(out: &mut String, f: &Finding)
    ensures
        final(out)@ == old(out)@ + finding_text(f@),
{
    let mut line = String::new();
    match f.severity {
        Severity::Fail => push_str(&mut line, "FAIL"),
        Severity::Warn => push_str(&mut line, "WARN"),
    }
    push_str(&mut line, " ");
    push_padded(&mut line, f.check, 10);
    push_str(&mut line, " ");
    match &f.id {
        Some(s) => push_padded(&mut line, s.as_str(), 22),
        None => push_padded(&mut line, "", 22),
    }
    push_str(&mut line, " ");
    push_detail(&mut line, f);
    let lv = chars_of(line.as_str());
    let b = ws_start_back_exec(&lv, lv.len());
    push_chars(out, &lv, 0, b);
    push_str(out, "\n");
    match &f.location {
        Some(loc) => {
            push_str(out, "                → ");
            push_str(out, loc.file.as_str());
            match &loc.section {
                Some(s) => {
                    push_str(out, " § \"");
                    push_str(out, s.as_str());
                    push_str(out, "\"\n");
                },
                None => {
                    push_str(out, "\n");
                },
            }
        },
        None => {},
    }
    proof {
        let id = match f@.id {
            Some(s) => s,
            None => Seq::empty(),
        };
        assert(""@.len() == 0) by {
            reveal_strlit("");
        }
        assert(""@ =~= Seq::<char>::empty());
    }
    assert(out@ =~= old(out)@ + finding_text(f@));
}

#[verifier::rlimit(80)]
fn render_severity(out: &mut String, findings: &[Finding], s: Severity)
    ensures
        final(out)@ == old(out)@ + findings_text(finding_views(findings@), s),
{
    let ghost v = finding_views(findings@);
    let ghost start = out@;
    let mut i: usize = 0;
    assert(v.take(0) =~= Seq::<FindingView>::empty());
    assert(out@ =~= start + findings_text(v.take(0), s));
    while i < findings.len()
        invariant
            i <= findings@.len(),
            v == finding_views(findings@),
            out@ == start + findings_text(v.take(i as int), s),
        decreases findings.len() - i,
    {
        assert(v.take(i + 1).drop_last() =~= v.take(i as int));
        assert(v.take(i + 1).last() == findings@[i as int]@);
        if findings[i].severity == s {
            render_finding(out, &findings[i]);
        }
        assert(out@ =~= start + findings_text(v.take(i + 1), s));
        i = i + 1;
    }
    assert(v.take(findings@.len() as int) =~= v);
}

fn push_plural(out: &mut String, n: usize)
    ensures
        final(out)@ == old(out)@ + plural(n as int),
{
    if n != 1 {
        push_str(out, "s");
    } else {
        assert(old(out)@ + plural(n as int) =~= old(out)@);
    }
}

fn push_count(out: &mut String, n: usize)
    ensures
        final(out)@ == old(out)@ + dec_digits(n as nat),
{
    push_dec(out, n as u64);
}

fn push_count_part(out: &mut String, summary: &Summary)
    requires
        summary.fail + summary.warn <= usize::MAX,
    ensures
        final(out)@ == old(out)@ + count_part(*summary),
{
    let total = summary.fail + summary.warn;
    push_count(out, total);
    push_str(out, " finding");
    push_plural(out, total);
    push_str(out, " (");
    assert(out@ =~= old(out)@ + count_part(*summary));
}

fn push_severity_part(out: &mut String, summary: &Summary)
    ensures
        final(out)@ == old(out)@ + severity_part(*summary),
{
    push_count(out, summary.fail);
    push_str(out, " fail, ");
    push_count(out, summary.warn);
    push_str(out, " warn) · ");
    assert(out@ =~= old(out)@ + severity_part(*summary));
}

fn push_coverage_part(out: &mut String, summary: &Summary)
    ensures
        final(out)@ == old(out)@ + coverage_part(*summary),
{
    push_count(out, summary.covered);
    push_str(out, "/");
    push_count(out, summary.denominator);
    push_str(out, " covered · ");
    assert(out@ =~= old(out)@ + coverage_part(*summary));
}

fn push_exception_part(out: &mut String, summary: &Summary)
    ensures
        final(out)@ == old(out)@ + exception_part(*summary),
{
    push_count(out, summary.exceptions);
    push_str(out, " exception");
    push_plural(out, summary.exceptions);
    push_str(out, "\n");
    assert(out@ =~= old(out)@ + exception_part(*summary));
}

#[verifier::rlimit(80)]
fn push_summary(out: &mut String, summary: &Summary)
    requires
        summary.fail + summary.warn <= usize::MAX,
    ensures
        final(out)@ == old(out)@ + summary_text(*summary),
{
    let ghost s0 = out@;
    push_count_part(out, summary);
    push_severity_part(out, summary);
    push_coverage_part(out, summary);
    push_exception_part(out, summary);
    proof {
        let a = count_part(*summary);
        let b = severity_part(*summary);
        let c = coverage_part(*summary);
        let d = exception_part(*summary);
        vstd::seq_lib::lemma_concat_associative(s0, a, b);
        vstd::seq_lib::lemma_concat_associative(s0, a + b, c);
        vstd::seq_lib::lemma_concat_associative(s0, a + b + c, d);
    }
}

/// One line per finding, failures first, then a one-line summary.
#[verifier::rlimit(80)]
pub fn human(findings: &[Finding], summary: &Summary) -> (r: String)
    requires
        summary.fail + summary.warn <= usize::MAX,
    ensures
        r@ == human_text(finding_views(findings@), *summary),
{
    let mut out = String::new();
    render_severity(&mut out, findings, Severity::Fail);
    render_severity(&mut out, findings, Severity::Warn);
    push_summary(&mut out, summary);
    assert(out@ =~= human_text(finding_views(findings@), *summary));
    out
}

} // verus!
