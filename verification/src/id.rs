//! Requirement ID grammar: `type~slug~rev`.
//!
//! `type` is `[a-z][a-z0-9]*`; `slug` is `[a-z0-9]+(-[a-z0-9]+)*` (no
//! leading, trailing or consecutive hyphens); `rev` is `[1-9][0-9]*`.
use vstd::prelude::*;
use crate::text::{
    all_digits, chars_of, dec_digits, dec_value, digit_val, is_canonical_dec, is_digit, is_lower,
    is_lower_or_digit, lemma_dec_digits, lemma_dec_value_digits, push_char, push_dec, push_str,
    string_of,
};

verus! {

pub open spec fn is_type_seg(t: Seq<char>) -> bool {
    &&& t.len() >= 1
    &&& is_lower(t[0])
    &&& forall|k: int| 0 <= k < t.len() ==> is_lower_or_digit(#[trigger] t[k])
}

pub open spec fn is_slug_char(c: char) -> bool {
    is_lower_or_digit(c) || c == '-'
}

pub open spec fn is_slug_seg(s: Seq<char>) -> bool {
    &&& s.len() >= 1
    &&& forall|k: int| 0 <= k < s.len() ==> is_slug_char(#[trigger] s[k])
    &&& s[0] != '-'
    &&& s.last() != '-'
    &&& forall|k: int| 0 <= k < s.len() - 1 ==> !(#[trigger] s[k] == '-' && s[k + 1] == '-')
}

pub open spec fn is_rev_seg(r: Seq<char>) -> bool {
    &&& r.len() >= 1
    &&& r[0] != '0'
    &&& all_digits(r)
}

pub open spec fn join_id(t: Seq<char>, sl: Seq<char>, r: Seq<char>) -> Seq<char> {
    t + seq!['~'] + sl + seq!['~'] + r
}

/// `s` is the ID text with type `t`, slug `sl` and rev numeral `r`.
pub open spec fn id_parts(s: Seq<char>, t: Seq<char>, sl: Seq<char>, r: Seq<char>) -> bool {
    &&& s == join_id(t, sl, r)
    &&& is_type_seg(t)
    &&& is_slug_seg(sl)
    &&& is_rev_seg(r)
}

/// `s` matches the ID grammar (whatever the size of its rev).
pub open spec fn is_id_text(s: Seq<char>) -> bool {
    exists|t: Seq<char>, sl: Seq<char>, r: Seq<char>| id_parts(s, t, sl, r)
}

/// What parsing `s` gives: type, slug and rev, or nothing when `s` fails the
/// grammar or its rev does not fit in a `u32`.
pub open spec fn spec_parse_id(s: Seq<char>) -> Option<(Seq<char>, Seq<char>, u32)> {
    if exists|t: Seq<char>, sl: Seq<char>, r: Seq<char>|
        id_parts(s, t, sl, r) && dec_value(r) <= u32::MAX {
        let (t, sl, r) = choose|t: Seq<char>, sl: Seq<char>, r: Seq<char>|
            id_parts(s, t, sl, r) && dec_value(r) <= u32::MAX;
        Some((t, sl, dec_value(r) as u32))
    } else {
        None
    }
}

/// The ID text of type `t`, slug `sl` and rev `rev`.
pub open spec fn id_text(t: Seq<char>, sl: Seq<char>, rev: u32) -> Seq<char> {
    join_id(t, sl, dec_digits(rev as nat))
}

/// `type~slug`, the identity that coverage and exceptions match on.
pub open spec fn key_text(t: Seq<char>, sl: Seq<char>) -> Seq<char> {
    t + seq!['~'] + sl
}

#[derive(Debug, Clone, PartialEq, Eq, PartialOrd, Ord, Hash)]
pub struct ReqId {
    pub ty: String,
    pub slug: String,
    pub rev: u32,
}

impl ReqId {
    /// Type and slug follow the grammar and the rev is at least 1.
    pub open spec fn wf(&self) -> bool {
        is_type_seg(self.ty@) && is_slug_seg(self.slug@) && self.rev >= 1
    }

    /// `type~slug~rev`.
    pub open spec fn text(&self) -> Seq<char> {
        id_text(self.ty@, self.slug@, self.rev)
    }

    /// `type~slug`.
    pub open spec fn key(&self) -> Seq<char> {
        key_text(self.ty@, self.slug@)
    }

    /// Parses `type~slug~rev`; `None` when `s` fails the grammar or the rev
    /// overflows `u32`.
    pub fn parse(s: &str) -> (r: Option<ReqId>)
        ensures
            r is None <==> spec_parse_id(s@) is None,
            r matches Some(id) ==> spec_parse_id(s@) == Some((id.ty@, id.slug@, id.rev)),
            r matches Some(id) ==> id.wf() && id.text() == s@,
    {
        let v = chars_of(s);
        assert(v@.subrange(0, v@.len() as int) =~= s@);
        parse_chars(&v, 0, v.len())
    }

    /// `type~slug`, the identity that coverage and exceptions match on.
    pub fn slug_key(&self) -> (k: String)
        ensures
            k@ == self.key(),
    {
        let mut k = self.ty.clone();
        push_char(&mut k, '~');
        push_str(&mut k, self.slug.as_str());
        assert(k@ =~= self.key());
        k
    }

    /// `type~slug~rev`, as the ID is written.
    pub fn to_text(&self) -> (t: String)
        ensures
            t@ == self.text(),
    {
        let mut t = self.ty.clone();
        push_char(&mut t, '~');
        push_str(&mut t, self.slug.as_str());
        push_char(&mut t, '~');
        push_dec(&mut t, self.rev as u64);
        assert(t@ =~= self.text());
        t
    }

    /// A field-for-field copy.
    pub fn copy(&self) -> (c: ReqId)
        ensures
            c.ty@ == self.ty@,
            c.slug@ == self.slug@,
            c.rev == self.rev,
    {
        ReqId { ty: self.ty.clone(), slug: self.slug.clone(), rev: self.rev }
    }
}

/// The characters of an ID: lower-case letters, digits, `~` and `-`; it
/// starts with a letter and ends with a digit.
pub proof fn lemma_id_text_chars(x: Seq<char>)
    requires
        is_id_text(x),
    ensures
        x.len() >= 5,
        is_lower(x[0]),
        is_digit(x[x.len() - 1]),
        forall|k: int| 0 <= k < x.len() ==> is_lower_or_digit(#[trigger] x[k]) || x[k] == '~' || x[k] == '-',
{
    let (t, sl, r) = choose|t: Seq<char>, sl: Seq<char>, r: Seq<char>| id_parts(x, t, sl, r);
    lemma_id_parts_positions(x, t, sl, r);
    let a = t.len() as int;
    let b = a + 1 + sl.len();
    assert(x[0] == t[0]);
    assert(x[x.len() - 1] == r[r.len() - 1]);
    assert forall|k: int| 0 <= k < x.len() implies is_lower_or_digit(#[trigger] x[k]) || x[k] == '~' || x[k] == '-' by {
        if k < a {
            assert(x[k] == t[k]);
        } else if a < k < b {
            assert(x[k] == sl[k - a - 1]);
            assert(is_slug_char(sl[k - a - 1]));
        } else if k > b {
            assert(x[k] == r[k - b - 1]);
            assert(is_digit(r[k - b - 1]));
        }
    }
}

/// Two IDs have the same `type~slug` exactly when their types and their
/// slugs are the same: the type holds no `~`, so the key splits one way.
///
/// Covers: chk~matching~1
pub proof fn law_key_identifies_type_and_slug(a: ReqId, b: ReqId)
    requires
        a.wf(),
        b.wf(),
    ensures
        a.key() == b.key() <==> (a.ty@ == b.ty@ && a.slug@ == b.slug@),
{
    let (ta, sa, tb, sb) = (a.ty@, a.slug@, b.ty@, b.slug@);
    if a.key() == b.key() {
        let k = a.key();
        assert(k == ta + seq!['~'] + sa);
        assert(k == tb + seq!['~'] + sb);
        if ta.len() < tb.len() {
            assert(k[ta.len() as int] == '~');
            assert(k[ta.len() as int] == tb[ta.len() as int]);
            assert(is_lower_or_digit(tb[ta.len() as int]));
        } else if tb.len() < ta.len() {
            assert(k[tb.len() as int] == '~');
            assert(k[tb.len() as int] == ta[tb.len() as int]);
            assert(is_lower_or_digit(ta[tb.len() as int]));
        }
        assert(ta =~= k.subrange(0, ta.len() as int));
        assert(tb =~= k.subrange(0, tb.len() as int));
        assert(sa =~= k.subrange(ta.len() as int + 1, k.len() as int));
        assert(sb =~= k.subrange(tb.len() as int + 1, k.len() as int));
    }
}

// ---------------------------------------------------------------------------
// Proofs about the grammar

/// The split of an ID into its three segments is unique: the segments hold no
/// `~`, so the two separators are the first two `~` of the text.
pub proof fn lemma_id_parts_positions(s: Seq<char>, t: Seq<char>, sl: Seq<char>, r: Seq<char>)
    requires
        id_parts(s, t, sl, r),
    ensures
        s[t.len() as int] == '~',
        forall|k: int| 0 <= k < t.len() ==> s[k] != '~',
        s[t.len() + 1 + sl.len() as int] == '~',
        forall|k: int| t.len() < k < t.len() + 1 + sl.len() ==> s[k] != '~',
        forall|k: int| t.len() + 1 + sl.len() < k < s.len() ==> s[k] != '~',
        t == s.subrange(0, t.len() as int),
        sl == s.subrange(t.len() + 1 as int, t.len() + 1 + sl.len() as int),
        r == s.subrange(t.len() + 2 + sl.len() as int, s.len() as int),
        s.len() == t.len() + sl.len() + r.len() + 2,
{
    let a = t.len() as int;
    let b = a + 1 + sl.len();
    assert(s[a] == '~');
    assert(s[b] == '~');
    assert forall|k: int| 0 <= k < a implies s[k] != '~' by {
        assert(s[k] == t[k]);
        assert(is_lower_or_digit(t[k]));
    }
    assert forall|k: int| a < k < b implies s[k] != '~' by {
        assert(s[k] == sl[k - a - 1]);
        assert(is_slug_char(sl[k - a - 1]));
    }
    assert forall|k: int| b < k < s.len() implies s[k] != '~' by {
        assert(s[k] == r[k - b - 1]);
        assert(is_digit(r[k - b - 1]));
    }
    assert(t =~= s.subrange(0, a));
    assert(sl =~= s.subrange(a + 1, b));
    assert(r =~= s.subrange(b + 1, s.len() as int));
}

/// Two decompositions of one text are the same decomposition.
pub proof fn lemma_id_parts_unique(
    s: Seq<char>,
    t1: Seq<char>,
    sl1: Seq<char>,
    r1: Seq<char>,
    t2: Seq<char>,
    sl2: Seq<char>,
    r2: Seq<char>,
)
    requires
        id_parts(s, t1, sl1, r1),
        id_parts(s, t2, sl2, r2),
    ensures
        t1 == t2,
        sl1 == sl2,
        r1 == r2,
{
    lemma_id_parts_positions(s, t1, sl1, r1);
    lemma_id_parts_positions(s, t2, sl2, r2);
    if t1.len() < t2.len() {
        assert(s[t1.len() as int] != '~');
    }
    if t2.len() < t1.len() {
        assert(s[t2.len() as int] != '~');
    }
    assert(t1.len() == t2.len());
    let a = t1.len() as int;
    if sl1.len() < sl2.len() {
        assert(s[a + 1 + sl1.len()] != '~');
    }
    if sl2.len() < sl1.len() {
        assert(s[a + 1 + sl2.len()] != '~');
    }
}

proof fn lemma_dec_value_prefix(s: Seq<char>, m: int)
    requires
        0 <= m <= s.len(),
    ensures
        dec_value(s.take(m)) <= dec_value(s),
    decreases s.len(),
{
    if m < s.len() {
        assert(s.drop_last().take(m) =~= s.take(m));
        lemma_dec_value_prefix(s.drop_last(), m);
    } else {
        assert(s.take(m) =~= s);
    }
}

/// Where the two separators of an ID text `v[from..to]` stand, when it
/// matches the ID grammar.
pub fn id_shape(v: &Vec<char>, from: usize, to: usize) -> (r: Option<(usize, usize)>)
    requires
        from <= to <= v@.len(),
    ensures
        r is Some <==> is_id_text(v@.subrange(from as int, to as int)),
        r matches Some((i, j)) ==> from < i < j < to && id_parts(
            v@.subrange(from as int, to as int),
            v@.subrange(from as int, i as int),
            v@.subrange(i + 1, j as int),
            v@.subrange(j + 1, to as int),
        ),
{
    let ghost s = v@.subrange(from as int, to as int);
    // First separator.
    let mut i = from;
    while i < to && v[i] != '~'
        invariant
            from <= i <= to <= v@.len(),
            forall|k: int| from <= k < i ==> v@[k] != '~',
        decreases to - i,
    {
        i = i + 1;
    }
    if i == to {
        proof {
            assert forall|t: Seq<char>, sl: Seq<char>, rr: Seq<char>| !id_parts(s, t, sl, rr) by {
                if id_parts(s, t, sl, rr) {
                    lemma_id_parts_positions(s, t, sl, rr);
                    assert(v@[from + t.len()] == '~');
                }
            }
        }
        return None;
    }
    // Second separator.
    let mut j = i + 1;
    while j < to && v[j] != '~'
        invariant
            from <= i < j <= to <= v@.len(),
            forall|k: int| i < k < j ==> v@[k] != '~',
        decreases to - j,
    {
        j = j + 1;
    }
    let ghost a = i - from;
    let ghost b = j - from;
    // Any decomposition has its separators at `a` and `b`.
    proof {
        assert forall|t: Seq<char>, sl: Seq<char>, rr: Seq<char>| id_parts(s, t, sl, rr) implies t.len()
            == a && a + 1 + sl.len() == b && t == s.subrange(0, a) && sl == s.subrange(a + 1, b)
            && rr == s.subrange(b + 1, s.len() as int) by {
            lemma_id_parts_positions(s, t, sl, rr);
            if t.len() < a {
                assert(v@[from + t.len()] != '~');
            }
            if t.len() > a {
                assert(s[a] == v@[i as int]);
            }
            let b2 = t.len() + 1 + sl.len() as int;
            if b2 < b {
                assert(s[b2] == v@[from + b2]);
            }
            if b2 > b {
                assert(j < to);
                assert(s[b] == v@[j as int]);
            }
        }
    }
    if j == to {
        return None;
    }
    if !type_seg_ok(v, from, i) || !slug_seg_ok(v, i + 1, j) || !rev_seg_ok(v, j + 1, to) {
        proof {
            assert forall|t: Seq<char>, sl: Seq<char>, rr: Seq<char>| !id_parts(s, t, sl, rr) by {
                if id_parts(s, t, sl, rr) {
                    assert(t =~= v@.subrange(from as int, i as int));
                    assert(sl =~= v@.subrange(i + 1, j as int));
                    assert(rr =~= v@.subrange(j + 1, to as int));
                }
            }
        }
        return None;
    }
    assert(s =~= join_id(
        v@.subrange(from as int, i as int),
        v@.subrange(i + 1, j as int),
        v@.subrange(j + 1, to as int),
    ));
    assert(id_parts(
        s,
        v@.subrange(from as int, i as int),
        v@.subrange(i + 1, j as int),
        v@.subrange(j + 1, to as int),
    ));
    Some((i, j))
}

/// Parses `v[from..to]` as an ID.
pub fn parse_chars(v: &Vec<char>, from: usize, to: usize) -> (r: Option<ReqId>)
    requires
        from <= to <= v@.len(),
    ensures
        r is None <==> spec_parse_id(v@.subrange(from as int, to as int)) is None,
        r matches Some(id) ==> spec_parse_id(v@.subrange(from as int, to as int)) == Some(
            (id.ty@, id.slug@, id.rev),
        ),
        r matches Some(id) ==> id.wf() && id.text() == v@.subrange(from as int, to as int),
{
    let ghost s = v@.subrange(from as int, to as int);
    let shape = id_shape(v, from, to);
    if shape.is_none() {
        return None;
    }
    let (i, j) = shape.unwrap();
    let ghost t0 = v@.subrange(from as int, i as int);
    let ghost sl0 = v@.subrange(i + 1, j as int);
    let ghost r0 = v@.subrange(j + 1, to as int);
    let rv = rev_value(v, j + 1, to);
    if rv.is_none() {
        proof {
            assert forall|t: Seq<char>, sl: Seq<char>, rr: Seq<char>| id_parts(s, t, sl, rr) implies dec_value(rr) > u32::MAX by {
                lemma_id_parts_unique(s, t, sl, rr, t0, sl0, r0);
            }
        }
        return None;
    }
    let rev = rv.unwrap();
    let ty = string_of(v, from, i);
    let slug = string_of(v, i + 1, j);
    let id = ReqId { ty, slug, rev };
    proof {
        let (t, sl, rr) = choose|t: Seq<char>, sl: Seq<char>, rr: Seq<char>|
            id_parts(s, t, sl, rr) && dec_value(rr) <= u32::MAX;
        lemma_id_parts_unique(s, t, sl, rr, t0, sl0, r0);
        lemma_dec_value_digits(r0);
        assert(is_canonical_dec(r0));
        assert(id.text() =~= s);
    }
    Some(id)
}

/// The value of the digits `v[from..to]`, or `None` past `u32::MAX`.
fn rev_value(v: &Vec<char>, from: usize, to: usize) -> (r: Option<u32>)
    requires
        from <= to <= v@.len(),
        all_digits(v@.subrange(from as int, to as int)),
    ensures
        r matches Some(x) ==> x == dec_value(v@.subrange(from as int, to as int)),
        r is None ==> dec_value(v@.subrange(from as int, to as int)) > u32::MAX,
{
    let ghost r0 = v@.subrange(from as int, to as int);
    let mut val: u64 = 0;
    let mut k = from;
    assert(r0.take(0) =~= Seq::<char>::empty());
    while k < to
        invariant
            from <= k <= to <= v@.len(),
            r0 == v@.subrange(from as int, to as int),
            all_digits(r0),
            val == dec_value(r0.take(k - from)),
            val <= u32::MAX,
        decreases to - k,
    {
        assert(r0[k - from] == v@[k as int]);
        let d = digit_value(v[k]);
        assert(r0.take(k - from + 1).drop_last() =~= r0.take(k - from));
        val = val * 10 + d as u64;
        k = k + 1;
        if val > 0xffff_ffff {
            proof {
                lemma_dec_value_prefix(r0, k - from);
            }
            return None;
        }
    }
    assert(r0.take(to - from) =~= r0);
    Some(val as u32)
}

fn digit_value(c: char) -> (d: u32)
    requires
        is_digit(c),
    ensures
        d == digit_val(c),
        d < 10,
{
    let d = (c as u32) - ('0' as u32);
    d
}

fn type_seg_ok(v: &Vec<char>, from: usize, to: usize) -> (r: bool)
    requires
        from <= to <= v@.len(),
    ensures
        r == is_type_seg(v@.subrange(from as int, to as int)),
{
    let ghost t = v@.subrange(from as int, to as int);
    if from == to || !('a' <= v[from] && v[from] <= 'z') {
        return false;
    }
    let mut k = from;
    while k < to
        invariant
            from <= k <= to <= v@.len(),
            t == v@.subrange(from as int, to as int),
            forall|m: int| from <= m < k ==> is_lower_or_digit(#[trigger] v@[m]),
        decreases to - k,
    {
        let c = v[k];
        if !(('a' <= c && c <= 'z') || ('0' <= c && c <= '9')) {
            assert(t[k - from] == c);
            return false;
        }
        k = k + 1;
    }
    assert forall|m: int| 0 <= m < t.len() implies is_lower_or_digit(#[trigger] t[m]) by {
        assert(t[m] == v@[from + m]);
    }
    true
}

fn slug_seg_ok(v: &Vec<char>, from: usize, to: usize) -> (r: bool)
    requires
        from <= to <= v@.len(),
    ensures
        r == is_slug_seg(v@.subrange(from as int, to as int)),
{
    let ghost s = v@.subrange(from as int, to as int);
    if from == to || v[from] == '-' || v[to - 1] == '-' {
        return false;
    }
    let mut k = from;
    while k < to
        invariant
            from <= k <= to <= v@.len(),
            s == v@.subrange(from as int, to as int),
            forall|m: int| from <= m < k ==> is_slug_char(#[trigger] v@[m]),
            forall|m: int| from <= m && m + 1 < k ==> !(#[trigger] v@[m] == '-' && v@[m + 1] == '-'),
        decreases to - k,
    {
        let c = v[k];
        if !(('a' <= c && c <= 'z') || ('0' <= c && c <= '9') || c == '-') {
            assert(s[k - from] == c);
            return false;
        }
        if c == '-' && k > from && v[k - 1] == '-' {
            assert(s[k - 1 - from] == '-' && s[k - from] == '-');
            return false;
        }
        k = k + 1;
    }
    assert forall|m: int| 0 <= m < s.len() implies is_slug_char(#[trigger] s[m]) by {
        assert(s[m] == v@[from + m]);
    }
    assert forall|m: int| 0 <= m < s.len() - 1 implies !(#[trigger] s[m] == '-' && s[m + 1] == '-') by {
        assert(s[m] == v@[from + m]);
        assert(s[m + 1] == v@[from + m + 1]);
    }
    true
}

fn rev_seg_ok(v: &Vec<char>, from: usize, to: usize) -> (r: bool)
    requires
        from <= to <= v@.len(),
    ensures
        r == is_rev_seg(v@.subrange(from as int, to as int)),
{
    let ghost s = v@.subrange(from as int, to as int);
    if from == to || v[from] == '0' {
        return false;
    }
    let mut k = from;
    while k < to
        invariant
            from <= k <= to <= v@.len(),
            s == v@.subrange(from as int, to as int),
            forall|m: int| from <= m < k ==> is_digit(#[trigger] v@[m]),
        decreases to - k,
    {
        let c = v[k];
        if !('0' <= c && c <= '9') {
            assert(s[k - from] == c);
            return false;
        }
        k = k + 1;
    }
    assert forall|m: int| 0 <= m < s.len() implies is_digit(#[trigger] s[m]) by {
        assert(s[m] == v@[from + m]);
    }
    true
}

// ---------------------------------------------------------------------------
// Laws

/// Every well-formed ID prints as text that parses back to that same ID.
pub proof fn law_parse_of_text(id: ReqId)
    requires
        id.wf(),
    ensures
        spec_parse_id(id.text()) == Some((id.ty@, id.slug@, id.rev)),
{
    let r = dec_digits(id.rev as nat);
    lemma_dec_digits(id.rev as nat);
    assert(r[0] != '0') by {
        if r[0] == '0' {
            assert(r.len() == 1);
            assert(r.drop_last() =~= Seq::<char>::empty());
            assert(dec_value(r.drop_last()) == 0);
            assert(('0' as nat) == 48);
        }
    }
    let s = id.text();
    assert(id_parts(s, id.ty@, id.slug@, r));
    let (t, sl, rr) = choose|t: Seq<char>, sl: Seq<char>, rr: Seq<char>|
        id_parts(s, t, sl, rr) && dec_value(rr) <= u32::MAX;
    lemma_id_parts_unique(s, t, sl, rr, id.ty@, id.slug@, r);
}

/// A text that parses prints back exactly: the grammar admits one spelling
/// per ID (no leading zero in the rev).
pub proof fn law_text_of_parse(s: Seq<char>)
    requires
        spec_parse_id(s) is Some,
    ensures
        ({
            let (t, sl, rev) = spec_parse_id(s)->0;
            id_text(t, sl, rev) == s && is_type_seg(t) && is_slug_seg(sl) && rev >= 1
        }),
{
    let (t, sl, rr) = choose|t: Seq<char>, sl: Seq<char>, rr: Seq<char>|
        id_parts(s, t, sl, rr) && dec_value(rr) <= u32::MAX;
    assert(is_canonical_dec(rr));
    lemma_dec_value_digits(rr);
    lemma_dec_value_pos_rev(rr);
}

proof fn lemma_dec_value_pos_rev(r: Seq<char>)
    requires
        is_rev_seg(r),
    ensures
        dec_value(r) >= 1,
    decreases r.len(),
{
    if r.len() == 1 {
        assert(r.drop_last() =~= Seq::<char>::empty());
        assert(dec_value(r.drop_last()) == 0);
        assert(('0' as nat) == 48);
    } else {
        let p = r.drop_last();
        assert(p[0] == r[0]);
        lemma_dec_value_pos_rev(p);
    }
}

} // verus!
