//! Character-level helpers shared by the grammars, the scanner and the
//! report: whitespace, splitting, trimming, decimal numerals, ordering.
use vstd::prelude::*;

verus! {

/// Unicode `White_Space`: the set that `char::is_whitespace`, `str::trim`
/// and the class `\s` of the annotation grammar all use.
pub open spec fn is_ws(c: char) -> bool {
    ||| ('\u{9}' <= c && c <= '\u{d}')
    ||| c == ' '
    ||| c == '\u{85}'
    ||| c == '\u{a0}'
    ||| c == '\u{1680}'
    ||| ('\u{2000}' <= c && c <= '\u{200a}')
    ||| c == '\u{2028}'
    ||| c == '\u{2029}'
    ||| c == '\u{202f}'
    ||| c == '\u{205f}'
    ||| c == '\u{3000}'
}

pub fn char_is_ws(c: char) -> (r: bool)
    ensures
        r == is_ws(c),
{
    ('\u{9}' <= c && c <= '\u{d}') || c == ' ' || c == '\u{85}' || c == '\u{a0}' || c == '\u{1680}'
        || ('\u{2000}' <= c && c <= '\u{200a}') || c == '\u{2028}' || c == '\u{2029}' || c
        == '\u{202f}' || c == '\u{205f}' || c == '\u{3000}'
}

pub open spec fn is_lower(c: char) -> bool {
    'a' <= c && c <= 'z'
}

pub open spec fn is_digit(c: char) -> bool {
    '0' <= c && c <= '9'
}

pub open spec fn is_lower_or_digit(c: char) -> bool {
    is_lower(c) || is_digit(c)
}

/// The characters of a string slice, in order.
pub fn chars_of(s: &str) -> (v: Vec<char>)
    ensures
        v@ == s@,
{
    let mut v: Vec<char> = Vec::new();
    for c in it: s.chars()
        invariant
            v@ == it.seq().take(it.index() as int),
    {
        v.push(c);
    }
    v
}

/// `String::push`: the string afterwards is the old one with `c` appended.
#[verifier::external_body]
pub(crate) fn push_char(s: &mut String, c: char)
    ensures
        final(s)@ == old(s)@.push(c),
{
    s.push(c);
}

/// `String::push_str`: the string afterwards is the old one followed by `t`.
#[verifier::external_body]
pub(crate) fn push_str(s: &mut String, t: &str)
    ensures
        final(s)@ == old(s)@ + t@,
{
    s.push_str(t);
}

/// Appends the characters `v[from..to]`.
pub fn push_chars(s: &mut String, v: &Vec<char>, from: usize, to: usize)
    requires
        from <= to <= v@.len(),
    ensures
        final(s)@ == old(s)@ + v@.subrange(from as int, to as int),
{
    let mut i = from;
    while i < to
        invariant
            from <= i <= to <= v@.len(),
            s@ == old(s)@ + v@.subrange(from as int, i as int),
        decreases to - i,
    {
        push_char(s, v[i]);
        assert(v@.subrange(from as int, i + 1) =~= v@.subrange(from as int, i as int).push(v@[i as int]));
        i = i + 1;
    }
}

/// A new string holding `v[from..to]`.
pub fn string_of(v: &Vec<char>, from: usize, to: usize) -> (s: String)
    requires
        from <= to <= v@.len(),
    ensures
        s@ == v@.subrange(from as int, to as int),
{
    let mut s = String::new();
    push_chars(&mut s, v, from, to);
    assert(s@ =~= v@.subrange(from as int, to as int));
    s
}

/// The views of a sequence of strings.
pub open spec fn str_views(v: Seq<String>) -> Seq<Seq<char>> {
    Seq::new(v.len(), |i: int| v[i]@)
}

/// A copy of each string.
pub fn clone_strings(v: &Vec<String>) -> (r: Vec<String>)
    ensures
        str_views(r@) == str_views(v@),
{
    let mut r: Vec<String> = Vec::new();
    let mut i: usize = 0;
    while i < v.len()
        invariant
            i <= v@.len(),
            r@.len() == i,
            str_views(r@) == str_views(v@).take(i as int),
        decreases v.len() - i,
    {
        let c = v[i].clone();
        assert(c@ == v@[i as int]@);
        let ghost before = r@;
        r.push(c);
        assert(r@ == before.push(c));
        assert forall|j: int| 0 <= j < i + 1 implies #[trigger] str_views(r@)[j] == str_views(v@).take(i + 1)[j] by {
            if j < i {
                assert(str_views(before)[j] == str_views(v@).take(i as int)[j]);
            }
        }
        assert(str_views(r@) =~= str_views(v@).take(i + 1));
        i = i + 1;
    }
    assert(str_views(v@).take(v@.len() as int) =~= str_views(v@));
    r
}

/// Whether two string slices hold the same characters.
pub fn str_eq(a: &str, b: &str) -> (r: bool)
    ensures
        r == (a@ == b@),
{
    let va = chars_of(a);
    let vb = chars_of(b);
    seq_eq(&va, &vb)
}

pub fn seq_eq(va: &Vec<char>, vb: &Vec<char>) -> (r: bool)
    ensures
        r == (va@ == vb@),
{
    if va.len() != vb.len() {
        return false;
    }
    let mut i: usize = 0;
    while i < va.len()
        invariant
            va@.len() == vb@.len(),
            i <= va@.len(),
            forall|k: int| 0 <= k < i ==> va@[k] == vb@[k],
        decreases va.len() - i,
    {
        if va[i] != vb[i] {
            return false;
        }
        i = i + 1;
    }
    assert(va@ =~= vb@);
    true
}

/// Whether `s[at..]` begins with `lit`.
pub open spec fn starts_with_at(s: Seq<char>, at: int, lit: Seq<char>) -> bool {
    0 <= at && at + lit.len() <= s.len() && s.subrange(at, at + lit.len()) == lit
}

pub fn starts_with_at_exec(s: &Vec<char>, at: usize, lit: &Vec<char>) -> (r: bool)
    ensures
        r == starts_with_at(s@, at as int, lit@),
{
    if at > s.len() || s.len() - at < lit.len() {
        return false;
    }
    let mut k: usize = 0;
    while k < lit.len()
        invariant
            at + lit@.len() <= s@.len(),
            s@.len() <= usize::MAX,
            k <= lit@.len(),
            forall|m: int| 0 <= m < k ==> s@[at + m] == lit@[m],
        decreases lit.len() - k,
    {
        if s[at + k] != lit[k] {
            assert(s@.subrange(at as int, at + lit@.len())[k as int] != lit@[k as int]);
            return false;
        }
        k = k + 1;
    }
    assert(s@.subrange(at as int, at + lit@.len()) =~= lit@);
    true
}

/// `str::split` on one separator character: the pieces between separators,
/// always at least one.
pub open spec fn split(s: Seq<char>, sep: char) -> Seq<Seq<char>>
    decreases s.len(),
{
    if s.len() == 0 {
        seq![Seq::<char>::empty()]
    } else {
        let p = split(s.drop_last(), sep);
        if s.last() == sep {
            p.push(Seq::<char>::empty())
        } else {
            p.update(p.len() - 1, p.last().push(s.last()))
        }
    }
}

pub proof fn lemma_split_len(s: Seq<char>, sep: char)
    ensures
        split(s, sep).len() >= 1,
    decreases s.len(),
{
    if s.len() > 0 {
        lemma_split_len(s.drop_last(), sep);
    }
}

/// The views of a sequence of character vectors.
pub open spec fn seq_views(v: Seq<Vec<char>>) -> Seq<Seq<char>> {
    Seq::new(v.len(), |i: int| v[i]@)
}

/// Pieces of `v` between occurrences of `sep`.
pub fn split_exec(v: &Vec<char>, sep: char) -> (r: Vec<Vec<char>>)
    ensures
        seq_views(r@) == split(v@, sep),
{
    let mut done: Vec<Vec<char>> = Vec::new();
    let mut cur: Vec<char> = Vec::new();
    let mut i: usize = 0;
    assert(v@.take(0) =~= Seq::<char>::empty());
    assert(seq_views(done@).push(cur@) =~= split(v@.take(0), sep));
    while i < v.len()
        invariant
            i <= v@.len(),
            seq_views(done@).push(cur@) == split(v@.take(i as int), sep),
        decreases v.len() - i,
    {
        let ghost before = seq_views(done@).push(cur@);
        assert(v@.take(i + 1).drop_last() =~= v@.take(i as int));
        proof {
            lemma_split_len(v@.take(i as int), sep);
        }
        if v[i] == sep {
            done.push(cur);
            cur = Vec::new();
            assert(seq_views(done@).push(cur@) =~= before.push(Seq::<char>::empty()));
        } else {
            cur.push(v[i]);
            assert(seq_views(done@).push(cur@) =~= before.update(
                before.len() - 1,
                before.last().push(v@[i as int]),
            ));
        }
        i = i + 1;
    }
    assert(v@.take(v@.len() as int) =~= v@);
    done.push(cur);
    done
}

/// Index of the first non-whitespace character at or after `from`.
pub open spec fn ws_end(s: Seq<char>, from: int) -> int
    decreases s.len() - from,
{
    if 0 <= from < s.len() && is_ws(s[from]) {
        ws_end(s, from + 1)
    } else {
        from
    }
}

pub proof fn lemma_ws_end(s: Seq<char>, from: int)
    requires
        0 <= from <= s.len(),
    ensures
        from <= ws_end(s, from) <= s.len(),
        forall|k: int| from <= k < ws_end(s, from) ==> is_ws(#[trigger] s[k]),
        ws_end(s, from) < s.len() ==> !is_ws(s[ws_end(s, from)]),
    decreases s.len() - from,
{
    if from < s.len() && is_ws(s[from]) {
        lemma_ws_end(s, from + 1);
    }
}

pub fn ws_end_exec(s: &Vec<char>, from: usize) -> (r: usize)
    requires
        from <= s@.len(),
    ensures
        r == ws_end(s@, from as int),
        from <= r <= s@.len(),
{
    let mut i = from;
    while i < s.len() && char_is_ws(s[i])
        invariant
            from <= i <= s@.len(),
            ws_end(s@, from as int) == ws_end(s@, i as int),
        decreases s.len() - i,
    {
        i = i + 1;
    }
    i
}

/// Index just past the last non-whitespace character of `s[..to]`.
pub open spec fn ws_start_back(s: Seq<char>, to: int) -> int
    decreases to,
{
    if 0 < to <= s.len() && is_ws(s[to - 1]) {
        ws_start_back(s, to - 1)
    } else {
        to
    }
}

pub proof fn lemma_ws_start_back(s: Seq<char>, to: int)
    requires
        0 <= to <= s.len(),
    ensures
        0 <= ws_start_back(s, to) <= to,
        forall|k: int| ws_start_back(s, to) <= k < to ==> is_ws(#[trigger] s[k]),
        ws_start_back(s, to) > 0 ==> !is_ws(s[ws_start_back(s, to) - 1]),
    decreases to,
{
    if 0 < to && is_ws(s[to - 1]) {
        lemma_ws_start_back(s, to - 1);
    }
}

pub fn ws_start_back_exec(s: &Vec<char>, to: usize) -> (r: usize)
    requires
        to <= s@.len(),
    ensures
        r == ws_start_back(s@, to as int),
        r <= to,
{
    let mut j = to;
    while j > 0 && char_is_ws(s[j - 1])
        invariant
            j <= to <= s@.len(),
            ws_start_back(s@, to as int) == ws_start_back(s@, j as int),
        decreases j,
    {
        j = j - 1;
    }
    j
}

/// `str::trim_start`.
pub open spec fn trim_start(s: Seq<char>) -> Seq<char> {
    s.subrange(ws_end(s, 0), s.len() as int)
}

/// `str::trim_end`.
pub open spec fn trim_end(s: Seq<char>) -> Seq<char> {
    s.subrange(0, ws_start_back(s, s.len() as int))
}

/// `str::trim`.
pub open spec fn trim(s: Seq<char>) -> Seq<char> {
    trim_end(trim_start(s))
}

/// Whether `s` holds only whitespace (`s.trim().is_empty()`).
pub open spec fn is_blank(s: Seq<char>) -> bool {
    forall|k: int| 0 <= k < s.len() ==> is_ws(#[trigger] s[k])
}

pub fn is_blank_exec(v: &Vec<char>) -> (r: bool)
    ensures
        r == is_blank(v@),
{
    let a = ws_end_exec(v, 0);
    proof {
        lemma_ws_end(v@, 0);
    }
    a == v.len()
}

// ---------------------------------------------------------------------------
// Decimal numerals

pub open spec fn digit_val(c: char) -> nat {
    (c as nat - '0' as nat) as nat
}

pub open spec fn digit_char(d: nat) -> char {
    ((d + '0' as nat) as u32) as char
}

/// The value of a string of decimal digits.
pub open spec fn dec_value(s: Seq<char>) -> nat
    decreases s.len(),
{
    if s.len() == 0 {
        0
    } else {
        dec_value(s.drop_last()) * 10 + digit_val(s.last())
    }
}

/// The canonical decimal numeral of `n` (no leading zero).
pub open spec fn dec_digits(n: nat) -> Seq<char>
    decreases n,
{
    if n < 10 {
        seq![digit_char(n)]
    } else {
        dec_digits(n / 10).push(digit_char(n % 10))
    }
}

pub open spec fn all_digits(s: Seq<char>) -> bool {
    forall|k: int| 0 <= k < s.len() ==> is_digit(#[trigger] s[k])
}

/// A canonical numeral: non-empty digits, no leading zero unless it is "0".
pub open spec fn is_canonical_dec(s: Seq<char>) -> bool {
    &&& s.len() >= 1
    &&& all_digits(s)
    &&& (s[0] == '0' ==> s.len() == 1)
}

proof fn lemma_digit_char(d: nat)
    requires
        d < 10,
    ensures
        is_digit(digit_char(d)),
        digit_val(digit_char(d)) == d,
{
    assert(('0' as nat) == 48);
    assert(('9' as nat) == 57);
}

proof fn lemma_digit_roundtrip(c: char)
    requires
        is_digit(c),
    ensures
        digit_val(c) < 10,
        digit_char(digit_val(c)) == c,
{
    assert(('0' as nat) == 48);
    assert(('9' as nat) == 57);
}

pub proof fn lemma_dec_digits(n: nat)
    ensures
        is_canonical_dec(dec_digits(n)),
        dec_value(dec_digits(n)) == n,
    decreases n,
{
    if n < 10 {
        lemma_digit_char(n);
        assert(dec_digits(n).drop_last() =~= Seq::<char>::empty());
        assert(dec_value(dec_digits(n).drop_last()) == 0);
    } else {
        lemma_dec_digits(n / 10);
        lemma_digit_char(n % 10);
        let p = dec_digits(n / 10);
        assert(dec_digits(n).drop_last() =~= p);
        assert(dec_value(dec_digits(n)) == dec_value(p) * 10 + digit_val(digit_char(n % 10)));
        assert(n == (n / 10) * 10 + n % 10);
        assert(dec_digits(n)[0] == p[0]);
        assert forall|k: int| 0 <= k < dec_digits(n).len() implies is_digit(
            #[trigger] dec_digits(n)[k],
        ) by {
            if k < p.len() {
                assert(dec_digits(n)[k] == p[k]);
            }
        }
        if p[0] == '0' {
            assert(p.len() == 1);
            assert(p.drop_last() =~= Seq::<char>::empty());
            assert(dec_value(p.drop_last()) == 0);
            assert(dec_value(p) == digit_val(p[0]));
        }
    }
}

pub proof fn lemma_dec_value_digits(s: Seq<char>)
    requires
        is_canonical_dec(s),
    ensures
        dec_digits(dec_value(s)) == s,
        s.len() >= 2 ==> dec_value(s) >= 10,
    decreases s.len(),
{
    lemma_digit_roundtrip(s.last());
    if s.len() == 1 {
        assert(s.drop_last() =~= Seq::<char>::empty());
        assert(dec_value(s.drop_last()) == 0);
        assert(dec_value(s) == digit_val(s[0]));
        assert(dec_digits(dec_value(s)) =~= s);
    } else {
        let p = s.drop_last();
        assert(p[0] == s[0]);
        assert(is_canonical_dec(p));
        lemma_dec_value_digits(p);
        lemma_dec_value_pos(p);
        let n = dec_value(s);
        assert(n / 10 == dec_value(p));
        assert(n % 10 == digit_val(s.last()));
        assert(dec_digits(n) =~= s);
    }
}

proof fn lemma_dec_value_pos(s: Seq<char>)
    requires
        is_canonical_dec(s),
        s[0] != '0',
    ensures
        dec_value(s) >= 1,
    decreases s.len(),
{
    if s.len() == 1 {
        assert(s.drop_last() =~= Seq::<char>::empty());
        assert(('0' as nat) == 48);
    } else {
        let p = s.drop_last();
        assert(p[0] == s[0]);
        lemma_dec_value_pos(p);
    }
}

/// Appends the canonical decimal numeral of `n`.
pub fn push_dec(s: &mut String, n: u64)
    ensures
        final(s)@ == old(s)@ + dec_digits(n as nat),
    decreases n,
{
    if n >= 10 {
        push_dec(s, n / 10);
    }
    let d = (n % 10) as u32;
    proof {
        lemma_digit_char(d as nat);
    }
    let c = char_from_digit(d);
    push_char(s, c);
    assert(s@ =~= old(s)@ + dec_digits(n as nat));
}

fn char_from_digit(d: u32) -> (c: char)
    requires
        d < 10,
    ensures
        c == digit_char(d as nat),
{
    let c = match d {
        0 => '0',
        1 => '1',
        2 => '2',
        3 => '3',
        4 => '4',
        5 => '5',
        6 => '6',
        7 => '7',
        8 => '8',
        _ => '9',
    };
    assert(('0' as nat) == 48);
    c
}

// ---------------------------------------------------------------------------
// Lines

/// A line without its `\r`, when the line was ended by `\n`.
pub open spec fn strip_cr(p: Seq<char>) -> Seq<char> {
    if p.len() > 0 && p.last() == '\r' {
        p.drop_last()
    } else {
        p
    }
}

/// `str::lines`: split at `\n`, strip the `\r` of a `\r\n` ending, and no
/// empty last line after a final line ending.
pub open spec fn text_lines(t: Seq<char>) -> Seq<Seq<char>> {
    let ps = split(t, '\n');
    let body = ps.drop_last().map_values(|p: Seq<char>| strip_cr(p));
    if ps.last().len() == 0 {
        body
    } else {
        body.push(ps.last())
    }
}

pub fn lines_exec(v: &Vec<char>) -> (r: Vec<Vec<char>>)
    ensures
        seq_views(r@) == text_lines(v@),
{
    let pieces = split_exec(v, '\n');
    proof {
        lemma_split_len(v@, '\n');
    }
    let ghost ps = split(v@, '\n');
    let n = pieces.len();
    let mut out: Vec<Vec<char>> = Vec::new();
    let mut i: usize = 0;
    while i + 1 < n
        invariant
            n == pieces@.len(),
            n >= 1,
            seq_views(pieces@) == ps,
            i + 1 <= n,
            seq_views(out@) == ps.take(i as int).map_values(|p: Seq<char>| strip_cr(p)),
        decreases n - i,
    {
        let p = &pieces[i];
        assert(p@ == ps[i as int]);
        let mut q: Vec<char> = p.clone();
        if q.len() > 0 && q[q.len() - 1] == '\r' {
            q.pop();
        }
        assert(q@ == strip_cr(ps[i as int]));
        out.push(q);
        assert(ps.take(i + 1).map_values(|p: Seq<char>| strip_cr(p)) =~= ps.take(
            i as int,
        ).map_values(|p: Seq<char>| strip_cr(p)).push(strip_cr(ps[i as int])));
        i = i + 1;
    }
    assert(ps.take(i as int) =~= ps.drop_last());
    let last = &pieces[n - 1];
    assert(last@ == ps.last());
    if last.len() > 0 {
        out.push(last.clone());
    }
    out
}

// ---------------------------------------------------------------------------
// Ordering (`str` compares by UTF-8 bytes, which orders like code points)

/// Strict lexicographic order on character sequences.
pub open spec fn seq_lt(a: Seq<char>, b: Seq<char>) -> bool
    decreases a.len(),
{
    if a.len() == 0 {
        b.len() > 0
    } else if b.len() == 0 {
        false
    } else if a[0] != b[0] {
        a[0] < b[0]
    } else {
        seq_lt(a.drop_first(), b.drop_first())
    }
}

pub proof fn lemma_seq_lt_irreflexive(a: Seq<char>)
    ensures
        !seq_lt(a, a),
    decreases a.len(),
{
    if a.len() > 0 {
        lemma_seq_lt_irreflexive(a.drop_first());
    }
}

pub proof fn lemma_seq_lt_total(a: Seq<char>, b: Seq<char>)
    ensures
        seq_lt(a, b) || seq_lt(b, a) || a == b,
        !(seq_lt(a, b) && seq_lt(b, a)),
    decreases a.len(),
{
    if a.len() > 0 && b.len() > 0 && a[0] == b[0] {
        lemma_seq_lt_total(a.drop_first(), b.drop_first());
        if a.drop_first() == b.drop_first() {
            assert(a =~= seq![a[0]] + a.drop_first());
            assert(b =~= seq![b[0]] + b.drop_first());
        }
    } else if a.len() == 0 && b.len() == 0 {
        assert(a =~= b);
    }
}

pub proof fn lemma_seq_lt_transitive(a: Seq<char>, b: Seq<char>, c: Seq<char>)
    requires
        seq_lt(a, b),
        seq_lt(b, c),
    ensures
        seq_lt(a, c),
    decreases a.len(),
{
    if a.len() > 0 && b.len() > 0 && c.len() > 0 && a[0] == b[0] && b[0] == c[0] {
        lemma_seq_lt_transitive(a.drop_first(), b.drop_first(), c.drop_first());
    }
}

/// Three-way comparison of `a[..]` and `b[..]`: -1, 0 or 1.
pub fn compare_chars(a: &Vec<char>, b: &Vec<char>) -> (r: i8)
    ensures
        r == -1 <==> seq_lt(a@, b@),
        r == 0 <==> a@ == b@,
        r == 1 <==> seq_lt(b@, a@),
        r == -1 || r == 0 || r == 1,
{
    proof {
        lemma_seq_lt_total(a@, b@);
    }
    let mut i: usize = 0;
    assert(a@.skip(0) =~= a@);
    assert(b@.skip(0) =~= b@);
    assert(a@.take(0) =~= b@.take(0));
    while i < a.len() && i < b.len() && a[i] == b[i]
        invariant
            i <= a@.len(),
            i <= b@.len(),
            a@.take(i as int) == b@.take(i as int),
            seq_lt(a@, b@) == seq_lt(a@.skip(i as int), b@.skip(i as int)),
            seq_lt(b@, a@) == seq_lt(b@.skip(i as int), a@.skip(i as int)),
        decreases a.len() - i,
    {
        assert(a@.skip(i as int).drop_first() =~= a@.skip(i + 1));
        assert(b@.skip(i as int).drop_first() =~= b@.skip(i + 1));
        assert(a@.take(i + 1) =~= a@.take(i as int).push(a@[i as int]));
        assert(b@.take(i + 1) =~= b@.take(i as int).push(b@[i as int]));
        i = i + 1;
    }
    if i == a.len() && i == b.len() {
        assert(a@ =~= a@.take(i as int));
        assert(b@ =~= b@.take(i as int));
        0
    } else if i == a.len() {
        -1
    } else if i == b.len() {
        1
    } else if a[i] < b[i] {
        assert(a@[i as int] != b@[i as int]);
        -1
    } else {
        assert(a@[i as int] != b@[i as int]);
        1
    }
}

/// Where `k` stands in a strictly ascending `v`, if it does.
pub fn search_sorted(v: &Vec<Vec<char>>, k: &Vec<char>) -> (r: Option<usize>)
    requires
        forall|a: int, b: int| 0 <= a < b < v@.len() ==> seq_lt(#[trigger] v@[a]@, #[trigger] v@[b]@),
    ensures
        match r {
            Some(p) => p < v@.len() && v@[p as int]@ == k@,
            None => forall|a: int| 0 <= a < v@.len() ==> #[trigger] v@[a]@ != k@,
        },
{
    let mut lo: usize = 0;
    let mut hi: usize = v.len();
    while lo < hi
        invariant
            lo <= hi <= v@.len(),
            forall|a: int, b: int| 0 <= a < b < v@.len() ==> seq_lt(#[trigger] v@[a]@, #[trigger] v@[b]@),
            forall|a: int| 0 <= a < lo ==> seq_lt(#[trigger] v@[a]@, k@),
            forall|a: int| hi <= a < v@.len() ==> seq_lt(k@, #[trigger] v@[a]@),
        decreases hi - lo,
    {
        let mid = lo + (hi - lo) / 2;
        let c = compare_chars(&v[mid], k);
        if c == 0 {
            return Some(mid);
        } else if c < 0 {
            proof {
                assert forall|a: int| 0 <= a < mid + 1 implies seq_lt(#[trigger] v@[a]@, k@) by {
                    if a < mid {
                        lemma_seq_lt_transitive(v@[a]@, v@[mid as int]@, k@);
                    }
                }
            }
            lo = mid + 1;
        } else {
            proof {
                assert forall|a: int| mid <= a < v@.len() implies seq_lt(k@, #[trigger] v@[a]@) by {
                    if a > mid {
                        lemma_seq_lt_transitive(k@, v@[mid as int]@, v@[a]@);
                    }
                }
            }
            hi = mid;
        }
    }
    proof {
        lemma_seq_lt_irreflexive(k@);
        assert forall|a: int| 0 <= a < v@.len() implies #[trigger] v@[a]@ != k@ by {
            if a < lo {
                assert(seq_lt(v@[a]@, k@));
            } else {
                assert(seq_lt(k@, v@[a]@));
            }
        }
    }
    None
}

} // verus!
