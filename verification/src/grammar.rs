//! The line grammar of scanned docs: `Covers:`/`Derived:` annotations in
//! plain, line-comment and HTML-comment form, the malformed-annotation
//! trigger, Markdown headings and fence toggles.
use vstd::prelude::*;
use crate::id::{id_shape, is_id_text, lemma_id_parts_positions, lemma_id_text_chars};
use crate::scan::LinkKind;
use crate::text::{
    is_blank, is_blank_exec, is_lower, is_ws, char_is_ws, lemma_split_len, split, starts_with_at,
    starts_with_at_exec, trim, trim_end, ws_end, ws_end_exec, ws_start_back, ws_start_back_exec,
};

verus! {

/// The comment-prefix class `[#/*;-]`: `#`, `//`, `///`, `*`, `--`, `;` and
/// list bullets.
pub open spec fn is_prefix_char(c: char) -> bool {
    c == '#' || c == '/' || c == '*' || c == ';' || c == '-'
}

/// Index just past the run of prefix characters starting at `from`.
pub open spec fn prefix_end(s: Seq<char>, from: int) -> int
    decreases s.len() - from,
{
    if 0 <= from < s.len() && is_prefix_char(s[from]) {
        prefix_end(s, from + 1)
    } else {
        from
    }
}

pub open spec fn lit_covers() -> Seq<char> {
    seq!['C', 'o', 'v', 'e', 'r', 's', ':']
}

pub open spec fn lit_derived() -> Seq<char> {
    seq!['D', 'e', 'r', 'i', 'v', 'e', 'd', ':']
}

pub open spec fn lit_open() -> Seq<char> {
    seq!['<', '!', '-', '-']
}

pub open spec fn lit_close() -> Seq<char> {
    seq!['-', '-', '>']
}

/// `Covers:` or `Derived:` at `p`, and the index just past the colon.
pub open spec fn keyword_at(s: Seq<char>, p: int) -> Option<(LinkKind, int)> {
    if starts_with_at(s, p, lit_covers()) {
        Some((LinkKind::Covers, p + 7))
    } else if starts_with_at(s, p, lit_derived()) {
        Some((LinkKind::Derived, p + 8))
    } else {
        None
    }
}

/// Past an optional comment prefix `[#/*;-]+\s*` at `p`.
pub open spec fn after_prefix(s: Seq<char>, p: int) -> int {
    if 0 <= p < s.len() && is_prefix_char(s[p]) {
        ws_end(s, prefix_end(s, p))
    } else {
        p
    }
}

/// Where the keyword of the plain / line-comment form must stand.
pub open spec fn plain_kw_pos(s: Seq<char>) -> int {
    after_prefix(s, ws_end(s, 0))
}

/// Where the keyword must stand for a line to count as an attempted
/// annotation: after whitespace, an optional `<!--`, an optional prefix.
pub open spec fn trigger_kw_pos(s: Seq<char>) -> int {
    let a = ws_end(s, 0);
    let b = if starts_with_at(s, a, lit_open()) {
        ws_end(s, a + 4)
    } else {
        a
    };
    after_prefix(s, b)
}

/// The line begins like an annotation (whether or not it is well-formed).
pub open spec fn is_trigger(s: Seq<char>) -> bool {
    keyword_at(s, trigger_kw_pos(s)) is Some
}

/// `x` wrapped in single backticks.
pub open spec fn is_ticked(x: Seq<char>) -> bool {
    x.len() >= 2 && x[0] == '`' && x.last() == '`'
}

/// An ID, optionally wrapped in single backticks.
pub open spec fn is_idt(x: Seq<char>) -> bool {
    is_id_text(x) || (is_ticked(x) && is_id_text(x.subrange(1, x.len() - 1)))
}

/// `x` without its wrapping backticks.
pub open spec fn untick(x: Seq<char>) -> Seq<char> {
    if is_ticked(x) {
        x.subrange(1, x.len() - 1)
    } else {
        x
    }
}

/// `<idt>(\s*,\s*<idt>)*` with surrounding whitespace.
pub open spec fn id_list_ok(b: Seq<char>) -> bool {
    forall|k: int| 0 <= k < split(b, ',').len() ==> is_idt(trim(#[trigger] split(b, ',')[k]))
}

/// The ID texts of a well-formed ID list, in order, without backticks.
pub open spec fn id_list(b: Seq<char>) -> Seq<Seq<char>> {
    split(b, ',').map_values(|p: Seq<char>| untick(trim(p)))
}

/// `^\s*(?:[#/*;-]+\s*)?(Covers|Derived):\s*<ids>\s*$`
pub open spec fn plain_annotation(s: Seq<char>) -> Option<(LinkKind, Seq<Seq<char>>)> {
    match keyword_at(s, plain_kw_pos(s)) {
        Some((k, e)) => {
            let b = s.subrange(e, s.len() as int);
            if id_list_ok(b) {
                Some((k, id_list(b)))
            } else {
                None
            }
        },
        None => None,
    }
}

/// `^\s*<!--\s*(Covers|Derived):\s*<ids>\s*-->\s*$`
pub open spec fn html_annotation(s: Seq<char>) -> Option<(LinkKind, Seq<Seq<char>>)> {
    let a = ws_end(s, 0);
    if !starts_with_at(s, a, lit_open()) {
        None
    } else {
        match keyword_at(s, ws_end(s, a + 4)) {
            Some((k, e)) => {
                let z = ws_start_back(s, s.len() as int) - 3;
                if e <= z && starts_with_at(s, z, lit_close()) && id_list_ok(s.subrange(e, z)) {
                    Some((k, id_list(s.subrange(e, z))))
                } else {
                    None
                }
            },
            None => None,
        }
    }
}

/// A well-formed annotation line: its kind and its ID texts.
pub open spec fn annotation(s: Seq<char>) -> Option<(LinkKind, Seq<Seq<char>>)> {
    if plain_annotation(s) is Some {
        plain_annotation(s)
    } else {
        html_annotation(s)
    }
}

/// Index just past the run of `#` starting at `from`.
pub open spec fn hash_end(s: Seq<char>, from: int) -> int
    decreases s.len() - from,
{
    if 0 <= from < s.len() && s[from] == '#' {
        hash_end(s, from + 1)
    } else {
        from
    }
}

/// Index just past the last non-`#` of `s[..to]`.
pub open spec fn hash_start_back(s: Seq<char>, to: int) -> int
    decreases to,
{
    if 0 < to <= s.len() && s[to - 1] == '#' {
        hash_start_back(s, to - 1)
    } else {
        to
    }
}

/// `^#{1,6}\s+(.*?)\s*$`, the title being the capture with trailing `#`s
/// and whitespace removed.
pub open spec fn heading_title(s: Seq<char>) -> Option<Seq<char>> {
    let h = hash_end(s, 0);
    if 1 <= h <= 6 && h < s.len() && is_ws(s[h]) {
        let g = trim(s.subrange(h, s.len() as int));
        Some(trim_end(g.subrange(0, hash_start_back(g, g.len() as int))))
    } else {
        None
    }
}

/// `^\s*(?:```|~~~)`: a line that opens or closes a fenced block.
pub open spec fn is_fence(s: Seq<char>) -> bool {
    let a = ws_end(s, 0);
    starts_with_at(s, a, seq!['`', '`', '`']) || starts_with_at(s, a, seq!['~', '~', '~'])
}

/// How the scanner reads one line that is not inside a fenced block.
pub enum LineClass {
    Fence,
    Annotation { kind: LinkKind, ids: Seq<Seq<char>> },
    Malformed,
    Heading { title: Seq<char> },
    Other { blank: bool },
}

/// Fence toggles and headings count in Markdown only; the annotation grammar
/// wins over the heading grammar.
pub open spec fn classify(md: bool, s: Seq<char>) -> LineClass {
    if md && is_fence(s) {
        LineClass::Fence
    } else if let Some((kind, ids)) = annotation(s) {
        LineClass::Annotation { kind, ids }
    } else if is_trigger(s) {
        LineClass::Malformed
    } else if md && heading_title(s) is Some {
        LineClass::Heading { title: heading_title(s)->0 }
    } else {
        LineClass::Other { blank: is_blank(s) }
    }
}

// ---------------------------------------------------------------------------
// Laws of the line grammar

/// All of `s` is whitespace.
pub open spec fn all_ws(s: Seq<char>) -> bool {
    forall|k: int| 0 <= k < s.len() ==> is_ws(#[trigger] s[k])
}

/// The keyword of a kind of link, with its colon.
pub open spec fn keyword_text(kind: LinkKind) -> Seq<char> {
    match kind {
        LinkKind::Covers => seq!['C', 'o', 'v', 'e', 'r', 's', ':'],
        LinkKind::Derived => seq!['D', 'e', 'r', 'i', 'v', 'e', 'd', ':'],
    }
}

/// `ws1 p ws2 Keyword: ws3 id`: an annotation line with a comment prefix.
pub open spec fn prefixed_line(
    ws1: Seq<char>,
    p: Seq<char>,
    ws2: Seq<char>,
    kind: LinkKind,
    ws3: Seq<char>,
    id: Seq<char>,
) -> Seq<char> {
    ws1 + p + ws2 + keyword_text(kind) + ws3 + id
}

proof fn lemma_ws_end_at(s: Seq<char>, from: int, to: int)
    requires
        0 <= from <= to <= s.len(),
        forall|k: int| from <= k < to ==> is_ws(#[trigger] s[k]),
        to < s.len() ==> !is_ws(s[to]),
    ensures
        ws_end(s, from) == to,
    decreases to - from,
{
    if from < to {
        lemma_ws_end_at(s, from + 1, to);
    }
}

proof fn lemma_prefix_end_at(s: Seq<char>, from: int, to: int)
    requires
        0 <= from <= to <= s.len(),
        forall|k: int| from <= k < to ==> is_prefix_char(#[trigger] s[k]),
        to < s.len() ==> !is_prefix_char(s[to]),
    ensures
        prefix_end(s, from) == to,
    decreases to - from,
{
    if from < to {
        lemma_prefix_end_at(s, from + 1, to);
    }
}

pub proof fn lemma_split_none(s: Seq<char>, sep: char)
    requires
        forall|k: int| 0 <= k < s.len() ==> s[k] != sep,
    ensures
        split(s, sep) == seq![s],
    decreases s.len(),
{
    if s.len() > 0 {
        let s0 = s.drop_last();
        lemma_split_none(s0, sep);
        assert(s0.push(s.last()) =~= s);
        assert(seq![s0].update(0, s0.push(s.last())) =~= seq![s]);
    } else {
        assert(s =~= Seq::<char>::empty());
    }
}

/// Whitespace then one ID is a well-formed ID list naming that ID.
proof fn lemma_single_id_list(ws3: Seq<char>, id: Seq<char>)
    requires
        all_ws(ws3),
        is_id_text(id),
    ensures
        id_list_ok(ws3 + id),
        id_list(ws3 + id) == seq![id],
{
    lemma_id_text_chars(id);
    let b = ws3 + id;
    assert forall|k: int| 0 <= k < b.len() implies b[k] != ',' by {
        if k >= ws3.len() {
            assert(b[k] == id[k - ws3.len()]);
        }
    }
    lemma_split_none(b, ',');
    lemma_ws_end_at(b, 0, ws3.len() as int);
    assert(trim_start_of(b) == id) by {
        assert(b.subrange(ws3.len() as int, b.len() as int) =~= id);
    }
    assert(ws_start_back(id, id.len() as int) == id.len());
    assert(id.subrange(0, id.len() as int) =~= id);
    assert(trim(b) == id);
    assert(is_idt(id));
    assert(split(b, ',').len() == 1);
    assert(!is_ticked(id));
    assert(id_list(b) =~= seq![id]);
}

spec fn trim_start_of(s: Seq<char>) -> Seq<char> {
    crate::text::trim_start(s)
}

/// The comment-prefix class is `[#/*;-]`: a line of whitespace, a run of
/// `#`, `/`, `*`, `;` or `-` (as `//`, `#`, ` * ` of a block comment, `--`,
/// `;` or a list bullet), whitespace, `Covers:` or `Derived:`, whitespace
/// and one ID is an annotation of that kind naming exactly that ID, in
/// Markdown and elsewhere.
///
/// Covers: ann~grammar~2
pub proof fn law_prefixed_annotation(
    md: bool,
    ws1: Seq<char>,
    p: Seq<char>,
    ws2: Seq<char>,
    kind: LinkKind,
    ws3: Seq<char>,
    id: Seq<char>,
)
    requires
        all_ws(ws1),
        all_ws(ws2),
        all_ws(ws3),
        p.len() >= 1,
        forall|k: int| 0 <= k < p.len() ==> {
            let c = #[trigger] p[k];
            c == '#' || c == '/' || c == '*' || c == ';' || c == '-'
        },
        is_id_text(id),
    ensures
        classify(md, prefixed_line(ws1, p, ws2, kind, ws3, id)) == (LineClass::Annotation { kind, ids: seq![id] }),
{
    let kw = keyword_text(kind);
    let line = prefixed_line(ws1, p, ws2, kind, ws3, id);
    let n1 = ws1.len() as int;
    let n2 = n1 + p.len();
    let n3 = n2 + ws2.len();
    let n4 = n3 + kw.len();
    assert(line == ws1 + p + ws2 + kw + (ws3 + id)) by {
        assert(ws1 + p + ws2 + kw + ws3 + id =~= ws1 + p + ws2 + kw + (ws3 + id));
    }
    let head = ws1 + p + ws2 + kw;
    assert forall|k: int| 0 <= k < n1 implies #[trigger] line[k] == ws1[k] by {}
    assert forall|k: int| n1 <= k < n2 implies #[trigger] line[k] == p[k - n1] by {}
    assert forall|k: int| n2 <= k < n3 implies #[trigger] line[k] == ws2[k - n2] by {}
    assert forall|k: int| n3 <= k < n4 implies #[trigger] line[k] == kw[k - n3] by {}
    assert(line.subrange(n3, n4) =~= kw);
    assert(line.subrange(n4, line.len() as int) =~= ws3 + id);
    // Leading whitespace, then the prefix run, then whitespace.
    assert(line[n1] == p[0]);
    lemma_ws_end_at(line, 0, n1);
    assert forall|k: int| n1 <= k < n2 implies is_prefix_char(#[trigger] line[k]) by {
        assert(line[k] == p[k - n1]);
    }
    if ws2.len() > 0 {
        assert(line[n2] == ws2[0]);
    } else {
        assert(line[n2] == kw[0]);
    }
    lemma_prefix_end_at(line, n1, n2);
    assert forall|k: int| n2 <= k < n3 implies is_ws(#[trigger] line[k]) by {
        assert(line[k] == ws2[k - n2]);
    }
    assert(line[n3] == kw[0]);
    lemma_ws_end_at(line, n2, n3);
    assert(plain_kw_pos(line) == n3);
    // The keyword.
    match kind {
        LinkKind::Covers => {
            assert(kw =~= lit_covers());
            assert(keyword_at(line, n3) == Some((LinkKind::Covers, n4)));
        },
        LinkKind::Derived => {
            assert(kw =~= lit_derived());
            assert(!starts_with_at(line, n3, lit_covers())) by {
                assert(line.subrange(n3, n3 + 7)[0] == 'D');
            }
            assert(keyword_at(line, n3) == Some((LinkKind::Derived, n4)));
        },
    }
    lemma_single_id_list(ws3, id);
    assert(plain_annotation(line) == Some((kind, seq![id])));
    // Not a fence: the first non-blank character is a prefix character.
    assert(!starts_with_at(line, n1, seq!['`', '`', '`'])) by {
        if starts_with_at(line, n1, seq!['`', '`', '`']) {
            assert(line.subrange(n1, n1 + 3)[0] == line[n1]);
        }
    }
    assert(!starts_with_at(line, n1, seq!['~', '~', '~'])) by {
        if starts_with_at(line, n1, seq!['~', '~', '~']) {
            assert(line.subrange(n1, n1 + 3)[0] == line[n1]);
        }
    }
    assert(!is_fence(line));
}

// ---------------------------------------------------------------------------
// Recognizers

/// The texts `s[a..b]` for each range.
pub open spec fn range_text(s: Seq<char>, r: (usize, usize)) -> Seq<char> {
    let (a, b) = r;
    s.subrange(a as int, b as int)
}

pub open spec fn range_texts(s: Seq<char>, rs: Seq<(usize, usize)>) -> Seq<Seq<char>> {
    Seq::new(rs.len(), |i: int| range_text(s, rs[i]))
}

pub open spec fn range_within(r: (usize, usize), from: int, to: int) -> bool {
    let (a, b) = r;
    from <= a <= b <= to
}

pub open spec fn ranges_within(rs: Seq<(usize, usize)>, from: int, to: int) -> bool {
    forall|i: int| 0 <= i < rs.len() ==> range_within(#[trigger] rs[i], from, to)
}

/// The pieces of `s[from..to]` between occurrences of `sep`, as ranges.
pub fn split_ranges(s: &Vec<char>, from: usize, to: usize, sep: char) -> (r: Vec<(usize, usize)>)
    requires
        from <= to <= s@.len(),
    ensures
        range_texts(s@, r@) == split(s@.subrange(from as int, to as int), sep),
        ranges_within(r@, from as int, to as int),
{
    let ghost b = s@.subrange(from as int, to as int);
    let mut done: Vec<(usize, usize)> = Vec::new();
    let mut start = from;
    let mut i = from;
    assert(b.take(0) =~= Seq::<char>::empty());
    assert(range_texts(s@, done@) =~= Seq::<Seq<char>>::empty());
    assert(s@.subrange(start as int, i as int) =~= Seq::<char>::empty());
    assert(range_texts(s@, done@).push(s@.subrange(start as int, i as int)) =~= split(b.take(0), sep));
    while i < to
        invariant
            from <= start <= i <= to <= s@.len(),
            b == s@.subrange(from as int, to as int),
            ranges_within(done@, from as int, to as int),
            range_texts(s@, done@).push(s@.subrange(start as int, i as int)) == split(b.take(i - from), sep),
        decreases to - i,
    {
        let ghost before = range_texts(s@, done@).push(s@.subrange(start as int, i as int));
        assert(b.take(i - from + 1).drop_last() =~= b.take(i - from));
        assert(b.take(i - from + 1).last() == s@[i as int]);
        proof {
            lemma_split_len(b.take(i - from), sep);
        }
        let ghost old_rt = range_texts(s@, done@);
        if s[i] == sep {
            done.push((start, i));
            assert(range_texts(s@, done@) =~= old_rt.push(s@.subrange(start as int, i as int)));
            start = i + 1;
            assert(s@.subrange(start as int, i + 1) =~= Seq::<char>::empty());
            assert(range_texts(s@, done@).push(s@.subrange(start as int, i + 1)) =~= before.push(
                Seq::<char>::empty(),
            ));
        } else {
            assert(s@.subrange(start as int, i + 1) =~= s@.subrange(start as int, i as int).push(s@[i as int]));
            assert(range_texts(s@, done@).push(s@.subrange(start as int, i + 1)) =~= before.update(
                before.len() - 1,
                before.last().push(s@[i as int]),
            ));
        }
        i = i + 1;
    }
    assert(b.take(to - from) =~= b);
    let ghost old_rt = range_texts(s@, done@);
    done.push((start, to));
    assert(range_texts(s@, done@) =~= old_rt.push(s@.subrange(start as int, to as int)));
    assert(range_texts(s@, done@) =~= split(b, sep));
    r_done(done)
}

#[inline(always)]
fn r_done(v: Vec<(usize, usize)>) -> (r: Vec<(usize, usize)>)
    ensures
        r@ == v@,
{
    v
}

/// The bounds of `trim(s[from..to])`.
pub fn trim_range(s: &Vec<char>, from: usize, to: usize) -> (r: (usize, usize))
    requires
        from <= to <= s@.len(),
    ensures
        from <= r.0 <= r.1 <= to,
        trim(s@.subrange(from as int, to as int)) == s@.subrange(r.0 as int, r.1 as int),
{
    let ghost sub = s@.subrange(from as int, to as int);
    let mut a = from;
    while a < to && char_is_ws(s[a])
        invariant
            from <= a <= to <= s@.len(),
            sub == s@.subrange(from as int, to as int),
            ws_end(sub, 0) == ws_end(sub, a - from),
        decreases to - a,
    {
        assert(sub[a - from] == s@[a as int]);
        a = a + 1;
    }
    if a < to {
        assert(sub[a - from] == s@[a as int]);
    }
    assert(ws_end(sub, a - from) == a - from);
    let ghost t = sub.subrange(a - from, sub.len() as int);
    assert(t =~= s@.subrange(a as int, to as int));
    let mut b = to;
    while b > a && char_is_ws(s[b - 1])
        invariant
            from <= a <= b <= to <= s@.len(),
            t == s@.subrange(a as int, to as int),
            ws_start_back(t, t.len() as int) == ws_start_back(t, b - a),
        decreases b,
    {
        assert(t[b - a - 1] == s@[b - 1]);
        b = b - 1;
    }
    if b > a {
        assert(t[b - a - 1] == s@[b - 1]);
    }
    assert(ws_start_back(t, b - a) == b - a);
    assert(trim(sub) =~= s@.subrange(a as int, b as int));
    (a, b)
}

proof fn lemma_id_text_not_ticked(x: Seq<char>)
    requires
        is_id_text(x),
    ensures
        x.len() >= 1,
        x[0] != '`',
{
    let (t, sl, r) = choose|t: Seq<char>, sl: Seq<char>, r: Seq<char>| crate::id::id_parts(x, t, sl, r);
    lemma_id_parts_positions(x, t, sl, r);
    assert(x[0] == t[0]);
    assert(is_lower(t[0]));
}

/// Whether `s[from..to]` is a well-formed ID list; if so, the ranges of its
/// ID texts without backticks.
pub fn id_list_exec(s: &Vec<char>, from: usize, to: usize) -> (r: Option<Vec<(usize, usize)>>)
    requires
        from <= to <= s@.len(),
    ensures
        r is Some <==> id_list_ok(s@.subrange(from as int, to as int)),
        r matches Some(rs) ==> range_texts(s@, rs@) == id_list(s@.subrange(from as int, to as int)),
        r matches Some(rs) ==> ranges_within(rs@, from as int, to as int),
{
    let ghost b = s@.subrange(from as int, to as int);
    let pieces = split_ranges(s, from, to, ',');
    let ghost ps = split(b, ',');
    let mut out: Vec<(usize, usize)> = Vec::new();
    let mut k: usize = 0;
    while k < pieces.len()
        invariant
            k <= pieces@.len(),
            from <= to <= s@.len(),
            b == s@.subrange(from as int, to as int),
            ps == split(b, ','),
            range_texts(s@, pieces@) == ps,
            ranges_within(pieces@, from as int, to as int),
            ranges_within(out@, from as int, to as int),
            forall|m: int| 0 <= m < k ==> is_idt(trim(#[trigger] ps[m])),
            range_texts(s@, out@) == ps.take(k as int).map_values(|p: Seq<char>| untick(trim(p))),
        decreases pieces.len() - k,
    {
        assert(range_within(pieces@[k as int], from as int, to as int));
        let (p, q) = pieces[k];
        assert(ps[k as int] == range_texts(s@, pieces@)[k as int]);
        assert(ps[k as int] == s@.subrange(p as int, q as int));
        let (a, z) = trim_range(s, p, q);
        let ghost x = s@.subrange(a as int, z as int);
        assert(trim(ps[k as int]) == x);
        let ticked = z - a >= 2 && s[a] == '`' && s[z - 1] == '`';
        let (ia, iz) = if ticked {
            (a + 1, z - 1)
        } else {
            (a, z)
        };
        assert(ticked == is_ticked(x));
        if ticked {
            assert(x.subrange(1, x.len() - 1) =~= s@.subrange(ia as int, iz as int));
        } else {
            assert(x =~= s@.subrange(ia as int, iz as int));
        }
        if id_shape(s, ia, iz).is_none() {
            proof {
                if ticked {
                    if is_id_text(x) {
                        lemma_id_text_not_ticked(x);
                    }
                }
                assert(!is_idt(trim(ps[k as int])));
            }
            return None;
        }
        proof {
            if !ticked {
                assert(is_idt(x));
            }
        }
        out.push((ia, iz));
        assert(ps.take(k + 1).map_values(|p: Seq<char>| untick(trim(p))) =~= ps.take(
            k as int,
        ).map_values(|p: Seq<char>| untick(trim(p))).push(untick(trim(ps[k as int]))));
        assert(range_texts(s@, out@) =~= ps.take(k as int).map_values(
            |p: Seq<char>| untick(trim(p)),
        ).push(untick(trim(ps[k as int]))));
        k = k + 1;
    }
    assert(ps.take(k as int) =~= ps);
    Some(out)
}

fn is_prefix_char_exec(c: char) -> (r: bool)
    ensures
        r == is_prefix_char(c),
{
    c == '#' || c == '/' || c == '*' || c == ';' || c == '-'
}

fn prefix_end_exec(s: &Vec<char>, from: usize) -> (r: usize)
    requires
        from <= s@.len(),
    ensures
        r == prefix_end(s@, from as int),
        from <= r <= s@.len(),
{
    let mut i = from;
    while i < s.len() && is_prefix_char_exec(s[i])
        invariant
            from <= i <= s@.len(),
            prefix_end(s@, from as int) == prefix_end(s@, i as int),
        decreases s.len() - i,
    {
        i = i + 1;
    }
    i
}

fn after_prefix_exec(s: &Vec<char>, p: usize) -> (r: usize)
    requires
        p <= s@.len(),
    ensures
        r == after_prefix(s@, p as int),
        p <= r <= s@.len(),
{
    if p < s.len() && is_prefix_char_exec(s[p]) {
        let e = prefix_end_exec(s, p);
        ws_end_exec(s, e)
    } else {
        p
    }
}

fn keyword_at_exec(s: &Vec<char>, p: usize) -> (r: Option<(LinkKind, usize)>)
    requires
        p <= s@.len(),
    ensures
        r is None <==> keyword_at(s@, p as int) is None,
        r matches Some((k, e)) ==> keyword_at(s@, p as int) == Some((k, e as int)) && e <= s@.len(),
{
    let n = s.len();
    let covers = vec!['C', 'o', 'v', 'e', 'r', 's', ':'];
    let derived = vec!['D', 'e', 'r', 'i', 'v', 'e', 'd', ':'];
    assert(covers@ =~= lit_covers());
    assert(derived@ =~= lit_derived());
    if starts_with_at_exec(s, p, &covers) {
        Some((LinkKind::Covers, p + 7))
    } else if starts_with_at_exec(s, p, &derived) {
        Some((LinkKind::Derived, p + 8))
    } else {
        None
    }
}

/// The plain / line-comment form.
pub fn plain_annotation_exec(s: &Vec<char>) -> (r: Option<(LinkKind, Vec<(usize, usize)>)>)
    ensures
        r is None <==> plain_annotation(s@) is None,
        r matches Some((k, rs)) ==> plain_annotation(s@) == Some((k, range_texts(s@, rs@))),
        r matches Some((k, rs)) ==> ranges_within(rs@, 0, s@.len() as int),
{
    let a = ws_end_exec(s, 0);
    let p = after_prefix_exec(s, a);
    match keyword_at_exec(s, p) {
        Some((k, e)) => {
            match id_list_exec(s, e, s.len()) {
                Some(rs) => Some((k, rs)),
                None => None,
            }
        },
        None => None,
    }
}

/// The HTML-comment form; opener and closer both required.
pub fn html_annotation_exec(s: &Vec<char>) -> (r: Option<(LinkKind, Vec<(usize, usize)>)>)
    ensures
        r is None <==> html_annotation(s@) is None,
        r matches Some((k, rs)) ==> html_annotation(s@) == Some((k, range_texts(s@, rs@))),
        r matches Some((k, rs)) ==> ranges_within(rs@, 0, s@.len() as int),
{
    let n = s.len();
    let a = ws_end_exec(s, 0);
    let open = vec!['<', '!', '-', '-'];
    assert(open@ =~= lit_open());
    if !starts_with_at_exec(s, a, &open) {
        return None;
    }
    let p = ws_end_exec(s, a + 4);
    match keyword_at_exec(s, p) {
        Some((k, e)) => {
            let zz = ws_start_back_exec(s, s.len());
            let close = vec!['-', '-', '>'];
            assert(close@ =~= lit_close());
            if zz < 3 || zz - 3 < e {
                return None;
            }
            let z = zz - 3;
            if !starts_with_at_exec(s, z, &close) {
                return None;
            }
            match id_list_exec(s, e, z) {
                Some(rs) => Some((k, rs)),
                None => None,
            }
        },
        None => None,
    }
}

/// Either annotation form.
pub fn annotation_exec(s: &Vec<char>) -> (r: Option<(LinkKind, Vec<(usize, usize)>)>)
    ensures
        r is None <==> annotation(s@) is None,
        r matches Some((k, rs)) ==> annotation(s@) == Some((k, range_texts(s@, rs@))),
        r matches Some((k, rs)) ==> ranges_within(rs@, 0, s@.len() as int),
{
    let p = plain_annotation_exec(s);
    if p.is_some() {
        p
    } else {
        html_annotation_exec(s)
    }
}

pub fn is_trigger_exec(s: &Vec<char>) -> (r: bool)
    ensures
        r == is_trigger(s@),
{
    let n = s.len();
    let a = ws_end_exec(s, 0);
    let open = vec!['<', '!', '-', '-'];
    assert(open@ =~= lit_open());
    let b = if starts_with_at_exec(s, a, &open) {
        ws_end_exec(s, a + 4)
    } else {
        a
    };
    let p = after_prefix_exec(s, b);
    keyword_at_exec(s, p).is_some()
}

pub fn is_fence_exec(s: &Vec<char>) -> (r: bool)
    ensures
        r == is_fence(s@),
{
    let a = ws_end_exec(s, 0);
    let ticks = vec!['`', '`', '`'];
    let tildes = vec!['~', '~', '~'];
    assert(ticks@ =~= seq!['`', '`', '`']);
    assert(tildes@ =~= seq!['~', '~', '~']);
    starts_with_at_exec(s, a, &ticks) || starts_with_at_exec(s, a, &tildes)
}

/// The bounds of the heading title, when the line is a heading.
pub fn heading_exec(s: &Vec<char>) -> (r: Option<(usize, usize)>)
    ensures
        r is None <==> heading_title(s@) is None,
        r matches Some((a, b)) ==> a <= b <= s@.len() && heading_title(s@) == Some(
            s@.subrange(a as int, b as int),
        ),
{
    let mut h: usize = 0;
    while h < s.len() && s[h] == '#'
        invariant
            h <= s@.len(),
            hash_end(s@, 0) == hash_end(s@, h as int),
        decreases s.len() - h,
    {
        h = h + 1;
    }
    if !(1 <= h && h <= 6 && h < s.len() && char_is_ws(s[h])) {
        return None;
    }
    let (a, b) = trim_range(s, h, s.len());
    let ghost g = s@.subrange(a as int, b as int);
    let mut c = b;
    while c > a && s[c - 1] == '#'
        invariant
            a <= c <= b <= s@.len(),
            g == s@.subrange(a as int, b as int),
            hash_start_back(g, g.len() as int) == hash_start_back(g, c - a),
        decreases c,
    {
        assert(g[c - a - 1] == s@[c - 1]);
        c = c - 1;
    }
    if c > a {
        assert(g[c - a - 1] == s@[c - 1]);
    }
    assert(hash_start_back(g, c - a) == c - a);
    let ghost u = g.subrange(0, c - a);
    assert(u =~= s@.subrange(a as int, c as int));
    let mut d = c;
    while d > a && char_is_ws(s[d - 1])
        invariant
            a <= d <= c <= s@.len(),
            u == s@.subrange(a as int, c as int),
            ws_start_back(u, u.len() as int) == ws_start_back(u, d - a),
        decreases d,
    {
        assert(u[d - a - 1] == s@[d - 1]);
        d = d - 1;
    }
    if d > a {
        assert(u[d - a - 1] == s@[d - 1]);
    }
    assert(ws_start_back(u, d - a) == d - a);
    assert(trim_end(u) =~= s@.subrange(a as int, d as int));
    Some((a, d))
}

/// The executable reading of a line, as ranges into the line.
pub enum LineKind {
    Fence,
    Annotation { kind: LinkKind, ids: Vec<(usize, usize)> },
    Malformed,
    Heading { from: usize, to: usize },
    Other { blank: bool },
}

/// What `kind` says of line `s`, against `classify`.
pub open spec fn line_kind_matches(s: Seq<char>, md: bool, kind: LineKind) -> bool {
    match kind {
        LineKind::Fence => classify(md, s) == LineClass::Fence,
        LineKind::Annotation { kind, ids } => classify(md, s) == (LineClass::Annotation {
            kind,
            ids: range_texts(s, ids@),
        }) && ranges_within(ids@, 0, s.len() as int),
        LineKind::Malformed => classify(md, s) == LineClass::Malformed,
        LineKind::Heading { from, to } => from <= to <= s.len() && classify(md, s) == (
        LineClass::Heading { title: s.subrange(from as int, to as int) }),
        LineKind::Other { blank } => classify(md, s) == (LineClass::Other { blank }),
    }
}

pub fn classify_exec(md: bool, s: &Vec<char>) -> (r: LineKind)
    ensures
        line_kind_matches(s@, md, r),
{
    if md && is_fence_exec(s) {
        return LineKind::Fence;
    }
    match annotation_exec(s) {
        Some((kind, ids)) => LineKind::Annotation { kind, ids },
        None => {
            if is_trigger_exec(s) {
                LineKind::Malformed
            } else {
                if md {
                    match heading_exec(s) {
                        Some((from, to)) => {
                            return LineKind::Heading { from, to };
                        },
                        None => {},
                    }
                }
                LineKind::Other { blank: is_blank_exec(s) }
            }
        },
    }
}

} // verus!
