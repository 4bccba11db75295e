//! Doc scanning: annotation links, malformed lines, heading-delimited
//! sections. Fenced lines are invisible in Markdown; headings count only in
//! Markdown; elsewhere the section is the file itself.
use vstd::prelude::*;
use crate::grammar::{
    all_ws, classify, classify_exec, is_fence, keyword_text, law_prefixed_annotation, lemma_split_none, line_kind_matches,
    prefixed_line, range_text, range_within, LineClass, LineKind,
};
use crate::id::{is_id_text, lemma_id_text_chars, parse_chars, spec_parse_id, ReqId};
use crate::text::{chars_of, lines_exec, seq_views, string_of, text_lines};

verus! {

#[derive(Debug, Clone, Copy, PartialEq, Eq, Structural)]
pub enum LinkKind {
    Covers,
    Derived,
}

#[derive(Debug, Clone, PartialEq, Eq)]
pub struct Location {
    pub file: String,
    pub section: Option<String>,
    pub line: usize,
}

pub struct LocView {
    pub file: Seq<char>,
    pub section: Option<Seq<char>>,
    pub line: int,
}

pub open spec fn opt_view(o: Option<String>) -> Option<Seq<char>> {
    match o {
        Some(s) => Some(s@),
        None => None,
    }
}

impl Location {
    /// A field-for-field copy.
    pub fn copy(&self) -> (r: Location)
        ensures
            r@ == self@,
    {
        Location { file: self.file.clone(), section: copy_opt(&self.section), line: self.line }
    }
}

impl View for Location {
    type V = LocView;

    open spec fn view(&self) -> LocView {
        LocView { file: self.file@, section: opt_view(self.section), line: self.line as int }
    }
}

#[derive(Debug, Clone)]
pub struct Link {
    pub kind: LinkKind,
    pub id: ReqId,
    pub loc: Location,
}

pub struct LinkView {
    pub kind: LinkKind,
    pub id: (Seq<char>, Seq<char>, u32),
    pub loc: LocView,
}

impl View for Link {
    type V = LinkView;

    open spec fn view(&self) -> LinkView {
        LinkView { kind: self.kind, id: (self.id.ty@, self.id.slug@, self.id.rev), loc: self.loc@ }
    }
}

#[derive(Debug, Clone)]
pub struct Malformed {
    pub loc: Location,
}

/// One heading-delimited section (or a whole non-Markdown file), for
/// `unparented`.
#[derive(Debug, Clone)]
pub struct SectionRecord {
    pub loc: Location,
    pub has_content: bool,
    pub has_annotation: bool,
}

pub struct SectionView {
    pub loc: LocView,
    pub has_content: bool,
    pub has_annotation: bool,
}

impl View for SectionRecord {
    type V = SectionView;

    open spec fn view(&self) -> SectionView {
        SectionView { loc: self.loc@, has_content: self.has_content, has_annotation: self.has_annotation }
    }
}

#[derive(Debug)]
pub struct ScanOutput {
    pub links: Vec<Link>,
    pub malformed: Vec<Malformed>,
    pub sections: Vec<SectionRecord>,
}

pub struct ScanOutputView {
    pub links: Seq<LinkView>,
    pub malformed: Seq<LocView>,
    pub sections: Seq<SectionView>,
}

pub open spec fn link_views(v: Seq<Link>) -> Seq<LinkView> {
    Seq::new(v.len(), |i: int| v[i]@)
}

pub open spec fn malformed_views(v: Seq<Malformed>) -> Seq<LocView> {
    Seq::new(v.len(), |i: int| v[i].loc@)
}

pub open spec fn section_views(v: Seq<SectionRecord>) -> Seq<SectionView> {
    Seq::new(v.len(), |i: int| v[i]@)
}

impl View for ScanOutput {
    type V = ScanOutputView;

    open spec fn view(&self) -> ScanOutputView {
        ScanOutputView {
            links: link_views(self.links@),
            malformed: malformed_views(self.malformed@),
            sections: section_views(self.sections@),
        }
    }
}

/// A file to scan: its path, the path string used in reports
/// (CWD-relative, `/`-separated) and its text.
#[derive(Debug, Clone)]
pub struct ScanFile {
    pub path: String,
    pub display: String,
    pub text: String,
}

// ---------------------------------------------------------------------------
// What scanning yields

/// The links of one annotation line: the ID texts that parse, in order.
pub open spec fn links_of(
    file: Seq<char>,
    section: Option<Seq<char>>,
    line: int,
    kind: LinkKind,
    texts: Seq<Seq<char>>,
) -> Seq<LinkView>
    decreases texts.len(),
{
    if texts.len() == 0 {
        Seq::empty()
    } else {
        let rest = links_of(file, section, line, kind, texts.drop_last());
        match spec_parse_id(texts.last()) {
            Some(id) => rest.push(
                LinkView { kind, id, loc: LocView { file, section, line } },
            ),
            None => rest,
        }
    }
}

/// The scanner's state after some lines of one file.
pub struct ScanState {
    pub in_fence: bool,
    pub section: Option<Seq<char>>,
    pub rec_line: int,
    pub has_content: bool,
    pub has_annotation: bool,
    pub links: Seq<LinkView>,
    pub malformed: Seq<LocView>,
    pub sections: Seq<SectionView>,
}

/// The record of the section the scanner is in.
pub open spec fn open_record(file: Seq<char>, st: ScanState) -> SectionView {
    SectionView {
        loc: LocView { file, section: st.section, line: st.rec_line },
        has_content: st.has_content,
        has_annotation: st.has_annotation,
    }
}

pub open spec fn scan_start(prev: ScanOutputView) -> ScanState {
    ScanState {
        in_fence: false,
        section: None,
        rec_line: 1,
        has_content: false,
        has_annotation: false,
        links: prev.links,
        malformed: prev.malformed,
        sections: prev.sections,
    }
}

/// One line (numbered `lineno`, from 1) of a file.
pub open spec fn scan_step(file: Seq<char>, md: bool, st: ScanState, line: Seq<char>, lineno: int) -> ScanState {
    if md && is_fence(line) {
        ScanState { in_fence: !st.in_fence, ..st }
    } else if md && st.in_fence {
        st
    } else {
        match classify(md, line) {
            LineClass::Annotation { kind, ids } => ScanState {
                links: st.links + links_of(file, st.section, lineno, kind, ids),
                has_annotation: true,
                ..st
            },
            LineClass::Malformed => ScanState {
                malformed: st.malformed.push(LocView { file, section: st.section, line: lineno }),
                has_content: true,
                ..st
            },
            LineClass::Heading { title } => ScanState {
                sections: st.sections.push(open_record(file, st)),
                section: Some(title),
                rec_line: lineno,
                has_content: false,
                has_annotation: false,
                ..st
            },
            LineClass::Other { blank } => if blank {
                st
            } else {
                ScanState { has_content: true, ..st }
            },
            LineClass::Fence => st,
        }
    }
}

pub open spec fn scan_lines(file: Seq<char>, md: bool, prev: ScanOutputView, lines: Seq<Seq<char>>) -> ScanState
    decreases lines.len(),
{
    if lines.len() == 0 {
        scan_start(prev)
    } else {
        scan_step(file, md, scan_lines(file, md, prev, lines.drop_last()), lines.last(), lines.len() as int)
    }
}

/// The output after scanning one more file onto `prev`.
pub open spec fn scan_text(file: Seq<char>, md: bool, text: Seq<char>, prev: ScanOutputView) -> ScanOutputView {
    let st = scan_lines(file, md, prev, text_lines(text));
    ScanOutputView { links: st.links, malformed: st.malformed, sections: st.sections.push(open_record(file, st)) }
}

pub open spec fn empty_output() -> ScanOutputView {
    ScanOutputView { links: Seq::empty(), malformed: Seq::empty(), sections: Seq::empty() }
}

/// The output of scanning `files` in order.
pub open spec fn scan_all(files: Seq<ScanFile>) -> ScanOutputView
    decreases files.len(),
{
    if files.len() == 0 {
        empty_output()
    } else {
        let f = files.last();
        scan_text(f.display@, is_markdown_path(f.path@), f.text@, scan_all(files.drop_last()))
    }
}

// ---------------------------------------------------------------------------
// Laws of scanning

proof fn lemma_links_of_section(
    file: Seq<char>,
    section: Option<Seq<char>>,
    line: int,
    kind: LinkKind,
    texts: Seq<Seq<char>>,
)
    ensures
        forall|i: int| 0 <= i < links_of(file, section, line, kind, texts).len() ==> (#[trigger] links_of(
            file,
            section,
            line,
            kind,
            texts,
        )[i]).loc == (LocView { file, section, line }),
    decreases texts.len(),
{
    if texts.len() > 0 {
        lemma_links_of_section(file, section, line, kind, texts.drop_last());
    }
}

/// What scanning the first lines of a non-Markdown file keeps: no section,
/// the earlier output as a prefix, and nothing new with a section.
pub open spec fn plain_scan_ok(file: Seq<char>, prev: ScanOutputView, st: ScanState) -> bool {
    &&& st.section is None
    &&& st.rec_line == 1
    &&& st.sections == prev.sections
    &&& prev.links.len() <= st.links.len()
    &&& st.links.take(prev.links.len() as int) == prev.links
    &&& forall|i: int| prev.links.len() <= i < st.links.len() ==> (#[trigger] st.links[i]).loc.section is None
    &&& prev.malformed.len() <= st.malformed.len()
    &&& st.malformed.take(prev.malformed.len() as int) == prev.malformed
    &&& forall|i: int| prev.malformed.len() <= i < st.malformed.len() ==> (#[trigger] st.malformed[i]).section is None
}

proof fn lemma_plain_scan_lines(file: Seq<char>, prev: ScanOutputView, lines: Seq<Seq<char>>)
    ensures
        plain_scan_ok(file, prev, scan_lines(file, false, prev, lines)),
    decreases lines.len(),
{
    if lines.len() == 0 {
        assert(prev.links.take(prev.links.len() as int) =~= prev.links);
        assert(prev.malformed.take(prev.malformed.len() as int) =~= prev.malformed);
    } else {
        let st = scan_lines(file, false, prev, lines.drop_last());
        lemma_plain_scan_lines(file, prev, lines.drop_last());
        let line = lines.last();
        let n = lines.len() as int;
        let next = scan_step(file, false, st, line, n);
        match classify(false, line) {
            LineClass::Annotation { kind, ids } => {
                let new = links_of(file, st.section, n, kind, ids);
                lemma_links_of_section(file, st.section, n, kind, ids);
                assert(next.links == st.links + new);
                assert(next.links.take(prev.links.len() as int) =~= st.links.take(prev.links.len() as int));
                assert forall|i: int| prev.links.len() <= i < next.links.len() implies (#[trigger] next.links[i]).loc.section is None by {
                    if i >= st.links.len() {
                        assert(next.links[i] == new[i - st.links.len()]);
                    } else {
                        assert(next.links[i] == st.links[i]);
                    }
                }
            },
            LineClass::Malformed => {
                assert(next.malformed.take(prev.malformed.len() as int) =~= st.malformed.take(prev.malformed.len() as int));
                assert forall|i: int| prev.malformed.len() <= i < next.malformed.len() implies (#[trigger] next.malformed[i]).section is None by {
                    if i < st.malformed.len() {
                        assert(next.malformed[i] == st.malformed[i]);
                    }
                }
            },
            _ => {},
        }
    }
}

/// Outside Markdown no heading is tracked: the file is one section. Every
/// link and malformed line it adds has no section, what came before is kept
/// as it was, and it adds one section record, untitled, from line 1.
///
/// Covers: ann~headings~1
pub proof fn law_plain_file_is_one_section(file: Seq<char>, text: Seq<char>, prev: ScanOutputView)
    ensures
        prev.links.len() <= scan_text(file, false, text, prev).links.len(),
        scan_text(file, false, text, prev).links.take(prev.links.len() as int) == prev.links,
        forall|i: int| prev.links.len() <= i < scan_text(file, false, text, prev).links.len() ==> (#[trigger] scan_text(
            file,
            false,
            text,
            prev,
        ).links[i]).loc.section is None,
        prev.malformed.len() <= scan_text(file, false, text, prev).malformed.len(),
        scan_text(file, false, text, prev).malformed.take(prev.malformed.len() as int) == prev.malformed,
        forall|i: int| prev.malformed.len() <= i < scan_text(file, false, text, prev).malformed.len() ==> (#[trigger] scan_text(
            file,
            false,
            text,
            prev,
        ).malformed[i]).section is None,
        scan_text(file, false, text, prev).sections.len() == prev.sections.len() + 1,
        scan_text(file, false, text, prev).sections.drop_last() == prev.sections,
        scan_text(file, false, text, prev).sections.last().loc == (LocView { file, section: None, line: 1 }),
{
    let st = scan_lines(file, false, prev, text_lines(text));
    lemma_plain_scan_lines(file, prev, text_lines(text));
    assert(st.sections.push(open_record(file, st)).drop_last() =~= st.sections);
}

/// Inside a Markdown fence a line that is not a fence changes nothing: it
/// is neither an annotation nor a heading nor content.
///
/// Covers: ann~fences~1
pub proof fn law_fenced_line_ignored(file: Seq<char>, st: ScanState, line: Seq<char>, lineno: int)
    requires
        st.in_fence,
        !is_fence(line),
    ensures
        scan_step(file, true, st, line, lineno) == st,
{
}

/// A line that matches the annotation grammar is never taken for a heading.
///
/// Covers: ann~headings~1
pub proof fn law_annotation_not_heading(md: bool, line: Seq<char>)
    requires
        crate::grammar::annotation(line) is Some,
    ensures
        !(classify(md, line) is Heading),
{
}

/// A prefixed annotation line holds no line break, so it is one line.
proof fn lemma_prefixed_line_one_line(
    ws1: Seq<char>,
    p: Seq<char>,
    ws2: Seq<char>,
    kind: LinkKind,
    ws3: Seq<char>,
    id: Seq<char>,
)
    requires
        forall|k: int| 0 <= k < ws1.len() ==> ws1[k] != '\n',
        forall|k: int| 0 <= k < ws2.len() ==> ws2[k] != '\n',
        forall|k: int| 0 <= k < ws3.len() ==> ws3[k] != '\n',
        forall|k: int| 0 <= k < p.len() ==> {
            let c = #[trigger] p[k];
            c == '#' || c == '/' || c == '*' || c == ';' || c == '-'
        },
        is_id_text(id),
    ensures
        text_lines(prefixed_line(ws1, p, ws2, kind, ws3, id)) == seq![prefixed_line(ws1, p, ws2, kind, ws3, id)],
{
    let line = prefixed_line(ws1, p, ws2, kind, ws3, id);
    lemma_id_text_chars(id);
    let kw = keyword_text(kind);
    let n1 = ws1.len() as int;
    let n2 = n1 + p.len();
    let n3 = n2 + ws2.len();
    let n4 = n3 + kw.len();
    let n5 = n4 + ws3.len();
    assert forall|k: int| 0 <= k < line.len() implies line[k] != '\n' by {
        if k < n1 {
            assert(line[k] == ws1[k]);
        } else if k < n2 {
            assert(line[k] == p[k - n1]);
        } else if k < n3 {
            assert(line[k] == ws2[k - n2]);
        } else if k < n4 {
            assert(line[k] == kw[k - n3]);
        } else if k < n5 {
            assert(line[k] == ws3[k - n4]);
        } else {
            assert(line[k] == id[k - n5]);
        }
    }
    lemma_split_none(line, '\n');
    assert(line.len() > 0);
    assert(seq![line].drop_last() =~= Seq::<Seq<char>>::empty());
    assert(text_lines(line) =~= seq![line]);
}

/// A file of one line that classifies as an annotation of one ID.
proof fn lemma_one_annotation_line(
    file: Seq<char>,
    md: bool,
    line: Seq<char>,
    kind: LinkKind,
    id: Seq<char>,
    prev: ScanOutputView,
)
    requires
        classify(md, line) == (LineClass::Annotation { kind, ids: seq![id] }),
        text_lines(line) == seq![line],
        spec_parse_id(id) is Some,
    ensures
        scan_text(file, md, line, prev).links == prev.links.push(
            LinkView { kind, id: spec_parse_id(id)->0, loc: LocView { file, section: None, line: 1 } },
        ),
        scan_text(file, md, line, prev).malformed == prev.malformed,
{
    let st0 = scan_start(prev);
    let lines = seq![line];
    assert(lines.len() == 1 && lines.last() == line);
    assert(lines.drop_last() =~= Seq::<Seq<char>>::empty());
    assert(scan_lines(file, md, prev, lines.drop_last()) == st0);
    assert(!(md && is_fence(line)));
    assert(scan_lines(file, md, prev, lines) == scan_step(file, md, st0, line, 1));
    let ls = seq![id];
    assert(ls.len() == 1 && ls.last() == id);
    assert(ls.drop_last() =~= Seq::<Seq<char>>::empty());
    assert(links_of(file, None, 1, kind, ls.drop_last()) == Seq::<LinkView>::empty());
    let l = LinkView { kind, id: spec_parse_id(id)->0, loc: LocView { file, section: None, line: 1 } };
    let new = links_of(file, None, 1, kind, ls);
    assert(new == Seq::<LinkView>::empty().push(l));
    assert(prev.links + new =~= prev.links.push(l));
}

/// A file whose one line is a comment-prefixed annotation of one ID (see
/// `law_prefixed_annotation`) yields exactly one link, to that ID, of that
/// kind, on line 1 with no section, and no malformed line.
///
/// Covers: ann~grammar~2
pub proof fn law_prefixed_annotation_links(
    file: Seq<char>,
    md: bool,
    ws1: Seq<char>,
    p: Seq<char>,
    ws2: Seq<char>,
    kind: LinkKind,
    ws3: Seq<char>,
    id: Seq<char>,
    prev: ScanOutputView,
)
    requires
        all_ws(ws1),
        all_ws(ws2),
        all_ws(ws3),
        forall|k: int| 0 <= k < ws1.len() ==> ws1[k] != '\n',
        forall|k: int| 0 <= k < ws2.len() ==> ws2[k] != '\n',
        forall|k: int| 0 <= k < ws3.len() ==> ws3[k] != '\n',
        p.len() >= 1,
        forall|k: int| 0 <= k < p.len() ==> {
            let c = #[trigger] p[k];
            c == '#' || c == '/' || c == '*' || c == ';' || c == '-'
        },
        is_id_text(id),
        spec_parse_id(id) is Some,
    ensures
        scan_text(file, md, prefixed_line(ws1, p, ws2, kind, ws3, id), prev).links == prev.links.push(
            LinkView { kind, id: spec_parse_id(id)->0, loc: LocView { file, section: None, line: 1 } },
        ),
        scan_text(file, md, prefixed_line(ws1, p, ws2, kind, ws3, id), prev).malformed == prev.malformed,
{
    let line = prefixed_line(ws1, p, ws2, kind, ws3, id);
    law_prefixed_annotation(md, ws1, p, ws2, kind, ws3, id);
    lemma_prefixed_line_one_line(ws1, p, ws2, kind, ws3, id);
    lemma_one_annotation_line(file, md, line, kind, id, prev);
}

/// Two scan outputs one after the other.
pub open spec fn join_output(a: ScanOutputView, b: ScanOutputView) -> ScanOutputView {
    ScanOutputView { links: a.links + b.links, malformed: a.malformed + b.malformed, sections: a.sections + b.sections }
}

/// Scanning lines onto `prev` keeps `prev` as a prefix and appends what
/// scanning them onto nothing gives; the rest of the state is the same.
proof fn lemma_scan_lines_prefix(file: Seq<char>, md: bool, prev: ScanOutputView, lines: Seq<Seq<char>>)
    ensures
        ({
            let st = scan_lines(file, md, prev, lines);
            let st0 = scan_lines(file, md, empty_output(), lines);
            &&& st.links == prev.links + st0.links
            &&& st.malformed == prev.malformed + st0.malformed
            &&& st.sections == prev.sections + st0.sections
            &&& st.in_fence == st0.in_fence
            &&& st.section == st0.section
            &&& st.rec_line == st0.rec_line
            &&& st.has_content == st0.has_content
            &&& st.has_annotation == st0.has_annotation
        }),
    decreases lines.len(),
{
    if lines.len() == 0 {
        assert(prev.links + Seq::<LinkView>::empty() =~= prev.links);
        assert(prev.malformed + Seq::<LocView>::empty() =~= prev.malformed);
        assert(prev.sections + Seq::<SectionView>::empty() =~= prev.sections);
    } else {
        let l0 = lines.drop_last();
        lemma_scan_lines_prefix(file, md, prev, l0);
        let st = scan_lines(file, md, prev, l0);
        let st0 = scan_lines(file, md, empty_output(), l0);
        let line = lines.last();
        let n = lines.len() as int;
        assert(open_record(file, st) == open_record(file, st0));
        if !(md && is_fence(line)) && !(md && st.in_fence) {
            match classify(md, line) {
                LineClass::Annotation { kind, ids } => {
                    let new = links_of(file, st.section, n, kind, ids);
                    assert((prev.links + st0.links) + new =~= prev.links + (st0.links + new));
                },
                LineClass::Malformed => {
                    let m = LocView { file, section: st.section, line: n };
                    assert((prev.malformed + st0.malformed).push(m) =~= prev.malformed + st0.malformed.push(m));
                },
                LineClass::Heading { title } => {
                    let r = open_record(file, st);
                    assert((prev.sections + st0.sections).push(r) =~= prev.sections + st0.sections.push(r));
                },
                _ => {},
            }
        }
    }
}

/// Scanning a file onto `prev` is `prev` followed by scanning it alone.
proof fn lemma_scan_text_join(file: Seq<char>, md: bool, text: Seq<char>, prev: ScanOutputView)
    ensures
        scan_text(file, md, text, prev) == join_output(prev, scan_text(file, md, text, empty_output())),
{
    let lines = text_lines(text);
    lemma_scan_lines_prefix(file, md, prev, lines);
    let st = scan_lines(file, md, prev, lines);
    let st0 = scan_lines(file, md, empty_output(), lines);
    assert(open_record(file, st) == open_record(file, st0));
    assert(st.sections.push(open_record(file, st)) =~= prev.sections + st0.sections.push(open_record(file, st0)));
}

/// Files are scanned independently, in order: scanning `a` then `b` gives
/// the scan of `a` followed by the scan of `b`, links, malformed lines and
/// section records alike; scanning no file gives nothing.
pub proof fn law_scan_concatenates(a: Seq<ScanFile>, b: Seq<ScanFile>)
    ensures
        scan_all(a + b) == join_output(scan_all(a), scan_all(b)),
        scan_all(Seq::<ScanFile>::empty()) == empty_output(),
    decreases b.len(),
{
    if b.len() == 0 {
        assert(a + b =~= a);
        let x = scan_all(a);
        assert(x.links + Seq::<LinkView>::empty() =~= x.links);
        assert(x.malformed + Seq::<LocView>::empty() =~= x.malformed);
        assert(x.sections + Seq::<SectionView>::empty() =~= x.sections);
    } else {
        let b0 = b.drop_last();
        let f = b.last();
        law_scan_concatenates(a, b0);
        assert((a + b).drop_last() =~= a + b0);
        assert((a + b).last() == f);
        let md = is_markdown_path(f.path@);
        let one = scan_text(f.display@, md, f.text@, empty_output());
        lemma_scan_text_join(f.display@, md, f.text@, scan_all(a + b0));
        lemma_scan_text_join(f.display@, md, f.text@, scan_all(b0));
        let x = scan_all(a);
        let y = scan_all(b0);
        assert((x.links + y.links) + one.links =~= x.links + (y.links + one.links));
        assert((x.malformed + y.malformed) + one.malformed =~= x.malformed + (y.malformed + one.malformed));
        assert((x.sections + y.sections) + one.sections =~= x.sections + (y.sections + one.sections));
    }
}

// ---------------------------------------------------------------------------
// Markdown detection by extension

/// `p[..to]` ends in a separator or in a `.` component.
pub open spec fn ends_in_skip(p: Seq<char>, to: int) -> bool {
    0 < to <= p.len() && (p[to - 1] == '/' || (p[to - 1] == '.' && (to == 1 || p[to - 2] == '/')))
}

/// Where the last name of `p[..to]` ends: trailing `/`s and `.` components
/// are skipped, as `Path::file_name` skips them.
pub open spec fn name_end(p: Seq<char>, to: int) -> int
    decreases to,
{
    if ends_in_skip(p, to) {
        name_end(p, to - 1)
    } else {
        to
    }
}

/// Index just past the last `/` of `p[..to]`, or 0.
pub open spec fn component_start(p: Seq<char>, to: int) -> int
    decreases to,
{
    if 0 < to <= p.len() && p[to - 1] != '/' {
        component_start(p, to - 1)
    } else {
        to
    }
}

/// The last `/`-separated component (trailing `/`s and `.` components
/// ignored).
pub open spec fn file_name(p: Seq<char>) -> Seq<char> {
    let e = name_end(p, p.len() as int);
    p.subrange(component_start(p, e), e)
}

/// Index of the last `.` of `n[..to]`, or -1.
pub open spec fn last_dot(n: Seq<char>, to: int) -> int
    decreases to,
{
    if 0 < to <= n.len() {
        if n[to - 1] == '.' {
            to - 1
        } else {
            last_dot(n, to - 1)
        }
    } else {
        -1
    }
}

/// `Path::extension` of the last component: the text after its last `.`,
/// unless that dot begins the name, or the name is `..`.
pub open spec fn extension(p: Seq<char>) -> Option<Seq<char>> {
    let n = file_name(p);
    let d = last_dot(n, n.len() as int);
    if n == seq!['.', '.'] || d <= 0 {
        None
    } else {
        Some(n.subrange(d + 1, n.len() as int))
    }
}

pub open spec fn ascii_lower(c: char) -> char {
    if 'A' <= c && c <= 'Z' {
        ((c as u32) + 32) as char
    } else {
        c
    }
}

/// `.md` or `.markdown`, in any ASCII case.
pub open spec fn is_markdown_path(p: Seq<char>) -> bool {
    match extension(p) {
        Some(e) => {
            let l = e.map_values(|c: char| ascii_lower(c));
            l == seq!['m', 'd'] || l == seq!['m', 'a', 'r', 'k', 'd', 'o', 'w', 'n']
        },
        None => false,
    }
}

fn ascii_lower_exec(c: char) -> (r: char)
    ensures
        r == ascii_lower(c),
{
    if 'A' <= c && c <= 'Z' {
        match c {
            'A' => 'a', 'B' => 'b', 'C' => 'c', 'D' => 'd', 'E' => 'e', 'F' => 'f', 'G' => 'g',
            'H' => 'h', 'I' => 'i', 'J' => 'j', 'K' => 'k', 'L' => 'l', 'M' => 'm', 'N' => 'n',
            'O' => 'o', 'P' => 'p', 'Q' => 'q', 'R' => 'r', 'S' => 's', 'T' => 't', 'U' => 'u',
            'V' => 'v', 'W' => 'w', 'X' => 'x', 'Y' => 'y', _ => 'z',
        }
    } else {
        c
    }
}

/// Where the extension of `p` stands in it, if it has one.
fn extension_range(p: &Vec<char>) -> (r: Option<(usize, usize)>)
    ensures
        match r {
            Some((d, e)) => d <= e <= p@.len() && extension(p@) == Some(p@.subrange(d as int, e as int)),
            None => extension(p@) is None,
        },
{
    let mut e = p.len();
    while e > 0 && (p[e - 1] == '/' || (p[e - 1] == '.' && (e == 1 || p[e - 2] == '/')))
        invariant
            e <= p@.len(),
            name_end(p@, p@.len() as int) == name_end(p@, e as int),
        decreases e,
    {
        e = e - 1;
    }
    let mut s = e;
    while s > 0 && p[s - 1] != '/'
        invariant
            s <= e <= p@.len(),
            component_start(p@, e as int) == component_start(p@, s as int),
        decreases s,
    {
        s = s - 1;
    }
    let ghost n = p@.subrange(s as int, e as int);
    assert(n == file_name(p@));
    let mut d = e;
    while d > s && p[d - 1] != '.'
        invariant
            s <= d <= e <= p@.len(),
            n == p@.subrange(s as int, e as int),
            last_dot(n, n.len() as int) == last_dot(n, d - s),
        decreases d,
    {
        assert(n[d - s - 1] == p@[d - 1]);
        d = d - 1;
    }
    if d > s {
        assert(n[d - s - 1] == p@[d - 1]);
    }
    // `d - 1` is the last dot, when `d > s`.
    if d <= s + 1 {
        return None;
    }
    if e - s == 2 && p[s] == '.' && p[s + 1] == '.' {
        assert(n =~= seq!['.', '.']);
        return None;
    }
    assert(n != seq!['.', '.']) by {
        if n == seq!['.', '.'] {
            assert(n[0] == p@[s as int]);
            assert(n[1] == p@[s + 1]);
        }
    }
    assert(n.subrange(d - s, n.len() as int) =~= p@.subrange(d as int, e as int));
    Some((d, e))
}

/// Whether the file at `path` is Markdown (`.md` / `.markdown`, any case).
pub fn is_markdown(path: &str) -> (r: bool)
    ensures
        r == is_markdown_path(path@),
{
    let p = chars_of(path);
    let (d, e) = match extension_range(&p) {
        Some(x) => x,
        None => {
            return false;
        },
    };
    let ghost ext = p@.subrange(d as int, e as int);

    let mut lower: Vec<char> = Vec::new();
    let mut k = d;
    while k < e
        invariant
            d <= k <= e <= p@.len(),
            ext == p@.subrange(d as int, e as int),
            lower@ == ext.take(k - d).map_values(|c: char| ascii_lower(c)),
        decreases e - k,
    {
        let c = ascii_lower_exec(p[k]);
        lower.push(c);
        assert(ext.take(k - d + 1).map_values(|c: char| ascii_lower(c)) =~= ext.take(k - d).map_values(
            |c: char| ascii_lower(c),
        ).push(ascii_lower(p@[k as int])));
        k = k + 1;
    }
    assert(ext.take(e - d) =~= ext);
    let md = vec!['m', 'd'];
    let markdown = vec!['m', 'a', 'r', 'k', 'd', 'o', 'w', 'n'];
    assert(md@ =~= seq!['m', 'd']);
    assert(markdown@ =~= seq!['m', 'a', 'r', 'k', 'd', 'o', 'w', 'n']);
    crate::text::seq_eq(&lower, &md) || crate::text::seq_eq(&lower, &markdown)
}

/// An inventory file: extension exactly `yaml`.
pub open spec fn is_yaml_path(p: Seq<char>) -> bool {
    extension(p) == Some(seq!['y', 'a', 'm', 'l'])
}

/// Whether `path` names an inventory file (`.yaml`, exactly).
pub fn is_yaml_file(path: &str) -> (r: bool)
    ensures
        r == is_yaml_path(path@),
{
    let p = chars_of(path);
    match extension_range(&p) {
        Some((d, e)) => {
            let yaml = vec!['y', 'a', 'm', 'l'];
            let mut ext: Vec<char> = Vec::new();
            let mut k = d;
            while k < e
                invariant
                    d <= k <= e <= p@.len(),
                    ext@ == p@.subrange(d as int, k as int),
                decreases e - k,
            {
                ext.push(p[k]);
                assert(p@.subrange(d as int, k + 1) =~= p@.subrange(d as int, k as int).push(p@[k as int]));
                k = k + 1;
            }
            assert(yaml@ =~= seq!['y', 'a', 'm', 'l']);
            crate::text::seq_eq(&ext, &yaml)
        },
        None => false,
    }
}

// ---------------------------------------------------------------------------
// Scanning

pub fn copy_opt(o: &Option<String>) -> (r: Option<String>)
    ensures
        opt_view(r) == opt_view(*o),
{
    match o {
        Some(s) => Some(s.clone()),
        None => None,
    }
}

fn new_output() -> (r: ScanOutput)
    ensures
        r@ == empty_output(),
{
    let r = ScanOutput { links: Vec::new(), malformed: Vec::new(), sections: Vec::new() };
    assert(r@.links =~= Seq::<LinkView>::empty());
    assert(r@.malformed =~= Seq::<LocView>::empty());
    assert(r@.sections =~= Seq::<SectionView>::empty());
    r
}

/// Scans every file, in order. Each link, malformed line and section record
/// carries the file's display path, its section title and line number.
pub fn scan_files(files: &[ScanFile]) -> (out: ScanOutput)
    ensures
        out@ == scan_all(files@),
{
    let mut out = new_output();
    let mut i: usize = 0;
    while i < files.len()
        invariant
            i <= files@.len(),
            out@ == scan_all(files@.take(i as int)),
        decreases files.len() - i,
    {
        assert(files@.take(i + 1).drop_last() =~= files@.take(i as int));
        scan_one(&files[i], &mut out);
        i = i + 1;
    }
    assert(files@.take(files@.len() as int) =~= files@);
    out
}

/// Scans one file onto `out`.
#[verifier::rlimit(60)]
pub fn scan_one(f: &ScanFile, out: &mut ScanOutput)
    ensures
        final(out)@ == scan_text(f.display@, is_markdown_path(f.path@), f.text@, old(out)@),
{
    let md = is_markdown(f.path.as_str());
    let text = chars_of(f.text.as_str());
    let lines = lines_exec(&text);
    let ghost file = f.display@;
    let ghost prev = old(out)@;
    let ghost ls = text_lines(f.text@);
    let mut in_fence = false;
    let mut section: Option<String> = None;
    let mut record = SectionRecord {
        loc: Location { file: f.display.clone(), section: None, line: 1 },
        has_content: false,
        has_annotation: false,
    };
    let mut i: usize = 0;
    assert(ls.take(0) =~= Seq::<Seq<char>>::empty());
    while i < lines.len()
        invariant
            i <= lines@.len(),
            seq_views(lines@) == ls,
            file == f.display@,
            ({
                let st = scan_lines(file, md, prev, ls.take(i as int));
                &&& in_fence == st.in_fence
                &&& opt_view(section) == st.section
                &&& record@ == open_record(file, st)
                &&& out@.links == st.links
                &&& out@.malformed == st.malformed
                &&& out@.sections == st.sections
            }),
        decreases lines.len() - i,
    {
        let ghost st0 = scan_lines(file, md, prev, ls.take(i as int));
        assert(ls.take(i + 1).drop_last() =~= ls.take(i as int));
        assert(ls.take(i + 1).last() == ls[i as int]);
        let line = &lines[i];
        assert(line@ == ls[i as int]);
        let lineno = i + 1;
        let kind = classify_exec(md, line);
        let fence = match &kind {
            LineKind::Fence => true,
            _ => false,
        };
        if fence {
            in_fence = !in_fence;
        } else if md && in_fence {
        } else {
            scan_line_body(f, line, lineno, md, kind, &mut section, &mut record, out, Ghost(st0));
        }
        i = i + 1;
    }
    assert(ls.take(lines@.len() as int) =~= ls);
    out.sections.push(record);
    let ghost st = scan_lines(file, md, prev, ls);
    assert(out@.sections =~= st.sections.push(open_record(file, st)));
}

/// One visible, non-fence line: its links, malformed mark, heading or content.
fn scan_line_body(
    f: &ScanFile,
    line: &Vec<char>,
    lineno: usize,
    md: bool,
    kind: LineKind,
    section: &mut Option<String>,
    record: &mut SectionRecord,
    out: &mut ScanOutput,
    Ghost(st): Ghost<ScanState>,
)
    requires
        lineno >= 1,
        line_kind_matches(line@, md, kind),
        !(kind is Fence),
        !(md && is_fence(line@)),
        !(md && st.in_fence),
        opt_view(*old(section)) == st.section,
        old(record)@ == open_record(f.display@, st),
        old(out)@.links == st.links,
        old(out)@.malformed == st.malformed,
        old(out)@.sections == st.sections,
    ensures
        ({
            let st2 = scan_step(f.display@, md, st, line@, lineno as int);
            &&& final(record)@ == open_record(f.display@, st2)
            &&& opt_view(*final(section)) == st2.section
            &&& final(out)@.links == st2.links
            &&& final(out)@.malformed == st2.malformed
            &&& final(out)@.sections == st2.sections
        }),
{
    let ghost file = f.display@;
    match kind {
        LineKind::Annotation { kind: lk, ids } => {
            let ghost texts = crate::grammar::range_texts(line@, ids@);
            let ghost base = out@.links;
            let mut k: usize = 0;
            assert(texts.take(0) =~= Seq::<Seq<char>>::empty());
            assert(base + links_of(file, st.section, lineno as int, lk, texts.take(0)) =~= base);
            while k < ids.len()
                invariant
                    k <= ids@.len(),
                    texts == crate::grammar::range_texts(line@, ids@),
                    crate::grammar::ranges_within(ids@, 0, line@.len() as int),
                    file == f.display@,
                    opt_view(*section) == st.section,
                    *section == *old(section),
                    out@.links == base + links_of(file, st.section, lineno as int, lk, texts.take(k as int)),
                    out@.malformed == old(out)@.malformed,
                    out@.sections == old(out)@.sections,
                decreases ids.len() - k,
            {
                assert(range_within(ids@[k as int], 0, line@.len() as int));
                let (a, b) = ids[k];
                assert(texts.take(k + 1).drop_last() =~= texts.take(k as int));
                assert(texts.take(k + 1).last() == line@.subrange(a as int, b as int));
                match parse_chars(line, a, b) {
                    Some(id) => {
                        let link = Link {
                            kind: lk,
                            id,
                            loc: Location { file: f.display.clone(), section: copy_opt(section), line: lineno },
                        };
                        let ghost before = out@.links;
                        out.links.push(link);
                        assert(out@.links =~= before.push(link@));
                    },
                    None => {},
                }
                k = k + 1;
            }
            assert(texts.take(ids@.len() as int) =~= texts);
            record.has_annotation = true;
        },
        LineKind::Malformed => {
            let ghost before = out@.malformed;
            out.malformed.push(
                Malformed { loc: Location { file: f.display.clone(), section: copy_opt(section), line: lineno } },
            );
            assert(out@.malformed =~= before.push(LocView { file, section: st.section, line: lineno as int }));
            record.has_content = true;
        },
        LineKind::Heading { from, to } => {
            let title = string_of(line, from, to);
            let finished = SectionRecord {
                loc: Location { file: record.loc.file.clone(), section: copy_opt(&record.loc.section), line: record.loc.line },
                has_content: record.has_content,
                has_annotation: record.has_annotation,
            };
            let ghost before = out@.sections;
            out.sections.push(finished);
            assert(out@.sections =~= before.push(open_record(file, st)));
            let title2 = title.clone();
            *record = SectionRecord {
                loc: Location { file: f.display.clone(), section: Some(title), line: lineno },
                has_content: false,
                has_annotation: false,
            };
            *section = Some(title2);
        },
        LineKind::Other { blank } => {
            if !blank {
                record.has_content = true;
            }
        },
        LineKind::Fence => {},
    }
}

} // verus!
