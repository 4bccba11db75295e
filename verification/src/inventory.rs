//! Inventory validation and current-rev arithmetic.
use vstd::prelude::*;
use crate::id::{id_text, key_text, spec_parse_id, ReqId};
use crate::text::{
    chars_of, compare_chars, is_blank, is_blank_exec, lemma_seq_lt_irreflexive, lemma_seq_lt_total,
    lemma_seq_lt_transitive, lines_exec, push_dec, push_str, seq_lt, seq_views, starts_with_at,
    starts_with_at_exec, str_eq, str_views, text_lines, dec_digits,
};
use crate::yaml::{
    entries_view, field_view, get_field, get_str, lookup, opt_str_view, parse_yaml, str_field, yaml_entries, NodeView, YamlEntry,
    YamlNode,
};

verus! {

#[derive(Debug, Clone, Copy, PartialEq, Eq, Structural)]
pub enum Status {
    Extracted,
    Assumed,
    Confirmed,
    Disputed,
    Retired,
}

pub open spec fn spec_status(s: Seq<char>) -> Option<Status> {
    if s == "extracted"@ {
        Some(Status::Extracted)
    } else if s == "assumed"@ {
        Some(Status::Assumed)
    } else if s == "confirmed"@ {
        Some(Status::Confirmed)
    } else if s == "disputed"@ {
        Some(Status::Disputed)
    } else if s == "retired"@ {
        Some(Status::Retired)
    } else {
        None
    }
}

pub open spec fn counts_in_denominator(s: Status) -> bool {
    s == Status::Confirmed || s == Status::Assumed
}

impl Status {
    /// `extracted | assumed | confirmed | disputed | retired`.
    ///
    /// Covers: inv~status-set~1
    pub fn parse(s: &str) -> (r: Option<Status>)
        ensures
            r == spec_status(s@),
    {
        if str_eq(s, "extracted") {
            Some(Status::Extracted)
        } else if str_eq(s, "assumed") {
            Some(Status::Assumed)
        } else if str_eq(s, "confirmed") {
            Some(Status::Confirmed)
        } else if str_eq(s, "disputed") {
            Some(Status::Disputed)
        } else if str_eq(s, "retired") {
            Some(Status::Retired)
        } else {
            None
        }
    }

    /// `confirmed` and `assumed` count; `extracted`/`disputed` are in flight
    /// and `retired` is gone.
    ///
    /// Covers: inv~coverage-denominator~2
    pub fn in_denominator(self) -> (r: bool)
        ensures
            r == counts_in_denominator(self),
    {
        self == Status::Confirmed || self == Status::Assumed
    }
}

#[derive(Debug, Clone, Copy, PartialEq, Eq, Structural)]
pub enum Rating {
    H,
    M,
    L,
}

pub open spec fn spec_rating(s: Seq<char>) -> Option<Rating> {
    if s == "H"@ {
        Some(Rating::H)
    } else if s == "M"@ {
        Some(Rating::M)
    } else if s == "L"@ {
        Some(Rating::L)
    } else {
        None
    }
}

pub open spec fn rating_text(r: Rating) -> Seq<char> {
    match r {
        Rating::H => "H"@,
        Rating::M => "M"@,
        Rating::L => "L"@,
    }
}

impl Rating {
    /// `H` | `M` | `L`.
    pub fn parse(s: &str) -> (r: Option<Rating>)
        ensures
            r == spec_rating(s@),
    {
        if str_eq(s, "H") {
            Some(Rating::H)
        } else if str_eq(s, "M") {
            Some(Rating::M)
        } else if str_eq(s, "L") {
            Some(Rating::L)
        } else {
            None
        }
    }

    pub fn as_str(self) -> (r: &'static str)
        ensures
            r@ == rating_text(self),
    {
        match self {
            Rating::H => "H",
            Rating::M => "M",
            Rating::L => "L",
        }
    }
}

#[derive(Debug, Clone)]
pub struct Item {
    pub id: ReqId,
    pub status: Status,
    /// `[value, risk]`, each H|M|L.
    pub rating: Option<Vec<Rating>>,
    pub owner: Option<String>,
    pub file: String,
}

/// The value component of a rating: its first element.
pub open spec fn spec_rating_value(rating: Option<Vec<Rating>>) -> Option<Rating> {
    match rating {
        Some(v) => if v@.len() > 0 {
            Some(v@[0])
        } else {
            None
        },
        None => None,
    }
}

impl Item {
    /// The *value* component, which drives by-rating severity.
    pub fn rating_value(&self) -> (r: Option<Rating>)
        ensures
            r == spec_rating_value(self.rating),
    {
        match &self.rating {
            Some(v) => if v.len() > 0 {
                Some(v[0])
            } else {
                None
            },
            None => None,
        }
    }

    /// The rating as strings, e.g. `["H", "M"]`.
    pub fn rating_strings(&self) -> (r: Option<Vec<String>>)
        ensures
            match self.rating {
                Some(v) => r matches Some(s) && str_views(s@) == v@.map_values(|x: Rating| rating_text(x)),
                None => r is None,
            },
    {
        match &self.rating {
            Some(v) => {
                let mut out: Vec<String> = Vec::new();
                let mut i: usize = 0;
                while i < v.len()
                    invariant
                        i <= v@.len(),
                        out@.len() == i,
                        str_views(out@) == v@.take(i as int).map_values(|x: Rating| rating_text(x)),
                    decreases v.len() - i,
                {
                    let s = String::from_str(v[i].as_str());
                    let ghost before = out@;
                    out.push(s);
                    assert forall|j: int| 0 <= j < i + 1 implies #[trigger] str_views(out@)[j]
                        == v@.take(i + 1).map_values(|x: Rating| rating_text(x))[j] by {
                        if j < i {
                            assert(str_views(before)[j] == v@.take(i as int).map_values(
                                |x: Rating| rating_text(x),
                            )[j]);
                        }
                    }
                    assert(str_views(out@) =~= v@.take(i + 1).map_values(|x: Rating| rating_text(x)));
                    i = i + 1;
                }
                assert(v@.take(v@.len() as int) =~= v@);
                Some(out)
            },
            None => None,
        }
    }
}

// ---------------------------------------------------------------------------
// Where an ID is written

/// `str::contains`.
pub open spec fn contains_text(l: Seq<char>, n: Seq<char>) -> bool {
    exists|k: int| starts_with_at(l, k, n)
}

/// The 1-based number of the first line at or after `i` that contains
/// `needle`, or 0 when none does.
pub open spec fn find_from(ls: Seq<Seq<char>>, needle: Seq<char>, i: int) -> int
    decreases ls.len() - i,
{
    if i < 0 || i >= ls.len() {
        0
    } else if contains_text(ls[i], needle) {
        i + 1
    } else {
        find_from(ls, needle, i + 1)
    }
}

/// The 1-based number of the first line of `text` that contains `needle`, or
/// 0 when none does.
pub open spec fn spec_find_line(text: Seq<char>, needle: Seq<char>) -> int {
    find_from(text_lines(text), needle, 0)
}

fn contains_exec(l: &Vec<char>, n: &Vec<char>) -> (r: bool)
    ensures
        r == contains_text(l@, n@),
{
    if n.len() > l.len() {
        return false;
    }
    let last = l.len() - n.len();
    let mut k: usize = 0;
    while k < last
        invariant
            n@.len() <= l@.len(),
            last == l@.len() - n@.len(),
            k <= last,
            forall|m: int| 0 <= m < k ==> !starts_with_at(l@, m, n@),
        decreases last - k,
    {
        if starts_with_at_exec(l, k, n) {
            return true;
        }
        k = k + 1;
    }
    if starts_with_at_exec(l, last, n) {
        return true;
    }
    true_if_none(l, n, last)
}

#[inline(always)]
fn true_if_none(l: &Vec<char>, n: &Vec<char>, k: usize) -> (r: bool)
    requires
        n@.len() <= l@.len(),
        k == l@.len() - n@.len(),
        forall|m: int| 0 <= m <= k ==> !starts_with_at(l@, m, n@),
    ensures
        r == contains_text(l@, n@),
{
    proof {
        assert forall|m: int| !starts_with_at(l@, m, n@) by {
            if 0 <= m <= k {
            }
        }
    }
    false
}

/// The 1-based number of the first line of `text` containing `needle`, or 0.
pub fn find_line(text: &str, needle: &str) -> (r: usize)
    ensures
        r == spec_find_line(text@, needle@),
{
    let t = chars_of(text);
    let n = chars_of(needle);
    let lines = lines_exec(&t);
    let ghost ls = text_lines(text@);
    let mut i: usize = 0;
    while i < lines.len()
        invariant
            i <= lines@.len(),
            seq_views(lines@) == ls,
            ls == text_lines(text@),
            n@ == needle@,
            find_from(ls, needle@, 0) == find_from(ls, needle@, i as int),
        decreases lines.len() - i,
    {
        assert(lines@[i as int]@ == ls[i as int]);
        if contains_exec(&lines[i], &n) {
            return i + 1;
        }
        i = i + 1;
    }
    0
}

// ---------------------------------------------------------------------------
// Errors

#[derive(Debug, Clone, Copy, PartialEq, Eq, Structural)]
pub enum InvErrorKind {
    Yaml,
    NotMapping,
    MissingId,
    InvalidId,
    MissingStatus,
    InvalidStatus,
    RatingShape,
    InvalidRating,
    RatingNotList,
    Duplicate,
}

/// An inventory that cannot be used: the run is unsound (exit 2). `id` is
/// the offending ID text; `value` the offending status or rating, or the YAML
/// parser's message.
#[derive(Debug, Clone)]
pub struct InventoryError {
    pub kind: InvErrorKind,
    pub file: String,
    pub line: usize,
    pub id: String,
    pub value: String,
}

pub struct InvErrView {
    pub kind: InvErrorKind,
    pub file: Seq<char>,
    pub line: int,
    pub id: Seq<char>,
    pub value: Seq<char>,
}

impl View for InventoryError {
    type V = InvErrView;

    open spec fn view(&self) -> InvErrView {
        InvErrView { kind: self.kind, file: self.file@, line: self.line as int, id: self.id@, value: self.value@ }
    }
}

pub open spec fn inv_err(kind: InvErrorKind, file: Seq<char>, line: int, id: Seq<char>, value: Seq<char>) -> InvErrView {
    InvErrView { kind, file, line, id, value }
}

impl InventoryError {
    pub open spec fn spec_message(&self) -> Seq<char> {
        let at = self.file@ + ":"@ + dec_digits(self.line as nat) + ": "@;
        match self.kind {
            InvErrorKind::Yaml => "parsing inventory "@ + self.file@ + ": "@ + self.value@,
            InvErrorKind::NotMapping => self.file@ + ": inventory entries must be mappings"@,
            InvErrorKind::MissingId => self.file@ + ": inventory entry missing required `id`"@,
            InvErrorKind::InvalidId => at + "invalid requirement ID `"@ + self.id@ + "`"@,
            InvErrorKind::MissingStatus => at + "item `"@ + self.id@ + "` missing required `status`"@,
            InvErrorKind::InvalidStatus => at + "item `"@ + self.id@ + "` has invalid status `"@
                + self.value@ + "`"@,
            InvErrorKind::RatingShape => at + "item `"@ + self.id@
                + "` rating must be [value] or [value, risk]"@,
            InvErrorKind::InvalidRating => at + "item `"@ + self.id@ + "` has invalid rating `"@
                + self.value@ + "` (want H|M|L)"@,
            InvErrorKind::RatingNotList => at + "item `"@ + self.id@ + "` rating must be a list"@,
            InvErrorKind::Duplicate => "duplicate ID `"@ + self.id@ + "` in "@ + self.file@
                + ": same type~slug and rev appears twice"@,
        }
    }

    /// The error as the tool reports it: file and line, the offending ID.
    pub fn message(&self) -> (m: String)
        ensures
            m@ == self.spec_message(),
    {
        let mut at = self.file.clone();
        push_str(&mut at, ":");
        push_dec(&mut at, self.line as u64);
        push_str(&mut at, ": ");
        let mut m = String::new();
        match self.kind {
            InvErrorKind::Yaml => {
                push_str(&mut m, "parsing inventory ");
                push_str(&mut m, self.file.as_str());
                push_str(&mut m, ": ");
                push_str(&mut m, self.value.as_str());
            },
            InvErrorKind::NotMapping => {
                push_str(&mut m, self.file.as_str());
                push_str(&mut m, ": inventory entries must be mappings");
            },
            InvErrorKind::MissingId => {
                push_str(&mut m, self.file.as_str());
                push_str(&mut m, ": inventory entry missing required `id`");
            },
            InvErrorKind::InvalidId => {
                push_str(&mut m, at.as_str());
                push_str(&mut m, "invalid requirement ID `");
                push_str(&mut m, self.id.as_str());
                push_str(&mut m, "`");
            },
            InvErrorKind::MissingStatus => {
                push_str(&mut m, at.as_str());
                push_str(&mut m, "item `");
                push_str(&mut m, self.id.as_str());
                push_str(&mut m, "` missing required `status`");
            },
            InvErrorKind::InvalidStatus => {
                push_str(&mut m, at.as_str());
                push_str(&mut m, "item `");
                push_str(&mut m, self.id.as_str());
                push_str(&mut m, "` has invalid status `");
                push_str(&mut m, self.value.as_str());
                push_str(&mut m, "`");
            },
            InvErrorKind::RatingShape => {
                push_str(&mut m, at.as_str());
                push_str(&mut m, "item `");
                push_str(&mut m, self.id.as_str());
                push_str(&mut m, "` rating must be [value] or [value, risk]");
            },
            InvErrorKind::InvalidRating => {
                push_str(&mut m, at.as_str());
                push_str(&mut m, "item `");
                push_str(&mut m, self.id.as_str());
                push_str(&mut m, "` has invalid rating `");
                push_str(&mut m, self.value.as_str());
                push_str(&mut m, "` (want H|M|L)");
            },
            InvErrorKind::RatingNotList => {
                push_str(&mut m, at.as_str());
                push_str(&mut m, "item `");
                push_str(&mut m, self.id.as_str());
                push_str(&mut m, "` rating must be a list");
            },
            InvErrorKind::Duplicate => {
                push_str(&mut m, "duplicate ID `");
                push_str(&mut m, self.id.as_str());
                push_str(&mut m, "` in ");
                push_str(&mut m, self.file.as_str());
                push_str(&mut m, ": same type~slug and rev appears twice");
            },
        }
        assert(m@ =~= self.spec_message());
        m
    }
}

// ---------------------------------------------------------------------------
// One inventory entry

pub type Fields = Seq<(Option<Seq<char>>, NodeView)>;

/// A rating list item's text (`as_str().unwrap_or_default()`).
pub open spec fn item_text(o: Option<Seq<char>>) -> Seq<char> {
    match o {
        Some(s) => s,
        None => Seq::empty(),
    }
}

/// What is wrong with the `rating` field, if anything.
pub open spec fn rating_error(r: Option<NodeView>, file: Seq<char>, line: int, id: Seq<char>) -> Option<InvErrView> {
    match r {
        None => None,
        Some(NodeView::Null) => None,
        Some(NodeView::List(items)) => if items.len() == 0 || items.len() > 2 {
            Some(inv_err(InvErrorKind::RatingShape, file, line, id, Seq::empty()))
        } else if spec_rating(item_text(items[0])) is None {
            Some(inv_err(InvErrorKind::InvalidRating, file, line, id, item_text(items[0])))
        } else if items.len() == 2 && spec_rating(item_text(items[1])) is None {
            Some(inv_err(InvErrorKind::InvalidRating, file, line, id, item_text(items[1])))
        } else {
            None
        },
        Some(_) => Some(inv_err(InvErrorKind::RatingNotList, file, line, id, Seq::empty())),
    }
}

/// What is wrong with an entry, checked in order: mapping, `id` present and
/// valid, `status` present and valid, `rating` a list of one or two H|M|L.
/// Errors after the ID carry the line the ID is written on.
pub open spec fn item_error(e: Option<Fields>, file: Seq<char>, text: Seq<char>) -> Option<InvErrView> {
    match e {
        None => Some(inv_err(InvErrorKind::NotMapping, file, 0, Seq::empty(), Seq::empty())),
        Some(fs) => match str_field(fs, "id"@) {
            None => Some(inv_err(InvErrorKind::MissingId, file, 0, Seq::empty(), Seq::empty())),
            Some(ids) => {
                let line = spec_find_line(text, ids);
                match spec_parse_id(ids) {
                    None => Some(inv_err(InvErrorKind::InvalidId, file, line, ids, Seq::empty())),
                    Some((t, sl, rev)) => {
                        let idt = id_text(t, sl, rev);
                        match str_field(fs, "status"@) {
                            None => Some(
                                inv_err(InvErrorKind::MissingStatus, file, line, idt, Seq::empty()),
                            ),
                            Some(st) => if spec_status(st) is None {
                                Some(inv_err(InvErrorKind::InvalidStatus, file, line, idt, st))
                            } else {
                                rating_error(lookup(fs, "rating"@), file, line, idt)
                            },
                        }
                    },
                }
            },
        },
    }
}

/// The ratings an entry's `rating` field gives.
pub open spec fn spec_ratings(r: Option<NodeView>) -> Option<Seq<Rating>> {
    match r {
        Some(NodeView::List(items)) => Some(items.map_values(|o: Option<Seq<char>>| spec_rating(item_text(o))->0)),
        _ => None,
    }
}

/// `it` is the item that a valid entry describes.
pub open spec fn item_matches(e: Option<Fields>, file: Seq<char>, it: Item) -> bool {
    let fs = e->0;
    let (t, sl, rev) = spec_parse_id(str_field(fs, "id"@)->0)->0;
    &&& it.id.ty@ == t
    &&& it.id.slug@ == sl
    &&& it.id.rev == rev
    &&& it.status == spec_status(str_field(fs, "status"@)->0)->0
    &&& match spec_ratings(lookup(fs, "rating"@)) {
        Some(rs) => it.rating matches Some(v) && v@ == rs,
        None => it.rating is None,
    }
    &&& opt_str_view(it.owner) == str_field(fs, "owner"@)
    &&& it.file@ == file
}

pub open spec fn fields_of(fs: Seq<(Option<String>, YamlNode)>) -> Fields {
    Seq::new(fs.len(), |i: int| field_view(fs[i]))
}

/// Ratings and their texts correspond one to one: each rating's text parses
/// back to it, and a text parses only to the rating it spells. Only `H`
/// parses to H.
///
/// Covers: inv~rating~1
pub proof fn law_rating_text_round_trip(r: Rating, s: Seq<char>)
    ensures
        spec_rating(rating_text(r)) == Some(r),
        spec_rating(s) matches Some(x) ==> rating_text(x) == s,
        spec_rating(s) == Some(Rating::H) <==> s == seq!['H'],
        spec_rating(s) is Some <==> (s == seq!['H'] || s == seq!['M'] || s == seq!['L']),
{
    reveal_strlit("H");
    reveal_strlit("M");
    reveal_strlit("L");
    assert("H"@ =~= seq!['H']);
    assert("M"@ =~= seq!['M']);
    assert("L"@ =~= seq!['L']);
    assert(seq!['M'] != seq!['H']) by {
        assert(seq!['M'][0] != seq!['H'][0]);
    }
    assert(seq!['L'] != seq!['H']) by {
        assert(seq!['L'][0] != seq!['H'][0]);
    }
    assert(seq!['L'] != seq!['M']) by {
        assert(seq!['L'][0] != seq!['M'][0]);
    }
}

/// A valid entry's item carries its ratings as written: one per list item,
/// each with the item's text, the first one (the value) H exactly when the
/// first text is `H`; no rating when the field is absent or null.
///
/// Covers: inv~rating~1
pub proof fn law_item_ratings_as_written(e: Option<Fields>, file: Seq<char>, text: Seq<char>, it: Item)
    requires
        item_error(e, file, text) is None,
        item_matches(e, file, it),
    ensures
        match lookup(e->0, "rating"@) {
            Some(NodeView::List(texts)) => it.rating matches Some(v) && v@.len() == texts.len() && (forall|k: int|
                0 <= k < v@.len() ==> rating_text(#[trigger] v@[k]) == item_text(texts[k])) && (v@[0] == Rating::H
                <==> item_text(texts[0]) == seq!['H']),
            _ => it.rating is None,
        },
{
    let fs = e->0;
    match lookup(fs, "rating"@) {
        Some(NodeView::List(texts)) => {
            let v = it.rating->0;
            assert(v@ == texts.map_values(|o: Option<Seq<char>>| spec_rating(item_text(o))->0));
            assert forall|k: int| 0 <= k < texts.len() implies spec_rating(item_text(#[trigger] texts[k])) is Some by {
                assert(k == 0 || k == 1);
            }
            assert forall|k: int| 0 <= k < v@.len() implies rating_text(#[trigger] v@[k]) == item_text(texts[k]) by {
                assert(spec_rating(item_text(texts[k])) is Some);
                law_rating_text_round_trip(v@[k], item_text(texts[k]));
            }
            law_rating_text_round_trip(v@[0], item_text(texts[0]));
        },
        _ => {},
    }
}

fn err_at(kind: InvErrorKind, file: &str, line: usize, id: String, value: String) -> (e: InventoryError)
    ensures
        e@ == inv_err(kind, file@, line as int, id@, value@),
{
    InventoryError { kind, file: String::from_str(file), line, id, value }
}

fn parse_rating(r: Option<&YamlNode>, file: &str, line: usize, id: &String) -> (res: Result<Option<Vec<Rating>>, InventoryError>)
    ensures
        ({
            let rv = match r {
                Some(n) => Some(n@),
                None => None,
            };
            match res {
                Ok(v) => rating_error(rv, file@, line as int, id@) is None && match spec_ratings(rv) {
                    Some(rs) => v matches Some(v) && v@ == rs,
                    None => v is None,
                },
                Err(e) => rating_error(rv, file@, line as int, id@) == Some(e@),
            }
        }),
{
    match r {
        None => Ok(None),
        Some(YamlNode::Null) => Ok(None),
        Some(YamlNode::List(items)) => {
            let ghost iv = Seq::new(items@.len(), |i: int| opt_str_view(items@[i]));
            if items.len() == 0 || items.len() > 2 {
                return Err(err_at(InvErrorKind::RatingShape, file, line, id.clone(), String::new()));
            }
            let mut out: Vec<Rating> = Vec::new();
            let mut i: usize = 0;
            while i < items.len()
                invariant
                    1 <= items@.len() <= 2,
                    i <= items@.len(),
                    match r {
                        Some(n) => n@ == NodeView::List(iv),
                        None => false,
                    },
                    iv == Seq::new(items@.len(), |i: int| opt_str_view(items@[i])),
                    forall|j: int| 0 <= j < i ==> spec_rating(item_text(#[trigger] iv[j])) is Some,
                    out@ == iv.take(i as int).map_values(|o: Option<Seq<char>>| spec_rating(item_text(o))->0),
                decreases items.len() - i,
            {
                let s: String = match &items[i] {
                    Some(s) => s.clone(),
                    None => String::new(),
                };
                assert(s@ == item_text(iv[i as int]));
                match Rating::parse(s.as_str()) {
                    Some(x) => {
                        out.push(x);
                        assert(iv.take(i + 1).map_values(|o: Option<Seq<char>>| spec_rating(item_text(o))->0)
                            =~= iv.take(i as int).map_values(|o: Option<Seq<char>>| spec_rating(item_text(o))->0).push(x));
                    },
                    None => {
                        return Err(err_at(InvErrorKind::InvalidRating, file, line, id.clone(), s));
                    },
                }
                i = i + 1;
            }
            assert(iv.take(i as int) =~= iv);
            Ok(Some(out))
        },
        Some(_) => Err(err_at(InvErrorKind::RatingNotList, file, line, id.clone(), String::new())),
    }
}

/// Validates one inventory entry of `file`, whose text is `text`.
pub fn parse_item(e: &YamlEntry, file: &str, text: &str) -> (r: Result<Item, InventoryError>)
    ensures
        r is Ok <==> item_error(e@, file@, text@) is None,
        r matches Err(err) ==> item_error(e@, file@, text@) == Some(err@),
        r matches Ok(it) ==> item_matches(e@, file@, it),
{
    let fields = match e {
        YamlEntry::Mapping(fs) => fs,
        YamlEntry::NotMapping => {
            return Err(err_at(InvErrorKind::NotMapping, file, 0, String::new(), String::new()));
        },
    };
    assert(e@ == Some(fields_of(fields@)));
    let id_str = match get_str(fields, "id") {
        Some(s) => s,
        None => {
            return Err(err_at(InvErrorKind::MissingId, file, 0, String::new(), String::new()));
        },
    };
    let line = find_line(text, id_str.as_str());
    let id = match ReqId::parse(id_str.as_str()) {
        Some(id) => id,
        None => {
            return Err(err_at(InvErrorKind::InvalidId, file, line, id_str, String::new()));
        },
    };
    let idt = id.to_text();
    let status_str = match get_str(fields, "status") {
        Some(s) => s,
        None => {
            return Err(err_at(InvErrorKind::MissingStatus, file, line, idt, String::new()));
        },
    };
    let status = match Status::parse(status_str.as_str()) {
        Some(s) => s,
        None => {
            return Err(err_at(InvErrorKind::InvalidStatus, file, line, idt, status_str));
        },
    };
    let rating = parse_rating(get_field(fields, "rating"), file, line, &idt)?;
    let owner = get_str(fields, "owner");
    Ok(Item { id, status, rating, owner, file: String::from_str(file) })
}

} // verus!

verus! {

// ---------------------------------------------------------------------------
// Loading

/// One inventory file: its display path, its text, and its YAML entries (or
/// the YAML parser's message when the text is not a list of entries).
#[derive(Debug)]
pub struct InventorySource {
    pub file: String,
    pub text: String,
    pub docs: Result<Vec<YamlEntry>, String>,
}

/// What loading meets, in order: a file's YAML error or one of its entries.
pub enum Event {
    YamlError { file: Seq<char>, message: Seq<char> },
    Entry { entry: Option<Fields>, file: Seq<char>, text: Seq<char> },
}

/// A blank file contributes nothing; otherwise its YAML error or entries.
pub open spec fn source_events(s: InventorySource) -> Seq<Event> {
    if is_blank(s.text@) {
        Seq::empty()
    } else {
        match s.docs {
            Err(m) => seq![Event::YamlError { file: s.file@, message: m@ }],
            Ok(v) => Seq::new(v@.len(), |i: int| Event::Entry { entry: v@[i]@, file: s.file@, text: s.text@ }),
        }
    }
}

/// What loading meets in one file, given what its text parses to.
pub open spec fn file_events(file: Seq<char>, text: Seq<char>, docs: Result<Seq<Option<Fields>>, Seq<char>>) -> Seq<Event> {
    if is_blank(text) {
        Seq::empty()
    } else {
        match docs {
            Err(m) => seq![Event::YamlError { file, message: m }],
            Ok(es) => Seq::new(es.len(), |i: int| Event::Entry { entry: es[i], file, text }),
        }
    }
}

/// What loading meets in files given as (path, text) pairs, in order.
pub open spec fn text_events(files: Seq<(String, String)>) -> Seq<Event>
    decreases files.len(),
{
    if files.len() == 0 {
        Seq::empty()
    } else {
        let (f, t) = files.last();
        text_events(files.drop_last()) + file_events(f@, t@, yaml_entries(t@))
    }
}

pub open spec fn events(srcs: Seq<InventorySource>) -> Seq<Event>
    decreases srcs.len(),
{
    if srcs.len() == 0 {
        Seq::empty()
    } else {
        events(srcs.drop_last()) + source_events(srcs.last())
    }
}

pub open spec fn event_error(ev: Event) -> Option<InvErrView> {
    match ev {
        Event::YamlError { file, message } => Some(inv_err(InvErrorKind::Yaml, file, 0, Seq::empty(), message)),
        Event::Entry { entry, file, text } => item_error(entry, file, text),
    }
}

/// The first error met, in order.
pub open spec fn first_error(evs: Seq<Event>) -> Option<InvErrView>
    decreases evs.len(),
{
    if evs.len() == 0 {
        None
    } else {
        match first_error(evs.drop_last()) {
            Some(e) => Some(e),
            None => event_error(evs.last()),
        }
    }
}

/// The ID of a valid entry: type, slug, rev.
pub open spec fn event_id(ev: Event) -> (Seq<char>, Seq<char>, u32) {
    match ev {
        Event::Entry { entry, .. } => spec_parse_id(str_field(entry->0, "id"@)->0)->0,
        _ => (Seq::empty(), Seq::empty(), 0),
    }
}

pub open spec fn event_file(ev: Event) -> Seq<char> {
    match ev {
        Event::Entry { file, .. } => file,
        Event::YamlError { file, .. } => file,
    }
}

pub open spec fn key_rev_of(id: (Seq<char>, Seq<char>, u32)) -> (Seq<char>, u32) {
    (key_text(id.0, id.1), id.2)
}

/// The first index whose (key, rev) an earlier index already has.
pub open spec fn first_dup_kr(kr: Seq<(Seq<char>, u32)>) -> Option<int>
    decreases kr.len(),
{
    if kr.len() == 0 {
        None
    } else {
        match first_dup_kr(kr.drop_last()) {
            Some(d) => Some(d),
            None => if exists|j: int| 0 <= j < kr.len() - 1 && kr[j] == kr.last() {
                Some(kr.len() - 1)
            } else {
                None
            },
        }
    }
}

proof fn lemma_first_dup_range(kr: Seq<(Seq<char>, u32)>)
    ensures
        first_dup_kr(kr) matches Some(d) ==> 0 <= d < kr.len(),
    decreases kr.len(),
{
    if kr.len() > 0 {
        lemma_first_dup_range(kr.drop_last());
    }
}

proof fn lemma_first_dup_prefix(kr: Seq<(Seq<char>, u32)>, n: int)
    requires
        0 <= n <= kr.len(),
        first_dup_kr(kr.take(n)) is Some,
    ensures
        first_dup_kr(kr) == first_dup_kr(kr.take(n)),
    decreases kr.len(),
{
    if n < kr.len() {
        assert(kr.drop_last().take(n) =~= kr.take(n));
        lemma_first_dup_prefix(kr.drop_last(), n);
    } else {
        assert(kr.take(n) =~= kr);
    }
}

/// The first entry whose `type~slug` and rev an earlier entry already has.
pub open spec fn first_dup(evs: Seq<Event>) -> Option<int> {
    first_dup_kr(events_kr(evs))
}

pub open spec fn events_kr(evs: Seq<Event>) -> Seq<(Seq<char>, u32)> {
    evs.map_values(|e: Event| key_rev_of(event_id(e)))
}

pub open spec fn dup_error(ev: Event) -> InvErrView {
    let (t, sl, rev) = event_id(ev);
    inv_err(InvErrorKind::Duplicate, event_file(ev), 0, id_text(t, sl, rev), Seq::empty())
}

/// The item an event yields.
pub open spec fn event_item(ev: Event, it: Item) -> bool {
    match ev {
        Event::Entry { entry, file, .. } => item_matches(entry, file, it),
        _ => false,
    }
}

proof fn lemma_first_error_prefix(evs: Seq<Event>, n: int)
    requires
        0 <= n <= evs.len(),
        first_error(evs.take(n)) is Some,
    ensures
        first_error(evs) == first_error(evs.take(n)),
    decreases evs.len(),
{
    if n < evs.len() {
        assert(evs.drop_last().take(n) =~= evs.take(n));
        lemma_first_error_prefix(evs.drop_last(), n);
    } else {
        assert(evs.take(n) =~= evs);
    }
}

proof fn lemma_events_prefix(srcs: Seq<InventorySource>, i: int)
    requires
        0 <= i <= srcs.len(),
    ensures
        events(srcs.take(i)).len() <= events(srcs).len(),
        events(srcs).take(events(srcs.take(i)).len() as int) == events(srcs.take(i)),
    decreases srcs.len(),
{
    if i < srcs.len() {
        assert(srcs.drop_last().take(i) =~= srcs.take(i));
        lemma_events_prefix(srcs.drop_last(), i);
        let a = events(srcs.drop_last());
        assert(events(srcs) == a + source_events(srcs.last()));
        assert((a + source_events(srcs.last())).take(events(srcs.take(i)).len() as int) =~= a.take(
            events(srcs.take(i)).len() as int,
        ));
    } else {
        assert(srcs.take(i) =~= srcs);
    }
}

/// Validates every entry of every file, in order; stops at the first error.
#[verifier::rlimit(60)]
fn collect_items(srcs: &[InventorySource]) -> (r: Result<Vec<Item>, InventoryError>)
    ensures
        match first_error(events(srcs@)) {
            Some(e) => r matches Err(x) && x@ == e,
            None => r matches Ok(items) && items@.len() == events(srcs@).len() && forall|k: int|
                0 <= k < items@.len() ==> event_item(#[trigger] events(srcs@)[k], items@[k]),
        },
{
    let mut items: Vec<Item> = Vec::new();
    let mut i: usize = 0;
    assert(srcs@.take(0) =~= Seq::<InventorySource>::empty());
    while i < srcs.len()
        invariant
            i <= srcs@.len(),
            first_error(events(srcs@.take(i as int))) is None,
            items@.len() == events(srcs@.take(i as int)).len(),
            forall|k: int| 0 <= k < items@.len() ==> event_item(#[trigger] events(srcs@.take(i as int))[k], items@[k]),
        decreases srcs.len() - i,
    {
        let src = &srcs[i];
        let ghost pre = events(srcs@.take(i as int));
        let ghost se = source_events(srcs@[i as int]);
        assert(srcs@.take(i + 1).drop_last() =~= srcs@.take(i as int));
        assert(events(srcs@.take(i + 1)) == pre + se);
        proof {
            lemma_events_prefix(srcs@, i + 1);
        }
        let text = chars_of(src.text.as_str());
        if crate::text::is_blank_exec(&text) {
            assert(se =~= Seq::<Event>::empty());
            assert(pre + se =~= pre);
        } else {
            match &src.docs {
                Err(m) => {
                    let e = InventoryError {
                        kind: InvErrorKind::Yaml,
                        file: src.file.clone(),
                        line: 0,
                        id: String::new(),
                        value: m.clone(),
                    };
                    proof {
                        assert((pre + se).drop_last() =~= pre);
                        lemma_first_error_prefix(events(srcs@), events(srcs@.take(i + 1)).len() as int);
                    }
                    return Err(e);
                },
                Ok(entries) => {
                    let mut j: usize = 0;
                    assert(pre + se.take(0) =~= pre);
                    while j < entries.len()
                        invariant
                            j <= entries@.len(),
                            i < srcs@.len(),
                            events(srcs@.take(i + 1)).len() <= events(srcs@).len(),
                            se == source_events(srcs@[i as int]),
                            !is_blank(srcs@[i as int].text@),
                            srcs@[i as int].docs == Ok::<Vec<YamlEntry>, String>(*entries),
                            src == &srcs@[i as int],
                            se.len() == entries@.len(),
                            events(srcs@).take(events(srcs@.take(i + 1)).len() as int) == pre + se,
                            events(srcs@.take(i + 1)) == pre + se,
                            first_error(pre + se.take(j as int)) is None,
                            items@.len() == pre.len() + j,
                            forall|k: int| 0 <= k < items@.len() ==> event_item(#[trigger] (pre + se)[k], items@[k]),
                        decreases entries.len() - j,
                    {
                        let ghost ev = se[j as int];
                        assert((pre + se.take(j + 1)).drop_last() =~= pre + se.take(j as int));
                        assert((pre + se.take(j + 1)).last() == ev);
                        match parse_item(&entries[j], src.file.as_str(), src.text.as_str()) {
                            Ok(it) => {
                                items.push(it);
                                assert(event_item((pre + se)[pre.len() + j], it));
                            },
                            Err(e) => {
                                proof {
                                    assert(first_error(pre + se.take(j + 1)) == Some(e@));
                                    let n = pre.len() + j + 1;
                                    let m = events(srcs@.take(i + 1)).len() as int;
                                    assert((pre + se).take(n) =~= pre + se.take(j + 1));
                                    assert(events(srcs@).take(m).take(n) =~= events(srcs@).take(n));
                                    assert(events(srcs@).take(n) =~= pre + se.take(j + 1));
                                    lemma_first_error_prefix(events(srcs@), n);
                                }
                                return Err(e);
                            },
                        }
                        j = j + 1;
                    }
                    assert(se.take(entries@.len() as int) =~= se);
                },
            }
        }
        i = i + 1;
    }
    assert(srcs@.take(srcs@.len() as int) =~= srcs@);
    Ok(items)
}

} // verus!

verus! {

// ---------------------------------------------------------------------------
// The inventory and its current revs

pub open spec fn item_key_rev(it: Item) -> (Seq<char>, u32) {
    (it.id.key(), it.id.rev)
}

pub open spec fn items_kr(items: Seq<Item>) -> Seq<(Seq<char>, u32)> {
    items.map_values(|it: Item| item_key_rev(it))
}

/// Among `items[..n]`, `items[x]` is the current rev of `type~slug` `k`:
/// the highest rev, the first such item on a tie.
pub open spec fn is_current_upto(items: Seq<Item>, n: int, k: Seq<char>, x: int) -> bool {
    &&& 0 <= x < n <= items.len()
    &&& items[x].id.key() == k
    &&& forall|j: int|
        0 <= j < n && #[trigger] items[j].id.key() == k ==> (items[j].id.rev
            < items[x].id.rev || (items[j].id.rev == items[x].id.rev && x <= j))
}

/// `items[x]` is the current rev of `type~slug` `k`: the highest rev, the
/// first such item on a tie.
pub open spec fn is_current(items: Seq<Item>, k: Seq<char>, x: int) -> bool {
    is_current_upto(items, items.len() as int, k, x)
}

/// Some item has `type~slug` `k`, at any rev.
pub open spec fn has_key(items: Seq<Item>, k: Seq<char>) -> bool {
    exists|j: int| 0 <= j < items.len() && #[trigger] items[j].id.key() == k
}

/// The `type~slug`s that occur in `items`, at any rev.
pub open spec fn slug_set(items: Seq<Item>) -> Set<Seq<char>> {
    Set::new(|k: Seq<char>| has_key(items, k))
}

/// The index of the current item of `k`.
pub open spec fn current_of(items: Seq<Item>, k: Seq<char>) -> Option<int> {
    if exists|x: int| is_current(items, k, x) {
        Some(choose|x: int| is_current(items, k, x))
    } else {
        None
    }
}

/// There is at most one current item per `type~slug`.
pub proof fn lemma_current_unique(items: Seq<Item>, k: Seq<char>, x: int, y: int)
    requires
        is_current(items, k, x),
        is_current(items, k, y),
    ensures
        x == y,
{
    assert(items[y].id.key() == k);
    assert(items[x].id.key() == k);
}

/// An index of the current items: `keys[i]` is the `type~slug` of item `i`;
/// `current` lists the index of each key's current item, in ascending key
/// order.
#[derive(Debug)]
pub struct CurrentIndex {
    keys: Vec<Vec<char>>,
    current: Vec<usize>,
}

/// The loaded inventory.
#[derive(Debug)]
pub struct Inventory {
    pub items: Vec<Item>,
    pub index: CurrentIndex,
}

pub open spec fn keys_ok(items: Seq<Item>, keys: Seq<Vec<char>>) -> bool {
    &&& keys.len() == items.len()
    &&& forall|i: int| 0 <= i < keys.len() ==> #[trigger] keys[i]@ == items[i].id.key()
}

/// `cur` indexes the current items of `items[..n]`, one per key, in
/// strictly ascending key order.
pub open spec fn current_ok(items: Seq<Item>, keys: Seq<Vec<char>>, cur: Seq<usize>, n: int) -> bool {
    &&& 0 <= n <= items.len()
    &&& forall|a: int| 0 <= a < cur.len() ==> #[trigger] cur[a] < n
    &&& forall|a: int, b: int| 0 <= a < b < cur.len() ==> seq_lt(#[trigger] keys[cur[a] as int]@, #[trigger] keys[cur[b] as int]@)
    &&& forall|a: int| 0 <= a < cur.len() ==> is_current_upto(items, n, keys[#[trigger] cur[a] as int]@, cur[a] as int)
    &&& forall|j: int| 0 <= j < n ==> exists|a: int| 0 <= a < cur.len() && keys[cur[a] as int]@ == #[trigger] keys[j]@
}

impl CurrentIndex {
    /// The index is that of `items`.
    pub closed spec fn indexes(&self, items: Seq<Item>) -> bool {
        &&& keys_ok(items, self.keys@)
        &&& items.len() <= usize::MAX
        &&& current_ok(items, self.keys@, self.current@, items.len() as int)
    }
}

impl Inventory {
    /// The index is that of the items, and no `type~slug` and rev repeats.
    pub open spec fn wf(&self) -> bool {
        &&& self.index.indexes(self.items@)
        &&& first_dup_kr(items_kr(self.items@)) is None
    }
}

fn item_keys(items: &Vec<Item>) -> (keys: Vec<Vec<char>>)
    ensures
        keys_ok(items@, keys@),
{
    let mut keys: Vec<Vec<char>> = Vec::new();
    let mut i: usize = 0;
    while i < items.len()
        invariant
            i <= items@.len(),
            keys@.len() == i,
            forall|k: int| 0 <= k < i ==> #[trigger] keys@[k]@ == items@[k].id.key(),
        decreases items.len() - i,
    {
        let k = items[i].id.slug_key();
        keys.push(chars_of(k.as_str()));
        i = i + 1;
    }
    keys
}

/// The first item whose key and rev an earlier item already has.
#[verifier::rlimit(60)]
fn find_dup(items: &Vec<Item>, keys: &Vec<Vec<char>>) -> (r: Option<usize>)
    requires
        keys_ok(items@, keys@),
    ensures
        match r {
            Some(d) => first_dup_kr(items_kr(items@)) == Some(d as int),
            None => first_dup_kr(items_kr(items@)) is None,
        },
{
    let ghost kr = items_kr(items@);
    let mut i: usize = 0;
    assert(kr.take(0) =~= Seq::<(Seq<char>, u32)>::empty());
    while i < items.len()
        invariant
            i <= items@.len(),
            keys_ok(items@, keys@),
            kr == items_kr(items@),
            first_dup_kr(kr.take(i as int)) is None,
        decreases items.len() - i,
    {
        assert(kr.take(i + 1).drop_last() =~= kr.take(i as int));
        let mut j: usize = 0;
        while j < i
            invariant
                j <= i < items@.len(),
                keys_ok(items@, keys@),
                kr == items_kr(items@),
                first_dup_kr(kr.take(i as int)) is None,
                forall|m: int| 0 <= m < j ==> kr[m] != kr[i as int],
            decreases i - j,
        {
            if items[j].id.rev == items[i].id.rev && crate::text::seq_eq(&keys[j], &keys[i]) {
                proof {
                    assert(keys@[j as int]@ == items@[j as int].id.key());
                    assert(keys@[i as int]@ == items@[i as int].id.key());
                    assert(kr[j as int] == item_key_rev(items@[j as int]));
                    assert(kr[i as int] == item_key_rev(items@[i as int]));
                    assert(kr.take(i + 1)[j as int] == kr.take(i + 1).last());
                    assert(kr.take(i + 1).drop_last() =~= kr.take(i as int));
                    assert(first_dup_kr(kr.take(i + 1)) == Some(i as int));
                    lemma_first_dup_prefix(kr, i + 1);
                }
                return Some(i);
            }
            j = j + 1;
        }
        proof {
            assert forall|m: int| 0 <= m < kr.take(i + 1).len() - 1 implies #[trigger] kr.take(i + 1)[m] != kr.take(i + 1).last() by {
                assert(kr.take(i + 1)[m] == kr[m]);
            }
        }
        i = i + 1;
    }
    assert(kr.take(items@.len() as int) =~= kr);
    None
}

/// Where `k` stands among the current keys: `Ok(p)` at `p`, `Err(p)` would
/// go at `p`.
fn find_pos(keys: &Vec<Vec<char>>, cur: &Vec<usize>, k: &Vec<char>) -> (r: Result<usize, usize>)
    requires
        forall|a: int| 0 <= a < cur@.len() ==> (#[trigger] cur@[a] as int) < keys@.len(),
        forall|a: int, b: int| 0 <= a < b < cur@.len() ==> seq_lt(#[trigger] keys@[cur@[a] as int]@, #[trigger] keys@[cur@[b] as int]@),
    ensures
        match r {
            Ok(p) => p < cur@.len() && keys@[cur@[p as int] as int]@ == k@,
            Err(p) => p <= cur@.len() && (forall|a: int| 0 <= a < p ==> seq_lt(#[trigger] keys@[cur@[a] as int]@, k@))
                && (forall|a: int| p <= a < cur@.len() ==> seq_lt(k@, #[trigger] keys@[cur@[a] as int]@)),
        },
{
    let mut lo: usize = 0;
    let mut hi: usize = cur.len();
    while lo < hi
        invariant
            lo <= hi <= cur@.len(),
            forall|a: int| 0 <= a < cur@.len() ==> (#[trigger] cur@[a] as int) < keys@.len(),
            forall|a: int, b: int| 0 <= a < b < cur@.len() ==> seq_lt(#[trigger] keys@[cur@[a] as int]@, #[trigger] keys@[cur@[b] as int]@),
            forall|a: int| 0 <= a < lo ==> seq_lt(#[trigger] keys@[cur@[a] as int]@, k@),
            forall|a: int| hi <= a < cur@.len() ==> seq_lt(k@, #[trigger] keys@[cur@[a] as int]@),
        decreases hi - lo,
    {
        let mid = lo + (hi - lo) / 2;
        let c = compare_chars(&keys[cur[mid]], k);
        if c == 0 {
            return Ok(mid);
        } else if c < 0 {
            proof {
                assert forall|a: int| 0 <= a < mid + 1 implies seq_lt(#[trigger] keys@[cur@[a] as int]@, k@) by {
                    if a < mid {
                        lemma_seq_lt_transitive(keys@[cur@[a] as int]@, keys@[cur@[mid as int] as int]@, k@);
                    }
                }
            }
            lo = mid + 1;
        } else {
            proof {
                assert forall|a: int| mid <= a < cur@.len() implies seq_lt(k@, #[trigger] keys@[cur@[a] as int]@) by {
                    if a > mid {
                        lemma_seq_lt_transitive(k@, keys@[cur@[mid as int] as int]@, keys@[cur@[a] as int]@);
                    }
                }
            }
            hi = mid;
        }
    }
    Err(lo)
}


#[verifier::rlimit(80)]
proof fn lemma_current_keep(items: Seq<Item>, keys: Seq<Vec<char>>, cur: Seq<usize>, i: int, p: int)
    requires
        keys_ok(items, keys),
        current_ok(items, keys, cur, i),
        0 <= i < items.len(),
        0 <= p < cur.len(),
        keys[cur[p] as int]@ == keys[i]@,
        items[cur[p] as int].id.rev >= items[i].id.rev,
    ensures
        current_ok(items, keys, cur, i + 1),
{
    assert forall|a: int| 0 <= a < cur.len() implies is_current_upto(items, i + 1, keys[#[trigger] cur[a] as int]@, cur[a] as int) by {
        let x = cur[a] as int;
        assert(is_current_upto(items, i, keys[x]@, x));
        assert(keys[x]@ == items[x].id.key());
        assert forall|j: int| 0 <= j < i + 1 && #[trigger] items[j].id.key() == keys[x]@ implies (items[j].id.rev
            < items[x].id.rev || (items[j].id.rev == items[x].id.rev && x <= j)) by {
            if j == i {
                assert(keys[i]@ == items[i].id.key());
                if a != p {
                    if a < p {
                        assert(seq_lt(keys[cur[a] as int]@, keys[cur[p] as int]@));
                    } else {
                        assert(seq_lt(keys[cur[p] as int]@, keys[cur[a] as int]@));
                    }
                    lemma_seq_lt_irreflexive(keys[x]@);
                }
            }
        }
    }
    assert forall|j: int| 0 <= j < i + 1 implies exists|a: int| 0 <= a < cur.len() && keys[cur[a] as int]@ == #[trigger] keys[j]@ by {
        if j == i {
            assert(keys[cur[p] as int]@ == keys[j]@);
        }
    }
}

#[verifier::rlimit(80)]
proof fn lemma_current_replace(items: Seq<Item>, keys: Seq<Vec<char>>, cur: Seq<usize>, i: usize, p: int)
    requires
        keys_ok(items, keys),
        current_ok(items, keys, cur, i as int),
        i < items.len(),
        0 <= p < cur.len(),
        keys[cur[p] as int]@ == keys[i as int]@,
        items[cur[p] as int].id.rev < items[i as int].id.rev,
    ensures
        current_ok(items, keys, cur.update(p, i), i + 1),
{
    let c2 = cur.update(p, i);
    let y = cur[p] as int;
    assert(keys[c2[p] as int]@ == keys[y]@);
    assert forall|a: int| 0 <= a < c2.len() implies #[trigger] c2[a] < i + 1 by {}
    assert forall|a: int, b: int| 0 <= a < b < c2.len() implies seq_lt(#[trigger] keys[c2[a] as int]@, #[trigger] keys[c2[b] as int]@) by {
        assert(seq_lt(keys[cur[a] as int]@, keys[cur[b] as int]@));
        if a == p {
            assert(keys[c2[a] as int]@ == keys[cur[a] as int]@);
        } else {
            assert(c2[a] == cur[a]);
        }
        if b == p {
            assert(keys[c2[b] as int]@ == keys[cur[b] as int]@);
        } else {
            assert(c2[b] == cur[b]);
        }
    }
    assert forall|a: int| 0 <= a < c2.len() implies is_current_upto(items, i + 1, keys[#[trigger] c2[a] as int]@, c2[a] as int) by {
        let x = c2[a] as int;
        assert(keys[x]@ == items[x].id.key());
        if a == p {
            assert(x == i);
            assert(is_current_upto(items, i as int, keys[y]@, y));
            assert(keys[y]@ == items[y].id.key());
            assert forall|j: int| 0 <= j < i + 1 && #[trigger] items[j].id.key() == keys[x]@ implies (items[j].id.rev
                < items[x].id.rev || (items[j].id.rev == items[x].id.rev && x <= j)) by {
                if j < i {
                    assert(items[j].id.key() == keys[y]@);
                }
            }
        } else {
            assert(c2[a] == cur[a]);
            assert(is_current_upto(items, i as int, keys[x]@, x));
            assert forall|j: int| 0 <= j < i + 1 && #[trigger] items[j].id.key() == keys[x]@ implies (items[j].id.rev
                < items[x].id.rev || (items[j].id.rev == items[x].id.rev && x <= j)) by {
                if j == i {
                    assert(keys[i as int]@ == items[i as int].id.key());
                    if a < p {
                        assert(seq_lt(keys[cur[a] as int]@, keys[cur[p] as int]@));
                    } else {
                        assert(seq_lt(keys[cur[p] as int]@, keys[cur[a] as int]@));
                    }
                    lemma_seq_lt_irreflexive(keys[x]@);
                }
            }
        }
    }
    assert forall|j: int| 0 <= j < i + 1 implies exists|a: int| 0 <= a < c2.len() && keys[c2[a] as int]@ == #[trigger] keys[j]@ by {
        if j == i {
            assert(keys[c2[p] as int]@ == keys[j]@);
        } else {
            let a = choose|a: int| 0 <= a < cur.len() && keys[cur[a] as int]@ == #[trigger] keys[j]@;
            if a == p {
                assert(keys[c2[p] as int]@ == keys[j]@);
            } else {
                assert(keys[c2[a] as int]@ == keys[j]@);
            }
        }
    }
}

/// An index shift: `cur.insert(p, i)` at `a` holds what `cur` held at `a`
/// before `p` and at `a - 1` after.
pub open spec fn ins_src(a: int, p: int) -> int {
    if a < p {
        a
    } else {
        a - 1
    }
}

#[verifier::rlimit(80)]
proof fn lemma_insert_sorted(keys: Seq<Vec<char>>, cur: Seq<usize>, i: usize, p: int)
    requires
        0 <= p <= cur.len(),
        i < keys.len(),
        forall|a: int, b: int| 0 <= a < b < cur.len() ==> seq_lt(#[trigger] keys[cur[a] as int]@, #[trigger] keys[cur[b] as int]@),
        forall|a: int| 0 <= a < p ==> seq_lt(#[trigger] keys[cur[a] as int]@, keys[i as int]@),
        forall|a: int| p <= a < cur.len() ==> seq_lt(keys[i as int]@, #[trigger] keys[cur[a] as int]@),
    ensures
        forall|a: int, b: int| 0 <= a < b < cur.insert(p, i).len() ==> seq_lt(#[trigger] keys[cur.insert(p, i)[a] as int]@, #[trigger] keys[cur.insert(p, i)[b] as int]@),
{
    let c2 = cur.insert(p, i);
    assert forall|a: int, b: int| 0 <= a < b < c2.len() implies seq_lt(#[trigger] keys[c2[a] as int]@, #[trigger] keys[c2[b] as int]@) by {
        if a != p {
            assert(c2[a] == cur[ins_src(a, p)]);
        }
        if b != p {
            assert(c2[b] == cur[ins_src(b, p)]);
        }
        if a < p && b > p {
            lemma_seq_lt_transitive(keys[cur[a] as int]@, keys[i as int]@, keys[cur[b - 1] as int]@);
        } else if a != p && b != p {
            assert(seq_lt(keys[cur[ins_src(a, p)] as int]@, keys[cur[ins_src(b, p)] as int]@));
        }
    }
}

#[verifier::rlimit(80)]
proof fn lemma_insert_current(items: Seq<Item>, keys: Seq<Vec<char>>, cur: Seq<usize>, i: usize, p: int)
    requires
        keys_ok(items, keys),
        current_ok(items, keys, cur, i as int),
        i < items.len(),
        0 <= p <= cur.len(),
        forall|j: int| 0 <= j < i ==> #[trigger] keys[j]@ != keys[i as int]@,
        forall|a: int| 0 <= a < cur.len() ==> keys[#[trigger] cur[a] as int]@ != keys[i as int]@,
    ensures
        forall|a: int| 0 <= a < cur.insert(p, i).len() ==> is_current_upto(items, i + 1, keys[#[trigger] cur.insert(p, i)[a] as int]@, cur.insert(p, i)[a] as int),
{
    let c2 = cur.insert(p, i);
    assert forall|a: int| 0 <= a < c2.len() implies is_current_upto(items, i + 1, keys[#[trigger] c2[a] as int]@, c2[a] as int) by {
        let x = c2[a] as int;
        assert(keys[x]@ == items[x].id.key());
        if a == p {
            assert(x == i);
            assert forall|j: int| 0 <= j < i + 1 && #[trigger] items[j].id.key() == keys[x]@ implies (items[j].id.rev
                < items[x].id.rev || (items[j].id.rev == items[x].id.rev && x <= j)) by {
                if j < i {
                    assert(keys[j]@ == items[j].id.key());
                }
            }
        } else {
            let a0 = ins_src(a, p);
            assert(c2[a] == cur[a0]);
            assert(is_current_upto(items, i as int, keys[x]@, x));
            assert(keys[x]@ != keys[i as int]@);
            assert forall|j: int| 0 <= j < i + 1 && #[trigger] items[j].id.key() == keys[x]@ implies (items[j].id.rev
                < items[x].id.rev || (items[j].id.rev == items[x].id.rev && x <= j)) by {
                if j == i {
                    assert(keys[i as int]@ == items[i as int].id.key());
                }
            }
        }
    }
}

#[verifier::rlimit(100)]
proof fn lemma_current_insert(items: Seq<Item>, keys: Seq<Vec<char>>, cur: Seq<usize>, i: usize, p: int)
    requires
        keys_ok(items, keys),
        current_ok(items, keys, cur, i as int),
        i < items.len(),
        0 <= p <= cur.len(),
        forall|a: int| 0 <= a < p ==> seq_lt(#[trigger] keys[cur[a] as int]@, keys[i as int]@),
        forall|a: int| p <= a < cur.len() ==> seq_lt(keys[i as int]@, #[trigger] keys[cur[a] as int]@),
    ensures
        current_ok(items, keys, cur.insert(p, i), i + 1),
{
    let c2 = cur.insert(p, i);
    assert(c2.len() == cur.len() + 1);
    lemma_seq_lt_irreflexive(keys[i as int]@);
    assert forall|a: int| 0 <= a < cur.len() implies keys[#[trigger] cur[a] as int]@ != keys[i as int]@ by {
        if keys[cur[a] as int]@ == keys[i as int]@ {
            if a < p {
                assert(seq_lt(keys[cur[a] as int]@, keys[i as int]@));
            } else {
                assert(seq_lt(keys[i as int]@, keys[cur[a] as int]@));
            }
        }
    }
    assert forall|j: int| 0 <= j < i implies #[trigger] keys[j]@ != keys[i as int]@ by {
        let a = choose|a: int| 0 <= a < cur.len() && keys[cur[a] as int]@ == #[trigger] keys[j]@;
        assert(keys[cur[a] as int]@ != keys[i as int]@);
    }
    assert forall|a: int| 0 <= a < c2.len() implies #[trigger] c2[a] < i + 1 by {
        if a != p {
            assert(c2[a] == cur[ins_src(a, p)]);
        }
    }
    lemma_insert_sorted(keys, cur, i, p);
    lemma_insert_current(items, keys, cur, i, p);
    assert forall|j: int| 0 <= j < i + 1 implies exists|a: int| 0 <= a < c2.len() && keys[c2[a] as int]@ == #[trigger] keys[j]@ by {
        if j == i {
            assert(keys[c2[p] as int]@ == keys[j]@);
        } else {
            let a = choose|a: int| 0 <= a < cur.len() && keys[cur[a] as int]@ == #[trigger] keys[j]@;
            if a < p {
                assert(c2[a] == cur[a]);
                assert(keys[c2[a] as int]@ == keys[j]@);
            } else {
                assert(c2[a + 1] == cur[a]);
                assert(keys[c2[a + 1] as int]@ == keys[j]@);
            }
        }
    }
}



/// The current item of each key, in ascending key order.
#[verifier::rlimit(60)]
fn compute_current(items: &Vec<Item>, keys: &Vec<Vec<char>>) -> (cur: Vec<usize>)
    requires
        keys_ok(items@, keys@),
    ensures
        current_ok(items@, keys@, cur@, items@.len() as int),
{
    let mut cur: Vec<usize> = Vec::new();
    let mut i: usize = 0;
    while i < items.len()
        invariant
            i <= items@.len(),
            keys_ok(items@, keys@),
            current_ok(items@, keys@, cur@, i as int),
        decreases items.len() - i,
    {
        assert forall|a: int| 0 <= a < cur@.len() implies (#[trigger] cur@[a] as int) < keys@.len() by {}
        match find_pos(keys, &cur, &keys[i]) {
            Ok(p) => {
                let x = cur[p];
                if items[x].id.rev < items[i].id.rev {
                    proof {
                        lemma_current_replace(items@, keys@, cur@, i, p as int);
                    }
                    cur.set(p, i);
                } else {
                    proof {
                        lemma_current_keep(items@, keys@, cur@, i as int, p as int);
                    }
                }
            },
            Err(p) => {
                proof {
                    lemma_current_insert(items@, keys@, cur@, i, p as int);
                }
                cur.insert(p, i);
            },
        }
        i = i + 1;
    }
    cur
}


/// The keys of the current items that count in the denominator, in the order
/// of `cur`.
pub open spec fn denom_seq(items: Seq<Item>, keys: Seq<Vec<char>>, cur: Seq<usize>) -> Seq<Seq<char>>
    decreases cur.len(),
{
    if cur.len() == 0 {
        Seq::empty()
    } else {
        denom_seq(items, keys, cur.drop_last()) + if counts_in_denominator(items[cur.last() as int].status) {
            seq![keys[cur.last() as int]@]
        } else {
            Seq::empty()
        }
    }
}

#[verifier::rlimit(60)]
proof fn lemma_denom_seq(items: Seq<Item>, keys: Seq<Vec<char>>, cur: Seq<usize>)
    requires
        forall|a: int| 0 <= a < cur.len() ==> (#[trigger] cur[a] as int) < items.len() && (cur[a] as int) < keys.len(),
        forall|a: int, b: int| 0 <= a < b < cur.len() ==> seq_lt(#[trigger] keys[cur[a] as int]@, #[trigger] keys[cur[b] as int]@),
    ensures
        forall|a: int, b: int| 0 <= a < b < denom_seq(items, keys, cur).len() ==> seq_lt(
            #[trigger] denom_seq(items, keys, cur)[a],
            #[trigger] denom_seq(items, keys, cur)[b],
        ),
        forall|k: Seq<char>| #[trigger] denom_seq(items, keys, cur).contains(k) <==> exists|a: int|
            0 <= a < cur.len() && keys[cur[a] as int]@ == k && counts_in_denominator(items[#[trigger] cur[a] as int].status),
    decreases cur.len(),
{
    if cur.len() > 0 {
        let c0 = cur.drop_last();
        lemma_denom_seq(items, keys, c0);
        let d0 = denom_seq(items, keys, c0);
        let d = denom_seq(items, keys, cur);
        let last = cur.last() as int;
        // Everything before is below the last key.
        assert forall|a: int| 0 <= a < d0.len() implies seq_lt(#[trigger] d0[a], keys[last]@) by {
            assert(d0.contains(d0[a]));
            let b = choose|b: int| 0 <= b < c0.len() && keys[c0[b] as int]@ == d0[a] && counts_in_denominator(items[#[trigger] c0[b] as int].status);
            assert(seq_lt(keys[cur[b] as int]@, keys[cur[cur.len() - 1] as int]@));
        }
        assert forall|k: Seq<char>| #[trigger] d.contains(k) <==> exists|a: int|
            0 <= a < cur.len() && keys[cur[a] as int]@ == k && counts_in_denominator(items[#[trigger] cur[a] as int].status) by {
            if d.contains(k) {
                let i = choose|i: int| 0 <= i < d.len() && d[i] == k;
                if i < d0.len() {
                    assert(d0[i] == k);
                    assert(d0.contains(k));
                    let b = choose|b: int| 0 <= b < c0.len() && keys[c0[b] as int]@ == k && counts_in_denominator(items[#[trigger] c0[b] as int].status);
                    assert(cur[b] == c0[b]);
                } else {
                    assert(cur[cur.len() - 1] == cur.last());
                }
            }
            if exists|a: int| 0 <= a < cur.len() && keys[cur[a] as int]@ == k && counts_in_denominator(items[#[trigger] cur[a] as int].status) {
                let a = choose|a: int| 0 <= a < cur.len() && keys[cur[a] as int]@ == k && counts_in_denominator(items[#[trigger] cur[a] as int].status);
                if a < cur.len() - 1 {
                    assert(c0[a] == cur[a]);
                    assert(d0.contains(k));
                    let i = choose|i: int| 0 <= i < d0.len() && d0[i] == k;
                    assert(d[i] == k);
                } else {
                    assert(d[d0.len() as int] == k);
                }
            }
        }
        assert forall|a: int, b: int| 0 <= a < b < d.len() implies seq_lt(#[trigger] d[a], #[trigger] d[b]) by {
            if b >= d0.len() {
                assert(d[b] == keys[last]@);
                assert(d[a] == d0[a]);
            } else {
                assert(d[a] == d0[a] && d[b] == d0[b]);
            }
        }
    } else {
        assert forall|k: Seq<char>| !(#[trigger] denom_seq(items, keys, cur).contains(k)) by {}
    }
}

impl Inventory {
    /// The denominator: `type~slug`s whose current rev is `confirmed` or
    /// `assumed`, in ascending order.
    pub closed spec fn denom_keys(&self) -> Seq<Seq<char>> {
        denom_seq(self.items@, self.index.keys@, self.index.current@)
    }

    /// The denominator is sorted strictly ascending, and holds exactly the
    /// slugs whose current rev counts.
    ///
    /// Covers: inv~coverage-denominator~2, inv~current-rev~1
    pub proof fn lemma_denominator(&self)
        requires
            self.wf(),
        ensures
            forall|a: int, b: int| 0 <= a < b < self.denom_keys().len() ==> seq_lt(
                #[trigger] self.denom_keys()[a],
                #[trigger] self.denom_keys()[b],
            ),
            forall|k: Seq<char>| #[trigger] self.denom_keys().contains(k) <==> (current_of(self.items@, k) matches Some(x)
                && counts_in_denominator(self.items@[x].status)),
    {
        lemma_denom_seq(self.items@, self.index.keys@, self.index.current@);
        assert forall|k: Seq<char>| #[trigger] self.denom_keys().contains(k) <==> (current_of(self.items@, k) matches Some(x)
            && counts_in_denominator(self.items@[x].status)) by {
            if self.denom_keys().contains(k) {
                let a = choose|a: int| 0 <= a < self.index.current@.len() && self.index.keys@[self.index.current@[a] as int]@ == k
                    && counts_in_denominator(self.items@[#[trigger] self.index.current@[a] as int].status);
                self.lemma_current_at(a, k);
            }
            if current_of(self.items@, k) matches Some(x) && counts_in_denominator(self.items@[x].status) {
                let x = current_of(self.items@, k)->0;
                assert(is_current(self.items@, k, x));
                assert(self.index.keys@[x]@ == k);
                let a = choose|a: int| 0 <= a < self.index.current@.len() && self.index.keys@[self.index.current@[a] as int]@ == #[trigger] self.index.keys@[x]@;
                self.lemma_current_at(a, k);
            }
        }
    }

    /// The entry of `current` at `a` is the current item of its key.
    proof fn lemma_current_at(&self, a: int, k: Seq<char>)
        requires
            self.wf(),
            0 <= a < self.index.current@.len(),
            self.index.keys@[self.index.current@[a] as int]@ == k,
        ensures
            current_of(self.items@, k) == Some(self.index.current@[a] as int),
    {
        let x = self.index.current@[a] as int;
        assert(is_current_upto(self.items@, self.items@.len() as int, self.index.keys@[x]@, x));
        assert(is_current(self.items@, k, x));
        let y = choose|y: int| is_current(self.items@, k, y);
        lemma_current_unique(self.items@, k, x, y);
    }

    /// A key that no entry of `current` holds has no item at all.
    proof fn lemma_no_current(&self, k: Seq<char>)
        requires
            self.wf(),
            forall|a: int| 0 <= a < self.index.current@.len() ==> self.index.keys@[#[trigger] self.index.current@[a] as int]@ != k,
        ensures
            current_of(self.items@, k) is None,
            !has_key(self.items@, k),
    {
        if has_key(self.items@, k) {
            let j = choose|j: int| 0 <= j < self.items@.len() && #[trigger] self.items@[j].id.key() == k;
            assert(self.index.keys@[j]@ == k);
            let a = choose|a: int| 0 <= a < self.index.current@.len() && self.index.keys@[self.index.current@[a] as int]@ == #[trigger] self.index.keys@[j]@;
            assert(self.index.keys@[self.index.current@[a] as int]@ != k);
        }
        if exists|x: int| is_current(self.items@, k, x) {
            let x = choose|x: int| is_current(self.items@, k, x);
            assert(self.items@[x].id.key() == k);
        }
    }

    /// The index of the current item of `key`.
    fn current_index(&self, key: &str) -> (r: Option<usize>)
        requires
            self.wf(),
        ensures
            match r {
                Some(x) => current_of(self.items@, key@) == Some(x as int) && x < self.items@.len(),
                None => current_of(self.items@, key@) is None && !has_key(self.items@, key@),
            },
    {
        let k = chars_of(key);
        assert forall|a: int| 0 <= a < self.index.current@.len() implies (#[trigger] self.index.current@[a] as int) < self.index.keys@.len() by {}
        match find_pos(&self.index.keys, &self.index.current, &k) {
            Ok(p) => {
                proof {
                    self.lemma_current_at(p as int, key@);
                }
                Some(self.index.current[p])
            },
            Err(p) => {
                proof {
                    lemma_seq_lt_irreflexive(key@);
                    assert forall|a: int| 0 <= a < self.index.current@.len() implies self.index.keys@[#[trigger] self.index.current@[a] as int]@ != key@ by {
                        if a < p {
                            assert(seq_lt(self.index.keys@[self.index.current@[a] as int]@, key@));
                        } else {
                            assert(seq_lt(key@, self.index.keys@[self.index.current@[a] as int]@));
                        }
                    }
                    self.lemma_no_current(key@);
                }
                None
            },
        }
    }

    /// The current (highest-rev) item of `type~slug` `slug_key`.
    pub fn current_item(&self, slug_key: &str) -> (r: Option<&Item>)
        requires
            self.wf(),
        ensures
            match current_of(self.items@, slug_key@) {
                Some(x) => r == Some(&self.items@[x]),
                None => r is None,
            },
    {
        match self.current_index(slug_key) {
            Some(x) => Some(&self.items[x]),
            None => None,
        }
    }

    /// The current rev of `type~slug` `slug_key`.
    pub fn current_rev(&self, slug_key: &str) -> (r: Option<u32>)
        requires
            self.wf(),
        ensures
            match current_of(self.items@, slug_key@) {
                Some(x) => r == Some(self.items@[x].id.rev),
                None => r is None,
            },
    {
        match self.current_index(slug_key) {
            Some(x) => Some(self.items[x].id.rev),
            None => None,
        }
    }

    /// Whether `type~slug` `slug_key` is in the inventory at any rev.
    pub fn has_slug(&self, slug_key: &str) -> (r: bool)
        requires
            self.wf(),
        ensures
            r == has_key(self.items@, slug_key@),
            r == (current_of(self.items@, slug_key@) is Some),
    {
        match self.current_index(slug_key) {
            Some(x) => {
                proof {
                    let x = x as int;
                    let y = choose|y: int| is_current(self.items@, slug_key@, y);
                    assert(is_current(self.items@, slug_key@, y));
                    assert(self.items@[y].id.key() == slug_key@);
                }
                true
            },
            None => false,
        }
    }

    /// `type~slug`s whose current rev is `confirmed` or `assumed`, ascending.
    ///
    /// Covers: inv~coverage-denominator~2, inv~current-rev~1
    #[verifier::rlimit(80)]
    pub fn denominator(&self) -> (r: Vec<String>)
        requires
            self.wf(),
        ensures
            str_views(r@) == self.denom_keys(),
    {
        let mut out: Vec<String> = Vec::new();
        let mut a: usize = 0;
        assert(self.index.current@.take(0) =~= Seq::<usize>::empty());
        while a < self.index.current.len()
            invariant
                self.wf(),
                a <= self.index.current@.len(),
                str_views(out@) == denom_seq(self.items@, self.index.keys@, self.index.current@.take(a as int)),
            decreases self.index.current.len() - a,
        {
            let x = self.index.current[a];
            assert(self.index.current@.take(a + 1).drop_last() =~= self.index.current@.take(a as int));
            assert(x < self.items@.len());
            if self.items[x].status.in_denominator() {
                let k = self.items[x].id.slug_key();
                assert(k@ == self.index.keys@[x as int]@);
                let ghost before = out@;
                out.push(k);
                assert(str_views(out@) =~= str_views(before).push(self.index.keys@[x as int]@));
            }
            assert(str_views(out@) =~= denom_seq(self.items@, self.index.keys@, self.index.current@.take(a + 1)));
            a = a + 1;
        }
        assert(self.index.current@.take(self.index.current@.len() as int) =~= self.index.current@);
        out
    }

    /// The number of distinct `type~slug`s in the inventory.
    pub fn slug_count(&self) -> (n: usize)
        requires
            self.wf(),
        ensures
            n == slug_set(self.items@).len(),
    {
        proof {
            let keys = self.index.keys@;
            let cur = self.index.current@;
            let ks = Seq::new(cur.len(), |a: int| keys[cur[a] as int]@);
            assert forall|a: int, b: int| 0 <= a < ks.len() && 0 <= b < ks.len() && a != b implies ks[a] != ks[b] by {
                if a < b {
                    assert(seq_lt(keys[cur[a] as int]@, keys[cur[b] as int]@));
                    lemma_seq_lt_irreflexive(ks[a]);
                } else {
                    assert(seq_lt(keys[cur[b] as int]@, keys[cur[a] as int]@));
                    lemma_seq_lt_irreflexive(ks[b]);
                }
            }
            assert(ks.no_duplicates());
            ks.unique_seq_to_set();
            assert forall|k: Seq<char>| ks.to_set().contains(k) <==> #[trigger] slug_set(self.items@).contains(k) by {
                if ks.to_set().contains(k) {
                    assert(ks.contains(k));
                    let a = choose|a: int| 0 <= a < ks.len() && ks[a] == k;
                    let x = cur[a] as int;
                    assert(cur[a] < self.items@.len());
                    assert(keys[x]@ == self.items@[x].id.key());
                    assert(has_key(self.items@, k));
                }
                if has_key(self.items@, k) {
                    let j = choose|j: int| 0 <= j < self.items@.len() && #[trigger] self.items@[j].id.key() == k;
                    assert(keys[j]@ == k);
                    let a = choose|a: int| 0 <= a < cur.len() && keys[cur[a] as int]@ == #[trigger] keys[j]@;
                    assert(ks[a] == k);
                    assert(ks.contains(k));
                }
            }
            assert(ks.to_set() =~= slug_set(self.items@));
        }
        self.index.current.len()
    }

    /// Loads an inventory from its files, given as (path, text) pairs in
    /// order: each non-blank text is parsed as YAML, then everything is
    /// validated as `build` does.
    pub fn load_texts(files: &[(String, String)]) -> (r: Result<Inventory, InventoryError>)
        ensures
            match first_error(text_events(files@)) {
                Some(e) => r matches Err(x) && x@ == e,
                None => match first_dup(text_events(files@)) {
                    Some(d) => r matches Err(x) && x@ == dup_error(text_events(files@)[d]),
                    None => r matches Ok(inv) && inv.wf() && inv.items@.len() == text_events(files@).len()
                        && forall|k: int| 0 <= k < inv.items@.len() ==> event_item(#[trigger] text_events(files@)[k], inv.items@[k]),
                },
            },
    {
        let mut sources: Vec<InventorySource> = Vec::new();
        let mut i: usize = 0;
        assert(files@.take(0) =~= Seq::<(String, String)>::empty());
        while i < files.len()
            invariant
                i <= files@.len(),
                events(sources@) == text_events(files@.take(i as int)),
            decreases files.len() - i,
        {
            let (file, text) = &files[i];
            let tv = chars_of(text.as_str());
            let docs = if is_blank_exec(&tv) {
                Ok(Vec::new())
            } else {
                parse_yaml(text.as_str())
            };
            let src = InventorySource { file: file.clone(), text: text.clone(), docs };
            proof {
                assert(source_events(src) =~= file_events(file@, text@, yaml_entries(text@)));
                assert(files@.take(i + 1).drop_last() =~= files@.take(i as int));
                assert(files@.take(i + 1).last() == files@[i as int]);
            }
            let ghost before = sources@;
            sources.push(src);
            assert(sources@.drop_last() =~= before);
            i = i + 1;
        }
        assert(files@.take(files@.len() as int) =~= files@);
        Inventory::build(&sources)
    }

    /// Validates the inventory files, in order: every entry (stopping at the
    /// first error), then unique `type~slug` and rev, then computes each
    /// slug's current rev.
    ///
    /// Covers: inv~id-grammar~2, inv~dup-ids~2, inv~current-rev~1
    pub fn build(sources: &[InventorySource]) -> (r: Result<Inventory, InventoryError>)
        ensures
            match first_error(events(sources@)) {
                Some(e) => r matches Err(x) && x@ == e,
                None => match first_dup(events(sources@)) {
                    Some(d) => r matches Err(x) && x@ == dup_error(events(sources@)[d]),
                    None => r matches Ok(inv) && inv.wf() && inv.items@.len() == events(sources@).len()
                        && forall|k: int| 0 <= k < inv.items@.len() ==> event_item(#[trigger] events(sources@)[k], inv.items@[k]),
                },
            },
    {
        let items = collect_items(sources)?;
        let ghost evs = events(sources@);
        let keys = item_keys(&items);
        proof {
            let kr_e = events_kr(evs);
            assert forall|k: int| 0 <= k < evs.len() implies #[trigger] kr_e[k] == items_kr(items@)[k] by {
                assert(event_item(evs[k], items@[k]));
            }
            assert(kr_e =~= items_kr(items@));
        }
        match find_dup(&items, &keys) {
            Some(d) => {
                proof {
                    lemma_first_dup_range(items_kr(items@));
                    assert(event_item(evs[d as int], items@[d as int]));
                }
                let e = InventoryError {
                    kind: InvErrorKind::Duplicate,
                    file: items[d].file.clone(),
                    line: 0,
                    id: items[d].id.to_text(),
                    value: String::new(),
                };
                return Err(e);
            },
            None => {},
        }
        let current = compute_current(&items, &keys);
        let n = items.len();
        assert(items@.len() <= usize::MAX);
        let inv = Inventory { items, index: CurrentIndex { keys, current } };
        Ok(inv)
    }
}

} // verus!
