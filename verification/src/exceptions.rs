//! Exception (not-in-scope) file validation.
use vstd::prelude::*;
use crate::id::{id_text, spec_parse_id, ReqId};
use crate::inventory::{item_text, Fields};
use crate::text::{chars_of, is_blank, is_blank_exec, push_str};
use crate::yaml::{entries_view, get_str, parse_yaml, str_field, yaml_entries, YamlEntry};

verus! {

#[derive(Debug, Clone)]
pub struct ExceptionEntry {
    pub id: ReqId,
}

#[derive(Debug, Clone, Copy, PartialEq, Eq, Structural)]
pub enum ExcErrorKind {
    Yaml,
    NotMapping,
    MissingId,
    InvalidId,
    NoJustification,
}

/// An exception file that cannot be used (exit 2). `id` is the offending
/// ID text; `value` the YAML parser's message.
#[derive(Debug, Clone)]
pub struct ExceptionError {
    pub kind: ExcErrorKind,
    pub file: String,
    pub id: String,
    pub value: String,
}

pub struct ExcErrView {
    pub kind: ExcErrorKind,
    pub file: Seq<char>,
    pub id: Seq<char>,
    pub value: Seq<char>,
}

impl View for ExceptionError {
    type V = ExcErrView;

    open spec fn view(&self) -> ExcErrView {
        ExcErrView { kind: self.kind, file: self.file@, id: self.id@, value: self.value@ }
    }
}

pub open spec fn exc_err(kind: ExcErrorKind, file: Seq<char>, id: Seq<char>, value: Seq<char>) -> ExcErrView {
    ExcErrView { kind, file, id, value }
}

impl ExceptionError {
    pub open spec fn spec_message(&self) -> Seq<char> {
        match self.kind {
            ExcErrorKind::Yaml => "parsing exception file "@ + self.file@ + ": "@ + self.value@,
            ExcErrorKind::NotMapping => self.file@ + ": exception entries must be mappings"@,
            ExcErrorKind::MissingId => self.file@ + ": exception entry missing `id`"@,
            ExcErrorKind::InvalidId => self.file@ + ": invalid exception ID `"@ + self.id@ + "`"@,
            ExcErrorKind::NoJustification => self.file@ + ": exception `"@ + self.id@
                + "` has no non-empty justification"@,
        }
    }

    /// The error as the tool reports it.
    pub fn message(&self) -> (m: String)
        ensures
            m@ == self.spec_message(),
    {
        let mut m = String::new();
        match self.kind {
            ExcErrorKind::Yaml => {
                push_str(&mut m, "parsing exception file ");
                push_str(&mut m, self.file.as_str());
                push_str(&mut m, ": ");
                push_str(&mut m, self.value.as_str());
            },
            ExcErrorKind::NotMapping => {
                push_str(&mut m, self.file.as_str());
                push_str(&mut m, ": exception entries must be mappings");
            },
            ExcErrorKind::MissingId => {
                push_str(&mut m, self.file.as_str());
                push_str(&mut m, ": exception entry missing `id`");
            },
            ExcErrorKind::InvalidId => {
                push_str(&mut m, self.file.as_str());
                push_str(&mut m, ": invalid exception ID `");
                push_str(&mut m, self.id.as_str());
                push_str(&mut m, "`");
            },
            ExcErrorKind::NoJustification => {
                push_str(&mut m, self.file.as_str());
                push_str(&mut m, ": exception `");
                push_str(&mut m, self.id.as_str());
                push_str(&mut m, "` has no non-empty justification");
            },
        }
        assert(m@ =~= self.spec_message());
        m
    }
}

/// What is wrong with an exception entry, checked in order: mapping, `id`
/// present and valid, `justification` present and not blank.
///
/// Covers: exc~justification~1
pub open spec fn exc_error(e: Option<Fields>, file: Seq<char>) -> Option<ExcErrView> {
    match e {
        None => Some(exc_err(ExcErrorKind::NotMapping, file, Seq::empty(), Seq::empty())),
        Some(fs) => match str_field(fs, "id"@) {
            None => Some(exc_err(ExcErrorKind::MissingId, file, Seq::empty(), Seq::empty())),
            Some(ids) => match spec_parse_id(ids) {
                None => Some(exc_err(ExcErrorKind::InvalidId, file, ids, Seq::empty())),
                Some((t, sl, rev)) => if is_blank(item_text(str_field(fs, "justification"@))) {
                    Some(exc_err(ExcErrorKind::NoJustification, file, id_text(t, sl, rev), Seq::empty()))
                } else {
                    None
                },
            },
        },
    }
}

/// The first bad entry's error, if any.
pub open spec fn first_exc_error(es: Seq<Option<Fields>>, file: Seq<char>) -> Option<ExcErrView>
    decreases es.len(),
{
    if es.len() == 0 {
        None
    } else {
        match first_exc_error(es.drop_last(), file) {
            Some(e) => Some(e),
            None => exc_error(es.last(), file),
        }
    }
}

/// The ID an entry gives.
pub open spec fn exc_id(e: Option<Fields>) -> (Seq<char>, Seq<char>, u32) {
    spec_parse_id(str_field(e->0, "id"@)->0)->0
}

pub open spec fn entry_views(v: Seq<YamlEntry>) -> Seq<Option<Fields>> {
    entries_view(v)
}

fn parse_exception(e: &YamlEntry, file: &str) -> (r: Result<ExceptionEntry, ExceptionError>)
    ensures
        r is Ok <==> exc_error(e@, file@) is None,
        r matches Err(x) ==> exc_error(e@, file@) == Some(x@),
        r matches Ok(x) ==> (x.id.ty@, x.id.slug@, x.id.rev) == exc_id(e@),
{
    let fields = match e {
        YamlEntry::Mapping(fs) => fs,
        YamlEntry::NotMapping => {
            return Err(ExceptionError { kind: ExcErrorKind::NotMapping, file: String::from_str(file), id: String::new(), value: String::new() });
        },
    };
    let id_str = match get_str(fields, "id") {
        Some(s) => s,
        None => {
            return Err(ExceptionError { kind: ExcErrorKind::MissingId, file: String::from_str(file), id: String::new(), value: String::new() });
        },
    };
    let id = match ReqId::parse(id_str.as_str()) {
        Some(id) => id,
        None => {
            return Err(ExceptionError { kind: ExcErrorKind::InvalidId, file: String::from_str(file), id: id_str, value: String::new() });
        },
    };
    let just = match get_str(fields, "justification") {
        Some(s) => s,
        None => String::new(),
    };
    let jv = chars_of(just.as_str());
    if is_blank_exec(&jv) {
        return Err(ExceptionError { kind: ExcErrorKind::NoJustification, file: String::from_str(file), id: id.to_text(), value: String::new() });
    }
    Ok(ExceptionEntry { id })
}

/// Validates an exception file: a blank file has no entries; otherwise its
/// YAML error, or its entries in order, stopping at the first bad one.
pub fn load_entries(file: &str, text: &str, docs: &Result<Vec<YamlEntry>, String>) -> (r: Result<Vec<ExceptionEntry>, ExceptionError>)
    ensures
        is_blank(text@) ==> (r matches Ok(v) && v@.len() == 0),
        !is_blank(text@) ==> match docs {
            Err(m) => r matches Err(x) && x@ == exc_err(ExcErrorKind::Yaml, file@, Seq::empty(), m@),
            Ok(es) => match first_exc_error(entry_views(es@), file@) {
                Some(e) => r matches Err(x) && x@ == e,
                None => r matches Ok(v) && v@.len() == es@.len() && forall|k: int|
                    0 <= k < v@.len() ==> (#[trigger] v@[k].id.ty@, v@[k].id.slug@, v@[k].id.rev) == exc_id(es@[k]@),
            },
        },
{
    let tv = chars_of(text);
    if is_blank_exec(&tv) {
        return Ok(Vec::new());
    }
    let entries = match docs {
        Err(m) => {
            return Err(ExceptionError { kind: ExcErrorKind::Yaml, file: String::from_str(file), id: String::new(), value: m.clone() });
        },
        Ok(es) => es,
    };
    let ghost ev = entry_views(entries@);
    let mut out: Vec<ExceptionEntry> = Vec::new();
    let mut i: usize = 0;
    assert(ev.take(0) =~= Seq::<Option<Fields>>::empty());
    while i < entries.len()
        invariant
            i <= entries@.len(),
            !is_blank(text@),
            *docs == Ok::<Vec<YamlEntry>, String>(*entries),
            ev == entry_views(entries@),
            first_exc_error(ev.take(i as int), file@) is None,
            out@.len() == i,
            forall|k: int| 0 <= k < i ==> (#[trigger] out@[k].id.ty@, out@[k].id.slug@, out@[k].id.rev) == exc_id(entries@[k]@),
        decreases entries.len() - i,
    {
        assert(ev.take(i + 1).drop_last() =~= ev.take(i as int));
        assert(ev.take(i + 1).last() == entries@[i as int]@);
        match parse_exception(&entries[i], file) {
            Ok(x) => {
                out.push(x);
            },
            Err(e) => {
                proof {
                    lemma_first_exc_error_prefix(ev, i + 1, file@);
                }
                return Err(e);
            },
        }
        i = i + 1;
    }
    assert(ev.take(entries@.len() as int) =~= ev);
    Ok(out)
}

/// Reads an exception file from its text: a blank file has no entries;
/// otherwise the text is parsed as YAML and its entries are validated as
/// `load_entries` does.
pub fn load_text(file: &str, text: &str) -> (r: Result<Vec<ExceptionEntry>, ExceptionError>)
    ensures
        is_blank(text@) ==> (r matches Ok(v) && v@.len() == 0),
        !is_blank(text@) ==> match yaml_entries(text@) {
            Err(m) => r matches Err(x) && x@ == exc_err(ExcErrorKind::Yaml, file@, Seq::empty(), m),
            Ok(es) => match first_exc_error(es, file@) {
                Some(e) => r matches Err(x) && x@ == e,
                None => r matches Ok(v) && v@.len() == es.len() && forall|k: int|
                    0 <= k < v@.len() ==> (#[trigger] v@[k].id.ty@, v@[k].id.slug@, v@[k].id.rev) == exc_id(es[k]),
            },
        },
{
    let tv = chars_of(text);
    if is_blank_exec(&tv) {
        return Ok(Vec::new());
    }
    let docs = parse_yaml(text);
    load_entries(file, text, &docs)
}

proof fn lemma_first_exc_error_prefix(es: Seq<Option<Fields>>, n: int, file: Seq<char>)
    requires
        0 <= n <= es.len(),
        first_exc_error(es.take(n), file) is Some,
    ensures
        first_exc_error(es, file) == first_exc_error(es.take(n), file),
    decreases es.len(),
{
    if n < es.len() {
        assert(es.drop_last().take(n) =~= es.take(n));
        lemma_first_exc_error_prefix(es.drop_last(), n, file);
    } else {
        assert(es.take(n) =~= es);
    }
}

} // verus!
