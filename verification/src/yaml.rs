//! The part of a YAML document that inventory and exception files are read
//! through: a list of entries, each a mapping from string keys to a value
//! that is null, a string, a list (each item by its string form) or other.
use vstd::prelude::*;
use crate::text::str_eq;
use serde_yaml::Value;

verus! {

/// A field value. `List` holds each item's string, `None` for an item that
/// is not a string.
#[derive(Debug, Clone)]
pub enum YamlNode {
    Null,
    Str(String),
    List(Vec<Option<String>>),
    Other,
}

pub enum NodeView {
    Null,
    Str(Seq<char>),
    List(Seq<Option<Seq<char>>>),
    Other,
}

pub open spec fn opt_str_view(o: Option<String>) -> Option<Seq<char>> {
    match o {
        Some(s) => Some(s@),
        None => None,
    }
}

impl View for YamlNode {
    type V = NodeView;

    open spec fn view(&self) -> NodeView {
        match self {
            YamlNode::Null => NodeView::Null,
            YamlNode::Str(s) => NodeView::Str(s@),
            YamlNode::List(v) => NodeView::List(Seq::new(v@.len(), |i: int| opt_str_view(v@[i]))),
            YamlNode::Other => NodeView::Other,
        }
    }
}

/// One entry of the top-level list: a mapping (its fields, in order, each
/// key by its string, `None` for a key that is not a plain string) or
/// something else.
#[derive(Debug, Clone)]
pub enum YamlEntry {
    Mapping(Vec<(Option<String>, YamlNode)>),
    NotMapping,
}

pub open spec fn field_view(f: (Option<String>, YamlNode)) -> (Option<Seq<char>>, NodeView) {
    let (k, v) = f;
    (opt_str_view(k), v@)
}

impl View for YamlEntry {
    type V = Option<Seq<(Option<Seq<char>>, NodeView)>>;

    open spec fn view(&self) -> Option<Seq<(Option<Seq<char>>, NodeView)>> {
        match self {
            YamlEntry::Mapping(fs) => Some(Seq::new(fs@.len(), |i: int| field_view(fs@[i]))),
            YamlEntry::NotMapping => None,
        }
    }
}

/// The views of a list of entries.
pub open spec fn entries_view(v: Seq<YamlEntry>) -> Seq<Option<Seq<(Option<Seq<char>>, NodeView)>>> {
    Seq::new(v.len(), |i: int| v[i]@)
}

/// The view of a parse result: the entries' views, or the message.
pub open spec fn docs_view(d: Result<Vec<YamlEntry>, String>) -> Result<Seq<Option<Seq<(Option<Seq<char>>, NodeView)>>>, Seq<char>> {
    match d {
        Ok(v) => Ok(entries_view(v@)),
        Err(m) => Err(m@),
    }
}

/// What `serde_yaml::from_str::<Vec<serde_yaml::Value>>` makes of `text`:
/// the entries of its top-level list, each as the library's model, or the
/// parser's message.
pub uninterp spec fn yaml_entries(text: Seq<char>) -> Result<Seq<Option<Seq<(Option<Seq<char>>, NodeView)>>>, Seq<char>>;

/// `serde_yaml::from_str::<Vec<serde_yaml::Value>>`, each value converted
/// one for one: a mapping (`as_mapping`) to its fields, a key by its
/// `Value::String`, a field value to `Null` (`Value::Null`), a list
/// (`Value::Sequence`, each item by `as_str`), a string (`as_str`) or
/// other; an error to its message. The result is named, not stated: it is
/// a function of `text` alone.
#[verifier::external_body]
pub(crate) fn parse_yaml(text: &str) -> (r: Result<Vec<YamlEntry>, String>)
    ensures
        docs_view(r) == yaml_entries(text@),
{
    let docs: Vec<Value> = serde_yaml::from_str(text).map_err(|e| e.to_string())?;
    Ok(docs.iter().map(|d| d.as_mapping().map_or(YamlEntry::NotMapping, |m| YamlEntry::Mapping(m.iter().map(|(k, v)| (
        match k { Value::String(s) => Some(s.clone()), _ => None },
        match v {
            Value::Null => YamlNode::Null,
            Value::Sequence(s) => YamlNode::List(s.iter().map(|x| x.as_str().map(String::from)).collect()),
            _ => v.as_str().map_or(YamlNode::Other, |s| YamlNode::Str(s.into()))
        }
    )).collect()))).collect())
}

/// The value of the first field named `key`.
pub open spec fn lookup(fields: Seq<(Option<Seq<char>>, NodeView)>, key: Seq<char>) -> Option<NodeView>
    decreases fields.len(),
{
    if fields.len() == 0 {
        None
    } else if fields[0].0 == Some(key) {
        Some(fields[0].1)
    } else {
        lookup(fields.drop_first(), key)
    }
}

/// The string value of field `key` (`get(key).and_then(as_str)`).
pub open spec fn str_field(fields: Seq<(Option<Seq<char>>, NodeView)>, key: Seq<char>) -> Option<Seq<char>> {
    match lookup(fields, key) {
        Some(NodeView::Str(s)) => Some(s),
        _ => None,
    }
}

/// The value of the first field named `key`.
pub fn get_field<'a>(fields: &'a Vec<(Option<String>, YamlNode)>, key: &str) -> (r: Option<&'a YamlNode>)
    ensures
        match r {
            Some(n) => lookup(Seq::new(fields@.len(), |i: int| field_view(fields@[i])), key@) == Some(n@),
            None => lookup(Seq::new(fields@.len(), |i: int| field_view(fields@[i])), key@) is None,
        },
{
    let ghost fs = Seq::new(fields@.len(), |i: int| field_view(fields@[i]));
    let mut i: usize = 0;
    assert(fs.skip(0) =~= fs);
    while i < fields.len()
        invariant
            i <= fields@.len(),
            fs == Seq::new(fields@.len(), |i: int| field_view(fields@[i])),
            lookup(fs, key@) == lookup(fs.skip(i as int), key@),
        decreases fields.len() - i,
    {
        let (k, v) = &fields[i];
        assert(fs.skip(i as int)[0] == field_view(fields@[i as int]));
        assert(fs.skip(i as int).drop_first() =~= fs.skip(i + 1));
        let same = match k {
            Some(k) => str_eq(k.as_str(), key),
            None => false,
        };
        if same {
            return Some(v);
        }
        i = i + 1;
    }
    assert(fs.skip(i as int).len() == 0);
    None
}

/// The string value of field `key`, copied.
pub fn get_str(fields: &Vec<(Option<String>, YamlNode)>, key: &str) -> (r: Option<String>)
    ensures
        opt_str_view(r) == str_field(Seq::new(fields@.len(), |i: int| field_view(fields@[i])), key@),
{
    match get_field(fields, key) {
        Some(YamlNode::Str(s)) => Some(s.clone()),
        _ => None,
    }
}

} // verus!
