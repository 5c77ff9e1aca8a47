use vstd::prelude::*;

verus! {

use vstd::string::StringExecFns;

/// A TOML value reduced to what the card model reads: strings, arrays and
/// tables. Every other kind of value (integer, float, boolean, datetime)
/// appears as `Other`, which each consumer in this crate rejects.
pub enum RawValue {
    Str(String),
    List(Vec<RawValue>),
    Table(Vec<(String, RawValue)>),
    Other,
}

/// Why a document failed to load.
#[derive(Debug)]
pub enum ParseError {
    /// The text was not well-formed TOML; holds the parser's message.
    Syntax(String),
    MissingTerm,
    MissingDefinition,
    MissingText,
    InvalidSide,
    InvalidFormat,
    InvalidText,
    InvalidTopics,
    InvalidCard,
    InvalidCards,
    InvalidDocument,
}

/// `ParseError` with the syntax message abstracted away.
pub enum ParseErrorV {
    Syntax,
    MissingTerm,
    MissingDefinition,
    MissingText,
    InvalidSide,
    InvalidFormat,
    InvalidText,
    InvalidTopics,
    InvalidCard,
    InvalidCards,
    InvalidDocument,
}

impl View for ParseError {
    type V = ParseErrorV;

    open spec fn view(&self) -> ParseErrorV {
        match self {
            ParseError::Syntax(_) => ParseErrorV::Syntax,
            ParseError::MissingTerm => ParseErrorV::MissingTerm,
            ParseError::MissingDefinition => ParseErrorV::MissingDefinition,
            ParseError::MissingText => ParseErrorV::MissingText,
            ParseError::InvalidSide => ParseErrorV::InvalidSide,
            ParseError::InvalidFormat => ParseErrorV::InvalidFormat,
            ParseError::InvalidText => ParseErrorV::InvalidText,
            ParseError::InvalidTopics => ParseErrorV::InvalidTopics,
            ParseError::InvalidCard => ParseErrorV::InvalidCard,
            ParseError::InvalidCards => ParseErrorV::InvalidCards,
            ParseError::InvalidDocument => ParseErrorV::InvalidDocument,
        }
    }
}

impl ParseError {
    /// A line identifying the failure, naming the offending field where one
    /// is known.
    pub fn message(&self) -> (r: String)
        ensures
            self@ == ParseErrorV::MissingTerm ==> r@ == "missing field: term"@,
            self@ == ParseErrorV::MissingDefinition ==> r@ == "missing field: definition"@,
            self@ == ParseErrorV::MissingText ==> r@ == "missing field: text"@,
    {
        match self {
            ParseError::Syntax(m) => String::from_str("TOML syntax error: ").concat(m.as_str()),
            ParseError::MissingTerm => String::from_str("missing field: term"),
            ParseError::MissingDefinition => String::from_str("missing field: definition"),
            ParseError::MissingText => String::from_str("missing field: text"),
            ParseError::InvalidSide => String::from_str("invalid card side"),
            ParseError::InvalidFormat => String::from_str("invalid card format"),
            ParseError::InvalidText => String::from_str("invalid card text"),
            ParseError::InvalidTopics => String::from_str("invalid topics list"),
            ParseError::InvalidCard => String::from_str("invalid card"),
            ParseError::InvalidCards => String::from_str("invalid cards list"),
            ParseError::InvalidDocument => String::from_str("invalid document"),
        }
    }
}

/// The value tree that given TOML text parses to, or `None` when the text is
/// not well-formed TOML. The tree for given text is left unstated; verified
/// code reads the returned tree instead of this name.
pub uninterp spec fn toml_tree(s: Seq<char>) -> Option<RawValue>;

/// Declares toml's value type so the conversion below may take it.
#[verifier::external_type_specification]
#[verifier::external_body]
pub struct ExTomlValue(toml::Value);

/// Relies on `toml::from_str` to parse TOML text. The result is a function
/// of the text alone: toml's table type is backed by a `BTreeMap`, so the
/// order of the converted entries is determined by the keys.
#[verifier::external_body]
pub fn parse_toml(s: &str) -> (r: Result<RawValue, String>)
    ensures
        r matches Ok(v) ==> toml_tree(s@) == Some(v),
        r matches Err(m) ==> toml_tree(s@) is None,
{
    match toml::from_str::<toml::Value>(s) {
        Ok(v) => Ok(convert_value(v)),
        Err(e) => Err(e.to_string()),
    }
}

/// Relies on the shape of `toml::Value`: each variant is carried over
/// one-for-one, arrays and tables element by element, in order.
#[verifier::external_body]
fn convert_value(v: toml::Value) -> RawValue {
    match v {
        toml::Value::String(s) => RawValue::Str(s),
        toml::Value::Array(items) => RawValue::List(
            items.into_iter().map(convert_value).collect(),
        ),
        toml::Value::Table(entries) => RawValue::Table(
            entries.into_iter().map(|(k, inner)| (k, convert_value(inner))).collect(),
        ),
        _ => RawValue::Other,
    }
}

/// The value under the first entry with this key, if any.
pub open spec fn table_get(entries: Seq<(String, RawValue)>, key: Seq<char>) -> Option<RawValue>
    decreases entries.len(),
{
    if entries.len() == 0 {
        None
    } else if entries[0].0@ == key {
        Some(entries[0].1)
    } else {
        table_get(entries.drop_first(), key)
    }
}

/// Whether two string slices hold the same characters.
pub fn str_eq(a: &str, b: &str) -> (r: bool)
    ensures
        r == (a@ == b@),
{
    let sa = a.to_owned();
    let sb = b.to_owned();
    sa == sb
}

/// Look a key up in a converted table.
pub fn get_key<'a>(entries: &'a Vec<(String, RawValue)>, key: &str) -> (r: Option<&'a RawValue>)
    ensures
        match r {
            Some(v) => table_get(entries@, key@) == Some(*v),
            None => table_get(entries@, key@) is None,
        },
{
    let mut i: usize = 0;
    proof {
        assert(entries@.skip(0) =~= entries@);
    }
    while i < entries.len()
        invariant
            i <= entries@.len(),
            table_get(entries@, key@) == table_get(entries@.skip(i as int), key@),
        decreases entries@.len() - i,
    {
        let pair = &entries[i];
        proof {
            assert(entries@.skip(i as int).drop_first() =~= entries@.skip(i as int + 1));
            assert(entries@.skip(i as int)[0] == entries@[i as int]);
        }
        if str_eq(pair.0.as_str(), key) {
            return Some(&pair.1);
        }
        i = i + 1;
    }
    None
}

} // verus!
