//! A configuration file as the values it holds.
use vstd::prelude::*;
use vstd::string::*;

use crate::text::same_text;

verus! {

/// A value in a file.
#[derive(Debug, PartialEq, Eq)]
pub enum Setting {
    Text(String),
    Number(i64),
    Flag(bool),
    List(Vec<Setting>),
    Table(Vec<Field>),
    /// A number with a fraction, whichever it is.
    Fraction,
    /// A date or a time, whichever it is.
    Moment,
}

/// A value and the name it stands under.
#[derive(Debug, PartialEq, Eq)]
pub struct Field {
    pub name: String,
    pub value: Setting,
}

/// `toml::Value`, the values of a document as its parser holds them.
#[verifier::external_type_specification]
#[verifier::external_body]
pub struct OutsideValue(toml::Value);

/// The values in a `toml::Value`: each string, integer, boolean, array and table
/// as it is, a table in the order it is walked in, which is that of its names. Of
/// a float or a date only that it is one.
pub uninterp spec fn toml_contents(value: toml::Value) -> Setting;

/// What `toml::from_str` makes of a text: the values in it, or what its error
/// says.
pub uninterp spec fn toml_document(text: Seq<char>) -> Result<Setting, Seq<char>>;

/// `toml::from_str`, asked for a table, reads a text as a document or says why
/// it is none. What it gives back depends on the text alone.
#[verifier::external_body]
fn read_toml(text: &str) -> (r: Result<toml::Value, String>)
    ensures
        match r {
            Ok(value) => toml_document(text@) == Ok::<Setting, Seq<char>>(toml_contents(value)),
            Err(message) => toml_document(text@) == Err::<Setting, Seq<char>>(message@),
        },
{
    match toml::from_str::<toml::Table>(text) {
        Ok(table) => Ok(toml::Value::Table(table)),
        Err(e) => Err(e.to_string()),
    }
}

/// The values in a `toml::Value`, variant by variant, moved out of it.
#[verifier::external_body]
fn contents(value: toml::Value) -> (r: Setting)
    ensures
        r == toml_contents(value),
{
    match value {
        toml::Value::String(text) => Setting::Text(text),
        toml::Value::Integer(number) => Setting::Number(number),
        toml::Value::Boolean(flag) => Setting::Flag(flag),
        toml::Value::Array(list) => Setting::List(list.into_iter().map(contents).collect()),
        toml::Value::Table(table) => Setting::Table(
            table.into_iter().map(|(name, value)| Field { name, value: contents(value) }).collect(),
        ),
        toml::Value::Float(_) => Setting::Fraction,
        toml::Value::Datetime(_) => Setting::Moment,
    }
}

/// Reads a text as a document.
pub fn document(text: &str) -> (r: Result<Setting, String>)
    ensures
        match r {
            Ok(value) => toml_document(text@) == Ok::<Setting, Seq<char>>(value),
            Err(message) => toml_document(text@) == Err::<Setting, Seq<char>>(message@),
        },
{
    match read_toml(text) {
        Ok(value) => Ok(contents(value)),
        Err(message) => Err(message),
    }
}

/// The value under a name.
pub open spec fn field(fields: Seq<Field>, name: Seq<char>) -> Option<Setting>
    decreases fields.len(),
{
    if fields.len() == 0 {
        None
    } else if fields.first().name@ == name {
        Some(fields.first().value)
    } else {
        field(fields.drop_first(), name)
    }
}

pub fn find_field<'a>(fields: &'a Vec<Field>, name: &str) -> (r: Option<&'a Setting>)
    ensures
        match r {
            Some(value) => field(fields@, name@) == Some(*value),
            None => field(fields@, name@) is None,
        },
{
    let mut i: usize = 0;
    assert(fields@.skip(0) == fields@);
    while i < fields.len()
        invariant
            i <= fields@.len(),
            field(fields@, name@) == field(fields@.skip(i as int), name@),
        decreases fields@.len() - i,
    {
        assert(fields@.skip(i as int).drop_first() == fields@.skip(i + 1));
        if same_text(fields[i].name.as_str(), name) {
            return Some(&fields[i].value);
        }
        i = i + 1;
    }
    None
}

impl Setting {
    /// What kind of value it is, in words.
    pub open spec fn kind(self) -> Seq<char> {
        match self {
            Setting::Text(_) => "string"@,
            Setting::Number(_) => "integer"@,
            Setting::Flag(_) => "boolean"@,
            Setting::List(_) => "sequence"@,
            Setting::Table(_) => "map"@,
            Setting::Fraction => "floating point"@,
            Setting::Moment => "datetime"@,
        }
    }

    pub fn kind_name(&self) -> (r: &'static str)
        ensures
            r@ == self.kind(),
    {
        match self {
            Setting::Text(_) => "string",
            Setting::Number(_) => "integer",
            Setting::Flag(_) => "boolean",
            Setting::List(_) => "sequence",
            Setting::Table(_) => "map",
            Setting::Fraction => "floating point",
            Setting::Moment => "datetime",
        }
    }
}

} // verus!
