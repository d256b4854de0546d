//! The TOML reader that the manifest and lock decoders are built on.
//!
//! The `toml` crate parses the text and hands out tables and values; this
//! module gives those values names that contracts can speak of, and one
//! trusted function per call into the crate.
use vstd::prelude::*;
use toml::Table;
use toml::Value;
use crate::text::texts;

verus! {

/// `toml::map::Map`, the crate's table type (`toml::Table` is this type with
/// `String` keys and `toml::Value` values).
#[verifier::external_type_specification]
#[verifier::external_body]
#[verifier::reject_recursive_types(K)]
#[verifier::reject_recursive_types(V)]
pub struct ExTomlMap<K, V>(toml::map::Map<K, V>);

/// `toml::Value`, one value of a TOML document.
#[verifier::external_type_specification]
#[verifier::external_body]
pub struct ExTomlValue(toml::Value);

/// The table that the `toml` crate reads from a text; `None` where it
/// rejects the text.
pub uninterp spec fn parsed_table(text: Seq<char>) -> Option<Table>;

/// The entries of a table, by key.
pub uninterp spec fn table_entries(table: Table) -> Map<Seq<char>, Value>;

/// The text of a value that is a TOML string; `None` for every other value.
pub uninterp spec fn value_text(value: Value) -> Option<Seq<char>>;

/// The table of a value that is a TOML table; `None` for every other value.
pub uninterp spec fn value_table(value: Value) -> Option<Table>;

/// The items of a value that is a TOML array; `None` for every other value.
pub uninterp spec fn value_items(value: Value) -> Option<Seq<Value>>;

/// Trusted: `str::parse::<toml::Table>` (the crate's `FromStr` for `Table`).
/// The table it returns is the one named `parsed_table`; its error value is
/// dropped, so a rejected text gives `None`.
#[verifier::external_body]
pub(crate) fn parse_table(text: &str) -> (r: Option<Table>)
    ensures
        r == parsed_table(text@),
{
    text.parse::<Table>().ok()
}

/// Trusted: `toml::map::Map::get`. It returns the value bound to `key`, and
/// `None` where the table has no such key.
#[verifier::external_body]
pub(crate) fn table_get<'a>(table: &'a Table, key: &str) -> (r: Option<&'a Value>)
    ensures
        r is Some <==> table_entries(*table).contains_key(key@),
        r is Some ==> *r->0 == table_entries(*table)[key@],
{
    table.get(key)
}

/// Trusted: `toml::map::Map::keys`, collected. Every key of the table comes
/// out once; nothing else does.
#[verifier::external_body]
pub(crate) fn table_keys(table: &Table) -> (r: Vec<String>)
    ensures
        texts(r@).no_duplicates(),
        forall|k: Seq<char>| #[trigger] texts(r@).contains(k) <==> table_entries(*table).contains_key(k),
{
    table.keys().cloned().collect()
}

/// Trusted: `toml::Value::as_str`. It returns the text of a string value and
/// `None` for any other value.
#[verifier::external_body]
pub(crate) fn value_as_str<'a>(value: &'a Value) -> (r: Option<&'a str>)
    ensures
        r is Some <==> value_text(*value) is Some,
        r is Some ==> r->0@ == value_text(*value)->0,
{
    value.as_str()
}

/// Trusted: `toml::Value::as_table`. It returns the table of a table value
/// and `None` for any other value.
#[verifier::external_body]
pub(crate) fn value_as_table<'a>(value: &'a Value) -> (r: Option<&'a Table>)
    ensures
        r is Some <==> value_table(*value) is Some,
        r is Some ==> *r->0 == value_table(*value)->0,
{
    value.as_table()
}

/// Trusted: `toml::Value::as_array`. It returns the items of an array value
/// and `None` for any other value.
#[verifier::external_body]
pub(crate) fn value_as_array<'a>(value: &'a Value) -> (r: Option<&'a Vec<Value>>)
    ensures
        r is Some <==> value_items(*value) is Some,
        r is Some ==> r->0@ == value_items(*value)->0,
{
    value.as_array()
}

} // verus!
