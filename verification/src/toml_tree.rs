use vstd::prelude::*;

verus! {

/// A value of a TOML document, as far as its structure is read here.
#[verifier::external_type_specification]
#[verifier::external_body]
pub struct ExValue(toml::Value);

/// Why a text is no TOML document.
#[verifier::external_type_specification]
#[verifier::external_body]
pub struct ExSyntaxError(toml::de::Error);

/// Why a value cannot be written as a TOML document.
#[verifier::external_type_specification]
#[verifier::external_body]
pub struct ExPrintError(toml::ser::Error);

/// The structure of a TOML value: a string, a table of values by key, or
/// any other value, which is carried as it is.
pub ghost enum Tree {
    Text(Seq<char>),
    Table(Map<Seq<char>, Tree>),
    Other(toml::Value),
}

/// The structure of a value: `Text` for `toml::Value::String`, `Table` with
/// the structure of each entry for `toml::Value::Table`, and `Other` with
/// the value itself for every other variant.
pub uninterp spec fn content(value: toml::Value) -> Tree;

/// The structure of the document that `toml::from_str` reads from a text,
/// where it accepts the text.
pub uninterp spec fn parsed(text: Seq<char>) -> Option<Tree>;

/// The text that `toml::to_string_pretty` writes for a value of the given
/// structure, where it can write one.
pub uninterp spec fn printed(doc: Tree) -> Option<Seq<char>>;

/// Calls `toml::from_str` for a `toml::Value`. The contract names what the
/// parser reads and says no more of it: the value has the structure
/// `parsed` of the text, and the call fails exactly where `parsed` is
/// `None`.
#[verifier::external_body]
pub(crate) fn parse_document(text: &str) -> (read: Result<toml::Value, toml::de::Error>)
    ensures
        match read {
            Ok(doc) => parsed(text@) == Some(content(doc)),
            Err(_) => parsed(text@) is None,
        },
{
    toml::from_str::<toml::Value>(text)
}

/// Calls `toml::to_string_pretty` on a value. The contract names what the
/// printer writes: the text is `printed` of the value's structure, and the
/// call fails exactly where `printed` is `None`.
#[verifier::external_body]
pub(crate) fn print_document(doc: &toml::Value) -> (written: Result<String, toml::ser::Error>)
    ensures
        match written {
            Ok(text) => printed(content(*doc)) == Some(text@),
            Err(_) => printed(content(*doc)) is None,
        },
{
    toml::to_string_pretty(doc)
}

/// Calls `toml::Value::is_str`: whether the value is a string.
#[verifier::external_body]
pub(crate) fn is_text(value: &toml::Value) -> (yes: bool)
    ensures
        yes == (content(*value) is Text),
{
    value.is_str()
}

/// Calls `toml::Value::is_table`: whether the value is a table.
#[verifier::external_body]
pub(crate) fn is_table(value: &toml::Value) -> (yes: bool)
    ensures
        yes == (content(*value) is Table),
{
    value.is_table()
}

/// Builds `toml::Value::String` from a text.
#[verifier::external_body]
pub(crate) fn text_value(text: String) -> (value: toml::Value)
    ensures
        content(value) == Tree::Text(text@),
{
    toml::Value::String(text)
}

/// Builds `toml::Value::Table` from an empty map.
#[verifier::external_body]
pub(crate) fn empty_table() -> (value: toml::Value)
    ensures
        content(value) == Tree::Table(Map::<Seq<char>, Tree>::empty()),
{
    toml::Value::Table(toml::value::Table::new())
}

/// Calls `toml::Value::as_table_mut` and removes the entry under `key` from
/// the table, if the value is a table and has one. The entry is handed out;
/// the table keeps its other entries. Any other value is left as it is.
#[verifier::external_body]
pub(crate) fn take_entry(table: &mut toml::Value, key: &str) -> (taken: Option<toml::Value>)
    ensures
        match content(*old(table)) {
            Tree::Table(entries) => if entries.contains_key(key@) {
                &&& taken matches Some(value)
                &&& content(value) == entries[key@]
                &&& content(*final(table)) == Tree::Table(entries.remove(key@))
            } else {
                taken is None && *final(table) == *old(table)
            },
            _ => taken is None && *final(table) == *old(table),
        },
{
    match table.as_table_mut() {
        Some(entries) => entries.remove(key),
        None => None,
    }
}

/// Calls `toml::Value::as_table_mut` and inserts `value` under `key` into
/// the table, if the value is a table; an entry that the key had is
/// replaced. Any other value is left as it is.
#[verifier::external_body]
pub(crate) fn put_entry(table: &mut toml::Value, key: String, value: toml::Value)
    ensures
        match content(*old(table)) {
            Tree::Table(entries) => content(*final(table)) == Tree::Table(
                entries.insert(key@, content(value)),
            ),
            _ => *final(table) == *old(table),
        },
{
    match table.as_table_mut() {
        Some(entries) => {
            entries.insert(key, value);
        },
        None => {},
    }
}

} // verus!
