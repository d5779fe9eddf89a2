//! TOML tables: what they hold, and the calls of the `toml` crate that read and fill them.

use crate::keyed::lists_in_order;
use vstd::prelude::*;

verus! {

#[verifier::external_type_specification]
#[verifier::external_body]
#[verifier::reject_recursive_types(K)]
#[verifier::reject_recursive_types(V)]
pub struct ExMap<K, V>(toml::map::Map<K, V>);

#[verifier::external_type_specification]
#[verifier::external_body]
pub struct ExValue(toml::Value);

/// What stands under a key: a table of its own, or a value that is none.
pub enum Node {
    Section(Map<Seq<char>, Node>),
    Leaf(toml::Value),
}

/// What stands under each key of a table.
pub uninterp spec fn entries(table: toml::map::Map<String, toml::Value>) -> Map<Seq<char>, Node>;

/// What a value is.
pub uninterp spec fn node(value: toml::Value) -> Node;

/// What a text reads as: the keys of the table that it describes, or the message of the error
/// that it is.
pub uninterp spec fn parsed(text: Seq<char>) -> Result<Map<Seq<char>, Node>, Seq<char>>;

/// The text that describes a table, or the message of the error that prevents it.
pub uninterp spec fn pretty(table: Map<Seq<char>, Node>) -> Result<Seq<char>, Seq<char>>;

/// Calls `toml::from_str` for a `toml::Table`. What comes out is a function of the text alone: a
/// table, or an error of which the message is kept.
#[verifier::external_body]
pub(crate) fn parse_table(text: &str) -> (r: Result<toml::Table, String>)
    ensures
        match r {
            Ok(table) => parsed(text@) == Ok::<Map<Seq<char>, Node>, Seq<char>>(entries(table)),
            Err(message) => parsed(text@) == Err::<Map<Seq<char>, Node>, Seq<char>>(message@),
        },
{
    toml::from_str::<toml::Table>(text).map_err(|e| e.to_string())
}

/// Calls `toml::to_string_pretty` on a table. What comes out is a function of what the table
/// holds: a text, or an error of which the message is kept.
#[verifier::external_body]
pub(crate) fn pretty_text(table: &toml::Table) -> (r: Result<String, String>)
    ensures
        match r {
            Ok(text) => pretty(entries(*table)) == Ok::<Seq<char>, Seq<char>>(text@),
            Err(message) => pretty(entries(*table)) == Err::<Seq<char>, Seq<char>>(message@),
        },
{
    toml::to_string_pretty(table).map_err(|e| e.to_string())
}

/// Calls `toml::map::Map::keys`, which gives each key of the table once, in the order of texts.
#[verifier::external_body]
pub(crate) fn table_keys(table: &toml::Table) -> (r: Vec<String>)
    ensures
        lists_in_order(r.deep_view(), entries(*table).dom()),
{
    table.keys().cloned().collect()
}

/// Calls `toml::map::Map::get`, which looks a key up.
#[verifier::external_body]
pub(crate) fn table_get<'a>(table: &'a toml::Table, key: &str) -> (r: Option<&'a toml::Value>)
    ensures
        match r {
            Some(value) => entries(*table).contains_key(key@) && node(*value) == entries(
                *table,
            )[key@],
            None => !entries(*table).contains_key(key@),
        },
{
    table.get(key)
}

/// Calls `toml::map::Map::get_mut`, which looks a key up and lends what stands under it: what the
/// borrower leaves there is what the key then has, and no other key is touched.
#[verifier::external_body]
pub(crate) fn table_get_mut<'a>(table: &'a mut toml::Table, key: &str) -> (r: Option<
    &'a mut toml::Value,
>)
    ensures
        match r {
            Some(value) => {
                &&& entries(*old(table)).contains_key(key@)
                &&& node(*value) == entries(*old(table))[key@]
                &&& entries(*final(table)) == entries(*old(table)).insert(
                    key@,
                    node(*final(value)),
                )
            },
            None => {
                &&& !entries(*old(table)).contains_key(key@)
                &&& entries(*final(table)) == entries(*old(table))
            },
        },
{
    table.get_mut(key)
}

/// Calls `toml::map::Map::insert`, which gives a key a value and hands back the one that it had.
#[verifier::external_body]
pub(crate) fn table_insert(table: &mut toml::Table, key: String, value: toml::Value) -> (r: Option<
    toml::Value,
>)
    ensures
        entries(*final(table)) == entries(*old(table)).insert(key@, node(value)),
        match r {
            Some(previous) => entries(*old(table)).contains_key(key@) && node(previous) == entries(
                *old(table),
            )[key@],
            None => !entries(*old(table)).contains_key(key@),
        },
{
    table.insert(key, value)
}

/// Calls `toml::Value::as_table`, which gives the table that a value is, if it is one.
#[verifier::external_body]
pub(crate) fn as_table(value: &toml::Value) -> (r: Option<&toml::Table>)
    ensures
        match r {
            Some(table) => node(*value) == Node::Section(entries(*table)),
            None => node(*value) is Leaf,
        },
{
    value.as_table()
}

/// Calls `toml::Value::as_table_mut`, which lends the table that a value is, if it is one: the
/// value is then the table that the borrower leaves.
#[verifier::external_body]
pub(crate) fn as_table_mut(value: &mut toml::Value) -> (r: Option<&mut toml::Table>)
    ensures
        match r {
            Some(table) => {
                &&& node(*old(value)) == Node::Section(entries(*table))
                &&& node(*final(value)) == Node::Section(entries(*final(table)))
            },
            None => {
                &&& node(*old(value)) is Leaf
                &&& node(*final(value)) == node(*old(value))
            },
        },
{
    value.as_table_mut()
}

/// Calls `toml::Value::clone`, which gives the same value again.
#[verifier::external_body]
pub(crate) fn copy_value(value: &toml::Value) -> (r: toml::Value)
    ensures
        node(r) == node(*value),
{
    value.clone()
}

} // verus!
