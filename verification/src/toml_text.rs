//! Arrays of strings that `toml` reads from a document: the dependencies of
//! `ruv.toml` and the manifest of the lock file.
use vstd::prelude::*;

verus! {

/// What `toml` reads as the array under `key` of the table `table` of the
/// document `text`: `Err` with toml's message where `text` is not TOML,
/// `Ok(None)` where there is no such array, and otherwise the entries in
/// order, each its text, or `None` for an entry that is not a string.
pub uninterp spec fn toml_string_array(text: Seq<char>, table: Seq<char>, key: Seq<char>) -> Result<
    Option<Seq<Option<Seq<char>>>>,
    Seq<char>,
>;

/// The text of an optional string.
pub open spec fn opt_text(e: Option<String>) -> Option<Seq<char>> {
    match e {
        Some(s) => Some(s@),
        None => None,
    }
}

/// The view of what reading an array gave.
pub open spec fn entries_view(r: Result<Option<Vec<Option<String>>>, String>) -> Result<
    Option<Seq<Option<Seq<char>>>>,
    Seq<char>,
> {
    match r {
        Ok(Some(v)) => Ok(Some(v@.map_values(|e: Option<String>| opt_text(e)))),
        Ok(None) => Ok(None),
        Err(m) => Err(m@),
    }
}

/// Calls `toml::from_str` for a `toml::Value`, then `Value::get` for `table`
/// and `key`, `Value::as_array`, and `Value::as_str` on each entry; a parse
/// error becomes its `Display` text. The contract claims only that the result
/// is `toml_string_array` of the text, the table and the key.
#[verifier::external_body]
pub(crate) fn read_string_array(text: &str, table: &str, key: &str) -> (r: Result<
    Option<Vec<Option<String>>>,
    String,
>)
    ensures
        entries_view(r) == toml_string_array(text@, table@, key@),
{
    let root: toml::Value = match toml::from_str(text) {
        Ok(v) => v,
        Err(e) => return Err(e.to_string()),
    };
    let arr = root.get(table).and_then(|v| v.get(key)).and_then(|v| v.as_array());
    Ok(arr.map(|a| a.iter().map(|v| v.as_str().map(|s| s.to_string())).collect()))
}

/// Every entry of the array is a string.
pub open spec fn all_strings(es: Seq<Option<Seq<char>>>) -> bool {
    forall|i: int| 0 <= i < es.len() ==> (#[trigger] es[i]) is Some
}

/// The texts of entries that are all strings.
pub open spec fn entry_texts(es: Seq<Option<Seq<char>>>) -> Seq<Seq<char>> {
    es.map_values(|e: Option<Seq<char>>| e->0)
}

} // verus!
