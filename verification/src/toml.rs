use vstd::prelude::*;

verus! {

/// A TOML value as this library reads it. Floats and datetimes keep the text that their
/// `Display` gives.
#[derive(Debug)]
pub enum TomlValue {
    String(String),
    Integer(i64),
    Float(String),
    Boolean(bool),
    Datetime(String),
    Array(Vec<TomlValue>),
    Table(Vec<TomlEntry>),
}

/// One key of a TOML table with its value.
#[derive(Debug)]
pub struct TomlEntry {
    pub key: String,
    pub value: TomlValue,
}

/// The first value stored under `key` in `entries`.
pub open spec fn lookup(entries: Seq<TomlEntry>, key: Seq<char>) -> Option<TomlValue>
    decreases entries.len(),
{
    if entries.len() == 0 {
        None
    } else if entries[0].key@ == key {
        Some(entries[0].value)
    } else {
        lookup(entries.drop_first(), key)
    }
}

/// `entries` holds some entry under `key`.
pub open spec fn has_key(entries: Seq<TomlEntry>, key: Seq<char>) -> bool {
    exists|i: int| 0 <= i < entries.len() && (#[trigger] entries[i]).key@ == key
}

/// `lookup` finds a value exactly when some entry has the key.
pub proof fn lemma_lookup_has_key(entries: Seq<TomlEntry>, key: Seq<char>)
    ensures
        lookup(entries, key) is Some <==> has_key(entries, key),
    decreases entries.len(),
{
    if entries.len() > 0 {
        lemma_lookup_has_key(entries.drop_first(), key);
        if has_key(entries, key) && entries[0].key@ != key {
            let i = choose|i: int| 0 <= i < entries.len() && (#[trigger] entries[i]).key@ == key;
            assert(entries.drop_first()[i - 1] == entries[i]);
        }
        if has_key(entries.drop_first(), key) {
            let i = choose|i: int|
                0 <= i < entries.drop_first().len() && (#[trigger] entries.drop_first()[i]).key@ == key;
            assert(entries[i + 1] == entries.drop_first()[i]);
        }
    }
}

/// The table that TOML source `source` denotes, entries in the order the `toml` crate
/// iterates them, or the text of the `toml` crate's error.
pub uninterp spec fn toml_document(source: Seq<char>) -> Result<Seq<TomlEntry>, Seq<char>>;

#[verifier::external_type_specification]
#[verifier::external_body]
#[verifier::reject_recursive_types(K)]
#[verifier::reject_recursive_types(V)]
pub struct ExTomlMap<K, V>(toml::map::Map<K, V>);

#[verifier::external_type_specification]
#[verifier::external_body]
pub struct ExTomlValue(toml::Value);

/// Parses `source` as a TOML document with `toml::from_str::<toml::Table>`; on failure it
/// returns the `Display` text of `toml::de::Error`. Claimed: the result is a function of
/// `source` alone, named `toml_document`.
#[verifier::external_body]
pub(crate) fn parse_toml(source: &str) -> (r: Result<Vec<TomlEntry>, String>)
    ensures
        match r {
            Ok(entries) => toml_document(source@) == Ok::<Seq<TomlEntry>, Seq<char>>(entries@),
            Err(message) => toml_document(source@) == Err::<Seq<TomlEntry>, Seq<char>>(message@),
        },
{
    match toml::from_str::<toml::Table>(source) {
        Ok(table) => Ok(entries_from_toml(table)),
        Err(error) => Err(error.to_string()),
    }
}

/// Moves the entries of a `toml::Table` into this library's model, in iteration order;
/// used by `parse_toml` only.
#[verifier::external_body]
fn entries_from_toml(table: toml::Table) -> Vec<TomlEntry> {
    table.into_iter().map(|(key, value)| TomlEntry { key, value: value_from_toml(value) }).collect()
}

/// Moves one `toml::Value` into this library's model, variant for variant; used by
/// `entries_from_toml` only.
#[verifier::external_body]
fn value_from_toml(value: toml::Value) -> TomlValue {
    match value {
        toml::Value::String(text) => TomlValue::String(text),
        toml::Value::Integer(number) => TomlValue::Integer(number),
        toml::Value::Float(number) => TomlValue::Float(number.to_string()),
        toml::Value::Boolean(flag) => TomlValue::Boolean(flag),
        toml::Value::Datetime(moment) => TomlValue::Datetime(moment.to_string()),
        toml::Value::Array(items) => TomlValue::Array(items.into_iter().map(value_from_toml).collect()),
        toml::Value::Table(table) => TomlValue::Table(entries_from_toml(table)),
    }
}

/// The index of the first entry stored under `key`.
pub fn find_key(entries: &Vec<TomlEntry>, key: &str) -> (r: Option<usize>)
    ensures
        match r {
            Some(i) => i < entries.len() && entries@[i as int].key@ == key@ && lookup(entries@, key@)
                == Some(entries@[i as int].value) && forall|j: int|
                0 <= j < i ==> (#[trigger] entries@[j]).key@ != key@,
            None => lookup(entries@, key@) is None && !has_key(entries@, key@),
        },
{
    let mut i: usize = 0;
    let key_string = key.to_owned();
    assert(entries@.subrange(0, entries.len() as int) =~= entries@);
    while i < entries.len()
        invariant
            i <= entries.len(),
            key_string@ == key@,
            lookup(entries@, key@) == lookup(entries@.subrange(i as int, entries.len() as int), key@),
            forall|j: int| 0 <= j < i ==> (#[trigger] entries@[j]).key@ != key@,
        decreases entries.len() - i,
    {
        assert(entries@.subrange(i as int, entries.len() as int).drop_first() =~= entries@.subrange(
            i + 1,
            entries.len() as int,
        ));
        if entries[i].key.eq(&key_string) {
            return Some(i);
        }
        i += 1;
    }
    assert(entries@.subrange(i as int, entries.len() as int) =~= Seq::<TomlEntry>::empty());
    None
}

} // verus!
