//! Plain representation of a parsed rule-configuration document, and the
//! trusted bridge to the TOML parser that produces it.

use vstd::prelude::*;

verus! {

/// A parsed configuration value, holding as plain data exactly what the
/// rule loader reads: strings, arrays, and key-value tables. Every other
/// kind of value (numbers, booleans, datetimes) is `Scalar`; the loader
/// never looks inside those.
pub enum ConfVal {
    Text(String),
    List(Vec<ConfVal>),
    Table(Vec<(String, ConfVal)>),
    Scalar,
}

#[verifier::external_type_specification]
#[verifier::external_body]
pub struct ExTomlValue(toml::Value);

/// The configuration document that the TOML parser derives from a text, or
/// `None` where the text is not well-formed TOML. The result depends on the
/// text alone.
pub uninterp spec fn toml_doc_of(s: Seq<char>) -> Option<ConfVal>;

/// Relies on toml::Value's variants: each is carried over one for one, with
/// table entries in the parser's iteration order.
#[verifier::external_body]
fn conf_of_value(v: toml::Value) -> ConfVal {
    match v {
        toml::Value::String(s) => ConfVal::Text(s),
        toml::Value::Array(items) => ConfVal::List(
            items.into_iter().map(conf_of_value).collect(),
        ),
        toml::Value::Table(table) => ConfVal::Table(
            table.into_iter().map(|(k, x)| (k, conf_of_value(x))).collect(),
        ),
        _ => ConfVal::Scalar,
    }
}

/// Relies on toml::from_str::<toml::Value>: parses the text as a TOML
/// document, whose shape depends on the text alone; a malformed document
/// yields an error.
#[verifier::external_body]
pub fn parse_config(s: &str) -> (r: Option<ConfVal>)
    ensures
        r == toml_doc_of(s@),
{
    match toml::from_str::<toml::Value>(s) {
        Ok(v) => Some(conf_of_value(v)),
        Err(_) => None,
    }
}

/// The value under a key in a table: the first entry whose key matches.
pub open spec fn tab_get(pairs: Seq<(String, ConfVal)>, key: Seq<char>) -> Option<ConfVal>
    decreases pairs.len(),
{
    if pairs.len() == 0 {
        Option::None
    } else if pairs[0].0@ == key {
        Option::Some(pairs[0].1)
    } else {
        tab_get(pairs.drop_first(), key)
    }
}

proof fn lemma_tab_get_skip(pairs: Seq<(String, ConfVal)>, key: Seq<char>, i: int)
    requires
        0 <= i < pairs.len(),
        pairs[i].0@ != key,
    ensures
        tab_get(pairs.skip(i), key) == tab_get(pairs.skip(i + 1), key),
{
    assert(pairs.skip(i).len() > 0);
    assert(pairs.skip(i)[0] == pairs[i]);
    assert(pairs.skip(i).drop_first() =~= pairs.skip(i + 1));
}

/// Looks a key up in a table, returning the first entry whose key matches.
pub fn conf_get<'a>(pairs: &'a Vec<(String, ConfVal)>, key: &str) -> (r: Option<&'a ConfVal>)
    ensures
        match r {
            Option::Some(v) => tab_get(pairs@, key@) == Option::Some(*v),
            Option::None => tab_get(pairs@, key@) is None,
        },
{
    let key_string = String::from_str(key);
    let n = pairs.len();
    let mut i: usize = 0;
    assert(pairs@.skip(0) =~= pairs@);
    while i < n
        invariant
            i <= n,
            n == pairs@.len(),
            key_string@ == key@,
            tab_get(pairs@.skip(i as int), key@) == tab_get(pairs@, key@),
        decreases n - i,
    {
        if pairs[i].0 == key_string {
            assert(pairs@.skip(i as int)[0] == pairs@[i as int]);
            return Some(&pairs[i].1);
        }
        proof {
            lemma_tab_get_skip(pairs@, key@, i as int);
        }
        i += 1;
    }
    assert(pairs@.skip(n as int) =~= Seq::<(String, ConfVal)>::empty());
    None
}

/// The strings among a sequence of configuration values, in order; values of
/// any other kind are passed over.
pub open spec fn text_items(items: Seq<ConfVal>) -> Seq<Seq<char>>
    decreases items.len(),
{
    if items.len() == 0 {
        Seq::empty()
    } else {
        text_items(items.drop_last()) + (match items.last() {
            ConfVal::Text(s) => seq![s@],
            _ => Seq::<Seq<char>>::empty(),
        })
    }
}

/// Collects the strings among a list of configuration values, in order.
pub fn list_texts(items: &Vec<ConfVal>) -> (r: Vec<String>)
    ensures
        r.deep_view() == text_items(items@),
{
    let mut r: Vec<String> = Vec::new();
    let n = items.len();
    let mut i: usize = 0;
    assert(items@.take(0) =~= Seq::<ConfVal>::empty());
    while i < n
        invariant
            i <= n,
            n == items@.len(),
            r.deep_view() == text_items(items@.take(i as int)),
        decreases n - i,
    {
        let ghost prefix = items@.take(i as int);
        match &items[i] {
            ConfVal::Text(s) => {
                r.push(s.clone());
            },
            _ => {},
        }
        proof {
            assert(items@.take(i + 1).drop_last() =~= prefix);
            assert(items@.take(i + 1).last() == items@[i as int]);
            assert(r.deep_view() =~= text_items(items@.take(i + 1)));
        }
        i += 1;
    }
    proof {
        assert(items@.take(n as int) =~= items@);
    }
    r
}

} // verus!
