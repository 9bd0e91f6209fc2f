//! JSON documents built by the library: strings, arrays and objects whose
//! fields keep the order they were added in.
use vstd::prelude::*;

use crate::text::{chars_of, push_char, string_from};

verus! {

/// A JSON value.
#[derive(Debug, PartialEq, Eq)]
pub enum JsonValue {
    Str(String),
    Array(Vec<JsonValue>),
    Object(Vec<JsonField>),
}

/// One field of a JSON object.
#[derive(Debug, PartialEq, Eq)]
pub struct JsonField {
    pub key: String,
    pub value: JsonValue,
}

/// The mathematical model of a JSON value.
pub enum JsonModel {
    Str(Seq<char>),
    Array(Seq<JsonModel>),
    Object(Seq<(Seq<char>, JsonModel)>),
}

impl JsonValue {
    /// The model of this value.
    pub open spec fn model(&self) -> JsonModel
        decreases self, 0nat,
    {
        match self {
            JsonValue::Str(s) => JsonModel::Str(s@),
            JsonValue::Array(items) => JsonModel::Array(item_models(items@)),
            JsonValue::Object(fields) => JsonModel::Object(field_models(fields@)),
        }
    }
}

/// The models of a sequence of values.
pub open spec fn item_models(items: Seq<JsonValue>) -> Seq<JsonModel>
    decreases items, items.len(),
{
    if items.len() == 0 {
        Seq::empty()
    } else {
        item_models(items.drop_last()).push(items.last().model())
    }
}

/// There is one model per value.
pub proof fn lemma_item_models_len(items: Seq<JsonValue>)
    ensures
        item_models(items).len() == items.len(),
    decreases items.len(),
{
    if items.len() > 0 {
        lemma_item_models_len(items.drop_last());
    }
}

/// Appending a value appends its model.
pub proof fn lemma_item_models_push(items: Seq<JsonValue>, x: JsonValue)
    ensures
        item_models(items.push(x)) == item_models(items).push(x.model()),
{
    assert(items.push(x).drop_last() == items);
}

/// The models of a sequence of object fields.
pub open spec fn field_models(fields: Seq<JsonField>) -> Seq<(Seq<char>, JsonModel)>
    decreases fields, fields.len(),
{
    if fields.len() == 0 {
        Seq::empty()
    } else {
        field_models(fields.drop_last()).push((fields.last().key@, fields.last().value.model()))
    }
}

/// A JSON string holding `s`.
pub fn json_str(s: &str) -> (v: JsonValue)
    ensures
        v.model() == JsonModel::Str(s@),
{
    JsonValue::Str(string_from(s))
}

/// A JSON array of strings.
pub fn json_str_array(items: &Vec<String>) -> (v: JsonValue)
    ensures
        v.model() == JsonModel::Array(
            items.deep_view().map_values(|s: Seq<char>| JsonModel::Str(s)),
        ),
{
    let mut out: Vec<JsonValue> = Vec::new();
    let mut i: usize = 0;
    while i < items.len()
        invariant
            i <= items.len(),
            item_models(out@) == items.deep_view().take(i as int).map_values(
                |s: Seq<char>| JsonModel::Str(s),
            ),
        decreases items.len() - i,
    {
        let item = json_str(items[i].as_str());
        let ghost before = out@;
        out.push(item);
        assert(out@.drop_last() == before);
        i = i + 1;
        assert(item_models(out@) =~= items.deep_view().take(i as int).map_values(
            |s: Seq<char>| JsonModel::Str(s),
        ));
    }
    assert(items.deep_view().take(items.len() as int) == items.deep_view());
    JsonValue::Array(out)
}

/// Adds the field `key: value` to the end of an object's fields.
pub fn push_field(fields: &mut Vec<JsonField>, key: &str, value: JsonValue)
    ensures
        field_models(final(fields)@) == field_models(old(fields)@).push((key@, value.model())),
{
    let ghost before = fields@;
    fields.push(JsonField { key: string_from(key), value });
    assert(fields@.drop_last() == before);
}

/// The lower-case hexadecimal digits.
pub open spec fn hex_digits() -> Seq<char> {
    seq!['0', '1', '2', '3', '4', '5', '6', '7', '8', '9', 'a', 'b', 'c', 'd', 'e', 'f']
}

/// The JSON text of one character inside a string literal: `"` and `\`
/// escaped with a backslash, the other control characters below U+0020 as
/// `\u00XX`, every other character as itself.
pub open spec fn escaped_char(c: char) -> Seq<char> {
    if c == '"' {
        seq!['\\', '"']
    } else if c == '\\' {
        seq!['\\', '\\']
    } else if (c as u32) < 0x20 {
        seq!['\\', 'u', '0', '0', hex_digits()[((c as u32) / 16) as int], hex_digits()[((c as u32) % 16) as int]]
    } else {
        seq![c]
    }
}

/// The escaped characters of `s`.
pub open spec fn escaped(s: Seq<char>) -> Seq<char>
    decreases s.len(),
{
    if s.len() == 0 {
        Seq::empty()
    } else {
        escaped(s.drop_last()) + escaped_char(s.last())
    }
}

/// The JSON string literal holding `s`.
pub open spec fn quoted(s: Seq<char>) -> Seq<char> {
    seq!['"'] + escaped(s) + seq!['"']
}

/// The compact JSON text of a value: no whitespace, object fields in order.
pub open spec fn json_text(m: JsonModel) -> Seq<char>
    decreases m, 0nat,
{
    match m {
        JsonModel::Str(s) => quoted(s),
        JsonModel::Array(items) => seq!['['] + items_text(items, items.len()) + seq![']'],
        JsonModel::Object(fields) => seq!['{'] + fields_text(fields, fields.len()) + seq!['}'],
    }
}

/// The JSON texts of the first `n` items, separated by commas.
pub open spec fn items_text(items: Seq<JsonModel>, n: nat) -> Seq<char>
    decreases items, n,
{
    if n == 0 || n > items.len() {
        Seq::empty()
    } else {
        let sep = if n > 1 {
            seq![',']
        } else {
            Seq::empty()
        };
        items_text(items, (n - 1) as nat) + sep + json_text(items[n - 1])
    }
}

/// The JSON texts `"key":value` of the first `n` fields, separated by commas.
pub open spec fn fields_text(fields: Seq<(Seq<char>, JsonModel)>, n: nat) -> Seq<char>
    decreases fields, n,
{
    if n == 0 || n > fields.len() {
        Seq::empty()
    } else {
        let sep = if n > 1 {
            seq![',']
        } else {
            Seq::empty()
        };
        fields_text(fields, (n - 1) as nat) + sep + quoted(fields[n - 1].0) + seq![':']
            + json_text(fields[n - 1].1)
    }
}

/// Appends the JSON string literal holding `s`.
fn push_quoted(out: &mut String, s: &str)
    ensures
        final(out)@ == old(out)@ + quoted(s@),
{
    let digits = vec!['0', '1', '2', '3', '4', '5', '6', '7', '8', '9', 'a', 'b', 'c', 'd', 'e', 'f'];
    assert(digits@ == hex_digits());
    let cs = chars_of(s);
    let ghost start = old(out)@;
    push_char(out, '"');
    let mut i: usize = 0;
    assert(cs@.take(0) =~= Seq::<char>::empty());
    while i < cs.len()
        invariant
            i <= cs.len(),
            cs@ == s@,
            digits@ == hex_digits(),
            out@ == start + seq!['"'] + escaped(cs@.take(i as int)),
        decreases cs.len() - i,
    {
        let c = cs[i];
        let ghost before = out@;
        if c == '"' {
            push_char(out, '\\');
            push_char(out, '"');
        } else if c == '\\' {
            push_char(out, '\\');
            push_char(out, '\\');
        } else if (c as u32) < 0x20 {
            let u = c as u32;
            push_char(out, '\\');
            push_char(out, 'u');
            push_char(out, '0');
            push_char(out, '0');
            push_char(out, digits[(u / 16) as usize]);
            push_char(out, digits[(u % 16) as usize]);
        } else {
            push_char(out, c);
        }
        assert(out@ =~= before + escaped_char(c));
        assert(cs@.take(i + 1).drop_last() == cs@.take(i as int));
        i = i + 1;
    }
    assert(cs@.take(cs.len() as int) == cs@);
    push_char(out, '"');
    assert(out@ =~= start + quoted(s@));
}

/// Appends the compact JSON text of `v`.
pub fn write_json(out: &mut String, v: &JsonValue)
    ensures
        final(out)@ == old(out)@ + json_text(v.model()),
    decreases v,
{
    let ghost start = old(out)@;
    match v {
        JsonValue::Str(s) => push_quoted(out, s.as_str()),
        JsonValue::Array(items) => {
            let ghost models = item_models(items@);
            proof {
                lemma_item_models_len(items@);
            }
            push_char(out, '[');
            let mut i: usize = 0;
            while i < items.len()
                invariant
                    i <= items.len(),
                    models == item_models(items@),
                    *v == JsonValue::Array(*items),
                    models.len() == items.len(),
                    out@ == start + seq!['['] + items_text(models, i as nat),
                decreases items.len() - i,
            {
                let ghost before = out@;
                if i > 0 {
                    push_char(out, ',');
                }
                proof {
                    lemma_item_model_at(items@, i as int);
                    assert(v->Array_0 == *items);
                    assert(decreases_to!(*v => v->Array_0));
                    assert(decreases_to!(*items => items[i as int])) by {
                        broadcast use vstd::std_specs::vec::axiom_vec_index_decreases;

                    }
                }
                write_json(out, &items[i]);
                i = i + 1;
                assert(out@ =~= start + seq!['['] + items_text(models, i as nat));
            }
            push_char(out, ']');
            assert(out@ =~= start + json_text(v.model()));
        },
        JsonValue::Object(fields) => {
            let ghost models = field_models(fields@);
            proof {
                lemma_field_models_len(fields@);
            }
            push_char(out, '{');
            let mut i: usize = 0;
            while i < fields.len()
                invariant
                    i <= fields.len(),
                    models == field_models(fields@),
                    *v == JsonValue::Object(*fields),
                    models.len() == fields.len(),
                    out@ == start + seq!['{'] + fields_text(models, i as nat),
                decreases fields.len() - i,
            {
                let ghost before = out@;
                if i > 0 {
                    push_char(out, ',');
                }
                proof {
                    lemma_field_model_at(fields@, i as int);
                    assert(v->Object_0 == *fields);
                    assert(decreases_to!(*v => v->Object_0));
                    assert(decreases_to!(*fields => fields[i as int])) by {
                        broadcast use vstd::std_specs::vec::axiom_vec_index_decreases;

                    }
                    assert(decreases_to!(fields[i as int] => fields[i as int].value));
                }
                push_quoted(out, fields[i].key.as_str());
                push_char(out, ':');
                write_json(out, &fields[i].value);
                i = i + 1;
                assert(out@ =~= start + seq!['{'] + fields_text(models, i as nat));
            }
            push_char(out, '}');
            assert(out@ =~= start + json_text(v.model()));
        },
    }
}

/// The model of the `i`-th item is the `i`-th item model.
proof fn lemma_item_model_at(items: Seq<JsonValue>, i: int)
    requires
        0 <= i < items.len(),
    ensures
        item_models(items)[i] == items[i].model(),
    decreases items.len(),
{
    lemma_item_models_len(items.drop_last());
    if i < items.len() - 1 {
        lemma_item_model_at(items.drop_last(), i);
    }
}

/// There is one model per field.
proof fn lemma_field_models_len(fields: Seq<JsonField>)
    ensures
        field_models(fields).len() == fields.len(),
    decreases fields.len(),
{
    if fields.len() > 0 {
        lemma_field_models_len(fields.drop_last());
    }
}

/// The model of the `i`-th field is the `i`-th field model.
proof fn lemma_field_model_at(fields: Seq<JsonField>, i: int)
    requires
        0 <= i < fields.len(),
    ensures
        field_models(fields)[i] == (fields[i].key@, fields[i].value.model()),
    decreases fields.len(),
{
    lemma_field_models_len(fields.drop_last());
    if i < fields.len() - 1 {
        lemma_field_model_at(fields.drop_last(), i);
    }
}

/// The compact JSON text of `v`.
pub fn json_string(v: &JsonValue) -> (text: String)
    ensures
        text@ == json_text(v.model()),
{
    let mut text = String::new();
    write_json(&mut text, v);
    text
}

} // verus!
