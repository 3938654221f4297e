//! Room metadata: a table from keys to JSON values, read and changed one or
//! two levels deep.
//!
//! A value is kept as JSON text. The table itself is checked code; reading
//! a JSON object out of a text and writing one is left to `serde_json`.

use crate::seqs::{
    distinct_by, first_where, lemma_filter_distinct_by, lemma_filter_holds, lemma_first_where,
    lemma_first_where_is,
};
use crate::text::same_text;
use vstd::prelude::*;

verus! {

/// A key with the JSON text of its value.
#[derive(Debug, Clone, PartialEq, Eq)]
pub struct Field {
    pub key: String,
    pub value: String,
}

/// A [`Field`] as a mathematical value.
pub struct FieldView {
    pub key: Seq<char>,
    pub value: Seq<char>,
}

impl View for Field {
    type V = FieldView;

    open spec fn view(&self) -> FieldView {
        FieldView { key: self.key@, value: self.value@ }
    }
}

impl DeepView for Field {
    type V = FieldView;

    open spec fn deep_view(&self) -> FieldView {
        self@
    }
}

/// The fields of the JSON object that `text` holds, in the order in which
/// `serde_json` hands them out, each value as `serde_json` writes it; `None`
/// where `text` is no JSON object.
pub uninterp spec fn object_fields(text: Seq<char>) -> Option<Seq<FieldView>>;

/// The JSON text of the object with `fields`, as `serde_json` writes it;
/// `None` where the value of a field is no JSON text.
pub uninterp spec fn object_text(fields: Seq<FieldView>) -> Option<Seq<char>>;

/// Calls `serde_json::from_str` for a `serde_json::Value` and, where the
/// value is an object, hands out each entry with the text that `Value`'s
/// `to_string` gives. What comes back depends on `text` alone; nothing more
/// is claimed.
#[verifier::external_body]
fn parse_object(text: &str) -> (fields: Option<Vec<Field>>)
    ensures
        fields.deep_view() == object_fields(text@),
{
    match serde_json::from_str(text).ok()? {
        serde_json::Value::Object(object) => Some(
            object.into_iter().map(|(key, value)| Field { key, value: value.to_string() }).collect(),
        ),
        _ => None,
    }
}

/// Puts the fields into a `serde_json::Map`, each value read by
/// `serde_json::from_str`, and calls `serde_json::to_string` on it. What
/// comes back depends on `fields` alone; nothing more is claimed.
#[verifier::external_body]
fn write_object(fields: &Vec<Field>) -> (text: Option<String>)
    ensures
        text.deep_view() == object_text(fields.deep_view()),
{
    let mut object = serde_json::Map::new();
    for field in fields {
        object.insert(field.key.clone(), serde_json::from_str(&field.value).ok()?);
    }
    serde_json::to_string(&object).ok()
}

/// Holds of the fields with `key`.
pub open spec fn field_with(key: Seq<char>) -> spec_fn(FieldView) -> bool {
    |f: FieldView| f.key == key
}

/// Holds of the fields with another key than `key`.
pub open spec fn field_without(key: Seq<char>) -> spec_fn(FieldView) -> bool {
    |f: FieldView| f.key != key
}

/// The key of a field.
pub open spec fn key_of() -> spec_fn(FieldView) -> Seq<char> {
    |f: FieldView| f.key
}

/// The value of the first field with `key`.
pub open spec fn value_of(fields: Seq<FieldView>, key: Seq<char>) -> Option<Seq<char>> {
    let p = first_where(fields, field_with(key));
    if p < fields.len() {
        Some(fields[p].value)
    } else {
        None
    }
}

/// The fields with `key` set to `value`: in place of the first field with
/// that key, or behind the others where there is none.
pub open spec fn with_field(fields: Seq<FieldView>, key: Seq<char>, value: Seq<char>) -> Seq<
    FieldView,
> {
    let p = first_where(fields, field_with(key));
    if p < fields.len() {
        fields.update(p, FieldView { key, value })
    } else {
        fields.push(FieldView { key, value })
    }
}

/// The fields without those that have `key`.
pub open spec fn without_field(fields: Seq<FieldView>, key: Seq<char>) -> Seq<FieldView> {
    fields.filter(field_without(key))
}

/// The fields set one after another on top of `base`.
pub open spec fn with_fields(base: Seq<FieldView>, fields: Seq<FieldView>) -> Seq<FieldView>
    decreases fields.len(),
{
    if fields.len() == 0 {
        base
    } else {
        with_field(with_fields(base, fields.drop_last()), fields.last().key, fields.last().value)
    }
}

/// The fields that an object gets when `inner_key` is set in what stands
/// under a key: the fields that were read there, with the new one, or the
/// new one alone where no object was read.
pub open spec fn nested_with(
    nested: Option<Seq<FieldView>>,
    inner_key: Seq<char>,
    value: Seq<char>,
) -> Seq<FieldView> {
    match nested {
        Some(fields) => with_field(fields, inner_key, value),
        None => seq![FieldView { key: inner_key, value }],
    }
}

/// The table after `written` was stored under `key`; unchanged where
/// nothing was written.
pub open spec fn stored(fields: Seq<FieldView>, key: Seq<char>, written: Option<Seq<char>>) -> Seq<
    FieldView,
> {
    match written {
        Some(text) => with_field(fields, key, text),
        None => fields,
    }
}

/// What stands under `key` read as a JSON object.
pub open spec fn nested_fields(fields: Seq<FieldView>, key: Seq<char>) -> Option<Seq<FieldView>> {
    match value_of(fields, key) {
        Some(text) => object_fields(text),
        None => None,
    }
}

/// The table after `inner_key` was set to `value` in the object under
/// `outer_key`. What stands under `outer_key` and is no object gives way
/// to an object with the one field.
pub open spec fn with_nested(
    fields: Seq<FieldView>,
    outer_key: Seq<char>,
    inner_key: Seq<char>,
    value: Seq<char>,
) -> Seq<FieldView> {
    stored(
        fields,
        outer_key,
        object_text(nested_with(nested_fields(fields, outer_key), inner_key, value)),
    )
}

/// The table after `inner_key` was taken out of the object under
/// `outer_key`; unchanged where no object stands there.
pub open spec fn without_nested(
    fields: Seq<FieldView>,
    outer_key: Seq<char>,
    inner_key: Seq<char>,
) -> Seq<FieldView> {
    match nested_fields(fields, outer_key) {
        Some(nested) => stored(fields, outer_key, object_text(without_field(nested, inner_key))),
        None => fields,
    }
}

/// The value under `inner_key` in the object under `outer_key`.
pub open spec fn nested_value(
    fields: Seq<FieldView>,
    outer_key: Seq<char>,
    inner_key: Seq<char>,
) -> Option<Seq<char>> {
    match nested_fields(fields, outer_key) {
        Some(nested) => value_of(nested, inner_key),
        None => None,
    }
}

/// The table that a JSON text holds: the fields of the object, or nothing
/// where the text is no object.
pub open spec fn table_of(text: Seq<char>) -> Seq<FieldView> {
    match object_fields(text) {
        Some(fields) => with_fields(Seq::empty(), fields),
        None => Seq::empty(),
    }
}

/// The JSON text of a table; empty where a value is no JSON text.
pub open spec fn text_of(fields: Seq<FieldView>) -> Seq<char> {
    match object_text(fields) {
        Some(text) => text,
        None => Seq::empty(),
    }
}

/// A field that was set is found with its value, the other keys are as
/// they were, and keys that were distinct stay so.
pub proof fn lemma_with_field(fields: Seq<FieldView>, key: Seq<char>, value: Seq<char>)
    ensures
        value_of(with_field(fields, key, value), key) == Some(value),
        forall|other: Seq<char>|
            other != key ==> value_of(with_field(fields, key, value), other) == value_of(
                fields,
                other,
            ),
        distinct_by(fields, key_of()) ==> distinct_by(with_field(fields, key, value), key_of()),
{
    let next = with_field(fields, key, value);
    let p = first_where(fields, field_with(key));
    lemma_first_where(fields, field_with(key));
    assert forall|j: int| 0 <= j < p implies !field_with(key)(#[trigger] next[j]) by {
        assert(next[j] == fields[j]);
    }
    lemma_first_where_is(next, field_with(key), p);
    assert forall|other: Seq<char>| other != key implies value_of(next, other) == value_of(
        fields,
        other,
    ) by {
        let q = first_where(fields, field_with(other));
        lemma_first_where(fields, field_with(other));
        assert forall|j: int| 0 <= j < q implies !field_with(other)(#[trigger] next[j]) by {
            if j < fields.len() && j != p {
                assert(next[j] == fields[j]);
            }
        }
        if q < fields.len() {
            assert(next[q] == fields[q]);
            lemma_first_where_is(next, field_with(other), q);
        } else {
            lemma_first_where_is(next, field_with(other), next.len() as int);
        }
    }
    if distinct_by(fields, key_of()) {
        assert forall|i: int, j: int|
            0 <= i < next.len() && 0 <= j < next.len() && i != j implies key_of()(next[i])
            != key_of()(next[j]) by {
            if p < fields.len() {
                assert(key_of()(next[i]) == key_of()(fields[i]));
                assert(key_of()(next[j]) == key_of()(fields[j]));
            } else {
                if i < fields.len() {
                    assert(!field_with(key)(fields[i]));
                }
                if j < fields.len() {
                    assert(!field_with(key)(fields[j]));
                }
                if i < fields.len() && j < fields.len() {
                    assert(key_of()(fields[i]) != key_of()(fields[j]));
                }
            }
        }
    }
}

/// A key that was taken out is not found, and keys that were distinct stay
/// so.
pub proof fn lemma_without_field(fields: Seq<FieldView>, key: Seq<char>)
    ensures
        value_of(without_field(fields, key), key) is None,
        distinct_by(fields, key_of()) ==> distinct_by(without_field(fields, key), key_of()),
{
    let next = without_field(fields, key);
    lemma_first_where(next, field_with(key));
    let p = first_where(next, field_with(key));
    if p < next.len() {
        lemma_filter_holds(fields, field_without(key), next[p]);
        assert(next.contains(next[p]));
    }
    if distinct_by(fields, key_of()) {
        lemma_filter_distinct_by(fields, key_of(), field_without(key));
    }
}

/// Setting fields one after another keeps the keys distinct.
pub proof fn lemma_with_fields_distinct(base: Seq<FieldView>, fields: Seq<FieldView>)
    requires
        distinct_by(base, key_of()),
    ensures
        distinct_by(with_fields(base, fields), key_of()),
    decreases fields.len(),
{
    if fields.len() > 0 {
        lemma_with_fields_distinct(base, fields.drop_last());
        lemma_with_field(
            with_fields(base, fields.drop_last()),
            fields.last().key,
            fields.last().value,
        );
    }
}

fn find_field(fields: &Vec<Field>, key: &str) -> (i: usize)
    ensures
        i == first_where(fields.deep_view(), field_with(key@)),
        i <= fields.len(),
{
    let n: usize = fields.len();
    let mut i: usize = 0;
    while i < n
        invariant
            i <= n,
            n == fields.len(),
            forall|j: int| 0 <= j < i ==> !field_with(key@)(#[trigger] fields.deep_view()[j]),
        ensures
            i <= n,
            forall|j: int| 0 <= j < i ==> !field_with(key@)(#[trigger] fields.deep_view()[j]),
            i < n ==> field_with(key@)(fields.deep_view()[i as int]),
        decreases n - i,
    {
        if same_text(fields[i].key.as_str(), key) {
            break ;
        }
        i += 1;
    }
    proof {
        lemma_first_where_is(fields.deep_view(), field_with(key@), i as int);
    }
    i
}

/// The value of the first field with `key`.
pub fn field_value(fields: &Vec<Field>, key: &str) -> (value: Option<String>)
    ensures
        value.deep_view() == value_of(fields.deep_view(), key@),
{
    let i = find_field(fields, key);
    if i < fields.len() {
        Some(fields[i].value.clone())
    } else {
        None
    }
}

/// Sets `key` to `value`: in place of the first field with that key, or
/// behind the others where there is none.
pub fn set_field(fields: &mut Vec<Field>, key: &str, value: &str)
    ensures
        final(fields).deep_view() == with_field(old(fields).deep_view(), key@, value@),
{
    let i = find_field(fields, key);
    let ghost before = fields.deep_view();
    let field = Field { key: key.to_owned(), value: value.to_owned() };
    if i < fields.len() {
        fields.set(i, field);
        assert(fields.deep_view() =~= before.update(i as int, field@));
    } else {
        fields.push(field);
        assert(fields.deep_view() =~= before.push(field@));
    }
}

/// The fields without those that have `key`.
pub fn remove_field(fields: &Vec<Field>, key: &str) -> (kept: Vec<Field>)
    ensures
        kept.deep_view() == without_field(fields.deep_view(), key@),
{
    let ghost all = fields.deep_view();
    let n: usize = fields.len();
    let mut kept: Vec<Field> = Vec::new();
    let mut i: usize = 0;
    assert(all.take(0).filter(field_without(key@)) =~= kept.deep_view());
    while i < n
        invariant
            i <= n,
            n == fields.len(),
            all == fields.deep_view(),
            kept.deep_view() == all.take(i as int).filter(field_without(key@)),
        decreases n - i,
    {
        let f = &fields[i];
        proof {
            reveal(Seq::filter);
            assert(all.take(i + 1).drop_last() =~= all.take(i as int));
            assert(all.take(i + 1).last() == f@);
        }
        if !same_text(f.key.as_str(), key) {
            let ghost before = kept.deep_view();
            kept.push(Field { key: f.key.clone(), value: f.value.clone() });
            assert(kept.deep_view() =~= before.push(f@));
        }
        i += 1;
    }
    assert(all.take(n as int) =~= all);
    kept
}

/// The fields of an object after `inner_key` was set to `value` in it:
/// `nested` is what was read where the object should stand.
pub fn nested_fields_with(nested: Option<Vec<Field>>, inner_key: &str, value: &str) -> (fields:
    Vec<Field>)
    ensures
        fields.deep_view() == nested_with(nested.deep_view(), inner_key@, value@),
{
    match nested {
        Some(mut fields) => {
            set_field(&mut fields, inner_key, value);
            fields
        },
        None => {
            let mut fields: Vec<Field> = Vec::new();
            fields.push(Field { key: inner_key.to_owned(), value: value.to_owned() });
            assert(fields.deep_view() =~= seq![FieldView { key: inner_key@, value: value@ }]);
            fields
        },
    }
}

/// The metadata of a room: JSON values under keys, no key twice.
#[derive(Debug)]
pub struct Metadata {
    fields: Vec<Field>,
}

impl View for Metadata {
    type V = Seq<FieldView>;

    closed spec fn view(&self) -> Seq<FieldView> {
        self.fields.deep_view()
    }
}

impl Metadata {
    #[verifier::type_invariant]
    spec fn inv(self) -> bool {
        distinct_by(self@, key_of())
    }

    /// A table without keys.
    pub fn new() -> (m: Self)
        ensures
            m@ == Seq::<FieldView>::empty(),
    {
        let m = Metadata { fields: Vec::new() };
        assert(m.fields.deep_view() =~= Seq::<FieldView>::empty());
        m
    }

    /// The table with `fields` set one after another; of two fields with
    /// one key the later one stays, in the place of the earlier.
    pub fn from_fields(fields: &Vec<Field>) -> (m: Self)
        ensures
            m@ == with_fields(Seq::empty(), fields.deep_view()),
            distinct_by(m@, key_of()),
    {
        let ghost all = fields.deep_view();
        let n: usize = fields.len();
        let mut table: Vec<Field> = Vec::new();
        let mut i: usize = 0;
        assert(table.deep_view() =~= with_fields(Seq::empty(), all.take(0)));
        while i < n
            invariant
                i <= n,
                n == fields.len(),
                all == fields.deep_view(),
                table.deep_view() == with_fields(Seq::empty(), all.take(i as int)),
            decreases n - i,
        {
            proof {
                assert(all.take(i + 1).drop_last() =~= all.take(i as int));
                assert(all.take(i + 1).last() == fields[i as int]@);
            }
            set_field(&mut table, fields[i].key.as_str(), fields[i].value.as_str());
            i += 1;
        }
        proof {
            assert(all.take(n as int) =~= all);
            lemma_with_fields_distinct(Seq::empty(), all);
        }
        Metadata { fields: table }
    }

    /// The fields of the table, in order.
    pub fn fields(&self) -> (fields: Vec<Field>)
        ensures
            fields.deep_view() == self@,
            distinct_by(self@, key_of()),
    {
        proof {
            use_type_invariant(&*self);
        }
        let n: usize = self.fields.len();
        let mut out: Vec<Field> = Vec::new();
        let mut i: usize = 0;
        while i < n
            invariant
                i <= n,
                n == self.fields.len(),
                out.deep_view() == self.fields.deep_view().take(i as int),
            decreases n - i,
        {
            let ghost before = out.deep_view();
            let f = &self.fields[i];
            out.push(Field { key: f.key.clone(), value: f.value.clone() });
            assert(out.deep_view() =~= before.push(f@));
            assert(self.fields.deep_view().take(i + 1) =~= before.push(f@));
            i += 1;
        }
        assert(self.fields.deep_view().take(n as int) =~= self.fields.deep_view());
        out
    }

    /// The value under `key`.
    pub fn get(&self, key: &str) -> (value: Option<String>)
        ensures
            value.deep_view() == value_of(self@, key@),
    {
        field_value(&self.fields, key)
    }

    /// Puts `value` under `key`, in place of what stood there.
    pub fn set(&mut self, key: &str, value: &str)
        ensures
            final(self)@ == with_field(old(self)@, key@, value@),
            value_of(final(self)@, key@) == Some(value@),
    {
        proof {
            use_type_invariant(&*self);
            lemma_with_field(self@, key@, value@);
        }
        let mut fields: Vec<Field> = Vec::new();
        std::mem::swap(&mut fields, &mut self.fields);
        set_field(&mut fields, key, value);
        self.fields = fields;
    }

    /// Takes `key` and its value out of the table.
    pub fn remove(&mut self, key: &str)
        ensures
            final(self)@ == without_field(old(self)@, key@),
            value_of(final(self)@, key@) is None,
    {
        proof {
            use_type_invariant(&*self);
            lemma_without_field(self@, key@);
        }
        let kept = remove_field(&self.fields, key);
        self.fields = kept;
    }

    /// Puts under `key` what was written; leaves the table alone where
    /// nothing was.
    pub fn store(&mut self, key: &str, written: Option<String>)
        ensures
            final(self)@ == stored(old(self)@, key@, written.deep_view()),
    {
        match written {
            Some(text) => {
                self.set(key, text.as_str());
            },
            None => {},
        }
    }
}

/// Reads a table out of JSON text. A text that is no JSON object gives the
/// empty table.
pub fn json_to_metadata(json_str: &str) -> (metadata: Metadata)
    ensures
        metadata@ == table_of(json_str@),
{
    match parse_object(json_str) {
        Some(fields) => Metadata::from_fields(&fields),
        None => Metadata::new(),
    }
}

/// Writes the table as JSON text: an object with the keys of the table.
/// Where a value is no JSON text the result is empty.
pub fn metadata_to_json(metadata: &Metadata) -> (json: String)
    ensures
        json@ == text_of(metadata@),
{
    let fields = metadata.fields();
    match write_object(&fields) {
        Some(text) => text,
        None => String::new(),
    }
}

/// Puts `new_value`, a JSON text, under `key`, in place of what stood
/// there.
pub fn update_metadata_value(metadata: &mut Metadata, key: &str, new_value: &str)
    ensures
        final(metadata)@ == with_field(old(metadata)@, key@, new_value@),
        value_of(final(metadata)@, key@) == Some(new_value@),
{
    metadata.set(key, new_value);
}

/// Puts `new_value`, a JSON text, under `key`, in place of what stood
/// there.
pub fn add_metadata_key(metadata: &mut Metadata, key: &str, new_value: &str)
    ensures
        final(metadata)@ == with_field(old(metadata)@, key@, new_value@),
        value_of(final(metadata)@, key@) == Some(new_value@),
{
    metadata.set(key, new_value);
}

/// Sets `inner_key` to `new_value`, a JSON text, in the object under
/// `outer_key`. Where no object stands under `outer_key`, one with that
/// single field is put there. Where `new_value` is no JSON text, nothing
/// changes.
pub fn add_nested_metadata_key(
    metadata: &mut Metadata,
    outer_key: &str,
    inner_key: &str,
    new_value: &str,
)
    ensures
        final(metadata)@ == with_nested(old(metadata)@, outer_key@, inner_key@, new_value@),
{
    let nested = match metadata.get(outer_key) {
        Some(text) => parse_object(text.as_str()),
        None => None,
    };
    let fields = nested_fields_with(nested, inner_key, new_value);
    metadata.store(outer_key, write_object(&fields));
}

/// Takes `key` and its value out of the table.
pub fn delete_metadata_key(metadata: &mut Metadata, key: &str)
    ensures
        final(metadata)@ == without_field(old(metadata)@, key@),
        value_of(final(metadata)@, key@) is None,
{
    metadata.remove(key);
}

/// Takes `inner_key` out of the object under `outer_key`. Where no object
/// stands there, nothing changes.
pub fn delete_nested_metadata_key(metadata: &mut Metadata, outer_key: &str, inner_key: &str)
    ensures
        final(metadata)@ == without_nested(old(metadata)@, outer_key@, inner_key@),
{
    let nested = match metadata.get(outer_key) {
        Some(text) => parse_object(text.as_str()),
        None => None,
    };
    match nested {
        Some(fields) => {
            let kept = remove_field(&fields, inner_key);
            metadata.store(outer_key, write_object(&kept));
        },
        None => {},
    }
}

/// The JSON text under `key`.
pub fn find_metadata_value(metadata: &Metadata, key: &str) -> (value: Option<String>)
    ensures
        value.deep_view() == value_of(metadata@, key@),
{
    metadata.get(key)
}

/// The JSON text under `inner_key` in the object under `outer_key`.
pub fn find_nested_metadata_value(metadata: &Metadata, outer_key: &str, inner_key: &str) -> (value:
    Option<String>)
    ensures
        value.deep_view() == nested_value(metadata@, outer_key@, inner_key@),
{
    let nested = match metadata.get(outer_key) {
        Some(text) => parse_object(text.as_str()),
        None => None,
    };
    match nested {
        Some(fields) => field_value(&fields, inner_key),
        None => None,
    }
}

/// The keys of the object under `key`, in the order in which they were
/// read; none where no object stands there.
pub fn nested_keys(metadata: &Metadata, key: &str) -> (keys: Vec<String>)
    ensures
        keys.deep_view() == match nested_fields(metadata@, key@) {
            Some(fields) => fields.map_values(key_of()),
            None => Seq::empty(),
        },
{
    let nested = match metadata.get(key) {
        Some(text) => parse_object(text.as_str()),
        None => None,
    };
    let mut keys: Vec<String> = Vec::new();
    assert(keys.deep_view() =~= Seq::<Seq<char>>::empty());
    match nested {
        Some(fields) => {
            let ghost all = fields.deep_view();
            let n: usize = fields.len();
            let mut i: usize = 0;
            assert(keys.deep_view() =~= all.take(0).map_values(key_of()));
            while i < n
                invariant
                    i <= n,
                    n == fields.len(),
                    all == fields.deep_view(),
                    keys.deep_view() == all.take(i as int).map_values(key_of()),
                decreases n - i,
            {
                let ghost before = keys.deep_view();
                keys.push(fields[i].key.clone());
                assert(keys.deep_view() =~= before.push(fields[i as int].key@));
                assert(all.take(i + 1).map_values(key_of()) =~= before.push(
                    fields[i as int].key@,
                ));
                i += 1;
            }
            assert(all.take(n as int) =~= all);
        },
        None => {},
    }
    keys
}

} // verus!
