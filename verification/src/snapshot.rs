//! Snapshots: a store is rebuilt from the JSON text that was saved of it.
//!
//! A snapshot is a JSON array with one object for each document. The
//! member `id` of an object holds the identifier and the member `text` the
//! text. An object may hold more: the embedding is saved beside the text for
//! other readers, and is not read back, since the text decides it.
//!
//! Parsing is the work of `serde_json`. What it hands over is turned into a
//! value of `Json`, and the rules of the snapshot are stated over that.

use crate::store::{upserted, well_formed, DocModel, VectorIndex};
use crate::text::same_text;
use vstd::prelude::*;

verus! {

/// A member of a JSON object as the contracts see it.
pub struct MemberModel {
    pub name: Seq<char>,
    pub value: JsonModel,
}

/// A JSON value as the contracts see it. A number is the text that stands
/// for it; an object is the list of its members.
pub enum JsonModel {
    Null,
    Bool(bool),
    Number(Seq<char>),
    Text(Seq<char>),
    Array(Seq<JsonModel>),
    Object(Seq<MemberModel>),
}

/// A member of a JSON object: a name and a value.
#[derive(Debug)]
pub struct Member {
    pub name: String,
    pub value: Json,
}

/// A JSON value. A number is held as the text that stands for it.
#[derive(Debug)]
pub enum Json {
    Null,
    Bool(bool),
    Number(String),
    Text(String),
    Array(Vec<Json>),
    Object(Vec<Member>),
}

impl View for Json {
    type V = JsonModel;

    open spec fn view(&self) -> JsonModel
        decreases self,
    {
        match self {
            Json::Null => JsonModel::Null,
            Json::Bool(b) => JsonModel::Bool(*b),
            Json::Number(n) => JsonModel::Number(n@),
            Json::Text(s) => JsonModel::Text(s@),
            Json::Array(items) => JsonModel::Array(
                Seq::new(
                    items@.len(),
                    |i: int|
                        if 0 <= i < items@.len() {
                            items@[i].view()
                        } else {
                            JsonModel::Null
                        },
                ),
            ),
            Json::Object(fields) => JsonModel::Object(
                Seq::new(
                    fields@.len(),
                    |i: int|
                        if 0 <= i < fields@.len() {
                            MemberModel { name: fields@[i].name@, value: fields@[i].value.view() }
                        } else {
                            MemberModel { name: Seq::empty(), value: JsonModel::Null }
                        },
                ),
            ),
        }
    }
}

/// What a snapshot says of one document: an identifier and a text.
pub struct Record {
    pub id: Seq<char>,
    pub text: Seq<char>,
}

/// The value of the first member of `fields` with the name `key`.
pub open spec fn member(fields: Seq<MemberModel>, key: Seq<char>) -> Option<JsonModel>
    decreases fields.len(),
{
    if fields.len() == 0 {
        None
    } else if fields[0].name == key {
        Some(fields[0].value)
    } else {
        member(fields.drop_first(), key)
    }
}

/// The text that `item` holds under `key`: the string that is the value of
/// that member, and the empty text where `item` is no object, has no such
/// member, or has one that is no string.
pub open spec fn text_under(item: JsonModel, key: Seq<char>) -> Seq<char> {
    match item {
        JsonModel::Object(fields) => match member(fields, key) {
            Some(JsonModel::Text(s)) => s,
            _ => Seq::empty(),
        },
        _ => Seq::empty(),
    }
}

/// The record that `item` stands for.
pub open spec fn record_of(item: JsonModel) -> Record {
    Record { id: text_under(item, "id"@), text: text_under(item, "text"@) }
}

/// The records of a snapshot, in its order: one for each element where the
/// snapshot is an array, and none where it is anything else or could not be
/// parsed.
pub open spec fn records_of(json: Option<JsonModel>) -> Seq<Record> {
    match json {
        Some(JsonModel::Array(items)) => Seq::new(items.len(), |i: int| record_of(items[i])),
        _ => Seq::empty(),
    }
}

/// What `json` is to the contracts, where there is a value.
pub open spec fn model_of(json: Option<Json>) -> Option<JsonModel> {
    match json {
        Some(j) => Some(j@),
        None => None,
    }
}

/// The documents that `records` restore: each record with an identifier
/// that is not empty is stored, in order, as `upsert` stores it. A record
/// without an identifier is passed over, and of two records with one
/// identifier the later one decides the text.
pub open spec fn restored(records: Seq<Record>) -> Seq<DocModel>
    decreases records.len(),
{
    if records.len() == 0 {
        Seq::empty()
    } else {
        let before = restored(records.drop_last());
        let last = records.last();
        if last.id.len() == 0 {
            before
        } else {
            upserted(before, last.id, last.text)
        }
    }
}

/// The records that a snapshot of `docs` holds.
pub open spec fn records_from(docs: Seq<DocModel>) -> Seq<Record> {
    Seq::new(docs.len(), |i: int| Record { id: docs[i].id, text: docs[i].text })
}

/// The JSON value that `serde_json::from_slice` reads from `bytes`, with
/// the members of each object in the order in which `serde_json` hands them
/// out; nothing where it reports an error.
pub uninterp spec fn parsed(bytes: Seq<u8>) -> Option<JsonModel>;

/// `serde_json::Value`, which goes from the parser to `json_from` and no
/// further.
#[verifier::external_type_specification]
#[verifier::external_body]
pub struct ExValue(serde_json::Value);

/// Turns a `serde_json::Value` into the `Json` of the same shape, variant
/// by variant. A number becomes the text that `serde_json` prints for it.
/// Nothing is claimed of the result.
#[verifier::external_body]
fn json_from(value: serde_json::Value) -> Json {
    match value {
        serde_json::Value::Null => Json::Null,
        serde_json::Value::Bool(b) => Json::Bool(b),
        serde_json::Value::Number(n) => Json::Number(n.to_string()),
        serde_json::Value::String(s) => Json::Text(s),
        serde_json::Value::Array(items) => Json::Array(items.into_iter().map(json_from).collect()),
        serde_json::Value::Object(fields) => Json::Object(
            fields.into_iter().map(|(k, v)| Member { name: k, value: json_from(v) }).collect(),
        ),
    }
}

/// Parses `bytes` by `serde_json::from_slice`. The contract gives the
/// result its name, `parsed`: the same bytes are parsed to the same value.
/// It does not say which bytes can be parsed, nor to what.
#[verifier::external_body]
fn parse(bytes: &[u8]) -> (json: Option<Json>)
    ensures
        model_of(json) == parsed(bytes@),
{
    match serde_json::from_slice::<serde_json::Value>(bytes) {
        Ok(value) => Some(json_from(value)),
        Err(_) => None,
    }
}

/// Restoring keeps the documents well formed.
pub proof fn lemma_restored_well_formed(records: Seq<Record>)
    ensures
        well_formed(restored(records)),
    decreases records.len(),
{
    if records.len() > 0 {
        lemma_restored_well_formed(records.drop_last());
        if records.last().id.len() > 0 {
            crate::store::lemma_upserted_well_formed(
                restored(records.drop_last()),
                records.last().id,
                records.last().text,
            );
        }
    }
}

/// A snapshot gives back what was saved: the records of documents that are
/// well formed restore those documents, in their order.
pub proof fn lemma_restore_saved(docs: Seq<DocModel>)
    requires
        well_formed(docs),
    ensures
        restored(records_from(docs)) == docs,
    decreases docs.len(),
{
    let records = records_from(docs);
    if docs.len() == 0 {
        assert(restored(records) =~= docs);
    } else {
        let front = docs.drop_last();
        assert(records.drop_last() =~= records_from(front));
        assert(well_formed(front)) by {
            assert forall|i: int, j: int| 0 <= i < j < front.len() implies (#[trigger] front[i]).id
                != (#[trigger] front[j]).id by {
                assert(front[i] == docs[i] && front[j] == docs[j]);
            }
            assert forall|i: int| 0 <= i < front.len() implies (#[trigger] front[i]).id.len()
                > 0 by {
                assert(front[i] == docs[i]);
            }
        }
        lemma_restore_saved(front);
        let last = docs.last();
        assert(records.last() == Record { id: last.id, text: last.text });
        assert(!crate::store::has_id(front, last.id)) by {
            if crate::store::has_id(front, last.id) {
                let i = choose|i: int| 0 <= i < front.len() && (#[trigger] front[i]).id == last.id;
                assert(front[i] == docs[i]);
                assert(docs[i].id != docs[docs.len() - 1].id);
            }
        }
        assert(front.push(DocModel { id: last.id, text: last.text }) =~= docs);
    }
}

/// The members of an object as the contracts see them.
spec fn members(fields: Seq<Member>) -> Seq<MemberModel> {
    Seq::new(fields.len(), |i: int| MemberModel { name: fields[i].name@, value: fields[i].value@ })
}

/// The value of the first member of `fields` with the name `key`.
fn find_member<'a>(fields: &'a Vec<Member>, key: &str) -> (value: Option<&'a Json>)
    ensures
        match value {
            Some(v) => member(members(fields@), key@) == Some(v@),
            None => member(members(fields@), key@) == None::<JsonModel>,
        },
{
    let mut i: usize = 0;
    let ghost all = members(fields@);
    assert(all.skip(0) =~= all);
    while i < fields.len()
        invariant
            i <= fields@.len(),
            all == members(fields@),
            member(all, key@) == member(all.skip(i as int), key@),
        decreases fields@.len() - i,
    {
        proof {
            assert(all.skip(i as int)[0] == all[i as int]);
            assert(all.skip(i as int).drop_first() =~= all.skip(i + 1));
        }
        if same_text(fields[i].name.as_str(), key) {
            return Some(&fields[i].value);
        }
        i += 1;
    }
    None
}

/// The text that `item` holds under `key`, or nothing where that text is
/// empty because `item` holds no string there.
fn read_text<'a>(item: &'a Json, key: &str) -> (text: Option<&'a String>)
    ensures
        match text {
            Some(s) => s@ == text_under(item@, key@),
            None => text_under(item@, key@).len() == 0,
        },
{
    match item {
        Json::Object(fields) => {
            assert(item@ == JsonModel::Object(members(fields@))) by {
                let whole = Json::Object(*fields);
                assert(*item == whole);
                assert(whole@->Object_0.len() == fields@.len());
                assert forall|i: int| 0 <= i < fields@.len() implies whole@->Object_0[i]
                    == members(fields@)[i] by {}
                assert(whole@->Object_0 =~= members(fields@));
            }
            match find_member(fields, key) {
                Some(Json::Text(s)) => Some(s),
                _ => None,
            }
        },
        _ => None,
    }
}

impl VectorIndex {
    /// Rebuilds a store from a parsed snapshot, and binds it to `path`.
    ///
    /// Where `json` is an array, each element gives a record: the
    /// identifier is the string under `id`, the text the string under
    /// `text`, and either is empty where the element holds no string there.
    /// The records with an identifier are stored in order. Where `json` is
    /// nothing or no array, the store is empty.
    pub fn from_json(json: Option<&Json>, path: String) -> (index: VectorIndex)
        ensures
            index@ == restored(
                records_of(
                    match json {
                        Some(j) => Some(j@),
                        None => None,
                    },
                ),
            ),
            index.target() == Some(path@),
            well_formed(index@),
    {
        let mut index = VectorIndex::bound_to(path);
        let ghost all = records_of(
            match json {
                Some(j) => Some(j@),
                None => None,
            },
        );
        if let Some(Json::Array(items)) = json {
            let mut i: usize = 0;
            proof {
                let whole = Json::Array(*items);
                assert(all =~= Seq::new(items@.len(), |i: int| record_of(items@[i]@))) by {
                    assert(whole@->Array_0.len() == items@.len());
                    assert forall|i: int| 0 <= i < items@.len() implies whole@->Array_0[i]
                        == items@[i]@ by {}
                }
                assert(all.take(0) =~= Seq::<Record>::empty());
            }
            while i < items.len()
                invariant
                    i <= items@.len(),
                    all == Seq::new(items@.len(), |i: int| record_of(items@[i]@)),
                    index@ == restored(all.take(i as int)),
                    index.target() == Some(path@),
                    well_formed(index@),
                decreases items@.len() - i,
            {
                proof {
                    assert(all.take(i + 1).drop_last() =~= all.take(i as int));
                    assert(all.take(i + 1).last() == record_of(items@[i as int]@));
                }
                let id = read_text(&items[i], "id");
                let text = read_text(&items[i], "text");
                let ghost record = record_of(items@[i as int]@);
                match id {
                    Some(id) => {
                        if !id.as_str().is_empty() {
                            let text = match text {
                                Some(t) => t.clone(),
                                None => String::new(),
                            };
                            assert(text@ =~= record.text);
                            index.upsert(id.clone(), text);
                        }
                    },
                    None => {},
                }
                i += 1;
            }
            assert(all.take(items@.len() as int) =~= all);
        } else {
            assert(all =~= Seq::<Record>::empty());
            proof {
                lemma_restored_well_formed(all);
            }
        }
        index
    }

    /// Loads a store from what was read at `path`: `content` holds the
    /// bytes of the snapshot, or nothing where none could be read. The
    /// result is bound to `path`. Where there is no content, or it cannot
    /// be parsed, or it is no array, the store is empty: loading does not
    /// fail.
    pub fn load(path: String, content: Option<&[u8]>) -> (index: VectorIndex)
        ensures
            index@ == restored(
                records_of(
                    match content {
                        Some(bytes) => parsed(bytes@),
                        None => None,
                    },
                ),
            ),
            index.target() == Some(path@),
            well_formed(index@),
    {
        match content {
            Some(bytes) => {
                let json = parse(bytes);
                VectorIndex::from_json(json.as_ref(), path)
            },
            None => VectorIndex::from_json(None, path),
        }
    }
}

} // verus!
