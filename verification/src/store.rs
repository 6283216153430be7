//! The vector store: the documents of the index, each with its embedding.
//!
//! The store is modelled as the sequence of its documents, each an
//! identifier and a text. No identifier is empty and none occurs twice. The
//! embedding of a document is that of its text, so the model does not carry
//! it. A store is bound to a place where its snapshot is kept, or to none;
//! which of the two never changes.

use crate::embed::{embed, is_embedding, DIM};
use crate::rank::{covers, is_top, top_k};
use crate::text::same_text;
use vstd::prelude::*;

verus! {

/// What a document is to the contracts: its identifier and its text.
pub struct DocModel {
    pub id: Seq<char>,
    pub text: Seq<char>,
}

/// A document of the store: an identifier, a text, and the embedding of
/// the text.
pub struct Document {
    id: String,
    text: String,
    counts: Vec<u64>,
}

impl View for Document {
    type V = DocModel;

    closed spec fn view(&self) -> DocModel {
        DocModel { id: self.id@, text: self.text@ }
    }
}

impl Document {
    #[verifier::type_invariant]
    spec fn holds_embedding(&self) -> bool {
        is_embedding(self.counts@, self.text@)
    }

    /// Makes the document with this identifier and text, and embeds the
    /// text.
    pub fn new(id: String, text: String) -> (doc: Document)
        ensures
            doc@ == (DocModel { id: id@, text: text@ }),
    {
        let counts = embed(text.as_str());
        Document { id, text, counts }
    }

    /// The identifier.
    pub fn id(&self) -> (id: &str)
        ensures
            id@ == self@.id,
    {
        self.id.as_str()
    }

    /// The text.
    pub fn text(&self) -> (text: &str)
        ensures
            text@ == self@.text,
    {
        self.text.as_str()
    }

    /// The embedding, which is that of the text.
    pub fn counts(&self) -> (counts: &Vec<u64>)
        ensures
            is_embedding(counts@, self@.text),
    {
        proof {
            use_type_invariant(self);
        }
        &self.counts
    }
}

/// Whether some document of `docs` has the identifier `id`.
pub open spec fn has_id(docs: Seq<DocModel>, id: Seq<char>) -> bool {
    exists|i: int| 0 <= i < docs.len() && (#[trigger] docs[i]).id == id
}

/// Whether `docs` can be what a store holds: no identifier is empty, and no
/// two documents have the same.
pub open spec fn well_formed(docs: Seq<DocModel>) -> bool {
    &&& forall|i: int| 0 <= i < docs.len() ==> (#[trigger] docs[i]).id.len() > 0
    &&& forall|i: int, j: int|
        0 <= i < j < docs.len() ==> (#[trigger] docs[i]).id != (#[trigger] docs[j]).id
}

/// The documents after `text` has been stored under `id`: the document
/// with that identifier has the new text, and the others are as they were;
/// where there was none, the new document stands behind the others.
pub open spec fn upserted(docs: Seq<DocModel>, id: Seq<char>, text: Seq<char>) -> Seq<DocModel> {
    if has_id(docs, id) {
        Seq::new(
            docs.len(),
            |i: int|
                if docs[i].id == id {
                    DocModel { id, text }
                } else {
                    docs[i]
                },
        )
    } else {
        docs.push(DocModel { id, text })
    }
}

/// Storing a text under an identifier that is not empty keeps the documents
/// well formed.
pub proof fn lemma_upserted_well_formed(docs: Seq<DocModel>, id: Seq<char>, text: Seq<char>)
    requires
        well_formed(docs),
        id.len() > 0,
    ensures
        well_formed(upserted(docs, id, text)),
{
    let after = upserted(docs, id, text);
    if has_id(docs, id) {
        assert forall|i: int, j: int| 0 <= i < j < after.len() implies (#[trigger] after[i]).id != (
        #[trigger] after[j]).id by {
            assert(after[i].id == docs[i].id);
            assert(after[j].id == docs[j].id);
        }
        assert forall|i: int| 0 <= i < after.len() implies (#[trigger] after[i]).id.len() > 0 by {
            assert(after[i].id == docs[i].id);
        }
    } else {
        assert forall|i: int, j: int| 0 <= i < j < after.len() implies (#[trigger] after[i]).id != (
        #[trigger] after[j]).id by {
            if j < docs.len() {
                assert(after[i] == docs[i] && after[j] == docs[j]);
            } else {
                assert(after[i] == docs[i]);
            }
        }
        assert forall|i: int| 0 <= i < after.len() implies (#[trigger] after[i]).id.len() > 0 by {
            if i < docs.len() {
                assert(after[i] == docs[i]);
            }
        }
    }
}

/// Storing twice under one identifier leaves exactly one document with
/// that identifier. It holds the second text, and with it the embedding of
/// the second text; the first text has left no trace.
pub proof fn lemma_upsert_twice(
    docs: Seq<DocModel>,
    id: Seq<char>,
    first: Seq<char>,
    second: Seq<char>,
)
    requires
        well_formed(docs),
        id.len() > 0,
    ensures
        upserted(upserted(docs, id, first), id, second) == upserted(docs, id, second),
        exists|i: int|
            0 <= i < upserted(docs, id, second).len() && #[trigger] upserted(docs, id, second)[i]
                == (DocModel { id, text: second }) && forall|j: int|
                0 <= j < upserted(docs, id, second).len() && j != i ==> (#[trigger] upserted(
                    docs,
                    id,
                    second,
                )[j]).id != id,
{
    let once = upserted(docs, id, first);
    let twice = upserted(once, id, second);
    let direct = upserted(docs, id, second);
    lemma_upserted_well_formed(docs, id, second);
    if has_id(docs, id) {
        let at = choose|i: int| 0 <= i < docs.len() && (#[trigger] docs[i]).id == id;
        assert(once[at].id == id);
        assert(twice =~= direct);
        assert(direct[at] == (DocModel { id, text: second }));
        assert forall|j: int| 0 <= j < direct.len() && j != at implies (#[trigger] direct[j]).id
            != id by {
            assert(direct[at].id == id);
        }
    } else {
        let at = docs.len() as int;
        assert(once[at].id == id);
        assert forall|i: int| 0 <= i < docs.len() implies (#[trigger] once[i]).id != id by {
            assert(once[i] == docs[i]);
        }
        assert(twice =~= direct);
        assert(direct[at] == (DocModel { id, text: second }));
        assert forall|j: int| 0 <= j < direct.len() && j != at implies (#[trigger] direct[j]).id
            != id by {
            assert(direct[j] == docs[j]);
        }
    }
}

/// Storing under an identifier does not touch the documents with other
/// identifiers: each of them is where it was and as it was.
pub proof fn lemma_upsert_keeps_others(docs: Seq<DocModel>, id: Seq<char>, text: Seq<char>)
    ensures
        upserted(docs, id, text).len() >= docs.len(),
        has_id(upserted(docs, id, text), id),
        forall|i: int|
            0 <= i < docs.len() && (#[trigger] docs[i]).id != id ==> upserted(docs, id, text)[i]
                == docs[i],
        !has_id(docs, id) ==> upserted(docs, id, text).len() == docs.len() + 1,
        has_id(docs, id) ==> upserted(docs, id, text).len() == docs.len(),
{
    let after = upserted(docs, id, text);
    if has_id(docs, id) {
        let at = choose|i: int| 0 <= i < docs.len() && (#[trigger] docs[i]).id == id;
        assert(after[at].id == id);
    } else {
        assert(after[docs.len() as int].id == id);
    }
}

/// One place of a ranking: a document, where it stands in the store, and
/// the key that its score was given.
#[derive(Debug)]
pub struct Hit {
    pub index: usize,
    pub id: String,
    pub text: String,
    pub key: u64,
}

/// The positions that `hits` name, in order.
pub open spec fn hit_order(hits: Seq<Hit>) -> Seq<usize> {
    Seq::new(hits.len(), |a: int| hits[a].index)
}

/// Whether `hits` is the ranking of `docs` by the keys `keys`, cut to `k`
/// places, and each hit shows the document at its position with the key of
/// that document.
pub open spec fn is_ranking(docs: Seq<DocModel>, keys: Seq<u64>, k: nat, hits: Seq<Hit>) -> bool {
    &&& keys.len() == docs.len()
    &&& is_top(keys, k, hit_order(hits))
    &&& forall|a: int|
        0 <= a < hits.len() ==> {
            &&& (#[trigger] hits[a]).id@ == docs[hits[a].index as int].id
            &&& hits[a].text@ == docs[hits[a].index as int].text
            &&& hits[a].key == keys[hits[a].index as int]
        }
}

/// Whether the document at position `i` is among `hits`.
pub open spec fn is_hit(hits: Seq<Hit>, i: int) -> bool {
    exists|a: int| 0 <= a < hits.len() && (#[trigger] hits[a]).index == i
}

/// Whether each of the first `n` documents is among `hits`.
pub open spec fn hits_all(hits: Seq<Hit>, n: nat) -> bool {
    forall|i: int| 0 <= i < n ==> #[trigger] is_hit(hits, i)
}

/// Whether the keys of `hits` never rise from one place to the next.
pub open spec fn descending(hits: Seq<Hit>) -> bool {
    &&& forall|a: int, b: int|
        0 <= a <= b < hits.len() ==> (#[trigger] hits[a]).key >= (#[trigger] hits[b]).key
    &&& forall|a: int|
        0 <= a && a + 1 < hits.len() ==> (#[trigger] hits[a]).key >= hits[a + 1].key
}

/// A ranking has no more hits than places were asked for and no more than
/// there are documents; the keys of its hits never rise; and no document
/// is hit twice.
pub proof fn lemma_ranking_bounds(docs: Seq<DocModel>, keys: Seq<u64>, k: nat, hits: Seq<Hit>)
    requires
        is_ranking(docs, keys, k, hits),
    ensures
        hits.len() <= k,
        hits.len() <= docs.len(),
        descending(hits),
        forall|a: int, b: int|
            0 <= a < b < hits.len() ==> (#[trigger] hits[a]).index != (#[trigger] hits[b]).index,
{
    let order = hit_order(hits);
    crate::rank::lemma_ranking_shape(keys, k, order);
    assert forall|a: int, b: int| 0 <= a <= b < hits.len() implies (#[trigger] hits[a]).key >= (
    #[trigger] hits[b]).key by {
        assert(keys[order[a] as int] >= keys[order[b] as int]);
    }
    assert forall|a: int| 0 <= a && a + 1 < hits.len() implies (#[trigger] hits[a]).key >= hits[a
        + 1].key by {
        assert(keys[order[a] as int] >= keys[order[a + 1] as int]);
    }
    assert forall|a: int, b: int| 0 <= a < b < hits.len() implies (#[trigger] hits[a]).index != (
    #[trigger] hits[b]).index by {
        assert(order[a] != order[b]);
    }
}

/// Whether `key` is a key that `scorer` can give to a document with the
/// text `doc` when the query has the text `query`: an outcome of the scorer
/// on the embeddings of the two.
pub open spec fn scores<F: Fn(&Vec<u64>, &Vec<u64>) -> u64>(
    scorer: F,
    query: Seq<char>,
    doc: Seq<char>,
    key: u64,
) -> bool {
    exists|q: &Vec<u64>, d: &Vec<u64>|
        is_embedding(q@, query) && is_embedding(d@, doc) && #[trigger] call_ensures(
            scorer,
            (q, d),
            key,
        )
}

/// Whether `key` is an outcome of `scorer` on the embedding `query` and
/// the embedding of the text `doc`.
spec fn gives<F: Fn(&Vec<u64>, &Vec<u64>) -> u64>(
    scorer: F,
    query: &Vec<u64>,
    doc: Seq<char>,
    key: u64,
) -> bool {
    exists|d: &Vec<u64>| is_embedding(d@, doc) && #[trigger] call_ensures(scorer, (query, d), key)
}

/// Whether `keys` holds one key for each document of `docs`, each a key
/// that `scorer` can give to that document for the query text `query`.
pub open spec fn scored_by<F: Fn(&Vec<u64>, &Vec<u64>) -> u64>(
    scorer: F,
    query: Seq<char>,
    docs: Seq<DocModel>,
    keys: Seq<u64>,
) -> bool {
    &&& keys.len() == docs.len()
    &&& forall|i: int|
        0 <= i < docs.len() ==> #[trigger] scores(scorer, query, docs[i].text, keys[i])
}

/// The vector store.
pub struct VectorIndex {
    docs: Vec<Document>,
    path: Option<String>,
}

impl View for VectorIndex {
    type V = Seq<DocModel>;

    closed spec fn view(&self) -> Seq<DocModel> {
        Seq::new(self.docs@.len(), |i: int| self.docs@[i]@)
    }
}

impl Default for VectorIndex {
    /// An empty store that is bound to no place.
    fn default() -> (index: VectorIndex)
        ensures
            index@ == Seq::<DocModel>::empty(),
            index.target() == None::<Seq<char>>,
    {
        VectorIndex::new()
    }
}

impl VectorIndex {
    #[verifier::type_invariant]
    spec fn sound(&self) -> bool {
        well_formed(self@)
    }

    /// The place where the snapshot of this store is kept, if it is bound
    /// to one.
    pub closed spec fn target(&self) -> Option<Seq<char>> {
        match self.path {
            Some(p) => Some(p@),
            None => None,
        }
    }

    /// An empty store that is bound to no place.
    pub fn new() -> (index: VectorIndex)
        ensures
            index@ == Seq::<DocModel>::empty(),
            index.target() == None::<Seq<char>>,
    {
        let index = VectorIndex { docs: Vec::new(), path: None };
        assert(index@ =~= Seq::<DocModel>::empty());
        index
    }

    /// An empty store that is bound to `path`.
    pub fn bound_to(path: String) -> (index: VectorIndex)
        ensures
            index@ == Seq::<DocModel>::empty(),
            index.target() == Some(path@),
    {
        let index = VectorIndex { docs: Vec::new(), path: Some(path) };
        assert(index@ =~= Seq::<DocModel>::empty());
        index
    }

    /// The place that the store is bound to, if any.
    pub fn path(&self) -> (path: Option<&str>)
        ensures
            match path {
                Some(p) => self.target() == Some(p@),
                None => self.target() == None::<Seq<char>>,
            },
    {
        match &self.path {
            Some(p) => Some(p.as_str()),
            None => None,
        }
    }

    /// The number of documents. Their identifiers are not empty and differ
    /// from each other, as in every store.
    pub fn len(&self) -> (n: usize)
        ensures
            n == self@.len(),
            well_formed(self@),
    {
        proof {
            use_type_invariant(self);
        }
        self.docs.len()
    }

    /// The document at position `i`, or nothing where the store has fewer
    /// documents.
    pub fn get(&self, i: usize) -> (doc: Option<&Document>)
        ensures
            match doc {
                Some(d) => i < self@.len() && d@ == self@[i as int],
                None => i >= self@.len(),
            },
    {
        if i < self.docs.len() {
            Some(&self.docs[i])
        } else {
            None
        }
    }

    /// Where the document with the identifier `id` stands, or nothing
    /// where the store has none.
    pub fn position(&self, id: &str) -> (at: Option<usize>)
        ensures
            match at {
                Some(i) => i < self@.len() && self@[i as int].id == id@,
                None => !has_id(self@, id@),
            },
    {
        let mut i: usize = 0;
        while i < self.docs.len()
            invariant
                i <= self.docs@.len(),
                forall|j: int| 0 <= j < i ==> (#[trigger] self@[j]).id != id@,
            decreases self.docs@.len() - i,
        {
            if same_text(self.docs[i].id(), id) {
                return Some(i);
            }
            i += 1;
        }
        None
    }

    /// Stores `text` under `id`. Where the store has a document with this
    /// identifier, the document gets the new text and the embedding of the
    /// new text, and keeps its position; where it has none, the new
    /// document is added behind the others. The place that the store is
    /// bound to stays.
    pub fn upsert(&mut self, id: String, text: String)
        requires
            id@.len() > 0,
        ensures
            final(self)@ == upserted(old(self)@, id@, text@),
            final(self).target() == old(self).target(),
            well_formed(final(self)@),
    {
        proof {
            use_type_invariant(&*self);
            lemma_upserted_well_formed(self@, id@, text@);
        }
        let at = self.position(id.as_str());
        let ghost before = self@;
        let ghost held = self.docs@;
        let doc = Document::new(id, text);
        let mut docs: Vec<Document> = Vec::new();
        std::mem::swap(&mut self.docs, &mut docs);
        assert(docs@ == held);
        match at {
            Some(i) => {
                assert(has_id(before, doc@.id)) by {
                    assert(before[i as int].id == doc@.id);
                }
                assert(before.update(i as int, doc@) =~= upserted(before, doc@.id, doc@.text));
                docs.set(i, doc);
            },
            None => {
                docs.push(doc);
            },
        }
        assert(Seq::new(docs@.len(), |i: int| docs@[i]@) =~= upserted(before, doc@.id, doc@.text));
        std::mem::swap(&mut self.docs, &mut docs);
    }

    /// Answers a query: embeds `text`, lets `scorer` give each document a
    /// key from the embedding of the query and that of the document, and
    /// returns the `k` documents with the largest keys, the largest first,
    /// or all documents where the store has fewer. Between equal keys the
    /// document that stands earlier in the store comes first.
    ///
    /// The scorer is the caller's measure of similarity; a larger key
    /// stands for a higher score. It is called once for each document.
    pub fn query<F: Fn(&Vec<u64>, &Vec<u64>) -> u64>(
        &self,
        text: &str,
        k: usize,
        scorer: F,
    ) -> (hits: Vec<Hit>)
        requires
            forall|q: &Vec<u64>, d: &Vec<u64>|
                q@.len() == DIM && d@.len() == DIM ==> call_requires(scorer, (q, d)),
        ensures
            exists|keys: Seq<u64>| #[trigger]
                scored_by(scorer, text@, self@, keys) && is_ranking(self@, keys, k as nat, hits@),
            hits@.len() <= k,
            hits@.len() <= self@.len(),
            descending(hits@),
            k >= self@.len() ==> hits_all(hits@, self@.len()),
    {
        let query = embed(text);
        let keys = self.score_all(&query, scorer);
        proof {
            assert forall|i: int| 0 <= i < self@.len() implies #[trigger] scores(
                scorer,
                text@,
                self@[i].text,
                keys@[i],
            ) by {
                assert(gives(scorer, &query, self@[i].text, keys@[i]));
                let d = choose|d: &Vec<u64>|
                    is_embedding(d@, self@[i].text) && call_ensures(scorer, (&query, d), keys@[i]);
                assert(is_embedding(query@, text@) && is_embedding(d@, self@[i].text)
                    && call_ensures(scorer, (&query, d), keys@[i]));
            }
            assert(scored_by(scorer, text@, self@, keys@));
        }
        self.ranked(&keys, k)
    }

    /// Lets `scorer` give each document a key, in the order of the store.
    fn score_all<F: Fn(&Vec<u64>, &Vec<u64>) -> u64>(
        &self,
        query: &Vec<u64>,
        scorer: F,
    ) -> (keys: Vec<u64>)
        requires
            query@.len() == DIM,
            forall|q: &Vec<u64>, d: &Vec<u64>|
                q@.len() == DIM && d@.len() == DIM ==> call_requires(scorer, (q, d)),
        ensures
            keys@.len() == self@.len(),
            forall|i: int|
                0 <= i < self@.len() ==> #[trigger] gives(scorer, query, self@[i].text, keys@[i]),
    {
        let mut keys: Vec<u64> = Vec::new();
        let mut i: usize = 0;
        while i < self.docs.len()
            invariant
                i <= self.docs@.len(),
                keys@.len() == i,
                query@.len() == DIM,
                forall|q: &Vec<u64>, d: &Vec<u64>|
                    q@.len() == DIM && d@.len() == DIM ==> call_requires(scorer, (q, d)),
                forall|j: int|
                    0 <= j < i ==> #[trigger] gives(scorer, query, self@[j].text, keys@[j]),
            decreases self.docs@.len() - i,
        {
            let counts = self.docs[i].counts();
            let key: u64 = scorer(query, counts);
            let ghost held = keys@;
            keys.push(key);
            proof {
                assert(is_embedding(counts@, self@[i as int].text) && call_ensures(
                    scorer,
                    (query, counts),
                    key,
                ));
                assert(gives(scorer, query, self@[i as int].text, keys@[i as int]));
                assert forall|j: int| 0 <= j < i implies #[trigger] gives(
                    scorer,
                    query,
                    self@[j].text,
                    keys@[j],
                ) by {
                    assert(keys@[j] == held[j]);
                }
            }
            i += 1;
        }
        keys
    }

    /// Ranks the documents by `keys`, one key for each document in the
    /// order of the store, and returns the best `k`, best first. Where
    /// `keys` does not hold one key for each document, nothing is ranked
    /// and the result is empty.
    pub fn ranked(&self, keys: &Vec<u64>, k: usize) -> (hits: Vec<Hit>)
        ensures
            keys@.len() == self@.len() ==> is_ranking(self@, keys@, k as nat, hits@),
            keys@.len() != self@.len() ==> hits@.len() == 0,
            hits@.len() <= k,
            hits@.len() <= self@.len(),
            descending(hits@),
            keys@.len() == self@.len() && k >= self@.len() ==> hits_all(hits@, self@.len()),
    {
        let mut hits: Vec<Hit> = Vec::new();
        if keys.len() != self.docs.len() {
            return hits;
        }
        let order = top_k(keys, k);
        let mut a: usize = 0;
        while a < order.len()
            invariant
                a <= order@.len(),
                hits@.len() == a,
                keys@.len() == self.docs@.len(),
                is_top(keys@, k as nat, order@),
                k >= keys@.len() ==> covers(order@, keys@.len() as int),
                forall|b: int|
                    0 <= b < a ==> {
                        &&& (#[trigger] hits@[b]).index == order@[b]
                        &&& hits@[b].id@ == self@[order@[b] as int].id
                        &&& hits@[b].text@ == self@[order@[b] as int].text
                        &&& hits@[b].key == keys@[order@[b] as int]
                    },
            decreases order@.len() - a,
        {
            let at: usize = order[a];
            let doc = &self.docs[at];
            hits.push(
                Hit { index: at, id: doc.id.clone(), text: doc.text.clone(), key: keys[at] },
            );
            a += 1;
        }
        assert(hit_order(hits@) =~= order@);
        proof {
            lemma_ranking_bounds(self@, keys@, k as nat, hits@);
            if k >= self@.len() {
                assert forall|i: int| 0 <= i < self@.len() implies #[trigger] is_hit(hits@, i) by {
                    assert(order@.contains(i as usize));
                    let a = choose|a: int| 0 <= a < order@.len() && order@[a] == i as usize;
                    assert(hits@[a].index == i);
                }
            }
        }
        hits
    }
}

} // verus!
