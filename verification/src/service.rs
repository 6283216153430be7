//! The services around the store: what a request is answered with.
//!
//! The index service checks what it is asked to store and how many places
//! a query asks for; the embeddings service embeds texts; the core service
//! answers plain requests. None of them waits or locks: `index` takes the
//! service by `&mut` and `query` by `&`, so the caller who shares a service
//! between tasks is held to one writer or many readers.

use crate::embed::{embed, is_embedding, DIM};
use crate::store::{
    descending, has_id, hits_all, is_ranking, scored_by, upserted, DocModel, Hit, VectorIndex,
};
use vstd::prelude::*;
use vstd::string::StringExecFns;

verus! {

/// A request to the core service.
#[derive(Debug)]
pub struct Request {
    pub id: String,
    pub user_id: String,
    pub kind: String,
    pub payload: String,
}

/// An answer of the core service.
#[derive(Debug)]
pub struct Response {
    pub id: String,
    pub status: i32,
    pub payload: String,
}

/// The outcome of a request to store a document: status 0 where it was
/// stored, status 1 where it was turned down.
#[derive(Debug)]
pub struct IndexResponse {
    pub status: i32,
    pub message: String,
}

/// The number of places that a query gets where it asks for none.
pub const DEFAULT_PLACES: usize = 5;

/// The time between two chunks of the streaming demo, in milliseconds.
pub const CHUNK_DELAY_MS: u64 = 300;

/// The number of chunks of the streaming demo.
pub const CHUNKS: usize = 5;

/// The number of places that a query for `k` gets: `k` where it is
/// positive, and `DEFAULT_PLACES` where it is not.
pub open spec fn places(k: int) -> nat {
    if k <= 0 {
        DEFAULT_PLACES as nat
    } else {
        k as nat
    }
}

/// What the core service answers a request of the kind `kind` with the
/// payload `payload`.
pub open spec fn receipt(kind: Seq<char>, payload: Seq<char>) -> Seq<char> {
    "received type="@ + kind + " payload="@ + payload
}

/// The identifier of chunk `i` of the streaming demo, counted from 0.
pub open spec fn chunk_id(i: int) -> Seq<char> {
    if i == 0 {
        "chunk-1"@
    } else if i == 1 {
        "chunk-2"@
    } else if i == 2 {
        "chunk-3"@
    } else if i == 3 {
        "chunk-4"@
    } else {
        "chunk-5"@
    }
}

/// The text of chunk `i` of the streaming demo, counted from 0.
pub open spec fn chunk_text(i: int) -> Seq<char> {
    if i == 0 {
        "Streaming demo: hello "@
    } else if i == 1 {
        "from the server "@
    } else if i == 2 {
        "with timed "@
    } else if i == 3 {
        "chunks. "@
    } else {
        "Goodbye!"@
    }
}

/// The number of places that a query for `k` gets.
pub fn effective_k(k: i32) -> (n: usize)
    ensures
        n == places(k as int),
{
    if k <= 0 {
        DEFAULT_PLACES
    } else {
        k as usize
    }
}

/// The core service.
#[derive(Default)]
pub struct CoreService;

impl CoreService {
    /// Answers a request: the answer has the identifier of the request,
    /// status 0, and a payload that names the kind and the payload of the
    /// request.
    pub fn send(&self, request: Request) -> (response: Response)
        ensures
            response.id@ == request.id@,
            response.status == 0,
            response.payload@ == receipt(request.kind@, request.payload@),
    {
        let mut payload = String::from_str("received type=");
        payload.append(request.kind.as_str());
        payload.append(" payload=");
        payload.append(request.payload.as_str());
        Response { id: request.id, status: 0, payload }
    }

    /// The chunks of the streaming demo, in the order in which they are
    /// sent: `CHUNKS` answers with status 0. What comes in on the stream
    /// has no part in them.
    pub fn stream_responses(&self) -> (chunks: Vec<Response>)
        ensures
            chunks@.len() == CHUNKS,
            forall|i: int|
                0 <= i < CHUNKS ==> {
                    &&& (#[trigger] chunks@[i]).id@ == chunk_id(i)
                    &&& chunks@[i].status == 0
                    &&& chunks@[i].payload@ == chunk_text(i)
                },
    {
        let mut chunks: Vec<Response> = Vec::new();
        chunks.push(chunk("chunk-1", "Streaming demo: hello "));
        chunks.push(chunk("chunk-2", "from the server "));
        chunks.push(chunk("chunk-3", "with timed "));
        chunks.push(chunk("chunk-4", "chunks. "));
        chunks.push(chunk("chunk-5", "Goodbye!"));
        chunks
    }
}

/// An answer with status 0.
fn chunk(id: &str, payload: &str) -> (response: Response)
    ensures
        response.id@ == id@,
        response.status == 0,
        response.payload@ == payload@,
{
    Response { id: String::from_str(id), status: 0, payload: String::from_str(payload) }
}

/// The index service: one store, and the checks on what goes into it.
pub struct IndexerService {
    store: VectorIndex,
}

impl View for IndexerService {
    type V = Seq<DocModel>;

    closed spec fn view(&self) -> Seq<DocModel> {
        self.store@
    }
}

impl IndexerService {
    /// The place that the store of the service is bound to, if any.
    pub closed spec fn target(&self) -> Option<Seq<char>> {
        self.store.target()
    }

    /// A service over `store`.
    pub fn new(store: VectorIndex) -> (service: IndexerService)
        ensures
            service@ == store@,
            service.target() == store.target(),
    {
        IndexerService { store }
    }

    /// The store.
    pub fn store(&self) -> (store: &VectorIndex)
        ensures
            store@ == self@,
            store.target() == self.target(),
    {
        &self.store
    }

    /// Looks at a request to store `text` under `id` before anything is
    /// locked or changed: returns the answer that turns it down where `id`
    /// or `text` is empty, and nothing where the request can go ahead.
    pub fn validate(id: &str, text: &str) -> (refusal: Option<IndexResponse>)
        ensures
            refusal is Some <==> id@.len() == 0 || text@.len() == 0,
            refusal matches Some(r) ==> r.status == 1 && r.message@
                == "id and text are required"@,
    {
        if id.is_empty() || text.is_empty() {
            Some(IndexResponse { status: 1, message: String::from_str("id and text are required") })
        } else {
            None
        }
    }

    /// Stores `text` under `id`, as `VectorIndex::upsert` does, and answers
    /// with status 0 and the message `ok`. Where `id` or `text` is empty,
    /// nothing is stored, and the answer has status 1 and says that both
    /// are required.
    pub fn index(&mut self, id: String, text: String) -> (response: IndexResponse)
        ensures
            final(self).target() == old(self).target(),
            id@.len() == 0 || text@.len() == 0 ==> {
                &&& response.status == 1
                &&& response.message@ == "id and text are required"@
                &&& final(self)@ == old(self)@
            },
            id@.len() > 0 && text@.len() > 0 ==> {
                &&& response.status == 0
                &&& response.message@ == "ok"@
                &&& final(self)@ == upserted(old(self)@, id@, text@)
                &&& has_id(final(self)@, id@)
            },
    {
        match IndexerService::validate(id.as_str(), text.as_str()) {
            Some(refusal) => {
                return refusal;
            },
            None => {},
        }
        proof {
            crate::store::lemma_upsert_keeps_others(self@, id@, text@);
        }
        self.store.upsert(id, text);
        IndexResponse { status: 0, message: String::from_str("ok") }
    }

    /// Answers a query for `k` places, as `VectorIndex::query` does; a `k`
    /// that is not positive asks for `DEFAULT_PLACES`.
    pub fn query<F: Fn(&Vec<u64>, &Vec<u64>) -> u64>(
        &self,
        text: &str,
        k: i32,
        scorer: F,
    ) -> (hits: Vec<Hit>)
        requires
            forall|q: &Vec<u64>, d: &Vec<u64>|
                q@.len() == DIM && d@.len() == DIM ==> call_requires(scorer, (q, d)),
        ensures
            exists|keys: Seq<u64>| #[trigger]
                scored_by(scorer, text@, self@, keys) && is_ranking(
                    self@,
                    keys,
                    places(k as int),
                    hits@,
                ),
            hits@.len() <= places(k as int),
            hits@.len() <= self@.len(),
            descending(hits@),
            places(k as int) >= self@.len() ==> hits_all(hits@, self@.len()),
    {
        let n = effective_k(k);
        let hits = self.store.query(text, n, scorer);
        proof {
            let keys = choose|keys: Seq<u64>| #[trigger]
                scored_by(scorer, text@, self.store@, keys) && is_ranking(
                    self.store@,
                    keys,
                    n as nat,
                    hits@,
                );
            assert(scored_by(scorer, text@, self@, keys) && is_ranking(
                self@,
                keys,
                places(k as int),
                hits@,
            ));
        }
        hits
    }
}

/// The embeddings service.
#[derive(Default)]
pub struct EmbeddingsService;

impl EmbeddingsService {
    /// The embedding of `text`.
    pub fn embed(&self, text: &str) -> (counts: Vec<u64>)
        ensures
            is_embedding(counts@, text@),
    {
        embed(text)
    }

    /// The embeddings of `texts`, one for each text and in their order.
    pub fn batch_embed(&self, texts: &Vec<String>) -> (items: Vec<Vec<u64>>)
        ensures
            items@.len() == texts@.len(),
            forall|i: int|
                0 <= i < texts@.len() ==> is_embedding((#[trigger] items@[i])@, texts@[i]@),
    {
        let mut items: Vec<Vec<u64>> = Vec::new();
        let mut i: usize = 0;
        while i < texts.len()
            invariant
                i <= texts@.len(),
                items@.len() == i,
                forall|j: int| 0 <= j < i ==> is_embedding((#[trigger] items@[j])@, texts@[j]@),
            decreases texts@.len() - i,
        {
            items.push(embed(texts[i].as_str()));
            i += 1;
        }
        items
    }
}

} // verus!
