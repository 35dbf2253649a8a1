//! A shared vector store: the store, the routing, and what is answered.
//!
//! A vault is embedded on whichever machine opened it first. With this, the
//! second machine fetches and the model is never called.
//!
//! The model is part of the key. Vectors from two models rank plausibly and
//! wrongly, so entries are namespaced by the model that produced them, and a
//! client asking under a name the store has never seen gets an empty answer.
//!
//! A vector is carried as the bit patterns of its numbers: nothing here
//! computes with them.

use crate::http;
use crate::http::Request;
use crate::ordered;
use crate::ordered::TextMap;
use crate::paths;
use crate::semantic::Digest;
use crate::text;
use std::collections::BTreeMap;
use vstd::prelude::*;

verus! {

broadcast use {vstd::std_specs::btree::group_btree_axioms, vstd::laws_cmp::group_laws_cmp};

/// One note's vectors: one per chunk, in the order the chunks appear, each
/// number by its bits.
pub type Chunks = Vec<Vec<u32>>;

/// What a client asks for.
#[derive(Debug)]
pub struct FetchRequest {
    /// The model these vectors must have come from.
    pub model: String,
    pub digests: Vec<u64>,
}

/// What comes back. Digests the store does not hold are simply absent.
#[derive(Debug)]
pub struct FetchResponse {
    pub found: Vec<(u64, Chunks)>,
}

/// Vectors a client computed and is offering to everyone else.
#[derive(Debug)]
pub struct PublishRequest {
    pub model: String,
    pub entries: Vec<(u64, Chunks)>,
}

/// Some entries, by the bits in them.
pub open spec fn entry_views(entries: Seq<(u64, Chunks)>) -> Seq<(u64, Seq<Seq<u32>>)> {
    Seq::new(entries.len(), |i: int| (entries[i].0, text::views(entries[i].1@)))
}

/// The number a digest is sent as. The wire carries the bare number, so that
/// the format does not depend on anything else.
pub fn wire(digest: Digest) -> (r: u64)
    ensures
        r == digest.0,
{
    digest.0
}

// ---- the store ----

/// What is held for one model.
#[derive(Debug)]
struct Held {
    chunks: BTreeMap<u64, Chunks>,
}

impl View for Held {
    type V = Map<u64, Seq<Seq<u32>>>;

    closed spec fn view(&self) -> Map<u64, Seq<Seq<u32>>> {
        bits(self.chunks@)
    }
}

spec fn bits(m: Map<u64, Chunks>) -> Map<u64, Seq<Seq<u32>>> {
    Map::new(|d: u64| m.contains_key(d), |d: u64| text::views(m[d]@))
}

/// The vectors, per model.
#[derive(Debug)]
pub struct Store {
    by_model: TextMap<String, Held>,
}

impl View for Store {
    type V = Map<Seq<char>, Map<u64, Seq<Seq<u32>>>>;

    closed spec fn view(&self) -> Map<Seq<char>, Map<u64, Seq<Seq<u32>>>> {
        ordered::value_views(self.by_model@)
    }
}

/// How many vectors are held under some models.
pub open spec fn count(
    store: Map<Seq<char>, Map<u64, Seq<Seq<u32>>>>,
    models: Seq<Seq<char>>,
) -> nat
    decreases models.len(),
{
    if models.len() == 0 {
        0
    } else {
        count(store, models.drop_last()) + store[models.last()].dom().len()
    }
}

/// How many vectors a store holds.
pub open spec fn total(store: Map<Seq<char>, Map<u64, Seq<Seq<u32>>>>) -> nat {
    count(store, ordered::ascending(store.dom()))
}

/// What a store holds for a model.
pub open spec fn held_for(
    store: Map<Seq<char>, Map<u64, Seq<Seq<u32>>>>,
    model: Seq<char>,
) -> Map<u64, Seq<Seq<u32>>> {
    if store.contains_key(model) {
        store[model]
    } else {
        Map::empty()
    }
}

/// Whichever of some digests are held, in the order they were asked for.
pub open spec fn found(held: Map<u64, Seq<Seq<u32>>>, digests: Seq<u64>) -> Seq<
    (u64, Seq<Seq<u32>>),
>
    decreases digests.len(),
{
    if digests.len() == 0 {
        seq![]
    } else {
        let before = found(held, digests.drop_last());
        let digest = digests.last();
        if held.contains_key(digest) {
            before.push((digest, held[digest]))
        } else {
            before
        }
    }
}

/// Whether an entry is taken on: it has something in it, and nothing is held
/// under its digest.
pub open spec fn is_new(held: Map<u64, Seq<Seq<u32>>>, entry: (u64, Seq<Seq<u32>>)) -> bool {
    entry.1.len() > 0 && !held.contains_key(entry.0)
}

/// What is held once some entries have been offered.
pub open spec fn taken(
    held: Map<u64, Seq<Seq<u32>>>,
    entries: Seq<(u64, Seq<Seq<u32>>)>,
) -> Map<u64, Seq<Seq<u32>>>
    decreases entries.len(),
{
    if entries.len() == 0 {
        held
    } else {
        let before = taken(held, entries.drop_last());
        let entry = entries.last();
        if is_new(before, entry) {
            before.insert(entry.0, entry.1)
        } else {
            before
        }
    }
}

/// How many of some entries were new.
pub open spec fn added(
    held: Map<u64, Seq<Seq<u32>>>,
    entries: Seq<(u64, Seq<Seq<u32>>)>,
) -> nat
    decreases entries.len(),
{
    if entries.len() == 0 {
        0
    } else {
        let before = taken(held, entries.drop_last());
        added(held, entries.drop_last()) + if is_new(before, entries.last()) {
            1nat
        } else {
            0nat
        }
    }
}

fn copy_chunks(chunks: &Chunks) -> (out: Chunks)
    ensures
        text::views(out@) == text::views(chunks@),
{
    let mut out: Chunks = Vec::new();
    let mut i: usize = 0;
    let ghost all = text::views(chunks@);
    while i < chunks.len()
        invariant
            i <= chunks@.len(),
            all == text::views(chunks@),
            text::views(out@) == all.take(i as int),
        decreases chunks@.len() - i,
    {
        let chunk = &chunks[i];
        let mut copy: Vec<u32> = Vec::new();
        let mut j: usize = 0;
        while j < chunk.len()
            invariant
                j <= chunk@.len(),
                copy@ == chunk@.take(j as int),
            decreases chunk@.len() - j,
        {
            copy.push(chunk[j]);
            assert(chunk@.take(j + 1) =~= chunk@.take(j as int).push(chunk@[j as int]));
            j = j + 1;
        }
        assert(chunk@.take(chunk@.len() as int) =~= chunk@);
        proof {
            text::lemma_views_push(out@, copy);
            assert(all.take(i + 1) =~= all.take(i as int).push(copy@));
        }
        out.push(copy);
        i = i + 1;
    }
    assert(all.take(all.len() as int) =~= all);
    out
}

impl Default for Store {
    /// An empty store.
    fn default() -> (r: Self)
        ensures
            r@ == Map::<Seq<char>, Map<u64, Seq<Seq<u32>>>>::empty(),
    {
        let r = Store { by_model: TextMap::new() };
        assert(r@ =~= Map::<Seq<char>, Map<u64, Seq<Seq<u32>>>>::empty());
        r
    }
}

impl Store {
    /// How many vectors there are.
    pub fn len(&self) -> (n: usize)
        requires
            total(self@) <= usize::MAX,
        ensures
            n == total(self@),
    {
        let models = self.by_model.len();
        let ghost order = ordered::ascending(self.by_model@.dom());
        assert(self@.dom() =~= self.by_model@.dom());
        let mut n: usize = 0;
        let mut i: usize = 0;
        while i < models
            invariant
                i <= models == order.len(),
                order == ordered::ascending(self.by_model@.dom()),
                order == ordered::ascending(self@.dom()),
                n == count(self@, order.take(i as int)),
                total(self@) <= usize::MAX,
            decreases models - i,
        {
            let held = self.by_model.value(i);
            proof {
                assert(order.take(i + 1).drop_last() =~= order.take(i as int));
                lemma_count_grows(self@, order, i + 1);
                assert(self@[order[i as int]] == held@);
                assert(held@.dom() =~= held.chunks@.dom());
            }
            n = n + held.chunks.len();
            i = i + 1;
        }
        assert(order.take(models as int) =~= order);
        n
    }

    /// Whether there are none.
    pub fn is_empty(&self) -> (r: bool)
        requires
            total(self@) <= usize::MAX,
        ensures
            r == (total(self@) == 0),
    {
        self.len() == 0
    }

    /// Whichever of `digests` this store holds for `model`.
    pub fn fetch(&self, model: &str, digests: &[u64]) -> (r: Vec<(u64, Chunks)>)
        ensures
            entry_views(r@) == found(held_for(self@, model@), digests@),
    {
        let mut r: Vec<(u64, Chunks)> = Vec::new();
        assert(entry_views(r@) =~= seq![]);
        let held = match self.by_model.get(model) {
            Some(held) => held,
            None => {
                proof {
                    lemma_nothing_found(digests@);
                }
                return r;
            },
        };
        assert(held@ == held_for(self@, model@));
        let mut i: usize = 0;
        while i < digests.len()
            invariant
                i <= digests@.len(),
                entry_views(r@) == found(held@, digests@.take(i as int)),
            decreases digests@.len() - i,
        {
            assert(digests@.take(i + 1).drop_last() =~= digests@.take(i as int));
            let digest = digests[i];
            let ghost before = entry_views(r@);
            match held.chunks.get(&digest) {
                Some(chunks) => {
                    let copy = copy_chunks(chunks);
                    r.push((digest, copy));
                    assert(entry_views(r@) =~= before.push((digest, held@[digest])));
                },
                None => {},
            }
            i = i + 1;
        }
        assert(digests@.take(digests@.len() as int) =~= digests@);
        r
    }

    /// Take on what a client offered. Returns how many were new.
    ///
    /// An entry that is already held is not overwritten: the same digest means
    /// the same text through the same model. One with no chunks is not taken
    /// on, so that the next machine tries.
    pub fn publish(&mut self, model: &str, entries: Vec<(u64, Chunks)>) -> (n: usize)
        ensures
            final(self)@ == old(self)@.insert(
                model@,
                taken(held_for(old(self)@, model@), entry_views(entries@)),
            ),
            n == added(held_for(old(self)@, model@), entry_views(entries@)),
    {
        let ghost was = held_for(self@, model@);
        let ghost all = entry_views(entries@);
        let ghost before = self.by_model@;
        let mut held = match self.by_model.remove(model) {
            Some(held) => held,
            None => {
                let held = Held { chunks: BTreeMap::new() };
                assert(held@ =~= Map::<u64, Seq<Seq<u32>>>::empty());
                held
            },
        };
        assert(held@ == was);
        let mut n: usize = 0;
        let mut i: usize = 0;
        while i < entries.len()
            invariant
                i <= entries@.len(),
                all == entry_views(entries@),
                held@ == taken(was, all.take(i as int)),
                n == added(was, all.take(i as int)),
                n <= i,
            decreases entries@.len() - i,
        {
            assert(all.take(i + 1).drop_last() =~= all.take(i as int));
            let (digest, chunks) = &entries[i];
            assert(all[i as int] == (*digest, text::views(chunks@)));
            if chunks.len() > 0 && !held.chunks.contains_key(digest) {
                let copy = copy_chunks(chunks);
                let ghost now = held.chunks@;
                held.chunks.insert(*digest, copy);
                assert(held@ =~= bits(now).insert(*digest, text::views(copy@)));
                n = n + 1;
            }
            i = i + 1;
        }
        assert(all.take(all.len() as int) =~= all);
        proof {
            ordered::lemma_value_views_insert(self.by_model@, model@, held);
            assert(ordered::value_views(before.remove(model@)).insert(model@, held@)
                =~= ordered::value_views(before).insert(model@, held@));
        }
        self.by_model.insert(text::string_of(&text::chars_of(model)), held);
        n
    }

    /// The models vectors are held for.
    pub fn models(&self) -> (r: Vec<String>)
        ensures
            text::views(r@) == ordered::ascending(self@.dom()),
    {
        assert(self@.dom() =~= self.by_model@.dom());
        let n = self.by_model.len();
        let ghost order = ordered::ascending(self@.dom());
        let mut r: Vec<String> = Vec::new();
        let mut i: usize = 0;
        while i < n
            invariant
                i <= n == order.len(),
                order == ordered::ascending(self@.dom()),
                self@.dom() == self.by_model@.dom(),
                text::views(r@) == order.take(i as int),
            decreases n - i,
        {
            let model = self.by_model.key(i).clone();
            proof {
                text::lemma_views_push(r@, model);
                assert(order.take(i + 1) =~= order.take(i as int).push(order[i as int]));
            }
            r.push(model);
            i = i + 1;
        }
        assert(order.take(n as int) =~= order);
        r
    }

    /// The digests held for a model, each once.
    pub fn digests(&self, model: &str) -> (r: Vec<u64>)
        ensures
            r@.to_set() == held_for(self@, model@).dom(),
            r@.no_duplicates(),
    {
        let mut r: Vec<u64> = Vec::new();
        match self.by_model.get(model) {
            None => {
                assert(r@.to_set() =~= held_for(self@, model@).dom());
            },
            Some(held) => {
                let ghost all = vstd::std_specs::iter::IteratorSpec::remaining(
                    &vstd::std_specs::btree::spec_keys_iter(&held.chunks),
                ).unref();
                for digest in it: held.chunks.keys()
                    invariant
                        it.seq().unref() == all,
                        r@ == all.take(it.index() as int),
                {
                    r.push(*digest);
                }
                assert(r@ =~= all);
                assert(held@.dom() =~= held.chunks@.dom());
                assert(r@.to_set() =~= held_for(self@, model@).dom());
            },
        }
        r
    }
}

proof fn lemma_count_grows(
    store: Map<Seq<char>, Map<u64, Seq<Seq<u32>>>>,
    models: Seq<Seq<char>>,
    n: int,
)
    requires
        0 <= n <= models.len(),
    ensures
        count(store, models.take(n)) <= count(store, models),
    decreases models.len() - n,
{
    if n < models.len() {
        lemma_count_grows(store, models, n + 1);
        assert(models.take(n + 1).drop_last() =~= models.take(n));
    } else {
        assert(models.take(n) =~= models);
    }
}

proof fn lemma_nothing_found(digests: Seq<u64>)
    ensures
        found(Map::empty(), digests) == Seq::<(u64, Seq<Seq<u32>>)>::empty(),
    decreases digests.len(),
{
    if digests.len() > 0 {
        lemma_nothing_found(digests.drop_last());
    }
}

// ---- the routes ----

/// Where a request leads.
#[derive(Debug, PartialEq, Eq)]
pub enum Routed {
    /// It is answered with a status and a body.
    Answer(u16, Vec<u8>),
    /// Its body is a [`FetchRequest`].
    Fetch,
    /// Its body is a [`PublishRequest`].
    Publish,
}

/// Where a request leads, by the bytes of the answer.
pub enum RoutedView {
    Answer(u16, Seq<u8>),
    Fetch,
    Publish,
}

impl View for Routed {
    type V = RoutedView;

    open spec fn view(&self) -> RoutedView {
        match self {
            Routed::Answer(status, body) => RoutedView::Answer(*status, body@),
            Routed::Fetch => RoutedView::Fetch,
            Routed::Publish => RoutedView::Publish,
        }
    }
}

/// Whether a request carries the token.
pub open spec fn is_authorised(headers: Map<Seq<char>, Seq<char>>, token: Seq<char>) -> bool {
    http::bearer(headers) == Some(token)
}

/// The body of an answer to a health check.
pub open spec fn health(vectors: nat) -> Seq<u8> {
    vstd::utf8::encode_utf8("{\"ok\":true,\"vectors\":"@ + text::decimal(vectors) + "}"@)
}

/// Where a request leads, in a store with so many vectors.
///
/// `/health` needs no token; the two routes that read and write vectors do,
/// whatever the method; and anything else is no route.
pub open spec fn routing(request: http::RequestView, token: Seq<char>, vectors: nat) -> RoutedView {
    if request.method == "GET"@ && request.path == "/health"@ {
        RoutedView::Answer(200, health(vectors))
    } else if request.path == "/fetch"@ || request.path == "/publish"@ {
        if !is_authorised(request.headers, token) {
            RoutedView::Answer(
                401,
                vstd::utf8::encode_utf8("{\"error\":\"unauthorised\"}"@),
            )
        } else if request.method != "POST"@ {
            no_such_route()
        } else if request.path == "/fetch"@ {
            RoutedView::Fetch
        } else {
            RoutedView::Publish
        }
    } else {
        no_such_route()
    }
}

/// The answer to a request for anything else.
pub open spec fn no_such_route() -> RoutedView {
    RoutedView::Answer(404, vstd::utf8::encode_utf8("{\"error\":\"no such route\"}"@))
}

/// Find where a request leads. Everything here is a function of the request,
/// the token and how much the store holds.
pub fn route(request: &Request, token: &str, store: &Store) -> (r: Routed)
    requires
        total(store@) <= usize::MAX,
    ensures
        r@ == routing(request@, token@, total(store@)),
{
    let method = request.method.as_str();
    let path = request.path.as_str();
    if text::same(method, "GET") && text::same(path, "/health") {
        let mut body = text::chars_of("{\"ok\":true,\"vectors\":");
        text::extend(&mut body, &text::decimal_of(store.len() as u64));
        text::extend(&mut body, &text::chars_of("}"));
        return Routed::Answer(200, text::bytes_of(text::string_of(&body).as_str()));
    }
    let fetching = text::same(path, "/fetch");
    if fetching || text::same(path, "/publish") {
        if !authorised(request, token) {
            return Routed::Answer(401, text::bytes_of("{\"error\":\"unauthorised\"}"));
        }
        if text::same(method, "POST") {
            return if fetching {
                Routed::Fetch
            } else {
                Routed::Publish
            };
        }
    }
    Routed::Answer(404, text::bytes_of("{\"error\":\"no such route\"}"))
}

/// The answer to a body that is not what its route expects.
pub open spec fn bad_request() -> Seq<u8> {
    vstd::utf8::encode_utf8("{\"error\":\"bad request\"}"@)
}

/// Answer a fetch, or say with which status and body it is refused. `asked` is
/// what the body held, if it was a request at all.
pub fn answer_fetch(asked: Option<FetchRequest>, store: &Store) -> (r: Result<
    FetchResponse,
    (u16, Vec<u8>),
>)
    ensures
        match r {
            Ok(response) => asked is Some && entry_views(response.found@) == found(
                held_for(store@, asked->Some_0.model@),
                asked->Some_0.digests@,
            ),
            Err((status, body)) => asked is None && status == 400 && body@ == bad_request(),
        },
{
    match asked {
        Some(asked) => Ok(
            FetchResponse { found: store.fetch(asked.model.as_str(), &asked.digests) },
        ),
        None => Err((400, text::bytes_of("{\"error\":\"bad request\"}"))),
    }
}

/// The body of an answer to a publish.
pub open spec fn published(added: nat) -> Seq<u8> {
    vstd::utf8::encode_utf8("{\"added\":"@ + text::decimal(added) + "}"@)
}

/// Answer a publish, taking on what was offered. `offered` is what the body
/// held, if it was a request at all.
pub fn answer_publish(offered: Option<PublishRequest>, store: &mut Store) -> (r: (u16, Vec<u8>))
    ensures
        match offered {
            Some(offered) => {
                let was = held_for(old(store)@, offered.model@);
                let entries = entry_views(offered.entries@);
                &&& final(store)@ == old(store)@.insert(offered.model@, taken(was, entries))
                &&& r.0 == 200
                &&& r.1@ == published(added(was, entries))
            },
            None => final(store)@ == old(store)@ && r.0 == 400 && r.1@ == bad_request(),
        },
{
    match offered {
        Some(offered) => {
            let n = store.publish(offered.model.as_str(), offered.entries);
            let mut body = text::chars_of("{\"added\":");
            text::extend(&mut body, &text::decimal_of(n as u64));
            text::extend(&mut body, &text::chars_of("}"));
            (200, text::bytes_of(text::string_of(&body).as_str()))
        },
        None => (400, text::bytes_of("{\"error\":\"bad request\"}")),
    }
}

/// What is answered to a request that could not be read. One that never came
/// is not answered.
pub fn refusal(bad: http::Bad) -> (r: Option<(u16, Vec<u8>)>)
    ensures
        match (bad, r) {
            (http::Bad::Closed, r) => r is None,
            (http::Bad::TooLarge, Some((status, body))) => status == 413 && body@
                == vstd::utf8::encode_utf8("{\"error\":\"too large\"}"@),
            (http::Bad::Malformed, Some((status, body))) => status == 400 && body@
                == bad_request(),
            _ => false,
        },
{
    match bad {
        http::Bad::Closed => None,
        http::Bad::TooLarge => Some((413, text::bytes_of("{\"error\":\"too large\"}"))),
        http::Bad::Malformed => Some((400, text::bytes_of("{\"error\":\"bad request\"}"))),
    }
}

/// Whether the store is written out after an answer: only a publish that was
/// taken changes it.
pub fn saves(path: &str, status: u16) -> (r: bool)
    ensures
        r == (path@ == "/publish"@ && status == 200),
{
    text::same(path, "/publish") && status == 200
}

/// Whether a request carries the token.
pub fn authorised(request: &Request, token: &str) -> (r: bool)
    ensures
        r == is_authorised(request@.headers, token@),
{
    match request.bearer() {
        Some(given) => constant_eq(given, token),
        None => false,
    }
}

/// Whether two secrets are the same, found without stopping at the first byte
/// that differs.
pub fn constant_eq(a: &str, b: &str) -> (r: bool)
    ensures
        r == (a@ == b@),
{
    let x = a.as_bytes();
    let y = b.as_bytes();
    proof {
        vstd::utf8::encode_utf8_decode_utf8(a@);
        vstd::utf8::encode_utf8_decode_utf8(b@);
    }
    if x.len() != y.len() {
        return false;
    }
    let mut all: u8 = 0;
    let mut i: usize = 0;
    assert(x@.take(0) =~= y@.take(0));
    while i < x.len()
        invariant
            i <= x@.len() == y@.len(),
            (all == 0) == (x@.take(i as int) == y@.take(i as int)),
        decreases x@.len() - i,
    {
        let p: u8 = x[i];
        let q: u8 = y[i];
        proof {
            assert(((all | (p ^ q)) == 0) == (all == 0 && p == q)) by (bit_vector);
            let s = x@.take(i as int);
            let t = y@.take(i as int);
            assert(x@.take(i + 1) =~= s.push(p));
            assert(y@.take(i + 1) =~= t.push(q));
            if s.push(p) == t.push(q) {
                assert(s =~= s.push(p).drop_last());
                assert(t =~= t.push(q).drop_last());
                assert(p == s.push(p).last());
            }
        }
        all = all | (p ^ q);
        i = i + 1;
    }
    assert(x@.take(x@.len() as int) =~= x@);
    assert(y@.take(y@.len() as int) =~= y@);
    all == 0
}

// ---- starting up ----

/// Where the store lives: in the data directory, which is a fixed one unless
/// `data` names another.
pub fn default_store_path(data: Option<&str>) -> (r: String)
    ensures
        r@ == paths::joined(
            match data {
                Some(d) => d@,
                None => "/var/lib/brain-vectors"@,
            },
            "vectors.json"@,
        ),
{
    let mut path = match data {
        Some(d) => text::chars_of(d),
        None => text::chars_of("/var/lib/brain-vectors"),
    };
    paths::join(&mut path, &text::chars_of("vectors.json"));
    text::string_of(&path)
}

/// Whether a shared secret is long enough to start with.
pub fn is_long_enough(token: &str) -> (r: bool)
    ensures
        r == (vstd::utf8::encode_utf8(token@).len() >= 32),
{
    token.as_bytes().len() >= 32
}

/// The port in an address: what follows its last colon.
pub fn port(address: &str) -> (r: String)
    ensures
        r@ == (match text::find_last(address@, ':') {
            Some(i) => address@.skip(i + 1),
            None => address@,
        }),
{
    let chars = text::chars_of(address);
    let n = chars.len();
    match text::last_position_of(&chars, ':') {
        Some(i) => {
            let r = text::part(&chars, i + 1, n);
            assert(r@ =~= address@.skip(i + 1));
            text::string_of(&r)
        },
        None => text::string_of(&chars),
    }
}

/// Whether a status line says that the service is well.
pub fn is_healthy(status_line: &str) -> (r: bool)
    ensures
        r == "HTTP/1.1 200"@.is_prefix_of(status_line@),
{
    text::begins(&text::chars_of(status_line), &text::chars_of("HTTP/1.1 200"))
}

// ---- what holds of every store ----

/// A vector published comes back: whatever is offered under a digest, and is
/// not empty, something is held under it from then on; and if nothing was held
/// before and the digest was offered once, it is exactly what was offered.
pub proof fn lemma_a_published_vector_comes_back(
    store: Map<Seq<char>, Map<u64, Seq<Seq<u32>>>>,
    model: Seq<char>,
    entries: Seq<(u64, Seq<Seq<u32>>)>,
    i: int,
)
    requires
        0 <= i < entries.len(),
        entries[i].1.len() > 0,
    ensures
        ({
            let was = held_for(store, model);
            let now = store.insert(model, taken(was, entries));
            let (digest, chunks) = entries[i];
            &&& found(held_for(now, model), seq![digest]).len() == 1
            &&& found(held_for(now, model), seq![digest])[0].0 == digest
            &&& !was.contains_key(digest) && (forall|j: int|
                0 <= j < entries.len() && (#[trigger] entries[j]).0 == digest ==> j == i)
                ==> found(held_for(now, model), seq![digest]) == seq![(digest, chunks)]
        }),
{
    let was = held_for(store, model);
    let (digest, chunks) = entries[i];
    lemma_taken(was, entries, i);
    let h = taken(was, entries);
    assert(seq![digest].drop_last() =~= Seq::<u64>::empty());
    reveal_with_fuel(found, 2);
    assert(found(h, seq![digest]) =~= seq![(digest, h[digest])]);
}

proof fn lemma_taken(
    was: Map<u64, Seq<Seq<u32>>>,
    entries: Seq<(u64, Seq<Seq<u32>>)>,
    i: int,
)
    requires
        0 <= i < entries.len(),
        entries[i].1.len() > 0,
    ensures
        taken(was, entries).contains_key(entries[i].0),
        !was.contains_key(entries[i].0) && (forall|j: int|
            0 <= j < entries.len() && (#[trigger] entries[j]).0 == entries[i].0 ==> j == i)
            ==> taken(was, entries)[entries[i].0] == entries[i].1,
    decreases entries.len(),
{
    let rest = entries.drop_last();
    if i < rest.len() {
        assert(rest[i] == entries[i]);
        lemma_taken(was, rest, i);
        assert forall|j: int|
            0 <= j < rest.len() && (#[trigger] rest[j]).0 == rest[i].0 && (forall|j: int|
                0 <= j < entries.len() && (#[trigger] entries[j]).0 == entries[i].0 ==> j
                    == i) implies j == i by {
            assert(entries[j] == rest[j]);
        }
        assert(entries[entries.len() - 1] == entries.last());
    } else {
        lemma_untaken(was, rest, entries[i].0);
        if !was.contains_key(entries[i].0) && (forall|j: int|
            0 <= j < entries.len() && (#[trigger] entries[j]).0 == entries[i].0 ==> j == i) {
            assert forall|j: int| 0 <= j < rest.len() implies (#[trigger] rest[j]).0
                != entries[i].0 by {
                assert(entries[j] == rest[j]);
            }
        }
    }
}

proof fn lemma_untaken(
    was: Map<u64, Seq<Seq<u32>>>,
    entries: Seq<(u64, Seq<Seq<u32>>)>,
    digest: u64,
)
    ensures
        was.contains_key(digest) ==> taken(was, entries).contains_key(digest) && taken(
            was,
            entries,
        )[digest] == was[digest],
        !was.contains_key(digest) && (forall|j: int|
            0 <= j < entries.len() ==> (#[trigger] entries[j]).0 != digest) ==> !taken(
            was,
            entries,
        ).contains_key(digest),
    decreases entries.len(),
{
    if entries.len() > 0 {
        let rest = entries.drop_last();
        lemma_untaken(was, rest, digest);
        if forall|j: int| 0 <= j < entries.len() ==> (#[trigger] entries[j]).0 != digest {
            assert forall|j: int| 0 <= j < rest.len() implies (#[trigger] rest[j]).0 != digest by {
                assert(entries[j] == rest[j]);
            }
            assert(entries[entries.len() - 1] == entries.last());
        }
    }
}

/// What is already held is not overwritten.
pub proof fn lemma_what_is_held_stays(
    was: Map<u64, Seq<Seq<u32>>>,
    entries: Seq<(u64, Seq<Seq<u32>>)>,
    digest: u64,
)
    requires
        was.contains_key(digest),
    ensures
        taken(was, entries).contains_key(digest),
        taken(was, entries)[digest] == was[digest],
{
    lemma_untaken(was, entries, digest);
}

/// Another model never sees these vectors.
pub proof fn lemma_another_model_never_sees_these_vectors(
    store: Map<Seq<char>, Map<u64, Seq<Seq<u32>>>>,
    model: Seq<char>,
    other: Seq<char>,
    entries: Seq<(u64, Seq<Seq<u32>>)>,
    digests: Seq<u64>,
)
    requires
        model != other,
    ensures
        found(
            held_for(store.insert(model, taken(held_for(store, model), entries)), other),
            digests,
        ) == found(held_for(store, other), digests),
{
}

/// Offering the same entries again adds nothing and changes nothing.
pub proof fn lemma_republishing_adds_nothing(
    was: Map<u64, Seq<Seq<u32>>>,
    entries: Seq<(u64, Seq<Seq<u32>>)>,
)
    ensures
        added(taken(was, entries), entries) == 0,
        taken(taken(was, entries), entries) == taken(was, entries),
{
    let h = taken(was, entries);
    assert forall|i: int| 0 <= i < entries.len() && (#[trigger] entries[i]).1.len()
        > 0 implies h.contains_key(entries[i].0) by {
        lemma_taken(was, entries, i);
    }
    lemma_nothing_new(h, entries);
}

proof fn lemma_nothing_new(
    held: Map<u64, Seq<Seq<u32>>>,
    entries: Seq<(u64, Seq<Seq<u32>>)>,
)
    requires
        forall|i: int|
            0 <= i < entries.len() && (#[trigger] entries[i]).1.len() > 0 ==> held.contains_key(
                entries[i].0,
            ),
    ensures
        added(held, entries) == 0,
        taken(held, entries) == held,
    decreases entries.len(),
{
    if entries.len() > 0 {
        let rest = entries.drop_last();
        assert forall|i: int| 0 <= i < rest.len() && (#[trigger] rest[i]).1.len()
            > 0 implies held.contains_key(rest[i].0) by {
            assert(entries[i] == rest[i]);
        }
        lemma_nothing_new(held, rest);
        assert(entries[entries.len() - 1] == entries.last());
    }
}

/// The store never holds an empty vector, and grows by exactly what was new.
pub proof fn lemma_publishing_adds_only_vectors(
    was: Map<u64, Seq<Seq<u32>>>,
    entries: Seq<(u64, Seq<Seq<u32>>)>,
)
    requires
        was.dom().finite(),
        forall|d: u64| #[trigger] was.contains_key(d) ==> was[d].len() > 0,
    ensures
        taken(was, entries).dom().finite(),
        forall|d: u64| #[trigger]
            taken(was, entries).contains_key(d) ==> taken(was, entries)[d].len() > 0,
        taken(was, entries).dom().len() == was.dom().len() + added(was, entries),
    decreases entries.len(),
{
    if entries.len() > 0 {
        lemma_publishing_adds_only_vectors(was, entries.drop_last());
    }
}

/// Nobody reads or writes a vector without the token.
pub proof fn lemma_vectors_need_the_token(
    request: http::RequestView,
    token: Seq<char>,
    vectors: nat,
)
    ensures
        routing(request, token, vectors) is Fetch || routing(request, token, vectors) is Publish
            ==> is_authorised(request.headers, token),
{
}

// ---- what is answered ----

/// Vectors are fetched in the order they are asked for, those that are not
/// there left out.
pub proof fn lemma_what_is_there_is_found_in_order(
    held: Map<u64, Seq<Seq<u32>>>,
    a: Seq<u64>,
    digest: u64,
    b: Seq<u64>,
)
    ensures
        found(held, a.push(digest) + b) == found(held, a) + (if held.contains_key(digest) {
            seq![(digest, held[digest])]
        } else {
            seq![]
        }) + found(held, b),
        found(held, seq![]) == Seq::<(u64, Seq<Seq<u32>>)>::empty(),
    decreases b.len(),
{
    let all = a.push(digest) + b;
    let here = if held.contains_key(digest) {
        seq![(digest, held[digest])]
    } else {
        seq![]
    };
    if b.len() == 0 {
        assert(all =~= a.push(digest));
        assert(all.drop_last() =~= a);
    } else {
        lemma_what_is_there_is_found_in_order(held, a, digest, b.drop_last());
        assert(all.drop_last() =~= a.push(digest) + b.drop_last());
    }
    assert(found(held, all) =~= found(held, a) + here + found(held, b));
}

/// What is published is kept unless it is empty or something is there under its
/// digest, and is counted exactly if it is kept.
pub proof fn lemma_the_first_to_publish_counts(
    held: Map<u64, Seq<Seq<u32>>>,
    entries: Seq<(u64, Seq<Seq<u32>>)>,
    digest: u64,
    chunks: Seq<Seq<u32>>,
)
    ensures
        ({
            let was = taken(held, entries);
            let now = taken(held, entries.push((digest, chunks)));
            if chunks.len() > 0 && !was.contains_key(digest) {
                &&& now == was.insert(digest, chunks)
                &&& added(held, entries.push((digest, chunks))) == added(held, entries) + 1
            } else {
                &&& now == was
                &&& added(held, entries.push((digest, chunks))) == added(held, entries)
            }
        }),
        taken(held, seq![]) == held,
        added(held, seq![]) == 0,
{
    assert(entries.push((digest, chunks)).drop_last() =~= entries);
}

/// A store holds the vectors of all its models together.
pub proof fn lemma_a_total_is_of_all_models(
    store: Map<Seq<char>, Map<u64, Seq<Seq<u32>>>>,
    models: Seq<Seq<char>>,
    model: Seq<char>,
)
    ensures
        count(store, models.push(model)) == count(store, models) + store[model].dom().len(),
        count(store, seq![]) == 0,
        total(store) == count(store, ordered::ascending(store.dom())),
{
    assert(models.push(model).drop_last() =~= models);
}

/// What is done with a request: the health of the server is told to anyone who
/// gets it; vectors are fetched and published by those who post with the token;
/// without the token they are refused before anything else; and there is
/// nothing else.
pub proof fn lemma_what_is_done_with_a_request(
    request: http::RequestView,
    token: Seq<char>,
    vectors: nat,
)
    ensures
        ({
            let healthy = request.method == "GET"@ && request.path == "/health"@;
            let fetch = request.path == "/fetch"@;
            let publish = request.path == "/publish"@;
            let allowed = request.headers.contains_key("authorization"@)
                && request.headers["authorization"@] == "Bearer "@ + token;
            let posted = request.method == "POST"@;
            let r = routing(request, token, vectors);
            &&& healthy ==> r == RoutedView::Answer(
                200,
                vstd::utf8::encode_utf8(
                    "{\"ok\":true,\"vectors\":"@ + text::decimal(vectors) + "}"@,
                ),
            )
            &&& (fetch || publish) && !healthy && !allowed ==> r == RoutedView::Answer(
                401,
                vstd::utf8::encode_utf8("{\"error\":\"unauthorised\"}"@),
            )
            &&& fetch && !healthy && allowed && posted ==> r == RoutedView::Fetch
            &&& publish && !fetch && !healthy && allowed && posted ==> r == RoutedView::Publish
            &&& !healthy && ((!fetch && !publish) || (allowed && !posted)) ==> r
                == RoutedView::Answer(
                404,
                vstd::utf8::encode_utf8("{\"error\":\"no such route\"}"@),
            )
        }),
{
    http::lemma_a_token_follows_bearer(request.headers, token);
}

/// A request that makes no sense, and vectors that were added, are answered so.
pub proof fn lemma_what_is_answered(added: nat)
    ensures
        bad_request() == vstd::utf8::encode_utf8("{\"error\":\"bad request\"}"@),
        published(added) == vstd::utf8::encode_utf8("{\"added\":"@ + text::decimal(added) + "}"@),
{
}

} // verus!
