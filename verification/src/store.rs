//! The vector store: an ordered collection of nodes with ids handed out in
//! increasing order, queried by metadata filter or by similarity.
use vstd::prelude::*;
use crate::document::{
    document_nodes, lemma_nodes_round_trip, nodes_document, nodes_from_json, nodes_to_json, Json,
    JsonView,
};
use crate::error::StoreError;
use crate::filter::{tag_matches, tags, Filter, Tag};
use crate::node::{node_views, Node, NodeView};
use crate::ranking::{as_ints, rank_fault, rank_scores, ranking, rows, score_all, scores_of};

verus! {

/// How many nodes a similarity query returns unless the store is told
/// otherwise.
pub const DEFAULT_TOP_K: usize = 5;

/// What a `VectorStore` stands for.
pub struct StoreView {
    /// The nodes, in insertion order.
    pub nodes: Seq<NodeView>,
    /// The embedding model that produced the stored vectors.
    pub model: Seq<char>,
    /// The highest id handed out so far; 0 before the first.
    pub last_id: usize,
    /// How many nodes a similarity query returns.
    pub top_k: usize,
}

/// The nodes form a consistent collection: ids start at 1 or above and grow
/// strictly along the sequence (so none occurs twice), and all embeddings have
/// one width.
pub open spec fn consistent(nodes: Seq<NodeView>) -> bool {
    &&& forall|i: int| 0 <= i < nodes.len() ==> (#[trigger] nodes[i]).text_id >= 1
    &&& forall|i: int, j: int|
        0 <= i < j < nodes.len() ==> (#[trigger] nodes[i]).text_id < (#[trigger] nodes[j]).text_id
    &&& forall|i: int, j: int|
        0 <= i < nodes.len() && 0 <= j < nodes.len() ==> (#[trigger] nodes[i]).embedding.len() == (
        #[trigger] nodes[j]).embedding.len()
}

impl StoreView {
    /// The store's invariant: consistent nodes, none with an id above the
    /// highest one handed out.
    pub open spec fn wf(self) -> bool {
        &&& consistent(self.nodes)
        &&& forall|i: int|
            0 <= i < self.nodes.len() ==> (#[trigger] self.nodes[i]).text_id <= self.last_id
    }
}

/// Some node carries `id`.
pub open spec fn holds_id(nodes: Seq<NodeView>, id: usize) -> bool {
    exists|i: int| 0 <= i < nodes.len() && (#[trigger] nodes[i]).text_id == id
}

/// Where the node with `id` stands (in a consistent collection there is at
/// most one).
pub open spec fn position_of(nodes: Seq<NodeView>, id: usize) -> int {
    choose|i: int| 0 <= i < nodes.len() && (#[trigger] nodes[i]).text_id == id
}

/// The views of a list of borrowed nodes.
pub open spec fn borrowed_views(nodes: Seq<&Node>) -> Seq<NodeView> {
    Seq::new(nodes.len(), |i: int| nodes[i]@)
}

/// The embeddings of a list of nodes.
pub open spec fn embeddings(nodes: Seq<NodeView>) -> Seq<Seq<i32>> {
    Seq::new(nodes.len(), |i: int| nodes[i].embedding)
}

/// The nodes at the given positions, in the order of the positions.
pub open spec fn picked(nodes: Seq<NodeView>, positions: Seq<int>) -> Seq<NodeView> {
    positions.map_values(|i: int| nodes[i])
}

/// The positions `0, 1, .., n - 1`.
pub open spec fn positions(n: nat) -> Seq<int> {
    Seq::new(n, |i: int| i)
}

/// The test "the node at this position passes every required tag".
pub open spec fn passes_at(nodes: Seq<NodeView>, required: Seq<Tag>) -> spec_fn(int) -> bool {
    |i: int| tag_matches(nodes[i].metadata, required)
}

/// The positions, ascending, of the nodes that pass every required tag.
pub open spec fn passing(nodes: Seq<NodeView>, required: Seq<Tag>) -> Seq<int> {
    positions(nodes.len()).filter(passes_at(nodes, required))
}

/// What a query returns, as positions into the store's nodes.
///
/// The store has two modes and does not blend them. An empty store answers
/// with nothing, whatever is asked. With at least one required tag the answer
/// is every node that passes, in store order, unranked; the query vector is
/// not looked at. With none, the answer is the `top_k` nodes closest to the
/// query vector, best first, or the reason they cannot be ranked.
pub open spec fn query_outcome(store: StoreView, query: Seq<i32>, required: Seq<Tag>) -> Result<
    Seq<int>,
    StoreError,
> {
    if store.nodes.len() == 0 {
        Ok(Seq::empty())
    } else if required.len() > 0 {
        Ok(passing(store.nodes, required))
    } else {
        match rank_fault(query, embeddings(store.nodes)) {
            Some(e) => Err(e),
            None => Ok(ranking(scores_of(query, embeddings(store.nodes)), store.top_k as nat)),
        }
    }
}

/// What a search returns for a list of query vectors: the answers to the
/// unfiltered queries, one after another in the order of the vectors. The
/// first query that fails fails the search.
pub open spec fn search_outcome(store: StoreView, queries: Seq<Seq<i32>>) -> Result<
    Seq<int>,
    StoreError,
>
    decreases queries.len(),
{
    if queries.len() == 0 {
        Ok(Seq::empty())
    } else {
        match search_outcome(store, queries.drop_last()) {
            Err(e) => Err(e),
            Ok(head) => match query_outcome(store, queries.last(), Seq::empty()) {
                Err(e) => Err(e),
                Ok(more) => Ok(head + more),
            },
        }
    }
}

/// The store a list of nodes and a model name describe, if the nodes are
/// consistent. The id counter resumes at the highest id present, and the
/// number of results goes back to the default.
pub open spec fn restored(nodes: Seq<NodeView>, model: Seq<char>) -> Result<StoreView, StoreError> {
    if consistent(nodes) {
        Ok(
            StoreView {
                nodes,
                model,
                last_id: if nodes.len() == 0 {
                    0
                } else {
                    nodes.last().text_id
                },
                top_k: DEFAULT_TOP_K,
            },
        )
    } else {
        Err(StoreError::PersistenceError)
    }
}

/// The store a snapshot describes, if it describes one: its document must
/// persist a list of nodes, and the nodes must be consistent.
pub open spec fn loaded(doc: JsonView, model: Seq<char>) -> Result<StoreView, StoreError> {
    match document_nodes(doc) {
        Some(nodes) => restored(nodes, model),
        None => Err(StoreError::PersistenceError),
    }
}

/// The store after `node` is appended under its id.
pub open spec fn with_node(store: StoreView, node: NodeView) -> StoreView {
    StoreView { nodes: store.nodes.push(node), last_id: node.text_id, ..store }
}

/// Why a node of the given width cannot be added, if it cannot.
pub open spec fn add_fault(store: StoreView, width: nat) -> Option<StoreError> {
    if store.nodes.len() > 0 && store.nodes[0].embedding.len() != width {
        Some(StoreError::DimensionMismatch)
    } else if store.last_id == usize::MAX {
        Some(StoreError::IdsExhausted)
    } else {
        None
    }
}

/// The persisted form of a store: the document that holds its nodes, in
/// store order, and the model's name. The two are what gets written to and
/// read from the store's directory.
pub struct Snapshot {
    pub nodes: Json,
    pub model: String,
}

/// The store: nodes in insertion order, the name of the embedding model, the
/// highest id handed out, and the number of results a similarity query gives.
pub struct VectorStore {
    nodes: Vec<Node>,
    model: String,
    last_id: usize,
    top_k: usize,
}

impl View for VectorStore {
    type V = StoreView;

    closed spec fn view(&self) -> StoreView {
        StoreView {
            nodes: node_views(self.nodes@),
            model: self.model@,
            last_id: self.last_id,
            top_k: self.top_k,
        }
    }
}

impl VectorStore {
    /// The store's invariant; every constructor establishes it and every
    /// method keeps it.
    pub open spec fn wf(&self) -> bool {
        self@.wf()
    }

    /// An empty store for vectors of the model `m`.
    pub fn new(m: &str) -> (store: Self)
        ensures
            store.wf(),
            store@ == (StoreView {
                nodes: Seq::empty(),
                model: m@,
                last_id: 0,
                top_k: DEFAULT_TOP_K,
            }),
    {
        let store = VectorStore {
            nodes: Vec::new(),
            model: m.to_owned(),
            last_id: 0,
            top_k: DEFAULT_TOP_K,
        };
        assert(store@.nodes =~= Seq::empty());
        store
    }

    /// Sets how many nodes a similarity query returns.
    pub fn set_top_k(&mut self, k: usize)
        ensures
            final(self)@ == (StoreView { top_k: k, ..old(self)@ }),
    {
        self.top_k = k;
    }

    pub fn top_k(&self) -> (k: usize)
        ensures
            k == self@.top_k,
    {
        self.top_k
    }

    pub fn model(&self) -> (m: &String)
        ensures
            m@ == self@.model,
    {
        &self.model
    }

    pub fn len(&self) -> (n: usize)
        ensures
            n == self@.nodes.len(),
    {
        self.nodes.len()
    }

    /// The nodes, in store order.
    pub fn nodes(&self) -> (all: &Vec<Node>)
        ensures
            node_views(all@) == self@.nodes,
    {
        &self.nodes
    }

    /// The position of the node that carries `id`.
    fn find(&self, id: usize) -> (at: Option<usize>)
        requires
            self.wf(),
        ensures
            match at {
                Some(i) => {
                    &&& i < self@.nodes.len()
                    &&& self@.nodes[i as int].text_id == id
                    &&& holds_id(self@.nodes, id)
                    &&& position_of(self@.nodes, id) == i
                },
                None => !holds_id(self@.nodes, id),
            },
    {
        let mut i: usize = 0;
        while i < self.nodes.len()
            invariant
                self.wf(),
                i <= self.nodes@.len(),
                forall|j: int| 0 <= j < i ==> (#[trigger] self@.nodes[j]).text_id != id,
            decreases self.nodes@.len() - i,
        {
            if self.nodes[i].text_id() == id {
                proof {
                    let nodes = self@.nodes;
                    assert(nodes[i as int].text_id == id);
                    let at = position_of(nodes, id);
                    if at < i {
                        assert(nodes[at].text_id < nodes[i as int].text_id);
                    } else if at > i {
                        assert(nodes[i as int].text_id < nodes[at].text_id);
                    }
                }
                return Some(i);
            }
            i += 1;
        }
        None
    }

    /// The embedding of the node that carries `text_id`.
    pub fn get(&self, text_id: usize) -> (r: Result<&Vec<i32>, StoreError>)
        requires
            self.wf(),
        ensures
            match r {
                Ok(embedding) => {
                    &&& holds_id(self@.nodes, text_id)
                    &&& embedding@ == self@.nodes[position_of(self@.nodes, text_id)].embedding
                },
                Err(e) => e == StoreError::NotFound && !holds_id(self@.nodes, text_id),
            },
    {
        match self.find(text_id) {
            Some(i) => Ok(self.nodes[i].embedding()),
            None => Err(StoreError::NotFound),
        }
    }

    /// Appends a node for `words` with the embedding the provider returned for
    /// them, under the next id, and returns that id.
    ///
    /// Fails, leaving the store as it was, when the embedding's width differs
    /// from that of the nodes already held, or when no id is left.
    pub fn add(&mut self, words: String, metadata: Filter, embedding: Vec<i32>) -> (r: Result<
        usize,
        StoreError,
    >)
        requires
            old(self).wf(),
        ensures
            final(self).wf(),
            match r {
                Ok(id) => {
                    &&& add_fault(old(self)@, embedding@.len()) is None
                    &&& id == old(self)@.last_id + 1
                    &&& final(self)@ == with_node(
                        old(self)@,
                        NodeView {
                            text_id: id,
                            sentence: words@,
                            embedding: embedding@,
                            metadata: metadata@,
                        },
                    )
                },
                Err(e) => add_fault(old(self)@, embedding@.len()) == Some(e) && final(self)@ == old(
                    self,
                )@,
            },
    {
        if self.nodes.len() > 0 && self.nodes[0].embedding().len() != embedding.len() {
            return Err(StoreError::DimensionMismatch);
        }
        if self.last_id == usize::MAX {
            return Err(StoreError::IdsExhausted);
        }
        let id = self.last_id + 1;
        let node = Node::new(words, id, metadata, embedding);
        let ghost before = self@.nodes;
        self.nodes.push(node);
        self.last_id = id;
        assert(self@.nodes =~= before.push(node@));
        Ok(id)
    }

    /// Removes the node that carries `ref_doc_id`. Its id is not handed out
    /// again. Fails, leaving the store as it was, when no node carries the id.
    pub fn delete(&mut self, ref_doc_id: usize) -> (r: Result<(), StoreError>)
        requires
            old(self).wf(),
        ensures
            final(self).wf(),
            match r {
                Ok(_) => {
                    &&& holds_id(old(self)@.nodes, ref_doc_id)
                    &&& final(self)@ == (StoreView {
                        nodes: old(self)@.nodes.remove(position_of(old(self)@.nodes, ref_doc_id)),
                        ..old(self)@
                    })
                },
                Err(e) => {
                    &&& e == StoreError::NotFound
                    &&& !holds_id(old(self)@.nodes, ref_doc_id)
                    &&& final(self)@ == old(self)@
                },
            },
    {
        match self.find(ref_doc_id) {
            Some(i) => {
                let ghost before = self@.nodes;
                self.nodes.remove(i);
                assert(self@.nodes =~= before.remove(i as int));
                Ok(())
            },
            None => Err(StoreError::NotFound),
        }
    }

    /// Ingests the text of an external document: adds it as one node, with the
    /// embedding the provider returned for it, and hands back the node's id
    /// together with the persisted form of the store as it then stands, which
    /// the caller is to save. Fails as `add` does, leaving the store as it was
    /// and giving nothing to save.
    pub fn add_pdf(&mut self, text: String, metadata: Filter, embedding: Vec<i32>) -> (r: Result<
        (usize, Snapshot),
        StoreError,
    >)
        requires
            old(self).wf(),
        ensures
            final(self).wf(),
            match r {
                Ok((id, snapshot)) => {
                    &&& add_fault(old(self)@, embedding@.len()) is None
                    &&& id == old(self)@.last_id + 1
                    &&& final(self)@ == with_node(
                        old(self)@,
                        NodeView {
                            text_id: id,
                            sentence: text@,
                            embedding: embedding@,
                            metadata: metadata@,
                        },
                    )
                    &&& snapshot.nodes@ == nodes_document(final(self)@.nodes)
                    &&& snapshot.model@ == final(self)@.model
                },
                Err(e) => add_fault(old(self)@, embedding@.len()) == Some(e) && final(self)@ == old(
                    self,
                )@,
            },
    {
        match self.add(text, metadata, embedding) {
            Ok(id) => {
                let snapshot = self.persist();
                Ok((id, snapshot))
            },
            Err(e) => Err(e),
        }
    }

    /// Answers a query: with filters, every node that passes them all, in
    /// store order and unranked; without, the `top_k` nodes closest to the
    /// query node's embedding, best first. An empty store answers with
    /// nothing and never fails.
    pub fn query<'a>(&'a self, query: &Node, filters: Vec<Filter>) -> (r: Result<
        Vec<&'a Node>,
        StoreError,
    >)
        ensures
            match r {
                Ok(found) => {
                    let outcome = query_outcome(self@, query@.embedding, tags(filters@));
                    outcome is Ok && borrowed_views(found@) == picked(self@.nodes, outcome->Ok_0)
                },
                Err(e) => query_outcome(self@, query@.embedding, tags(filters@)) == Err::<
                    Seq<int>,
                    StoreError,
                >(e),
            },
            self@.nodes.len() == 0 ==> r is Ok && r->Ok_0@.len() == 0,
    {
        let n = self.nodes.len();
        if n == 0 {
            let nothing: Vec<&'a Node> = Vec::new();
            assert(borrowed_views(nothing@) =~= picked(self@.nodes, Seq::empty()));
            return Ok(nothing);
        }
        if filters.len() != 0 {
            return Ok(filter_nodes(self, &filters));
        }
        let ghost all = self@.nodes;
        let mut docs: Vec<&Vec<i32>> = Vec::new();
        let mut i: usize = 0;
        while i < n
            invariant
                i <= n,
                n == self.nodes@.len(),
                all == self@.nodes,
                docs@.len() == i,
                rows(docs@) == embeddings(all).take(i as int),
            decreases n - i,
        {
            let ghost before = docs@;
            docs.push(self.nodes[i].embedding());
            assert(rows(docs@) =~= embeddings(all).take(i + 1)) by {
                assert forall|j: int| 0 <= j < i implies rows(docs@)[j] == embeddings(all).take(
                    i + 1,
                )[j] by {
                    assert(rows(before)[j] == embeddings(all).take(i as int)[j]);
                }
            }
            i += 1;
        }
        assert(embeddings(all).take(n as int) =~= embeddings(all));
        let scores = match score_all(query.embedding(), &docs) {
            Ok(scores) => scores,
            Err(e) => {
                return Err(e);
            },
        };
        let order = rank_scores(&scores, self.top_k);
        let ghost picks = as_ints(order@);
        let mut found: Vec<&'a Node> = Vec::new();
        let mut p: usize = 0;
        while p < order.len()
            invariant
                p <= order@.len(),
                n == self.nodes@.len(),
                n == scores@.len(),
                all == self@.nodes,
                picks == as_ints(order@),
                forall|q: int| 0 <= q < picks.len() ==> 0 <= #[trigger] picks[q] < n,
                borrowed_views(found@) == picked(all, picks.take(p as int)),
            decreases order@.len() - p,
        {
            let at = order[p];
            assert(picks[p as int] == at as int);
            let ghost held = found@;
            found.push(&self.nodes[at]);
            assert(borrowed_views(found@) =~= picked(all, picks.take(p + 1))) by {
                assert(all[at as int] == self.nodes@[at as int]@);
                assert(picks.take(p + 1) =~= picks.take(p as int).push(at as int));
                assert(picked(all, picks.take(p as int).push(at as int)) =~= picked(
                    all,
                    picks.take(p as int),
                ).push(all[at as int]));
                assert(borrowed_views(found@) =~= borrowed_views(held).push(all[at as int]));
            }
            p += 1;
        }
        assert(picks.take(p as int) =~= picks);
        Ok(found)
    }

    /// Answers one unfiltered query per chunk of a longer query text, each
    /// chunk given as a node holding its embedding, and returns the answers
    /// one after another in the order of the chunks. The first chunk that
    /// cannot be ranked fails the whole search. An empty store answers with
    /// nothing and never fails.
    pub fn search<'a>(&'a self, chunks: &Vec<Node>) -> (r: Result<Vec<&'a Node>, StoreError>)
        ensures
            match r {
                Ok(found) => {
                    let outcome = search_outcome(self@, embeddings(node_views(chunks@)));
                    outcome is Ok && borrowed_views(found@) == picked(self@.nodes, outcome->Ok_0)
                },
                Err(e) => search_outcome(self@, embeddings(node_views(chunks@))) == Err::<
                    Seq<int>,
                    StoreError,
                >(e),
            },
            self@.nodes.len() == 0 ==> r is Ok && r->Ok_0@.len() == 0,
    {
        let ghost all = self@.nodes;
        let ghost queries = embeddings(node_views(chunks@));
        let ghost mut so_far: Seq<int> = Seq::empty();
        let mut found: Vec<&'a Node> = Vec::new();
        let mut i: usize = 0;
        assert(queries.take(0) =~= Seq::empty());
        assert(borrowed_views(found@) =~= picked(all, so_far));
        while i < chunks.len()
            invariant
                i <= chunks@.len(),
                all == self@.nodes,
                queries == embeddings(node_views(chunks@)),
                search_outcome(self@, queries.take(i as int)) == Ok::<Seq<int>, StoreError>(so_far),
                borrowed_views(found@) == picked(all, so_far),
                all.len() == 0 ==> found@.len() == 0,
            decreases chunks@.len() - i,
        {
            let none: Vec<Filter> = Vec::new();
            assert(tags(none@) =~= Seq::empty());
            assert(queries.take(i + 1).drop_last() =~= queries.take(i as int));
            assert(queries.take(i + 1).last() == chunks@[i as int]@.embedding);
            match self.query(&chunks[i], none) {
                Err(e) => {
                    proof {
                        lemma_search_fails_fast(self@, queries, (i + 1) as nat, queries.len());
                        assert(queries.take(queries.len() as int) =~= queries);
                    }
                    return Err(e);
                },
                Ok(mut more) => {
                    let ghost extra = query_outcome(
                        self@,
                        chunks@[i as int]@.embedding,
                        Seq::empty(),
                    )->Ok_0;
                    let ghost held = found@;
                    found.append(&mut more);
                    proof {
                        assert(borrowed_views(found@) =~= borrowed_views(held) + picked(
                            all,
                            extra,
                        ));
                        assert(picked(all, so_far + extra) =~= picked(all, so_far) + picked(
                            all,
                            extra,
                        ));
                        so_far = so_far + extra;
                    }
                },
            }
            i += 1;
        }
        assert(queries.take(i as int) =~= queries);
        Ok(found)
    }

    /// The persisted form of the store: the document of its nodes, in order,
    /// and a copy of the model's name.
    pub fn persist(&self) -> (snapshot: Snapshot)
        ensures
            snapshot.nodes@ == nodes_document(self@.nodes),
            snapshot.model@ == self@.model,
    {
        Snapshot { nodes: nodes_to_json(&self.nodes), model: self.model.clone() }
    }

    /// Rebuilds a store from its persisted form, with the nodes in the order
    /// and under the ids they were persisted with. Fails with
    /// `PersistenceError` when the document does not persist a list of nodes,
    /// or when the nodes are not consistent: an id of zero, ids that do not
    /// grow, or embeddings of different widths.
    pub fn load(snapshot: Snapshot) -> (r: Result<VectorStore, StoreError>)
        ensures
            match r {
                Ok(store) => {
                    &&& store.wf()
                    &&& loaded(snapshot.nodes@, snapshot.model@) == Ok::<StoreView, StoreError>(
                        store@,
                    )
                },
                Err(e) => loaded(snapshot.nodes@, snapshot.model@) == Err::<StoreView, StoreError>(
                    e,
                ),
            },
    {
        let nodes = match nodes_from_json(&snapshot.nodes) {
            Ok(nodes) => nodes,
            Err(e) => {
                return Err(e);
            },
        };
        let model = snapshot.model;
        let ghost all = node_views(nodes@);
        let n = nodes.len();
        let mut i: usize = 0;
        while i < n
            invariant
                i <= n,
                n == nodes@.len(),
                all == node_views(nodes@),
                document_nodes(snapshot.nodes@) == Some(all),
                consistent(all.take(i as int)),
            decreases n - i,
        {
            let id = nodes[i].text_id();
            let fits = id >= 1 && (i == 0 || nodes[i - 1].text_id() < id)
                && nodes[i].embedding().len() == nodes[0].embedding().len();
            if !fits {
                proof {
                    assert(all[i as int] == nodes@[i as int]@);
                    assert(all[0] == nodes@[0]@);
                    if consistent(all) {
                        assert(all[i as int].text_id >= 1);
                        if i > 0 {
                            assert(all[i - 1] == nodes@[i - 1]@);
                            assert(all[i - 1].text_id < all[i as int].text_id);
                        }
                        assert(all[i as int].embedding.len() == all[0].embedding.len());
                        assert(false);
                    }
                }
                return Err(StoreError::PersistenceError);
            }
            proof {
                let head = all.take(i as int);
                let next = all.take(i + 1);
                assert forall|a: int, b: int| 0 <= a < b < next.len() implies (#[trigger] next[a]).text_id
                    < (#[trigger] next[b]).text_id by {
                    if b == i {
                        if a < i - 1 {
                            assert(head[a].text_id < head[i - 1].text_id);
                        }
                    } else {
                        assert(head[a].text_id < head[b].text_id);
                    }
                }
                assert forall|a: int, b: int|
                    0 <= a < next.len() && 0 <= b < next.len() implies (#[trigger] next[a]).embedding.len()
                    == (#[trigger] next[b]).embedding.len() by {
                    if a < i {
                        assert(head[a].embedding.len() == head[0].embedding.len());
                    }
                    if b < i {
                        assert(head[b].embedding.len() == head[0].embedding.len());
                    }
                }
                assert forall|a: int| 0 <= a < next.len() implies (#[trigger] next[a]).text_id
                    >= 1 by {
                    if a < i {
                        assert(head[a].text_id >= 1);
                    }
                }
            }
            i += 1;
        }
        assert(all.take(n as int) =~= all);
        let last_id = if n == 0 {
            0
        } else {
            nodes[n - 1].text_id()
        };
        let store = VectorStore { nodes, model, last_id, top_k: DEFAULT_TOP_K };
        proof {
            assert forall|a: int| 0 <= a < all.len() implies (#[trigger] all[a]).text_id
                <= last_id by {
                if a < n - 1 {
                    assert(all[a].text_id < all[n - 1].text_id);
                }
            }
        }
        Ok(store)
    }
}

/// Every node of the store that passes all of `filters`, in store order. An
/// empty list of filters is passed by every node.
pub fn filter_nodes<'a>(nodes: &'a VectorStore, filters: &Vec<Filter>) -> (found: Vec<&'a Node>)
    ensures
        borrowed_views(found@) == picked(nodes@.nodes, passing(nodes@.nodes, tags(filters@))),
{
    let ghost all = nodes@.nodes;
    let ghost test = passes_at(all, tags(filters@));
    let mut found: Vec<&'a Node> = Vec::new();
    let mut i: usize = 0;
    assert(positions(0).filter(test) =~= Seq::empty()) by {
        positions(0).lemma_filter_len(test);
    }
    assert(borrowed_views(found@) =~= picked(all, positions(0).filter(test)));
    while i < nodes.nodes.len()
        invariant
            i <= nodes.nodes@.len(),
            all == nodes@.nodes,
            test == passes_at(all, tags(filters@)),
            borrowed_views(found@) == picked(all, positions(i as nat).filter(test)),
        decreases nodes.nodes@.len() - i,
    {
        let ghost held = found@;
        let ghost kept = positions(i as nat).filter(test);
        assert(positions((i + 1) as nat) =~= positions(i as nat).push(i as int));
        proof {
            positions(i as nat).lemma_filter_push(i as int, test);
        }
        if crate::node::matches(&nodes.nodes[i], filters) {
            found.push(&nodes.nodes[i]);
            assert(test(i as int));
            assert(borrowed_views(found@) =~= picked(all, kept.push(i as int))) by {
                assert(all[i as int] == nodes.nodes@[i as int]@);
                assert(picked(all, kept.push(i as int)) =~= picked(all, kept).push(all[i as int]));
                assert(borrowed_views(found@) =~= borrowed_views(held).push(all[i as int]));
            }
        } else {
            assert(!test(i as int));
        }
        i += 1;
    }
    found
}

/// A search fails with its first failing query: once a run of queries has
/// failed, no further query changes the outcome.
pub proof fn lemma_search_fails_fast(store: StoreView, queries: Seq<Seq<i32>>, j: nat, m: nat)
    requires
        j <= m <= queries.len(),
        search_outcome(store, queries.take(j as int)) is Err,
    ensures
        search_outcome(store, queries.take(m as int)) == search_outcome(
            store,
            queries.take(j as int),
        ),
    decreases m,
{
    if m > j {
        lemma_search_fails_fast(store, queries, j, (m - 1) as nat);
        assert(queries.take(m as int).drop_last() =~= queries.take(m - 1));
    }
}

/// Empty store: every query and every search against a store without nodes
/// is answered with the empty list, not with an error.
pub proof fn lemma_empty_store_answers_nothing(
    store: StoreView,
    query: Seq<i32>,
    required: Seq<Tag>,
    queries: Seq<Seq<i32>>,
)
    requires
        store.nodes.len() == 0,
    ensures
        query_outcome(store, query, required) == Ok::<Seq<int>, StoreError>(Seq::empty()),
        search_outcome(store, queries) == Ok::<Seq<int>, StoreError>(Seq::empty()),
    decreases queries.len(),
{
    if queries.len() > 0 {
        lemma_empty_store_answers_nothing(store, query, required, queries.drop_last());
        assert(Seq::<int>::empty() + Seq::<int>::empty() =~= Seq::<int>::empty());
    }
}

/// Id monotonicity: in a store that has lost no node (its id counter equals
/// its node count, which holds of a new store, is kept by every successful
/// `add` and is broken only by `delete`), the ids are exactly `1, 2, .., n`,
/// in store order.
pub proof fn lemma_ids_dense(store: StoreView)
    requires
        store.wf(),
        store.last_id == store.nodes.len(),
    ensures
        forall|i: int| 0 <= i < store.nodes.len() ==> (#[trigger] store.nodes[i]).text_id == i + 1,
{
    let n = store.nodes.len() as int;
    assert forall|i: int| 0 <= i < n implies (#[trigger] store.nodes[i]).text_id == i + 1 by {
        lemma_ids_spread(store.nodes, 0, i);
        lemma_ids_spread(store.nodes, i, n - 1);
    }
}

/// Strictly growing ids are at least as far apart as their positions.
proof fn lemma_ids_spread(nodes: Seq<NodeView>, i: int, j: int)
    requires
        consistent(nodes),
        0 <= i <= j < nodes.len(),
    ensures
        nodes[i].text_id + (j - i) <= nodes[j].text_id,
    decreases j - i,
{
    if i < j {
        lemma_ids_spread(nodes, i, j - 1);
        assert(nodes[j - 1].text_id < nodes[j].text_id);
    }
}

/// Deleting a node removes its id and nothing else: afterwards no node
/// carries the deleted id, every other id is held exactly if it was held
/// before, by the same node, and the nodes are still consistent.
pub proof fn lemma_delete_keeps_others(store: StoreView, id: usize, other: usize)
    requires
        store.wf(),
        holds_id(store.nodes, id),
        other != id,
    ensures
        ({
            let after = store.nodes.remove(position_of(store.nodes, id));
            &&& consistent(after)
            &&& !holds_id(after, id)
            &&& holds_id(after, other) <==> holds_id(store.nodes, other)
            &&& holds_id(store.nodes, other) ==> after[position_of(after, other)]
                == store.nodes[position_of(store.nodes, other)]
        }),
{
    let nodes = store.nodes;
    let at = position_of(nodes, id);
    let after = nodes.remove(at);
    assert forall|i: int| 0 <= i < after.len() implies #[trigger] after[i] == nodes[if i < at {
        i
    } else {
        i + 1
    }] by {}
    assert forall|i: int, j: int| 0 <= i < j < after.len() implies (#[trigger] after[i]).text_id < (
    #[trigger] after[j]).text_id by {
        let a = if i < at { i } else { i + 1 };
        let b = if j < at { j } else { j + 1 };
        assert(nodes[a].text_id < nodes[b].text_id);
    }
    assert forall|i: int| 0 <= i < after.len() implies (#[trigger] after[i]).text_id != id by {
        let a = if i < at { i } else { i + 1 };
        if a < at {
            assert(nodes[a].text_id < nodes[at].text_id);
        } else {
            assert(nodes[at].text_id < nodes[a].text_id);
        }
    }
    if holds_id(nodes, other) {
        let was = position_of(nodes, other);
        let now = if was < at { was } else { was - 1 };
        assert(after[now] == nodes[was]);
        assert(holds_id(after, other));
        let found = position_of(after, other);
        if found < now {
            assert(after[found].text_id < after[now].text_id);
        } else if found > now {
            assert(after[now].text_id < after[found].text_id);
        }
    }
    if holds_id(after, other) {
        let found = position_of(after, other);
        let a = if found < at { found } else { found + 1 };
        assert(nodes[a].text_id == other);
    }
}

/// Store round-trip: loading what a store persists succeeds and gives back
/// the same nodes (their number, ids, sentences, embeddings and tags, in the
/// same order) and the same model name.
pub proof fn lemma_round_trip(store: StoreView)
    requires
        store.wf(),
    ensures
        loaded(nodes_document(store.nodes), store.model) is Ok,
        loaded(nodes_document(store.nodes), store.model)->Ok_0.nodes == store.nodes,
        loaded(nodes_document(store.nodes), store.model)->Ok_0.model == store.model,
        loaded(nodes_document(store.nodes), store.model)->Ok_0.wf(),
{
    lemma_nodes_round_trip(store.nodes);
    let back = loaded(nodes_document(store.nodes), store.model)->Ok_0;
    assert forall|i: int| 0 <= i < back.nodes.len() implies (#[trigger] back.nodes[i]).text_id
        <= back.last_id by {
        if i < back.nodes.len() - 1 {
            assert(back.nodes[i].text_id < back.nodes[back.nodes.len() - 1].text_id);
        }
    }
}

} // verus!
