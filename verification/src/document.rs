//! The persisted form of nodes: a JSON document, held as a tree of plain
//! values, and the mapping between nodes and such documents.
//!
//! Each node is an object with the fields `embedding` (an array holding one
//! array of numbers), `sentence` (a string), `text_id` (an unsigned number)
//! and `metadata` (an object with the strings `key` and `value`). A store's
//! nodes are an array of such objects, in store order. Turning a document
//! into text and back is left to the host's JSON library.
use vstd::prelude::*;
use crate::error::StoreError;
use crate::filter::{Filter, Tag};
use crate::node::{node_views, Node, NodeView};

verus! {

/// A JSON document. Numbers are integers: that is all the persisted form of a
/// store holds. An object lists its fields in order and may repeat a name, in
/// which case the first field of that name counts.
#[derive(Debug, PartialEq, Eq)]
pub enum Json {
    Null,
    Bool(bool),
    Number(i128),
    Text(String),
    Array(Vec<Json>),
    Object(Vec<(String, Json)>),
}

/// What a `Json` stands for.
pub enum JsonView {
    Null,
    Bool(bool),
    Number(int),
    Text(Seq<char>),
    Array(Seq<JsonView>),
    Object(Seq<(Seq<char>, JsonView)>),
}

/// What a document stands for, part by part.
pub open spec fn json_view(doc: Json) -> JsonView
    decreases doc,
{
    match doc {
        Json::Null => JsonView::Null,
        Json::Bool(b) => JsonView::Bool(b),
        Json::Number(n) => JsonView::Number(n as int),
        Json::Text(s) => JsonView::Text(s@),
        Json::Array(items) => JsonView::Array(
            Seq::new(
                items@.len(),
                |i: int|
                    if 0 <= i < items@.len() {
                        json_view(items@[i])
                    } else {
                        JsonView::Null
                    },
            ),
        ),
        Json::Object(fields) => JsonView::Object(
            Seq::new(
                fields@.len(),
                |i: int|
                    if 0 <= i < fields@.len() {
                        (fields@[i].0@, json_view(fields@[i].1))
                    } else {
                        (Seq::empty(), JsonView::Null)
                    },
            ),
        ),
    }
}

impl View for Json {
    type V = JsonView;

    open spec fn view(&self) -> JsonView {
        json_view(*self)
    }
}

/// The views of a list of documents.
pub open spec fn item_views(items: Seq<Json>) -> Seq<JsonView> {
    Seq::new(items.len(), |i: int| items[i]@)
}

/// The views of a list of named documents.
pub open spec fn field_views(fields: Seq<(String, Json)>) -> Seq<(Seq<char>, JsonView)> {
    Seq::new(fields.len(), |i: int| (fields[i].0@, fields[i].1@))
}

/// The view of an array is the array of its items' views.
pub proof fn lemma_view_of_array(items: Vec<Json>)
    ensures
        Json::Array(items)@ == JsonView::Array(item_views(items@)),
{
    assert(Json::Array(items)@->Array_0 =~= item_views(items@));
}

/// The view of an object is the list of its fields' views.
pub proof fn lemma_view_of_object(fields: Vec<(String, Json)>)
    ensures
        Json::Object(fields)@ == JsonView::Object(field_views(fields@)),
{
    assert(Json::Object(fields)@->Object_0 =~= field_views(fields@));
}

/// Field `i` is the first field named `name`.
pub open spec fn is_first_named(fields: Seq<(Seq<char>, JsonView)>, name: Seq<char>, i: int) -> bool {
    &&& 0 <= i < fields.len()
    &&& fields[i].0 == name
    &&& forall|j: int| 0 <= j < i ==> (#[trigger] fields[j]).0 != name
}

/// The value of the first field named `name`, if there is such a field.
pub open spec fn lookup(fields: Seq<(Seq<char>, JsonView)>, name: Seq<char>) -> Option<JsonView> {
    if exists|i: int| is_first_named(fields, name, i) {
        Some(fields[choose|i: int| is_first_named(fields, name, i)].1)
    } else {
        None
    }
}

/// There is at most one first field of a name.
pub proof fn lemma_first_named_unique(
    fields: Seq<(Seq<char>, JsonView)>,
    name: Seq<char>,
    i: int,
    j: int,
)
    requires
        is_first_named(fields, name, i),
        is_first_named(fields, name, j),
    ensures
        i == j,
{
    if i < j {
        assert(fields[i].0 != name);
    } else if j < i {
        assert(fields[j].0 != name);
    }
}

/// Finds the value of the first field named `name`.
pub fn find_field<'a>(fields: &'a Vec<(String, Json)>, name: &str) -> (found: Option<&'a Json>)
    ensures
        match found {
            Some(value) => lookup(field_views(fields@), name@) == Some(value@),
            None => lookup(field_views(fields@), name@) is None,
        },
{
    let wanted = name.to_owned();
    let ghost all = field_views(fields@);
    let mut i: usize = 0;
    while i < fields.len()
        invariant
            i <= fields@.len(),
            all == field_views(fields@),
            wanted@ == name@,
            forall|j: int| 0 <= j < i ==> (#[trigger] all[j]).0 != name@,
        decreases fields@.len() - i,
    {
        if fields[i].0 == wanted {
            proof {
                assert(is_first_named(all, name@, i as int));
                let at = choose|at: int| is_first_named(all, name@, at);
                lemma_first_named_unique(all, name@, i as int, at);
            }
            return Some(&fields[i].1);
        }
        i += 1;
    }
    proof {
        assert forall|at: int| !is_first_named(all, name@, at) by {
            if 0 <= at < all.len() {
                assert(all[at].0 != name@);
            }
        }
    }
    None
}

/// The numbers that persist an embedding.
pub open spec fn numbers(embedding: Seq<i32>) -> Seq<JsonView> {
    Seq::new(embedding.len(), |i: int| JsonView::Number(embedding[i] as int))
}

/// The object that persists a tag.
pub open spec fn tag_document(tag: Tag) -> JsonView {
    JsonView::Object(
        seq![("key"@, JsonView::Text(tag.key)), ("value"@, JsonView::Text(tag.value))],
    )
}

/// The object that persists a node.
pub open spec fn node_document(node: NodeView) -> JsonView {
    JsonView::Object(
        seq![
            ("embedding"@, JsonView::Array(seq![JsonView::Array(numbers(node.embedding))])),
            ("sentence"@, JsonView::Text(node.sentence)),
            ("text_id"@, JsonView::Number(node.text_id as int)),
            ("metadata"@, tag_document(node.metadata)),
        ],
    )
}

/// The array that persists a list of nodes, in their order.
pub open spec fn nodes_document(nodes: Seq<NodeView>) -> JsonView {
    JsonView::Array(Seq::new(nodes.len(), |i: int| node_document(nodes[i])))
}

/// The text a field holds, if the field is there and holds text.
pub open spec fn as_text(found: Option<JsonView>) -> Option<Seq<char>> {
    match found {
        Some(JsonView::Text(s)) => Some(s),
        _ => None,
    }
}

/// The id a field holds, if the field is there and holds a number that is an
/// id.
pub open spec fn as_id(found: Option<JsonView>) -> Option<usize> {
    match found {
        Some(JsonView::Number(n)) => if 0 <= n <= usize::MAX {
            Some(n as usize)
        } else {
            None
        },
        _ => None,
    }
}

/// The document is a number that fits a component of an embedding.
pub open spec fn is_component(doc: JsonView) -> bool {
    doc is Number && i32::MIN <= doc->Number_0 <= i32::MAX
}

/// The vector a document holds, if it is an array of components.
pub open spec fn as_vector(doc: JsonView) -> Option<Seq<i32>> {
    match doc {
        JsonView::Array(items) => if forall|i: int|
            0 <= i < items.len() ==> is_component(#[trigger] items[i]) {
            Some(Seq::new(items.len(), |i: int| items[i]->Number_0 as i32))
        } else {
            None
        },
        _ => None,
    }
}

/// The embedding a field holds, if the field is there and holds an array of
/// exactly one vector.
pub open spec fn as_embedding(found: Option<JsonView>) -> Option<Seq<i32>> {
    match found {
        Some(JsonView::Array(vectors)) => if vectors.len() == 1 {
            as_vector(vectors[0])
        } else {
            None
        },
        _ => None,
    }
}

/// The tag a field holds, if the field is there and holds an object with the
/// texts `key` and `value`.
pub open spec fn as_tag(found: Option<JsonView>) -> Option<Tag> {
    match found {
        Some(JsonView::Object(fields)) => match (
            as_text(lookup(fields, "key"@)),
            as_text(lookup(fields, "value"@)),
        ) {
            (Some(key), Some(value)) => Some(Tag { key, value }),
            _ => None,
        },
        _ => None,
    }
}

/// The node a document persists, if it persists one: an object whose fields
/// `embedding`, `sentence`, `text_id` and `metadata` all hold what they
/// should. Other fields are ignored.
pub open spec fn document_node(doc: JsonView) -> Option<NodeView> {
    match doc {
        JsonView::Object(fields) => match (
            as_embedding(lookup(fields, "embedding"@)),
            as_text(lookup(fields, "sentence"@)),
            as_id(lookup(fields, "text_id"@)),
            as_tag(lookup(fields, "metadata"@)),
        ) {
            (Some(embedding), Some(sentence), Some(text_id), Some(metadata)) => Some(
                NodeView { text_id, sentence, embedding, metadata },
            ),
            _ => None,
        },
        _ => None,
    }
}

/// The nodes a document persists, if it persists a list of nodes: an array
/// whose every item persists a node.
pub open spec fn document_nodes(doc: JsonView) -> Option<Seq<NodeView>> {
    match doc {
        JsonView::Array(items) => if forall|i: int|
            0 <= i < items.len() ==> document_node(#[trigger] items[i]) is Some {
            Some(Seq::new(items.len(), |i: int| document_node(items[i])->Some_0))
        } else {
            None
        },
        _ => None,
    }
}

/// The view of what `find_field` found.
pub open spec fn found_view(found: Option<&Json>) -> Option<JsonView> {
    match found {
        Some(doc) => Some(doc@),
        None => None,
    }
}

/// Reads `as_text` off a field.
fn text_in(found: Option<&Json>) -> (r: Option<String>)
    ensures
        match r {
            Some(s) => as_text(found_view(found)) == Some(s@),
            None => as_text(found_view(found)) is None,
        },
{
    match found {
        Some(Json::Text(s)) => Some(s.clone()),
        _ => None,
    }
}

/// Reads `as_id` off a field.
fn id_in(found: Option<&Json>) -> (r: Option<usize>)
    ensures
        r == as_id(found_view(found)),
{
    match found {
        Some(Json::Number(n)) => {
            if 0 <= *n && *n <= usize::MAX as i128 {
                Some(*n as usize)
            } else {
                None
            }
        },
        _ => None,
    }
}

/// Reads `as_vector` off a document.
fn vector_in(doc: &Json) -> (r: Option<Vec<i32>>)
    ensures
        match r {
            Some(v) => as_vector(doc@) == Some(v@),
            None => as_vector(doc@) is None,
        },
{
    match doc {
        Json::Array(items) => {
            proof {
                lemma_view_of_array(*items);
            }
            let ghost views = item_views(items@);
            let mut vector: Vec<i32> = Vec::new();
            let mut i: usize = 0;
            while i < items.len()
                invariant
                    i <= items@.len(),
                    views == item_views(items@),
                    doc@ == JsonView::Array(views),
                    vector@.len() == i,
                    forall|j: int| 0 <= j < i ==> is_component(#[trigger] views[j]),
                    forall|j: int|
                        0 <= j < i ==> #[trigger] vector@[j] == views[j]->Number_0 as i32,
                decreases items@.len() - i,
            {
                match &items[i] {
                    Json::Number(n) => {
                        if *n < i32::MIN as i128 || *n > i32::MAX as i128 {
                            assert(!is_component(views[i as int]));
                            return None;
                        }
                        vector.push(*n as i32);
                    },
                    _ => {
                        assert(!is_component(views[i as int]));
                        return None;
                    },
                }
                i += 1;
            }
            assert(vector@ =~= Seq::new(views.len(), |j: int| views[j]->Number_0 as i32));
            Some(vector)
        },
        _ => None,
    }
}

/// Reads `as_embedding` off a field.
fn embedding_in(found: Option<&Json>) -> (r: Option<Vec<i32>>)
    ensures
        match r {
            Some(v) => as_embedding(found_view(found)) == Some(v@),
            None => as_embedding(found_view(found)) is None,
        },
{
    match found {
        Some(Json::Array(vectors)) => {
            proof {
                lemma_view_of_array(*vectors);
            }
            if vectors.len() == 1 {
                vector_in(&vectors[0])
            } else {
                None
            }
        },
        _ => None,
    }
}

/// Reads `as_tag` off a field.
fn tag_in(found: Option<&Json>) -> (r: Option<Filter>)
    ensures
        match r {
            Some(tag) => as_tag(found_view(found)) == Some(tag@),
            None => as_tag(found_view(found)) is None,
        },
{
    match found {
        Some(Json::Object(fields)) => {
            proof {
                lemma_view_of_object(*fields);
            }
            let key = text_in(find_field(fields, "key"));
            let value = text_in(find_field(fields, "value"));
            match (key, value) {
                (Some(k), Some(v)) => Some(Filter::new(k, v)),
                _ => None,
            }
        },
        _ => None,
    }
}

/// Builds the document that persists `node`.
pub fn node_to_json(node: &Node) -> (doc: Json)
    ensures
        doc@ == node_document(node@),
{
    let embedding = node.embedding();
    let mut components: Vec<Json> = Vec::new();
    let mut i: usize = 0;
    while i < embedding.len()
        invariant
            i <= embedding@.len(),
            components@.len() == i,
            forall|j: int| 0 <= j < i ==> (#[trigger] components@[j])@ == JsonView::Number(
                embedding@[j] as int,
            ),
        decreases embedding@.len() - i,
    {
        components.push(Json::Number(embedding[i] as i128));
        i += 1;
    }
    proof {
        lemma_view_of_array(components);
        assert(item_views(components@) =~= numbers(embedding@));
    }
    let mut vectors: Vec<Json> = Vec::new();
    vectors.push(Json::Array(components));
    proof {
        lemma_view_of_array(vectors);
        assert(item_views(vectors@) =~= seq![JsonView::Array(numbers(embedding@))]);
    }
    let mut tag: Vec<(String, Json)> = Vec::new();
    tag.push(("key".to_owned(), Json::Text(node.metadata().key().clone())));
    tag.push(("value".to_owned(), Json::Text(node.metadata().value().clone())));
    proof {
        lemma_view_of_object(tag);
        assert(field_views(tag@) =~= seq![
            ("key"@, JsonView::Text(node@.metadata.key)),
            ("value"@, JsonView::Text(node@.metadata.value)),
        ]);
    }
    let mut fields: Vec<(String, Json)> = Vec::new();
    fields.push(("embedding".to_owned(), Json::Array(vectors)));
    fields.push(("sentence".to_owned(), Json::Text(node.sentence().clone())));
    fields.push(("text_id".to_owned(), Json::Number(node.text_id() as i128)));
    fields.push(("metadata".to_owned(), Json::Object(tag)));
    proof {
        lemma_view_of_object(fields);
        assert(field_views(fields@) =~= seq![
            ("embedding"@, JsonView::Array(seq![JsonView::Array(numbers(node@.embedding))])),
            ("sentence"@, JsonView::Text(node@.sentence)),
            ("text_id"@, JsonView::Number(node@.text_id as int)),
            ("metadata"@, tag_document(node@.metadata)),
        ]);
    }
    Json::Object(fields)
}

/// Reads the node that `doc` persists. Fails with `PersistenceError` when
/// `doc` is not an object, or a field is missing or holds something else than
/// it should: no text, a number outside its range, not exactly one vector.
pub fn node_from_json(doc: &Json) -> (r: Result<Node, StoreError>)
    ensures
        match r {
            Ok(node) => document_node(doc@) == Some(node@),
            Err(e) => e == StoreError::PersistenceError && document_node(doc@) is None,
        },
{
    match doc {
        Json::Object(fields) => {
            proof {
                lemma_view_of_object(*fields);
            }
            let embedding = embedding_in(find_field(fields, "embedding"));
            let sentence = text_in(find_field(fields, "sentence"));
            let text_id = id_in(find_field(fields, "text_id"));
            let metadata = tag_in(find_field(fields, "metadata"));
            match (embedding, sentence, text_id, metadata) {
                (Some(e), Some(s), Some(id), Some(m)) => Ok(Node::new(s, id, m, e)),
                _ => Err(StoreError::PersistenceError),
            }
        },
        _ => Err(StoreError::PersistenceError),
    }
}

/// Builds the document that persists `nodes`.
pub fn nodes_to_json(nodes: &Vec<Node>) -> (doc: Json)
    ensures
        doc@ == nodes_document(node_views(nodes@)),
{
    let ghost all = node_views(nodes@);
    let mut items: Vec<Json> = Vec::new();
    let mut i: usize = 0;
    while i < nodes.len()
        invariant
            i <= nodes@.len(),
            all == node_views(nodes@),
            items@.len() == i,
            forall|j: int| 0 <= j < i ==> (#[trigger] items@[j])@ == node_document(all[j]),
        decreases nodes@.len() - i,
    {
        items.push(node_to_json(&nodes[i]));
        i += 1;
    }
    proof {
        lemma_view_of_array(items);
        assert(item_views(items@) =~= Seq::new(all.len(), |j: int| node_document(all[j])));
    }
    Json::Array(items)
}

/// Reads the nodes that `doc` persists, in their order. Fails with
/// `PersistenceError` when `doc` is not an array or one of its items does not
/// persist a node.
pub fn nodes_from_json(doc: &Json) -> (r: Result<Vec<Node>, StoreError>)
    ensures
        match r {
            Ok(nodes) => document_nodes(doc@) == Some(node_views(nodes@)),
            Err(e) => e == StoreError::PersistenceError && document_nodes(doc@) is None,
        },
{
    match doc {
        Json::Array(items) => {
            proof {
                lemma_view_of_array(*items);
            }
            let ghost views = item_views(items@);
            let mut nodes: Vec<Node> = Vec::new();
            let mut i: usize = 0;
            while i < items.len()
                invariant
                    i <= items@.len(),
                    views == item_views(items@),
                    doc@ == JsonView::Array(views),
                    nodes@.len() == i,
                    forall|j: int|
                        0 <= j < i ==> document_node(#[trigger] views[j]) == Some(nodes@[j]@),
                decreases items@.len() - i,
            {
                match node_from_json(&items[i]) {
                    Ok(node) => {
                        nodes.push(node);
                    },
                    Err(e) => {
                        assert(document_node(views[i as int]) is None);
                        return Err(e);
                    },
                }
                i += 1;
            }
            assert(node_views(nodes@) =~= Seq::new(
                views.len(),
                |j: int| document_node(views[j])->Some_0,
            ));
            Ok(nodes)
        },
        _ => Err(StoreError::PersistenceError),
    }
}

/// A field that is the first of its name is the one `lookup` finds.
pub proof fn lemma_lookup_first(fields: Seq<(Seq<char>, JsonView)>, name: Seq<char>, i: int)
    requires
        is_first_named(fields, name, i),
    ensures
        lookup(fields, name) == Some(fields[i].1),
{
    let at = choose|at: int| is_first_named(fields, name, at);
    lemma_first_named_unique(fields, name, i, at);
}

/// The names of a node's fields differ from one another, and so do the names
/// of a tag's fields.
proof fn lemma_names_differ()
    ensures
        "embedding"@ != "sentence"@,
        "embedding"@ != "text_id"@,
        "embedding"@ != "metadata"@,
        "sentence"@ != "text_id"@,
        "sentence"@ != "metadata"@,
        "text_id"@ != "metadata"@,
        "key"@ != "value"@,
{
    reveal_strlit("embedding");
    reveal_strlit("sentence");
    reveal_strlit("text_id");
    reveal_strlit("metadata");
    reveal_strlit("key");
    reveal_strlit("value");
    assert("embedding"@[0] == 'e');
    assert("sentence"@[0] == 's');
    assert("text_id"@[0] == 't');
    assert("metadata"@[0] == 'm');
    assert("key"@[0] == 'k');
    assert("value"@[0] == 'v');
}

/// Reading back the document written for a node gives that node: nothing of
/// its id, sentence, embedding or tag is lost or changed.
pub proof fn lemma_node_round_trip(node: NodeView)
    ensures
        document_node(node_document(node)) == Some(node),
{
    lemma_names_differ();
    let tag_fields = seq![
        ("key"@, JsonView::Text(node.metadata.key)),
        ("value"@, JsonView::Text(node.metadata.value)),
    ];
    lemma_lookup_first(tag_fields, "key"@, 0);
    assert(tag_fields[0].0 != "value"@);
    lemma_lookup_first(tag_fields, "value"@, 1);
    assert(as_tag(Some(tag_document(node.metadata))) == Some(node.metadata));
    let vector = JsonView::Array(numbers(node.embedding));
    assert(as_vector(vector) == Some(node.embedding)) by {
        let items = numbers(node.embedding);
        assert forall|i: int| 0 <= i < items.len() implies is_component(#[trigger] items[i]) by {}
        assert(Seq::new(items.len(), |i: int| items[i]->Number_0 as i32) =~= node.embedding);
    }
    let fields = seq![
        ("embedding"@, JsonView::Array(seq![vector])),
        ("sentence"@, JsonView::Text(node.sentence)),
        ("text_id"@, JsonView::Number(node.text_id as int)),
        ("metadata"@, tag_document(node.metadata)),
    ];
    lemma_lookup_first(fields, "embedding"@, 0);
    assert(fields[0].0 != "sentence"@);
    lemma_lookup_first(fields, "sentence"@, 1);
    assert(fields[0].0 != "text_id"@ && fields[1].0 != "text_id"@);
    lemma_lookup_first(fields, "text_id"@, 2);
    assert(fields[0].0 != "metadata"@ && fields[1].0 != "metadata"@ && fields[2].0
        != "metadata"@);
    lemma_lookup_first(fields, "metadata"@, 3);
    assert(seq![vector][0] == vector);
}

/// Reading back the document written for a list of nodes gives that list,
/// in the same order.
pub proof fn lemma_nodes_round_trip(nodes: Seq<NodeView>)
    ensures
        document_nodes(nodes_document(nodes)) == Some(nodes),
{
    let items = Seq::new(nodes.len(), |i: int| node_document(nodes[i]));
    assert forall|i: int| 0 <= i < items.len() implies document_node(#[trigger] items[i])
        == Some(nodes[i]) by {
        lemma_node_round_trip(nodes[i]);
    }
    assert(Seq::new(items.len(), |i: int| document_node(items[i])->Some_0) =~= nodes);
}

} // verus!
