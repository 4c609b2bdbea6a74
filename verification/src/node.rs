//! A stored chunk: its text, its embedding, its id and its metadata tag.
use vstd::prelude::*;
use crate::filter::{tag_passes, tag_matches, tags, Filter, Tag};

verus! {

/// What a `Node` stands for.
pub struct NodeView {
    pub text_id: usize,
    pub sentence: Seq<char>,
    pub embedding: Seq<i32>,
    pub metadata: Tag,
}

/// One chunk of text with the fixed-point embedding computed for it. Nothing
/// in a node changes once it is built.
#[derive(Debug)]
pub struct Node {
    embedding: Vec<i32>,
    sentence: String,
    text_id: usize,
    metadata: Filter,
}

impl View for Node {
    type V = NodeView;

    closed spec fn view(&self) -> NodeView {
        NodeView {
            text_id: self.text_id,
            sentence: self.sentence@,
            embedding: self.embedding@,
            metadata: self.metadata@,
        }
    }
}

impl Clone for Node {
    fn clone(&self) -> (copy: Self)
        ensures
            copy@ == self@,
    {
        Node {
            embedding: self.embedding.clone(),
            sentence: self.sentence.clone(),
            text_id: self.text_id,
            metadata: self.metadata.clone(),
        }
    }
}

impl Node {
    /// Builds a node from a chunk of text, the id it is to carry, its tag and
    /// the embedding the provider returned for the text.
    pub fn new(words: String, id: usize, metadata: Filter, embedding: Vec<i32>) -> (node: Node)
        ensures
            node@ == (NodeView {
                text_id: id,
                sentence: words@,
                embedding: embedding@,
                metadata: metadata@,
            }),
    {
        Node { embedding, sentence: words, text_id: id, metadata }
    }

    pub fn text_id(&self) -> (id: usize)
        ensures
            id == self@.text_id,
    {
        self.text_id
    }

    pub fn sentence(&self) -> (s: &String)
        ensures
            s@ == self@.sentence,
    {
        &self.sentence
    }

    pub fn embedding(&self) -> (e: &Vec<i32>)
        ensures
            e@ == self@.embedding,
    {
        &self.embedding
    }

    pub fn metadata(&self) -> (m: &Filter)
        ensures
            m@ == self@.metadata,
    {
        &self.metadata
    }
}

/// The views of a list of nodes.
pub open spec fn node_views(nodes: Seq<Node>) -> Seq<NodeView> {
    Seq::new(nodes.len(), |i: int| nodes[i]@)
}

/// Whether `node` passes every filter in `filter_set`.
pub fn matches(node: &Node, filter_set: &Vec<Filter>) -> (b: bool)
    ensures
        b == tag_matches(node@.metadata, tags(filter_set@)),
{
    tag_passes(&node.metadata, filter_set)
}

} // verus!
