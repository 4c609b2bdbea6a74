//! Metadata tags and the exact-match predicate over them.
use vstd::prelude::*;

verus! {

/// What a `Filter` stands for: a key and a value, as plain text.
pub struct Tag {
    pub key: Seq<char>,
    pub value: Seq<char>,
}

/// One metadata tag: a node carries exactly one, and a query may require some.
/// Two tags are equal when key and value both match exactly, case included.
#[derive(Debug)]
pub struct Filter {
    key: String,
    value: String,
}

impl View for Filter {
    type V = Tag;

    closed spec fn view(&self) -> Tag {
        Tag { key: self.key@, value: self.value@ }
    }
}

impl Clone for Filter {
    fn clone(&self) -> (copy: Self)
        ensures
            copy@ == self@,
    {
        Filter { key: self.key.clone(), value: self.value.clone() }
    }
}

impl Filter {
    pub fn new(key: String, value: String) -> (f: Self)
        ensures
            f@ == (Tag { key: key@, value: value@ }),
    {
        Filter { key, value }
    }

    pub fn key(&self) -> (k: &String)
        ensures
            k@ == self@.key,
    {
        &self.key
    }

    pub fn value(&self) -> (v: &String)
        ensures
            v@ == self@.value,
    {
        &self.value
    }

    /// Exact equality of two tags.
    pub fn same_as(&self, other: &Filter) -> (b: bool)
        ensures
            b == (self@ == other@),
    {
        self.key == other.key && self.value == other.value
    }
}

/// The tags behind a list of filters.
pub open spec fn tags(filters: Seq<Filter>) -> Seq<Tag> {
    Seq::new(filters.len(), |i: int| filters[i]@)
}

/// A node tagged `tag` passes `required` when every required tag equals it.
/// No requirement at all is passed by every node; two different requirements
/// are passed by none, since a node carries one tag only.
pub open spec fn tag_matches(tag: Tag, required: Seq<Tag>) -> bool {
    forall|i: int| 0 <= i < required.len() ==> #[trigger] required[i] == tag
}

/// Decides `tag_matches` for the tag of a node.
pub fn tag_passes(tag: &Filter, required: &Vec<Filter>) -> (b: bool)
    ensures
        b == tag_matches(tag@, tags(required@)),
{
    let mut i: usize = 0;
    while i < required.len()
        invariant
            i <= required@.len(),
            forall|j: int| 0 <= j < i ==> #[trigger] tags(required@)[j] == tag@,
        decreases required@.len() - i,
    {
        if !required[i].same_as(tag) {
            assert(tags(required@)[i as int] != tag@);
            return false;
        }
        i += 1;
    }
    true
}

/// Filter exactness: a single required tag is passed by exactly the nodes
/// that carry that very tag; a difference in either field fails it.
pub proof fn lemma_single_filter_exact(tag: Tag, required: Tag)
    ensures
        tag_matches(tag, seq![required]) <==> (tag.key == required.key && tag.value
            == required.value),
{
    if tag.key == required.key && tag.value == required.value {
        assert(tag == required);
    }
    if tag_matches(tag, seq![required]) {
        assert(seq![required][0] == tag);
    }
}

} // verus!
