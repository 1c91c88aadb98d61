//! The part of an EDN document that the manifest logic reads, held as plain
//! values. Reading EDN text is left to the `clojure_reader` crate.
use vstd::prelude::*;
use clojure_reader::edn::Edn;

verus! {

/// An EDN value, reduced to the shapes that manifest interpretation tells
/// apart. Map entries keep the reader's order; every other kind of value
/// (numbers, lists, sets, characters, booleans, `nil`) is `Other`.
#[derive(Debug, PartialEq)]
pub enum EdnNode {
    Vector(Vec<EdnNode>),
    Mapping(Vec<(EdnNode, EdnNode)>),
    Key(String),
    Symbol(String),
    Str(String),
    Tagged(String, Box<EdnNode>),
    Other,
}

/// A value with any number of reader tags peeled off.
pub open spec fn untag(e: EdnNode) -> EdnNode
    decreases e,
{
    match e {
        EdnNode::Tagged(_, inner) => untag(*inner),
        other => other,
    }
}

/// The value stored under the keyword `:key` in a map's entries.
pub open spec fn lookup_key(entries: Seq<(EdnNode, EdnNode)>, key: Seq<char>) -> Option<EdnNode>
    decreases entries.len(),
{
    if entries.len() == 0 {
        None
    } else if entries[0].0 is Key && entries[0].0->Key_0@ == key {
        Some(entries[0].1)
    } else {
        lookup_key(entries.drop_first(), key)
    }
}

/// Peels reader tags off a value.
pub fn untag_node(e: &EdnNode) -> (r: &EdnNode)
    ensures
        *r == untag(*e),
    decreases e,
{
    match e {
        EdnNode::Tagged(_, inner) => untag_node(inner),
        _ => e,
    }
}

/// Looks up the keyword `:key` in a map's entries.
pub fn get_key<'a>(entries: &'a Vec<(EdnNode, EdnNode)>, key: &str) -> (r: Option<&'a EdnNode>)
    ensures
        r matches Some(v) ==> lookup_key(entries@, key@) == Some(*v),
        r is None ==> lookup_key(entries@, key@) is None,
{
    let mut i: usize = 0;
    assert(entries@.skip(0) =~= entries@);
    while i < entries.len()
        invariant
            i <= entries.len(),
            lookup_key(entries@, key@) == lookup_key(entries@.skip(i as int), key@),
        decreases entries.len() - i,
    {
        assert(entries@.skip(i as int).drop_first() =~= entries@.skip(i + 1));
        assert(entries@.skip(i as int)[0] == entries@[i as int]);
        if let EdnNode::Key(k) = &entries[i].0 {
            if crate::text::str_eq(k.as_str(), key) {
                return Some(&entries[i].1);
            }
        }
        i = i + 1;
    }
    None
}

/// What `clojure_reader::edn::read_string` yields for a document's text,
/// reduced to an [`EdnNode`], or the reader's error rendered as text.
pub uninterp spec fn edn_document(content: Seq<char>) -> Result<EdnNode, String>;

#[verifier::external_type_specification]
#[verifier::external_body]
pub struct ExEdn<'e>(Edn<'e>);

/// Reads one EDN value with `clojure_reader::edn::read_string`. The contract
/// claims only that the outcome is the reader's, as named by
/// [`edn_document`]: the same text always reads the same way.
#[verifier::external_body]
pub(crate) fn read_edn(content: &str) -> (r: Result<EdnNode, String>)
    ensures
        r == edn_document(content@),
{
    match clojure_reader::edn::read_string(content) {
        Ok(e) => Ok(node_of(&e)),
        Err(e) => Err(format!("{e:?}")),
    }
}

/// Converts the reader's value into an [`EdnNode`], one variant for one,
/// keeping the map entries in the reader's order. Only `read_edn` uses it.
#[verifier::external_body]
fn node_of(e: &Edn) -> EdnNode {
    match e {
        Edn::Vector(items) => EdnNode::Vector(items.iter().map(node_of).collect()),
        Edn::Map(m) => EdnNode::Mapping(m.iter().map(|(k, v)| (node_of(k), node_of(v))).collect()),
        Edn::Key(k) => EdnNode::Key(k.to_string()),
        Edn::Symbol(s) => EdnNode::Symbol(s.to_string()),
        Edn::Str(s) => EdnNode::Str(s.to_string()),
        Edn::Tagged(t, inner) => EdnNode::Tagged(t.to_string(), Box::new(node_of(inner))),
        _ => EdnNode::Other,
    }
}

} // verus!
