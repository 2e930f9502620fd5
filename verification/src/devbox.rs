//! What a `devbox.json` says, read with a JSON parser.

use vstd::prelude::*;

use crate::model;

verus! {

/// What stands at a place in a JSON document, as far as it matters here.
pub enum Node {
    Missing,
    Text(String),
    /// The elements of an array, those that are texts as texts.
    List(Vec<Option<String>>),
    Other,
}

pub ghost enum NodeData {
    Missing,
    Text(Seq<char>),
    List(Seq<Option<Seq<char>>>),
    Other,
}

pub open spec fn opt_views(list: Seq<Option<String>>) -> Seq<Option<Seq<char>>> {
    list.map_values(|s: Option<String>| model::opt(s))
}

impl View for Node {
    type V = NodeData;

    open spec fn view(&self) -> NodeData {
        match self {
            Node::Missing => NodeData::Missing,
            Node::Text(s) => NodeData::Text(s@),
            Node::List(list) => NodeData::List(opt_views(list@)),
            Node::Other => NodeData::Other,
        }
    }
}

/// What stands at a place in a JSON document, by `serde_json`; nothing where the text is no JSON.
pub uninterp spec fn json_node(document: Seq<char>, pointer: Seq<char>) -> Option<NodeData>;

/// Parses a document with `serde_json::from_str` and looks a place up in it with
/// `serde_json::Value::pointer`. The result is named: it is a function of the two texts, and an
/// error exactly where the name has no value. The grammar of JSON is left unsaid.
#[verifier::external_body]
pub(crate) fn json_at(document: &str, pointer: &str) -> (r: Result<Node, serde_json::Error>)
    ensures
        match json_node(document@, pointer@) {
            Some(node) => r matches Ok(n) && n@ == node,
            None => r is Err,
        },
{
    let value: serde_json::Value = serde_json::from_str(document)?;
    Ok(match value.pointer(pointer) {
        None => Node::Missing,
        Some(serde_json::Value::String(s)) => Node::Text(s.clone()),
        Some(serde_json::Value::Array(items)) => {
            Node::List(items.iter().map(|item| item.as_str().map(str::to_owned)).collect())
        },
        Some(_) => Node::Other,
    })
}

} // verus!
