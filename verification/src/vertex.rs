//! A line of a file at one commit: the node weight of the annotation graph.
use vstd::prelude::*;

verus! {

/// The line `line` of the tracked file as it stood at commit `hash`.
/// `label` is empty for an ordinary line and `"CHANGE"` for a line that a
/// hunk of the following commit rewrote or whose neighbour it deleted.
#[derive(Clone, Debug, PartialEq, Eq, Hash)]
pub struct Vertex {
    pub hash: String,
    pub line: i64,
    pub label: String,
}

/// What a vertex holds, as plain values: hash, line and label.
pub type VertexModel = (Seq<char>, i64, Seq<char>);

impl View for Vertex {
    type V = VertexModel;

    open spec fn view(&self) -> VertexModel {
        (self.hash@, self.line, self.label@)
    }
}

impl Vertex {
    /// The placeholder vertex: hash `" "`, line `-1`, label `" "`.
    pub fn new() -> (v: Vertex)
        ensures
            v.hash@ == " "@,
            v.line == -1,
            v.label@ == " "@,
    {
        Vertex { hash: String::from_str(" "), line: -1, label: String::from_str(" ") }
    }

    /// The unlabelled vertex for line `line` of the file at commit `hash`.
    pub fn from_hash_and_line(hash: String, line: i64) -> (v: Vertex)
        ensures
            v.hash@ == hash@,
            v.line == line,
            v.label@ == Seq::<char>::empty(),
    {
        Vertex { hash: hash, line: line, label: String::new() }
    }

    /// Whether `other` has the same hash, line and label.
    pub fn eq(&self, other: Vertex) -> (b: bool)
        ensures
            b == (self@ == other@),
    {
        other.hash == self.hash && other.line == self.line && other.label == self.label
    }
}

} // verus!
