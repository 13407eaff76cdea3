//! Turning a row of relation data into an edge: both labels are trimmed and lower-cased,
//! and a row with an empty label adds nothing.
use vstd::prelude::*;
use vstd::string::StrSliceExecFns;
use crate::graph::Graph;

verus! {

/// What `str::trim` returns for the characters `s`.
pub uninterp spec fn trim_of(s: Seq<char>) -> Seq<char>;

/// What `str::to_lowercase` returns for the characters `s`.
pub uninterp spec fn lower_of(s: Seq<char>) -> Seq<char>;

/// Relies on `str::trim`: the result depends on the characters alone.
#[verifier::external_body]
fn trim(s: &str) -> (r: &str)
    ensures
        r@ == trim_of(s@),
{
    s.trim()
}

/// Relies on `str::to_lowercase`: the result depends on the characters alone.
#[verifier::external_body]
fn lowercase(s: &str) -> (r: String)
    ensures
        r@ == lower_of(s@),
{
    s.to_lowercase()
}

/// The form in which a label enters the graph: trimmed, then lower-cased.
pub open spec fn normal_label(s: Seq<char>) -> Seq<char> {
    lower_of(trim_of(s))
}

/// The label `s` trimmed and lower-cased.
pub fn normalize(s: &str) -> (r: String)
    ensures
        r@ == normal_label(s@),
{
    lowercase(trim(s))
}

/// Adds the edge between the normalised `source` and `destination`, unless either is empty;
/// says whether it did.
pub fn add_record(graph: &mut Graph, source: &str, destination: &str) -> (added: bool)
    requires
        old(graph).wf(),
    ensures
        final(graph).wf(),
        added == (normal_label(source@).len() > 0 && normal_label(destination@).len() > 0),
        added ==> final(graph).edge_added(*old(graph), normal_label(source@), normal_label(destination@)),
        added ==> (old(graph).symmetric() ==> final(graph).symmetric()),
        !added ==> *final(graph) == *old(graph),
{
    let u = normalize(source);
    let v = normalize(destination);
    if u.as_str().unicode_len() == 0 || v.as_str().unicode_len() == 0 {
        return false;
    }
    graph.add_edge(u, v);
    true
}

} // verus!
