//! The point of the road network closest to where a search starts.
use vstd::prelude::*;

verus! {

/// The closest point on the road network: the link it lies on, the node it
/// coincides with (if any), and its index among the link's points.
pub struct Closest {
    pub link: String,
    pub node: Option<String>,
    pub linestring_index: usize,
    pub linestring_length: usize,
}

impl Closest {
    pub fn link(&self) -> (r: &String)
        ensures
            r == &self.link,
    {
        &self.link
    }

    pub fn linestring_index(&self) -> (r: usize)
        ensures
            r == self.linestring_index,
    {
        self.linestring_index
    }

    pub fn linestring_length(&self) -> (r: usize)
        ensures
            r == self.linestring_length,
    {
        self.linestring_length
    }

    /// A copy of the node the closest point coincides with, if any.
    pub fn node(&self) -> (r: Option<String>)
        ensures
            r is Some <==> self.node is Some,
            r is Some ==> r->0@ == self.node->0@,
    {
        match &self.node {
            Some(s) => Some(s.clone()),
            None => None,
        }
    }
}

} // verus!
