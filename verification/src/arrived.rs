//! A Stream that arrived.

use vstd::prelude::*;

verus! {

/// A Stream that arrived, and where it came from.
#[derive(Clone, Debug, PartialEq, Eq)]
pub struct Arrived {
    pub origin_uri: String,
    pub bytes: Vec<u8>,
}

/// A Stream that arrived, as its characters and bytes.
pub struct ArrivedView {
    pub origin_uri: Seq<char>,
    pub bytes: Seq<u8>,
}

impl View for Arrived {
    type V = ArrivedView;

    open spec fn view(&self) -> ArrivedView {
        ArrivedView { origin_uri: self.origin_uri@, bytes: self.bytes@ }
    }
}

impl DeepView for Arrived {
    type V = ArrivedView;

    open spec fn deep_view(&self) -> ArrivedView {
        self@
    }
}

impl Arrived {
    /// `bytes`, which came from `origin_uri`.
    pub fn new(origin_uri: String, bytes: Vec<u8>) -> (arrived: Self)
        ensures
            arrived@ == (ArrivedView { origin_uri: origin_uri@, bytes: bytes@ }),
    {
        Self { origin_uri, bytes }
    }
}

} // verus!
