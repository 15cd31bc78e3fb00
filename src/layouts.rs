use vstd::prelude::*;

verus! {

/// One track of a grid layout.
#[derive(Debug, Clone, PartialEq)]
pub struct GridTrack {}

/// The rows and columns of a grid layout.
#[derive(Debug, Clone, PartialEq)]
pub struct GridData {
    pub rows: Vec<GridTrack>,
    pub columns: Vec<GridTrack>,
}

} // verus!
