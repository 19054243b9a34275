//! The flattened layout cell the renderers read: drawn elements by layer.

use vstd::prelude::*;

verus! {

/// A drawn element of a flattened GDS cell.
#[derive(Debug)]
pub enum Element {
    Boundary { layer: i16, datatype: i16, pts: Vec<(i32, i32)> },
    Path { layer: i16, datatype: i16, width: i32, pts: Vec<(i32, i32)> },
    Box { layer: i16, datatype: i16, pts: Vec<(i32, i32)> },
    Text { layer: i16, texttype: i16, xy: (i32, i32), string: String },
}

/// A cell: a name and its elements (already flattened).
#[derive(Debug)]
pub struct Cell {
    pub name: String,
    pub elements: Vec<Element>,
}

impl Default for Cell {
    fn default() -> (c: Cell)
        ensures
            c.name@.len() == 0,
            c.elements@.len() == 0,
    {
        Cell { name: String::new(), elements: Vec::new() }
    }
}

impl Element {
    /// The layer of any element.
    pub open spec fn layer_of(self) -> i16 {
        match self {
            Element::Boundary { layer, .. } => layer,
            Element::Path { layer, .. } => layer,
            Element::Box { layer, .. } => layer,
            Element::Text { layer, .. } => layer,
        }
    }

    /// Whether the element is drawn geometry (a boundary, path or box).
    pub open spec fn is_shape(self) -> bool {
        !(self is Text)
    }

    /// The vertices of drawn geometry (none for a text).
    pub open spec fn points(self) -> Seq<(i32, i32)> {
        match self {
            Element::Boundary { pts, .. } => pts@,
            Element::Path { pts, .. } => pts@,
            Element::Box { pts, .. } => pts@,
            Element::Text { .. } => seq![],
        }
    }
}

} // verus!
