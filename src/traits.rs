//! Layout elements, their semantic labels and the coordinate axes.
use vstd::prelude::*;

verus! {

/// Coarse semantic class of a layout element.
#[derive(Clone, Copy, Debug, PartialEq, Eq, Structural)]
pub enum SemanticLabel {
    CrossLayout,
    HorizontalTitle,
    VerticalTitle,
    Vision,
    Regular,
}

/// Reinsertion rank of a label: lower ranks are placed first.
pub open spec fn priority(label: SemanticLabel) -> int {
    match label {
        SemanticLabel::CrossLayout => 0,
        SemanticLabel::HorizontalTitle => 1,
        SemanticLabel::VerticalTitle => 1,
        SemanticLabel::Vision => 2,
        SemanticLabel::Regular => 3,
    }
}

pub fn label_priority(label: SemanticLabel) -> (r: u8)
    ensures
        r as int == priority(label),
        r < 4,
{
    match label {
        SemanticLabel::CrossLayout => 0,
        SemanticLabel::HorizontalTitle => 1,
        SemanticLabel::VerticalTitle => 1,
        SemanticLabel::Vision => 2,
        SemanticLabel::Regular => 3,
    }
}

/// A detected layout element: its id, its box `(x1, y1) - (x2, y2)`, its
/// center, its label and whether the detector asks for it to be masked.
#[derive(Clone, Copy, Debug, PartialEq, Eq, Structural)]
pub struct Element {
    pub id: usize,
    pub x1: i32,
    pub y1: i32,
    pub x2: i32,
    pub y2: i32,
    pub cx: i32,
    pub cy: i32,
    pub label: SemanticLabel,
    pub mask: bool,
}

/// A coordinate axis: `Y` orders rows (horizontal cuts), `X` columns
/// (vertical cuts).
#[derive(Clone, Copy, Debug, PartialEq, Eq, Structural)]
pub enum Axis {
    X,
    Y,
}

/// The floored midpoint of two coordinates.
pub open spec fn midpoint(a: int, b: int) -> int {
    (a + b) / 2
}

fn floor_half(a: i32, b: i32) -> (r: i32)
    ensures
        r == midpoint(a as int, b as int),
{
    let s = a as i64 + b as i64;
    if s >= 0 {
        (s / 2) as i32
    } else {
        (-((1 - s) / 2)) as i32
    }
}

impl Element {
    pub open spec fn width(self) -> int {
        self.x2 - self.x1
    }

    pub open spec fn height(self) -> int {
        self.y2 - self.y1
    }

    /// The box's lower edge on `axis`.
    pub open spec fn low(self, axis: Axis) -> int {
        match axis {
            Axis::X => self.x1 as int,
            Axis::Y => self.y1 as int,
        }
    }

    /// The box's upper edge on `axis`.
    pub open spec fn high(self, axis: Axis) -> int {
        match axis {
            Axis::X => self.x2 as int,
            Axis::Y => self.y2 as int,
        }
    }

    /// The center's coordinate on `axis`.
    pub open spec fn center_on(self, axis: Axis) -> int {
        match axis {
            Axis::X => self.cx as int,
            Axis::Y => self.cy as int,
        }
    }

    pub fn low_on(&self, axis: Axis) -> (r: i32)
        ensures
            r == self.low(axis),
    {
        match axis {
            Axis::X => self.x1,
            Axis::Y => self.y1,
        }
    }

    pub fn high_on(&self, axis: Axis) -> (r: i32)
        ensures
            r == self.high(axis),
    {
        match axis {
            Axis::X => self.x2,
            Axis::Y => self.y2,
        }
    }

    pub fn center_of(&self, axis: Axis) -> (r: i32)
        ensures
            r == self.center_on(axis),
    {
        match axis {
            Axis::X => self.cx,
            Axis::Y => self.cy,
        }
    }

    /// An element whose center is the floored midpoint of its box.
    pub fn new(
        id: usize,
        x1: i32,
        y1: i32,
        x2: i32,
        y2: i32,
        label: SemanticLabel,
        mask: bool,
    ) -> (r: Element)
        ensures
            r.id == id,
            r.x1 == x1 && r.y1 == y1 && r.x2 == x2 && r.y2 == y2,
            r.cx == midpoint(x1 as int, x2 as int),
            r.cy == midpoint(y1 as int, y2 as int),
            r.label == label,
            r.mask == mask,
    {
        let cx = floor_half(x1, x2);
        let cy = floor_half(y1, y2);
        Element { id, x1, y1, x2, y2, cx, cy, label, mask }
    }

    /// An element with a center given by the caller.
    pub fn with_center(
        id: usize,
        bounds: (i32, i32, i32, i32),
        center: (i32, i32),
        label: SemanticLabel,
        mask: bool,
    ) -> (r: Element)
        ensures
            r.id == id,
            r.x1 == bounds.0 && r.y1 == bounds.1 && r.x2 == bounds.2 && r.y2 == bounds.3,
            r.cx == center.0 && r.cy == center.1,
            r.label == label,
            r.mask == mask,
    {
        Element {
            id,
            x1: bounds.0,
            y1: bounds.1,
            x2: bounds.2,
            y2: bounds.3,
            cx: center.0,
            cy: center.1,
            label,
            mask,
        }
    }
}

} // verus!
