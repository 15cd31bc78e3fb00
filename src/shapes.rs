use vstd::prelude::*;

verus! {

/// What a group carries besides its children.
#[derive(Debug, Clone, Copy, PartialEq, Eq, Structural)]
pub struct Group {
    pub masked: bool,
}

/// The kind of a drawable element.
#[derive(Debug, Clone, Copy, PartialEq, Eq, Structural)]
pub enum Type {
    Frame,
    Group(Group),
    Bool,
    Rect,
    Path,
    Text,
    Circle,
    SVGRaw,
}

impl Type {
    /// Decodes a kind code; an unknown code reads as a rectangle.
    pub fn from(value: u8) -> (r: Self)
        ensures
            value == 0 ==> r == Type::Frame,
            value == 1 ==> r == Type::Group(Group { masked: false }),
            value == 2 ==> r == Type::Bool,
            value == 3 ==> r == Type::Rect,
            value == 4 ==> r == Type::Path,
            value == 5 ==> r == Type::Text,
            value == 6 ==> r == Type::Circle,
            value == 7 ==> r == Type::SVGRaw,
            value > 7 ==> r == Type::Rect,
    {
        match value {
            0 => Type::Frame,
            1 => Type::Group(Group { masked: false }),
            2 => Type::Bool,
            3 => Type::Rect,
            4 => Type::Path,
            5 => Type::Text,
            6 => Type::Circle,
            7 => Type::SVGRaw,
            _ => Type::Rect,
        }
    }
}

/// How an element follows its frame horizontally.
#[derive(Debug, Clone, Copy, PartialEq, Eq, Structural)]
pub enum ConstraintH {
    Left,
    Right,
    LeftRight,
    Center,
    Scale,
}

impl ConstraintH {
    /// Decodes a constraint code; an unknown code gives `None`.
    pub fn from(value: u8) -> (r: Option<Self>)
        ensures
            value == 0 ==> r == Some(ConstraintH::Left),
            value == 1 ==> r == Some(ConstraintH::Right),
            value == 2 ==> r == Some(ConstraintH::LeftRight),
            value == 3 ==> r == Some(ConstraintH::Center),
            value == 4 ==> r == Some(ConstraintH::Scale),
            value > 4 ==> r == None::<ConstraintH>,
    {
        match value {
            0 => Some(Self::Left),
            1 => Some(Self::Right),
            2 => Some(Self::LeftRight),
            3 => Some(Self::Center),
            4 => Some(Self::Scale),
            _ => None,
        }
    }
}

/// How an element follows its frame vertically.
#[derive(Debug, Clone, Copy, PartialEq, Eq, Structural)]
pub enum ConstraintV {
    Top,
    Bottom,
    TopBottom,
    Center,
    Scale,
}

impl ConstraintV {
    /// Decodes a constraint code; an unknown code gives `None`.
    pub fn from(value: u8) -> (r: Option<Self>)
        ensures
            value == 0 ==> r == Some(ConstraintV::Top),
            value == 1 ==> r == Some(ConstraintV::Bottom),
            value == 2 ==> r == Some(ConstraintV::TopBottom),
            value == 3 ==> r == Some(ConstraintV::Center),
            value == 4 ==> r == Some(ConstraintV::Scale),
            value > 4 ==> r == None::<ConstraintV>,
    {
        match value {
            0 => Some(Self::Top),
            1 => Some(Self::Bottom),
            2 => Some(Self::TopBottom),
            3 => Some(Self::Center),
            4 => Some(Self::Scale),
            _ => None,
        }
    }
}

} // verus!
