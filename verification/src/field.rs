use vstd::prelude::*;
use crate::coordinates::Coordinates;
use crate::direction::Direction;

verus! {

/// Defines the possible types of fields that exist in a maze.
#[derive(Debug, Copy, Clone, PartialEq, Eq, Structural)]
pub enum FieldType {
    /// Start field from which a potential user should start exploring
    Start,
    /// Goal field which a potential user tries to reach
    Goal,
    /// Standard field with no special meaning
    Normal,
}

/// Representation of a single field.
///
/// This type is not used in the internal representation of a maze but provides
/// a nicer interface to work with fields than always querying the maze.  It is
/// always constructed fresh from a maze query and never stored.
#[derive(Clone)]
pub struct Field {
    passages: Vec<Direction>,
    /// Role which this field position serves in the maze
    pub field_type: FieldType,
    /// Where this field is located in the maze
    pub coordinates: Coordinates,
}

impl Field {
    /// The directions toward which this field has an open passage.
    pub closed spec fn spec_passages(self) -> Seq<Direction> {
        self.passages@
    }

    /// The role of this field, as a mathematical value.
    pub closed spec fn spec_field_type(self) -> FieldType {
        self.field_type
    }

    /// The position of this field, as a mathematical value.
    pub closed spec fn spec_coordinates(self) -> Coordinates {
        self.coordinates
    }

    /// Whether a passage exists from this field toward `direction`,
    /// as a mathematical predicate.
    pub open spec fn spec_has_passage(self, direction: Direction) -> bool {
        self.spec_passages().contains(direction)
    }

    pub(crate) fn new(field_type: FieldType, coordinates: Coordinates, passages: Vec<Direction>) -> (r: Self)
        ensures
            r.spec_field_type() == field_type,
            r.spec_coordinates() == coordinates,
            r.spec_passages() == passages@,
    {
        Field { passages, field_type, coordinates }
    }

    /// Whether or not a passage (a way) exists from this field to another one
    /// which lies in the specified direction.
    pub fn has_passage(&self, direction: &Direction) -> (r: bool)
        ensures
            r == self.spec_has_passage(*direction),
    {
        let mut i: usize = 0;
        while i < self.passages.len()
            invariant
                i <= self.passages.len(),
                forall|j: int| 0 <= j < i ==> self.passages@[j] != *direction,
            decreases self.passages.len() - i,
        {
            if self.passages[i] == *direction {
                return true;
            }
            i = i + 1;
        }
        false
    }
}

} // verus!
