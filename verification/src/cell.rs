use vstd::prelude::*;

verus! {

/// The four directions a rectangle corner can face.
#[derive(Clone, Copy, Debug, PartialEq, Eq, Structural)]
pub enum CornerDir {
    TopLeft,
    TopRight,
    BotLeft,
    BotRight,
}

impl CornerDir {
    /// The geometrically opposite direction.
    pub open spec fn opposite(self) -> CornerDir {
        match self {
            CornerDir::TopLeft => CornerDir::BotRight,
            CornerDir::TopRight => CornerDir::BotLeft,
            CornerDir::BotLeft => CornerDir::TopRight,
            CornerDir::BotRight => CornerDir::TopLeft,
        }
    }

    /// Two rectangles may share a cell only where a corner of one meets the
    /// opposite-direction corner of the other.
    pub fn get_opposite_dir(&self) -> (r: CornerDir)
        ensures
            r == self.opposite(),
    {
        match self {
            CornerDir::TopLeft => CornerDir::BotRight,
            CornerDir::TopRight => CornerDir::BotLeft,
            CornerDir::BotLeft => CornerDir::TopRight,
            CornerDir::BotRight => CornerDir::TopLeft,
        }
    }
}

/// The state of one grid cell.
///
/// A cell starts `Uninitialized` and, once set, never changes again except for
/// the two sanctioned transitions: `Corner` to `FusedCorner` when a second
/// rectangle's opposite corner lands on it, and `Normal` to `Blocked` during
/// the cage repair pass.
#[derive(Clone, Copy, Debug, PartialEq, Eq, Structural)]
pub enum GGCell {
    Uninitialized,
    Normal,
    Corner(CornerDir),
    FusedCorner,
    Blocked,
}

impl GGCell {
    /// Fillable-class cells: those that belong to some cage in the finished
    /// grid (plain fillable cells, unfused corners and fused corners).
    pub open spec fn is_fill(self) -> bool {
        match self {
            GGCell::Normal => true,
            GGCell::Corner(_) => true,
            GGCell::FusedCorner => true,
            _ => false,
        }
    }
}

} // verus!
