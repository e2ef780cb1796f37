use vstd::prelude::*;

use crate::cell::{CornerDir, GGCell};

verus! {

/// A rectangle of fillable cells that the growth loop stamps onto the grid.
/// Both sides are at least 2 cells long.
#[derive(Clone, Copy, Debug, PartialEq, Eq, Structural)]
pub struct Component {
    pub width: u8,
    pub height: u8,
}

/// A seed placement: a component together with the origin of its top-left
/// corner on the grid.
#[derive(Clone, Copy, Debug, PartialEq, Eq, Structural)]
pub struct Anchor {
    pub x: u8,
    pub y: u8,
    pub component: Component,
}

impl Anchor {
    pub fn new(x: u8, y: u8, component: Component) -> (r: Self)
        ensures
            r == (Anchor { x, y, component }),
    {
        Self { x, y, component }
    }
}

/// An exposed rectangle corner: a grid coordinate plus the direction the
/// corner faces. Active corners are the growth points of the generator.
#[derive(Clone, Copy, Debug, PartialEq, Eq, Structural)]
pub struct Corner {
    pub x: u8,
    pub y: u8,
    pub dir: CornerDir,
}

impl Corner {
    pub fn new(x: u8, y: u8, dir: CornerDir) -> (r: Self)
        ensures
            r == (Corner { x, y, dir }),
    {
        Self { x, y, dir }
    }

    /// The four corners of `component` when its top-left cell sits at
    /// `(x, y)`, in the order top-left, top-right, bottom-left, bottom-right.
    pub fn generate_corners(x: u8, y: u8, component: Component) -> (r: [Corner; 4])
        requires
            component.width >= 1,
            component.height >= 1,
            x + component.width <= 256,
            y + component.height <= 256,
        ensures
            r@[0] == (Corner { x, y, dir: CornerDir::TopLeft }),
            r@[1] == (Corner {
                x: (x + component.width - 1) as u8,
                y,
                dir: CornerDir::TopRight,
            }),
            r@[2] == (Corner {
                x,
                y: (y + component.height - 1) as u8,
                dir: CornerDir::BotLeft,
            }),
            r@[3] == (Corner {
                x: (x + component.width - 1) as u8,
                y: (y + component.height - 1) as u8,
                dir: CornerDir::BotRight,
            }),
    {
        [
            Corner::new(x, y, CornerDir::TopLeft),
            Corner::new(x + (component.width - 1), y, CornerDir::TopRight),
            Corner::new(x, y + (component.height - 1), CornerDir::BotLeft),
            Corner::new(
                x + (component.width - 1),
                y + (component.height - 1),
                CornerDir::BotRight,
            ),
        ]
    }
}

impl Component {
    pub fn new(width: u8, height: u8) -> (r: Self)
        ensures
            r == (Component { width, height }),
    {
        Self { width, height }
    }

    /// The cell a component contributes at position `(x, y)` of its padded
    /// footprint. The footprint is `(width + 2) x (height + 2)`: the rectangle
    /// itself occupies `1..=width` by `1..=height`, and the surrounding ring
    /// is `Uninitialized` except that beside each side of length at least 5
    /// exactly one `Blocked` cell is stamped at that long edge's midpoint (it
    /// stops straight edges from later growing into over-long cages). Outside
    /// the footprint every position reads `Uninitialized`.
    pub open spec fn pattern_at(self, x: int, y: int) -> GGCell {
        let w = self.width as int;
        let h = self.height as int;
        if 1 <= x <= w && 1 <= y <= h {
            if x == 1 && y == 1 {
                GGCell::Corner(CornerDir::TopLeft)
            } else if x == w && y == 1 {
                GGCell::Corner(CornerDir::TopRight)
            } else if x == 1 && y == h {
                GGCell::Corner(CornerDir::BotLeft)
            } else if x == w && y == h {
                GGCell::Corner(CornerDir::BotRight)
            } else {
                GGCell::Normal
            }
        } else if w >= 5 && (y == 0 || y == h + 1) && x == (w + 1) / 2 {
            GGCell::Blocked
        } else if h >= 5 && (x == 0 || x == w + 1) && y == (h + 1) / 2 {
            GGCell::Blocked
        } else {
            GGCell::Uninitialized
        }
    }

    /// One cell of the padded footprint, as `pattern_at` describes it.
    pub fn pattern_cell(&self, x: usize, y: usize) -> (c: GGCell)
        requires
            self.width >= 2,
            self.height >= 2,
        ensures
            c == self.pattern_at(x as int, y as int),
    {
        let w = self.width as usize;
        let h = self.height as usize;
        if 1 <= x && x <= w && 1 <= y && y <= h {
            if x == 1 && y == 1 {
                GGCell::Corner(CornerDir::TopLeft)
            } else if x == w && y == 1 {
                GGCell::Corner(CornerDir::TopRight)
            } else if x == 1 && y == h {
                GGCell::Corner(CornerDir::BotLeft)
            } else if x == w && y == h {
                GGCell::Corner(CornerDir::BotRight)
            } else {
                GGCell::Normal
            }
        } else if w >= 5 && (y == 0 || y == h + 1) && x == (w + 1) / 2 {
            GGCell::Blocked
        } else if h >= 5 && (x == 0 || x == w + 1) && y == (h + 1) / 2 {
            GGCell::Blocked
        } else {
            GGCell::Uninitialized
        }
    }

    /// The full padded footprint as a matrix, row by row.
    pub fn get_cells(&self) -> (r: Vec<Vec<GGCell>>)
        requires
            self.width >= 2,
            self.height >= 2,
        ensures
            r@.len() == self.height + 2,
            forall|y: int|
                0 <= y < self.height + 2 ==> (#[trigger] r@[y])@.len() == self.width + 2,
            forall|y: int, x: int|
                0 <= y < self.height + 2 && 0 <= x < self.width + 2 ==> #[trigger] r@[y]@[x]
                    == self.pattern_at(x, y),
    {
        let w = self.width as usize;
        let h = self.height as usize;
        let mut rows: Vec<Vec<GGCell>> = Vec::new();
        let mut y: usize = 0;
        while y < h + 2
            invariant
                self.width >= 2,
                self.height >= 2,
                w == self.width as int,
                h == self.height as int,
                y <= h + 2,
                rows@.len() == y,
                forall|yy: int| 0 <= yy < y ==> (#[trigger] rows@[yy])@.len() == w + 2,
                forall|yy: int, xx: int|
                    0 <= yy < y && 0 <= xx < w + 2 ==> #[trigger] rows@[yy]@[xx]
                        == self.pattern_at(xx, yy),
            decreases h + 2 - y,
        {
            let mut row: Vec<GGCell> = Vec::new();
            let mut x: usize = 0;
            while x < w + 2
                invariant
                    self.width >= 2,
                    self.height >= 2,
                    w == self.width as int,
                    h == self.height as int,
                    x <= w + 2,
                    row@.len() == x,
                    forall|xx: int|
                        0 <= xx < x ==> #[trigger] row@[xx] == self.pattern_at(xx, y as int),
                decreases w + 2 - x,
            {
                row.push(self.pattern_cell(x, y));
                x = x + 1;
            }
            rows.push(row);
            y = y + 1;
        }
        rows
    }

    /// Where the top-left cell of this component lands when its corner of the
    /// given corner's direction is pinned to the corner's coordinate.
    pub open spec fn pos_from_corner_spec(self, corner: Corner) -> (int, int) {
        let x = corner.x as int;
        let y = corner.y as int;
        let w = self.width as int;
        let h = self.height as int;
        match corner.dir {
            CornerDir::TopLeft => (x, y),
            CornerDir::TopRight => (x - w + 1, y),
            CornerDir::BotLeft => (x, y - h + 1),
            CornerDir::BotRight => (x - w + 1, y - h + 1),
        }
    }

    /// Position of the top-left cell of the component; negative coordinates
    /// mean the component would stick out over the top or left grid edge.
    pub fn get_pos_from_corner(&self, corner: Corner) -> (r: (i16, i16))
        ensures
            r.0 == self.pos_from_corner_spec(corner).0,
            r.1 == self.pos_from_corner_spec(corner).1,
    {
        let x = corner.x as i16;
        let y = corner.y as i16;
        let w = self.width as i16;
        let h = self.height as i16;
        match corner.dir {
            CornerDir::TopLeft => (x, y),
            CornerDir::TopRight => (x - w + 1, y),
            CornerDir::BotLeft => (x, y - h + 1),
            CornerDir::BotRight => (x - w + 1, y - h + 1),
        }
    }
}

} // verus!
