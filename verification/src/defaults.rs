use vstd::prelude::*;

use crate::cell::CornerDir;

verus! {

/// A corner record of a preset component: its cell position inside the
/// component, the two outward offsets that must stay open for growth, and
/// the direction it faces.
#[derive(Clone, Copy, Debug)]
pub struct Corner {
    pub pos: (u8, u8),
    pub openings: [(i8, i8); 2],
    pub dir: CornerDir,
}

impl Corner {
    pub fn new(x: u8, y: u8, opening1: (i8, i8), opening2: (i8, i8), dir: CornerDir) -> (r: Self)
        ensures
            r.pos == (x, y),
            r.openings@[0] == opening1,
            r.openings@[1] == opening2,
            r.dir == dir,
    {
        Self { pos: (x, y), openings: [opening1, opening2], dir }
    }

    /// The four corners of a `width` by `height` component, with their
    /// outward openings, in the order top-left, top-right, bottom-left,
    /// bottom-right.
    pub fn create_corners(width: u8, height: u8) -> (r: [Corner; 4])
        requires
            width >= 1,
            height >= 1,
        ensures
            r@[0].pos == (0u8, 0u8),
            r@[0].dir == CornerDir::TopLeft,
            r@[0].openings@[0] == (-1i8, 0i8),
            r@[0].openings@[1] == (0i8, -1i8),
            r@[1].pos == ((width - 1) as u8, 0u8),
            r@[1].dir == CornerDir::TopRight,
            r@[1].openings@[0] == (1i8, 0i8),
            r@[1].openings@[1] == (0i8, -1i8),
            r@[2].pos == (0u8, (height - 1) as u8),
            r@[2].dir == CornerDir::BotLeft,
            r@[2].openings@[0] == (-1i8, 0i8),
            r@[2].openings@[1] == (0i8, 1i8),
            r@[3].pos == ((width - 1) as u8, (height - 1) as u8),
            r@[3].dir == CornerDir::BotRight,
            r@[3].openings@[0] == (1i8, 0i8),
            r@[3].openings@[1] == (0i8, 1i8),
    {
        let x = width - 1;
        let y = height - 1;
        [
            Corner::new(0, 0, (-1, 0), (0, -1), CornerDir::TopLeft),
            Corner::new(x, 0, (1, 0), (0, -1), CornerDir::TopRight),
            Corner::new(0, y, (-1, 0), (0, 1), CornerDir::BotLeft),
            Corner::new(x, y, (1, 0), (0, 1), CornerDir::BotRight),
        ]
    }
}

/// A preset component shape: a rectangle together with its corner records.
#[derive(Clone, Copy, Debug)]
pub struct Component {
    pub width: u8,
    pub height: u8,
    pub corners: [Corner; 4],
}

impl Component {
    pub fn new(width: u8, height: u8, corners: [Corner; 4]) -> (r: Self)
        ensures
            r.width == width,
            r.height == height,
            r.corners == corners,
    {
        Self { width, height, corners }
    }
}

/// The preset component shapes, from 2 by 2 up to 4 by 4. Every corner of
/// every entry sits on an extreme cell of its rectangle.
pub fn components() -> (r: Vec<Component>)
    ensures
        r@.len() == 7,
        forall|i: int| 0 <= i < 7 ==> (#[trigger] r@[i]).width >= 2 && r@[i].height >= 2,
        forall|i: int, k: int|
            0 <= i < 7 && 0 <= k < 4 ==> ((#[trigger] r@[i].corners@[k]).pos.0 == 0
                || r@[i].corners@[k].pos.0 == r@[i].width - 1) && (r@[i].corners@[k].pos.1 == 0
                || r@[i].corners@[k].pos.1 == r@[i].height - 1),
{
    let mut v: Vec<Component> = Vec::new();
    v.push(Component::new(2, 2, Corner::create_corners(2, 2)));
    v.push(Component::new(2, 3, Corner::create_corners(2, 3)));
    v.push(Component::new(3, 2, Corner::create_corners(3, 2)));
    v.push(Component::new(3, 3, Corner::create_corners(3, 3)));
    v.push(Component::new(3, 4, Corner::create_corners(3, 4)));
    v.push(Component::new(4, 3, Corner::create_corners(4, 3)));
    v.push(Component::new(4, 4, Corner::create_corners(4, 4)));
    v
}

/// How two components may relate across a join: merged corners, direct
/// contact, or separated by a small gap.
#[derive(Clone, Copy, Debug)]
pub enum Connector {
    Merged,
    Direct,
    OneCell,
    TwoCell,
    ThreeCell,
    FiveCell,
}

impl Connector {
    /// The canonical offset between two joined components, before it is
    /// oriented by a corner direction.
    pub open spec fn base_diff_spec(self) -> (int, int) {
        match self {
            Connector::Merged => (0, 0),
            Connector::Direct => (1, 0),
            Connector::OneCell => (1, 1),
            Connector::TwoCell => (2, 1),
            Connector::ThreeCell => (2, 2),
            Connector::FiveCell => (3, 3),
        }
    }

    fn get_base_diff(&self) -> (r: (i8, i8))
        ensures
            r.0 as int == self.base_diff_spec().0,
            r.1 as int == self.base_diff_spec().1,
    {
        match self {
            Connector::Merged => (0, 0),
            Connector::Direct => (1, 0),
            Connector::OneCell => (1, 1),
            Connector::TwoCell => (2, 1),
            Connector::ThreeCell => (2, 2),
            Connector::FiveCell => (3, 3),
        }
    }

    /// The sign pair that orients a base offset toward a corner direction.
    pub open spec fn dir_signs(dir: CornerDir) -> (int, int) {
        match dir {
            CornerDir::TopLeft => (-1, -1),
            CornerDir::TopRight => (1, -1),
            CornerDir::BotLeft => (-1, 1),
            CornerDir::BotRight => (1, 1),
        }
    }

    /// All distinct offsets this connector allows toward the given corner
    /// direction: the oriented base offset, and its transpose when the base
    /// offset is not symmetric.
    pub fn get_all_diffs(&self, dir: CornerDir) -> (r: Vec<(i8, i8)>)
        ensures
            ({
                let (x, y) = self.base_diff_spec();
                let (mx, my) = Connector::dir_signs(dir);
                &&& r@.len() == (if x == y {
                    1int
                } else {
                    2int
                })
                &&& r@[0].0 as int == x * mx
                &&& r@[0].1 as int == y * my
                &&& x != y ==> r@[1].0 as int == y * mx && r@[1].1 as int == x * my
            }),
    {
        let base = self.get_base_diff();
        let x = base.0;
        let y = base.1;
        let signs: (i8, i8) = match dir {
            CornerDir::TopLeft => (-1, -1),
            CornerDir::TopRight => (1, -1),
            CornerDir::BotLeft => (-1, 1),
            CornerDir::BotRight => (1, 1),
        };
        let mx = signs.0;
        let my = signs.1;
        let mut v: Vec<(i8, i8)> = Vec::new();
        v.push((x * mx, y * my));
        if x != y {
            v.push((y * mx, x * my));
        }
        v
    }
}

} // verus!
