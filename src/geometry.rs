//! Rectangles, cut operators and nets.

use vstd::prelude::*;

verus! {

/// The largest total extent that a floorplan may reach on either axis.
/// Keeping every coordinate below it lets areas and wirelength sums fit.
pub const EXTENT_LIMIT: Int = 0xFFFF_FFFF;

/// Lengths and coordinates.
pub type Int = u64;

/// An axis-aligned rectangle given by its width and height.
#[derive(Debug, Clone, Copy, PartialEq, Eq, Structural, Default)]
pub struct Rectangle {
    pub width: Int,
    pub height: Int,
}

/// A token of a postfix expression: a horizontal cut, a vertical cut, or a
/// reference to a module by its id.
#[derive(Clone, Copy, Debug, PartialEq, Eq, Structural)]
pub enum ModuleNode {
    H(),
    V(),
    Module(usize),
}

/// A net: the ids of the modules that it connects, and its own id.
#[derive(Debug, Clone, Default)]
pub struct Net {
    pub pins: Vec<usize>,
    pub id: usize,
}

/// For each module id: the x and y of its lower left corner and its realised
/// rectangle.
pub type Floorplan = Vec<(Int, Int, Rectangle)>;

/// `a` fits inside `b`: it is no wider and no higher.
pub open spec fn le(a: Rectangle, b: Rectangle) -> bool {
    a.width <= b.width && a.height <= b.height
}

pub open spec fn is_cut(o: ModuleNode) -> bool {
    !(o is Module)
}

/// The outer rectangle of `a` and `b` placed side by side (`V`) or `b` on top
/// of `a` (`H`).
pub open spec fn combine_spec(a: Rectangle, b: Rectangle, o: ModuleNode) -> Rectangle {
    if o is V {
        Rectangle {
            width: (a.width + b.width) as Int,
            height: if a.height >= b.height { a.height } else { b.height },
        }
    } else {
        Rectangle {
            width: if a.width >= b.width { a.width } else { b.width },
            height: (a.height + b.height) as Int,
        }
    }
}

/// Combining `a` and `b` stays within the machine's integers.
pub open spec fn combinable(a: Rectangle, b: Rectangle) -> bool {
    a.width + b.width <= Int::MAX && a.height + b.height <= Int::MAX
}

pub open spec fn transpose_spec(r: Rectangle) -> Rectangle {
    Rectangle { width: r.height, height: r.width }
}

impl Rectangle {
    pub fn new(width: Int, height: Int) -> (r: Rectangle)
        ensures
            r.width == width,
            r.height == height,
    {
        Rectangle { width, height }
    }

    pub fn transpose(&self) -> (r: Rectangle)
        ensures
            r == transpose_spec(*self),
    {
        Rectangle { width: self.height, height: self.width }
    }

    /// `b` on top of `a`.
    fn combine_h(a: Rectangle, b: Rectangle) -> (r: Rectangle)
        requires
            a.height + b.height <= Int::MAX,
        ensures
            r == combine_spec(a, b, ModuleNode::H()),
    {
        let width = if a.width >= b.width { a.width } else { b.width };
        Rectangle { width, height: a.height + b.height }
    }

    /// `b` to the right of `a`.
    fn combine_v(a: Rectangle, b: Rectangle) -> (r: Rectangle)
        requires
            a.width + b.width <= Int::MAX,
        ensures
            r == combine_spec(a, b, ModuleNode::V()),
    {
        let height = if a.height >= b.height { a.height } else { b.height };
        Rectangle { width: a.width + b.width, height }
    }

    /// The outer rectangle of `a` and `b` stacked under the cut `v_or_h`.
    pub fn combine(a: Rectangle, b: Rectangle, v_or_h: ModuleNode) -> (r: Rectangle)
        requires
            is_cut(v_or_h),
            combinable(a, b),
        ensures
            r == combine_spec(a, b, v_or_h),
    {
        match v_or_h {
            ModuleNode::V() => Rectangle::combine_v(a, b),
            _ => Rectangle::combine_h(a, b),
        }
    }

    pub fn area(&self) -> (r: Int)
        requires
            self.width * self.height <= Int::MAX,
        ensures
            r == self.width * self.height,
    {
        self.width * self.height
    }

    /// Twice the centre of the rectangle placed with its lower left corner at
    /// `(pos_x, pos_y)`; doubled so that it stays an integer.
    pub fn center(&self, pos_x: Int, pos_y: Int) -> (r: (Int, Int))
        requires
            2 * pos_x + self.width <= Int::MAX,
            2 * pos_y + self.height <= Int::MAX,
        ensures
            r.0 == 2 * pos_x + self.width,
            r.1 == 2 * pos_y + self.height,
    {
        (2 * pos_x + self.width, 2 * pos_y + self.height)
    }
}

/// The bounding box of a set of points.
pub struct BoundingBox {
    pub min_x: Int,
    pub max_x: Int,
    pub min_y: Int,
    pub max_y: Int,
}

impl BoundingBox {
    pub fn new(min_x: Int, max_x: Int, min_y: Int, max_y: Int) -> (r: BoundingBox)
        ensures
            r.min_x == min_x,
            r.max_x == max_x,
            r.min_y == min_y,
            r.max_y == max_y,
    {
        BoundingBox { min_x, max_x, min_y, max_y }
    }

    /// Grows the box so that it holds the point `(x, y)`.
    pub fn extend_point(&mut self, x: Int, y: Int)
        ensures
            final(self).min_x == if x < old(self).min_x { x } else { old(self).min_x },
            final(self).max_x == if x > old(self).max_x { x } else { old(self).max_x },
            final(self).min_y == if y < old(self).min_y { y } else { old(self).min_y },
            final(self).max_y == if y > old(self).max_y { y } else { old(self).max_y },
    {
        if x < self.min_x {
            self.min_x = x;
        }
        if x > self.max_x {
            self.max_x = x;
        }
        if y < self.min_y {
            self.min_y = y;
        }
        if y > self.max_y {
            self.max_y = y;
        }
    }

    pub fn get_width(&self) -> (r: Int)
        requires
            self.min_x <= self.max_x,
        ensures
            r == self.max_x - self.min_x,
    {
        self.max_x - self.min_x
    }

    pub fn get_height(&self) -> (r: Int)
        requires
            self.min_y <= self.max_y,
        ensures
            r == self.max_y - self.min_y,
    {
        self.max_y - self.min_y
    }
}

impl Default for ModuleNode {
    fn default() -> (r: ModuleNode)
        ensures
            r == ModuleNode::Module(0),
    {
        ModuleNode::Module(0)
    }
}

impl ModuleNode {
    pub fn is_module(&self) -> (r: bool)
        ensures
            r == (*self is Module),
    {
        match *self {
            ModuleNode::Module(_) => true,
            _ => false,
        }
    }

    /// The cut of the other orientation.
    pub fn invert(&self) -> (r: ModuleNode)
        requires
            is_cut(*self),
        ensures
            *self is H ==> r is V,
            *self is V ==> r is H,
    {
        match *self {
            ModuleNode::H() => ModuleNode::V(),
            _ => ModuleNode::H(),
        }
    }
}

impl Net {
    pub fn new(pins: Vec<usize>, id: usize) -> (r: Net)
        ensures
            r.pins@ == pins@,
            r.id == id,
    {
        Net { pins, id }
    }
}

} // verus!
