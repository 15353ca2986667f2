//! Positions and sizes on the character grid, and the arithmetic of laying
//! widgets out in rows and columns.

use vstd::prelude::*;

verus! {

/// A column and a row, or a width and a height, in character cells.
#[derive(Clone, Copy, Debug, Default, PartialEq, Eq, Structural)]
pub struct Point {
    pub x: u16,
    pub y: u16,
}

impl Point {
    /// The point at column `x` and row `y`.
    pub fn new(x: u16, y: u16) -> (p: Self)
        ensures
            p == (Point { x, y }),
    {
        Self { x, y }
    }

    /// The sum, coordinate by coordinate.
    pub fn add(self, rhs: Self) -> (p: Self)
        requires
            self.x + rhs.x <= u16::MAX,
            self.y + rhs.y <= u16::MAX,
        ensures
            p.x == self.x + rhs.x,
            p.y == self.y + rhs.y,
    {
        Self { x: self.x + rhs.x, y: self.y + rhs.y }
    }

    /// The product, coordinate by coordinate.
    pub fn mul(self, rhs: Self) -> (p: Self)
        requires
            self.x * rhs.x <= u16::MAX,
            self.y * rhs.y <= u16::MAX,
        ensures
            p.x == self.x * rhs.x,
            p.y == self.y * rhs.y,
    {
        Self { x: self.x * rhs.x, y: self.y * rhs.y }
    }
}

/// A position or a size with signed coordinates.
#[derive(Clone, Copy, Debug, Default, PartialEq, Eq, Structural)]
pub struct Vec2 {
    pub x: i32,
    pub y: i32,
}

impl Vec2 {
    /// The vector with the coordinates `x` and `y`.
    pub fn new(x: i32, y: i32) -> (v: Self)
        ensures
            v == (Vec2 { x, y }),
    {
        Self { x, y }
    }

    /// The sum, coordinate by coordinate.
    pub fn add(self, rhs: Self) -> (v: Self)
        requires
            i32::MIN <= self.x + rhs.x <= i32::MAX,
            i32::MIN <= self.y + rhs.y <= i32::MAX,
        ensures
            v.x == self.x + rhs.x,
            v.y == self.y + rhs.y,
    {
        Self { x: self.x + rhs.x, y: self.y + rhs.y }
    }

    /// The product, coordinate by coordinate.
    pub fn mul(self, rhs: Self) -> (v: Self)
        requires
            i32::MIN <= self.x * rhs.x <= i32::MAX,
            i32::MIN <= self.y * rhs.y <= i32::MAX,
        ensures
            v.x == self.x * rhs.x,
            v.y == self.y * rhs.y,
    {
        Self { x: self.x * rhs.x, y: self.y * rhs.y }
    }

    /// A size divided into `rhs.x` columns and `rhs.y` rows: the size of one
    /// part, and what is left over. Quotients are cut towards zero.
    pub fn div_rem(self, rhs: Self) -> (r: (Self, Self))
        requires
            rhs.x != 0,
            rhs.y != 0,
            !(self.x == i32::MIN && rhs.x == -1),
            !(self.y == i32::MIN && rhs.y == -1),
        ensures
            r.0.x == quotient(self.x as int, rhs.x as int),
            r.0.y == quotient(self.y as int, rhs.y as int),
            r.1.x == remainder(self.x as int, rhs.x as int),
            r.1.y == remainder(self.y as int, rhs.y as int),
    {
        proof {
            lemma_quotient_fits(self.x, rhs.x);
            lemma_quotient_fits(self.y, rhs.y);
        }
        (
            Self { x: self.x / rhs.x, y: self.y / rhs.y },
            Self { x: self.x % rhs.x, y: self.y % rhs.y },
        )
    }

    /// The quotient, coordinate by coordinate, cut towards zero.
    pub fn div(self, rhs: Self) -> (v: Self)
        requires
            rhs.x != 0,
            rhs.y != 0,
            !(self.x == i32::MIN && rhs.x == -1),
            !(self.y == i32::MIN && rhs.y == -1),
        ensures
            v.x == quotient(self.x as int, rhs.x as int),
            v.y == quotient(self.y as int, rhs.y as int),
    {
        proof {
            lemma_quotient_fits(self.x, rhs.x);
            lemma_quotient_fits(self.y, rhs.y);
        }
        Self { x: self.x / rhs.x, y: self.y / rhs.y }
    }
}

/// The quotient of `a` by `b`, cut towards zero: the quotient of the sizes of
/// the two numbers, with the sign that the signs of the two give.
pub open spec fn quotient(a: int, b: int) -> int {
    if a >= 0 {
        a / b
    } else {
        -((-a) / b)
    }
}

/// What is left of `a` when `b` is taken off `quotient(a, b)` times. It has
/// the sign of `a`.
pub open spec fn remainder(a: int, b: int) -> int {
    if a >= 0 {
        a % b
    } else {
        -((-a) % b)
    }
}

/// The quotient of two machine integers is one again, but for the smallest
/// integer divided by -1.
pub proof fn lemma_quotient_fits(a: i32, b: i32)
    requires
        b != 0,
        !(a == i32::MIN && b == -1),
    ensures
        i32::MIN <= quotient(a as int, b as int) <= i32::MAX,
{
    let n: int = if a >= 0 {
        a as int
    } else {
        -(a as int)
    };
    let d: int = b as int;
    assert(-n <= n / d <= n) by (nonlinear_arith)
        requires
            n >= 0,
            d != 0,
    ;
    if d != -1 && d != 1 {
        assert(-n <= 2 * (n / d) <= n) by (nonlinear_arith)
            requires
                n >= 0,
                d <= -2 || d >= 2,
        ;
    } else if d == 1 {
        assert(n / d == n) by (nonlinear_arith)
            requires
                d == 1,
        ;
    } else {
        assert(n / d == -n) by (nonlinear_arith)
            requires
                d == -1,
        ;
    }
}

/// Quotient and remainder make up the dividend, and the remainder is
/// smaller than the divisor.
pub proof fn lemma_quotient_and_remainder(a: int, b: int)
    requires
        b != 0,
    ensures
        a == b * quotient(a, b) + remainder(a, b),
        a >= 0 ==> 0 <= remainder(a, b),
        a <= 0 ==> remainder(a, b) <= 0,
        b > 0 ==> -b < remainder(a, b) < b,
        b < 0 ==> b < remainder(a, b) < -b,
{
    if a == 0 {
        assert(0int % b == 0) by (nonlinear_arith)
            requires
                b != 0,
        ;
    }
    if a >= 0 {
        vstd::arithmetic::div_mod::lemma_fundamental_div_mod(a, b);
    } else {
        vstd::arithmetic::div_mod::lemma_fundamental_div_mod(-a, b);
        assert(b * (-((-a) / b)) == -(b * ((-a) / b))) by (nonlinear_arith);
    }
    if b > 0 {
        vstd::arithmetic::div_mod::lemma_mod_bound(a, b);
        vstd::arithmetic::div_mod::lemma_mod_bound(-a, b);
    } else {
        lemma_mod_of_negative(a, b);
        lemma_mod_of_negative(-a, b);
    }
}

/// The remainder by a negative divisor lies between 0 and the size of the
/// divisor.
proof fn lemma_mod_of_negative(a: int, b: int)
    requires
        b < 0,
    ensures
        0 <= a % b < -b,
{
    assert(0 <= a % b < -b) by (nonlinear_arith)
        requires
            b < 0,
    ;
}

/// The direction in which a layout puts one widget after another.
#[derive(Clone, Copy, Debug, PartialEq, Eq, Structural)]
pub enum LayoutKind {
    /// One below the other.
    Vert,
    /// Side by side.
    Horz,
}

/// A side of a box.
#[derive(Clone, Copy, Debug, PartialEq, Eq, Structural)]
pub enum Side {
    Left,
    Right,
    Top,
    Bottom,
}

/// A row or a column of widgets: where it starts and how much room the
/// widgets placed so far take.
#[derive(Clone, Copy, Debug, PartialEq, Eq, Structural)]
pub struct Layout {
    pub kind: LayoutKind,
    pub pos: Point,
    pub size: Point,
}

impl Layout {
    /// Where the next widget goes: behind the widgets placed so far.
    pub open spec fn next_pos(self) -> (int, int) {
        match self.kind {
            LayoutKind::Horz => (self.pos.x + self.size.x, self.pos.y as int),
            LayoutKind::Vert => (self.pos.x as int, self.pos.y + self.size.y),
        }
    }

    /// The room that the layout takes once a widget of `size` is added: in
    /// its direction the sizes add up, across it the largest counts.
    pub open spec fn grown(self, size: Point) -> (int, int) {
        match self.kind {
            LayoutKind::Horz => (
                self.size.x + size.x,
                if self.size.y >= size.y {
                    self.size.y as int
                } else {
                    size.y as int
                },
            ),
            LayoutKind::Vert => (
                if self.size.x >= size.x {
                    self.size.x as int
                } else {
                    size.x as int
                },
                self.size.y + size.y,
            ),
        }
    }

    /// Where the next widget goes.
    pub fn available_pos(&self) -> (p: Point)
        requires
            self.next_pos().0 <= u16::MAX,
            self.next_pos().1 <= u16::MAX,
        ensures
            (p.x as int, p.y as int) == self.next_pos(),
    {
        match self.kind {
            LayoutKind::Horz => Point { x: self.pos.x + self.size.x, y: self.pos.y },
            LayoutKind::Vert => Point { x: self.pos.x, y: self.pos.y + self.size.y },
        }
    }

    /// Makes room for a widget of `size`.
    pub fn add_widget(&mut self, size: Point)
        requires
            old(self).grown(size).0 <= u16::MAX,
            old(self).grown(size).1 <= u16::MAX,
        ensures
            final(self).kind == old(self).kind,
            final(self).pos == old(self).pos,
            (final(self).size.x as int, final(self).size.y as int) == old(self).grown(size),
    {
        match self.kind {
            LayoutKind::Horz => {
                self.size.x += size.x;
                if size.y > self.size.y {
                    self.size.y = size.y;
                }
            },
            LayoutKind::Vert => {
                if size.x > self.size.x {
                    self.size.x = size.x;
                }
                self.size.y += size.y;
            },
        }
    }
}

} // verus!
