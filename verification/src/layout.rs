//! Nested rows and columns that share the room of the screen: every layout
//! divides its room evenly among the layouts inside it.

use vstd::prelude::*;
use crate::geometry::{quotient, remainder, LayoutKind, Vec2};

verus! {

/// A row or a column of widgets and of other layouts.
#[derive(Debug)]
pub struct Layout {
    pub kind: LayoutKind,
    /// The upper left corner.
    pub pos: Vec2,
    /// The room that the widgets placed so far take.
    pub size: Vec2,
    /// The room that the layout may take.
    pub max_size: Vec2,
    /// The layouts inside this one that are complete.
    pub children: Vec<Layout>,
}

/// The smaller of two numbers.
pub open spec fn min_of(a: int, b: int) -> int {
    if a <= b {
        a
    } else {
        b
    }
}

/// The larger of two numbers.
pub open spec fn max_of(a: int, b: int) -> int {
    if a >= b {
        a
    } else {
        b
    }
}

impl Layout {
    /// The number of parts that the room is divided into: one for every
    /// layout inside, and one for what comes next.
    pub open spec fn parts(&self) -> int {
        self.children.len() + 1
    }

    /// The room of one part.
    pub open spec fn part_size(&self) -> (int, int) {
        match self.kind {
            LayoutKind::Horz => (quotient(self.max_size.x as int, self.parts()), self.max_size.y as int),
            LayoutKind::Vert => (self.max_size.x as int, quotient(self.max_size.y as int, self.parts())),
        }
    }

    /// The room that is left over when every part has its share.
    pub open spec fn part_rest(&self) -> (int, int) {
        match self.kind {
            LayoutKind::Horz => (remainder(self.max_size.x as int, self.parts()), 0),
            LayoutKind::Vert => (0, remainder(self.max_size.y as int, self.parts())),
        }
    }

    /// Where what comes next goes: behind what is placed, but not farther
    /// than one part reaches.
    pub open spec fn next_pos(&self) -> (int, int) {
        match self.kind {
            LayoutKind::Horz => (
                self.pos.x + min_of(self.size.x as int, self.part_size().0),
                self.pos.y as int,
            ),
            LayoutKind::Vert => (
                self.pos.x as int,
                self.pos.y + min_of(self.size.y as int, self.part_size().1),
            ),
        }
    }

    /// The room taken once a widget of `size` is added: in the direction of
    /// the layout the sizes add up, across it the largest counts.
    pub open spec fn grown(&self, size: Vec2) -> (int, int) {
        match self.kind {
            LayoutKind::Horz => (self.size.x + size.x, max_of(self.size.y as int, size.y as int)),
            LayoutKind::Vert => (max_of(self.size.x as int, size.x as int), self.size.y + size.y),
        }
    }

    /// The parts can be counted in a machine integer.
    pub open spec fn divisible(&self) -> bool {
        self.children.len() < i32::MAX
    }

    /// An empty layout at `pos` that may take `max_size`.
    pub fn new(kind: LayoutKind, pos: Vec2, max_size: Vec2) -> (layout: Self)
        ensures
            layout.kind == kind,
            layout.pos == pos,
            layout.max_size == max_size,
            layout.size == (Vec2 { x: 0, y: 0 }),
            layout.children@.len() == 0,
    {
        Self { kind, pos, max_size, size: Vec2 { x: 0, y: 0 }, children: Vec::new() }
    }

    /// The room of one part, and the room left over. Quotients are cut
    /// towards zero, so a negative room gives negative parts.
    pub fn available_size(&self) -> (r: (Vec2, Vec2))
        requires
            self.divisible(),
        ensures
            (r.0.x as int, r.0.y as int) == self.part_size(),
            (r.1.x as int, r.1.y as int) == self.part_rest(),
    {
        let div: i32 = self.children.len() as i32 + 1;
        match self.kind {
            LayoutKind::Horz => self.max_size.div_rem(Vec2 { x: div, y: 1 }),
            LayoutKind::Vert => self.max_size.div_rem(Vec2 { x: 1, y: div }),
        }
    }

    /// Where what comes next goes.
    pub fn available_pos(&self) -> (p: Vec2)
        requires
            self.divisible(),
            i32::MIN <= self.next_pos().0 <= i32::MAX,
            i32::MIN <= self.next_pos().1 <= i32::MAX,
        ensures
            (p.x as int, p.y as int) == self.next_pos(),
    {
        let child_size = self.available_size().0;
        match self.kind {
            LayoutKind::Horz => {
                let x: i32 = if self.size.x <= child_size.x {
                    self.size.x
                } else {
                    child_size.x
                };
                Vec2 { x: self.pos.x + x, y: self.pos.y }
            },
            LayoutKind::Vert => {
                let y: i32 = if self.size.y <= child_size.y {
                    self.size.y
                } else {
                    child_size.y
                };
                Vec2 { x: self.pos.x, y: self.pos.y + y }
            },
        }
    }

    /// Makes room for a widget of `size`.
    pub fn add_widget(&mut self, size: Vec2)
        requires
            i32::MIN <= old(self).grown(size).0 <= i32::MAX,
            i32::MIN <= old(self).grown(size).1 <= i32::MAX,
        ensures
            (final(self).size.x as int, final(self).size.y as int) == old(self).grown(size),
            final(self).kind == old(self).kind,
            final(self).pos == old(self).pos,
            final(self).max_size == old(self).max_size,
            final(self).children == old(self).children,
    {
        match self.kind {
            LayoutKind::Horz => {
                self.size.x += size.x;
                if size.y > self.size.y {
                    self.size.y = size.y;
                }
            },
            LayoutKind::Vert => {
                if size.x > self.size.x {
                    self.size.x = size.x;
                }
                self.size.y += size.y;
            },
        }
    }
}

/// The layout and every layout inside it can divide its room.
pub open spec fn sound(l: &Layout) -> bool
    decreases l,
{
    &&& l.divisible()
    &&& forall|i: int| 0 <= i < l.children.len() ==> sound(#[trigger] &l.children[i])
}

/// Whether `after` is `before` given the room `size`: its width is cut to
/// what one part was wide before, and every layout inside it is given the
/// room that one part had before.
pub open spec fn is_resized(before: &Layout, after: &Layout, size: Vec2) -> bool
    decreases before,
{
    &&& after.kind == before.kind
    &&& after.pos == before.pos
    &&& after.max_size == size
    &&& after.size.x == min_of(before.size.x as int, before.part_size().0)
    &&& after.size.y == before.size.y
    &&& after.children.len() == before.children.len()
    &&& forall|i: int|
        0 <= i < before.children.len() ==> is_resized(
            #[trigger] &before.children[i],
            &after.children[i],
            Vec2 { x: before.part_size().0 as i32, y: before.part_size().1 as i32 },
        )
}

impl Layout {
    /// Whether the layout and every layout inside it can divide its room.
    pub fn is_sound(&self) -> (b: bool)
        ensures
            b == sound(self),
        decreases self,
    {
        if self.children.len() >= 0x7fff_ffff {
            return false;
        }
        let mut i: usize = 0;
        while i < self.children.len()
            invariant
                i <= self.children.len(),
                self.divisible(),
                forall|t: int| 0 <= t < i ==> sound(#[trigger] &self.children[t]),
            decreases self.children.len() - i,
        {
            if !self.children[i].is_sound() {
                return false;
            }
            i += 1;
        }
        true
    }

    /// Gives the layout the room `size`, and every layout inside it the room
    /// of one part.
    pub fn resize(&mut self, size: Vec2)
        requires
            sound(old(self)),
        ensures
            is_resized(old(self), final(self), size),
            sound(final(self)),
        decreases *old(self),
    {
        let child_size = self.available_size().0;
        self.max_size = size;
        if child_size.x < self.size.x {
            self.size.x = child_size.x;
        }
        let n: usize = self.children.len();
        let mut i: usize = 0;
        while i < n
            invariant
                i <= n == self.children.len() == old(self).children.len(),
                self.kind == old(self).kind,
                self.pos == old(self).pos,
                self.max_size == size,
                self.size.x == min_of(old(self).size.x as int, old(self).part_size().0),
                self.size.y == old(self).size.y,
                (child_size.x as int, child_size.y as int) == old(self).part_size(),
                forall|t: int|
                    0 <= t < i ==> is_resized(
                        #[trigger] &old(self).children[t],
                        &self.children[t],
                        child_size,
                    ) && sound(&self.children[t]),
                forall|t: int| i <= t < n ==> self.children[t] == old(self).children[t],
                sound(old(self)),
            decreases n - i,
        {
            assert(sound(&old(self).children[i as int]));
            self.children[i].resize(child_size);
            i += 1;
        }
        assert forall|t: int| 0 <= t < self.children.len() implies sound(
            #[trigger] &self.children[t],
        ) by {
            assert(is_resized(&old(self).children[t], &self.children[t], child_size));
        }
    }

    /// Takes in a layout that is complete: the layouts already inside are
    /// given the room of one part as it is now, and the new one counts as a
    /// widget that is as wide as the room it was given and as high as its
    /// content.
    pub fn add_child(&mut self, child: Layout)
        requires
            sound(old(self)),
            i32::MIN <= old(self).grown_after_resize(child).0 <= i32::MAX,
            i32::MIN <= old(self).grown_after_resize(child).1 <= i32::MAX,
        ensures
            sound(&child) && old(self).children.len() + 1 < i32::MAX ==> sound(final(self)),
            final(self).kind == old(self).kind,
            final(self).pos == old(self).pos,
            final(self).max_size == old(self).max_size,
            (final(self).size.x as int, final(self).size.y as int) == old(self).grown_after_resize(
                child,
            ),
            final(self).children.len() == old(self).children.len() + 1,
            final(self).children[old(self).children.len() as int] == child,
            forall|i: int|
                0 <= i < old(self).children.len() ==> is_resized(
                    #[trigger] &old(self).children[i],
                    &final(self).children[i],
                    Vec2 { x: old(self).part_size().0 as i32, y: old(self).part_size().1 as i32 },
                ),
    {
        let size = Vec2 { x: child.max_size.x, y: child.size.y };
        let room = self.max_size;
        self.resize(room);
        self.add_widget(size);
        self.children.push(child);
    }

    /// The room taken once `child` is taken in.
    pub open spec fn grown_after_resize(&self, child: Layout) -> (int, int) {
        let cut = min_of(self.size.x as int, self.part_size().0);
        match self.kind {
            LayoutKind::Horz => (cut + child.max_size.x, max_of(self.size.y as int, child.size.y as int)),
            LayoutKind::Vert => (
                max_of(cut, child.max_size.x as int),
                self.size.y + child.size.y,
            ),
        }
    }
}

} // verus!
