//! What every on-screen element offers to the store.

use vstd::prelude::*;
use crate::geometry::{Point, Size};

verus! {

/// An on-screen element.
///
/// The spec functions are the element's observable state; the contracts of
/// the methods are what the store relies on. An element may react to a
/// pointer callback in any way: it says itself, by the `after_` relations,
/// what each callback may make of it.
pub trait Widget {
    /// Where the element's rectangle starts.
    spec fn origin(&self) -> Point;

    /// How far the element's rectangle extends.
    spec fn size(&self) -> Size;

    /// Whether the element is waiting to be redrawn.
    spec fn invalidated(&self) -> bool;

    fn get_origin(&self) -> (p: Point)
        ensures
            p == self.origin(),
    ;

    fn get_size(&self) -> (s: Size)
        ensures
            s == self.size(),
    ;

    /// Resizes the element in place.
    fn set_size(&mut self, w: i32, h: i32)
        requires
            w >= 0,
            h >= 0,
        ensures
            final(self).size() == (Size { w, h }),
            final(self).origin() == old(self).origin(),
    ;

    /// Marks the element for the next draw pass without moving it.
    fn invalidate(&mut self)
        ensures
            final(self).invalidated(),
            final(self).origin() == old(self).origin(),
            final(self).size() == old(self).size(),
    ;

    fn is_invalidated(&self) -> (r: bool)
        ensures
            r == self.invalidated(),
    ;

    /// Whether `self` is what `before` may become when it is told that the
    /// pointer came onto it, the store knowing it as `id`.
    spec fn after_mouse_entered(&self, before: &Self, id: i32) -> bool;

    /// Whether `self` is what `before` may become when it is told that the
    /// pointer left it.
    spec fn after_mouse_exited(&self, before: &Self, id: i32) -> bool;

    /// Whether `self` is what `before` may become when it is told that the
    /// wheel turned by `point`.
    spec fn after_mouse_scrolled(&self, before: &Self, id: i32, point: Point) -> bool;

    /// Whether `self` is what `before` may become when it is told that the
    /// pointer moved to `point`, over it.
    spec fn after_mouse_moved(&self, before: &Self, id: i32, point: Point) -> bool;

    /// The pointer came onto the element, which the store knows as `id`.
    fn mouse_entered(&mut self, id: i32)
        ensures
            final(self).after_mouse_entered(old(self), id),
    ;

    /// The pointer left the element.
    fn mouse_exited(&mut self, id: i32)
        ensures
            final(self).after_mouse_exited(old(self), id),
    ;

    /// The wheel turned by `point` while the element held the pointer.
    fn mouse_scrolled(&mut self, id: i32, point: Point)
        ensures
            final(self).after_mouse_scrolled(old(self), id, point),
    ;

    /// The pointer moved to `point`, over the element.
    fn mouse_moved(&mut self, id: i32, point: Point)
        ensures
            final(self).after_mouse_moved(old(self), id, point),
    ;
}

/// An element that can render itself on a surface of type `C`.
pub trait Drawable<C>: Widget {
    /// Renders the element on `surface` and clears its mark.
    fn draw(&mut self, surface: &mut C)
        ensures
            !final(self).invalidated(),
    ;
}

/// The plain element that a store starts with: a rectangle and a mark.
pub struct BaseWidget {
    origin: Point,
    size: Size,
    invalidated: bool,
}

impl BaseWidget {
    /// An empty element at the origin, waiting for its first draw.
    pub fn new() -> (r: Self)
        ensures
            r.placed_at() == (Point { x: 0, y: 0 }),
            r.extent() == (Size { w: 0, h: 0 }),
            r.marked(),
    {
        BaseWidget { origin: Point { x: 0, y: 0 }, size: Size { w: 0, h: 0 }, invalidated: true }
    }

    pub closed spec fn placed_at(&self) -> Point {
        self.origin
    }

    pub closed spec fn extent(&self) -> Size {
        self.size
    }

    pub closed spec fn marked(&self) -> bool {
        self.invalidated
    }
}

impl Widget for BaseWidget {
    open spec fn origin(&self) -> Point {
        self.placed_at()
    }

    open spec fn size(&self) -> Size {
        self.extent()
    }

    open spec fn invalidated(&self) -> bool {
        self.marked()
    }

    fn get_origin(&self) -> (p: Point) {
        self.origin
    }

    fn get_size(&self) -> (s: Size) {
        self.size
    }

    fn set_size(&mut self, w: i32, h: i32) {
        self.size = Size { w, h };
    }

    fn invalidate(&mut self) {
        self.invalidated = true;
    }

    fn is_invalidated(&self) -> (r: bool) {
        self.invalidated
    }

    open spec fn after_mouse_entered(&self, before: &Self, id: i32) -> bool {
        self == before
    }

    open spec fn after_mouse_exited(&self, before: &Self, id: i32) -> bool {
        self == before
    }

    open spec fn after_mouse_scrolled(&self, before: &Self, id: i32, point: Point) -> bool {
        self == before
    }

    open spec fn after_mouse_moved(&self, before: &Self, id: i32, point: Point) -> bool {
        self == before
    }

    /// The plain element does not react to the pointer.
    fn mouse_entered(&mut self, id: i32) {
    }

    fn mouse_exited(&mut self, id: i32) {
    }

    fn mouse_scrolled(&mut self, id: i32, point: Point) {
    }

    fn mouse_moved(&mut self, id: i32, point: Point) {
    }
}

impl<C> Drawable<C> for BaseWidget {
    /// Paints nothing of its own: whoever owns the surface clears it.
    fn draw(&mut self, surface: &mut C) {
        self.invalidated = false;
    }
}

} // verus!
