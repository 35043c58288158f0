//! The widget store: a flat, append-only sequence of widgets with parent
//! links, and the queries and callbacks that go by widget id.

use vstd::prelude::*;
use crate::geometry::{region_contains, Point, Size};
use crate::model::{
    all_invalidated, children_below, children_of, descent, draw_order, lemma_push_contains, links,
    pass_state, top_widget_at, WidgetState, NO_WIDGET,
};
use crate::widget::{Drawable, Widget};

verus! {

/// A widget in its slot, with the id it was given and the id of its parent.
pub struct WidgetContainer<W> {
    pub widget: W,
    widget_id: i32,
    parent_id: i32,
}

impl<W: Widget> WidgetContainer<W> {
    /// The id that the widget was given.
    pub closed spec fn id(&self) -> int {
        self.widget_id as int
    }

    /// The widget's own state, with its parent link.
    pub closed spec fn state(&self) -> WidgetState {
        WidgetState {
            origin: self.widget.origin(),
            size: self.widget.size(),
            invalidated: self.widget.invalidated(),
            parent_id: self.parent_id,
        }
    }
}

/// The widgets of one window. A widget's id is its position; ids are handed
/// out in ascending order and never taken back.
pub struct PushrodWindow<W> {
    widgets: Vec<WidgetContainer<W>>,
}

/// The width that a new store gives its root.
pub const BASE_WIDTH: i32 = 800;

/// The height that a new store gives its root.
pub const BASE_HEIGHT: i32 = 600;

/// The length of a buffer that holds one byte for each pixel of a surface
/// of `width` by `height`; `None` where no buffer can be that long.
pub fn texture_buffer_len(width: u32, height: u32) -> (len: Option<usize>)
    ensures
        len == if width * height <= usize::MAX {
            Some((width * height) as usize)
        } else {
            None
        },
{
    assert(width * height <= 0xffff_ffff * 0xffff_ffff) by (nonlinear_arith)
        requires
            width <= 0xffff_ffff,
            height <= 0xffff_ffff,
    ;
    let total: u64 = width as u64 * height as u64;
    if total <= usize::MAX as u64 {
        Some(total as usize)
    } else {
        None
    }
}

impl<W: Widget> View for PushrodWindow<W> {
    type V = Seq<WidgetState>;

    closed spec fn view(&self) -> Seq<WidgetState> {
        Seq::new(self.widgets@.len(), |i: int| self.widgets@[i].state())
    }
}

impl<W: Widget> PushrodWindow<W> {
    /// The store holds its root, every id fits the id type, and each widget
    /// sits at the position that its id names.
    pub closed spec fn wf(&self) -> bool {
        &&& 1 <= self.widgets@.len() <= i32::MAX
        &&& self.widgets@[0].parent_id == 0
        &&& forall|i: int| 0 <= i < self.widgets@.len() ==> (#[trigger] self.widgets@[i]).id() == i
    }

    /// What validity says of the view.
    pub proof fn lemma_wf_view(&self)
        requires
            self.wf(),
        ensures
            1 <= self@.len() <= i32::MAX,
            self@[0].parent_id == 0,
    {
    }

    /// What a new store with `base_widget` as its root holds.
    pub open spec fn new_view(base_widget: W) -> Seq<WidgetState> {
        seq![
            WidgetState {
                origin: base_widget.origin(),
                size: Size { w: BASE_WIDTH, h: BASE_HEIGHT },
                invalidated: true,
                parent_id: 0,
            },
        ]
    }

    /// A store with `base_widget` as its root: id 0, its own parent, resized
    /// to 800 by 600 and marked for its first draw.
    pub fn new(base_widget: W) -> (r: Self)
        ensures
            r.wf(),
            r@ == Self::new_view(base_widget),
    {
        let mut widgets_list: Vec<WidgetContainer<W>> = Vec::new();
        let mut root = base_widget;
        root.set_size(BASE_WIDTH, BASE_HEIGHT);
        root.invalidate();
        widgets_list.push(WidgetContainer { widget: root, widget_id: 0, parent_id: 0 });
        let r = PushrodWindow { widgets: widgets_list };
        proof {
            assert(r@ =~= Self::new_view(base_widget));
        }
        r
    }

    /// How many widgets the store holds.
    pub fn widget_count(&self) -> (n: usize)
        ensures
            n == self@.len(),
    {
        self.widgets.len()
    }

    /// Appends `widget` as a child of the root and returns its id.
    pub fn add_widget(&mut self, widget: W) -> (id: i32)
        requires
            old(self).wf(),
            old(self)@.len() < i32::MAX,
        ensures
            final(self).wf(),
            id == old(self)@.len(),
            final(self)@ == old(self)@.push(
                WidgetState {
                    origin: widget.origin(),
                    size: widget.size(),
                    invalidated: widget.invalidated(),
                    parent_id: 0,
                },
            ),
    {
        self.add_widget_to_parent(widget, 0)
    }

    /// Appends `widget` with `parent_id` as its parent link and returns its
    /// id. The link is stored as given, whether or not such a widget exists.
    pub fn add_widget_to_parent(&mut self, widget: W, parent_id: i32) -> (id: i32)
        requires
            old(self).wf(),
            old(self)@.len() < i32::MAX,
        ensures
            final(self).wf(),
            id == old(self)@.len(),
            final(self)@ == old(self)@.push(
                WidgetState {
                    origin: widget.origin(),
                    size: widget.size(),
                    invalidated: widget.invalidated(),
                    parent_id,
                },
            ),
    {
        let widget_size: i32 = self.widgets.len() as i32;
        self.widgets.push(WidgetContainer { widget, widget_id: widget_size, parent_id });
        widget_size
    }

    /// The parent link of `widget_id`; the root and every id below it have
    /// parent 0.
    pub fn get_parent_of(&self, widget_id: i32) -> (parent_id: i32)
        requires
            self.wf(),
            widget_id < self@.len(),
        ensures
            parent_id == if widget_id <= 0 {
                0
            } else {
                self@[widget_id as int].parent_id
            },
    {
        if widget_id <= 0 {
            0
        } else {
            self.widgets[widget_id as usize].parent_id
        }
    }

    /// The ids of the widgets whose parent link is `parent_id`, ascending.
    pub fn get_children_of(&self, parent_id: i32) -> (children: Vec<i32>)
        requires
            self.wf(),
        ensures
            children@ == children_of(self@, parent_id),
    {
        let mut children: Vec<i32> = Vec::new();
        let mut pos: usize = 0;
        while pos < self.widgets.len()
            invariant
                self.wf(),
                pos <= self.widgets@.len(),
                children@ == children_below(self@, parent_id, pos as int),
            decreases self.widgets@.len() - pos,
        {
            if self.widgets[pos].parent_id == parent_id {
                children.push(self.widgets[pos].widget_id);
            }
            pos += 1;
        }
        children
    }

    /// The id of the widget under `point`: of those whose rectangle holds the
    /// point, the one inserted last. `-1` when there is none.
    pub fn get_widget_id_for_point(&self, point: Point) -> (id: i32)
        requires
            self.wf(),
        ensures
            id == top_widget_at(self@, point),
    {
        let mut found_id: i32 = NO_WIDGET;
        let mut pos: usize = 0;
        while pos < self.widgets.len()
            invariant
                self.wf(),
                pos <= self.widgets@.len(),
                found_id == top_widget_at(self@.take(pos as int), point),
            decreases self.widgets@.len() - pos,
        {
            let widget_point = self.widgets[pos].widget.get_origin();
            let widget_size = self.widgets[pos].widget.get_size();
            proof {
                assert(self@.take(pos + 1).drop_last() =~= self@.take(pos as int));
            }
            if region_contains(widget_point, widget_size, point) {
                found_id = pos as i32;
            }
            pos += 1;
        }
        proof {
            assert(self@.take(pos as int) =~= self@);
        }
        found_id
    }

    /// Whether `self` is `before` with nothing changed but, possibly, the
    /// widget `id` itself: the same widgets, the same links.
    pub open spec fn differs_only_at(&self, before: &Self, id: int) -> bool {
        &&& self@.len() == before@.len()
        &&& forall|j: int| 0 <= j < self@.len() && j != id ==> self@[j] == before@[j]
        &&& 0 <= id < self@.len() ==> self@[id].parent_id == before@[id].parent_id
    }

    /// Tells widget `id` that the pointer came onto it: the widget becomes
    /// what its own callback makes of it.
    pub fn mouse_entered_for_id(&mut self, id: i32)
        requires
            old(self).wf(),
            0 <= id < old(self)@.len(),
        ensures
            final(self).wf(),
            final(self).differs_only_at(old(self), id as int),
            final(self).widget_at(id as int).after_mouse_entered(
                &old(self).widget_at(id as int),
                id,
            ),
    {
        self.widgets[id as usize].widget.mouse_entered(id);
    }

    /// Tells widget `id` that the pointer left it.
    pub fn mouse_exited_for_id(&mut self, id: i32)
        requires
            old(self).wf(),
            0 <= id < old(self)@.len(),
        ensures
            final(self).wf(),
            final(self).differs_only_at(old(self), id as int),
            final(self).widget_at(id as int).after_mouse_exited(
                &old(self).widget_at(id as int),
                id,
            ),
    {
        self.widgets[id as usize].widget.mouse_exited(id);
    }

    /// Tells widget `id` that the wheel turned by `point`.
    pub fn mouse_scrolled_for_id(&mut self, id: i32, point: Point)
        requires
            old(self).wf(),
            0 <= id < old(self)@.len(),
        ensures
            final(self).wf(),
            final(self).differs_only_at(old(self), id as int),
            final(self).widget_at(id as int).after_mouse_scrolled(
                &old(self).widget_at(id as int),
                id,
                point,
            ),
    {
        self.widgets[id as usize].widget.mouse_scrolled(id, point);
    }

    /// Tells widget `id` that the pointer moved to `point`, over it.
    pub fn mouse_moved_for_id(&mut self, id: i32, point: Point)
        requires
            old(self).wf(),
            0 <= id < old(self)@.len(),
        ensures
            final(self).wf(),
            final(self).differs_only_at(old(self), id as int),
            final(self).widget_at(id as int).after_mouse_moved(
                &old(self).widget_at(id as int),
                id,
                point,
            ),
    {
        self.widgets[id as usize].widget.mouse_moved(id, point);
    }

    /// The widget that the store holds under `id`.
    pub closed spec fn widget_at(&self, id: int) -> W {
        self.widgets@[id].widget
    }

    /// The view shows each widget's own state.
    pub proof fn lemma_view_of_widget(&self, id: int)
        requires
            0 <= id < self@.len(),
        ensures
            self@[id].origin == self.widget_at(id).origin(),
            self@[id].size == self.widget_at(id).size(),
            self@[id].invalidated == self.widget_at(id).invalidated(),
    {
    }

    /// The widget with the given id.
    pub fn get_widget_for_id(&self, id: i32) -> (widget: &W)
        requires
            self.wf(),
            0 <= id < self@.len(),
        ensures
            *widget == self.widget_at(id as int),
            widget.origin() == self@[id as int].origin,
            widget.size() == self@[id as int].size,
            widget.invalidated() == self@[id as int].invalidated,
    {
        &self.widgets[id as usize].widget
    }

    /// Marks every widget for redraw, leaving each where it is.
    pub fn invalidate_all_widgets(&mut self)
        requires
            old(self).wf(),
        ensures
            final(self).wf(),
            final(self)@ == all_invalidated(old(self)@),
    {
        let mut pos: usize = 0;
        while pos < self.widgets.len()
            invariant
                self.wf(),
                pos <= self.widgets@.len(),
                self@.len() == old(self)@.len(),
                forall|j: int|
                    0 <= j < pos ==> #[trigger] self@[j] == all_invalidated(old(self)@)[j],
                forall|j: int| pos <= j < self@.len() ==> #[trigger] self@[j] == old(self)@[j],
            decreases self.widgets@.len() - pos,
        {
            let ghost before = self@;
            assert(before[pos as int] == old(self)@[pos as int]);
            self.widgets[pos].widget.invalidate();
            proof {
                assert forall|j: int| 0 <= j < self@.len() && j != pos implies #[trigger] self@[j]
                    == before[j] by {}
                assert(self@[pos as int] == all_invalidated(old(self)@)[pos as int]);
            }
            pos += 1;
        }
    }

    /// Visits widget `id` in a draw pass: draws it if it is marked.
    fn draw_widget<C>(
        &mut self,
        id: usize,
        surface: &mut C,
        drawn: &mut Vec<i32>,
        Ghost(start): Ghost<Seq<WidgetState>>,
        Ghost(done): Ghost<Seq<i32>>,
    ) where W: Drawable<C>
        requires
            old(self).wf(),
            id < old(self)@.len(),
            pass_state(old(self)@, start, done, old(drawn)@),
        ensures
            final(self).wf(),
            pass_state(final(self)@, start, done.push(id as i32), final(drawn)@),
    {
        let ghost before = self@;
        proof {
            assert(done.push(id as i32).drop_last() =~= done);
            assert(before[id as int].invalidated == self.widgets@[id as int].widget.invalidated());
            if drawn@.contains(id as i32) {
                assert(!before[id as int].invalidated);
            } else {
                assert(before[id as int] == start[id as int]);
            }
        }
        if self.widgets[id].widget.is_invalidated() {
            self.widgets[id].widget.draw(surface);
            drawn.push(id as i32);
            proof {
                assert(!old(drawn)@.contains(id as i32));
                assert(before[id as int] == start[id as int]);
                assert forall|j: int| 0 <= j < self@.len() implies if drawn@.contains(j as i32) {
                    !(#[trigger] self@[j]).invalidated
                } else {
                    self@[j] == start[j]
                } by {
                    lemma_push_contains(old(drawn)@, id as i32, j as i32);
                    if j != id {
                        assert(self@[j] == before[j]);
                    }
                }
                assert(links(self@) =~= links(before));
            }
        } else {
            proof {
                assert(self@ =~= before);
            }
        }
    }

    /// Walks below `node`, over its children with an id of `from` or more.
    fn draw_below<C>(
        &mut self,
        node: usize,
        from: usize,
        surface: &mut C,
        drawn: &mut Vec<i32>,
        Ghost(start): Ghost<Seq<WidgetState>>,
        Ghost(done): Ghost<Seq<i32>>,
    ) where W: Drawable<C>
        requires
            old(self).wf(),
            node < from,
            pass_state(old(self)@, start, done, old(drawn)@),
        ensures
            final(self).wf(),
            pass_state(
                final(self)@,
                start,
                done + descent(links(start), node as int, from as int),
                final(drawn)@,
            ),
        decreases old(self)@.len() - node,
    {
        let ghost all = descent(links(start), node as int, from as int);
        let ghost mut seen: Seq<i32> = Seq::empty();
        let mut pos: usize = from;
        proof {
            assert(done + seen =~= done);
        }
        while pos < self.widgets.len()
            invariant
                self.wf(),
                node < from <= pos,
                self@.len() == old(self)@.len(),
                pass_state(self@, start, done + seen, drawn@),
                seen + descent(links(start), node as int, pos as int) == all,
            decreases self@.len() - pos,
        {
            proof {
                assert(links(self@)[pos as int] == self@[pos as int].parent_id);
            }
            if self.widgets[pos].parent_id >= 0 && self.widgets[pos].parent_id as usize == node {
                let ghost below = descent(links(start), pos as int, pos + 1);
                self.draw_widget(pos, surface, drawn, Ghost(start), Ghost(done + seen));
                self.draw_below(
                    pos,
                    pos + 1,
                    surface,
                    drawn,
                    Ghost(start),
                    Ghost((done + seen).push(pos as i32)),
                );
                proof {
                    let next = seen.push(pos as i32) + below;
                    assert((done + seen).push(pos as i32) + below =~= done + next);
                    assert(next + descent(links(start), node as int, pos + 1) =~= seen + (
                    seq![pos as i32] + below + descent(links(start), node as int, pos + 1)));
                    seen = next;
                }
            }
            pos += 1;
        }
        proof {
            assert(seen + Seq::<i32>::empty() =~= seen);
        }
    }

    /// Runs a draw pass from `widget_id`: visits that widget and then, by
    /// ascending id, its children, each followed at once by its own
    /// children. A visited widget is drawn on `surface` if it is marked for
    /// redraw. Returns the ids drawn, in the order in which they were drawn.
    ///
    /// A widget whose parent link names itself, a later widget or none is
    /// reached only as the start of a pass. Starting from an id that the
    /// store does not hold draws nothing.
    pub fn draw<C>(&mut self, widget_id: i32, surface: &mut C) -> (drawn: Vec<i32>) where
        W: Drawable<C>,

        requires
            old(self).wf(),
        ensures
            final(self).wf(),
            pass_state(
                final(self)@,
                old(self)@,
                draw_order(links(old(self)@), widget_id as int),
                drawn@,
            ),
    {
        let mut drawn: Vec<i32> = Vec::new();
        if widget_id < 0 || widget_id as usize >= self.widgets.len() {
            return drawn;
        }
        let root: usize = widget_id as usize;
        let ghost start = self@;
        let ghost first = Seq::<i32>::empty().push(widget_id);
        self.draw_widget(root, surface, &mut drawn, Ghost(start), Ghost(Seq::empty()));
        self.draw_below(root, root + 1, surface, &mut drawn, Ghost(start), Ghost(first));
        proof {
            assert(first =~= seq![widget_id]);
        }
        drawn
    }
}

} // verus!
