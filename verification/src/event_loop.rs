//! The dispatch loop's decisions: one raw input event in, the widget
//! callbacks and redraws that it calls for out.

use vstd::prelude::*;
use crate::geometry::{make_origin_point, Point};
use crate::model::{
    all_invalidated, draw_order, lemma_all_marked_all_drawn, lemma_top_widget_is_last_match, links,
    painted, top_widget_at, WidgetState, NO_WIDGET,
};
use crate::widget::{Drawable, Widget};
use crate::window::PushrodWindow;

verus! {

/// What the platform reports in one tick: any of a cursor position, a scroll
/// delta, a new window size and a render tick.
#[derive(Clone, Copy, Debug)]
pub struct InputEvent {
    pub cursor: Option<Point>,
    pub scroll: Option<Point>,
    pub resize: Option<(u32, u32)>,
    pub render: bool,
}

/// One thing that the loop did to the store, in the order in which it did it.
#[derive(Clone, Copy, Debug, PartialEq, Eq, Structural)]
pub enum Dispatch {
    MouseMoved { id: i32, point: Point },
    MouseExited { id: i32 },
    MouseEntered { id: i32 },
    MouseScrolled { id: i32, point: Point },
    InvalidatedAll,
    Drew { id: i32 },
}

/// What the loop remembers of the pointer between ticks.
#[derive(Clone, Copy, Debug, PartialEq, Eq, Structural)]
pub struct PointerState {
    /// The widget that holds the pointer, `-1` for none.
    pub last_widget_id: i32,
    /// The last cursor position that was acted on.
    pub previous_mouse_position: Point,
}

/// The widget that a dispatch went to; `-1` where it went to all.
pub open spec fn target(d: Dispatch) -> int {
    match d {
        Dispatch::MouseMoved { id, .. } => id as int,
        Dispatch::MouseExited { id } => id as int,
        Dispatch::MouseEntered { id } => id as int,
        Dispatch::MouseScrolled { id, .. } => id as int,
        Dispatch::InvalidatedAll => -1,
        Dispatch::Drew { id } => id as int,
    }
}

/// Whether some dispatch of `log` went to widget `id`.
pub open spec fn names(log: Seq<Dispatch>, id: int) -> bool {
    exists|k: int| 0 <= k < log.len() && target(#[trigger] log[k]) == id
}

/// Whether `d` tells a widget that the pointer came or went.
pub open spec fn is_transition(d: Dispatch) -> bool {
    d is MouseExited || d is MouseEntered
}

/// Whether the event carries a cursor position other than `previous`.
pub open spec fn cursor_moves(previous: Point, event: InputEvent) -> bool {
    event.cursor matches Some(p) && p != previous
}

/// The widget under the event's cursor, `-1` for none or for no cursor.
pub open spec fn hit_of(widgets: Seq<WidgetState>, event: InputEvent) -> i32 {
    match event.cursor {
        Some(p) => top_widget_at(widgets, p) as i32,
        None => NO_WIDGET,
    }
}

/// What a cursor move to `point`, over widget `hit`, calls for when widget
/// `last` held the pointer: the move goes to the widget under the cursor;
/// if that is another widget than before, the old one is left first and the
/// new one entered after. Nothing is ever sent to `-1`.
pub open spec fn cursor_dispatches(last: i32, hit: i32, point: Point) -> Seq<Dispatch> {
    let moved = if hit != NO_WIDGET {
        seq![Dispatch::MouseMoved { id: hit, point }]
    } else {
        Seq::empty()
    };
    let exited = if hit != last && last != NO_WIDGET {
        seq![Dispatch::MouseExited { id: last }]
    } else {
        Seq::empty()
    };
    let entered = if hit != last && hit != NO_WIDGET {
        seq![Dispatch::MouseEntered { id: hit }]
    } else {
        Seq::empty()
    };
    moved + exited + entered
}

/// The pointer state after an event whose cursor, if any, is over `hit`.
pub open spec fn pointer_after(state: PointerState, hit: i32, event: InputEvent) -> PointerState {
    if cursor_moves(state.previous_mouse_position, event) {
        PointerState { last_widget_id: hit, previous_mouse_position: event.cursor->0 }
    } else {
        state
    }
}

/// What the input of one event calls for, in order: the cursor's dispatches
/// if the cursor moved, the scroll to the widget that holds the pointer by
/// then, and the invalidation that a resize forces.
pub open spec fn input_dispatches(state: PointerState, hit: i32, event: InputEvent) -> Seq<
    Dispatch,
> {
    let cursor = if cursor_moves(state.previous_mouse_position, event) {
        cursor_dispatches(state.last_widget_id, hit, event.cursor->0)
    } else {
        Seq::empty()
    };
    let holder = pointer_after(state, hit, event).last_widget_id;
    let scroll = match event.scroll {
        Some(delta) if holder != NO_WIDGET => seq![
            Dispatch::MouseScrolled { id: holder, point: delta },
        ],
        _ => Seq::empty(),
    };
    let resize = if event.resize.is_some() {
        seq![Dispatch::InvalidatedAll]
    } else {
        Seq::empty()
    };
    cursor + scroll + resize
}

/// What a render tick that drew `drawn` calls for: each draw, then the
/// invalidation that follows every frame.
pub open spec fn render_dispatches(drawn: Seq<i32>) -> Seq<Dispatch> {
    drawn.map_values(|id: i32| Dispatch::Drew { id }).push(Dispatch::InvalidatedAll)
}

/// Whether the widgets `now` are the widgets `before` but for those that
/// `log` names: the same links throughout, and every widget that no dispatch
/// went to as it was, or as it was and marked for redraw where `marked` says
/// that all were invalidated.
pub open spec fn kept(
    now: Seq<WidgetState>,
    before: Seq<WidgetState>,
    log: Seq<Dispatch>,
    marked: bool,
) -> bool {
    &&& now.len() == before.len()
    &&& links(now) == links(before)
    &&& marked ==> forall|j: int| 0 <= j < now.len() ==> (#[trigger] now[j]).invalidated
    &&& forall|j: int|
        0 <= j < now.len() && !names(log, j) ==> #[trigger] now[j] == if marked {
            all_invalidated(before)[j]
        } else {
            before[j]
        }
}

/// Whether the widgets `now` are the widgets `before` after a frame that
/// drew `drawn`: the same links, every widget marked for the next frame, and
/// every widget that was not drawn otherwise as it was.
pub open spec fn rendered(now: Seq<WidgetState>, before: Seq<WidgetState>, drawn: Seq<i32>) -> bool {
    &&& now.len() == before.len()
    &&& links(now) == links(before)
    &&& forall|j: int| 0 <= j < now.len() ==> (#[trigger] now[j]).invalidated
    &&& forall|j: int|
        0 <= j < now.len() && !drawn.contains(j as i32) ==> #[trigger] now[j] == all_invalidated(
            before,
        )[j]
}

/// Whether an event with a render tick, met in pointer state `state` over
/// the widgets `before`, dispatched `log` and left the widgets `now`, the
/// widgets being `mid` when its input was done and its frame began.
pub open spec fn framed(
    before: Seq<WidgetState>,
    state: PointerState,
    event: InputEvent,
    mid: Seq<WidgetState>,
    log: Seq<Dispatch>,
    now: Seq<WidgetState>,
) -> bool {
    let input = input_dispatches(state, hit_of(before, event), event);
    let drawn = painted(draw_order(links(before), 0), mid);
    &&& kept(mid, before, input, event.resize.is_some())
    &&& log == input + render_dispatches(drawn)
    &&& rendered(now, mid, drawn)
}

/// A log names what it named before a push, and the target of what was pushed.
pub proof fn lemma_names_push(log: Seq<Dispatch>, d: Dispatch, id: int)
    ensures
        names(log.push(d), id) <==> (names(log, id) || target(d) == id),
{
    let longer = log.push(d);
    if names(longer, id) {
        let k = choose|k: int| 0 <= k < longer.len() && target(#[trigger] longer[k]) == id;
        if k < log.len() {
            assert(target(log[k]) == id);
        }
    }
    if names(log, id) {
        let k = choose|k: int| 0 <= k < log.len() && target(#[trigger] log[k]) == id;
        assert(target(longer[k]) == id);
    }
    if target(d) == id {
        assert(target(longer[log.len() as int]) == id);
    }
}

/// A cursor move sends nothing to `-1`, tells at most one widget that the
/// pointer left and at most one that it came, the leaving before the coming,
/// and tells neither while the pointer stays on the same widget.
pub proof fn lemma_cursor_transitions(last: i32, hit: i32, point: Point)
    ensures
        forall|k: int|
            0 <= k < cursor_dispatches(last, hit, point).len() ==> target(
                #[trigger] cursor_dispatches(last, hit, point)[k],
            ) != NO_WIDGET,
        forall|i: int, j: int|
            0 <= i < j < cursor_dispatches(last, hit, point).len() && is_transition(
                #[trigger] cursor_dispatches(last, hit, point)[i],
            ) && is_transition(#[trigger] cursor_dispatches(last, hit, point)[j]) ==> {
                &&& cursor_dispatches(last, hit, point)[i] == (Dispatch::MouseExited { id: last })
                &&& cursor_dispatches(last, hit, point)[j] == (Dispatch::MouseEntered { id: hit })
            },
        hit == last ==> forall|k: int|
            0 <= k < cursor_dispatches(last, hit, point).len() ==> !is_transition(
                #[trigger] cursor_dispatches(last, hit, point)[k],
            ),
{
    let log = cursor_dispatches(last, hit, point);
    assert(log.len() <= 3);
    if hit != NO_WIDGET {
        assert(log[0] == (Dispatch::MouseMoved { id: hit, point }));
    }
}

/// A pointer that goes from one widget straight to another makes one move
/// on the new widget, one exit from the old and one entry into the new, in
/// that order.
pub proof fn lemma_crossing(last: i32, hit: i32, point: Point)
    requires
        last != NO_WIDGET,
        hit != NO_WIDGET,
        last != hit,
    ensures
        cursor_dispatches(last, hit, point) == seq![
            Dispatch::MouseMoved { id: hit, point },
            Dispatch::MouseExited { id: last },
            Dispatch::MouseEntered { id: hit },
        ],
{
    assert(cursor_dispatches(last, hit, point) =~= seq![
        Dispatch::MouseMoved { id: hit, point },
        Dispatch::MouseExited { id: last },
        Dispatch::MouseEntered { id: hit },
    ]);
}

/// An event whose cursor is where the last one was moves nothing: the
/// pointer state stays, and nothing is dispatched but a scroll or the
/// invalidation of a resize.
pub proof fn lemma_same_point_is_silent(state: PointerState, hit: i32, event: InputEvent)
    requires
        event.cursor == Some(state.previous_mouse_position),
    ensures
        pointer_after(state, hit, event) == state,
        forall|k: int|
            0 <= k < input_dispatches(state, hit, event).len() ==> {
                let d = #[trigger] input_dispatches(state, hit, event)[k];
                !is_transition(d) && !(d is MouseMoved)
            },
{
}

/// Of two events in a row that report the same cursor position, whatever
/// lay under it each time, the second tells no widget that the pointer came
/// or went and leaves the pointer state as the first left it.
pub proof fn lemma_repeated_point_is_silent(
    state: PointerState,
    first: InputEvent,
    first_hit: i32,
    second: InputEvent,
    second_hit: i32,
)
    requires
        first.cursor is Some,
        second.cursor == first.cursor,
    ensures
        pointer_after(pointer_after(state, first_hit, first), second_hit, second) == pointer_after(
            state,
            first_hit,
            first,
        ),
        forall|k: int|
            0 <= k < input_dispatches(
                pointer_after(state, first_hit, first),
                second_hit,
                second,
            ).len() ==> !is_transition(
                #[trigger] input_dispatches(
                    pointer_after(state, first_hit, first),
                    second_hit,
                    second,
                )[k],
            ),
{
    lemma_same_point_is_silent(pointer_after(state, first_hit, first), second_hit, second);
}

/// While no widget holds the pointer, a scroll goes nowhere.
pub proof fn lemma_scroll_needs_holder(state: PointerState, hit: i32, event: InputEvent)
    requires
        pointer_after(state, hit, event).last_widget_id == NO_WIDGET,
    ensures
        forall|k: int|
            0 <= k < input_dispatches(state, hit, event).len() ==> !(#[trigger] input_dispatches(
                state,
                hit,
                event,
            )[k] is MouseScrolled),
{
    let log = input_dispatches(state, hit, event);
    if cursor_moves(state.previous_mouse_position, event) {
        lemma_cursor_transitions(state.last_widget_id, hit, event.cursor->0);
    }
}

/// Where every widget is marked for redraw, as after a resize, a render
/// tick that brings no pointer input draws every widget of the draw order.
pub proof fn lemma_marked_frame_draws_all(
    before: Seq<WidgetState>,
    state: PointerState,
    event: InputEvent,
    mid: Seq<WidgetState>,
    log: Seq<Dispatch>,
    now: Seq<WidgetState>,
)
    requires
        before.len() <= i32::MAX,
        forall|j: int| 0 <= j < before.len() ==> (#[trigger] before[j]).invalidated,
        event.cursor is None,
        event.scroll is None,
        framed(before, state, event, mid, log, now),
    ensures
        log == input_dispatches(state, NO_WIDGET, event) + render_dispatches(
            draw_order(links(before), 0),
        ),
{
    let input = input_dispatches(state, NO_WIDGET, event);
    assert forall|j: int| 0 <= j < mid.len() implies (#[trigger] mid[j]).invalidated by {
        if event.resize is None {
            assert(!names(input, j));
        }
    }
    lemma_all_marked_all_drawn(mid, 0);
}

/// The dispatch loop of one window: its widgets and its pointer state.
pub struct Pushrod<W> {
    pub widget_store: PushrodWindow<W>,
    pub pointer: PointerState,
}

impl<W: Widget> Pushrod<W> {
    /// The store is valid, and the widget that holds the pointer is one of
    /// its widgets or none.
    pub open spec fn wf(&self) -> bool {
        &&& self.widget_store.wf()
        &&& -1 <= self.pointer.last_widget_id < self.widget_store@.len()
    }

    /// A loop over a new store with `base_widget` as its root; no widget
    /// holds the pointer, which is taken to rest at the origin.
    pub fn new(base_widget: W) -> (r: Self)
        ensures
            r.wf(),
            r.pointer == (PointerState {
                last_widget_id: NO_WIDGET,
                previous_mouse_position: Point { x: 0, y: 0 },
            }),
            r.widget_store@ == PushrodWindow::new_view(base_widget),
    {
        let widget_store = PushrodWindow::new(base_widget);
        proof {
            widget_store.lemma_wf_view();
        }
        Pushrod {
            widget_store,
            pointer: PointerState {
                last_widget_id: NO_WIDGET,
                previous_mouse_position: make_origin_point(),
            },
        }
    }

    /// Makes the callback that `d` stands for and enters it in `log`.
    fn deliver(&mut self, d: Dispatch, log: &mut Vec<Dispatch>, Ghost(start): Ghost<Seq<WidgetState>>)
        requires
            old(self).wf(),
            0 <= target(d) < old(self).widget_store@.len(),
            !(d is Drew),
            kept(old(self).widget_store@, start, old(log)@, false),
        ensures
            final(self).wf(),
            final(self).pointer == old(self).pointer,
            final(log)@ == old(log)@.push(d),
            kept(final(self).widget_store@, start, final(log)@, false),
    {
        let ghost before = self.widget_store@;
        match d {
            Dispatch::MouseMoved { id, point } => self.widget_store.mouse_moved_for_id(id, point),
            Dispatch::MouseExited { id } => self.widget_store.mouse_exited_for_id(id),
            Dispatch::MouseEntered { id } => self.widget_store.mouse_entered_for_id(id),
            Dispatch::MouseScrolled { id, point } => self.widget_store.mouse_scrolled_for_id(
                id,
                point,
            ),
            _ => {},
        }
        log.push(d);
        proof {
            let now = self.widget_store@;
            assert(links(now) =~= links(before));
            assert forall|j: int| 0 <= j < now.len() && !names(log@, j) implies #[trigger] now[j]
                == start[j] by {
                lemma_names_push(old(log)@, d, j);
                assert(before[j] == start[j]);
            }
        }
    }

    /// Acts on the input that `event` carries: the cursor first, then the
    /// scroll, then the resize. Returns what was dispatched, in order.
    ///
    /// A cursor position is acted on only if it differs from the last one
    /// that was. Widgets that received no callback are left as they were,
    /// but for the mark that a resize sets on every widget.
    pub fn handle_input(&mut self, event: &InputEvent) -> (log: Vec<Dispatch>)
        requires
            old(self).wf(),
        ensures
            final(self).wf(),
            final(self).pointer == pointer_after(
                old(self).pointer,
                hit_of(old(self).widget_store@, *event),
                *event,
            ),
            log@ == input_dispatches(
                old(self).pointer,
                hit_of(old(self).widget_store@, *event),
                *event,
            ),
            kept(
                final(self).widget_store@,
                old(self).widget_store@,
                log@,
                event.resize.is_some(),
            ),
    {
        let mut log: Vec<Dispatch> = Vec::new();
        let ghost start = self.widget_store@;
        let ghost hit = hit_of(start, *event);
        proof {
            self.widget_store.lemma_wf_view();
            assert(links(start) =~= links(start));
        }
        if let Some(mouse_point) = event.cursor {
            proof {
                lemma_top_widget_is_last_match(start, mouse_point);
            }
            if mouse_point.x != self.pointer.previous_mouse_position.x || mouse_point.y
                != self.pointer.previous_mouse_position.y {
                self.pointer.previous_mouse_position = mouse_point;
                let current_widget_id = self.widget_store.get_widget_id_for_point(mouse_point);
                if current_widget_id != NO_WIDGET {
                    self.deliver(
                        Dispatch::MouseMoved { id: current_widget_id, point: mouse_point },
                        &mut log,
                        Ghost(start),
                    );
                }
                if current_widget_id != self.pointer.last_widget_id {
                    if self.pointer.last_widget_id != NO_WIDGET {
                        self.deliver(
                            Dispatch::MouseExited { id: self.pointer.last_widget_id },
                            &mut log,
                            Ghost(start),
                        );
                    }
                    self.pointer.last_widget_id = current_widget_id;
                    if self.pointer.last_widget_id != NO_WIDGET {
                        self.deliver(
                            Dispatch::MouseEntered { id: self.pointer.last_widget_id },
                            &mut log,
                            Ghost(start),
                        );
                    }
                }
                proof {
                    assert(log@ =~= cursor_dispatches(
                        old(self).pointer.last_widget_id,
                        hit,
                        mouse_point,
                    ));
                }
            }
        }
        let ghost after_cursor = log@;
        if let Some(delta) = event.scroll {
            if self.pointer.last_widget_id != NO_WIDGET {
                self.deliver(
                    Dispatch::MouseScrolled { id: self.pointer.last_widget_id, point: delta },
                    &mut log,
                    Ghost(start),
                );
            }
        }
        let ghost after_scroll = log@;
        if event.resize.is_some() {
            let ghost before = self.widget_store@;
            self.widget_store.invalidate_all_widgets();
            log.push(Dispatch::InvalidatedAll);
            proof {
                let now = self.widget_store@;
                assert(links(now) =~= links(before));
                assert forall|j: int| 0 <= j < now.len() && !names(log@, j) implies #[trigger] now[j]
                    == all_invalidated(start)[j] by {
                    lemma_names_push(after_scroll, Dispatch::InvalidatedAll, j);
                    assert(before[j] == start[j]);
                }
            }
        }
        proof {
            assert(log@ =~= input_dispatches(old(self).pointer, hit, *event));
        }
        log
    }

    /// Draws one frame from the root down, then marks every widget for the
    /// next frame. Returns the ids drawn, in the order in which they were
    /// drawn: the marked widgets of the draw order.
    pub fn render_frame<C>(&mut self, surface: &mut C) -> (drawn: Vec<i32>) where W: Drawable<C>
        requires
            old(self).wf(),
        ensures
            final(self).wf(),
            final(self).pointer == old(self).pointer,
            drawn@ == painted(
                draw_order(links(old(self).widget_store@), 0),
                old(self).widget_store@,
            ),
            rendered(final(self).widget_store@, old(self).widget_store@, drawn@),
    {
        let ghost start = self.widget_store@;
        let drawn = self.widget_store.draw(0, surface);
        let ghost mid = self.widget_store@;
        self.widget_store.invalidate_all_widgets();
        proof {
            let now = self.widget_store@;
            assert(links(now) =~= links(mid));
            assert forall|j: int| 0 <= j < now.len() && !drawn@.contains(j as i32) implies #[trigger] now[j]
                == all_invalidated(start)[j] by {
                assert(mid[j] == start[j]);
            }
        }
        drawn
    }

    /// Acts on one event: its input, then, on a render tick, one frame.
    /// Returns what was dispatched, in order.
    ///
    /// Which widgets a frame draws depends on the marks that the callbacks
    /// of the same event left; after a resize it draws every widget of the
    /// draw order.
    pub fn handle_event<C>(&mut self, event: &InputEvent, surface: &mut C) -> (log: Vec<
        Dispatch,
    >) where W: Drawable<C>
        requires
            old(self).wf(),
        ensures
            final(self).wf(),
            final(self).pointer == pointer_after(
                old(self).pointer,
                hit_of(old(self).widget_store@, *event),
                *event,
            ),
            !event.render ==> {
                &&& log@ == input_dispatches(
                    old(self).pointer,
                    hit_of(old(self).widget_store@, *event),
                    *event,
                )
                &&& kept(
                    final(self).widget_store@,
                    old(self).widget_store@,
                    log@,
                    event.resize.is_some(),
                )
            },
            event.render ==> exists|mid: Seq<WidgetState>|
                framed(
                    old(self).widget_store@,
                    old(self).pointer,
                    *event,
                    mid,
                    log@,
                    final(self).widget_store@,
                ),
            event.render && event.resize.is_some() ==> log@ == input_dispatches(
                old(self).pointer,
                hit_of(old(self).widget_store@, *event),
                *event,
            ) + render_dispatches(draw_order(links(old(self).widget_store@), 0)),
    {
        let mut log = self.handle_input(event);
        if event.render {
            let ghost input = log@;
            let ghost mid = self.widget_store@;
            let drawn = self.render_frame(surface);
            let mut pos: usize = 0;
            while pos < drawn.len()
                invariant
                    pos <= drawn@.len(),
                    log@ == input + drawn@.take(pos as int).map_values(
                        |id: i32| Dispatch::Drew { id },
                    ),
                decreases drawn@.len() - pos,
            {
                log.push(Dispatch::Drew { id: drawn[pos] });
                proof {
                    assert(drawn@.take(pos + 1) =~= drawn@.take(pos as int).push(drawn@[pos as int]));
                    assert(log@ =~= input + drawn@.take(pos + 1).map_values(
                        |id: i32| Dispatch::Drew { id },
                    ));
                }
                pos += 1;
            }
            log.push(Dispatch::InvalidatedAll);
            proof {
                assert(drawn@.take(pos as int) =~= drawn@);
                assert(log@ =~= input + render_dispatches(drawn@));
                assert(framed(
                    old(self).widget_store@,
                    old(self).pointer,
                    *event,
                    mid,
                    log@,
                    self.widget_store@,
                ));
                if event.resize.is_some() {
                    self.widget_store.lemma_wf_view();
                    lemma_all_marked_all_drawn(mid, 0);
                }
            }
        }
        log
    }
}

} // verus!
