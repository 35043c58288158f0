use pushrod::event_loop::{Dispatch, InputEvent, PointerState, Pushrod};
use pushrod::geometry::{Point, Size};
use pushrod::widget::{BaseWidget, Drawable, Widget};

#[derive(Debug, Clone, PartialEq)]
enum Heard {
    Entered(i32),
    Exited(i32),
    Moved(i32, Point),
    Scrolled(i32, Point),
}

struct Listener {
    origin: Point,
    size: Size,
    dirty: bool,
    heard: Vec<Heard>,
}

impl Listener {
    fn at(x: i32, y: i32, w: i32, h: i32) -> Listener {
        Listener { origin: Point { x, y }, size: Size { w, h }, dirty: true, heard: Vec::new() }
    }
}

impl Widget for Listener {
    fn origin(&self) -> Point {
        self.origin
    }

    fn size(&self) -> Size {
        self.size
    }

    fn invalidated(&self) -> bool {
        self.dirty
    }

    fn get_origin(&self) -> Point {
        self.origin
    }

    fn get_size(&self) -> Size {
        self.size
    }

    fn set_size(&mut self, w: i32, h: i32) {
        self.size = Size { w, h };
    }

    fn invalidate(&mut self) {
        self.dirty = true;
    }

    fn is_invalidated(&self) -> bool {
        self.dirty
    }

    fn after_mouse_entered(&self, _before: &Self, _id: i32) -> bool {
        true
    }

    fn after_mouse_exited(&self, _before: &Self, _id: i32) -> bool {
        true
    }

    fn after_mouse_scrolled(&self, _before: &Self, _id: i32, _point: Point) -> bool {
        true
    }

    fn after_mouse_moved(&self, _before: &Self, _id: i32, _point: Point) -> bool {
        true
    }

    fn mouse_entered(&mut self, id: i32) {
        self.heard.push(Heard::Entered(id));
    }

    fn mouse_exited(&mut self, id: i32) {
        self.heard.push(Heard::Exited(id));
    }

    fn mouse_scrolled(&mut self, id: i32, point: Point) {
        self.heard.push(Heard::Scrolled(id, point));
    }

    fn mouse_moved(&mut self, id: i32, point: Point) {
        self.heard.push(Heard::Moved(id, point));
    }
}

impl Drawable<Vec<Point>> for Listener {
    fn draw(&mut self, surface: &mut Vec<Point>) {
        surface.push(self.origin);
        self.dirty = false;
    }
}

fn nothing() -> InputEvent {
    InputEvent { cursor: None, scroll: None, resize: None, render: false }
}

fn cursor(x: i32, y: i32) -> InputEvent {
    InputEvent { cursor: Some(Point { x, y }), ..nothing() }
}

fn scroll(x: i32, y: i32) -> InputEvent {
    InputEvent { scroll: Some(Point { x, y }), ..nothing() }
}

fn resize(w: u32, h: u32) -> InputEvent {
    InputEvent { resize: Some((w, h)), ..nothing() }
}

fn render() -> InputEvent {
    InputEvent { render: true, ..nothing() }
}

/// Root 800 by 600; widget 1 at (200,200) and widget 2 at (0,0), both 100
/// by 100; widget 3 at (300,200), 100 by 100, touching widget 1.
fn session() -> Pushrod<Listener> {
    let mut prod = Pushrod::new(Listener::at(0, 0, 0, 0));
    assert_eq!(prod.widget_store.add_widget(Listener::at(200, 200, 100, 100)), 1);
    assert_eq!(prod.widget_store.add_widget(Listener::at(0, 0, 100, 100)), 2);
    assert_eq!(prod.widget_store.add_widget_to_parent(Listener::at(300, 200, 100, 100), 1), 3);
    prod
}

fn heard(prod: &Pushrod<Listener>, id: i32) -> Vec<Heard> {
    prod.widget_store.get_widget_for_id(id).heard.clone()
}

fn dirty_flags(prod: &Pushrod<Listener>) -> Vec<bool> {
    let mut flags = Vec::new();
    for id in 0..prod.widget_store.widget_count() {
        flags.push(prod.widget_store.get_widget_for_id(id as i32).is_invalidated());
    }
    flags
}

#[test]
fn new_loop_holds_no_widget() {
    let prod: Pushrod<BaseWidget> = Pushrod::new(BaseWidget::new());
    assert_eq!(
        prod.pointer,
        PointerState { last_widget_id: -1, previous_mouse_position: Point { x: 0, y: 0 } }
    );
    assert_eq!(prod.widget_store.widget_count(), 1);
    assert_eq!(prod.widget_store.get_widget_for_id(0).get_size(), Size { w: 800, h: 600 });
}

#[test]
fn event_without_parts_does_nothing() {
    let mut prod = session();
    let mut surface = Vec::new();
    assert_eq!(prod.handle_event(&nothing(), &mut surface), Vec::<Dispatch>::new());
    assert_eq!(prod.pointer.last_widget_id, -1);
    assert!(surface.is_empty());
}

#[test]
fn cursor_onto_a_widget_moves_then_enters() {
    let mut prod = session();
    let p = Point { x: 50, y: 50 };
    let log = prod.handle_input(&cursor(50, 50));
    assert_eq!(
        log,
        vec![Dispatch::MouseMoved { id: 2, point: p }, Dispatch::MouseEntered { id: 2 }]
    );
    assert_eq!(prod.pointer, PointerState { last_widget_id: 2, previous_mouse_position: p });
    assert_eq!(heard(&prod, 2), vec![Heard::Moved(2, p), Heard::Entered(2)]);
    assert!(heard(&prod, 0).is_empty());
    assert!(heard(&prod, 1).is_empty());
}

#[test]
fn cursor_within_a_widget_only_moves() {
    let mut prod = session();
    prod.handle_input(&cursor(50, 50));
    let log = prod.handle_input(&cursor(51, 50));
    assert_eq!(log, vec![Dispatch::MouseMoved { id: 2, point: Point { x: 51, y: 50 } }]);
    assert_eq!(prod.pointer.last_widget_id, 2);
}

#[test]
fn same_point_twice_is_acted_on_once() {
    let mut prod = session();
    let first = prod.handle_input(&cursor(50, 50));
    assert_eq!(first.len(), 2);
    let state = prod.pointer;
    for _ in 0..3 {
        assert_eq!(prod.handle_input(&cursor(50, 50)), Vec::<Dispatch>::new());
        assert_eq!(prod.pointer, state);
    }
    assert_eq!(heard(&prod, 2).len(), 2);
}

#[test]
fn first_cursor_at_the_origin_is_not_a_move() {
    let mut prod = session();
    assert_eq!(prod.handle_input(&cursor(0, 0)), Vec::<Dispatch>::new());
    assert_eq!(prod.pointer.last_widget_id, -1);
}

#[test]
fn cursor_differing_in_one_coordinate_is_a_move() {
    let mut prod = session();
    assert_eq!(prod.handle_input(&cursor(0, 1)).len(), 2);
    assert_eq!(prod.handle_input(&cursor(1, 1)).len(), 1);
}

#[test]
fn crossing_exits_the_old_widget_then_enters_the_new() {
    let mut prod = session();
    prod.handle_input(&cursor(250, 250));
    assert_eq!(prod.pointer.last_widget_id, 1);
    let p = Point { x: 50, y: 50 };
    let log = prod.handle_input(&cursor(50, 50));
    assert_eq!(
        log,
        vec![
            Dispatch::MouseMoved { id: 2, point: p },
            Dispatch::MouseExited { id: 1 },
            Dispatch::MouseEntered { id: 2 },
        ]
    );
    assert_eq!(prod.pointer.last_widget_id, 2);
    assert_eq!(
        heard(&prod, 1),
        vec![Heard::Moved(1, Point { x: 250, y: 250 }), Heard::Entered(1), Heard::Exited(1)]
    );
    assert_eq!(heard(&prod, 2), vec![Heard::Moved(2, p), Heard::Entered(2)]);
}

#[test]
fn shared_edge_belongs_to_the_later_widget() {
    let mut prod = session();
    let log = prod.handle_input(&cursor(300, 250));
    assert_eq!(
        log,
        vec![
            Dispatch::MouseMoved { id: 3, point: Point { x: 300, y: 250 } },
            Dispatch::MouseEntered { id: 3 },
        ]
    );
}

#[test]
fn leaving_every_widget_exits_without_entering() {
    let mut prod = session();
    prod.handle_input(&cursor(50, 50));
    let log = prod.handle_input(&cursor(1000, 1000));
    assert_eq!(log, vec![Dispatch::MouseExited { id: 2 }]);
    assert_eq!(prod.pointer.last_widget_id, -1);
    assert_eq!(prod.pointer.previous_mouse_position, Point { x: 1000, y: 1000 });
}

#[test]
fn moving_outside_every_widget_dispatches_nothing() {
    let mut prod = session();
    assert_eq!(prod.handle_input(&cursor(1000, 1000)), Vec::<Dispatch>::new());
    assert_eq!(prod.handle_input(&cursor(1001, 1000)), Vec::<Dispatch>::new());
    assert_eq!(prod.pointer.previous_mouse_position, Point { x: 1001, y: 1000 });
}

#[test]
fn scroll_goes_to_the_widget_that_holds_the_pointer() {
    let mut prod = session();
    prod.handle_input(&cursor(50, 50));
    let log = prod.handle_input(&scroll(0, -3));
    let delta = Point { x: 0, y: -3 };
    assert_eq!(log, vec![Dispatch::MouseScrolled { id: 2, point: delta }]);
    assert_eq!(heard(&prod, 2).last(), Some(&Heard::Scrolled(2, delta)));
}

#[test]
fn scroll_without_a_holder_goes_nowhere() {
    let mut prod = session();
    assert_eq!(prod.handle_input(&scroll(0, -3)), Vec::<Dispatch>::new());
}

#[test]
fn scroll_after_leaving_does_not_reach_the_old_widget() {
    let mut prod = Pushrod::new(Listener::at(0, 0, 0, 0));
    prod.widget_store.add_widget(Listener::at(300, 300, 10, 10));
    assert_eq!(prod.widget_store.add_widget(Listener::at(0, 0, 100, 100)), 2);
    let entered = prod.handle_input(&cursor(50, 50));
    assert!(entered.contains(&Dispatch::MouseEntered { id: 2 }));
    let left = prod.handle_input(&cursor(1000, 1000));
    assert_eq!(prod.widget_store.get_widget_id_for_point(Point { x: 1000, y: 1000 }), -1);
    assert_eq!(left, vec![Dispatch::MouseExited { id: 2 }]);
    assert_eq!(prod.pointer.last_widget_id, -1);
    let before = heard(&prod, 2);
    assert_eq!(prod.handle_input(&scroll(1000, 1000)), Vec::<Dispatch>::new());
    assert_eq!(heard(&prod, 2), before);
}

#[test]
fn scroll_in_the_same_event_follows_the_cursor() {
    let mut prod = session();
    prod.handle_input(&cursor(250, 250));
    let event = InputEvent {
        cursor: Some(Point { x: 50, y: 50 }),
        scroll: Some(Point { x: 1, y: 1 }),
        ..nothing()
    };
    let log = prod.handle_input(&event);
    assert_eq!(log.len(), 4);
    assert_eq!(log[3], Dispatch::MouseScrolled { id: 2, point: Point { x: 1, y: 1 } });
}

#[test]
fn resize_marks_every_widget() {
    let mut prod = session();
    let mut surface = Vec::new();
    prod.widget_store.draw(0, &mut surface);
    assert_eq!(dirty_flags(&prod), vec![false; 4]);
    let log = prod.handle_input(&resize(1024, 768));
    assert_eq!(log, vec![Dispatch::InvalidatedAll]);
    assert_eq!(dirty_flags(&prod), vec![true; 4]);
}

#[test]
fn render_draws_the_marked_widgets_and_marks_all_again() {
    let mut prod = session();
    let mut surface = Vec::new();
    let log = prod.handle_event(&render(), &mut surface);
    assert_eq!(
        log,
        vec![
            Dispatch::Drew { id: 0 },
            Dispatch::Drew { id: 1 },
            Dispatch::Drew { id: 3 },
            Dispatch::Drew { id: 2 },
            Dispatch::InvalidatedAll,
        ]
    );
    assert_eq!(surface.len(), 4);
    assert_eq!(dirty_flags(&prod), vec![true; 4]);
}

#[test]
fn render_frame_returns_what_it_drew() {
    let mut prod = session();
    let mut surface = Vec::new();
    prod.widget_store.draw(1, &mut surface);
    surface.clear();
    let drawn = prod.render_frame(&mut surface);
    assert_eq!(drawn, vec![0, 2]);
    assert_eq!(surface, vec![Point { x: 0, y: 0 }, Point { x: 0, y: 0 }]);
    assert_eq!(dirty_flags(&prod), vec![true; 4]);
    assert_eq!(prod.pointer.last_widget_id, -1);
}

#[test]
fn resize_then_render_draws_every_widget() {
    let mut prod = session();
    let mut surface = Vec::new();
    prod.widget_store.draw(0, &mut surface);
    surface.clear();
    prod.handle_event(&resize(1024, 768), &mut surface);
    assert!(surface.is_empty());
    assert_eq!(dirty_flags(&prod), vec![true; 4]);
    let log = prod.handle_event(&render(), &mut surface);
    assert_eq!(
        log,
        vec![
            Dispatch::Drew { id: 0 },
            Dispatch::Drew { id: 1 },
            Dispatch::Drew { id: 3 },
            Dispatch::Drew { id: 2 },
            Dispatch::InvalidatedAll,
        ]
    );
    assert_eq!(surface.len(), 4);
}

#[test]
fn resize_and_render_in_one_event() {
    let mut prod = session();
    let mut surface = Vec::new();
    prod.widget_store.draw(0, &mut surface);
    surface.clear();
    let event = InputEvent { resize: Some((10, 10)), render: true, ..nothing() };
    let log = prod.handle_event(&event, &mut surface);
    assert_eq!(log.len(), 6);
    assert_eq!(log[0], Dispatch::InvalidatedAll);
    assert_eq!(log[1], Dispatch::Drew { id: 0 });
    assert_eq!(log[5], Dispatch::InvalidatedAll);
    assert_eq!(surface.len(), 4);
}

#[test]
fn every_frame_redraws_every_widget() {
    let mut prod = session();
    let mut surface = Vec::new();
    for _ in 0..3 {
        surface.clear();
        let log = prod.handle_event(&render(), &mut surface);
        assert_eq!(log.len(), 5);
        assert_eq!(surface.len(), 4);
    }
}

#[test]
fn parts_of_one_event_are_acted_on_in_order() {
    let mut prod = session();
    let mut surface = Vec::new();
    let event = InputEvent {
        cursor: Some(Point { x: 50, y: 50 }),
        scroll: Some(Point { x: 2, y: 2 }),
        resize: Some((640, 480)),
        render: true,
    };
    let log = prod.handle_event(&event, &mut surface);
    assert_eq!(
        log,
        vec![
            Dispatch::MouseMoved { id: 2, point: Point { x: 50, y: 50 } },
            Dispatch::MouseEntered { id: 2 },
            Dispatch::MouseScrolled { id: 2, point: Point { x: 2, y: 2 } },
            Dispatch::InvalidatedAll,
            Dispatch::Drew { id: 0 },
            Dispatch::Drew { id: 1 },
            Dispatch::Drew { id: 3 },
            Dispatch::Drew { id: 2 },
            Dispatch::InvalidatedAll,
        ]
    );
}
