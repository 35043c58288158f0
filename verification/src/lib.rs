//! A retained-mode widget toolkit core: a flat store of widgets with parent
//! links, hit testing by insertion order, and the pointer state machine that
//! turns raw input into widget callbacks and redraws.

pub mod event_loop;
pub mod geometry;
pub mod model;
pub mod widget;
pub mod window;
