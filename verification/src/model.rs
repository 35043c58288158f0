//! The mathematical model of the store: what a widget is to the contracts,
//! and the functions that say what the queries and the draw pass return.

use vstd::prelude::*;
use crate::geometry::{covers, Point, Size};

verus! {

/// What the store's contracts say of one widget.
pub struct WidgetState {
    pub origin: Point,
    pub size: Size,
    pub invalidated: bool,
    pub parent_id: i32,
}

/// The id that stands for "no widget".
pub const NO_WIDGET: i32 = -1;

/// The id of the topmost widget of `widgets` whose rectangle holds `p`: the
/// one that was inserted last. `-1` when no rectangle holds `p`.
pub open spec fn top_widget_at(widgets: Seq<WidgetState>, p: Point) -> int
    decreases widgets.len(),
{
    if widgets.len() == 0 {
        -1
    } else if covers(widgets.last().origin, widgets.last().size, p) {
        widgets.len() - 1
    } else {
        top_widget_at(widgets.drop_last(), p)
    }
}

/// The ids below `upto` whose parent link is `parent_id`, in ascending order.
pub open spec fn children_below(widgets: Seq<WidgetState>, parent_id: i32, upto: int) -> Seq<i32>
    decreases upto,
{
    if upto <= 0 || upto > widgets.len() {
        Seq::empty()
    } else if widgets[upto - 1].parent_id == parent_id {
        children_below(widgets, parent_id, upto - 1).push((upto - 1) as i32)
    } else {
        children_below(widgets, parent_id, upto - 1)
    }
}

/// All ids whose parent link is `parent_id`, in ascending order.
pub open spec fn children_of(widgets: Seq<WidgetState>, parent_id: i32) -> Seq<i32> {
    children_below(widgets, parent_id, widgets.len() as int)
}

/// `widgets` with every widget marked for redraw.
pub open spec fn all_invalidated(widgets: Seq<WidgetState>) -> Seq<WidgetState> {
    Seq::new(
        widgets.len(),
        |i: int|
            WidgetState {
                origin: widgets[i].origin,
                size: widgets[i].size,
                invalidated: true,
                parent_id: widgets[i].parent_id,
            },
    )
}

/// The parent links of `widgets`, by id.
pub open spec fn links(widgets: Seq<WidgetState>) -> Seq<i32> {
    Seq::new(widgets.len(), |i: int| widgets[i].parent_id)
}

/// The walk below `node`, over its children with an id of `from` or more:
/// each child in ascending order, followed at once by the walk below it. A
/// widget counts as a child only of a parent that was inserted before it, so
/// the walk descends by ascending id.
pub open spec fn descent(links: Seq<i32>, node: int, from: int) -> Seq<i32>
    decreases links.len() - node, links.len() - from,
{
    if node < 0 || from <= node || from >= links.len() {
        Seq::empty()
    } else if links[from] == node {
        seq![from as i32] + descent(links, from, from + 1) + descent(links, node, from + 1)
    } else {
        descent(links, node, from + 1)
    }
}

/// The order in which a draw pass that starts at `root` visits the widgets:
/// `root` itself, then the walk below it. Empty when there is no such widget.
pub open spec fn draw_order(links: Seq<i32>, root: int) -> Seq<i32> {
    if 0 <= root < links.len() {
        seq![root as i32] + descent(links, root, root + 1)
    } else {
        Seq::empty()
    }
}

/// The widgets that a pass over `order` draws when it starts from `widgets`:
/// those marked for redraw, each at the first place where the order names it.
pub open spec fn painted(order: Seq<i32>, widgets: Seq<WidgetState>) -> Seq<i32>
    decreases order.len(),
{
    if order.len() == 0 {
        Seq::empty()
    } else {
        let earlier = painted(order.drop_last(), widgets);
        let id = order.last();
        if 0 <= id < widgets.len() && widgets[id as int].invalidated && !earlier.contains(id) {
            earlier.push(id)
        } else {
            earlier
        }
    }
}

/// The state of a draw pass that started from `start`, has visited `done`
/// and drawn `drawn`, and has brought the widgets to `now`: a widget that was
/// drawn is no longer marked, every other widget is as it was.
pub open spec fn pass_state(
    now: Seq<WidgetState>,
    start: Seq<WidgetState>,
    done: Seq<i32>,
    drawn: Seq<i32>,
) -> bool {
    &&& now.len() == start.len()
    &&& links(now) == links(start)
    &&& drawn == painted(done, start)
    &&& forall|j: int|
        0 <= j < now.len() ==> if drawn.contains(j as i32) {
            !(#[trigger] now[j]).invalidated
        } else {
            now[j] == start[j]
        }
}

/// Pushing `x` adds `x` to what a sequence contains, and nothing else.
pub proof fn lemma_push_contains(s: Seq<i32>, x: i32, y: i32)
    ensures
        s.push(x).contains(y) <==> (s.contains(y) || x == y),
{
    if s.push(x).contains(y) {
        let i = choose|i: int| 0 <= i < s.push(x).len() && s.push(x)[i] == y;
        if i < s.len() {
            assert(s[i] == y);
        }
    }
    if s.contains(y) {
        let i = choose|i: int| 0 <= i < s.len() && s[i] == y;
        assert(s.push(x)[i] == y);
    }
    if x == y {
        assert(s.push(x)[s.len() as int] == y);
    }
}

/// The hit test names the last widget in insertion order whose rectangle
/// holds the point: that widget holds it and no later one does. It names `-1`
/// exactly when no rectangle holds the point.
pub proof fn lemma_top_widget_is_last_match(widgets: Seq<WidgetState>, p: Point)
    ensures
        -1 <= top_widget_at(widgets, p) < widgets.len(),
        top_widget_at(widgets, p) >= 0 ==> covers(
            widgets[top_widget_at(widgets, p)].origin,
            widgets[top_widget_at(widgets, p)].size,
            p,
        ),
        forall|j: int|
            top_widget_at(widgets, p) < j < widgets.len() ==> !covers(
                (#[trigger] widgets[j]).origin,
                widgets[j].size,
                p,
            ),
    decreases widgets.len(),
{
    if widgets.len() > 0 && !covers(widgets.last().origin, widgets.last().size, p) {
        let shorter = widgets.drop_last();
        lemma_top_widget_is_last_match(shorter, p);
        assert forall|j: int| top_widget_at(widgets, p) < j < widgets.len() implies !covers(
            (#[trigger] widgets[j]).origin,
            widgets[j].size,
            p,
        ) by {
            if j < shorter.len() {
                assert(shorter[j] == widgets[j]);
            }
        }
    }
}

/// Of two widgets whose rectangles both hold a point, the one inserted
/// first is never the answer of the hit test.
pub proof fn lemma_later_widget_occludes(widgets: Seq<WidgetState>, p: Point, a: int, b: int)
    requires
        0 <= a < b < widgets.len(),
        covers(widgets[a].origin, widgets[a].size, p),
        covers(widgets[b].origin, widgets[b].size, p),
    ensures
        top_widget_at(widgets, p) >= b,
        top_widget_at(widgets, p) != a,
{
    lemma_top_widget_is_last_match(widgets, p);
}

/// A point that no rectangle holds hits nothing.
pub proof fn lemma_no_match_is_none(widgets: Seq<WidgetState>, p: Point)
    requires
        forall|j: int|
            0 <= j < widgets.len() ==> !covers((#[trigger] widgets[j]).origin, widgets[j].size, p),
    ensures
        top_widget_at(widgets, p) == NO_WIDGET,
{
    lemma_top_widget_is_last_match(widgets, p);
}

/// The children below `upto` are the ids below `upto` with the given parent
/// link, each once, in strictly ascending order.
pub proof fn lemma_children_below(widgets: Seq<WidgetState>, parent_id: i32, upto: int)
    requires
        0 <= upto <= widgets.len() <= i32::MAX,
    ensures
        forall|k: int|
            0 <= k < children_below(widgets, parent_id, upto).len() ==> {
                let c = #[trigger] children_below(widgets, parent_id, upto)[k];
                0 <= c < upto && widgets[c as int].parent_id == parent_id
            },
        forall|k: int, l: int|
            0 <= k < l < children_below(widgets, parent_id, upto).len() ==> children_below(
                widgets,
                parent_id,
                upto,
            )[k] < children_below(widgets, parent_id, upto)[l],
        forall|i: int|
            0 <= i < upto && (#[trigger] widgets[i]).parent_id == parent_id ==> children_below(
                widgets,
                parent_id,
                upto,
            ).contains(i as i32),
    decreases upto,
{
    if upto > 0 {
        lemma_children_below(widgets, parent_id, upto - 1);
        let shorter = children_below(widgets, parent_id, upto - 1);
        let all = children_below(widgets, parent_id, upto);
        assert forall|i: int|
            0 <= i < upto && (#[trigger] widgets[i]).parent_id == parent_id implies all.contains(
            i as i32,
        ) by {
            if i < upto - 1 {
                let k = choose|k: int| 0 <= k < shorter.len() && shorter[k] == i as i32;
                assert(all[k] == i as i32);
            } else {
                assert(all[all.len() - 1] == i as i32);
            }
        }
    }
}

/// The children of a widget are the ids with that parent link, each once,
/// in strictly ascending order.
pub proof fn lemma_children_of(widgets: Seq<WidgetState>, parent_id: i32)
    requires
        widgets.len() <= i32::MAX,
    ensures
        forall|k: int|
            0 <= k < children_of(widgets, parent_id).len() ==> {
                let c = #[trigger] children_of(widgets, parent_id)[k];
                0 <= c < widgets.len() && widgets[c as int].parent_id == parent_id
            },
        forall|k: int, l: int|
            0 <= k < l < children_of(widgets, parent_id).len() ==> children_of(
                widgets,
                parent_id,
            )[k] < children_of(widgets, parent_id)[l],
        forall|i: int|
            0 <= i < widgets.len() && (#[trigger] widgets[i]).parent_id == parent_id
                ==> children_of(widgets, parent_id).contains(i as i32),
{
    lemma_children_below(widgets, parent_id, widgets.len() as int);
}

/// Whether the parent links lead from `e` down to `node`, each link naming
/// a widget that was inserted earlier.
pub open spec fn under(links: Seq<i32>, e: int, node: int) -> bool
    decreases e,
{
    if node < 0 || e <= node || e >= links.len() {
        false
    } else if links[e] == node {
        true
    } else if node < links[e] < e {
        under(links, links[e] as int, node)
    } else {
        false
    }
}

/// The child of `node` through which the parent links lead from `e` down to
/// `node`; `-1` when they do not lead there.
pub open spec fn entry(links: Seq<i32>, e: int, node: int) -> int
    decreases e,
{
    if node < 0 || e <= node || e >= links.len() {
        -1
    } else if links[e] == node {
        e
    } else if node < links[e] < e {
        entry(links, links[e] as int, node)
    } else {
        -1
    }
}

/// What lies under a child of `node` lies under `node`, and is entered
/// through that child.
pub proof fn lemma_under_child(links: Seq<i32>, e: int, child: int, node: int)
    requires
        0 <= node < child < links.len(),
        links[child] == node,
        under(links, e, child),
    ensures
        under(links, e, node),
        entry(links, e, node) == child,
    decreases e,
{
    let up = links[e] as int;
    assert(child <= up < e);
    if up == child {
        assert(under(links, child, node));
        assert(entry(links, child, node) == child);
    } else {
        lemma_under_child(links, up, child, node);
    }
    assert(under(links, e, node) == under(links, up, node));
    assert(entry(links, e, node) == entry(links, up, node));
}

/// The walk below `node` from `from` on visits only widgets that lie under
/// `node` and are entered through a child with an id of `from` or more, and
/// it visits none of them twice.
pub proof fn lemma_descent(links: Seq<i32>, node: int, from: int)
    requires
        0 <= node < from,
        links.len() <= i32::MAX,
    ensures
        forall|k: int|
            0 <= k < descent(links, node, from).len() ==> {
                let e = #[trigger] descent(links, node, from)[k];
                &&& from <= e < links.len()
                &&& under(links, e as int, node)
                &&& entry(links, e as int, node) >= from
            },
        descent(links, node, from).no_duplicates(),
    decreases links.len() - node, links.len() - from,
{
    if from < links.len() {
        lemma_descent(links, node, from + 1);
        if links[from] == node {
            lemma_descent(links, from, from + 1);
            let below = descent(links, from, from + 1);
            let after = descent(links, node, from + 1);
            let all = descent(links, node, from);
            assert(all =~= seq![from as i32] + below + after);
            assert forall|k: int| 0 <= k < all.len() implies {
                let e = #[trigger] all[k];
                &&& from <= e < links.len()
                &&& under(links, e as int, node)
                &&& entry(links, e as int, node) == if k <= below.len() {
                    from
                } else {
                    entry(links, e as int, node)
                }
                &&& entry(links, e as int, node) >= from
                &&& k > below.len() ==> entry(links, e as int, node) > from
                &&& 1 <= k ==> e > from
            } by {
                if 1 <= k <= below.len() {
                    let e = below[k - 1];
                    assert(all[k] == e);
                    lemma_under_child(links, e as int, from, node);
                } else if k > below.len() {
                    assert(all[k] == after[k - 1 - below.len()]);
                }
            }
            assert forall|i: int, j: int| 0 <= i < all.len() && 0 <= j < all.len() && i != j implies all[i]
                != all[j] by {
                if 1 <= i <= below.len() && 1 <= j <= below.len() {
                    assert(all[i] == below[i - 1]);
                    assert(all[j] == below[j - 1]);
                } else if i > below.len() && j > below.len() {
                    assert(all[i] == after[i - 1 - below.len()]);
                    assert(all[j] == after[j - 1 - below.len()]);
                }
            }
        }
    }
}

/// A draw pass visits no widget twice, and only widgets that the store holds.
pub proof fn lemma_draw_order_distinct(links: Seq<i32>, root: int)
    requires
        links.len() <= i32::MAX,
    ensures
        draw_order(links, root).no_duplicates(),
        forall|k: int|
            0 <= k < draw_order(links, root).len() ==> 0 <= #[trigger] draw_order(links, root)[k]
                < links.len(),
{
    if 0 <= root < links.len() {
        lemma_descent(links, root, root + 1);
        let below = descent(links, root, root + 1);
        let all = draw_order(links, root);
        assert forall|k: int| 1 <= k < all.len() implies #[trigger] all[k] > root by {
            assert(all[k] == below[k - 1]);
        }
        assert forall|i: int, j: int| 0 <= i < all.len() && 0 <= j < all.len() && i != j implies all[i]
            != all[j] by {
            if 1 <= i && 1 <= j {
                assert(all[i] == below[i - 1]);
                assert(all[j] == below[j - 1]);
            }
        }
    }
}

/// Over an order that names no widget twice, a pass draws the widgets that
/// are marked for redraw, in that order, and no others.
pub proof fn lemma_painted_is_marked(order: Seq<i32>, widgets: Seq<WidgetState>)
    requires
        order.no_duplicates(),
    ensures
        painted(order, widgets) == order.filter(
            |id: i32| 0 <= id < widgets.len() && widgets[id as int].invalidated,
        ),
    decreases order.len(),
{
    let marked = |id: i32| 0 <= id < widgets.len() && widgets[id as int].invalidated;
    reveal(Seq::filter);
    if order.len() > 0 {
        let shorter = order.drop_last();
        lemma_painted_is_marked(shorter, widgets);
        if shorter.filter(marked).contains(order.last()) {
            shorter.lemma_filter_contains_rev(marked, order.last());
            let k = choose|k: int| 0 <= k < shorter.len() && shorter[k] == order.last();
            assert(order[k] == order[order.len() - 1]);
        }
    }
}

/// Where every widget is marked for redraw, a pass draws each widget that
/// it visits, in the order of the visit.
pub proof fn lemma_all_marked_all_drawn(widgets: Seq<WidgetState>, root: int)
    requires
        widgets.len() <= i32::MAX,
        forall|j: int| 0 <= j < widgets.len() ==> (#[trigger] widgets[j]).invalidated,
    ensures
        painted(draw_order(links(widgets), root), widgets) == draw_order(links(widgets), root),
{
    let order = draw_order(links(widgets), root);
    lemma_draw_order_distinct(links(widgets), root);
    lemma_all_drawn(order, widgets);
}

proof fn lemma_all_drawn(order: Seq<i32>, widgets: Seq<WidgetState>)
    requires
        order.no_duplicates(),
        forall|k: int| 0 <= k < order.len() ==> 0 <= #[trigger] order[k] < widgets.len(),
        forall|j: int| 0 <= j < widgets.len() ==> (#[trigger] widgets[j]).invalidated,
    ensures
        painted(order, widgets) == order,
    decreases order.len(),
{
    if order.len() > 0 {
        let shorter = order.drop_last();
        lemma_all_drawn(shorter, widgets);
        if shorter.contains(order.last()) {
            let k = choose|k: int| 0 <= k < shorter.len() && shorter[k] == order.last();
            assert(order[k] == order[order.len() - 1]);
        }
        assert(shorter.push(order.last()) =~= order);
    } else {
        assert(order =~= Seq::<i32>::empty());
    }
}

} // verus!
