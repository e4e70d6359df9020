//! The layout tree: one box per rendered node of the document tree, built
//! from the document tree and resolved styles, then sized and positioned.
use vstd::prelude::*;
use crate::dom::{NodeKind, Window};

verus! {

/// Width of the area that content is laid out in.
pub const CONTENT_AREA_WIDTH: u64 = 590;

/// Advance of one character of text.
pub const CHAR_WIDTH: u64 = 8;

/// Height of one line of text, padding included.
pub const CHAR_HEIGHT_WITH_PADDING: u64 = 20;

/// The resolved `display` of a node.
#[derive(Debug, Copy, Clone, PartialEq, Eq, Structural)]
pub enum DisplayType {
    Block,
    Inline,
    DisplayNone,
}

/// Resolved styles: the display of each node of a document tree, by index.
/// A node without an entry displays as `Inline`, the initial value.
#[derive(Debug, Clone)]
pub struct StyleSheet {
    pub displays: Vec<DisplayType>,
}

impl StyleSheet {
    /// Styles that give node `i` the display `displays[i]`.
    pub fn new(displays: Vec<DisplayType>) -> (s: StyleSheet)
        ensures
            s.displays@ == displays@,
    {
        StyleSheet { displays }
    }

    /// The display of `node`, `Inline` where it has no entry.
    pub open spec fn spec_display(&self, node: int) -> DisplayType {
        if 0 <= node < self.displays@.len() {
            self.displays@[node]
        } else {
            DisplayType::Inline
        }
    }

    /// The display resolved for `node`.
    pub fn display(&self, node: usize) -> (d: DisplayType)
        ensures
            d == self.spec_display(node as int),
    {
        if node < self.displays.len() {
            self.displays[node]
        } else {
            DisplayType::Inline
        }
    }
}

/// How a box takes part in flow layout.
#[derive(Debug, Copy, Clone, PartialEq, Eq, Structural)]
pub enum LayoutObjectKind {
    Block,
    Inline,
    Text,
}

/// A width and a height.
#[derive(Debug, Copy, Clone, PartialEq, Eq, Structural)]
pub struct LayoutSize {
    pub width: u64,
    pub height: u64,
}

/// A position relative to the page origin.
#[derive(Debug, Copy, Clone, PartialEq, Eq, Structural)]
pub struct LayoutPoint {
    pub x: u64,
    pub y: u64,
}

/// One box of the layout tree. `node` is the index of its source node in
/// the document tree; the links are indices into the owning arena.
#[derive(Debug, Copy, Clone, PartialEq, Eq, Structural)]
pub struct LayoutObject {
    pub kind: LayoutObjectKind,
    pub node: usize,
    pub text_len: usize,
    pub parent: Option<usize>,
    pub first_child: Option<usize>,
    pub next_sibling: Option<usize>,
    pub size: LayoutSize,
    pub point: LayoutPoint,
}

/// Node `i` yields a box: it is not hidden, and is an element or a
/// non-empty text.
pub open spec fn yields_box(w: Window, s: StyleSheet, i: int) -> bool {
    &&& s.spec_display(i) != DisplayType::DisplayNone
    &&& match w.nodes@[i].kind {
        NodeKind::Element(_) => true,
        NodeKind::Text(t) => t@.len() > 0,
        NodeKind::Document => false,
    }
}

/// The kind of the box that node `i` yields.
pub open spec fn box_kind(w: Window, s: StyleSheet, i: int) -> LayoutObjectKind {
    if w.nodes@[i].kind is Text {
        LayoutObjectKind::Text
    } else if s.spec_display(i) == DisplayType::Block {
        LayoutObjectKind::Block
    } else {
        LayoutObjectKind::Inline
    }
}

/// Number of characters of node `i`'s text; zero for other nodes.
pub open spec fn text_len_of(w: Window, i: int) -> nat {
    match w.nodes@[i].kind {
        NodeKind::Text(t) => t@.len(),
        _ => 0,
    }
}

/// The first node, from `start` along the sibling chain, that yields a box.
pub open spec fn first_rendered(w: Window, s: StyleSheet, start: Option<usize>) -> Option<usize>
    decreases
            (match start {
                Some(i) => w.nodes@.len() - i,
                None => 0,
            }),
{
    match start {
        None => None,
        Some(i) => {
            if i >= w.nodes@.len() {
                None
            } else if yields_box(w, s, i as int) {
                Some(i)
            } else {
                match w.nodes@[i as int].next_sibling {
                    Some(j) => if i < j < w.nodes@.len() {
                        first_rendered(w, s, Some(j))
                    } else {
                        None
                    },
                    None => None,
                }
            }
        },
    }
}

/// Box `b` stands for a rendered node, and its first child and next
/// sibling are the boxes of the first rendered nodes from its source's
/// first child and next sibling; those come later in the arena.
pub open spec fn box_ok(w: Window, s: StyleSheet, bs: Seq<LayoutObject>, b: int) -> bool {
    let x = bs[b];
    let n = x.node as int;
    &&& 0 <= n < w.nodes@.len()
    &&& (x.parent matches Some(p) ==> p < b)
    &&& yields_box(w, s, n)
    &&& x.kind == box_kind(w, s, n)
    &&& x.text_len == text_len_of(w, n)
    &&& match first_rendered(w, s, w.nodes@[n].first_child) {
        None => x.first_child is None,
        Some(c) => x.first_child matches Some(fc) && b < fc < bs.len() && bs[fc as int].node == c
            && bs[fc as int].parent == Some(b as usize),
    }
    &&& match first_rendered(w, s, w.nodes@[n].next_sibling) {
        None => x.next_sibling is None,
        Some(c) => x.next_sibling matches Some(ns) && b < ns < bs.len() && bs[ns as int].node == c
            && bs[ns as int].parent == x.parent,
    }
}

/// The links of box `b` point forward, inside the arena.
pub open spec fn forward_at(bs: Seq<LayoutObject>, b: int) -> bool {
    &&& (bs[b].first_child matches Some(c) ==> b < c < bs.len())
    &&& (bs[b].next_sibling matches Some(c) ==> b < c < bs.len())
}

/// The links of every box point forward, inside the arena.
pub open spec fn links_forward(bs: Seq<LayoutObject>) -> bool {
    forall|b: int| 0 <= b < bs.len() ==> #[trigger] forward_at(bs, b)
}

/// The box that node `node` yields, with parent `parent`, if it yields one.
pub fn create_layout_object(
    w: &Window,
    styles: &StyleSheet,
    node: Option<usize>,
    parent: Option<usize>,
) -> (o: Option<LayoutObject>)
    requires
        w.wf(),
        node matches Some(i) ==> i < w.nodes@.len(),
    ensures
        match node {
            Some(i) if yields_box(*w, *styles, i as int) => text_len_of(*w, i as int) <= usize::MAX && o == Some(
                LayoutObject {
                    kind: box_kind(*w, *styles, i as int),
                    node: i,
                    text_len: text_len_of(*w, i as int) as usize,
                    parent,
                    first_child: None,
                    next_sibling: None,
                    size: LayoutSize { width: 0, height: 0 },
                    point: LayoutPoint { x: 0, y: 0 },
                },
            ),
            _ => o is None,
        },
{
    let i = match node {
        Some(i) => i,
        None => return None,
    };
    let display = styles.display(i);
    if display == DisplayType::DisplayNone {
        return None;
    }
    let (kind, text_len) = match &w.nodes[i].kind {
        NodeKind::Element(_) => {
            if display == DisplayType::Block {
                (LayoutObjectKind::Block, 0usize)
            } else {
                (LayoutObjectKind::Inline, 0usize)
            }
        },
        NodeKind::Text(t) => {
            let n = t.as_str().unicode_len();
            if n == 0 {
                return None;
            }
            (LayoutObjectKind::Text, n)
        },
        NodeKind::Document => {
            return None;
        },
    };
    Some(
        LayoutObject {
            kind,
            node: i,
            text_len,
            parent,
            first_child: None,
            next_sibling: None,
            size: LayoutSize { width: 0, height: 0 },
            point: LayoutPoint { x: 0, y: 0 },
        },
    )
}

/// The forward links of each box: first child, next sibling.
pub open spec fn links(bs: Seq<LayoutObject>) -> Seq<(Option<usize>, Option<usize>)> {
    Seq::new(bs.len(), |i: int| (bs[i].first_child, bs[i].next_sibling))
}

/// `o`, where it points forward from `b` inside `l`.
pub open spec fn fwd(l: Seq<(Option<usize>, Option<usize>)>, b: int, o: Option<usize>) -> Option<
    usize,
> {
    match o {
        Some(c) => if b < c < l.len() {
            Some(c)
        } else {
            None
        },
        None => None,
    }
}

/// One past the last box of `b`'s subtree and of the subtrees of the
/// siblings after it.
pub open spec fn chain_end(l: Seq<(Option<usize>, Option<usize>)>, b: int) -> int
    decreases l.len() - b,
{
    if 0 <= b < l.len() {
        if l[b].1 matches Some(s) && b < s < l.len() {
            chain_end(l, l[b].1.unwrap() as int)
        } else if l[b].0 matches Some(c) && b < c < l.len() {
            chain_end(l, l[b].0.unwrap() as int)
        } else {
            b + 1
        }
    } else {
        b + 1
    }
}

/// One past the last box of `b`'s subtree.
pub open spec fn sub_end(l: Seq<(Option<usize>, Option<usize>)>, b: int) -> int {
    match fwd(l, b, l[b].0) {
        Some(c) => chain_end(l, c as int),
        None => b + 1,
    }
}

/// Box `b` is laid out in pre-order: its first child right after it, its
/// next sibling right after its subtree.
pub open spec fn pre_at(l: Seq<(Option<usize>, Option<usize>)>, b: int) -> bool {
    &&& (l[b].0 matches Some(c) ==> c == b + 1 && c < l.len())
    &&& (l[b].1 matches Some(s) ==> s == sub_end(l, b) && b < s < l.len())
    &&& chain_end(l, b) <= l.len()
}

/// Every box is laid out in pre-order.
pub open spec fn preorder(l: Seq<(Option<usize>, Option<usize>)>) -> bool {
    forall|b: int| 0 <= b < l.len() ==> #[trigger] pre_at(l, b)
}

pub proof fn lemma_chain_end_after(l: Seq<(Option<usize>, Option<usize>)>, b: int)
    ensures
        chain_end(l, b) > b,
    decreases l.len() - b,
{
    if 0 <= b < l.len() {
        if l[b].1 matches Some(s) && b < s < l.len() {
            lemma_chain_end_after(l, l[b].1.unwrap() as int);
        } else if l[b].0 matches Some(c) && b < c < l.len() {
            lemma_chain_end_after(l, l[b].0.unwrap() as int);
        }
    }
}

/// The links of a box laid out in pre-order stay inside its range.
pub proof fn lemma_targets_inside(l: Seq<(Option<usize>, Option<usize>)>, j: int)
    requires
        0 <= j < l.len(),
        pre_at(l, j),
    ensures
        j < sub_end(l, j) <= chain_end(l, j) <= l.len(),
        l[j].0 matches Some(c) ==> j < c < sub_end(l, j),
        l[j].1 matches Some(s) ==> s == sub_end(l, j) && s < chain_end(l, j),
        l[j].1 is None ==> chain_end(l, j) == sub_end(l, j),
{
    if let Some(c) = l[j].0 {
        lemma_chain_end_after(l, c as int);
    }
    if let Some(s) = l[j].1 {
        lemma_chain_end_after(l, s as int);
    }
}

/// Inside a pre-order range, every chain ends within the range.
pub proof fn lemma_nested(l: Seq<(Option<usize>, Option<usize>)>, c: int, j: int)
    requires
        preorder(l),
        0 <= c <= j < chain_end(l, c),
        c < l.len(),
    ensures
        chain_end(l, j) <= chain_end(l, c),
    decreases l.len() - c,
{
    if j > c {
        assert(pre_at(l, c));
        lemma_targets_inside(l, c);
        let se = sub_end(l, c);
        if j < se {
            let f = l[c].0.unwrap() as int;
            lemma_nested(l, f, j);
        } else {
            let s = l[c].1.unwrap() as int;
            lemma_nested(l, s, j);
        }
    }
}

/// `chain_end` from `b` reads only the links in `[b, e)`, where those stay
/// inside `[b, e)`.
pub proof fn lemma_chain_end_frame(
    l1: Seq<(Option<usize>, Option<usize>)>,
    l2: Seq<(Option<usize>, Option<usize>)>,
    b: int,
    e: int,
)
    requires
        0 <= b < e,
        e <= l1.len(),
        e <= l2.len(),
        forall|i: int| b <= i < e ==> l1[i] == l2[i],
        forall|i: int|
            b <= i < e ==> (#[trigger] l1[i].0 matches Some(c) ==> i < c < e) && (l1[i].1 matches Some(
                s,
            ) ==> i < s < e),
    ensures
        chain_end(l1, b) == chain_end(l2, b),
    decreases e - b,
{
    if let Some(s) = l1[b].1 {
        lemma_chain_end_frame(l1, l2, s as int, e);
    } else if let Some(c) = l1[b].0 {
        lemma_chain_end_frame(l1, l2, c as int, e);
    }
}

/// Measure for recursion over the document tree from `node`.
pub open spec fn dom_measure(w: Window, node: Option<usize>) -> int {
    match node {
        Some(i) => w.nodes@.len() - i,
        None => 0,
    }
}

/// Builds the boxes for `node` and the siblings after it, appending them
/// to `boxes`. Nodes that yield no box are skipped together with their
/// subtrees, and the first rendered sibling after them takes their place.
/// Returns the box of the first rendered node of the chain.
pub fn build_layout_tree(
    w: &Window,
    styles: &StyleSheet,
    node: Option<usize>,
    parent_obj: Option<usize>,
    boxes: &mut Vec<LayoutObject>,
) -> (r: Option<usize>)
    requires
        w.wf(),
        node matches Some(i) ==> i < w.nodes@.len(),
        parent_obj matches Some(p) ==> p < old(boxes)@.len(),
    ensures
        final(boxes)@.len() >= old(boxes)@.len(),
        forall|i: int| 0 <= i < old(boxes)@.len() ==> final(boxes)@[i] == old(boxes)@[i],
        forall|b: int|
            old(boxes)@.len() <= b < final(boxes)@.len() ==> box_ok(*w, *styles, final(boxes)@, b),
        forall|b: int|
            old(boxes)@.len() <= b < final(boxes)@.len() ==> #[trigger] pre_at(links(final(boxes)@), b),
        r matches Some(k) ==> chain_end(links(final(boxes)@), k as int) == final(boxes)@.len(),
        forall|b: int|
            old(boxes)@.len() <= b < final(boxes)@.len() ==> #[trigger] final(boxes)@[b].size == (
            LayoutSize { width: 0, height: 0 }),
        match first_rendered(*w, *styles, node) {
            None => r is None && final(boxes)@.len() == old(boxes)@.len(),
            Some(c) => (r matches Some(k) && k == old(boxes)@.len()) && final(boxes)@.len() > old(boxes)@.len()
                && final(boxes)@[r.unwrap() as int].node == c && final(boxes)@[r.unwrap() as int].parent
                == parent_obj,
        },
    decreases dom_measure(*w, node),
{
    let ghost start = boxes@;
    let mut target = node;
    let mut layout_object = create_layout_object(w, styles, target, parent_obj);
    while layout_object.is_none()
        invariant
            w.wf(),
            target matches Some(i) ==> i < w.nodes@.len(),
            first_rendered(*w, *styles, target) == first_rendered(*w, *styles, node),
            dom_measure(*w, target) <= dom_measure(*w, node),
            layout_object is None ==> !(target matches Some(i) && yields_box(*w, *styles, i as int)),
            layout_object matches Some(o) ==> (target matches Some(i) && yields_box(*w, *styles, i as int)
                && text_len_of(*w, i as int) <= usize::MAX && o == (LayoutObject {
                kind: box_kind(*w, *styles, i as int),
                node: i,
                text_len: text_len_of(*w, i as int) as usize,
                parent: parent_obj,
                first_child: None,
                next_sibling: None,
                size: LayoutSize { width: 0, height: 0 },
                point: LayoutPoint { x: 0, y: 0 },
            })),
        decreases dom_measure(*w, target),
    {
        match target {
            Some(n) => {
                assert(crate::dom::node_wf(w.nodes@, n as int));
                target = w.nodes[n].next_sibling;
                layout_object = create_layout_object(w, styles, target, parent_obj);
            },
            None => {
                return None;
            },
        }
    }
    let n = target.unwrap();
    let obj = layout_object.unwrap();
    assert(crate::dom::node_wf(w.nodes@, n as int));
    let idx = boxes.len();
    boxes.push(obj);
    let ghost after_push = boxes@;
    let dom_first_child = w.nodes[n].first_child;
    let dom_next_sibling = w.nodes[n].next_sibling;
    let first_child = build_layout_tree(w, styles, dom_first_child, Some(idx), boxes);
    let ghost after_children = boxes@;
    let next_sibling = build_layout_tree(w, styles, dom_next_sibling, parent_obj, boxes);
    let ghost after_siblings = boxes@;
    let mut o = boxes[idx];
    o.first_child = first_child;
    o.next_sibling = next_sibling;
    boxes.set(idx, o);
    proof {
        let bs = boxes@;
        let l = links(bs);
        let lc = links(after_children);
        let ls = links(after_siblings);
        let r = idx as int;
        let m = after_children.len() as int;
        let k = bs.len() as int;
        assert forall|i: int| r < i < k implies l[i] == ls[i] by {}
        assert forall|i: int| r < i < m implies lc[i] == ls[i] by {
            assert(after_siblings[i] == after_children[i]);
        }
        // the children's range keeps its chain ends
        assert forall|i: int| r < i < m implies #[trigger] pre_at(lc, i) && chain_end(l, i) == chain_end(lc, i) by {
            assert(pre_at(lc, i));
            assert forall|q: int| i <= q < m implies (#[trigger] lc[q].0 matches Some(c) ==> q < c < m) && (lc[q].1 matches Some(
                s,
            ) ==> q < s < m) by {
                assert(pre_at(lc, q));
                lemma_targets_inside(lc, q);
            }
            lemma_chain_end_frame(lc, l, i, m);
        }
        assert forall|i: int| m <= i < k implies #[trigger] pre_at(ls, i) && chain_end(l, i) == chain_end(ls, i) by {
            assert(pre_at(ls, i));
            assert forall|q: int| i <= q < k implies (#[trigger] ls[q].0 matches Some(c) ==> q < c < k) && (ls[q].1 matches Some(
                s,
            ) ==> q < s < k) by {
                assert(pre_at(ls, q));
                lemma_targets_inside(ls, q);
            }
            lemma_chain_end_frame(ls, l, i, k);
        }
        assert(l[r] == (first_child, next_sibling));
        if let Some(c) = first_child {
            assert(c == r + 1);
            assert(chain_end(lc, c as int) == m);
            assert(pre_at(lc, c as int));
            assert(chain_end(l, c as int) == m);
            assert(sub_end(l, r) == m);
        } else {
            assert(m == r + 1);
        }
        if let Some(s) = next_sibling {
            assert(s == m);
            assert(pre_at(ls, m));
            assert(chain_end(l, m) == k);
            assert(chain_end(l, r) == chain_end(l, m));
        } else {
            assert(k == m);
        }
        assert(chain_end(l, r) == k);
        assert forall|b: int| r <= b < k implies #[trigger] pre_at(l, b) by {
            if b == r {
            } else if b < m {
                assert(pre_at(lc, b));
                lemma_targets_inside(lc, b);
                if let Some(c) = lc[b].0 {
                    assert(pre_at(lc, c as int));
                    assert(chain_end(l, c as int) == chain_end(lc, c as int));
                }
            } else {
                assert(pre_at(ls, b));
                lemma_targets_inside(ls, b);
                if let Some(c) = ls[b].0 {
                    assert(pre_at(ls, c as int));
                    assert(chain_end(l, c as int) == chain_end(ls, c as int));
                }
            }
        }
        assert(bs == after_siblings.update(idx as int, o));
        assert(bs[idx as int] == o);
        assert forall|b: int| start.len() <= b < bs.len() implies #[trigger] bs[b].size == (LayoutSize {
            width: 0,
            height: 0,
        }) by {
            if b > idx && b < after_children.len() {
                assert(after_siblings[b] == after_children[b]);
            }
        }
        assert forall|b: int| start.len() <= b < bs.len() implies box_ok(*w, *styles, bs, b) by {
            if b == idx {
                assert(after_children[idx as int] == after_push[idx as int]);
                assert(after_siblings[idx as int] == after_push[idx as int]);
                if let Some(fc) = first_child {
                    assert(fc == idx + 1);
                    assert(after_siblings[fc as int] == after_children[fc as int]);
                    assert(bs[fc as int] == after_children[fc as int]);
                }
                if let Some(ns) = next_sibling {
                    assert(ns == after_children.len());
                    assert(bs[ns as int] == after_siblings[ns as int]);
                }
                assert(box_ok(*w, *styles, bs, b));
            } else if b < after_children.len() {
                let x = after_children[b];
                assert(box_ok(*w, *styles, after_children, b));
                assert(after_siblings[b] == after_children[b]);
                assert(bs[b] == after_children[b]);
                if let Some(fc) = x.first_child {
                    assert(bs[fc as int] == after_children[fc as int]);
                }
                if let Some(ns) = x.next_sibling {
                    assert(bs[ns as int] == after_children[ns as int]);
                }
            } else {
                let x = after_siblings[b];
                assert(box_ok(*w, *styles, after_siblings, b));
                if let Some(fc) = x.first_child {
                    assert(bs[fc as int] == after_siblings[fc as int]);
                }
                if let Some(ns) = x.next_sibling {
                    assert(bs[ns as int] == after_siblings[ns as int]);
                }
            }
        }
    }
    Some(idx)
}

/// `a + b`, or `u64::MAX` where the sum does not fit.
pub open spec fn sat_add(a: u64, b: u64) -> u64 {
    if a + b > u64::MAX {
        u64::MAX
    } else {
        (a + b) as u64
    }
}

/// `a * b`, or `u64::MAX` where the product does not fit.
pub open spec fn sat_mul(a: u64, b: u64) -> u64 {
    if a * b > u64::MAX {
        u64::MAX
    } else {
        (a * b) as u64
    }
}

fn saturating_mul(a: u64, b: u64) -> (r: u64)
    ensures
        r == sat_mul(a, b),
{
    match a.checked_mul(b) {
        Some(p) => p,
        None => u64::MAX,
    }
}

/// Measure for recursion along the forward links of a box arena.
pub open spec fn box_measure(len: nat, node: Option<usize>) -> int {
    match node {
        Some(i) => len - i,
        None => 0,
    }
}

/// The box after `i` in its sibling chain, where the link points forward.
pub open spec fn next_in_chain(bs: Seq<LayoutObject>, i: int) -> Option<usize> {
    match bs[i].next_sibling {
        Some(j) => if i < j < bs.len() {
            Some(j)
        } else {
            None
        },
        None => None,
    }
}

/// Height of a chain of boxes from `c`, stacked in flow, added to `acc`:
/// a box counts unless it is not a block and follows one that is not a
/// block either (then it sits on the line already counted).
pub open spec fn stacked_height(
    bs: Seq<LayoutObject>,
    c: Option<usize>,
    prev: LayoutObjectKind,
    acc: u64,
) -> u64
    decreases box_measure(bs.len(), c),
{
    match c {
        None => acc,
        Some(i) => if i < bs.len() {
            let x = bs[i as int];
            let h = if prev == LayoutObjectKind::Block || x.kind == LayoutObjectKind::Block {
                x.size.height
            } else {
                0
            };
            stacked_height(bs, next_in_chain(bs, i as int), x.kind, sat_add(acc, h))
        } else {
            acc
        },
    }
}

/// Sum of the widths and of the heights of a chain of boxes from `c`,
/// added to `acc`.
pub open spec fn summed_extent(bs: Seq<LayoutObject>, c: Option<usize>, acc: LayoutSize) -> LayoutSize
    decreases box_measure(bs.len(), c),
{
    match c {
        None => acc,
        Some(i) => if i < bs.len() {
            let x = bs[i as int];
            summed_extent(
                bs,
                next_in_chain(bs, i as int),
                LayoutSize {
                    width: sat_add(acc.width, x.size.width),
                    height: sat_add(acc.height, x.size.height),
                },
            )
        } else {
            acc
        },
    }
}

/// Size of a text of `len` characters: one line if it fits the content
/// area, else as many full-width lines as it needs.
pub open spec fn text_size(len: usize) -> LayoutSize {
    let width = sat_mul(CHAR_WIDTH, len as u64);
    if width > CONTENT_AREA_WIDTH {
        let lines = if width % CONTENT_AREA_WIDTH == 0 {
            width / CONTENT_AREA_WIDTH
        } else {
            (width / CONTENT_AREA_WIDTH + 1) as u64
        };
        LayoutSize {
            width: CONTENT_AREA_WIDTH,
            height: sat_mul(CHAR_HEIGHT_WITH_PADDING, lines),
        }
    } else {
        LayoutSize { width, height: CHAR_HEIGHT_WITH_PADDING }
    }
}

/// The size of box `b` inside a containing block of size `parent_size`,
/// from the current sizes of its children: a block is as wide as its
/// container and as high as its stacked children; an inline box sums its
/// children; a text box is sized by its characters.
pub open spec fn size_rule(bs: Seq<LayoutObject>, b: int, parent_size: LayoutSize) -> LayoutSize {
    let x = bs[b];
    match x.kind {
        LayoutObjectKind::Block => LayoutSize {
            width: parent_size.width,
            height: stacked_height(bs, x.first_child, LayoutObjectKind::Block, 0),
        },
        LayoutObjectKind::Inline => summed_extent(
            bs,
            x.first_child,
            LayoutSize { width: 0, height: 0 },
        ),
        LayoutObjectKind::Text => text_size(x.text_len),
    }
}

/// `a` and `b` are the same box but for size and position.
pub open spec fn same_box(a: LayoutObject, b: LayoutObject) -> bool {
    &&& a.kind == b.kind
    &&& a.node == b.node
    &&& a.text_len == b.text_len
    &&& a.parent == b.parent
    &&& a.first_child == b.first_child
    &&& a.next_sibling == b.next_sibling
}

/// `b` is `a` with at most sizes changed.
pub open spec fn only_sizes_changed(a: Seq<LayoutObject>, b: Seq<LayoutObject>) -> bool {
    &&& a.len() == b.len()
    &&& forall|i: int| 0 <= i < a.len() ==> same_box(#[trigger] a[i], b[i]) && a[i].point == b[i].point
}

/// `b` is `a` with at most positions changed.
pub open spec fn only_points_changed(a: Seq<LayoutObject>, b: Seq<LayoutObject>) -> bool {
    &&& a.len() == b.len()
    &&& forall|i: int| 0 <= i < a.len() ==> same_box(#[trigger] a[i], b[i]) && a[i].size == b[i].size
}

/// Sets the size of box `b` from its container's size and its children's
/// current sizes.
pub fn compute_size(boxes: &mut Vec<LayoutObject>, b: usize, parent_size: LayoutSize)
    requires
        links_forward(old(boxes)@),
        b < old(boxes)@.len(),
    ensures
        final(boxes)@ == old(boxes)@.update(
            b as int,
            LayoutObject { size: size_rule(old(boxes)@, b as int, parent_size), ..old(boxes)@[b as int] },
        ),
{
    let ghost bs = boxes@;
    let x = boxes[b];
    assert(forward_at(bs, b as int));
    let size = match x.kind {
        LayoutObjectKind::Block => {
            let mut height: u64 = 0;
            let mut child = x.first_child;
            let mut prev = LayoutObjectKind::Block;
            while child.is_some()
                invariant
                    boxes@ == bs,
                    links_forward(bs),
                    child matches Some(i) ==> i < bs.len(),
                    stacked_height(bs, child, prev, height) == stacked_height(
                        bs,
                        x.first_child,
                        LayoutObjectKind::Block,
                        0,
                    ),
                decreases box_measure(bs.len(), child),
            {
                let i = child.unwrap();
                let c = boxes[i];
                if prev == LayoutObjectKind::Block || c.kind == LayoutObjectKind::Block {
                    height = height.saturating_add(c.size.height);
                }
                prev = c.kind;
                child = c.next_sibling;
                assert(forward_at(bs, i as int));
                assert(child == next_in_chain(bs, i as int));
            }
            LayoutSize { width: parent_size.width, height }
        },
        LayoutObjectKind::Inline => {
            let mut acc = LayoutSize { width: 0, height: 0 };
            let mut child = x.first_child;
            while child.is_some()
                invariant
                    boxes@ == bs,
                    links_forward(bs),
                    child matches Some(i) ==> i < bs.len(),
                    summed_extent(bs, child, acc) == summed_extent(
                        bs,
                        x.first_child,
                        LayoutSize { width: 0, height: 0 },
                    ),
                decreases box_measure(bs.len(), child),
            {
                let i = child.unwrap();
                let c = boxes[i];
                acc = LayoutSize {
                    width: acc.width.saturating_add(c.size.width),
                    height: acc.height.saturating_add(c.size.height),
                };
                child = c.next_sibling;
                assert(forward_at(bs, i as int));
                assert(child == next_in_chain(bs, i as int));
            }
            acc
        },
        LayoutObjectKind::Text => {
            let width = saturating_mul(CHAR_WIDTH, x.text_len as u64);
            if width > CONTENT_AREA_WIDTH {
                let lines = if width % CONTENT_AREA_WIDTH == 0 {
                    width / CONTENT_AREA_WIDTH
                } else {
                    width / CONTENT_AREA_WIDTH + 1
                };
                LayoutSize {
                    width: CONTENT_AREA_WIDTH,
                    height: saturating_mul(CHAR_HEIGHT_WITH_PADDING, lines),
                }
            } else {
                LayoutSize { width, height: CHAR_HEIGHT_WITH_PADDING }
            }
        },
    };
    boxes[b].size = size;
}

/// The size of the content area, which contains the boxes without a parent.
pub open spec fn content_area() -> LayoutSize {
    LayoutSize { width: CONTENT_AREA_WIDTH, height: 0 }
}

/// The size of box `j`'s containing block: its parent box's, or the
/// content area's for a box without a parent.
pub open spec fn containing_size(bs: Seq<LayoutObject>, j: int) -> LayoutSize {
    match bs[j].parent {
        Some(p) => if p < bs.len() {
            bs[p as int].size
        } else {
            content_area()
        },
        None => content_area(),
    }
}

/// Box `j` has the size that the size rule gives it from its containing
/// block and its children.
pub open spec fn settled(bs: Seq<LayoutObject>, j: int) -> bool {
    bs[j].size == size_rule(bs, j, containing_size(bs, j))
}

/// Box `j`'s first child has `j` as parent, its next sibling shares its
/// parent, and its parent comes before it.
pub open spec fn parents_at(bs: Seq<LayoutObject>, j: int) -> bool {
    &&& (bs[j].first_child matches Some(c) ==> c < bs.len() && bs[c as int].parent == Some(
        j as usize,
    ))
    &&& (bs[j].next_sibling matches Some(s) ==> s < bs.len() && bs[s as int].parent
        == bs[j].parent)
    &&& (bs[j].parent matches Some(p) ==> p < j)
}

/// Parent links agree with the forward links.
pub open spec fn parents_ok(bs: Seq<LayoutObject>) -> bool {
    forall|j: int| 0 <= j < bs.len() ==> #[trigger] parents_at(bs, j)
}

/// A block box `j` has no parent or a block parent.
pub open spec fn block_in_block_at(bs: Seq<LayoutObject>, j: int) -> bool {
    bs[j].kind == LayoutObjectKind::Block ==> (bs[j].parent matches Some(p) ==> p < bs.len()
        && bs[p as int].kind == LayoutObjectKind::Block)
}

/// Every block box sits in a block box or at the top.
pub open spec fn blocks_in_blocks(bs: Seq<LayoutObject>) -> bool {
    forall|j: int| 0 <= j < bs.len() ==> #[trigger] block_in_block_at(bs, j)
}

/// `ps` has the width of box `b`'s containing block, or `b` and its
/// siblings sit in a box that is not a block.
pub open spec fn width_given(bs: Seq<LayoutObject>, b: int, ps: LayoutSize) -> bool {
    ||| (bs[b].parent matches Some(p) && p < bs.len() && bs[p as int].kind
        != LayoutObjectKind::Block)
    ||| containing_size(bs, b).width == ps.width
}

pub proof fn lemma_shape_kept(a: Seq<LayoutObject>, b: Seq<LayoutObject>)
    requires
        a.len() == b.len(),
        forall|i: int| 0 <= i < a.len() ==> same_box(#[trigger] a[i], b[i]),
    ensures
        links(a) == links(b),
        parents_ok(a) ==> parents_ok(b),
        blocks_in_blocks(a) ==> blocks_in_blocks(b),
        links_forward(a) ==> links_forward(b),
{
    assert(links(a) =~= links(b)) by {
        assert forall|i: int| 0 <= i < a.len() implies links(a)[i] == links(b)[i] by {
            assert(same_box(a[i], b[i]));
        }
    }
    if parents_ok(a) {
        assert forall|j: int| 0 <= j < b.len() implies #[trigger] parents_at(b, j) by {
            assert(parents_at(a, j));
            assert(same_box(a[j], b[j]));
            if let Some(c) = a[j].first_child {
                assert(same_box(a[c as int], b[c as int]));
            }
            if let Some(t) = a[j].next_sibling {
                assert(same_box(a[t as int], b[t as int]));
            }
        }
    }
    if blocks_in_blocks(a) {
        assert forall|j: int| 0 <= j < b.len() implies #[trigger] block_in_block_at(b, j) by {
            assert(block_in_block_at(a, j));
            assert(same_box(a[j], b[j]));
            if let Some(p) = a[j].parent {
                if p < a.len() {
                    assert(same_box(a[p as int], b[p as int]));
                }
            }
        }
    }
    if links_forward(a) {
        assert forall|j: int| 0 <= j < b.len() implies #[trigger] forward_at(b, j) by {
            assert(forward_at(a, j));
            assert(same_box(a[j], b[j]));
        }
    }
}

/// Inside the range of a chain from `c`, a box's parent is the chain's
/// parent or a box of the range before it.
pub proof fn lemma_parent_in(bs: Seq<LayoutObject>, c: int, j: int)
    requires
        preorder(links(bs)),
        parents_ok(bs),
        0 <= c <= j < chain_end(links(bs), c),
        c < bs.len(),
    ensures
        bs[j].parent == bs[c].parent || (bs[j].parent matches Some(p) && c <= p < j),
    decreases bs.len() - c,
{
    let l = links(bs);
    if j > c {
        assert(pre_at(l, c));
        assert(parents_at(bs, c));
        lemma_targets_inside(l, c);
        if j < sub_end(l, c) {
            let f = l[c].0.unwrap() as int;
            lemma_parent_in(bs, f, j);
        } else {
            let t = l[c].1.unwrap() as int;
            lemma_parent_in(bs, t, j);
        }
    }
}

/// Boxes `i` of `a` and `b` have the same size and kind.
pub open spec fn size_kind_eq(a: Seq<LayoutObject>, b: Seq<LayoutObject>, i: int) -> bool {
    a[i].size == b[i].size && a[i].kind == b[i].kind
}

/// The chain sums from `c` read only sizes and kinds in `c`'s range.
pub proof fn lemma_sums_frame(
    a: Seq<LayoutObject>,
    b: Seq<LayoutObject>,
    c: usize,
    k: LayoutObjectKind,
    acc: u64,
    ext: LayoutSize,
)
    requires
        preorder(links(a)),
        links(a) == links(b),
        c < a.len(),
        forall|i: int| c <= i < chain_end(links(a), c as int) ==> #[trigger] size_kind_eq(a, b, i),
    ensures
        stacked_height(a, Some(c), k, acc) == stacked_height(b, Some(c), k, acc),
        summed_extent(a, Some(c), ext) == summed_extent(b, Some(c), ext),
    decreases a.len() - c,
{
    let l = links(a);
    assert(a.len() == l.len() && b.len() == links(b).len());
    assert(pre_at(l, c as int));
    lemma_targets_inside(l, c as int);
    assert(l[c as int] == (a[c as int].first_child, a[c as int].next_sibling));
    assert(links(b)[c as int] == (b[c as int].first_child, b[c as int].next_sibling));
    assert(size_kind_eq(a, b, c as int));
    assert(next_in_chain(a, c as int) == next_in_chain(b, c as int));
    let x = a[c as int];
    let h = if k == LayoutObjectKind::Block || x.kind == LayoutObjectKind::Block {
        x.size.height
    } else {
        0
    };
    let ext2 = LayoutSize {
        width: sat_add(ext.width, x.size.width),
        height: sat_add(ext.height, x.size.height),
    };
    let nx = next_in_chain(a, c as int);
    assert(stacked_height(a, Some(c), k, acc) == stacked_height(a, nx, x.kind, sat_add(acc, h)));
    assert(stacked_height(b, Some(c), k, acc) == stacked_height(b, nx, x.kind, sat_add(acc, h)));
    assert(summed_extent(a, Some(c), ext) == summed_extent(a, nx, ext2));
    assert(summed_extent(b, Some(c), ext) == summed_extent(b, nx, ext2));
    if let Some(t) = nx {
        assert(chain_end(l, c as int) == chain_end(l, t as int));
        lemma_sums_frame(a, b, t, x.kind, sat_add(acc, h), ext2);
    }
}

/// The size rule for box `j` reads only `j` and the boxes of its subtree.
pub proof fn lemma_rule_frame(a: Seq<LayoutObject>, b: Seq<LayoutObject>, j: int, ps: LayoutSize)
    requires
        preorder(links(a)),
        links(a) == links(b),
        0 <= j < a.len(),
        a[j].kind == b[j].kind,
        a[j].text_len == b[j].text_len,
        forall|i: int| j < i < sub_end(links(a), j) ==> #[trigger] size_kind_eq(a, b, i),
    ensures
        size_rule(a, j, ps) == size_rule(b, j, ps),
{
    let l = links(a);
    assert(a.len() == l.len() && b.len() == links(b).len());
    assert(pre_at(l, j));
    lemma_targets_inside(l, j);
    assert(l[j] == (a[j].first_child, a[j].next_sibling));
    assert(links(b)[j] == (b[j].first_child, b[j].next_sibling));
    if let Some(c) = a[j].first_child {
        assert(sub_end(l, j) == chain_end(l, c as int));
        lemma_sums_frame(
            a,
            b,
            c,
            LayoutObjectKind::Block,
            0,
            LayoutSize { width: 0, height: 0 },
        );
    }
}

/// The containing size that box `j` is sized against by a size pass over
/// a sibling chain with parent `top` and containing size `ps`, where
/// `before` and `fin` are the boxes before and after the pass: `ps` for
/// the chain itself; below it, the parent's size, which for a block parent
/// is its width fixed before its children, and for any other parent is
/// its size from before the pass.
pub open spec fn pass_containing(
    fin: Seq<LayoutObject>,
    before: Seq<LayoutObject>,
    j: int,
    top: Option<usize>,
    ps: LayoutSize,
) -> LayoutSize {
    if fin[j].parent == top {
        ps
    } else {
        match fin[j].parent {
            Some(p) => if p < fin.len() {
                if fin[p as int].kind == LayoutObjectKind::Block {
                    fin[p as int].size
                } else {
                    before[p as int].size
                }
            } else {
                ps
            },
            None => ps,
        }
    }
}

/// After a size pass, box `j` has the size that the size rule gives it
/// from its children's final sizes and the containing size it was given.
pub open spec fn sized_in_pass(
    fin: Seq<LayoutObject>,
    before: Seq<LayoutObject>,
    j: int,
    top: Option<usize>,
    ps: LayoutSize,
) -> bool {
    fin[j].size == size_rule(fin, j, pass_containing(fin, before, j, top, ps))
}

/// Size pass over box `node`, its descendants and its later siblings, in
/// pre-order. A block takes its width from `parent_size` before its
/// children are sized; every box is sized again once its children are.
/// Where every block sits in a block, the pass leaves each box it visits
/// settled, and on boxes that are settled already it changes nothing.
#[verifier::rlimit(100)]
pub fn calculate_node_size(boxes: &mut Vec<LayoutObject>, node: Option<usize>, parent_size: LayoutSize)
    requires
        links_forward(old(boxes)@),
        preorder(links(old(boxes)@)),
        parents_ok(old(boxes)@),
        node matches Some(i) ==> i < old(boxes)@.len(),
    ensures
        only_sizes_changed(old(boxes)@, final(boxes)@),
        links_forward(final(boxes)@),
        links(final(boxes)@) == links(old(boxes)@),
        parents_ok(final(boxes)@),
        node is None ==> final(boxes)@ == old(boxes)@,
        node matches Some(b) ==> {
            let ce = chain_end(links(old(boxes)@), b as int);
            &&& forall|i: int|
                0 <= i < old(boxes)@.len() && !(b <= i < ce) ==> final(boxes)@[i] == old(boxes)@[i]
            &&& old(boxes)@[b as int].kind == LayoutObjectKind::Block ==> final(boxes)@[b as int].size.width
                == parent_size.width
            &&& old(boxes)@[b as int].kind == LayoutObjectKind::Text ==> final(boxes)@[b as int].size
                == text_size(old(boxes)@[b as int].text_len)
            &&& forall|j: int|
                b <= j < ce ==> #[trigger] sized_in_pass(
                    final(boxes)@,
                    old(boxes)@,
                    j,
                    old(boxes)@[b as int].parent,
                    parent_size,
                )
            &&& (blocks_in_blocks(old(boxes)@) && width_given(old(boxes)@, b as int, parent_size))
                ==> forall|j: int| b <= j < ce ==> #[trigger] settled(final(boxes)@, j)
            &&& (blocks_in_blocks(old(boxes)@) && width_given(old(boxes)@, b as int, parent_size)
                && forall|j: int| b <= j < ce ==> #[trigger] settled(old(boxes)@, j)) ==> final(boxes)@
                == old(boxes)@
        },
    decreases box_measure(old(boxes)@.len(), node),
{
    let b = match node {
        Some(b) => b,
        None => return ,
    };
    let ghost bs0 = boxes@;
    let ghost l = links(bs0);
    assert(forward_at(bs0, b as int));
    assert(pre_at(l, b as int));
    assert(parents_at(bs0, b as int));
    proof {
        lemma_targets_inside(l, b as int);
    }
    let ghost se = sub_end(l, b as int);
    let ghost ce = chain_end(l, b as int);
    let ghost premise = blocks_in_blocks(bs0) && width_given(bs0, b as int, parent_size);
    let ghost stable = premise && forall|j: int| b <= j < ce ==> #[trigger] settled(bs0, j);
    if boxes[b].kind == LayoutObjectKind::Block {
        compute_size(boxes, b, parent_size);
    }
    let ghost bs1 = boxes@;
    assert(only_sizes_changed(bs0, bs1));
    proof {
        lemma_shape_kept(bs0, bs1);
        if stable {
            assert(settled(bs0, b as int));
            assert(block_in_block_at(bs0, b as int));
            assert(bs1[b as int] == bs0[b as int]);
            assert(bs1 =~= bs0);
        }
    }
    let first_child = boxes[b].first_child;
    let own_size = boxes[b].size;
    proof {
        if let Some(c) = first_child {
            assert(bs1[c as int].parent == Some(b));
            assert(containing_size(bs1, c as int) == own_size);
            if stable {
                assert(forall|j: int| c <= j < chain_end(links(bs1), c as int) ==> #[trigger] settled(bs1, j));
            }
        }
    }
    calculate_node_size(boxes, first_child, own_size);
    let ghost bs2 = boxes@;
    compute_size(boxes, b, parent_size);
    let ghost bs3 = boxes@;
    assert(only_sizes_changed(bs0, bs3));
    proof {
        lemma_shape_kept(bs0, bs3);
        lemma_shape_kept(bs1, bs2);
        if let Some(c) = first_child {
            assert(sub_end(l, b as int) == chain_end(l, c as int));
        }
        if stable {
            assert(bs2 =~= bs1);
            lemma_rule_frame(bs0, bs2, b as int, parent_size);
            assert(bs3 =~= bs2);
        }
    }
    let next_sibling = boxes[b].next_sibling;
    proof {
        if let Some(t) = next_sibling {
            assert(t as int == se);
            assert(chain_end(l, t as int) == ce);
            assert(bs3[t as int].parent == bs3[b as int].parent);
            if let Some(p) = bs0[b as int].parent {
                assert(bs3[p as int] == bs0[p as int]);
            }
            if premise {
                assert(blocks_in_blocks(bs3));
                assert(width_given(bs3, t as int, parent_size));
            }
            if stable {
                assert(forall|j: int| t <= j < ce ==> #[trigger] settled(bs3, j));
            }
        }
    }
    calculate_node_size(boxes, next_sibling, parent_size);
    proof {
        let bs4 = boxes@;
        lemma_shape_kept(bs3, bs4);
        assert(bs4[b as int] == bs3[b as int]);
        assert forall|i: int| 0 <= i < bs0.len() implies same_box(#[trigger] bs0[i], bs4[i])
            && bs0[i].point == bs4[i].point by {
            assert(same_box(bs0[i], bs3[i]));
            assert(same_box(bs3[i], bs4[i]));
        }
        if stable {
            assert(bs4 =~= bs3);
        }
        let top = bs0[b as int].parent;
        assert forall|j: int| b <= j < ce implies #[trigger] sized_in_pass(bs4, bs0, j, top, parent_size) by {
            if j == b {
                assert forall|i: int| b < i < se implies #[trigger] size_kind_eq(bs2, bs4, i) by {}
                lemma_rule_frame(bs2, bs4, b as int, parent_size);
            } else if j < se {
                let c = first_child.unwrap();
                assert(sized_in_pass(bs2, bs1, j, Some(b), own_size));
                assert(pre_at(l, j));
                lemma_targets_inside(l, j);
                lemma_nested(l, c as int, j);
                lemma_parent_in(bs0, c as int, j);
                assert(bs4[j] == bs2[j]);
                assert forall|i: int| j < i < sub_end(links(bs2), j) implies #[trigger] size_kind_eq(bs2, bs4, i) by {}
                let c4 = pass_containing(bs4, bs0, j, top, parent_size);
                let c2 = pass_containing(bs2, bs1, j, Some(b), own_size);
                lemma_rule_frame(bs2, bs4, j, c2);
                if bs4[j].parent == Some(b) {
                    assert(top != Some(b));
                    assert(bs4[j].kind == LayoutObjectKind::Block ==> c4.width == c2.width);
                    assert(size_rule(bs4, j, c4) == size_rule(bs4, j, c2));
                } else {
                    assert(c4 == c2);
                }
            } else {
                let t = next_sibling.unwrap();
                assert(sized_in_pass(bs4, bs3, j, bs3[t as int].parent, parent_size));
                lemma_parent_in(bs0, t as int, j);
                assert(bs3[t as int].parent == top);
                if let Some(p) = bs4[j].parent {
                    if p < bs4.len() && bs4[j].parent != top {
                        assert(bs3[p as int] == bs0[p as int]);
                    }
                }
            }
        }
        if premise {
            assert forall|j: int| b <= j < ce implies #[trigger] settled(bs4, j) by {
                if j == b {
                    assert forall|i: int| b < i < se implies #[trigger] size_kind_eq(bs2, bs4, i) by {}
                    lemma_rule_frame(bs2, bs4, b as int, parent_size);
                    assert(block_in_block_at(bs0, b as int));
                    if let Some(p) = bs0[b as int].parent {
                        assert(bs4[p as int] == bs0[p as int]);
                    }
                } else if j < se {
                    let c = first_child.unwrap();
                    assert(settled(bs2, j));
                    assert(pre_at(l, j));
                    lemma_targets_inside(l, j);
                    lemma_nested(l, c as int, j);
                    lemma_parent_in(bs0, c as int, j);
                    assert forall|i: int| j < i < sub_end(links(bs2), j) implies #[trigger] size_kind_eq(bs2, bs4, i) by {}
                    lemma_rule_frame(bs2, bs4, j, containing_size(bs4, j));
                    lemma_rule_frame(bs2, bs4, j, containing_size(bs2, j));
                    assert(block_in_block_at(bs0, j));
                    assert(bs4[j] == bs2[j]);
                } else {
                }
            }
        }
    }
}

/// Where a box goes: after a block (or with no previous sibling) it starts
/// a new line at the containing origin's `x`, below that sibling; after an
/// inline or text box it continues that sibling's line, right of it.
pub open spec fn position_rule(
    origin: LayoutPoint,
    prev_kind: LayoutObjectKind,
    prev_point: Option<LayoutPoint>,
    prev_size: Option<LayoutSize>,
) -> LayoutPoint {
    match (prev_point, prev_size) {
        (Some(p), Some(s)) => if prev_kind == LayoutObjectKind::Block {
            LayoutPoint { x: origin.x, y: sat_add(p.y, s.height) }
        } else {
            LayoutPoint { x: sat_add(p.x, s.width), y: p.y }
        },
        _ => origin,
    }
}

/// The position of a box from the containing origin and what precedes it.
pub fn compute_position(
    origin: LayoutPoint,
    prev_kind: LayoutObjectKind,
    prev_point: Option<LayoutPoint>,
    prev_size: Option<LayoutSize>,
) -> (p: LayoutPoint)
    ensures
        p == position_rule(origin, prev_kind, prev_point, prev_size),
{
    match (prev_point, prev_size) {
        (Some(p), Some(s)) => {
            if prev_kind == LayoutObjectKind::Block {
                LayoutPoint { x: origin.x, y: p.y.saturating_add(s.height) }
            } else {
                LayoutPoint { x: p.x.saturating_add(s.width), y: p.y }
            }
        },
        _ => origin,
    }
}

/// Box `j`'s first child and next sibling are placed after `j` itself,
/// within the containing origin `origin`.
pub open spec fn placed_after(bs: Seq<LayoutObject>, j: int, origin: LayoutPoint) -> bool {
    let x = bs[j];
    let p = position_rule(origin, x.kind, Some(x.point), Some(x.size));
    &&& (x.first_child matches Some(c) ==> bs[c as int].point == p)
    &&& (x.next_sibling matches Some(s) ==> bs[s as int].point == p)
}

/// Position pass over box `node`, its descendants and its later siblings,
/// in pre-order. Every box gets the same containing origin; a box's first
/// child and its next sibling are placed after the box itself.
pub fn calculate_node_position(
    boxes: &mut Vec<LayoutObject>,
    node: Option<usize>,
    parent_point: LayoutPoint,
    previous_sibling_kind: LayoutObjectKind,
    previous_sibling_point: Option<LayoutPoint>,
    previous_sibling_size: Option<LayoutSize>,
)
    requires
        links_forward(old(boxes)@),
        preorder(links(old(boxes)@)),
        node matches Some(i) ==> i < old(boxes)@.len(),
    ensures
        only_points_changed(old(boxes)@, final(boxes)@),
        links_forward(final(boxes)@),
        links(final(boxes)@) == links(old(boxes)@),
        node is None ==> final(boxes)@ == old(boxes)@,
        node matches Some(b) ==> {
            &&& forall|i: int|
                0 <= i < old(boxes)@.len() && !(b <= i < chain_end(links(old(boxes)@), b as int))
                    ==> final(boxes)@[i] == old(boxes)@[i]
            &&& final(boxes)@[b as int].point == position_rule(
                parent_point,
                previous_sibling_kind,
                previous_sibling_point,
                previous_sibling_size,
            )
            &&& forall|j: int|
                b <= j < chain_end(links(old(boxes)@), b as int) ==> #[trigger] placed_after(
                    final(boxes)@,
                    j,
                    parent_point,
                )
            &&& ((old(boxes)@[b as int].point == position_rule(
                parent_point,
                previous_sibling_kind,
                previous_sibling_point,
                previous_sibling_size,
            ) && forall|j: int|
                b <= j < chain_end(links(old(boxes)@), b as int) ==> #[trigger] placed_after(
                    old(boxes)@,
                    j,
                    parent_point,
                )) ==> final(boxes)@ == old(boxes)@)
        },
    decreases box_measure(old(boxes)@.len(), node),
{
    let b = match node {
        Some(b) => b,
        None => return ,
    };
    let ghost bs0 = boxes@;
    let ghost l = links(bs0);
    assert(forward_at(bs0, b as int));
    assert(pre_at(l, b as int));
    proof {
        lemma_targets_inside(l, b as int);
    }
    let point = compute_position(
        parent_point,
        previous_sibling_kind,
        previous_sibling_point,
        previous_sibling_size,
    );
    boxes[b].point = point;
    let ghost bs1 = boxes@;
    assert(links(bs1) =~= l);
    assert(links_forward(bs1)) by {
        assert forall|i: int| 0 <= i < bs1.len() implies #[trigger] forward_at(bs1, i) by {
            assert(forward_at(bs0, i));
        }
    }
    let x = boxes[b];
    calculate_node_position(boxes, x.first_child, parent_point, x.kind, Some(x.point), Some(x.size));
    let ghost bs2 = boxes@;
    calculate_node_position(boxes, x.next_sibling, parent_point, x.kind, Some(x.point), Some(x.size));
    proof {
        let bs3 = boxes@;
        let se = sub_end(l, b as int);
        let ce = chain_end(l, b as int);
        assert forall|i: int| 0 <= i < bs0.len() implies same_box(#[trigger] bs0[i], bs3[i])
            && bs0[i].size == bs3[i].size by {
            assert(same_box(bs1[i], bs2[i]));
            assert(same_box(bs2[i], bs3[i]));
        }
        assert(links(bs3) =~= l);
        if let Some(c) = x.first_child {
            assert(chain_end(l, c as int) == se);
        }
        if let Some(s) = x.next_sibling {
            assert(chain_end(l, s as int) == ce);
        } else {
            assert(ce == se);
        }
        assert(bs3[b as int] == bs1[b as int]);
        if bs0[b as int].point == point && forall|j: int|
            b <= j < ce ==> #[trigger] placed_after(bs0, j, parent_point) {
            assert(bs1 =~= bs0);
            assert(placed_after(bs0, b as int, parent_point));
            if let Some(c) = x.first_child {
                assert forall|j: int| c <= j < se implies #[trigger] placed_after(bs1, j, parent_point) by {
                    assert(placed_after(bs0, j, parent_point));
                }
            }
            assert(bs2 =~= bs1);
            if let Some(t) = x.next_sibling {
                assert forall|j: int| t <= j < ce implies #[trigger] placed_after(bs2, j, parent_point) by {
                    assert(placed_after(bs0, j, parent_point));
                }
            }
            assert(bs3 =~= bs2);
        }
        assert forall|j: int| b <= j < ce implies #[trigger] placed_after(bs3, j, parent_point) by {
            if j == b {
            } else if j < se {
                let c = x.first_child.unwrap() as int;
                assert(placed_after(bs2, j, parent_point));
                assert(pre_at(l, j));
                lemma_targets_inside(l, j);
                lemma_nested(l, c, j);
                assert(bs3[j] == bs2[j]);
                if let Some(t) = bs2[j].first_child {
                    assert(bs3[t as int] == bs2[t as int]);
                }
                if let Some(t) = bs2[j].next_sibling {
                    assert(bs3[t as int] == bs2[t as int]);
                }
            } else {
            }
        }
    }
}

/// Node `i` is a `body` element.
pub open spec fn is_body(w: Window, i: int) -> bool {
    w.nodes@[i].kind matches NodeKind::Element(e) && e.tag@ == "body"@
}

/// The first `body` element in document order (pre-order: a node, then
/// its children, then its later siblings) from `node`.
pub open spec fn body_in(w: Window, node: Option<usize>) -> Option<usize>
    decreases dom_measure(w, node),
{
    match node {
        None => None,
        Some(i) => if i >= w.nodes@.len() {
            None
        } else if is_body(w, i as int) {
            Some(i)
        } else {
            let below = match w.nodes@[i as int].first_child {
                Some(c) => if i < c < w.nodes@.len() {
                    body_in(w, Some(c))
                } else {
                    None
                },
                None => None,
            };
            if below is Some {
                below
            } else {
                match w.nodes@[i as int].next_sibling {
                    Some(t) => if i < t < w.nodes@.len() {
                        body_in(w, Some(t))
                    } else {
                        None
                    },
                    None => None,
                }
            }
        },
    }
}

/// The first `body` element in document order from `node`.
pub fn find_body(w: &Window, node: Option<usize>) -> (r: Option<usize>)
    requires
        w.wf(),
        node matches Some(i) ==> i < w.nodes@.len(),
    ensures
        r == body_in(*w, node),
        r matches Some(i) ==> i < w.nodes@.len(),
    decreases dom_measure(*w, node),
{
    let i = match node {
        Some(i) => i,
        None => return None,
    };
    assert(crate::dom::node_wf(w.nodes@, i as int));
    if let NodeKind::Element(e) = &w.nodes[i].kind {
        if e.tag == String::from_str("body") {
            return Some(i);
        }
    }
    let below = find_body(w, w.nodes[i].first_child);
    if below.is_some() {
        return below;
    }
    find_body(w, w.nodes[i].next_sibling)
}

/// The containing size that box `j` of a newly built layout is sized
/// against: the content area at the top, a block parent's size, and the
/// zero size that any other parent has before it is sized.
pub open spec fn first_pass_containing(bs: Seq<LayoutObject>, j: int) -> LayoutSize {
    match bs[j].parent {
        Some(p) => if p < bs.len() && bs[p as int].kind == LayoutObjectKind::Block {
            bs[p as int].size
        } else if p < bs.len() {
            LayoutSize { width: 0, height: 0 }
        } else {
            content_area()
        },
        None => content_area(),
    }
}

/// The positioned box tree of a document.
#[derive(Debug, Clone)]
pub struct LayoutView {
    root: Option<usize>,
    boxes: Vec<LayoutObject>,
}

impl LayoutView {
    /// The boxes, root first when there is one.
    pub closed spec fn spec_boxes(&self) -> Seq<LayoutObject> {
        self.boxes@
    }

    /// The root box, if the document has anything to render.
    pub closed spec fn spec_root(&self) -> Option<usize> {
        self.root
    }

    /// Every box stands for a rendered node of `w` and is linked to the
    /// boxes of the next rendered nodes below and after its source.
    pub open spec fn wf_for(&self, w: Window, s: StyleSheet) -> bool {
        let bs = self.spec_boxes();
        &&& forall|b: int| 0 <= b < bs.len() ==> #[trigger] box_ok(w, s, bs, b)
        &&& preorder(links(bs))
        &&& parents_ok(bs)
        &&& forall|j: int| 0 <= j < bs.len() ==> #[trigger] placed_after(bs, j, LayoutPoint { x: 0, y: 0 })
        &&& blocks_in_blocks(bs) ==> forall|j: int| 0 <= j < bs.len() ==> #[trigger] settled(bs, j)
        &&& match first_rendered(w, s, body_in(w, Some(0usize))) {
            None => self.spec_root() is None && bs.len() == 0,
            Some(c) => self.spec_root() == Some(0usize) && bs.len() > 0 && bs[0].node == c
                && bs[0].parent is None && bs[0].point == (LayoutPoint { x: 0, y: 0 }) && chain_end(
                links(bs),
                0,
            ) == bs.len(),
        }
    }

    /// Builds the layout tree of the document under its first `body`
    /// element in document order, with `styles`, then sizes it within the
    /// content area and positions it from the page origin.
    pub fn new(root: &Window, styles: &StyleSheet) -> (v: LayoutView)
        requires
            root.wf(),
        ensures
            v.wf_for(*root, *styles),
            v.spec_root() matches Some(r) ==> v.spec_boxes()[r as int].point == (LayoutPoint {
                x: 0,
                y: 0,
            }),
            forall|j: int|
                0 <= j < v.spec_boxes().len() ==> #[trigger] v.spec_boxes()[j].size == size_rule(
                    v.spec_boxes(),
                    j,
                    first_pass_containing(v.spec_boxes(), j),
                ),
    {
        let body_root = find_body(root, Some(root.document()));
        let mut boxes: Vec<LayoutObject> = Vec::new();
        let r = build_layout_tree(root, styles, body_root, None, &mut boxes);
        let mut tree = LayoutView { root: r, boxes };
        proof {
            let bs = tree.boxes@;
            assert forall|b: int| 0 <= b < bs.len() implies forward_at(bs, b) by {
                assert(box_ok(*root, *styles, bs, b));
            }
            assert(preorder(links(bs)));
            assert forall|b: int| 0 <= b < bs.len() implies #[trigger] parents_at(bs, b) by {
                assert(box_ok(*root, *styles, bs, b));
            }
        }
        let ghost before = tree.boxes@;
        tree.update_layout();
        proof {
            let bs = tree.boxes@;
            lemma_shape_kept(bs, before);
            assert forall|j: int| 0 <= j < bs.len() implies #[trigger] bs[j].size == size_rule(
                bs,
                j,
                first_pass_containing(bs, j),
            ) by {
                assert(sized_in_pass(bs, before, j, None, content_area()));
                assert(box_ok(*root, *styles, before, j));
                if let Some(p) = bs[j].parent {
                    assert(before[p as int].size == (LayoutSize { width: 0, height: 0 }));
                }
            }
            assert forall|b: int| 0 <= b < bs.len() implies #[trigger] box_ok(*root, *styles, bs, b) by {
                assert(box_ok(*root, *styles, before, b));
                assert(same_box(before[b], bs[b]));
                if let Some(fc) = bs[b].first_child {
                    assert(same_box(before[fc as int], bs[fc as int]));
                }
                if let Some(ns) = bs[b].next_sibling {
                    assert(same_box(before[ns as int], bs[ns as int]));
                }
            }
        }
        tree
    }

    /// The box of the body element, or of the first rendered node from it.
    pub fn root(&self) -> (r: Option<usize>)
        ensures
            r == self.spec_root(),
    {
        self.root
    }

    /// Number of boxes.
    pub fn len(&self) -> (n: usize)
        ensures
            n == self.spec_boxes().len(),
    {
        self.boxes.len()
    }

    /// Box `i`.
    pub fn object(&self, i: usize) -> (o: LayoutObject)
        requires
            i < self.spec_boxes().len(),
        ensures
            o == self.spec_boxes()[i as int],
    {
        self.boxes[i]
    }

    /// In a finished layout, a box whose previous sibling is a block starts
    /// at or below that sibling's bottom edge, and one whose previous
    /// sibling is inline starts at or right of that sibling's right edge
    /// (where those edges fit in a `u64`).
    pub proof fn positions_follow_previous_sibling(self, w: Window, s: StyleSheet, j: int)
        requires
            self.wf_for(w, s),
            0 <= j < self.spec_boxes().len(),
            self.spec_boxes()[j].next_sibling is Some,
            self.spec_boxes()[j].point.y + self.spec_boxes()[j].size.height <= u64::MAX,
            self.spec_boxes()[j].point.x + self.spec_boxes()[j].size.width <= u64::MAX,
        ensures
            ({
                let bs = self.spec_boxes();
                let p = bs[j];
                let q = bs[p.next_sibling.unwrap() as int];
                &&& p.kind == LayoutObjectKind::Block ==> q.point.y >= p.point.y + p.size.height
                &&& p.kind == LayoutObjectKind::Inline ==> q.point.x >= p.point.x + p.size.width
            }),
    {
        assert(placed_after(self.spec_boxes(), j, LayoutPoint { x: 0, y: 0 }));
    }

    /// A finished layout is where the two passes put it, so running them
    /// again from the root with the same inputs changes nothing. For the
    /// position pass this always holds: the root is at the page origin and
    /// every box's first child and next sibling are placed after it. For
    /// the size pass it holds where every block box sits in a block box:
    /// then the root's container is the content area and every box is
    /// settled. (A block inside an inline box is sized from the inline
    /// box's size before that box is recomputed, so it may not be.)
    pub proof fn passes_are_settled(self, w: Window, s: StyleSheet)
        requires
            self.wf_for(w, s),
        ensures
            self.spec_root() matches Some(r) ==> {
                let bs = self.spec_boxes();
                let ce = chain_end(links(bs), r as int);
                &&& bs[r as int].point == position_rule(
                    LayoutPoint { x: 0, y: 0 },
                    LayoutObjectKind::Block,
                    None,
                    None,
                )
                &&& forall|j: int|
                    r <= j < ce ==> #[trigger] placed_after(bs, j, LayoutPoint { x: 0, y: 0 })
                &&& blocks_in_blocks(bs) ==> width_given(bs, r as int, content_area())
                &&& blocks_in_blocks(bs) ==> forall|j: int| r <= j < ce ==> #[trigger] settled(bs, j)
            },
    {
    }

    /// Runs the size pass and then the position pass over the whole tree.
    fn update_layout(&mut self)
        requires
            links_forward(old(self).boxes@),
            preorder(links(old(self).boxes@)),
            parents_ok(old(self).boxes@),
            old(self).root is None ==> old(self).boxes@.len() == 0,
            old(self).root is Some ==> old(self).boxes@[0].parent is None,
            old(self).root matches Some(r) ==> r == 0 && old(self).boxes@.len() > 0 && chain_end(
                links(old(self).boxes@),
                0,
            ) == old(self).boxes@.len(),
        ensures
            links(final(self).boxes@) == links(old(self).boxes@),
            parents_ok(final(self).boxes@),
            forall|j: int|
                0 <= j < final(self).boxes@.len() ==> #[trigger] sized_in_pass(
                    final(self).boxes@,
                    old(self).boxes@,
                    j,
                    None,
                    content_area(),
                ),
            blocks_in_blocks(old(self).boxes@) ==> forall|j: int|
                0 <= j < final(self).boxes@.len() ==> #[trigger] settled(final(self).boxes@, j),
            forall|j: int|
                0 <= j < final(self).boxes@.len() ==> #[trigger] placed_after(
                    final(self).boxes@,
                    j,
                    LayoutPoint { x: 0, y: 0 },
                ),
            final(self).root == old(self).root,
            final(self).boxes@.len() == old(self).boxes@.len(),
            forall|i: int|
                0 <= i < old(self).boxes@.len() ==> same_box(
                    #[trigger] old(self).boxes@[i],
                    final(self).boxes@[i],
                ),
            final(self).root matches Some(r) ==> final(self).boxes@[r as int].point == (LayoutPoint {
                x: 0,
                y: 0,
            }),
    {
        let ghost bs0 = self.boxes@;
        calculate_node_size(
            &mut self.boxes,
            self.root,
            LayoutSize { width: CONTENT_AREA_WIDTH, height: 0 },
        );
        let ghost bs1 = self.boxes@;
        assert(links(bs1) =~= links(bs0));
        proof {
            if blocks_in_blocks(bs0) {
                if let Some(r) = self.root {
                    assert(width_given(bs0, 0, content_area()));
                }
            }
        }
        calculate_node_position(
            &mut self.boxes,
            self.root,
            LayoutPoint { x: 0, y: 0 },
            LayoutObjectKind::Block,
            None,
            None,
        );
        proof {
            let bs2 = self.boxes@;
            assert forall|i: int| 0 <= i < bs0.len() implies same_box(#[trigger] bs0[i], bs2[i]) by {
                assert(same_box(bs0[i], bs1[i]));
                assert(same_box(bs1[i], bs2[i]));
            }
            lemma_shape_kept(bs1, bs2);
            assert forall|j: int| 0 <= j < bs2.len() implies #[trigger] sized_in_pass(bs2, bs0, j, None, content_area()) by {
                assert(sized_in_pass(bs1, bs0, j, None, content_area()));
                assert(same_box(bs1[j], bs2[j]));
                assert(pre_at(links(bs1), j));
                lemma_targets_inside(links(bs1), j);
                assert forall|i: int| j < i < sub_end(links(bs1), j) implies #[trigger] size_kind_eq(bs1, bs2, i) by {
                    assert(same_box(bs1[i], bs2[i]));
                }
                lemma_rule_frame(bs1, bs2, j, pass_containing(bs1, bs0, j, None, content_area()));
                if let Some(p) = bs1[j].parent {
                    if p < bs1.len() {
                        assert(same_box(bs1[p as int], bs2[p as int]));
                        assert(bs1[p as int].size == bs2[p as int].size);
                    }
                }
            }
            if blocks_in_blocks(bs0) {
                assert forall|j: int| 0 <= j < bs2.len() implies #[trigger] settled(bs2, j) by {
                    assert(settled(bs1, j));
                    assert(same_box(bs1[j], bs2[j]));
                    assert(pre_at(links(bs1), j));
                    lemma_targets_inside(links(bs1), j);
                    assert forall|i: int| j < i < sub_end(links(bs1), j) implies #[trigger] size_kind_eq(bs1, bs2, i) by {
                        assert(same_box(bs1[i], bs2[i]));
                    }
                    lemma_rule_frame(bs1, bs2, j, containing_size(bs1, j));
                    if let Some(p) = bs1[j].parent {
                        if p < bs1.len() {
                            assert(bs1[p as int].size == bs2[p as int].size);
                        }
                    }
                }
            }
        }
    }
}

} // verus!
