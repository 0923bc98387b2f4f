//! Pane layout: a tree of splits.
//!
//! A split is horizontal (its first part on the left) or vertical (its first
//! part on top); a leaf holds the id of a pane. The tree holds no content,
//! only the shape.
//!
//! The share of a split's first part is a number of billionths.
use vstd::prelude::*;

verus! {

/// The share of a part that is the whole.
pub const RATIO_ONE: u32 = 1_000_000_000;

pub const RATIO_HALF: u32 = 500_000_000;

/// What one step of a resize along an axis adds or takes.
pub const AXIS_STEP: u32 = 50_000_000;

#[derive(Debug, Clone, Copy, PartialEq, Eq, Structural)]
pub enum Dir {
    /// Left and right.
    H,
    /// Top and bottom.
    V,
}

#[derive(Debug)]
pub enum Node {
    Leaf { id: u64 },
    Split {
        dir: Dir,
        /// The share of `a`, in billionths.
        ratio: u32,
        a: Box<Node>,
        b: Box<Node>,
    },
}

#[derive(Debug)]
pub struct Layout {
    pub root: Node,
}

impl Clone for Node {
    fn clone(&self) -> (r: Self)
        ensures
            r == *self,
        decreases self,
    {
        match self {
            Node::Leaf { id } => Node::Leaf { id: *id },
            Node::Split { dir, ratio, a, b } => Node::Split {
                dir: *dir,
                ratio: *ratio,
                a: Box::new((&**a).clone()),
                b: Box::new((&**b).clone()),
            },
        }
    }
}

impl Clone for Layout {
    fn clone(&self) -> (r: Self)
        ensures
            r == *self,
    {
        Layout { root: self.root.clone() }
    }
}

/// A rectangle of cells.
#[derive(Debug, Clone, Copy, PartialEq, Eq, Structural)]
pub struct RectLike {
    pub x: u16,
    pub y: u16,
    pub w: u16,
    pub h: u16,
}

/// The panes of a tree, in the order of their places on the screen.
pub open spec fn leaves(n: Node) -> Seq<u64>
    decreases n,
{
    match n {
        Node::Leaf { id } => seq![id],
        Node::Split { a, b, .. } => leaves(*a) + leaves(*b),
    }
}

/// Whether the tree has a leaf for pane `id`.
pub open spec fn has_leaf(n: Node, id: u64) -> bool
    decreases n,
{
    match n {
        Node::Leaf { id: lid } => lid == id,
        Node::Split { a, b, .. } => has_leaf(*a, id) || has_leaf(*b, id),
    }
}

/// The place of pane `id` among the panes, where it occurs first.
pub open spec fn place_of(n: Node, id: u64) -> int
    decreases n,
{
    match n {
        Node::Leaf { .. } => 0,
        Node::Split { a, b, .. } => if has_leaf(*a, id) {
            place_of(*a, id)
        } else {
            leaves(*a).len() + place_of(*b, id)
        },
    }
}

/// The split of a leaf into two halves.
pub open spec fn halves(focus: u64, dir: Dir, new_id: u64, new_first: bool) -> Node {
    let old_leaf = Box::new(Node::Leaf { id: focus });
    let new_leaf = Box::new(Node::Leaf { id: new_id });
    if new_first {
        Node::Split { dir, ratio: RATIO_HALF, a: new_leaf, b: old_leaf }
    } else {
        Node::Split { dir, ratio: RATIO_HALF, a: old_leaf, b: new_leaf }
    }
}

/// The tree after the first leaf of pane `focus` was split.
pub open spec fn split_at(n: Node, focus: u64, dir: Dir, new_id: u64, new_first: bool) -> Node
    decreases n,
{
    match n {
        Node::Leaf { id } => if id == focus {
            halves(focus, dir, new_id, new_first)
        } else {
            n
        },
        Node::Split { dir: d, ratio, a, b } => if has_leaf(*a, focus) {
            Node::Split { dir: d, ratio, a: Box::new(split_at(*a, focus, dir, new_id, new_first)), b }
        } else {
            Node::Split { dir: d, ratio, a, b: Box::new(split_at(*b, focus, dir, new_id, new_first)) }
        },
    }
}

/// The id that no pane has.
pub const NO_PANE: u64 = 0xFFFF_FFFF_FFFF_FFFF;

/// The tree without pane `id`: where a split loses one part, the other takes
/// its place. `None` where nothing is left.
pub open spec fn without(n: Node, id: u64) -> Option<Node>
    decreases n,
{
    match n {
        Node::Leaf { id: lid } => if lid == id || lid == NO_PANE {
            None
        } else {
            Some(n)
        },
        Node::Split { dir, ratio, a, b } => match (without(*a, id), without(*b, id)) {
            (None, rest) => rest,
            (rest, None) => rest,
            (Some(a2), Some(b2)) => Some(
                Node::Split { dir, ratio, a: Box::new(a2), b: Box::new(b2) },
            ),
        },
    }
}

/// `x` kept between `lo` and `hi`.
pub open spec fn clamped(x: int, lo: int, hi: int) -> int {
    if x < lo {
        lo
    } else if x > hi {
        hi
    } else {
        x
    }
}

/// The tree after the boundary next to pane `focus` was moved: the split that
/// holds the pane's leaf itself changes, and no other.
pub open spec fn adjusted(n: Node, focus: u64, delta: int) -> Node
    decreases n,
{
    match n {
        Node::Leaf { .. } => n,
        Node::Split { dir, ratio, a, b } => if is_leaf(*a, focus) {
            Node::Split { dir, ratio: clamped(ratio + delta, 100_000_000, 900_000_000) as u32, a, b }
        } else if is_leaf(*b, focus) {
            Node::Split { dir, ratio: clamped(ratio - delta, 100_000_000, 900_000_000) as u32, a, b }
        } else if has_leaf(*a, focus) {
            Node::Split { dir, ratio, a: Box::new(adjusted(*a, focus, delta)), b }
        } else {
            Node::Split { dir, ratio, a, b: Box::new(adjusted(*b, focus, delta)) }
        },
    }
}

pub open spec fn is_leaf(n: Node, id: u64) -> bool {
    n matches Node::Leaf { id: lid } && lid == id
}

/// Whether some split along the axis holds pane `focus`.
pub open spec fn has_axis(n: Node, focus: u64, horizontal: bool) -> bool
    decreases n,
{
    match n {
        Node::Leaf { .. } => false,
        Node::Split { dir, a, b, .. } => if has_leaf(*a, focus) {
            has_axis(*a, focus, horizontal) || (dir == Dir::H) == horizontal
        } else if has_leaf(*b, focus) {
            has_axis(*b, focus, horizontal) || (dir == Dir::H) == horizontal
        } else {
            false
        },
    }
}

/// The tree after the innermost split along the axis that holds pane `focus`
/// was moved by a step, so that the pane's part grows or shrinks.
pub open spec fn axis_adjusted(n: Node, focus: u64, horizontal: bool, grow: bool) -> Node
    decreases n,
{
    match n {
        Node::Leaf { .. } => n,
        Node::Split { dir, ratio, a, b } => {
            let here = (dir == Dir::H) == horizontal;
            if has_leaf(*a, focus) {
                if has_axis(*a, focus, horizontal) {
                    Node::Split {
                        dir,
                        ratio,
                        a: Box::new(axis_adjusted(*a, focus, horizontal, grow)),
                        b,
                    }
                } else if here {
                    Node::Split { dir, ratio: stepped(ratio, grow), a, b }
                } else {
                    n
                }
            } else if has_leaf(*b, focus) {
                if has_axis(*b, focus, horizontal) {
                    Node::Split {
                        dir,
                        ratio,
                        a,
                        b: Box::new(axis_adjusted(*b, focus, horizontal, grow)),
                    }
                } else if here {
                    Node::Split { dir, ratio: stepped(ratio, !grow), a, b }
                } else {
                    n
                }
            } else {
                n
            }
        },
    }
}

/// A share after one step up or down.
pub open spec fn stepped(ratio: u32, up: bool) -> u32 {
    let moved = if up {
        ratio + AXIS_STEP
    } else {
        ratio - AXIS_STEP
    };
    clamped(moved, 50_000_000, 950_000_000) as u32
}

/// The tree with every split in halves.
pub open spec fn balanced(n: Node) -> Node
    decreases n,
{
    match n {
        Node::Leaf { .. } => n,
        Node::Split { dir, a, b, .. } => Node::Split {
            dir,
            ratio: RATIO_HALF,
            a: Box::new(balanced(*a)),
            b: Box::new(balanced(*b)),
        },
    }
}

/// The cells of `len` that a share of `ratio` gets: rounded, at least one.
pub open spec fn share(len: u16, ratio: u32) -> u16 {
    let cells = (len * ratio + RATIO_HALF) / RATIO_ONE as int;
    clamped(cells, 1, u16::MAX as int) as u16
}

/// Cells of `len` that are left after `taken`.
pub open spec fn left_over(len: u16, taken: u16) -> u16 {
    if len > taken {
        (len - taken) as u16
    } else {
        0
    }
}

/// `x` moved by `d`, modulo the range of coordinates.
pub open spec fn beyond(x: u16, d: u16) -> u16 {
    if x + d > u16::MAX {
        (x + d - 0x1_0000) as u16
    } else {
        (x + d) as u16
    }
}

/// The two parts of a split area.
pub open spec fn parts(dir: Dir, ratio: u32, area: RectLike) -> (RectLike, RectLike) {
    match dir {
        Dir::H => {
            let w = share(area.w, ratio);
            (
                RectLike { w, ..area },
                RectLike { x: beyond(area.x, w), w: left_over(area.w, w), ..area },
            )
        },
        Dir::V => {
            let h = share(area.h, ratio);
            (
                RectLike { h, ..area },
                RectLike { y: beyond(area.y, h), h: left_over(area.h, h), ..area },
            )
        },
    }
}

/// Where each pane of the tree stands in `area`.
pub open spec fn placed_in(n: Node, area: RectLike) -> Seq<(u64, RectLike)>
    decreases n,
{
    match n {
        Node::Leaf { id } => seq![(id, area)],
        Node::Split { dir, ratio, a, b } => {
            let (pa, pb) = parts(dir, ratio, area);
            placed_in(*a, pa) + placed_in(*b, pb)
        },
    }
}

/// The split that holds the leaf of pane `focus` itself: its direction, and
/// whether the leaf is its first part.
pub open spec fn side_of(n: Node, focus: u64) -> Option<(Dir, bool)>
    decreases n,
{
    match n {
        Node::Leaf { .. } => None,
        Node::Split { dir, a, b, .. } => if is_leaf(*a, focus) {
            Some((dir, true))
        } else if is_leaf(*b, focus) {
            Some((dir, false))
        } else {
            match side_of(*a, focus) {
                Some(s) => Some(s),
                None => side_of(*b, focus),
            }
        },
    }
}

/// A tree without the pane stays as it is.
proof fn lemma_split_elsewhere(n: Node, focus: u64, dir: Dir, new_id: u64, new_first: bool)
    requires
        !has_leaf(n, focus),
    ensures
        split_at(n, focus, dir, new_id, new_first) == n,
    decreases n,
{
    if let Node::Split { b, .. } = n {
        lemma_split_elsewhere(*b, focus, dir, new_id, new_first);
    }
}

fn share_of(len: u16, ratio: u32) -> (r: u16)
    ensures
        r == share(len, ratio),
{
    proof {
        assert(len * ratio <= u16::MAX * u32::MAX) by (nonlinear_arith)
            requires
                len <= u16::MAX,
                ratio <= u32::MAX,
        ;
    }
    let cells: u64 = (len as u64 * ratio as u64 + RATIO_HALF as u64) / RATIO_ONE as u64;
    if cells < 1 {
        1
    } else if cells > u16::MAX as u64 {
        u16::MAX
    } else {
        cells as u16
    }
}

fn clamp_ratio(ratio: i128, lo: u32, hi: u32) -> (r: u32)
    requires
        lo <= hi,
    ensures
        r == clamped(ratio as int, lo as int, hi as int),
{
    if ratio < lo as i128 {
        lo
    } else if ratio > hi as i128 {
        hi
    } else {
        ratio as u32
    }
}

pub fn contains_leaf(n: &Node, id: u64) -> (r: bool)
    ensures
        r == has_leaf(*n, id),
    decreases n,
{
    match n {
        Node::Leaf { id: lid } => *lid == id,
        Node::Split { a, b, .. } => contains_leaf(a, id) || contains_leaf(b, id),
    }
}

impl Layout {
    pub fn new(id: u64) -> (r: Self)
        ensures
            r.root == (Node::Leaf { id }),
    {
        Layout { root: Node::Leaf { id } }
    }

    /// The panes in the order of their places on the screen.
    pub fn leaf_ids(&self) -> (r: Vec<u64>)
        ensures
            r@ == leaves(self.root),
    {
        let mut out: Vec<u64> = Vec::new();
        Self::collect(&self.root, &mut out);
        assert(out@ =~= leaves(self.root));
        out
    }

    fn collect(n: &Node, out: &mut Vec<u64>)
        ensures
            final(out)@ == old(out)@ + leaves(*n),
        decreases n,
    {
        match n {
            Node::Leaf { id } => {
                out.push(*id);
                assert(out@ =~= old(out)@ + leaves(*n));
            },
            Node::Split { a, b, .. } => {
                Self::collect(a, out);
                Self::collect(b, out);
                assert(out@ =~= old(out)@ + leaves(*n));
            },
        }
    }

    /// Splits the leaf of pane `focus` along `dir`; the new pane comes second.
    /// Returns whether there is such a leaf.
    pub fn split_after(&mut self, focus: u64, dir: Dir, new_id: u64) -> (r: bool)
        ensures
            r == has_leaf(old(self).root, focus),
            final(self).root == split_at(old(self).root, focus, dir, new_id, false),
    {
        self.split_relative(focus, dir, new_id, false)
    }

    /// Splits the leaf of pane `focus` along `dir`; the new pane comes first
    /// if `new_first`, else second. Returns whether there is such a leaf.
    pub fn split_relative(&mut self, focus: u64, dir: Dir, new_id: u64, new_first: bool) -> (r: bool)
        ensures
            r == has_leaf(old(self).root, focus),
            final(self).root == split_at(old(self).root, focus, dir, new_id, new_first),
    {
        let mut found: bool = false;
        Self::split_rel_impl(&mut self.root, focus, dir, new_id, new_first, &mut found);
        found
    }

    fn split_rel_impl(
        n: &mut Node,
        focus: u64,
        dir: Dir,
        new_id: u64,
        new_first: bool,
        found: &mut bool,
    )
        ensures
            *final(found) == (*old(found) || has_leaf(*old(n), focus)),
            *final(n) == if *old(found) {
                *old(n)
            } else {
                split_at(*old(n), focus, dir, new_id, new_first)
            },
        decreases *old(n),
    {
        if *found {
            return ;
        }
        match n {
            Node::Leaf { id } => {
                if *id == focus {
                    let old_leaf = Box::new(Node::Leaf { id: focus });
                    let new_leaf = Box::new(Node::Leaf { id: new_id });
                    *n = if new_first {
                        Node::Split { dir, ratio: RATIO_HALF, a: new_leaf, b: old_leaf }
                    } else {
                        Node::Split { dir, ratio: RATIO_HALF, a: old_leaf, b: new_leaf }
                    };
                    *found = true;
                }
            },
            Node::Split { a, b, .. } => {
                proof {
                    if !has_leaf(**a, focus) {
                        lemma_split_elsewhere(**a, focus, dir, new_id, new_first);
                    }
                }
                Self::split_rel_impl(&mut *a, focus, dir, new_id, new_first, found);
                Self::split_rel_impl(&mut *b, focus, dir, new_id, new_first, found);
            },
        }
    }

    /// Puts a new pane behind pane `focus`, in the same split.
    pub fn split_with(&mut self, focus: u64, dir: Dir, new_id: u64) -> (r: bool)
        ensures
            r == has_leaf(old(self).root, focus),
            final(self).root == split_at(old(self).root, focus, dir, new_id, false),
    {
        self.split_relative(focus, dir, new_id, false)
    }

    /// Takes pane `id` out; a split that is left with one part becomes that
    /// part. Returns whether there was such a pane.
    pub fn close(&mut self, id: u64) -> (r: bool)
        ensures
            r == has_leaf(old(self).root, id),
            final(self).root == match without(old(self).root, id) {
                Some(n) => n,
                None => Node::Leaf { id: NO_PANE },
            },
    {
        let r: bool = contains_leaf(&self.root, id);
        let mut root = Node::Leaf { id: NO_PANE };
        std::mem::swap(&mut root, &mut self.root);
        if let Some(n) = Self::close_impl(root, id) {
            self.root = n;
        }
        r
    }

    fn close_impl(n: Node, id: u64) -> (r: Option<Node>)
        ensures
            r == without(n, id),
        decreases n,
    {
        match n {
            Node::Leaf { id: lid } => if lid == id || lid == NO_PANE {
                None
            } else {
                Some(Node::Leaf { id: lid })
            },
            Node::Split { dir, ratio, a, b } => {
                let a2 = Self::close_impl(*a, id);
                let b2 = Self::close_impl(*b, id);
                match (a2, b2) {
                    (None, rest) => rest,
                    (rest, None) => rest,
                    (Some(a3), Some(b3)) => Some(
                        Node::Split { dir, ratio, a: Box::new(a3), b: Box::new(b3) },
                    ),
                }
            },
        }
    }

    /// Moves the boundary of the split that pane `focus` stands in, so that
    /// the pane's share grows by `delta` billionths; a share stays between a
    /// tenth and nine tenths.
    pub fn adjust(&mut self, focus: u64, delta: i64)
        ensures
            final(self).root == adjusted(old(self).root, focus, delta as int),
    {
        Self::adjust_impl(&mut self.root, focus, delta);
    }

    fn adjust_impl(n: &mut Node, focus: u64, delta: i64)
        ensures
            *final(n) == adjusted(*old(n), focus, delta as int),
        decreases *old(n),
    {
        match n {
            Node::Leaf { .. } => {},
            Node::Split { ratio, a, b, .. } => {
                if leaf_is(&*a, focus) {
                    *ratio = clamp_ratio(*ratio as i128 + delta as i128, 100_000_000, 900_000_000);
                } else if leaf_is(&*b, focus) {
                    *ratio = clamp_ratio(*ratio as i128 - delta as i128, 100_000_000, 900_000_000);
                } else if contains_leaf(&*a, focus) {
                    Self::adjust_impl(&mut *a, focus, delta);
                } else {
                    Self::adjust_impl(&mut *b, focus, delta);
                }
            },
        }
    }

    /// Resizes pane `focus` by a step: in width by the nearest horizontal
    /// split around it, in height by the nearest vertical one. Returns whether
    /// there is such a split.
    pub fn adjust_axis(&mut self, focus: u64, horizontal: bool, grow: bool) -> (r: bool)
        ensures
            r == has_axis(old(self).root, focus, horizontal),
            final(self).root == axis_adjusted(old(self).root, focus, horizontal, grow),
    {
        Self::axis_impl(&mut self.root, focus, horizontal, grow)
    }

    fn axis_impl(n: &mut Node, focus: u64, horizontal: bool, grow: bool) -> (r: bool)
        ensures
            r == has_axis(*old(n), focus, horizontal),
            *final(n) == axis_adjusted(*old(n), focus, horizontal, grow),
            !r ==> *final(n) == *old(n),
        decreases *old(n),
    {
        match n {
            Node::Leaf { .. } => false,
            Node::Split { dir, ratio, a, b } => {
                let here: bool = (*dir == Dir::H) == horizontal;
                if contains_leaf(&*a, focus) {
                    if Self::axis_impl(&mut *a, focus, horizontal, grow) {
                        return true;
                    }
                    if here {
                        *ratio = step_ratio(*ratio, grow);
                    }
                    here
                } else if contains_leaf(&*b, focus) {
                    if Self::axis_impl(&mut *b, focus, horizontal, grow) {
                        return true;
                    }
                    if here {
                        *ratio = step_ratio(*ratio, !grow);
                    }
                    here
                } else {
                    false
                }
            },
        }
    }

    /// Puts every split in halves.
    pub fn balance(&mut self)
        ensures
            final(self).root == balanced(old(self).root),
    {
        Self::balance_impl(&mut self.root);
    }

    fn balance_impl(n: &mut Node)
        ensures
            *final(n) == balanced(*old(n)),
        decreases *old(n),
    {
        match n {
            Node::Leaf { .. } => {},
            Node::Split { ratio, a, b, .. } => {
                *ratio = RATIO_HALF;
                Self::balance_impl(&mut *a);
                Self::balance_impl(&mut *b);
            },
        }
    }

    /// Where each pane stands in `area`, in the order of `leaf_ids`.
    pub fn layout(&self, area: RectLike) -> (r: Vec<(u64, RectLike)>)
        ensures
            r@ == placed_in(self.root, area),
    {
        let mut out: Vec<(u64, RectLike)> = Vec::new();
        Self::layout_impl(&self.root, area, &mut out);
        assert(out@ =~= placed_in(self.root, area));
        out
    }

    fn layout_impl(n: &Node, area: RectLike, out: &mut Vec<(u64, RectLike)>)
        ensures
            final(out)@ == old(out)@ + placed_in(*n, area),
        decreases n,
    {
        match n {
            Node::Leaf { id } => {
                out.push((*id, area));
                assert(out@ =~= old(out)@ + placed_in(*n, area));
            },
            Node::Split { dir, ratio, a, b } => {
                let (pa, pb) = split_area(*dir, *ratio, area);
                Self::layout_impl(a, pa, out);
                Self::layout_impl(b, pb, out);
                assert(out@ =~= old(out)@ + placed_in(*n, area));
            },
        }
    }

    /// The direction of the split that pane `focus` stands in.
    pub fn parent_dir(&self, focus: u64) -> (r: Option<Dir>)
        ensures
            r == match side_of(self.root, focus) {
                Some(s) => Some(s.0),
                None => None,
            },
    {
        match Self::side_impl(&self.root, focus) {
            Some(s) => Some(s.0),
            None => None,
        }
    }

    /// The direction of the split that pane `focus` stands in, and whether
    /// the pane is its first part.
    pub fn side(&self, focus: u64) -> (r: Option<(Dir, bool)>)
        ensures
            r == side_of(self.root, focus),
    {
        Self::side_impl(&self.root, focus)
    }

    fn side_impl(n: &Node, focus: u64) -> (r: Option<(Dir, bool)>)
        ensures
            r == side_of(*n, focus),
        decreases n,
    {
        match n {
            Node::Leaf { .. } => None,
            Node::Split { dir, a, b, .. } => {
                if leaf_is(a, focus) {
                    return Some((*dir, true));
                }
                if leaf_is(b, focus) {
                    return Some((*dir, false));
                }
                match Self::side_impl(a, focus) {
                    Some(s) => Some(s),
                    None => Self::side_impl(b, focus),
                }
            },
        }
    }
}

fn leaf_is(n: &Node, id: u64) -> (r: bool)
    ensures
        r == is_leaf(*n, id),
{
    match n {
        Node::Leaf { id: lid } => *lid == id,
        Node::Split { .. } => false,
    }
}

fn step_ratio(ratio: u32, up: bool) -> (r: u32)
    ensures
        r == stepped(ratio, up),
{
    let moved: i128 = if up {
        ratio as i128 + AXIS_STEP as i128
    } else {
        ratio as i128 - AXIS_STEP as i128
    };
    clamp_ratio(moved, 50_000_000, 950_000_000)
}

fn split_area(dir: Dir, ratio: u32, area: RectLike) -> (r: (RectLike, RectLike))
    ensures
        r == parts(dir, ratio, area),
{
    match dir {
        Dir::H => {
            let w: u16 = share_of(area.w, ratio);
            (
                RectLike { x: area.x, y: area.y, w, h: area.h },
                RectLike {
                    x: area.x.wrapping_add(w),
                    y: area.y,
                    w: area.w.saturating_sub(w),
                    h: area.h,
                },
            )
        },
        Dir::V => {
            let h: u16 = share_of(area.h, ratio);
            (
                RectLike { x: area.x, y: area.y, w: area.w, h },
                RectLike {
                    x: area.x,
                    y: area.y.wrapping_add(h),
                    w: area.w,
                    h: area.h.saturating_sub(h),
                },
            )
        },
    }
}

/// A tree has at least one pane; `place_of` is where a pane occurs first.
pub proof fn law_leaves_hold_the_panes(n: Node, id: u64)
    ensures
        leaves(n).len() > 0,
        has_leaf(n, id) <==> leaves(n).contains(id),
        has_leaf(n, id) ==> {
            &&& 0 <= place_of(n, id) < leaves(n).len()
            &&& leaves(n)[place_of(n, id)] == id
            &&& forall|j: int| 0 <= j < place_of(n, id) ==> #[trigger] leaves(n)[j] != id
        },
    decreases n,
{
    match n {
        Node::Leaf { id: lid } => {
            assert(leaves(n)[0] == lid);
        },
        Node::Split { a, b, .. } => {
            law_leaves_hold_the_panes(*a, id);
            law_leaves_hold_the_panes(*b, id);
            let la = leaves(*a);
            let lb = leaves(*b);
            if has_leaf(*a, id) {
                assert(leaves(n)[place_of(*a, id)] == id);
            } else if has_leaf(*b, id) {
                assert(leaves(n)[la.len() + place_of(*b, id)] == id);
                assert forall|j: int| 0 <= j < place_of(n, id) implies #[trigger] leaves(n)[j]
                    != id by {
                    if j < la.len() {
                        assert(la[j] != id);
                    } else {
                        assert(lb[j - la.len()] != id);
                    }
                }
            } else if leaves(n).contains(id) {
                let j = choose|j: int| 0 <= j < leaves(n).len() && leaves(n)[j] == id;
                if j < la.len() {
                    assert(la[j] == id);
                } else {
                    assert(lb[j - la.len()] == id);
                }
            }
        },
    }
}

/// A split puts the new pane right before or behind the one that is split and
/// leaves the order of the others.
pub proof fn law_split_puts_the_new_pane_next(
    n: Node,
    focus: u64,
    dir: Dir,
    new_id: u64,
    new_first: bool,
)
    requires
        has_leaf(n, focus),
    ensures
        leaves(split_at(n, focus, dir, new_id, new_first)) == leaves(n).insert(
            place_of(n, focus) + if new_first {
                0int
            } else {
                1
            },
            new_id,
        ),
    decreases n,
{
    let after = split_at(n, focus, dir, new_id, new_first);
    let at = place_of(n, focus) + if new_first {
        0int
    } else {
        1
    };
    law_leaves_hold_the_panes(n, focus);
    match n {
        Node::Leaf { .. } => {
            reveal_with_fuel(leaves, 2);
            if new_first {
                assert(leaves(after) =~= seq![new_id] + seq![focus]);
            } else {
                assert(leaves(after) =~= seq![focus] + seq![new_id]);
            }
            assert(leaves(after) =~= leaves(n).insert(at, new_id));
        },
        Node::Split { a, b, .. } => {
            law_leaves_hold_the_panes(*a, focus);
            if has_leaf(*a, focus) {
                law_split_puts_the_new_pane_next(*a, focus, dir, new_id, new_first);
            } else {
                law_leaves_hold_the_panes(*b, focus);
                law_split_puts_the_new_pane_next(*b, focus, dir, new_id, new_first);
            }
            assert(leaves(after) =~= leaves(n).insert(at, new_id));
        },
    }
}

/// The panes that stay when pane `id` is closed.
pub open spec fn staying(id: u64) -> spec_fn(u64) -> bool {
    |x: u64| x != id && x != NO_PANE
}

/// Closing a pane takes out that pane alone and leaves the order of the
/// others.
pub proof fn law_close_takes_the_pane_out(n: Node, id: u64)
    ensures
        leaves(n).filter(staying(id)) == match without(n, id) {
            Some(m) => leaves(m),
            None => Seq::empty(),
        },
    decreases n,
{
    let keep = staying(id);
    reveal(Seq::filter);
    match n {
        Node::Leaf { id: lid } => {
            assert(leaves(n).drop_last() =~= Seq::<u64>::empty());
            assert(leaves(n).last() == lid);
            assert(leaves(n).drop_last().filter(keep) =~= Seq::<u64>::empty());
            assert(leaves(n).filter(keep) =~= if keep(lid) {
                seq![lid]
            } else {
                Seq::empty()
            });
        },
        Node::Split { a, b, .. } => {
            law_close_takes_the_pane_out(*a, id);
            law_close_takes_the_pane_out(*b, id);
            Seq::filter_distributes_over_add(leaves(*a), leaves(*b), keep);
            assert(Seq::<u64>::empty() + leaves(*b).filter(keep) =~= leaves(*b).filter(keep));
            assert(leaves(*a).filter(keep) + Seq::<u64>::empty() =~= leaves(*a).filter(keep));
        },
    }
}

proof fn lemma_without_elsewhere(n: Node, id: u64)
    requires
        !has_leaf(n, id),
        !has_leaf(n, NO_PANE),
    ensures
        without(n, id) == Some(n),
    decreases n,
{
    if let Node::Split { a, b, .. } = n {
        lemma_without_elsewhere(*a, id);
        lemma_without_elsewhere(*b, id);
    }
}

/// Closing a pane that was just split off restores the tree.
pub proof fn law_close_undoes_split(
    n: Node,
    focus: u64,
    dir: Dir,
    new_id: u64,
    new_first: bool,
)
    requires
        has_leaf(n, focus),
        !has_leaf(n, new_id),
        !has_leaf(n, NO_PANE),
        new_id != NO_PANE,
    ensures
        without(split_at(n, focus, dir, new_id, new_first), new_id) == Some(n),
    decreases n,
{
    match n {
        Node::Leaf { id } => {
            assert(without(Node::Leaf { id: focus }, new_id) == Some(n));
            assert(without(Node::Leaf { id: new_id }, new_id) is None);
            reveal_with_fuel(without, 2);
        },
        Node::Split { a, b, .. } => {
            if has_leaf(*a, focus) {
                law_close_undoes_split(*a, focus, dir, new_id, new_first);
                lemma_without_elsewhere(*b, new_id);
            } else {
                lemma_without_elsewhere(*a, new_id);
                law_close_undoes_split(*b, focus, dir, new_id, new_first);
            }
        },
    }
}

/// The panes are laid out in the order of the leaves.
pub proof fn law_layout_follows_the_leaves(n: Node, area: RectLike)
    ensures
        placed_in(n, area).map_values(|p: (u64, RectLike)| p.0) == leaves(n),
    decreases n,
{
    let ids = |p: (u64, RectLike)| p.0;
    match n {
        Node::Leaf { .. } => {
            assert(placed_in(n, area).map_values(ids) =~= leaves(n));
        },
        Node::Split { dir, ratio, a, b } => {
            let (pa, pb) = parts(dir, ratio, area);
            law_layout_follows_the_leaves(*a, pa);
            law_layout_follows_the_leaves(*b, pb);
            assert(placed_in(n, area).map_values(ids) =~= placed_in(*a, pa).map_values(ids)
                + placed_in(*b, pb).map_values(ids));
        },
    }
}

/// Resizing and balancing change no pane and no pane's place in the order.
pub proof fn law_resizing_keeps_the_panes(
    n: Node,
    focus: u64,
    delta: int,
    horizontal: bool,
    grow: bool,
)
    ensures
        leaves(adjusted(n, focus, delta)) == leaves(n),
        leaves(axis_adjusted(n, focus, horizontal, grow)) == leaves(n),
        leaves(balanced(n)) == leaves(n),
    decreases n,
{
    if let Node::Split { a, b, .. } = n {
        law_resizing_keeps_the_panes(*a, focus, delta, horizontal, grow);
        law_resizing_keeps_the_panes(*b, focus, delta, horizontal, grow);
    }
}

/// Whether every split of the tree is in halves.
pub open spec fn in_halves(n: Node) -> bool
    decreases n,
{
    match n {
        Node::Leaf { .. } => true,
        Node::Split { ratio, a, b, .. } => ratio == RATIO_HALF && in_halves(*a) && in_halves(*b),
    }
}

/// Balancing leaves every split in halves; a tree of halves stays as it is.
pub proof fn law_balance_halves(n: Node)
    ensures
        in_halves(balanced(n)),
        in_halves(n) ==> balanced(n) == n,
    decreases n,
{
    if let Node::Split { a, b, .. } = n {
        law_balance_halves(*a);
        law_balance_halves(*b);
    }
}

/// Whether a cell lies in a rectangle.
pub open spec fn in_rect(r: RectLike, px: int, py: int) -> bool {
    r.x <= px < r.x + r.w && r.y <= py < r.y + r.h
}

/// Whether each split of the tree has a cell for both of its parts.
pub open spec fn roomy(n: Node, area: RectLike) -> bool
    decreases n,
{
    match n {
        Node::Leaf { .. } => true,
        Node::Split { dir, ratio, a, b } => {
            let (pa, pb) = parts(dir, ratio, area);
            &&& match dir {
                Dir::H => pa.w < area.w,
                Dir::V => pa.h < area.h,
            }
            &&& roomy(*a, pa)
            &&& roomy(*b, pb)
        },
    }
}

/// How many panes a cell belongs to.
pub open spec fn covering(placed: Seq<(u64, RectLike)>, px: int, py: int) -> nat
    decreases placed.len(),
{
    if placed.len() == 0 {
        0
    } else {
        covering(placed.drop_last(), px, py) + if in_rect(placed.last().1, px, py) {
            1nat
        } else {
            0
        }
    }
}

proof fn lemma_covering_add(s: Seq<(u64, RectLike)>, t: Seq<(u64, RectLike)>, px: int, py: int)
    ensures
        covering(s + t, px, py) == covering(s, px, py) + covering(t, px, py),
    decreases t.len(),
{
    if t.len() == 0 {
        assert(s + t =~= s);
    } else {
        assert((s + t).drop_last() =~= s + t.drop_last());
        lemma_covering_add(s, t.drop_last(), px, py);
    }
}

/// Where there is room for every pane, the panes tile the area: each of its
/// cells belongs to exactly one pane, and no cell outside to any.
pub proof fn law_panes_tile_the_area(n: Node, area: RectLike, px: int, py: int)
    requires
        roomy(n, area),
        area.x + area.w <= u16::MAX,
        area.y + area.h <= u16::MAX,
    ensures
        covering(placed_in(n, area), px, py) == if in_rect(area, px, py) {
            1nat
        } else {
            0
        },
    decreases n,
{
    match n {
        Node::Leaf { .. } => {
            let s = placed_in(n, area);
            assert(s.drop_last() =~= Seq::empty());
            assert(s.last().1 == area);
            assert(covering(s.drop_last(), px, py) == 0);
        },
        Node::Split { dir, ratio, a, b } => {
            let (pa, pb) = parts(dir, ratio, area);
            law_panes_tile_the_area(*a, pa, px, py);
            law_panes_tile_the_area(*b, pb, px, py);
            lemma_covering_add(placed_in(*a, pa), placed_in(*b, pb), px, py);
        },
    }
}

/// Whether one rectangle ends where another begins, or before: to the left of
/// it or above it.
pub open spec fn comes_before(a: RectLike, b: RectLike) -> bool {
    a.x + a.w <= b.x || a.y + a.h <= b.y
}

/// Whether a rectangle lies in an area.
pub open spec fn lies_in(r: RectLike, area: RectLike) -> bool {
    &&& area.x <= r.x && r.x + r.w <= area.x + area.w
    &&& area.y <= r.y && r.y + r.h <= area.y + area.h
}

/// Where there is room for every pane, the panes are numbered in the order of
/// their places on the screen: each lies in the area, and to the left of those
/// with higher numbers or above them.
pub proof fn law_numbers_follow_the_screen(n: Node, area: RectLike)
    requires
        roomy(n, area),
        area.x + area.w <= u16::MAX,
        area.y + area.h <= u16::MAX,
    ensures
        forall|i: int|
            0 <= i < placed_in(n, area).len() ==> lies_in((#[trigger] placed_in(n, area)[i]).1, area),
        forall|i: int, j: int|
            0 <= i < j < placed_in(n, area).len() ==> comes_before(
                (#[trigger] placed_in(n, area)[i]).1,
                (#[trigger] placed_in(n, area)[j]).1,
            ),
    decreases n,
{
    if let Node::Split { dir, ratio, a, b } = n {
        let (pa, pb) = parts(dir, ratio, area);
        law_numbers_follow_the_screen(*a, pa);
        law_numbers_follow_the_screen(*b, pb);
        let sa = placed_in(*a, pa);
        let sb = placed_in(*b, pb);
        let s = placed_in(n, area);
        assert forall|i: int| 0 <= i < s.len() implies lies_in((#[trigger] s[i]).1, area) by {
            if i < sa.len() {
                assert(s[i] == sa[i]);
                assert(lies_in(sa[i].1, pa));
            } else {
                assert(s[i] == sb[i - sa.len()]);
                assert(lies_in(sb[i - sa.len()].1, pb));
            }
        }
        assert forall|i: int, j: int| 0 <= i < j < s.len() implies comes_before(
            (#[trigger] s[i]).1,
            (#[trigger] s[j]).1,
        ) by {
            if j < sa.len() {
                assert(s[i] == sa[i] && s[j] == sa[j]);
            } else {
                assert(s[j] == sb[j - sa.len()]);
                assert(lies_in(sb[j - sa.len()].1, pb));
                if i < sa.len() {
                    assert(s[i] == sa[i]);
                    assert(lies_in(sa[i].1, pa));
                } else {
                    assert(s[i] == sb[i - sa.len()]);
                }
            }
        }
    }
}

/// The rectangle of pane `focus`.
pub open spec fn rect_of(n: Node, area: RectLike, focus: u64) -> RectLike {
    placed_in(n, area)[place_of(n, focus)].1
}

/// Splitting a pane divides its rectangle and leaves the others: the two parts
/// lie side by side, or one below the other, they fill the rectangle, and they
/// are as large as each other, up to a cell.
pub proof fn law_split_divides_the_rectangle(
    n: Node,
    area: RectLike,
    focus: u64,
    dir: Dir,
    new_id: u64,
    new_first: bool,
)
    requires
        has_leaf(n, focus),
        !has_leaf(n, new_id),
        rect_of(n, area, focus).x + rect_of(n, area, focus).w <= u16::MAX,
        rect_of(n, area, focus).y + rect_of(n, area, focus).h <= u16::MAX,
        rect_of(n, area, focus).w >= 1,
        rect_of(n, area, focus).h >= 1,
    ensures
        ({
            let m = split_at(n, focus, dir, new_id, new_first);
            let old_rect = rect_of(n, area, focus);
            let first = rect_of(m, area, if new_first { new_id } else { focus });
            let second = rect_of(m, area, if new_first { focus } else { new_id });
            match dir {
                Dir::H => {
                    &&& first.x == old_rect.x
                    &&& second.x == first.x + first.w
                    &&& first.w + second.w == old_rect.w
                    &&& second.w <= first.w <= second.w + 1
                    &&& first.y == second.y == old_rect.y
                    &&& first.h == second.h == old_rect.h
                },
                Dir::V => {
                    &&& first.y == old_rect.y
                    &&& second.y == first.y + first.h
                    &&& first.h + second.h == old_rect.h
                    &&& second.h <= first.h <= second.h + 1
                    &&& first.x == second.x == old_rect.x
                    &&& first.w == second.w == old_rect.w
                },
            }
        }),
        forall|id: u64| #[trigger]
            has_leaf(n, id) && id != focus ==> rect_of(
                split_at(n, focus, dir, new_id, new_first),
                area,
                id,
            ) == rect_of(n, area, id),
    decreases n,
{
    let m = split_at(n, focus, dir, new_id, new_first);
    match n {
        Node::Leaf { .. } => {
            assert(n == (Node::Leaf { id: focus }));
            let (pa, pb) = parts(dir, RATIO_HALF, area);
            assert(rect_of(n, area, focus) == area);
            reveal_with_fuel(has_leaf, 2);
            reveal_with_fuel(place_of, 2);
            assert(placed_in(*m->a, pa).len() == 1 && placed_in(*m->b, pb).len() == 1);
            assert(placed_in(m, area) =~= placed_in(*m->a, pa) + placed_in(*m->b, pb));
            assert(placed_in(m, area)[0].1 == pa);
            assert(placed_in(m, area)[1].1 == pb);
            assert(leaves(*m->a).len() == 1);
            assert(new_id != focus);
            assert(place_of(m, if new_first { new_id } else { focus }) == 0);
            assert(place_of(m, if new_first { focus } else { new_id }) == 1);
            assert((area.w * RATIO_HALF + RATIO_HALF) / RATIO_ONE as int == (area.w + 1) / 2)
                by (nonlinear_arith)
                requires
                    RATIO_HALF == 500_000_000,
                    RATIO_ONE == 1_000_000_000,
            ;
            assert((area.h * RATIO_HALF + RATIO_HALF) / RATIO_ONE as int == (area.h + 1) / 2)
                by (nonlinear_arith)
                requires
                    RATIO_HALF == 500_000_000,
                    RATIO_ONE == 1_000_000_000,
            ;
        },
        Node::Split { dir: d, ratio, a, b } => {
            let (pa, pb) = parts(d, ratio, area);
            lemma_rect_of_part(n, area, focus);
            lemma_split_leaves(n, focus, dir, new_id, new_first);
            lemma_rect_of_part(m, area, focus);
            lemma_rect_of_part(m, area, new_id);
            if has_leaf(*a, focus) {
                lemma_split_leaves(*a, focus, dir, new_id, new_first);
                law_split_divides_the_rectangle(*a, pa, focus, dir, new_id, new_first);
            } else {
                lemma_split_leaves(*b, focus, dir, new_id, new_first);
                law_split_divides_the_rectangle(*b, pb, focus, dir, new_id, new_first);
            }
            assert forall|id: u64| #[trigger] has_leaf(n, id) && id != focus implies rect_of(
                m,
                area,
                id,
            ) == rect_of(n, area, id) by {
                lemma_rect_of_part(n, area, id);
                lemma_rect_of_part(m, area, id);
                assert(has_leaf(*a, id) || has_leaf(*b, id));
            }
        },
    }
}

/// A split adds the new pane and keeps the others.
proof fn lemma_split_leaves(n: Node, focus: u64, dir: Dir, new_id: u64, new_first: bool)
    requires
        has_leaf(n, focus),
    ensures
        forall|id: u64| #[trigger]
            has_leaf(split_at(n, focus, dir, new_id, new_first), id) <==> has_leaf(n, id) || id
                == new_id,
    decreases n,
{
    if let Node::Split { a, b, .. } = n {
        if has_leaf(*a, focus) {
            lemma_split_leaves(*a, focus, dir, new_id, new_first);
        } else {
            lemma_split_leaves(*b, focus, dir, new_id, new_first);
        }
        let m = split_at(n, focus, dir, new_id, new_first);
        assert forall|id: u64| #[trigger] has_leaf(m, id) <==> has_leaf(n, id) || id == new_id by {
            assert(has_leaf(m, id) == (has_leaf(*m->a, id) || has_leaf(*m->b, id)));
            assert(has_leaf(n, id) == (has_leaf(*a, id) || has_leaf(*b, id)));
        }
    } else {
        let m = split_at(n, focus, dir, new_id, new_first);
        assert forall|id: u64| #[trigger] has_leaf(m, id) <==> has_leaf(n, id) || id == new_id by {
            assert(has_leaf(m, id) == (has_leaf(*m->a, id) || has_leaf(*m->b, id)));
        }
    }
}

/// Whether the share of each split lies where resizing keeps it.
pub open spec fn shares_kept(n: Node) -> bool
    decreases n,
{
    match n {
        Node::Leaf { .. } => true,
        Node::Split { ratio, a, b, .. } => 50_000_000 <= ratio <= 950_000_000 && shares_kept(*a)
            && shares_kept(*b),
    }
}

proof fn lemma_rect_of_part(n: Node, area: RectLike, focus: u64)
    requires
        n is Split,
        has_leaf(n, focus),
    ensures
        ({
            let (pa, pb) = parts(n->dir, n->ratio, area);
            rect_of(n, area, focus) == if has_leaf(*n->a, focus) {
                rect_of(*n->a, pa, focus)
            } else {
                rect_of(*n->b, pb, focus)
            }
        }),
{
    let (pa, pb) = parts(n->dir, n->ratio, area);
    law_layout_follows_the_leaves(*n->a, pa);
    law_layout_follows_the_leaves(*n->b, pb);
    law_leaves_hold_the_panes(*n->a, focus);
    law_leaves_hold_the_panes(*n->b, focus);
    let ids = |p: (u64, RectLike)| p.0;
    assert(placed_in(*n->a, pa).map_values(ids).len() == leaves(*n->a).len());
    assert(placed_in(*n->b, pb).map_values(ids).len() == leaves(*n->b).len());
}

proof fn lemma_share_by_len(l1: u16, l2: u16, ratio: u32)
    requires
        l1 <= l2,
        ratio <= RATIO_ONE,
    ensures
        share(l1, ratio) <= share(l2, ratio),
        left_over(l1, share(l1, ratio)) <= left_over(l2, share(l2, ratio)),
{
    let x1 = l1 * ratio + RATIO_HALF;
    let x2 = l2 * ratio + RATIO_HALF;
    assert(x1 <= x2 <= x1 + (l2 - l1) * RATIO_ONE) by (nonlinear_arith)
        requires
            x1 == l1 * ratio + RATIO_HALF,
            x2 == l2 * ratio + RATIO_HALF,
            l1 <= l2,
            ratio <= RATIO_ONE,
    ;
    assert(l1 * ratio <= l1 * RATIO_ONE) by (nonlinear_arith)
        requires
            ratio <= RATIO_ONE,
    ;
    assert(l2 * ratio <= l2 * RATIO_ONE) by (nonlinear_arith)
        requires
            ratio <= RATIO_ONE,
    ;
}

proof fn lemma_share_by_ratio(len: u16, r1: u32, r2: u32)
    requires
        r1 <= r2,
    ensures
        share(len, r1) <= share(len, r2),
        left_over(len, share(len, r1)) >= left_over(len, share(len, r2)),
{
    assert(len * r1 <= len * r2) by (nonlinear_arith)
        requires
            r1 <= r2,
    ;
}

/// A pane in a wider area is no narrower, in a higher one no lower.
proof fn lemma_wider(n: Node, a1: RectLike, a2: RectLike, focus: u64)
    requires
        has_leaf(n, focus),
        shares_kept(n),
    ensures
        a1.w <= a2.w ==> rect_of(n, a1, focus).w <= rect_of(n, a2, focus).w,
        a1.h <= a2.h ==> rect_of(n, a1, focus).h <= rect_of(n, a2, focus).h,
    decreases n,
{
    if let Node::Split { dir, ratio, a, b } = n {
        let (pa1, pb1) = parts(dir, ratio, a1);
        let (pa2, pb2) = parts(dir, ratio, a2);
        lemma_rect_of_part(n, a1, focus);
        lemma_rect_of_part(n, a2, focus);
        if a1.w <= a2.w {
            lemma_share_by_len(a1.w, a2.w, ratio);
        }
        if a1.h <= a2.h {
            lemma_share_by_len(a1.h, a2.h, ratio);
        }
        if has_leaf(*a, focus) {
            lemma_wider(*a, pa1, pa2, focus);
        } else {
            lemma_wider(*b, pb1, pb2, focus);
        }
    }
}

/// Growing a pane makes it no smaller along the axis, shrinking it no larger;
/// across the axis it keeps its size.
pub proof fn law_growing_enlarges(
    n: Node,
    area: RectLike,
    focus: u64,
    horizontal: bool,
    grow: bool,
)
    requires
        has_leaf(n, focus),
        shares_kept(n),
    ensures
        shares_kept(axis_adjusted(n, focus, horizontal, grow)),
        ({
            let before = rect_of(n, area, focus);
            let after = rect_of(axis_adjusted(n, focus, horizontal, grow), area, focus);
            if horizontal {
                &&& after.h == before.h
                &&& if grow {
                    after.w >= before.w
                } else {
                    after.w <= before.w
                }
            } else {
                &&& after.w == before.w
                &&& if grow {
                    after.h >= before.h
                } else {
                    after.h <= before.h
                }
            }
        }),
    decreases n,
{
    let m = axis_adjusted(n, focus, horizontal, grow);
    if let Node::Split { dir, ratio, a, b } = n {
        let (pa, pb) = parts(dir, ratio, area);
        lemma_rect_of_part(n, area, focus);
        law_resizing_keeps_the_panes(n, focus, 0, horizontal, grow);
        law_resizing_keeps_the_panes(*a, focus, 0, horizontal, grow);
        law_resizing_keeps_the_panes(*b, focus, 0, horizontal, grow);
        law_leaves_hold_the_panes(n, focus);
        law_leaves_hold_the_panes(m, focus);
        law_leaves_hold_the_panes(*a, focus);
        law_leaves_hold_the_panes(*b, focus);
        law_leaves_hold_the_panes(*m->a, focus);
        law_leaves_hold_the_panes(*m->b, focus);
        lemma_rect_of_part(m, area, focus);
        let (qa, qb) = parts(dir, m->ratio, area);
        if ratio <= m->ratio {
            lemma_share_by_ratio(area.w, ratio, m->ratio);
            lemma_share_by_ratio(area.h, ratio, m->ratio);
        } else {
            lemma_share_by_ratio(area.w, m->ratio, ratio);
            lemma_share_by_ratio(area.h, m->ratio, ratio);
        }
        if has_leaf(*a, focus) {
            if has_axis(*a, focus, horizontal) {
                law_growing_enlarges(*a, pa, focus, horizontal, grow);
            } else {
                lemma_wider(*a, pa, qa, focus);
                lemma_wider(*a, qa, pa, focus);
            }
        } else {
            if has_axis(*b, focus, horizontal) {
                law_growing_enlarges(*b, pb, focus, horizontal, grow);
            } else {
                lemma_wider(*b, pb, qb, focus);
                lemma_wider(*b, qb, pb, focus);
            }
        }
    }
}

/// Every operation keeps the shares of the splits where resizing keeps them.
pub proof fn law_shares_stay_kept(
    n: Node,
    focus: u64,
    dir: Dir,
    new_id: u64,
    new_first: bool,
    delta: int,
)
    requires
        shares_kept(n),
    ensures
        shares_kept(split_at(n, focus, dir, new_id, new_first)),
        shares_kept(adjusted(n, focus, delta)),
        shares_kept(balanced(n)),
        without(n, focus) matches Some(m) ==> shares_kept(m),
    decreases n,
{
    reveal_with_fuel(shares_kept, 2);
    if let Node::Split { a, b, .. } = n {
        law_shares_stay_kept(*a, focus, dir, new_id, new_first, delta);
        law_shares_stay_kept(*b, focus, dir, new_id, new_first, delta);
    }
}

/// The cells along an axis of an area.
pub open spec fn extent(area: RectLike, horizontal: bool) -> int {
    if horizontal {
        area.w as int
    } else {
        area.h as int
    }
}

/// The innermost split along the axis that holds pane `focus`: the cells that it
/// divides, and the share, in billionths, of the part with the pane.
pub open spec fn axis_split(n: Node, area: RectLike, focus: u64, horizontal: bool) -> (int, int)
    decreases n,
{
    match n {
        Node::Leaf { .. } => (extent(area, horizontal), 0),
        Node::Split { dir, ratio, a, b } => {
            let (pa, pb) = parts(dir, ratio, area);
            if has_leaf(*a, focus) {
                if has_axis(*a, focus, horizontal) {
                    axis_split(*a, pa, focus, horizontal)
                } else {
                    (extent(area, horizontal), ratio as int)
                }
            } else {
                if has_axis(*b, focus, horizontal) {
                    axis_split(*b, pb, focus, horizontal)
                } else {
                    (extent(area, horizontal), 1_000_000_000 - ratio)
                }
            }
        },
    }
}

/// A pane that no split divides along an axis is as long as its area there.
proof fn lemma_across(n: Node, area: RectLike, focus: u64, horizontal: bool)
    requires
        has_leaf(n, focus),
        !has_axis(n, focus, horizontal),
    ensures
        extent(rect_of(n, area, focus), horizontal) == extent(area, horizontal),
    decreases n,
{
    if let Node::Split { dir, ratio, a, b } = n {
        let (pa, pb) = parts(dir, ratio, area);
        lemma_rect_of_part(n, area, focus);
        if has_leaf(*a, focus) {
            lemma_across(*a, pa, focus, horizontal);
        } else {
            lemma_across(*b, pb, focus, horizontal);
        }
    }
}

proof fn lemma_share_step(len: u16, r: u32)
    requires
        20 <= len,
        50_000_000 <= r <= 900_000_000,
    ensures
        ({
            let d = share(len, (r + 50_000_000) as u32) - share(len, r);
            &&& len as int / 20 <= d <= len as int / 20 + 1
            &&& share(len, (r + 50_000_000) as u32) <= len
        }),
{
    let x = len * r + RATIO_HALF;
    let y = len * (r + 50_000_000) + RATIO_HALF;
    let q = len as int / 20;
    assert(y == x + len * 50_000_000) by (nonlinear_arith)
        requires
            x == len * r + RATIO_HALF,
            y == len * (r + 50_000_000) + RATIO_HALF,
    ;
    assert(x >= 1_000_000_000) by (nonlinear_arith)
        requires
            x == len * r + 500_000_000,
            20 <= len,
            50_000_000 <= r,
    ;
    assert(y <= len * 950_000_000 + 500_000_000) by (nonlinear_arith)
        requires
            y == len * (r + 50_000_000) + 500_000_000,
            r <= 900_000_000,
            len >= 0,
    ;
    assert(q * 20 <= len < q * 20 + 20);
    assert(x / 1_000_000_000 + q <= y / 1_000_000_000 <= x / 1_000_000_000 + q + 1) by {
        assert(y >= x + q * 1_000_000_000);
        assert(y < x + (q + 1) * 1_000_000_000);
    }
    assert(y / 1_000_000_000 <= len);
}

/// A step changes the size of a pane by a twentieth of the cells that its split
/// divides, up to a cell: where the split has twenty cells, and its share room for
/// the step, the pane grows, or shrinks, by at least one cell.
pub proof fn law_a_step_is_a_twentieth(
    n: Node,
    area: RectLike,
    focus: u64,
    horizontal: bool,
    grow: bool,
)
    requires
        has_leaf(n, focus),
        shares_kept(n),
        has_axis(n, focus, horizontal),
        axis_split(n, area, focus, horizontal).0 >= 20,
        grow ==> axis_split(n, area, focus, horizontal).1 <= 900_000_000,
        !grow ==> axis_split(n, area, focus, horizontal).1 >= 100_000_000,
    ensures
        ({
            let cells = axis_split(n, area, focus, horizontal).0;
            let before = extent(rect_of(n, area, focus), horizontal);
            let after = extent(
                rect_of(axis_adjusted(n, focus, horizontal, grow), area, focus),
                horizontal,
            );
            let more = if grow {
                after - before
            } else {
                before - after
            };
            &&& 1 <= cells / 20
            &&& cells / 20 <= more <= cells / 20 + 1
        }),
    decreases n,
{
    let m = axis_adjusted(n, focus, horizontal, grow);
    if let Node::Split { dir, ratio, a, b } = n {
        let (pa, pb) = parts(dir, ratio, area);
        law_resizing_keeps_the_panes(n, focus, 0, horizontal, grow);
        law_leaves_hold_the_panes(n, focus);
        law_leaves_hold_the_panes(m, focus);
        law_leaves_hold_the_panes(*a, focus);
        law_leaves_hold_the_panes(*m->a, focus);
        law_leaves_hold_the_panes(*b, focus);
        law_leaves_hold_the_panes(*m->b, focus);
        law_resizing_keeps_the_panes(*a, focus, 0, horizontal, grow);
        law_resizing_keeps_the_panes(*b, focus, 0, horizontal, grow);
        lemma_rect_of_part(n, area, focus);
        lemma_rect_of_part(m, area, focus);
        if has_leaf(*a, focus) {
            if has_axis(*a, focus, horizontal) {
                law_a_step_is_a_twentieth(*a, pa, focus, horizontal, grow);
            } else {
                let r2 = stepped(ratio, grow);
                let (qa, _) = parts(dir, r2, area);
                lemma_across(*a, pa, focus, horizontal);
                lemma_across(*a, qa, focus, horizontal);
                let len = extent(area, horizontal) as u16;
                if grow {
                    lemma_share_step(len, ratio);
                } else {
                    lemma_share_step(len, r2);
                }
            }
        } else {
            if has_axis(*b, focus, horizontal) {
                law_a_step_is_a_twentieth(*b, pb, focus, horizontal, grow);
            } else {
                let r2 = stepped(ratio, !grow);
                let (_, qb) = parts(dir, r2, area);
                lemma_across(*b, pb, focus, horizontal);
                lemma_across(*b, qb, focus, horizontal);
                let len = extent(area, horizontal) as u16;
                if grow {
                    lemma_share_step(len, r2);
                } else {
                    lemma_share_step(len, ratio);
                }
            }
        }
    }
}

/// The share, in billionths, that the leaf of pane `focus` has of the split that
/// holds it.
pub open spec fn own_share(n: Node, focus: u64) -> Option<int>
    decreases n,
{
    match n {
        Node::Leaf { .. } => None,
        Node::Split { ratio, a, b, .. } => if is_leaf(*a, focus) {
            Some(ratio as int)
        } else if is_leaf(*b, focus) {
            Some(1_000_000_000 - ratio)
        } else if has_leaf(*a, focus) {
            own_share(*a, focus)
        } else {
            own_share(*b, focus)
        },
    }
}

/// Moving the boundary next to a pane gives the pane that much more of its split,
/// or less, but no less than a tenth and no more than nine.
pub proof fn law_adjusting_gives_the_pane_more(n: Node, focus: u64, delta: int)
    ensures
        own_share(adjusted(n, focus, delta), focus) == match own_share(n, focus) {
            None => None,
            Some(s) => Some(
                if s + delta < 100_000_000 {
                    100_000_000
                } else if s + delta > 900_000_000 {
                    900_000_000
                } else {
                    s + delta
                },
            ),
        },
        leaves(adjusted(n, focus, delta)) == leaves(n),
    decreases n,
{
    let m = adjusted(n, focus, delta);
    if let Node::Split { a, b, .. } = n {
        if !is_leaf(*a, focus) && !is_leaf(*b, focus) {
            if has_leaf(*a, focus) {
                law_adjusting_gives_the_pane_more(*a, focus, delta);
                law_leaves_hold_the_panes(*a, focus);
                law_leaves_hold_the_panes(*m->a, focus);
                assert(!is_leaf(*m->a, focus));
            } else {
                law_adjusting_gives_the_pane_more(*b, focus, delta);
                assert(!is_leaf(*m->b, focus));
            }
        }
    }
}

/// A pane that was split off stands where it was put: on that side of a split in
/// that direction, and the pane that was split on the other side.
pub proof fn law_split_pane_knows_its_side(
    n: Node,
    focus: u64,
    dir: Dir,
    new_id: u64,
    new_first: bool,
)
    requires
        has_leaf(n, focus),
        !has_leaf(n, new_id),
        leaves(n).no_duplicates(),
    ensures
        side_of(split_at(n, focus, dir, new_id, new_first), new_id) == Some((dir, new_first)),
        side_of(split_at(n, focus, dir, new_id, new_first), focus) == Some((dir, !new_first)),
    decreases n,
{
    let m = split_at(n, focus, dir, new_id, new_first);
    match n {
        Node::Leaf { id } => {
            assert(has_leaf(n, new_id) == (id == new_id));
            assert(is_leaf(*m->a, new_id) == new_first);
            assert(is_leaf(*m->b, new_id) == !new_first);
            assert(m is Split && m->dir == dir);
            assert(side_of(m, new_id) == Some((dir, new_first)));
            assert(side_of(m, focus) == Some((dir, !new_first)));
        },
        Node::Split { a, b, .. } => {
            let la = leaves(*a);
            let lb = leaves(*b);
            assert forall|i: int, j: int| 0 <= i < j < la.len() implies la[i] != la[j] by {
                assert(leaves(n)[i] == la[i] && leaves(n)[j] == la[j]);
            }
            assert forall|i: int, j: int| 0 <= i < j < lb.len() implies lb[i] != lb[j] by {
                assert(leaves(n)[la.len() + i] == lb[i] && leaves(n)[la.len() + j] == lb[j]);
            }
            law_leaves_hold_the_panes(*a, focus);
            law_leaves_hold_the_panes(*b, focus);
            assert(!has_leaf(*a, new_id) && !has_leaf(*b, new_id));
            assert(!is_leaf(*a, new_id) && !is_leaf(*b, new_id));
            if has_leaf(*a, focus) {
                law_split_pane_knows_its_side(*a, focus, dir, new_id, new_first);
                if has_leaf(*b, focus) {
                    let i = la.index_of(focus);
                    let j = lb.index_of(focus);
                    assert(leaves(n)[i] == leaves(n)[la.len() + j]);
                }
                assert(*m->a is Split);
                assert(side_of(m, new_id) == side_of(*m->a, new_id));
            } else {
                law_split_pane_knows_its_side(*b, focus, dir, new_id, new_first);
                lemma_no_side(*a, focus);
                lemma_no_side(*a, new_id);
                assert(*m->b is Split);
                assert(side_of(m, new_id) == side_of(*m->b, new_id));
            }
        },
    }
}

/// A pane that a tree does not hold is on no side of it.
proof fn lemma_no_side(n: Node, id: u64)
    requires
        !has_leaf(n, id),
    ensures
        side_of(n, id) is None,
    decreases n,
{
    if let Node::Split { a, b, .. } = n {
        lemma_no_side(*a, id);
        lemma_no_side(*b, id);
    }
}

} // verus!
