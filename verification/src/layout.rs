//! i3-style tiling tree.
//!
//! Each leaf holds a window (by its compositor id). Each split holds two
//! children with a direction (horizontal = left/right neighbours, vertical =
//! top/bottom) and the share of the first child, in units of `RATIO_ONE`.
//!
//! Insertion policy: a new window splits the focused leaf perpendicular to the
//! focused leaf's parent (so opening windows produces balanced grids). An
//! explicit `next_split_override` overrides the default for the next insert.
use vstd::prelude::*;

use crate::geometry::Rect;
use crate::geometry::lemma_encloses_refl as lemma_encloses_refl_local;

verus! {

/// Split direction of a tiling node.
#[derive(Debug, Clone, Copy, PartialEq, Eq, Structural)]
pub enum Direction {
    /// Children laid out left to right.
    Horizontal,
    /// Children laid out top to bottom.
    Vertical,
}

impl Direction {
    pub open spec fn perpendicular_spec(self) -> Direction {
        match self {
            Direction::Horizontal => Direction::Vertical,
            Direction::Vertical => Direction::Horizontal,
        }
    }

    /// The other axis.
    pub fn perpendicular(self) -> (r: Direction)
        ensures
            r == self.perpendicular_spec(),
            r != self,
    {
        match self {
            Direction::Horizontal => Direction::Vertical,
            Direction::Vertical => Direction::Horizontal,
        }
    }
}

/// How a workspace arranges its tiled windows. The window set and focus order
/// always live in the `Tree`; the non-tiling modes place that same set
/// differently.
#[derive(Debug, Clone, Copy, PartialEq, Eq, Structural)]
pub enum LayoutMode {
    /// Binary split tree (the default).
    Tiling,
    /// One master pane on the left, the rest stacked on the right.
    Master,
    /// Every window fills the screen; only the focused one shows on top.
    Monocle,
    /// Each window halves the remaining area, alternating axis.
    Dwindle,
    /// Like dwindle, but the taken half alternates so windows spiral inward.
    Spiral,
}

impl LayoutMode {
    pub open spec fn next_spec(self) -> LayoutMode {
        match self {
            LayoutMode::Tiling => LayoutMode::Master,
            LayoutMode::Master => LayoutMode::Monocle,
            LayoutMode::Monocle => LayoutMode::Dwindle,
            LayoutMode::Dwindle => LayoutMode::Spiral,
            LayoutMode::Spiral => LayoutMode::Tiling,
        }
    }

    /// The mode the layout-cycle key switches to.
    pub fn next(self) -> (r: LayoutMode)
        ensures
            r == self.next_spec(),
    {
        match self {
            LayoutMode::Tiling => LayoutMode::Master,
            LayoutMode::Master => LayoutMode::Monocle,
            LayoutMode::Monocle => LayoutMode::Dwindle,
            LayoutMode::Dwindle => LayoutMode::Spiral,
            LayoutMode::Spiral => LayoutMode::Tiling,
        }
    }

    pub open spec fn label_spec(self) -> Seq<char> {
        match self {
            LayoutMode::Tiling => "Tiling"@,
            LayoutMode::Master => "Master-stack"@,
            LayoutMode::Monocle => "Monocle"@,
            LayoutMode::Dwindle => "Dwindle"@,
            LayoutMode::Spiral => "Spiral"@,
        }
    }

    /// Human-readable name shown in the layout toast.
    pub fn label(self) -> (r: &'static str)
        ensures
            r@ == self.label_spec(),
    {
        match self {
            LayoutMode::Tiling => "Tiling",
            LayoutMode::Master => "Master-stack",
            LayoutMode::Monocle => "Monocle",
            LayoutMode::Dwindle => "Dwindle",
            LayoutMode::Spiral => "Spiral",
        }
    }
}


/// A split's share for its first child is stored in units of `RATIO_ONE`.
pub const RATIO_ONE: u32 = 10000;
/// A fresh split gives each child half.
pub const RATIO_HALF: u32 = 5000;
/// No child of a split is resized below a tenth of it.
pub const RATIO_MIN: u32 = 1000;

/// A node of the tiling tree. Every split has exactly two children: an insert
/// wraps the focused leaf in a new two-child split, and a removal that leaves
/// one child collapses the split into it.
enum Node {
    Leaf(u32),
    Split { dir: Direction, ratio: u32, first: Box<Node>, second: Box<Node> },
}

/// `s` with every occurrence of `w` removed.
pub open spec fn without(s: Seq<u32>, w: u32) -> Seq<u32> {
    s.filter(neq_pred(w))
}

/// `s` restricted to the windows in `live`.
pub open spec fn keep_live(s: Seq<u32>, live: Seq<u32>) -> Seq<u32> {
    s.filter(live_pred(live))
}

/// `s` with every `a` replaced by `b`.
pub open spec fn replace_ids(s: Seq<u32>, a: u32, b: u32) -> Seq<u32> {
    s.map_values(|x: u32| if x == a { b } else { x })
}

/// `s` with every `a` replaced by `b` and every `b` by `a`.
pub open spec fn swap_ids(s: Seq<u32>, a: u32, b: u32) -> Seq<u32> {
    s.map_values(|x: u32| if x == a { b } else if x == b { a } else { x })
}

impl Node {
    spec fn leaves(self) -> Seq<u32>
        decreases self,
    {
        match self {
            Node::Leaf(w) => seq![w],
            Node::Split { first, second, .. } => first.leaves() + second.leaves(),
        }
    }

    spec fn wf(self) -> bool
        decreases self,
    {
        match self {
            Node::Leaf(_) => true,
            Node::Split { ratio, first, second, .. } => {
                &&& RATIO_MIN <= ratio <= RATIO_ONE - RATIO_MIN
                &&& first.wf()
                &&& second.wf()
            },
        }
    }

    spec fn valid_path(self, p: Seq<usize>) -> bool
        decreases self,
    {
        match self {
            Node::Leaf(_) => p.len() == 0,
            Node::Split { first, second, .. } => {
                &&& p.len() > 0
                &&& (p[0] == 0 || p[0] == 1)
                &&& (if p[0] == 0 {
                    first.valid_path(p.drop_first())
                } else {
                    second.valid_path(p.drop_first())
                })
            },
        }
    }

    spec fn leaf_at(self, p: Seq<usize>) -> u32
        decreases self,
    {
        match self {
            Node::Leaf(w) => w,
            Node::Split { first, second, .. } => if p.len() > 0 && p[0] == 0 {
                first.leaf_at(p.drop_first())
            } else {
                second.leaf_at(p.drop_first())
            },
        }
    }

    /// Position, in depth-first order, of the leaf at `p`.
    spec fn path_index(self, p: Seq<usize>) -> int
        decreases self,
    {
        match self {
            Node::Leaf(_) => 0,
            Node::Split { first, second, .. } => if p.len() > 0 && p[0] == 0 {
                first.path_index(p.drop_first())
            } else {
                first.leaves().len() + second.path_index(p.drop_first())
            },
        }
    }

    /// Path of the `i`-th leaf in depth-first order.
    spec fn path_of(self, i: int) -> Seq<usize>
        decreases self,
    {
        match self {
            Node::Leaf(_) => seq![],
            Node::Split { first, second, .. } => if i < first.leaves().len() {
                seq![0usize] + first.path_of(i)
            } else {
                seq![1usize] + second.path_of(i - first.leaves().len())
            },
        }
    }

    /// Direction of the split holding the leaf at `p`.
    spec fn parent_dir(self, p: Seq<usize>) -> Option<Direction>
        decreases self,
    {
        match self {
            Node::Leaf(_) => None,
            Node::Split { dir, first, second, .. } => if p.len() <= 1 {
                Some(dir)
            } else if p[0] == 0 {
                first.parent_dir(p.drop_first())
            } else {
                second.parent_dir(p.drop_first())
            },
        }
    }

    spec fn insert_at_spec(self, p: Seq<usize>, w: u32, dir: Direction) -> Node
        decreases self,
    {
        if p.len() == 0 {
            Node::Split {
                dir,
                ratio: RATIO_HALF,
                first: Box::new(self),
                second: Box::new(Node::Leaf(w)),
            }
        } else {
            match self {
                Node::Leaf(_) => self,
                Node::Split { dir: d, ratio, first, second } => if p[0] == 0 {
                    Node::Split {
                        dir: d,
                        ratio,
                        first: Box::new(first.insert_at_spec(p.drop_first(), w, dir)),
                        second,
                    }
                } else {
                    Node::Split {
                        dir: d,
                        ratio,
                        first,
                        second: Box::new(second.insert_at_spec(p.drop_first(), w, dir)),
                    }
                },
            }
        }
    }

    proof fn lemma_leaves_nonempty(self)
        ensures
            self.leaves().len() >= 1,
        decreases self,
    {
        match self {
            Node::Leaf(_) => {},
            Node::Split { first, second, .. } => {
                first.lemma_leaves_nonempty();
                second.lemma_leaves_nonempty();
            },
        }
    }

    proof fn lemma_path(self, p: Seq<usize>)
        requires
            self.valid_path(p),
        ensures
            0 <= self.path_index(p) < self.leaves().len(),
            self.leaves()[self.path_index(p)] == self.leaf_at(p),
            self.path_of(self.path_index(p)) == p,
        decreases self,
    {
        match self {
            Node::Leaf(_) => {},
            Node::Split { first, second, .. } => {
                let rest = p.drop_first();
                first.lemma_leaves_nonempty();
                if p[0] == 0 {
                    first.lemma_path(rest);
                    assert(seq![0usize] + rest =~= p);
                } else {
                    second.lemma_path(rest);
                    assert(seq![1usize] + rest =~= p);
                }
            },
        }
    }

    proof fn lemma_path_of(self, i: int)
        requires
            0 <= i < self.leaves().len(),
        ensures
            self.valid_path(self.path_of(i)),
            self.path_index(self.path_of(i)) == i,
            self.leaf_at(self.path_of(i)) == self.leaves()[i],
        decreases self,
    {
        match self {
            Node::Leaf(_) => {},
            Node::Split { first, second, .. } => {
                if i < first.leaves().len() {
                    first.lemma_path_of(i);
                    assert((seq![0usize] + first.path_of(i)).drop_first() =~= first.path_of(i));
                } else {
                    second.lemma_path_of(i - first.leaves().len());
                    assert((seq![1usize] + second.path_of(i - first.leaves().len())).drop_first()
                        =~= second.path_of(i - first.leaves().len()));
                }
            },
        }
    }

    proof fn lemma_insert_at(self, p: Seq<usize>, w: u32, dir: Direction)
        requires
            self.wf(),
            self.valid_path(p),
        ensures
            self.insert_at_spec(p, w, dir).wf(),
            self.insert_at_spec(p, w, dir).valid_path(p.push(1)),
            self.insert_at_spec(p, w, dir).leaves() == self.leaves().insert(
                self.path_index(p) + 1,
                w,
            ),
            self.insert_at_spec(p, w, dir).leaf_at(p.push(1)) == w,
            self.insert_at_spec(p, w, dir).parent_dir(p.push(1)) == Some(dir),
            self.insert_at_spec(p, w, dir).path_index(p.push(1)) == self.path_index(p) + 1,
        decreases self,
    {
        let r = self.insert_at_spec(p, w, dir);
        if p.len() == 0 {
            assert(p.push(1).drop_first() =~= Seq::<usize>::empty());
            assert(p.push(1)[0] == 1);
            assert(Node::Leaf(w).wf());
            assert(Node::Leaf(w).valid_path(Seq::<usize>::empty()));
            assert(r == Node::Split {
                dir,
                ratio: RATIO_HALF,
                first: Box::new(self),
                second: Box::new(Node::Leaf(w)),
            });
            assert(r.leaf_at(p.push(1)) == Node::Leaf(w).leaf_at(p.push(1).drop_first()));
            assert(r.leaves() == self.leaves() + Node::Leaf(w).leaves());
            assert(Node::Leaf(w).leaves() == seq![w]);
            assert(r.path_index(p.push(1)) == self.leaves().len() + Node::Leaf(w).path_index(
                p.push(1).drop_first(),
            ));
            self.lemma_leaves_nonempty();
            assert(self.leaves() + seq![w] =~= self.leaves().insert(1int, w)) by {
                assert(self.leaves().len() == 1);
            }
        } else {
            match self {
                Node::Leaf(_) => {},
                Node::Split { dir: d, ratio, first, second } => {
                    let rest = p.drop_first();
                    assert(p.push(1).drop_first() =~= rest.push(1));
                    assert(p.push(1)[0] == p[0]);
                    first.lemma_leaves_nonempty();
                    if p[0] == 0 {
                        first.lemma_insert_at(rest, w, dir);
                        first.lemma_path(rest);
                        let f2 = first.insert_at_spec(rest, w, dir);
                        assert(r == Node::Split { dir: d, ratio, first: Box::new(f2), second });
                        assert(r.leaf_at(p.push(1)) == f2.leaf_at(rest.push(1)));
                        assert(r.path_index(p.push(1)) == f2.path_index(rest.push(1)));
                        let k = first.path_index(rest) + 1;
                        assert(first.leaves().insert(k, w) + second.leaves() =~= (first.leaves()
                            + second.leaves()).insert(k, w));
                    } else {
                        second.lemma_insert_at(rest, w, dir);
                        second.lemma_path(rest);
                        let s2 = second.insert_at_spec(rest, w, dir);
                        assert(r == Node::Split { dir: d, ratio, first, second: Box::new(s2) });
                        assert(r.leaf_at(p.push(1)) == s2.leaf_at(rest.push(1)));
                        assert(r.path_index(p.push(1)) == first.leaves().len() + s2.path_index(
                            rest.push(1),
                        ));
                        let k = second.path_index(rest) + 1;
                        assert(first.leaves() + second.leaves().insert(k, w) =~= (first.leaves()
                            + second.leaves()).insert(first.leaves().len() + k, w));
                    }
                },
            }
        }
    }
}


impl Node {
    fn collect_windows(&self, out: &mut Vec<u32>)
        ensures
            final(out)@ == old(out)@ + self.leaves(),
        decreases self,
    {
        match self {
            Node::Leaf(w) => {
                out.push(*w);
            },
            Node::Split { first, second, .. } => {
                first.collect_windows(out);
                second.collect_windows(out);
                proof {
                    assert(old(out)@ + first.leaves() + second.leaves() =~= old(out)@ + (
                    first.leaves() + second.leaves()));
                }
            },
        }
    }

    fn count(&self) -> (n: usize)
        requires
            self.leaves().len() <= usize::MAX,
        ensures
            n == self.leaves().len(),
        decreases self,
    {
        match self {
            Node::Leaf(_) => 1,
            Node::Split { first, second, .. } => first.count() + second.count(),
        }
    }

    fn leaf_at_exec(&self, p: &Vec<usize>, depth: usize) -> (r: u32)
        requires
            depth <= p.len(),
            self.valid_path(p@.skip(depth as int)),
        ensures
            r == self.leaf_at(p@.skip(depth as int)),
        decreases self,
    {
        match self {
            Node::Leaf(w) => *w,
            Node::Split { first, second, .. } => {
                let ghost rest = p@.skip(depth as int);
                proof {
                    assert(rest.drop_first() =~= p@.skip(depth + 1));
                }
                if p[depth] == 0 {
                    first.leaf_at_exec(p, depth + 1)
                } else {
                    second.leaf_at_exec(p, depth + 1)
                }
            },
        }
    }

    fn path_index_exec(&self, p: &Vec<usize>, depth: usize) -> (r: usize)
        requires
            depth <= p.len(),
            self.valid_path(p@.skip(depth as int)),
            self.leaves().len() <= usize::MAX,
        ensures
            r == self.path_index(p@.skip(depth as int)),
        decreases self,
    {
        proof {
            self.lemma_path(p@.skip(depth as int));
        }
        match self {
            Node::Leaf(_) => 0,
            Node::Split { first, second, .. } => {
                let ghost rest = p@.skip(depth as int);
                proof {
                    assert(rest.drop_first() =~= p@.skip(depth + 1));
                    first.lemma_leaves_nonempty();
                    second.lemma_leaves_nonempty();
                }
                if p[depth] == 0 {
                    first.path_index_exec(p, depth + 1)
                } else {
                    let c = first.count();
                    let k = second.path_index_exec(p, depth + 1);
                    proof {
                        second.lemma_path(p@.skip(depth + 1));
                    }
                    c + k
                }
            },
        }
    }

    /// Appends the path of the `i`-th leaf to `out`.
    fn path_of_exec(&self, i: usize, out: &mut Vec<usize>)
        requires
            i < self.leaves().len() <= usize::MAX,
        ensures
            final(out)@ == old(out)@ + self.path_of(i as int),
        decreases self,
    {
        match self {
            Node::Leaf(_) => {
                assert(old(out)@ + Seq::<usize>::empty() =~= old(out)@);
            },
            Node::Split { first, second, .. } => {
                let c = first.count();
                if i < c {
                    out.push(0);
                    first.path_of_exec(i, out);
                    proof {
                        assert(old(out)@.push(0) + first.path_of(i as int) =~= old(out)@ + (seq![
                            0usize,
                        ] + first.path_of(i as int)));
                    }
                } else {
                    out.push(1);
                    second.path_of_exec(i - c, out);
                    proof {
                        assert(old(out)@.push(1) + second.path_of(i - c) =~= old(out)@ + (seq![
                            1usize,
                        ] + second.path_of(i - c)));
                    }
                }
            },
        }
    }

    fn parent_direction_exec(&self, p: &Vec<usize>, depth: usize) -> (r: Option<Direction>)
        requires
            depth <= p.len(),
            self.valid_path(p@.skip(depth as int)),
        ensures
            r == self.parent_dir(p@.skip(depth as int)),
        decreases self,
    {
        match self {
            Node::Leaf(_) => None,
            Node::Split { dir, first, second, .. } => {
                let ghost rest = p@.skip(depth as int);
                proof {
                    assert(rest.drop_first() =~= p@.skip(depth + 1));
                }
                if p.len() - depth <= 1 {
                    Some(*dir)
                } else if p[depth] == 0 {
                    first.parent_direction_exec(p, depth + 1)
                } else {
                    second.parent_direction_exec(p, depth + 1)
                }
            },
        }
    }

    fn path_valid_exec(&self, p: &Vec<usize>, depth: usize) -> (r: bool)
        requires
            depth <= p.len(),
        ensures
            r == self.valid_path(p@.skip(depth as int)),
        decreases self,
    {
        let ghost rest = p@.skip(depth as int);
        match self {
            Node::Leaf(_) => depth == p.len(),
            Node::Split { first, second, .. } => {
                if depth == p.len() {
                    return false;
                }
                proof {
                    assert(rest.drop_first() =~= p@.skip(depth + 1));
                }
                if p[depth] == 0 {
                    first.path_valid_exec(p, depth + 1)
                } else if p[depth] == 1 {
                    second.path_valid_exec(p, depth + 1)
                } else {
                    false
                }
            },
        }
    }
}

/// Replace the leaf at `p[depth..]` with a split holding the old leaf first
/// and a new leaf for `w` second.
fn insert_at(node: Node, p: &Vec<usize>, depth: usize, w: u32, dir: Direction) -> (r: Node)
    requires
        depth <= p.len(),
    ensures
        r == node.insert_at_spec(p@.skip(depth as int), w, dir),
    decreases p.len() - depth,
{
    let ghost rest = p@.skip(depth as int);
    if depth == p.len() {
        return Node::Split {
            dir,
            ratio: RATIO_HALF,
            first: Box::new(node),
            second: Box::new(Node::Leaf(w)),
        };
    }
    proof {
        assert(rest.drop_first() =~= p@.skip(depth + 1));
    }
    match node {
        Node::Leaf(x) => Node::Leaf(x),
        Node::Split { dir: d, ratio, first, second } => {
            if p[depth] == 0 {
                let f = insert_at(*first, p, depth + 1, w, dir);
                Node::Split { dir: d, ratio, first: Box::new(f), second }
            } else {
                let s2 = insert_at(*second, p, depth + 1, w, dir);
                Node::Split { dir: d, ratio, first, second: Box::new(s2) }
            }
        },
    }
}


pub open spec fn neq_pred(w: u32) -> spec_fn(u32) -> bool {
    |x: u32| x != w
}

pub open spec fn live_pred(live: Seq<u32>) -> spec_fn(u32) -> bool {
    |x: u32| live.contains(x)
}

pub proof fn lemma_filter_single<T>(w: T, pred: spec_fn(T) -> bool)
    ensures
        seq![w].filter(pred) == if pred(w) {
            seq![w]
        } else {
            Seq::<T>::empty()
        },
{
    reveal_with_fuel(Seq::filter, 2);
    assert(seq![w].drop_last() =~= Seq::<T>::empty());
    if pred(w) {
        assert(Seq::<T>::empty().push(w) =~= seq![w]);
    }
}

/// Filtering the first `i + 1` elements extends filtering the first `i`.
pub proof fn lemma_filter_take_step<T>(s: Seq<T>, i: int, pred: spec_fn(T) -> bool)
    requires
        0 <= i < s.len(),
    ensures
        s.take(i + 1).filter(pred) == if pred(s[i]) {
            s.take(i).filter(pred).push(s[i])
        } else {
            s.take(i).filter(pred)
        },
{
    assert(s.take(i + 1) =~= s.take(i) + seq![s[i]]);
    Seq::filter_distributes_over_add(s.take(i), seq![s[i]], pred);
    lemma_filter_single(s[i], pred);
    if pred(s[i]) {
        assert(s.take(i).filter(pred) + seq![s[i]] =~= s.take(i).filter(pred).push(s[i]));
    } else {
        assert(s.take(i).filter(pred) + Seq::<T>::empty() =~= s.take(i).filter(pred));
    }
}

/// `v` without every occurrence of `w`.
pub fn filter_out(v: &Vec<u32>, w: u32) -> (r: Vec<u32>)
    ensures
        r@ == without(v@, w),
{
    let mut out: Vec<u32> = Vec::new();
    let mut i: usize = 0;
    proof {
        reveal_with_fuel(Seq::filter, 1);
        assert(v@.take(0).filter(neq_pred(w)) =~= Seq::<u32>::empty());
    }
    while i < v.len()
        invariant
            i <= v.len(),
            out@ == v@.take(i as int).filter(neq_pred(w)),
        decreases v.len() - i,
    {
        proof {
            lemma_filter_take_step(v@, i as int, neq_pred(w));
        }
        if v[i] != w {
            out.push(v[i]);
        }
        i += 1;
    }
    proof {
        assert(v@.take(v.len() as int) =~= v@);
    }
    out
}

/// The elements of `v` that are in `live`, in order.
pub fn filter_live(v: &Vec<u32>, live: &Vec<u32>) -> (r: Vec<u32>)
    ensures
        r@ == keep_live(v@, live@),
{
    let mut out: Vec<u32> = Vec::new();
    let mut i: usize = 0;
    proof {
        reveal_with_fuel(Seq::filter, 1);
        assert(v@.take(0).filter(live_pred(live@)) =~= Seq::<u32>::empty());
    }
    while i < v.len()
        invariant
            i <= v.len(),
            out@ == v@.take(i as int).filter(live_pred(live@)),
        decreases v.len() - i,
    {
        proof {
            lemma_filter_take_step(v@, i as int, live_pred(live@));
        }
        if contains_id(live, v[i]) {
            out.push(v[i]);
        }
        i += 1;
    }
    proof {
        assert(v@.take(v.len() as int) =~= v@);
    }
    out
}

impl Node {
    /// The tree with every leaf holding `t` removed; a split left with one
    /// child collapses into it.
    spec fn remove_spec(self, t: u32) -> Option<Node>
        decreases self,
    {
        match self {
            Node::Leaf(w) => if w == t {
                None
            } else {
                Some(self)
            },
            Node::Split { dir, ratio, first, second } => match (
                first.remove_spec(t),
                second.remove_spec(t),
            ) {
                (None, None) => None,
                (Some(a), None) => Some(a),
                (None, Some(b)) => Some(b),
                (Some(a), Some(b)) => Some(
                    Node::Split { dir, ratio, first: Box::new(a), second: Box::new(b) },
                ),
            },
        }
    }

    /// The tree restricted to leaves whose window is in `live`.
    spec fn prune_spec(self, live: Seq<u32>) -> Option<Node>
        decreases self,
    {
        match self {
            Node::Leaf(w) => if live.contains(w) {
                Some(self)
            } else {
                None
            },
            Node::Split { dir, ratio, first, second } => match (
                first.prune_spec(live),
                second.prune_spec(live),
            ) {
                (None, None) => None,
                (Some(a), None) => Some(a),
                (None, Some(b)) => Some(b),
                (Some(a), Some(b)) => Some(
                    Node::Split { dir, ratio, first: Box::new(a), second: Box::new(b) },
                ),
            },
        }
    }

    /// The tree with window `a`'s leaf holding `b` instead.
    spec fn replace_spec(self, a: u32, b: u32) -> Node
        decreases self,
    {
        match self {
            Node::Leaf(w) => Node::Leaf(
                if w == a {
                    b
                } else {
                    w
                },
            ),
            Node::Split { dir, ratio, first, second } => Node::Split {
                dir,
                ratio,
                first: Box::new(first.replace_spec(a, b)),
                second: Box::new(second.replace_spec(a, b)),
            },
        }
    }

    /// The tree with windows `a` and `b` trading places.
    spec fn swap_spec(self, a: u32, b: u32) -> Node
        decreases self,
    {
        match self {
            Node::Leaf(w) => Node::Leaf(
                if w == a {
                    b
                } else if w == b {
                    a
                } else {
                    w
                },
            ),
            Node::Split { dir, ratio, first, second } => Node::Split {
                dir,
                ratio,
                first: Box::new(first.swap_spec(a, b)),
                second: Box::new(second.swap_spec(a, b)),
            },
        }
    }

    proof fn lemma_remove(self, t: u32)
        requires
            self.wf(),
        ensures
            self.remove_spec(t) is None <==> without(self.leaves(), t).len() == 0,
            self.remove_spec(t) matches Some(n) ==> n.wf() && n.leaves() == without(
                self.leaves(),
                t,
            ),
            !self.leaves().contains(t) ==> self.remove_spec(t) == Some(self),
        decreases self,
    {
        match self {
            Node::Leaf(w) => {
                lemma_filter_single(w, neq_pred(t));
                assert(self.leaves()[0] == w);
            },
            Node::Split { dir, ratio, first, second } => {
                first.lemma_remove(t);
                second.lemma_remove(t);
                first.lemma_leaves_nonempty();
                second.lemma_leaves_nonempty();
                Seq::filter_distributes_over_add(first.leaves(), second.leaves(), neq_pred(t));
                if !self.leaves().contains(t) {
                    assert forall|i: int| 0 <= i < first.leaves().len() implies first.leaves()[i]
                        != t by {
                        assert(self.leaves()[i] == first.leaves()[i]);
                    }
                    assert forall|i: int| 0 <= i < second.leaves().len() implies second.leaves()[i]
                        != t by {
                        assert(self.leaves()[first.leaves().len() + i] == second.leaves()[i]);
                    }
                }
                match (first.remove_spec(t), second.remove_spec(t)) {
                    (Some(a), None) => {
                        assert(without(self.leaves(), t) =~= a.leaves());
                    },
                    (None, Some(b)) => {
                        assert(without(self.leaves(), t) =~= b.leaves());
                    },
                    _ => {},
                }
            },
        }
    }

    proof fn lemma_prune(self, live: Seq<u32>)
        requires
            self.wf(),
        ensures
            self.prune_spec(live) is None <==> keep_live(self.leaves(), live).len() == 0,
            self.prune_spec(live) matches Some(n) ==> n.wf() && n.leaves() == keep_live(
                self.leaves(),
                live,
            ),
            (forall|i: int| 0 <= i < self.leaves().len() ==> live.contains(#[trigger] self.leaves()[i]))
                ==> self.prune_spec(live) == Some(self),
        decreases self,
    {
        match self {
            Node::Leaf(w) => {
                lemma_filter_single(w, live_pred(live));
                assert(self.leaves()[0] == w);
            },
            Node::Split { dir, ratio, first, second } => {
                first.lemma_prune(live);
                second.lemma_prune(live);
                first.lemma_leaves_nonempty();
                second.lemma_leaves_nonempty();
                Seq::filter_distributes_over_add(first.leaves(), second.leaves(), live_pred(live));
                if forall|i: int|
                    0 <= i < self.leaves().len() ==> live.contains(#[trigger] self.leaves()[i]) {
                    assert forall|i: int| 0 <= i < first.leaves().len() implies live.contains(
                        #[trigger] first.leaves()[i],
                    ) by {
                        assert(self.leaves()[i] == first.leaves()[i]);
                    }
                    assert forall|i: int| 0 <= i < second.leaves().len() implies live.contains(
                        #[trigger] second.leaves()[i],
                    ) by {
                        assert(self.leaves()[first.leaves().len() + i] == second.leaves()[i]);
                    }
                }
                match (first.prune_spec(live), second.prune_spec(live)) {
                    (Some(a), None) => {
                        assert(keep_live(self.leaves(), live) =~= a.leaves());
                    },
                    (None, Some(b)) => {
                        assert(keep_live(self.leaves(), live) =~= b.leaves());
                    },
                    _ => {},
                }
            },
        }
    }

    proof fn lemma_replace(self, a: u32, b: u32, p: Seq<usize>)
        requires
            self.wf(),
        ensures
            self.replace_spec(a, b).wf(),
            self.replace_spec(a, b).leaves() == replace_ids(self.leaves(), a, b),
            self.replace_spec(a, b).valid_path(p) == self.valid_path(p),
            self.replace_spec(a, b).path_index(p) == self.path_index(p),
            self.replace_spec(a, b).leaves().len() == self.leaves().len(),
        decreases self,
    {
        match self {
            Node::Leaf(w) => {
                assert(self.replace_spec(a, b).leaves() =~= replace_ids(self.leaves(), a, b));
            },
            Node::Split { dir, ratio, first, second } => {
                first.lemma_replace(a, b, p.drop_first());
                second.lemma_replace(a, b, p.drop_first());
                assert(self.replace_spec(a, b).leaves() =~= replace_ids(self.leaves(), a, b));
            },
        }
    }

    proof fn lemma_swap(self, a: u32, b: u32, p: Seq<usize>)
        requires
            self.wf(),
        ensures
            self.swap_spec(a, b).wf(),
            self.swap_spec(a, b).leaves() == swap_ids(self.leaves(), a, b),
            self.swap_spec(a, b).valid_path(p) == self.valid_path(p),
            self.swap_spec(a, b).path_index(p) == self.path_index(p),
            self.swap_spec(a, b).leaves().len() == self.leaves().len(),
        decreases self,
    {
        match self {
            Node::Leaf(w) => {
                assert(self.swap_spec(a, b).leaves() =~= swap_ids(self.leaves(), a, b));
            },
            Node::Split { dir, ratio, first, second } => {
                first.lemma_swap(a, b, p.drop_first());
                second.lemma_swap(a, b, p.drop_first());
                assert(self.swap_spec(a, b).leaves() =~= swap_ids(self.leaves(), a, b));
            },
        }
    }
}

fn remove_node(node: Node, t: u32) -> (r: (Option<Node>, bool))
    ensures
        r.0 == node.remove_spec(t),
        r.1 == node.leaves().contains(t),
    decreases node,
{
    let ghost old_node = node;
    match node {
        Node::Leaf(w) => {
            proof {
                assert(old_node.leaves()[0] == w);
            }
            if w == t {
                (None, true)
            } else {
                (Some(Node::Leaf(w)), false)
            }
        },
        Node::Split { dir, ratio, first, second } => {
            let ghost fl = first.leaves();
            let ghost sl = second.leaves();
            let (a, hit_a) = remove_node(*first, t);
            let (b, hit_b) = remove_node(*second, t);
            proof {
                if fl.contains(t) {
                    let i = choose|i: int| 0 <= i < fl.len() && fl[i] == t;
                    assert(old_node.leaves()[i] == t);
                }
                if sl.contains(t) {
                    let i = choose|i: int| 0 <= i < sl.len() && sl[i] == t;
                    assert(old_node.leaves()[fl.len() + i] == t);
                }
                if old_node.leaves().contains(t) {
                    let i = choose|i: int| 0 <= i < old_node.leaves().len() && old_node.leaves()[i] == t;
                    if i < fl.len() {
                        assert(fl[i] == t);
                    } else {
                        assert(sl[i - fl.len()] == t);
                    }
                }
            }
            let hit = hit_a || hit_b;
            match (a, b) {
                (None, None) => (None, hit),
                (Some(a), None) => (Some(a), hit),
                (None, Some(b)) => (Some(b), hit),
                (Some(a), Some(b)) => (
                    Some(Node::Split { dir, ratio, first: Box::new(a), second: Box::new(b) }),
                    hit,
                ),
            }
        },
    }
}

/// Index of the first occurrence of `w` in `v`.
pub fn first_index(v: &Vec<u32>, w: u32) -> (r: Option<usize>)
    ensures
        r is None <==> !v@.contains(w),
        r matches Some(i) ==> i < v.len() && v@[i as int] == w && forall|j: int|
            0 <= j < i ==> v@[j] != w,
{
    let mut i: usize = 0;
    while i < v.len()
        invariant
            i <= v.len(),
            forall|j: int| 0 <= j < i ==> v@[j] != w,
        decreases v.len() - i,
    {
        if v[i] == w {
            return Some(i);
        }
        i += 1;
    }
    None
}

pub fn contains_id(v: &Vec<u32>, w: u32) -> (r: bool)
    ensures
        r == v@.contains(w),
{
    let mut i: usize = 0;
    while i < v.len()
        invariant
            i <= v.len(),
            forall|j: int| 0 <= j < i ==> v@[j] != w,
        decreases v.len() - i,
    {
        if v[i] == w {
            return true;
        }
        i += 1;
    }
    false
}

fn prune_dead_node(node: Node, live: &Vec<u32>) -> (r: Option<Node>)
    ensures
        r == node.prune_spec(live@),
    decreases node,
{
    match node {
        Node::Leaf(w) => {
            if contains_id(live, w) {
                Some(Node::Leaf(w))
            } else {
                None
            }
        },
        Node::Split { dir, ratio, first, second } => {
            let a = prune_dead_node(*first, live);
            let b = prune_dead_node(*second, live);
            match (a, b) {
                (None, None) => None,
                (Some(a), None) => Some(a),
                (None, Some(b)) => Some(b),
                (Some(a), Some(b)) => Some(
                    Node::Split { dir, ratio, first: Box::new(a), second: Box::new(b) },
                ),
            }
        },
    }
}

fn replace_in_node(node: Node, a: u32, b: u32) -> (r: Node)
    ensures
        r == node.replace_spec(a, b),
    decreases node,
{
    match node {
        Node::Leaf(w) => {
            if w == a {
                Node::Leaf(b)
            } else {
                Node::Leaf(w)
            }
        },
        Node::Split { dir, ratio, first, second } => {
            let f = replace_in_node(*first, a, b);
            let s2 = replace_in_node(*second, a, b);
            Node::Split { dir, ratio, first: Box::new(f), second: Box::new(s2) }
        },
    }
}

fn swap_in_node(node: Node, a: u32, b: u32) -> (r: Node)
    ensures
        r == node.swap_spec(a, b),
    decreases node,
{
    match node {
        Node::Leaf(w) => {
            if w == a {
                Node::Leaf(b)
            } else if w == b {
                Node::Leaf(a)
            } else {
                Node::Leaf(w)
            }
        },
        Node::Split { dir, ratio, first, second } => {
            let f = swap_in_node(*first, a, b);
            let s2 = swap_in_node(*second, a, b);
            Node::Split { dir, ratio, first: Box::new(f), second: Box::new(s2) }
        },
    }
}


/// `v` limited to `[lo, hi]`.
pub open spec fn clamp_int(v: int, lo: int, hi: int) -> int {
    if v < lo {
        lo
    } else if v > hi {
        hi
    } else {
        v
    }
}

/// The first child's share after growing the focused side by `delta`: the
/// focused child is the first (`branch == 0`) or the second, and neither
/// child ends up below `RATIO_MIN`.
pub open spec fn adjusted_ratio(ratio: int, branch: usize, delta: int) -> int {
    if branch == 0 {
        ratio + clamp_int(delta, RATIO_MIN - ratio, RATIO_ONE - ratio - RATIO_MIN)
    } else {
        ratio - clamp_int(-delta, RATIO_MIN - (RATIO_ONE - ratio), ratio - RATIO_MIN)
    }
}

/// Index of the last split in `s` running along `axis`, or -1.
pub open spec fn last_axis_index(s: Seq<(Direction, u32, usize)>, axis: Direction) -> int
    decreases s.len(),
{
    if s.len() == 0 {
        -1
    } else if s.last().0 == axis {
        s.len() - 1
    } else {
        last_axis_index(s.drop_last(), axis)
    }
}

pub proof fn lemma_last_axis_index(s: Seq<(Direction, u32, usize)>, axis: Direction)
    ensures
        -1 <= last_axis_index(s, axis) < s.len(),
        last_axis_index(s, axis) >= 0 ==> s[last_axis_index(s, axis)].0 == axis,
        forall|j: int| last_axis_index(s, axis) < j < s.len() ==> s[j].0 != axis,
    decreases s.len(),
{
    if s.len() > 0 && s.last().0 != axis {
        lemma_last_axis_index(s.drop_last(), axis);
        assert forall|j: int| last_axis_index(s, axis) < j < s.len() implies s[j].0 != axis by {
            if j < s.len() - 1 {
                assert(s[j] == s.drop_last()[j]);
            }
        }
    }
}

proof fn lemma_adjusted_ratio(ratio: int, branch: usize, delta: int)
    requires
        RATIO_MIN <= ratio <= RATIO_ONE - RATIO_MIN,
    ensures
        RATIO_MIN <= adjusted_ratio(ratio, branch, delta) <= RATIO_ONE - RATIO_MIN,
{
}

impl Node {
    /// `(direction, ratio, branch taken)` of each split along `p`, from the root.
    spec fn path_splits(self, p: Seq<usize>) -> Seq<(Direction, u32, usize)>
        decreases self,
    {
        match self {
            Node::Leaf(_) => Seq::empty(),
            Node::Split { dir, ratio, first, second } => seq![(dir, ratio, p[0])] + if p[0] == 0 {
                first.path_splits(p.drop_first())
            } else {
                second.path_splits(p.drop_first())
            },
        }
    }

    /// The tree with the ratio of the `k`-th split along `p` adjusted by `delta`.
    spec fn resize_at_spec(self, p: Seq<usize>, k: int, delta: int) -> Node
        decreases self,
    {
        match self {
            Node::Leaf(_) => self,
            Node::Split { dir, ratio, first, second } => if k == 0 {
                Node::Split {
                    dir,
                    ratio: adjusted_ratio(ratio as int, p[0], delta) as u32,
                    first,
                    second,
                }
            } else if p[0] == 0 {
                Node::Split {
                    dir,
                    ratio,
                    first: Box::new(first.resize_at_spec(p.drop_first(), k - 1, delta)),
                    second,
                }
            } else {
                Node::Split {
                    dir,
                    ratio,
                    first,
                    second: Box::new(second.resize_at_spec(p.drop_first(), k - 1, delta)),
                }
            },
        }
    }

    proof fn lemma_path_splits_len(self, p: Seq<usize>)
        requires
            self.valid_path(p),
        ensures
            self.path_splits(p).len() == p.len(),
            forall|j: int| 0 <= j < p.len() ==> #[trigger] self.path_splits(p)[j].2 == p[j],
        decreases self,
    {
        match self {
            Node::Leaf(_) => {},
            Node::Split { first, second, .. } => {
                let rest = p.drop_first();
                if p[0] == 0 {
                    first.lemma_path_splits_len(rest);
                } else {
                    second.lemma_path_splits_len(rest);
                }
                assert forall|j: int| 0 <= j < p.len() implies #[trigger] self.path_splits(p)[j].2
                    == p[j] by {
                    if j > 0 {
                        assert(p[j] == rest[j - 1]);
                    }
                }
            },
        }
    }

    proof fn lemma_resize_at(self, p: Seq<usize>, k: int, delta: int)
        requires
            self.wf(),
            self.valid_path(p),
            0 <= k < p.len(),
        ensures
            self.resize_at_spec(p, k, delta).wf(),
            self.resize_at_spec(p, k, delta).valid_path(p),
            self.resize_at_spec(p, k, delta).leaves() == self.leaves(),
            self.resize_at_spec(p, k, delta).leaf_at(p) == self.leaf_at(p),
            self.resize_at_spec(p, k, delta).path_index(p) == self.path_index(p),
            self.resize_at_spec(p, k, delta).path_splits(p) == self.path_splits(p).update(
                k,
                (
                    self.path_splits(p)[k].0,
                    adjusted_ratio(self.path_splits(p)[k].1 as int, p[k], delta) as u32,
                    p[k],
                ),
            ),
        decreases self,
    {
        self.lemma_path_splits_len(p);
        match self {
            Node::Leaf(_) => {},
            Node::Split { dir, ratio, first, second } => {
                let rest = p.drop_first();
                let r = self.resize_at_spec(p, k, delta);
                if k == 0 {
                    lemma_adjusted_ratio(ratio as int, p[0], delta);
                    assert(r.path_splits(p) =~= self.path_splits(p).update(
                        k,
                        (
                            self.path_splits(p)[k].0,
                            adjusted_ratio(self.path_splits(p)[k].1 as int, p[k], delta) as u32,
                            p[k],
                        ),
                    ));
                } else if p[0] == 0 {
                    first.lemma_resize_at(rest, k - 1, delta);
                    first.lemma_path_splits_len(rest);
                    assert(p[k] == rest[k - 1]);
                    assert(r.path_splits(p) =~= self.path_splits(p).update(
                        k,
                        (
                            self.path_splits(p)[k].0,
                            adjusted_ratio(self.path_splits(p)[k].1 as int, p[k], delta) as u32,
                            p[k],
                        ),
                    ));
                } else {
                    second.lemma_resize_at(rest, k - 1, delta);
                    second.lemma_path_splits_len(rest);
                    assert(p[k] == rest[k - 1]);
                    assert(r.path_splits(p) =~= self.path_splits(p).update(
                        k,
                        (
                            self.path_splits(p)[k].0,
                            adjusted_ratio(self.path_splits(p)[k].1 as int, p[k], delta) as u32,
                            p[k],
                        ),
                    ));
                }
            },
        }
    }

    /// Index of the last split along `p[depth..]` running along `axis`.
    fn last_axis_exec(&self, p: &Vec<usize>, depth: usize, axis: Direction) -> (r: Option<usize>)
        requires
            depth <= p.len(),
            self.valid_path(p@.skip(depth as int)),
        ensures
            last_axis_index(self.path_splits(p@.skip(depth as int)), axis) < 0 ==> r is None,
            last_axis_index(self.path_splits(p@.skip(depth as int)), axis) >= 0 ==> r == Some(
                last_axis_index(self.path_splits(p@.skip(depth as int)), axis) as usize,
            ),
        decreases self,
    {
        let ghost rest = p@.skip(depth as int);
        proof {
            self.lemma_path_splits_len(rest);
            lemma_last_axis_index(self.path_splits(rest), axis);
        }
        match self {
            Node::Leaf(_) => None,
            Node::Split { dir, first, second, .. } => {
                proof {
                    assert(rest.drop_first() =~= p@.skip(depth + 1));
                }
                let sub = if p[depth] == 0 {
                    first.last_axis_exec(p, depth + 1, axis)
                } else {
                    second.last_axis_exec(p, depth + 1, axis)
                };
                let ghost child_splits = if p@[depth as int] == 0 {
                    first.path_splits(p@.skip(depth + 1))
                } else {
                    second.path_splits(p@.skip(depth + 1))
                };
                proof {
                    let all = self.path_splits(rest);
                    assert(all == seq![(*dir, self.path_splits(rest)[0].1, p[depth as int])] + child_splits);
                    lemma_last_axis_suffix(all, child_splits, axis);
                }
                match sub {
                    Some(k) => Some(k + 1),
                    None => {
                        if *dir == axis {
                            Some(0)
                        } else {
                            None
                        }
                    },
                }
            },
        }
    }
}

/// The last `axis` split of `h + t` is the last one in `t` (shifted), or `h`
/// itself when `t` has none.
proof fn lemma_last_axis_suffix(
    all: Seq<(Direction, u32, usize)>,
    t: Seq<(Direction, u32, usize)>,
    axis: Direction,
)
    requires
        all.len() == t.len() + 1,
        forall|j: int| 0 <= j < t.len() ==> all[j + 1] == t[j],
    ensures
        last_axis_index(t, axis) >= 0 ==> last_axis_index(all, axis) == last_axis_index(t, axis)
            + 1,
        last_axis_index(t, axis) < 0 ==> last_axis_index(all, axis) == if all[0].0 == axis {
            0int
        } else {
            -1int
        },
    decreases t.len(),
{
    if t.len() == 0 {
        assert(all.drop_last().len() == 0);
        assert(all.last() == all[0]);
        assert(last_axis_index(all.drop_last(), axis) == -1);
    } else {
        assert(all.last() == all[t.len() - 1 + 1]);
        assert(all.last() == t.last());
        if t.last().0 != axis {
            assert forall|j: int| 0 <= j < t.drop_last().len() implies all.drop_last()[j + 1]
                == t.drop_last()[j] by {
                assert(all[j + 1] == t[j]);
            }
            assert(all.drop_last()[0] == all[0]);
            lemma_last_axis_suffix(all.drop_last(), t.drop_last(), axis);
        }
    }
}

fn resize_at(node: Node, p: &Vec<usize>, depth: usize, k: usize, delta: i32) -> (r: Node)
    requires
        depth <= p.len(),
        node.wf(),
        node.valid_path(p@.skip(depth as int)),
    ensures
        r == node.resize_at_spec(p@.skip(depth as int), k as int, delta as int),
    decreases node,
{
    let ghost rest = p@.skip(depth as int);
    match node {
        Node::Leaf(x) => Node::Leaf(x),
        Node::Split { dir, ratio, first, second } => {
            proof {
                assert(rest.drop_first() =~= p@.skip(depth + 1));
            }
            if k == 0 {
                // Trade share with the sibling. Growing the first child moves
                // the shared edge forward; when the focused child is the second
                // one, the same delta moves that edge the other way.
                let r = ratio as i64;
                let one = RATIO_ONE as i64;
                let min = RATIO_MIN as i64;
                let new_ratio = if p[depth] == 0 {
                    let lo = min - r;
                    let hi = one - r - min;
                    let d = if (delta as i64) < lo {
                        lo
                    } else if (delta as i64) > hi {
                        hi
                    } else {
                        delta as i64
                    };
                    r + d
                } else {
                    let lo = min - (one - r);
                    let hi = r - min;
                    let v = -(delta as i64);
                    let d = if v < lo {
                        lo
                    } else if v > hi {
                        hi
                    } else {
                        v
                    };
                    r - d
                };
                proof {
                    lemma_adjusted_ratio(ratio as int, p[depth as int], delta as int);
                }
                Node::Split { dir, ratio: new_ratio as u32, first, second }
            } else if p[depth] == 0 {
                let f = resize_at(*first, p, depth + 1, k - 1, delta);
                Node::Split { dir, ratio, first: Box::new(f), second }
            } else {
                let s2 = resize_at(*second, p, depth + 1, k - 1, delta);
                Node::Split { dir, ratio, first, second: Box::new(s2) }
            }
        },
    }
}

proof fn lemma_splits_bounded(n: Node, p: Seq<usize>)
    requires
        n.wf(),
        n.valid_path(p),
    ensures
        forall|j: int|
            0 <= j < n.path_splits(p).len() ==> RATIO_MIN <= (#[trigger] n.path_splits(p)[j]).1
                <= RATIO_ONE - RATIO_MIN,
    decreases n,
{
    match n {
        Node::Leaf(_) => {},
        Node::Split { first, second, .. } => {
            let rest = p.drop_first();
            if p[0] == 0 {
                lemma_splits_bounded(*first, rest);
            } else {
                lemma_splits_bounded(*second, rest);
            }
            assert forall|j: int| 0 <= j < n.path_splits(p).len() implies RATIO_MIN <= (
            #[trigger] n.path_splits(p)[j]).1 <= RATIO_ONE - RATIO_MIN by {
                if j > 0 {
                    if p[0] == 0 {
                        assert(n.path_splits(p)[j] == first.path_splits(rest)[j - 1]);
                    } else {
                        assert(n.path_splits(p)[j] == second.path_splits(rest)[j - 1]);
                    }
                }
            }
        },
    }
}


/// The first child's span of `total` for a split holding `ratio`, rounded to
/// the nearest pixel.
pub open spec fn ratio_span(total: int, ratio: int) -> int {
    (total * ratio + RATIO_HALF) / (RATIO_ONE as int)
}

/// The two halves of `r` for a split along `dir`: the first child gets its
/// rounded share, the second whatever is left (so no rounding gap opens).
pub open spec fn split_rect(r: Rect, dir: Direction, ratio: int) -> (Rect, Rect) {
    match dir {
        Direction::Horizontal => {
            let s = ratio_span(r.w as int, ratio);
            (
                Rect { x: r.x, y: r.y, w: s as i32, h: r.h },
                Rect { x: (r.x + s) as i32, y: r.y, w: (r.w - s) as i32, h: r.h },
            )
        },
        Direction::Vertical => {
            let s = ratio_span(r.h as int, ratio);
            (
                Rect { x: r.x, y: r.y, w: r.w, h: s as i32 },
                Rect { x: r.x, y: (r.y + s) as i32, w: r.w, h: (r.h - s) as i32 },
            )
        },
    }
}

proof fn lemma_ratio_span(total: int, ratio: int)
    requires
        0 <= total,
        0 <= ratio <= RATIO_ONE,
    ensures
        0 <= ratio_span(total, ratio) <= total,
{
    assert(0 <= total * ratio <= total * RATIO_ONE) by (nonlinear_arith)
        requires
            0 <= total,
            0 <= ratio <= RATIO_ONE,
    ;
    assert((total * RATIO_ONE + RATIO_HALF) / (RATIO_ONE as int) == total) by (nonlinear_arith)
        requires
            0 <= total,
    ;
    vstd::arithmetic::div_mod::lemma_div_is_ordered(
        total * ratio + RATIO_HALF,
        total * RATIO_ONE + RATIO_HALF,
        RATIO_ONE as int,
    );
}

proof fn lemma_split_rect(r: Rect, dir: Direction, ratio: int)
    requires
        r.wf(),
        0 <= ratio <= RATIO_ONE,
    ensures
        split_rect(r, dir, ratio).0.wf(),
        split_rect(r, dir, ratio).1.wf(),
        r.encloses(split_rect(r, dir, ratio).0),
        r.encloses(split_rect(r, dir, ratio).1),
        split_rect(r, dir, ratio).0.area() + split_rect(r, dir, ratio).1.area() == r.area(),
{
    match dir {
        Direction::Horizontal => {
            lemma_ratio_span(r.w as int, ratio);
            let s = ratio_span(r.w as int, ratio);
            assert(s * r.h + (r.w - s) * r.h == r.w * r.h) by (nonlinear_arith);
        },
        Direction::Vertical => {
            lemma_ratio_span(r.h as int, ratio);
            let s = ratio_span(r.h as int, ratio);
            assert(r.w * s + r.w * (r.h - s) == r.w * r.h) by (nonlinear_arith);
        },
    }
}

/// Sum of the areas of the placed rectangles.
pub open spec fn total_area(s: Seq<(u32, Rect)>) -> int
    decreases s.len(),
{
    if s.len() == 0 {
        0
    } else {
        total_area(s.drop_last()) + s.last().1.area()
    }
}

proof fn lemma_total_area_add(a: Seq<(u32, Rect)>, b: Seq<(u32, Rect)>)
    ensures
        total_area(a + b) == total_area(a) + total_area(b),
    decreases b.len(),
{
    if b.len() == 0 {
        assert(a + b =~= a);
    } else {
        assert((a + b).drop_last() =~= a + b.drop_last());
        lemma_total_area_add(a, b.drop_last());
    }
}

impl Node {
    /// Each leaf with the rectangle the split tree gives it inside `r`.
    spec fn layout_spec(self, r: Rect) -> Seq<(u32, Rect)>
        decreases self,
    {
        match self {
            Node::Leaf(w) => seq![(w, r)],
            Node::Split { dir, ratio, first, second } => {
                let halves = split_rect(r, dir, ratio as int);
                first.layout_spec(halves.0) + second.layout_spec(halves.1)
            },
        }
    }

    proof fn lemma_layout(self, r: Rect)
        requires
            self.wf(),
            r.wf(),
        ensures
            self.layout_spec(r).len() == self.leaves().len(),
            forall|i: int|
                0 <= i < self.layout_spec(r).len() ==> {
                    &&& (#[trigger] self.layout_spec(r)[i]).0 == self.leaves()[i]
                    &&& self.layout_spec(r)[i].1.wf()
                    &&& r.encloses(self.layout_spec(r)[i].1)
                },
            total_area(self.layout_spec(r)) == r.area(),
        decreases self,
    {
        match self {
            Node::Leaf(w) => {
                assert(seq![(w, r)].drop_last() =~= Seq::<(u32, Rect)>::empty());
                assert(total_area(Seq::<(u32, Rect)>::empty()) == 0);
                assert(seq![(w, r)].last() == (w, r));
            },
            Node::Split { dir, ratio, first, second } => {
                lemma_split_rect(r, dir, ratio as int);
                let halves = split_rect(r, dir, ratio as int);
                first.lemma_layout(halves.0);
                second.lemma_layout(halves.1);
                lemma_total_area_add(first.layout_spec(halves.0), second.layout_spec(halves.1));
                let a = first.layout_spec(halves.0);
                let b = second.layout_spec(halves.1);
                assert forall|i: int| 0 <= i < self.layout_spec(r).len() implies {
                    &&& (#[trigger] self.layout_spec(r)[i]).0 == self.leaves()[i]
                    &&& self.layout_spec(r)[i].1.wf()
                    &&& r.encloses(self.layout_spec(r)[i].1)
                } by {
                    if i < a.len() {
                        assert(self.layout_spec(r)[i] == a[i]);
                    } else {
                        assert(self.layout_spec(r)[i] == b[i - a.len()]);
                    }
                }
            },
        }
    }

    fn layout_node(&self, r: Rect, out: &mut Vec<(u32, Rect)>)
        requires
            self.wf(),
            r.wf(),
        ensures
            final(out)@ == old(out)@ + self.layout_spec(r),
        decreases self,
    {
        match self {
            Node::Leaf(w) => {
                out.push((*w, r));
            },
            Node::Split { dir, ratio, first, second } => {
                proof {
                    lemma_split_rect(r, *dir, *ratio as int);
                }
                let halves = match dir {
                    Direction::Horizontal => {
                        proof {
                            lemma_ratio_span(r.w as int, *ratio as int);
                            assert(0 <= (r.w as int) * (*ratio as int) <= (r.w as int) * RATIO_ONE) by (nonlinear_arith)
                                requires 0 <= r.w, *ratio <= RATIO_ONE;
                        }
                        let s = (((r.w as u64) * (*ratio as u64) + RATIO_HALF as u64) / (
                        RATIO_ONE as u64)) as i32;
                        (Rect { x: r.x, y: r.y, w: s, h: r.h }, Rect {
                            x: r.x + s,
                            y: r.y,
                            w: r.w - s,
                            h: r.h,
                        })
                    },
                    Direction::Vertical => {
                        proof {
                            lemma_ratio_span(r.h as int, *ratio as int);
                            assert(0 <= (r.h as int) * (*ratio as int) <= (r.h as int) * RATIO_ONE) by (nonlinear_arith)
                                requires 0 <= r.h, *ratio <= RATIO_ONE;
                        }
                        let s = (((r.h as u64) * (*ratio as u64) + RATIO_HALF as u64) / (
                        RATIO_ONE as u64)) as i32;
                        (Rect { x: r.x, y: r.y, w: r.w, h: s }, Rect {
                            x: r.x,
                            y: r.y + s,
                            w: r.w,
                            h: r.h - s,
                        })
                    },
                };
                proof {
                    assert(halves == split_rect(r, *dir, *ratio as int));
                }
                first.layout_node(halves.0, out);
                second.layout_node(halves.1, out);
                proof {
                    assert(old(out)@ + first.layout_spec(halves.0) + second.layout_spec(halves.1)
                        =~= old(out)@ + self.layout_spec(r));
                }
            },
        }
    }
}

/// Width of the master pane: 60% of the viewport, rounded.
pub open spec fn master_width(w: int) -> int {
    (w * 6 + 5) / 10
}

/// Rectangle of the `i`-th of `n` windows in master-stack mode: the first fills
/// the left 60%, the rest split the right column evenly top to bottom, the
/// last stack window taking the rounding remainder. One window fills `vp`.
pub open spec fn master_rect(n: int, i: int, vp: Rect) -> Rect {
    if n == 1 {
        vp
    } else if i == 0 {
        Rect { x: vp.x, y: vp.y, w: master_width(vp.w as int) as i32, h: vp.h }
    } else {
        let mw = master_width(vp.w as int);
        let sn = n - 1;
        let sh = (vp.h as int) / sn;
        let k = i - 1;
        let y = vp.y + k * sh;
        let h = if k == sn - 1 {
            vp.y + vp.h - y
        } else {
            sh
        };
        Rect { x: (vp.x + mw) as i32, y: y as i32, w: (vp.w - mw) as i32, h: h as i32 }
    }
}

pub open spec fn master_spec(ws: Seq<u32>, vp: Rect) -> Seq<(u32, Rect)> {
    Seq::new(ws.len(), |i: int| (ws[i], master_rect(ws.len() as int, i, vp)))
}

/// Row `k` of `sn` rows of height `h / sn` ends inside the column.
proof fn lemma_stack_row(k: int, sn: int, h: int)
    requires
        0 <= k < sn,
        0 <= h,
    ensures
        0 <= k * (h / sn),
        k * (h / sn) + h / sn <= h,
        h / sn >= 0,
{
    let sh = h / sn;
    assert(sn * sh <= h) by (nonlinear_arith)
        requires
            sn > 0,
            sh == h / sn,
            h >= 0,
    ;
    assert(0 <= k * sh && k * sh + sh <= sn * sh) by (nonlinear_arith)
        requires
            0 <= k < sn,
            sh >= 0,
    ;
}

/// The fields of a master-stack rectangle, as integers.
proof fn lemma_master_fields(n: int, i: int, vp: Rect)
    requires
        vp.wf(),
        n >= 2,
        0 <= i < n,
    ensures
        0 <= master_width(vp.w as int) <= vp.w,
        i == 0 ==> master_rect(n, i, vp) == (Rect {
            x: vp.x,
            y: vp.y,
            w: master_width(vp.w as int) as i32,
            h: vp.h,
        }),
        i == 0 ==> master_rect(n, i, vp).w == master_width(vp.w as int),
        i > 0 ==> {
            let r = master_rect(n, i, vp);
            let sh = (vp.h as int) / (n - 1);
            let k = i - 1;
            &&& r.x == vp.x + master_width(vp.w as int)
            &&& r.w == vp.w - master_width(vp.w as int)
            &&& r.y == vp.y + k * sh
            &&& r.h == if k == n - 2 {
                vp.h - k * sh
            } else {
                sh
            }
            &&& 0 <= k * sh
            &&& k * sh + sh <= vp.h
            &&& sh >= 0
        },
{
    let w = vp.w as int;
    assert(0 <= (w * 6 + 5) / 10 <= w) by (nonlinear_arith)
        requires
            w >= 0,
    ;
    if i > 0 {
        lemma_stack_row(i - 1, n - 1, vp.h as int);
    }
}

/// Area of the stack rows from window `i0` on: `t[j]` is window `i0 + j`.
proof fn lemma_stack_area(n: int, i0: int, vp: Rect, t: Seq<(u32, Rect)>)
    requires
        vp.wf(),
        n >= 2,
        1 <= i0 < n,
        t.len() == n - i0,
        forall|j: int| 0 <= j < t.len() ==> (#[trigger] t[j]).1 == master_rect(n, i0 + j, vp),
    ensures
        area_sum(t) == (vp.w - master_width(vp.w as int)) * (vp.h - (i0 - 1) * ((vp.h as int) / (
        n - 1))),
    decreases n - i0,
{
    let sw = vp.w - master_width(vp.w as int);
    let sh = (vp.h as int) / (n - 1);
    let k = i0 - 1;
    lemma_master_fields(n, i0, vp);
    assert(t[0].1 == master_rect(n, i0, vp));
    if i0 == n - 1 {
        assert(t.drop_first() =~= Seq::<(u32, Rect)>::empty());
        assert(area_sum(t.drop_first()) == 0);
    } else {
        let rest = t.drop_first();
        assert forall|j: int| 0 <= j < rest.len() implies (#[trigger] rest[j]).1 == master_rect(
            n,
            i0 + 1 + j,
            vp,
        ) by {
            assert(rest[j] == t[j + 1]);
        }
        lemma_stack_area(n, i0 + 1, vp, rest);
        assert(sw * sh + sw * (vp.h - i0 * sh) == sw * (vp.h - (i0 - 1) * sh)) by (nonlinear_arith);
    }
}

/// Master-stack placements tile the viewport: no two windows overlap, and
/// their areas add up to the whole viewport.
pub proof fn law_master_tiles(ws: Seq<u32>, vp: Rect)
    requires
        vp.wf(),
        ws.len() > 0,
    ensures
        forall|i: int, j: int|
            0 <= i < j < ws.len() ==> (#[trigger] master_spec(ws, vp)[i]).1.apart(
                (#[trigger] master_spec(ws, vp)[j]).1,
            ),
        area_sum(master_spec(ws, vp)) == vp.area(),
{
    let n = ws.len() as int;
    let out = master_spec(ws, vp);
    if n == 1 {
        assert(out.drop_first() =~= Seq::<(u32, Rect)>::empty());
        assert(area_sum(out.drop_first()) == 0);
    } else {
        let sh = (vp.h as int) / (n - 1);
        assert forall|i: int, j: int| 0 <= i < j < n implies (#[trigger] out[i]).1.apart(
            (#[trigger] out[j]).1,
        ) by {
            lemma_master_fields(n, i, vp);
            lemma_master_fields(n, j, vp);
            if i > 0 {
                let ki = i - 1;
                let kj = j - 1;
                assert(ki * sh + sh <= kj * sh) by (nonlinear_arith)
                    requires
                        0 <= ki < kj,
                        sh >= 0,
                ;
            }
        }
        lemma_master_fields(n, 0, vp);
        let rest = out.drop_first();
        assert forall|j: int| 0 <= j < rest.len() implies (#[trigger] rest[j]).1 == master_rect(
            n,
            1 + j,
            vp,
        ) by {
            assert(rest[j] == out[j + 1]);
        }
        lemma_stack_area(n, 1, vp, rest);
        let mw = master_width(vp.w as int);
        assert(mw * vp.h + (vp.w - mw) * (vp.h - 0 * sh) == vp.w * vp.h) by (nonlinear_arith);
    }
}

/// The two parts of `r` when a window takes half of it: along the width
/// (`horiz`) or the height, taking the first half or (`second`) the other one.
/// Returns (the window's rectangle, the remaining area).
pub open spec fn halve(r: Rect, horiz: bool, second: bool) -> (Rect, Rect) {
    if horiz {
        let half = r.w / 2;
        let a = Rect { x: r.x, y: r.y, w: half as i32, h: r.h };
        let b = Rect { x: (r.x + half) as i32, y: r.y, w: (r.w - half) as i32, h: r.h };
        if second {
            (b, a)
        } else {
            (a, b)
        }
    } else {
        let half = r.h / 2;
        let a = Rect { x: r.x, y: r.y, w: r.w, h: half as i32 };
        let b = Rect { x: r.x, y: (r.y + half) as i32, w: r.w, h: (r.h - half) as i32 };
        if second {
            (b, a)
        } else {
            (a, b)
        }
    }
}

/// Dwindle (`flip == false`) and spiral (`flip == true`) placement: each window
/// but the last takes half of the remaining area, the axis alternating; in a
/// spiral the taken half alternates too. The last window fills what is left.
pub open spec fn halving_spec(ws: Seq<u32>, r: Rect, horiz: bool, second: bool, flip: bool) -> Seq<
    (u32, Rect),
>
    decreases ws.len(),
{
    if ws.len() == 0 {
        Seq::empty()
    } else if ws.len() == 1 {
        seq![(ws[0], r)]
    } else {
        let parts = halve(r, horiz, second);
        seq![(ws[0], parts.0)] + halving_spec(
            ws.drop_first(),
            parts.1,
            !horiz,
            if flip {
                !second
            } else {
                second
            },
            flip,
        )
    }
}

proof fn lemma_halve(r: Rect, horiz: bool, second: bool)
    requires
        r.wf(),
    ensures
        halve(r, horiz, second).0.wf(),
        halve(r, horiz, second).1.wf(),
        r.encloses(halve(r, horiz, second).0),
        r.encloses(halve(r, horiz, second).1),
{
}

proof fn lemma_halving(ws: Seq<u32>, r: Rect, horiz: bool, second: bool, flip: bool)
    requires
        r.wf(),
    ensures
        halving_spec(ws, r, horiz, second, flip).len() == ws.len(),
        forall|i: int|
            0 <= i < ws.len() ==> {
                &&& (#[trigger] halving_spec(ws, r, horiz, second, flip)[i]).0 == ws[i]
                &&& halving_spec(ws, r, horiz, second, flip)[i].1.wf()
                &&& r.encloses(halving_spec(ws, r, horiz, second, flip)[i].1)
            },
    decreases ws.len(),
{
    if ws.len() > 1 {
        lemma_halve(r, horiz, second);
        let parts = halve(r, horiz, second);
        let sec2 = if flip {
            !second
        } else {
            second
        };
        lemma_halving(ws.drop_first(), parts.1, !horiz, sec2, flip);
        let tail = halving_spec(ws.drop_first(), parts.1, !horiz, sec2, flip);
        assert forall|i: int| 0 <= i < ws.len() implies {
            &&& (#[trigger] halving_spec(ws, r, horiz, second, flip)[i]).0 == ws[i]
            &&& halving_spec(ws, r, horiz, second, flip)[i].1.wf()
            &&& r.encloses(halving_spec(ws, r, horiz, second, flip)[i].1)
        } by {
            if i > 0 {
                assert(halving_spec(ws, r, horiz, second, flip)[i] == tail[i - 1]);
            }
        }
    }
}

/// The summed area of the placed rectangles.
pub open spec fn area_sum(s: Seq<(u32, Rect)>) -> int
    decreases s.len(),
{
    if s.len() == 0 {
        0
    } else {
        s[0].1.area() + area_sum(s.drop_first())
    }
}

/// Dwindle and spiral placements tile the area they are given: no two
/// windows overlap, and their areas add up to the whole area.
pub proof fn law_halving_tiles(ws: Seq<u32>, r: Rect, horiz: bool, second: bool, flip: bool)
    requires
        r.wf(),
        ws.len() > 0,
    ensures
        forall|i: int, j: int|
            0 <= i < j < ws.len() ==> (#[trigger] halving_spec(ws, r, horiz, second, flip)[i]).1.apart(
                (#[trigger] halving_spec(ws, r, horiz, second, flip)[j]).1,
            ),
        area_sum(halving_spec(ws, r, horiz, second, flip)) == r.area(),
    decreases ws.len(),
{
    let out = halving_spec(ws, r, horiz, second, flip);
    if ws.len() == 1 {
        assert(out.drop_first() =~= Seq::<(u32, Rect)>::empty());
        assert(area_sum(out.drop_first()) == 0);
        assert(out[0].1 == r);
    } else {
        lemma_halve(r, horiz, second);
        let parts = halve(r, horiz, second);
        let sec2 = if flip {
            !second
        } else {
            second
        };
        let tail = halving_spec(ws.drop_first(), parts.1, !horiz, sec2, flip);
        lemma_halving(ws.drop_first(), parts.1, !horiz, sec2, flip);
        law_halving_tiles(ws.drop_first(), parts.1, !horiz, sec2, flip);
        assert(out.drop_first() =~= tail);
        assert(parts.0.apart(parts.1));
        assert forall|i: int, j: int| 0 <= i < j < ws.len() implies (#[trigger] out[i]).1.apart(
            (#[trigger] out[j]).1,
        ) by {
            assert(out[j] == tail[j - 1]);
            if i > 0 {
                assert(out[i] == tail[i - 1]);
                assert(tail[i - 1].1.apart(tail[j - 1].1));
            } else {
                assert(parts.1.encloses(tail[j - 1].1));
            }
        }
        let h = r.h as int;
        let w = r.w as int;
        if horiz {
            let half = w / 2;
            assert(half * h + (w - half) * h == w * h) by (nonlinear_arith);
        } else {
            let half = h / 2;
            assert(w * half + w * (h - half) == w * h) by (nonlinear_arith);
        }
        assert(parts.0.area() + parts.1.area() == r.area());
        assert(out[0].1 == parts.0);
        assert(area_sum(out) == out[0].1.area() + area_sum(out.drop_first()));
    }
}

fn halving_layout(ws: &Vec<u32>, vp: Rect, flip: bool) -> (out: Vec<(u32, Rect)>)
    requires
        vp.wf(),
    ensures
        out@ == halving_spec(ws@, vp, vp.w >= vp.h, false, flip),
{
    let mut out: Vec<(u32, Rect)> = Vec::new();
    let n = ws.len();
    if n == 0 {
        return out;
    }
    let mut rect = vp;
    let mut horiz = rect.w >= rect.h;
    let mut second = false;
    let mut i: usize = 0;
    proof {
        assert(ws@.skip(0) =~= ws@);
    }
    while i < n
        invariant
            0 < n == ws.len(),
            i <= n,
            rect.wf(),
            i < n ==> out@ + halving_spec(ws@.skip(i as int), rect, horiz, second, flip)
                == halving_spec(ws@, vp, vp.w >= vp.h, false, flip),
            i == n ==> out@ == halving_spec(ws@, vp, vp.w >= vp.h, false, flip),
        ensures
            out@ == halving_spec(ws@, vp, vp.w >= vp.h, false, flip),
        decreases n - i,
    {
        let ghost tail = ws@.skip(i as int);
        if i == n - 1 {
            out.push((ws[i], rect));
            proof {
                assert(tail =~= seq![ws@[i as int]]);
            }
            i += 1;
            break;
        }
        proof {
            lemma_halve(rect, horiz, second);
            assert(tail.drop_first() =~= ws@.skip(i + 1));
            assert(tail[0] == ws@[i as int]);
        }
        let (win, rest) = if horiz {
            let half = rect.w / 2;
            let a = Rect { x: rect.x, y: rect.y, w: half, h: rect.h };
            let b = Rect { x: rect.x + half, y: rect.y, w: rect.w - half, h: rect.h };
            if second {
                (b, a)
            } else {
                (a, b)
            }
        } else {
            let half = rect.h / 2;
            let a = Rect { x: rect.x, y: rect.y, w: rect.w, h: half };
            let b = Rect { x: rect.x, y: rect.y + half, w: rect.w, h: rect.h - half };
            if second {
                (b, a)
            } else {
                (a, b)
            }
        };
        proof {
            assert((win, rest) == halve(rect, horiz, second));
            assert(out@.push((ws@[i as int], win)) + halving_spec(
                ws@.skip(i + 1),
                rest,
                !horiz,
                if flip {
                    !second
                } else {
                    second
                },
                flip,
            ) =~= out@ + halving_spec(tail, rect, horiz, second, flip));
        }
        out.push((ws[i], win));
        rect = rest;
        horiz = !horiz;
        if flip {
            second = !second;
        }
        i += 1;
    }
    out
}

proof fn lemma_master_rect(n: int, i: int, vp: Rect)
    requires
        vp.wf(),
        1 <= n,
        0 <= i < n,
    ensures
        master_rect(n, i, vp).wf(),
        vp.encloses(master_rect(n, i, vp)),
{
    if n > 1 {
        let w = vp.w as int;
        assert(0 <= master_width(w) <= w) by (nonlinear_arith)
            requires
                0 <= w,
        ;
        if i > 0 {
            let sn = n - 1;
            let sh = (vp.h as int) / sn;
            let k = i - 1;
            assert(0 <= k * sh && k * sh + sh <= vp.h) by (nonlinear_arith)
                requires
                    0 <= k < sn,
                    sh == (vp.h as int) / sn,
                    0 <= vp.h,
                    1 <= sn,
            ;
        }
    }
}

fn master_stack(ws: &Vec<u32>, vp: Rect) -> (out: Vec<(u32, Rect)>)
    requires
        vp.wf(),
        ws.len() <= i32::MAX,
    ensures
        out@ == master_spec(ws@, vp),
{
    let n = ws.len();
    let mut out: Vec<(u32, Rect)> = Vec::new();
    if n == 0 {
        proof {
            assert(out@ =~= master_spec(ws@, vp));
        }
        return out;
    }
    if n == 1 {
        out.push((ws[0], vp));
        proof {
            assert(out@ =~= master_spec(ws@, vp));
        }
        return out;
    }
    proof {
        lemma_master_rect(n as int, 0, vp);
        assert(0 <= master_width(vp.w as int) <= vp.w) by (nonlinear_arith)
            requires
                0 <= vp.w,
        ;
    }
    let mw = ((vp.w as i64 * 6 + 5) / 10) as i32;
    out.push((ws[0], Rect { x: vp.x, y: vp.y, w: mw, h: vp.h }));
    let stack_n = (n - 1) as i32;
    let sx = vp.x + mw;
    let sw = vp.w - mw;
    let sh = vp.h / stack_n;
    let mut i: usize = 1;
    while i < n
        invariant
            2 <= n == ws.len() <= i32::MAX,
            1 <= i <= n,
            vp.wf(),
            stack_n == n - 1,
            mw == master_width(vp.w as int),
            sx == vp.x + mw,
            sw == vp.w - mw,
            sh == (vp.h as int) / (stack_n as int),
            out@.len() == i,
            forall|j: int| 0 <= j < i ==> out@[j] == (ws@[j], master_rect(n as int, j, vp)),
        decreases n - i,
    {
        let k = (i - 1) as i32;
        proof {
            lemma_master_rect(n as int, i as int, vp);
            assert(0 <= k * sh && k * sh + sh <= vp.h) by (nonlinear_arith)
                requires
                    0 <= k < stack_n,
                    sh == (vp.h as int) / (stack_n as int),
                    0 <= vp.h,
                    1 <= stack_n,
            ;
        }
        let y = vp.y + k * sh;
        let h = if k == stack_n - 1 {
            vp.y + vp.h - y
        } else {
            sh
        };
        out.push((ws[i], Rect { x: sx, y, w: sw, h }));
        i += 1;
    }
    proof {
        assert(out@ =~= master_spec(ws@, vp));
    }
    out
}

/// The tiling tree of one workspace.
pub struct Tree {
    root: Option<Node>,
    /// Path from the root to the focused leaf; each step picks a child.
    focus_path: Vec<usize>,
    /// Direction for the next insert (set by the split keybinds), consumed on use.
    pub next_split_override: Option<Direction>,
}

impl Tree {
    /// The tree's internal consistency: well-formed splits, a focus path that
    /// names a leaf, and a window count that fits in `usize`.
    pub closed spec fn wf(self) -> bool {
        match self.root {
            Some(n) => {
                &&& n.wf()
                &&& n.valid_path(self.focus_path@)
                &&& n.leaves().len() <= usize::MAX
            },
            None => self.focus_path@.len() == 0,
        }
    }

    /// All tiled windows in depth-first (visual) order.
    pub closed spec fn windows_spec(self) -> Seq<u32> {
        match self.root {
            Some(n) => n.leaves(),
            None => Seq::empty(),
        }
    }

    /// The focused window.
    pub closed spec fn focused_spec(self) -> Option<u32> {
        match self.root {
            Some(n) => Some(n.leaf_at(self.focus_path@)),
            None => None,
        }
    }

    /// Position of the focused leaf in `windows_spec()`.
    pub closed spec fn focus_index(self) -> int {
        match self.root {
            Some(n) => n.path_index(self.focus_path@),
            None => 0,
        }
    }

    /// Direction of the split that holds the focused leaf (None for a lone leaf).
    pub closed spec fn parent_direction_spec(self) -> Option<Direction> {
        match self.root {
            Some(n) => n.parent_dir(self.focus_path@),
            None => None,
        }
    }

    /// The pending split-direction override.
    pub closed spec fn split_override(self) -> Option<Direction> {
        self.next_split_override
    }

    /// Both trees have the same splits, ratios and leaves.
    pub closed spec fn same_tree(self, other: Tree) -> bool {
        self.root == other.root
    }

    /// The direction the next insert will split the focused leaf with.
    pub closed spec fn insert_direction(self) -> Direction {
        match self.next_split_override {
            Some(d) => d,
            None => match self.parent_direction_spec() {
                Some(p) => p.perpendicular_spec(),
                None => Direction::Horizontal,
            },
        }
    }

    /// Set (or clear) the direction for the next insert.
    pub fn set_next_split(&mut self, dir: Option<Direction>)
        requires
            old(self).wf(),
        ensures
            final(self).wf(),
            final(self).split_override() == dir,
            final(self).same_tree(*old(self)),
            final(self).windows_spec() == old(self).windows_spec(),
            final(self).focused_spec() == old(self).focused_spec(),
            final(self).focus_index() == old(self).focus_index(),
    {
        self.next_split_override = dir;
    }

    /// What every caller may rely on of a well-formed tree.
    pub proof fn lemma_view(self)
        requires
            self.wf(),
        ensures
            self.windows_spec().len() <= usize::MAX,
            self.windows_spec().len() == 0 <==> self.focused_spec() is None,
            self.focused_spec() is Some ==> {
                &&& 0 <= self.focus_index() < self.windows_spec().len()
                &&& self.windows_spec()[self.focus_index()] == self.focused_spec().unwrap()
            },
            self.same_tree(self),
    {
        if let Some(n) = self.root {
            n.lemma_leaves_nonempty();
            n.lemma_path(self.focus_path@);
        }
    }

    pub fn new() -> (t: Tree)
        ensures
            t.wf(),
            t.windows_spec() == Seq::<u32>::empty(),
            t.focused_spec() is None,
            t.split_override() is None,
    {
        Tree { root: None, focus_path: Vec::new(), next_split_override: None }
    }

    pub fn is_empty(&self) -> (r: bool)
        requires
            self.wf(),
        ensures
            r == (self.windows_spec().len() == 0),
    {
        proof {
            self.lemma_view();
        }
        self.root.is_none()
    }

    /// All windows in depth-first (visual) order.
    pub fn windows(&self) -> (r: Vec<u32>)
        ensures
            r@ == self.windows_spec(),
    {
        let mut out = Vec::new();
        if let Some(root) = &self.root {
            root.collect_windows(&mut out);
            proof {
                assert(Seq::<u32>::empty() + root.leaves() =~= root.leaves());
            }
        }
        out
    }

    pub fn contains(&self, window: u32) -> (r: bool)
        ensures
            r == self.windows_spec().contains(window),
    {
        let ws = self.windows();
        let mut i: usize = 0;
        while i < ws.len()
            invariant
                i <= ws.len(),
                ws@ == self.windows_spec(),
                forall|j: int| 0 <= j < i ==> ws@[j] != window,
            decreases ws.len() - i,
        {
            if ws[i] == window {
                return true;
            }
            i += 1;
        }
        false
    }

    /// The focused window, if the tree holds any.
    pub fn focused(&self) -> (r: Option<u32>)
        requires
            self.wf(),
        ensures
            r == self.focused_spec(),
    {
        match &self.root {
            Some(n) => {
                proof {
                    assert(self.focus_path@.skip(0) =~= self.focus_path@);
                }
                Some(n.leaf_at_exec(&self.focus_path, 0))
            },
            None => None,
        }
    }

    /// Insert a window. It always becomes the focused leaf.
    pub fn insert(&mut self, window: u32)
        requires
            old(self).wf(),
            old(self).windows_spec().len() < usize::MAX,
        ensures
            final(self).wf(),
            final(self).windows_spec() == if old(self).windows_spec().len() == 0 {
                seq![window]
            } else {
                old(self).windows_spec().insert(old(self).focus_index() + 1, window)
            },
            final(self).focused_spec() == Some(window),
            final(self).focus_index() == if old(self).windows_spec().len() == 0 {
                0
            } else {
                old(self).focus_index() + 1
            },
            old(self).windows_spec().len() == 0 ==> final(self).split_override()
                == old(self).split_override(),
            old(self).windows_spec().len() > 0 ==> {
                &&& final(self).split_override() is None
                &&& final(self).parent_direction_spec() == Some(old(self).insert_direction())
            },
    {
        proof {
            old(self).lemma_view();
        }
        if self.root.is_none() {
            self.root = Some(Node::Leaf(window));
            self.focus_path.clear();
            proof {
                assert(self.focus_path@ =~= Seq::<usize>::empty());
            }
            return;
        }
        // Direction to split the focused leaf with: the explicit override
        // (consumed), else perpendicular to the focused leaf's parent, else
        // horizontal for a single-window root.
        let dir = match self.next_split_override.take() {
            Some(d) => d,
            None => match self.parent_direction() {
                Some(p) => p.perpendicular(),
                None => Direction::Horizontal,
            },
        };
        let root = self.root.take().unwrap();
        proof {
            assert(self.focus_path@.skip(0) =~= self.focus_path@);
            root.lemma_insert_at(self.focus_path@, window, dir);
            root.lemma_path(self.focus_path@);
        }
        let new_root = insert_at(root, &self.focus_path, 0, window, dir);
        self.root = Some(new_root);
        self.focus_path.push(1);
    }


    /// Remove every leaf holding `window`. A split left with one child
    /// collapses into it so the tree stays tight; focus moves to the first leaf.
    pub fn remove(&mut self, window: u32)
        requires
            old(self).wf(),
        ensures
            final(self).wf(),
            final(self).windows_spec() == without(old(self).windows_spec(), window),
            final(self).split_override() == old(self).split_override(),
            old(self).windows_spec().contains(window) ==> final(self).focus_index() == 0,
            !old(self).windows_spec().contains(window) ==> {
                &&& final(self).same_tree(*old(self))
                &&& final(self).focus_index() == old(self).focus_index()
                &&& final(self).focused_spec() == old(self).focused_spec()
            },
    {
        let root = match self.root.take() {
            Some(r) => r,
            None => {
                proof {
                    reveal_with_fuel(Seq::filter, 1);
                    assert(without(Seq::<u32>::empty(), window) =~= Seq::<u32>::empty());
                }
                return;
            },
        };
        proof {
            root.lemma_remove(window);
        }
        let (root, removed) = remove_node(root, window);
        self.root = root;
        if removed {
            self.focus_path.clear();
            if let Some(r) = &self.root {
                proof {
                    r.lemma_leaves_nonempty();
                    r.lemma_path_of(0);
                }
                r.path_of_exec(0, &mut self.focus_path);
                proof {
                    assert(Seq::<usize>::empty() + r.path_of(0) =~= r.path_of(0));
                }
            }
        }
    }

    /// Focus the next leaf in depth-first (Tab) order, wrapping around.
    pub fn focus_next(&mut self)
        requires
            old(self).wf(),
        ensures
            final(self).wf(),
            final(self).same_tree(*old(self)),
            final(self).windows_spec() == old(self).windows_spec(),
            final(self).split_override() == old(self).split_override(),
            old(self).windows_spec().len() > 0 ==> final(self).focus_index() == (old(self).focus_index() + 1) % (old(self).windows_spec().len() as int),
            old(self).windows_spec().len() > 0 ==> final(self).focused_spec() == Some(
                final(self).windows_spec()[final(self).focus_index()],
            ),
    {
        self.focus_step(true);
    }

    /// Focus the previous leaf in depth-first order, wrapping around.
    pub fn focus_prev(&mut self)
        requires
            old(self).wf(),
        ensures
            final(self).wf(),
            final(self).same_tree(*old(self)),
            final(self).windows_spec() == old(self).windows_spec(),
            final(self).split_override() == old(self).split_override(),
            old(self).windows_spec().len() > 0 ==> final(self).focus_index() == (old(self).focus_index() + old(self).windows_spec().len() - 1) % (old(self).windows_spec().len() as int),
            old(self).windows_spec().len() > 0 ==> final(self).focused_spec() == Some(
                final(self).windows_spec()[final(self).focus_index()],
            ),
    {
        self.focus_step(false);
    }

    fn focus_step(&mut self, forward: bool)
        requires
            old(self).wf(),
        ensures
            final(self).wf(),
            final(self).same_tree(*old(self)),
            final(self).windows_spec() == old(self).windows_spec(),
            final(self).split_override() == old(self).split_override(),
            old(self).windows_spec().len() > 0 ==> final(self).focus_index() == if forward {
                (old(self).focus_index() + 1) % (old(self).windows_spec().len() as int)
            } else {
                (old(self).focus_index() + old(self).windows_spec().len() - 1) % (old(self).windows_spec().len() as int)
            },
            old(self).windows_spec().len() > 0 ==> final(self).focused_spec() == Some(
                final(self).windows_spec()[final(self).focus_index()],
            ),
    {
        let root = match &self.root {
            Some(r) => r,
            None => return,
        };
        proof {
            assert(self.focus_path@.skip(0) =~= self.focus_path@);
            root.lemma_leaves_nonempty();
            root.lemma_path(self.focus_path@);
        }
        let n = root.count();
        let idx = root.path_index_exec(&self.focus_path, 0);
        let next = if forward {
            if idx + 1 == n {
                0
            } else {
                idx + 1
            }
        } else {
            if idx == 0 {
                n - 1
            } else {
                idx - 1
            }
        };
        proof {
            let ni = n as int;
            let ii = idx as int;
            if forward {
                assert((ii + 1) % ni == next) by {
                    if ii + 1 == ni {
                        vstd::arithmetic::div_mod::lemma_mod_self_0(ni);
                    } else {
                        vstd::arithmetic::div_mod::lemma_small_mod((ii + 1) as nat, ni as nat);
                    }
                }
            } else {
                assert((ii + ni - 1) % ni == next) by {
                    if ii == 0 {
                        vstd::arithmetic::div_mod::lemma_small_mod((ni - 1) as nat, ni as nat);
                    } else {
                        vstd::arithmetic::div_mod::lemma_mod_add_multiples_vanish(ii - 1, ni);
                        vstd::arithmetic::div_mod::lemma_small_mod((ii - 1) as nat, ni as nat);
                    }
                }
            }
            root.lemma_path_of(next as int);
        }
        let mut path = Vec::new();
        root.path_of_exec(next, &mut path);
        proof {
            assert(Seq::<usize>::empty() + root.path_of(next as int) =~= root.path_of(next as int));
        }
        self.focus_path = path;
    }

    /// Drop every leaf whose window is not in `live` (its client closed). If the
    /// old focus path no longer names a leaf, focus moves to the first leaf.
    pub fn prune_dead(&mut self, live: &Vec<u32>)
        requires
            old(self).wf(),
        ensures
            final(self).wf(),
            final(self).windows_spec() == keep_live(old(self).windows_spec(), live@),
            final(self).split_override() == old(self).split_override(),
            (forall|i: int|
                0 <= i < old(self).windows_spec().len() ==> live@.contains(
                    #[trigger] old(self).windows_spec()[i],
                )) ==> {
                &&& final(self).same_tree(*old(self))
                &&& final(self).focus_index() == old(self).focus_index()
                &&& final(self).focused_spec() == old(self).focused_spec()
            },
    {
        let root = match self.root.take() {
            Some(r) => r,
            None => {
                proof {
                    reveal_with_fuel(Seq::filter, 1);
                    assert(keep_live(Seq::<u32>::empty(), live@) =~= Seq::<u32>::empty());
                }
                return;
            },
        };
        proof {
            root.lemma_prune(live@);
            assert(old(self).windows_spec() == root.leaves());
            if forall|i: int|
                0 <= i < old(self).windows_spec().len() ==> live@.contains(
                    #[trigger] old(self).windows_spec()[i],
                ) {
                assert(forall|i: int|
                    0 <= i < root.leaves().len() ==> live@.contains(#[trigger] root.leaves()[i]));
                assert(root.prune_spec(live@) == Some(root));
            }
        }
        self.root = prune_dead_node(root, live);
        match &self.root {
            Some(r) => {
                proof {
                    assert(self.focus_path@.skip(0) =~= self.focus_path@);
                }
                if !r.path_valid_exec(&self.focus_path, 0) {
                    proof {
                        r.lemma_leaves_nonempty();
                        r.lemma_path_of(0);
                    }
                    let mut path = Vec::new();
                    r.path_of_exec(0, &mut path);
                    proof {
                        assert(Seq::<usize>::empty() + r.path_of(0) =~= r.path_of(0));
                    }
                    self.focus_path = path;
                }
            },
            None => {
                self.focus_path.clear();
            },
        }
    }

    /// Point focus at the first leaf holding `window`. False if it is absent.
    pub fn focus_window(&mut self, window: u32) -> (r: bool)
        requires
            old(self).wf(),
        ensures
            final(self).wf(),
            final(self).same_tree(*old(self)),
            final(self).windows_spec() == old(self).windows_spec(),
            final(self).split_override() == old(self).split_override(),
            r == old(self).windows_spec().contains(window),
            r ==> {
                &&& final(self).focused_spec() == Some(window)
                &&& 0 <= final(self).focus_index() < old(self).windows_spec().len()
                &&& old(self).windows_spec()[final(self).focus_index()] == window
                &&& forall|j: int|
                    0 <= j < final(self).focus_index() ==> old(self).windows_spec()[j] != window
            },
            !r ==> final(self).focus_index() == old(self).focus_index() && final(self).focused_spec()
                == old(self).focused_spec(),
    {
        let ws = self.windows();
        let found = first_index(&ws, window);
        match found {
            None => false,
            Some(i) => {
                let root = self.root.take().unwrap();
                proof {
                    root.lemma_path_of(i as int);
                }
                let mut path = Vec::new();
                root.path_of_exec(i, &mut path);
                proof {
                    assert(Seq::<usize>::empty() + root.path_of(i as int) =~= root.path_of(
                        i as int,
                    ));
                }
                self.root = Some(root);
                self.focus_path = path;
                true
            },
        }
    }

    /// Put window `b` in the leaf of window `a` (the tile keeps its place and
    /// size; only the occupant changes).
    pub fn replace_window(&mut self, a: u32, b: u32)
        requires
            old(self).wf(),
        ensures
            final(self).wf(),
            final(self).windows_spec() == replace_ids(old(self).windows_spec(), a, b),
            final(self).focus_index() == old(self).focus_index(),
            final(self).split_override() == old(self).split_override(),
    {
        let root = match self.root.take() {
            Some(r) => r,
            None => {
                proof {
                    assert(replace_ids(Seq::<u32>::empty(), a, b) =~= Seq::<u32>::empty());
                }
                return;
            },
        };
        proof {
            root.lemma_replace(a, b, self.focus_path@);
        }
        self.root = Some(replace_in_node(root, a, b));
    }

    /// Swap the tree positions of two windows (geometry stays a clean tiling;
    /// only the occupants move).
    pub fn swap_windows(&mut self, a: u32, b: u32)
        requires
            old(self).wf(),
        ensures
            final(self).wf(),
            final(self).windows_spec() == swap_ids(old(self).windows_spec(), a, b),
            final(self).focus_index() == old(self).focus_index(),
            final(self).split_override() == old(self).split_override(),
    {
        let root = match self.root.take() {
            Some(r) => r,
            None => {
                proof {
                    assert(swap_ids(Seq::<u32>::empty(), a, b) =~= Seq::<u32>::empty());
                }
                return;
            },
        };
        proof {
            root.lemma_swap(a, b, self.focus_path@);
        }
        self.root = Some(swap_in_node(root, a, b));
    }


    /// `(direction, first-child ratio, branch)` of each split on the way from
    /// the root to the focused leaf.
    pub closed spec fn focus_splits(self) -> Seq<(Direction, u32, usize)> {
        match self.root {
            Some(n) => n.path_splits(self.focus_path@),
            None => Seq::empty(),
        }
    }

    /// The tree after `resize_focused(axis, delta)`.
    pub closed spec fn resized_spec(self, axis: Direction, delta: int) -> Tree {
        let k = last_axis_index(self.focus_splits(), axis);
        match self.root {
            Some(n) => if k >= 0 {
                Tree {
                    root: Some(n.resize_at_spec(self.focus_path@, k, delta)),
                    focus_path: self.focus_path,
                    next_split_override: self.next_split_override,
                }
            } else {
                self
            },
            None => self,
        }
    }

    /// Resizing moves the shared edge of the deepest split along `axis` on
    /// the focus path, whichever child is focused: the first child's share
    /// (a ratio of `RATIO_ONE`, kept between `RATIO_MIN` and
    /// `RATIO_ONE - RATIO_MIN`) becomes its old share plus `delta`, held to
    /// those limits. So a non-zero resize of a split with room to give
    /// changes it.
    pub proof fn law_resize_moves_edge(self, axis: Direction, delta: int)
        requires
            self.wf(),
        ensures
            ({
                let s = self.focus_splits();
                let k = last_axis_index(s, axis);
                k >= 0 ==> {
                    let want = s[k].1 + delta;
                    &&& RATIO_MIN <= s[k].1 <= RATIO_ONE - RATIO_MIN
                    &&& adjusted_ratio(s[k].1 as int, s[k].2, delta) == if want < RATIO_MIN {
                        RATIO_MIN as int
                    } else if want > RATIO_ONE - RATIO_MIN {
                        RATIO_ONE - RATIO_MIN
                    } else {
                        want
                    }
                }
            }),
    {
        if let Some(n) = self.root {
            lemma_splits_bounded(n, self.focus_path@);
            lemma_last_axis_index(n.path_splits(self.focus_path@), axis);
        }
    }

    /// Grow (+delta) or shrink (-delta) the focused window along `axis` by
    /// trading share with its sibling in the deepest split on the focus path
    /// that runs along `axis`. `delta` is in units of `RATIO_ONE`; neither
    /// child of that split ends below `RATIO_MIN`.
    pub fn resize_focused(&mut self, axis: Direction, delta: i32)
        requires
            old(self).wf(),
        ensures
            final(self).wf(),
            final(self).same_tree(old(self).resized_spec(axis, delta as int)),
            final(self).windows_spec() == old(self).windows_spec(),
            final(self).focus_index() == old(self).focus_index(),
            final(self).focused_spec() == old(self).focused_spec(),
            final(self).split_override() == old(self).split_override(),
            ({
                let s = old(self).focus_splits();
                let k = last_axis_index(s, axis);
                &&& k < 0 ==> final(self).same_tree(*old(self))
                &&& k >= 0 ==> final(self).focus_splits() == s.update(
                    k,
                    (axis, adjusted_ratio(s[k].1 as int, s[k].2, delta as int) as u32, s[k].2),
                )
            }),
            forall|j: int|
                0 <= j < final(self).focus_splits().len() ==> RATIO_MIN <= (
                #[trigger] final(self).focus_splits()[j]).1 <= RATIO_ONE - RATIO_MIN,
    {
        let root = match self.root.take() {
            Some(r) => r,
            None => return,
        };
        proof {
            assert(self.focus_path@.skip(0) =~= self.focus_path@);
            root.lemma_path_splits_len(self.focus_path@);
            lemma_last_axis_index(root.path_splits(self.focus_path@), axis);
            lemma_splits_bounded(root, self.focus_path@);
        }
        let k = root.last_axis_exec(&self.focus_path, 0, axis);
        let ghost li = last_axis_index(root.path_splits(self.focus_path@), axis);
        proof {
            assert(li < 0 ==> k is None);
            assert(li >= 0 ==> k == Some(li as usize));
            assert(li < self.focus_path@.len());
            assert(self.focus_path@.len() == self.focus_path.len());
            assert(li <= usize::MAX);
        }
        match k {
            None => {
                self.root = Some(root);
            },
            Some(k) => {
                proof {
                    assert(li >= 0);
                    assert(k as int == li);
                    root.lemma_resize_at(self.focus_path@, k as int, delta as int);
                    lemma_splits_bounded(
                        root.resize_at_spec(self.focus_path@, k as int, delta as int),
                        self.focus_path@,
                    );
                }
                let r = resize_at(root, &self.focus_path, 0, k, delta);
                proof {
                    assert(old(self).focus_splits() == root.path_splits(self.focus_path@));
                }
                self.root = Some(r);
            },
        }
    }


    /// Each tiled window with its rectangle inside `vp` under the split tree.
    pub closed spec fn tiling_spec(self, vp: Rect) -> Seq<(u32, Rect)> {
        match self.root {
            Some(n) => n.layout_spec(vp),
            None => Seq::empty(),
        }
    }

    /// Compute the window -> rectangle mapping of the split tree.
    pub fn layout(&self, viewport: Rect) -> (r: Vec<(u32, Rect)>)
        requires
            self.wf(),
            viewport.wf(),
        ensures
            r@ == self.tiling_spec(viewport),
    {
        let mut out = Vec::new();
        if let Some(root) = &self.root {
            root.layout_node(viewport, &mut out);
            proof {
                assert(Seq::<(u32, Rect)>::empty() + root.layout_spec(viewport) =~= root.layout_spec(
                    viewport,
                ));
            }
        }
        out
    }

    /// Where `placements(vp, mode)` puts the tree's windows.
    pub open spec fn placement_spec(self, vp: Rect, mode: LayoutMode) -> Seq<(u32, Rect)> {
        match mode {
            LayoutMode::Tiling => self.tiling_spec(vp),
            LayoutMode::Monocle => self.windows_spec().map_values(|w: u32| (w, vp)),
            LayoutMode::Master => master_spec(self.windows_spec(), vp),
            LayoutMode::Dwindle => halving_spec(self.windows_spec(), vp, vp.w >= vp.h, false, false),
            LayoutMode::Spiral => halving_spec(self.windows_spec(), vp, vp.w >= vp.h, false, true),
        }
    }

    /// Place the tree's windows for the given layout mode. Tiling follows the
    /// split tree; the other modes reuse the tree's window set and order.
    pub fn placements(&self, vp: Rect, mode: LayoutMode) -> (r: Vec<(u32, Rect)>)
        requires
            self.wf(),
            vp.wf(),
            self.windows_spec().len() <= i32::MAX,
        ensures
            r@.len() == self.windows_spec().len(),
            forall|i: int|
                0 <= i < r@.len() ==> {
                    &&& (#[trigger] r@[i]).0 == self.windows_spec()[i]
                    &&& r@[i].1.wf()
                    &&& vp.encloses(r@[i].1)
                },
            r@ == self.placement_spec(vp, mode),
            mode == LayoutMode::Tiling ==> r@ == self.tiling_spec(vp),
            mode == LayoutMode::Monocle ==> forall|i: int| 0 <= i < r@.len() ==> (#[trigger] r@[i]).1 == vp,
            mode == LayoutMode::Master ==> r@ == master_spec(self.windows_spec(), vp),
            mode == LayoutMode::Dwindle ==> r@ == halving_spec(
                self.windows_spec(),
                vp,
                vp.w >= vp.h,
                false,
                false,
            ),
            mode == LayoutMode::Spiral ==> r@ == halving_spec(
                self.windows_spec(),
                vp,
                vp.w >= vp.h,
                false,
                true,
            ),
    {
        let ws = self.windows();
        proof {
            self.lemma_tiling(vp);
            lemma_halving(ws@, vp, vp.w >= vp.h, false, false);
            lemma_halving(ws@, vp, vp.w >= vp.h, false, true);
            assert forall|i: int| 0 <= i < ws@.len() implies master_spec(ws@, vp)[i].1.wf() && vp.encloses(
                #[trigger] master_spec(ws@, vp)[i].1,
            ) by {
                lemma_master_rect(ws@.len() as int, i, vp);
            }
        }
        match mode {
            LayoutMode::Tiling => self.layout(vp),
            LayoutMode::Monocle => {
                let mut out: Vec<(u32, Rect)> = Vec::new();
                let mut i: usize = 0;
                while i < ws.len()
                    invariant
                        i <= ws.len(),
                        vp.wf(),
                        out@.len() == i,
                        forall|j: int| 0 <= j < i ==> out@[j] == (ws@[j], vp),
                    decreases ws.len() - i,
                {
                    out.push((ws[i], vp));
                    i += 1;
                }
                proof {
                    lemma_encloses_refl_local(vp);
                    assert(out@ =~= ws@.map_values(|w: u32| (w, vp)));
                }
                out
            },
            LayoutMode::Master => master_stack(&ws, vp),
            LayoutMode::Dwindle => halving_layout(&ws, vp, false),
            LayoutMode::Spiral => halving_layout(&ws, vp, true),
        }
    }

    /// The split layout gives each tiled window, in order, a rectangle inside
    /// the viewport, and those rectangles' areas add up to the viewport's.
    pub proof fn lemma_tiling(self, vp: Rect)
        requires
            self.wf(),
            vp.wf(),
        ensures
            self.tiling_spec(vp).len() == self.windows_spec().len(),
            forall|i: int|
                0 <= i < self.tiling_spec(vp).len() ==> {
                    &&& (#[trigger] self.tiling_spec(vp)[i]).0 == self.windows_spec()[i]
                    &&& self.tiling_spec(vp)[i].1.wf()
                    &&& vp.encloses(self.tiling_spec(vp)[i].1)
                },
            self.windows_spec().len() > 0 ==> total_area(self.tiling_spec(vp)) == vp.area(),
    {
        if let Some(n) = self.root {
            n.lemma_layout(vp);
        }
    }

    /// Trees with the same splits lay out identically: moving focus or
    /// setting the next split never moves a tile.
    pub proof fn law_same_tree_same_layout(self, other: Tree, vp: Rect)
        requires
            self.same_tree(other),
        ensures
            self.tiling_spec(vp) == other.tiling_spec(vp),
            self.windows_spec() == other.windows_spec(),
    {
    }

    fn parent_direction(&self) -> (r: Option<Direction>)
        requires
            self.wf(),
        ensures
            r == self.parent_direction_spec(),
    {
        match &self.root {
            Some(n) => {
                proof {
                    assert(self.focus_path@.skip(0) =~= self.focus_path@);
                }
                n.parent_direction_exec(&self.focus_path, 0)
            },
            None => None,
        }
    }
}

impl Default for Tree {
    fn default() -> (t: Tree)
        ensures
            t.wf(),
            t.windows_spec() == Seq::<u32>::empty(),
            t.split_override() is None,
    {
        Tree::new()
    }
}

/// Swapping the same two windows twice puts every window back.
pub proof fn law_swap_involutive(s: Seq<u32>, a: u32, b: u32)
    ensures
        swap_ids(swap_ids(s, a, b), a, b) == s,
{
    assert(swap_ids(swap_ids(s, a, b), a, b) =~= s);
}

/// `focus_prev` undoes `focus_next` (and the other way round): stepping
/// forward then back through the leaves returns focus to the same window.
pub proof fn law_focus_prev_undoes_next(t0: Tree, t1: Tree, t2: Tree)
    requires
        t0.wf(),
        t1.wf(),
        t2.wf(),
        t0.windows_spec().len() > 0,
        t1.same_tree(t0),
        t2.same_tree(t1),
        t1.windows_spec() == t0.windows_spec(),
        t2.windows_spec() == t1.windows_spec(),
        t1.focus_index() == (t0.focus_index() + 1) % (t0.windows_spec().len() as int),
        t2.focus_index() == (t1.focus_index() + t1.windows_spec().len() - 1) % (
        t1.windows_spec().len() as int),
    ensures
        t2.focus_index() == t0.focus_index(),
        t2.focused_spec() == t0.focused_spec(),
{
    t0.lemma_view();
    t2.lemma_view();
    let n = t0.windows_spec().len() as int;
    let i = t0.focus_index();
    if i + 1 == n {
        vstd::arithmetic::div_mod::lemma_mod_self_0(n);
        vstd::arithmetic::div_mod::lemma_small_mod((n - 1) as nat, n as nat);
    } else {
        vstd::arithmetic::div_mod::lemma_small_mod((i + 1) as nat, n as nat);
        vstd::arithmetic::div_mod::lemma_mod_add_multiples_vanish(i, n);
        vstd::arithmetic::div_mod::lemma_small_mod(i as nat, n as nat);
    }
}

/// Cycling the layout mode five times comes back to where it started.
pub proof fn law_layout_cycle(m: LayoutMode)
    ensures
        m.next_spec().next_spec().next_spec().next_spec().next_spec() == m,
        m.next_spec() != m,
{
}

/// `perpendicular` is an involution.
pub proof fn law_perpendicular_involutive(d: Direction)
    ensures
        d.perpendicular_spec().perpendicular_spec() == d,
{
}

/// Removing a window that was just inserted (and was not there before)
/// gives back the window order from before the insert.
pub proof fn law_remove_undoes_insert(s: Seq<u32>, k: int, w: u32)
    requires
        0 <= k <= s.len(),
        !s.contains(w),
    ensures
        without(s.insert(k, w), w) == s,
    decreases s.len(),
{
    reveal_with_fuel(Seq::filter, 1);
    let t = s.insert(k, w);
    s.insert_ensures(k, w);
    if k == s.len() {
        assert(t.drop_last() =~= s);
        assert(t.last() == w);
        lemma_without_absent(s, w);
    } else {
        let p = s.drop_last();
        assert(!p.contains(w)) by {
            if p.contains(w) {
                let j = choose|j: int| 0 <= j < p.len() && p[j] == w;
                assert(s[j] == w);
            }
        }
        law_remove_undoes_insert(p, k, w);
        assert(t.drop_last() =~= p.insert(k, w));
        assert(t.last() == s.last());
        assert(s[s.len() - 1] == s.last());
        assert(p.push(s.last()) =~= s);
    }
}

proof fn lemma_without_absent(s: Seq<u32>, w: u32)
    requires
        !s.contains(w),
    ensures
        without(s, w) == s,
    decreases s.len(),
{
    reveal_with_fuel(Seq::filter, 1);
    if s.len() > 0 {
        let p = s.drop_last();
        assert(!p.contains(w)) by {
            if p.contains(w) {
                let j = choose|j: int| 0 <= j < p.len() && p[j] == w;
                assert(s[j] == w);
            }
        }
        lemma_without_absent(p, w);
        assert(s[s.len() - 1] == s.last());
        assert(p.push(s.last()) =~= s);
    } else {
        assert(without(s, w) =~= s);
    }
}

/// Handing a tile back: replacing `a` by `b` and then `b` by `a` restores
/// the window order when `b` was not there before.
pub proof fn law_replace_back(s: Seq<u32>, a: u32, b: u32)
    requires
        !s.contains(b),
    ensures
        replace_ids(replace_ids(s, a, b), b, a) == s,
{
    assert forall|i: int| 0 <= i < s.len() implies replace_ids(replace_ids(s, a, b), b, a)[i] == s[i] by {
        assert(s[i] != b);
    }
    assert(replace_ids(replace_ids(s, a, b), b, a) =~= s);
}

} // verus!
