//! Colourings of the nodes of a graph, and the two ways to split a cell.

use vstd::prelude::*;
pub use crate::kdim::Kdim;
use crate::graph::{graph_order, node_count, UnGraph};
use crate::partition::{
    first_large_from, lemma_first_large, lemma_retain_contains, lemma_split_wf, lemma_target,
    lemma_uniform_wf, retain, CellView, ColouringView,
};

verus! {

/// A set of nodes that share a colour. The members are kept in ascending
/// order.
#[derive(Debug)]
struct Cell {
    color: usize,
    members: Vec<usize>,
}

/// A colouring: a partition of the nodes `0 .. size` into coloured cells.
///
/// Two nodes have the same colour as long as nothing told them apart. At the
/// start all nodes share one colour.
///
/// * `cells[k]` is the k-th cell; cells are only ever added at the end;
/// * `color_cell[c]` is the index of the cell of colour `c`, for every colour
///   in use;
/// * `node_cell[n]` is the index of the cell of node `n`;
/// * `node_color[n]` is the colour of node `n`.
#[derive(Debug)]
pub struct Colouring {
    size: usize,
    cells: Vec<Cell>,
    color_cell: Vec<usize>,
    node_cell: Vec<usize>,
    node_color: Vec<usize>,
}

impl View for Colouring {
    type V = ColouringView;

    closed spec fn view(&self) -> ColouringView {
        ColouringView {
            size: self.size as nat,
            cells: Seq::new(
                self.cells.len() as nat,
                |k: int| CellView { color: self.cells[k].color, members: self.cells[k].members@ },
            ),
            color_of_cell: Map::new(
                |c: usize|
                    c < self.color_cell.len() && self.color_cell[c as int] < self.cells.len()
                        && self.cells[self.color_cell[c as int] as int].color == c,
                |c: usize| self.color_cell[c as int],
            ),
            cell_of_node: self.node_cell@,
            color_of_node: self.node_color@,
        }
    }
}

/// A copy of `v`.
pub(crate) fn copy_nodes(v: &Vec<usize>) -> (r: Vec<usize>)
    ensures
        r@ == v@,
{
    let mut r: Vec<usize> = Vec::new();
    let mut i: usize = 0;
    while i < v.len()
        invariant
            i <= v.len(),
            r@ == v@.take(i as int),
        decreases v.len() - i,
    {
        r.push(v[i]);
        proof {
            assert(v@.take(i + 1) =~= v@.take(i as int).push(v@[i as int]));
        }
        i += 1;
    }
    proof {
        assert(v@.take(v.len() as int) =~= v@);
    }
    r
}

/// `n` copies of `value`.
pub(crate) fn filled(n: usize, value: usize) -> (r: Vec<usize>)
    ensures
        r@ == Seq::new(n as nat, |i: int| value),
{
    let mut r: Vec<usize> = Vec::new();
    let mut i: usize = 0;
    while i < n
        invariant
            i <= n,
            r@ == Seq::new(i as nat, |j: int| value),
        decreases n - i,
    {
        r.push(value);
        proof {
            assert(r@ =~= Seq::new((i + 1) as nat, |j: int| value));
        }
        i += 1;
    }
    r
}

impl Clone for Colouring {
    /// A deep copy: the new colouring owns cells of its own.
    fn clone(&self) -> (c: Colouring)
        ensures
            c@ == self@,
            self.wf() ==> c.wf(),
    {
        let mut cells: Vec<Cell> = Vec::new();
        let mut k: usize = 0;
        while k < self.cells.len()
            invariant
                k <= self.cells.len(),
                cells.len() == k,
                forall|j: int|
                    0 <= j < k ==> (#[trigger] cells[j]).color == self.cells[j].color
                        && cells[j].members@ == self.cells[j].members@,
            decreases self.cells.len() - k,
        {
            let members = copy_nodes(&self.cells[k].members);
            cells.push(Cell { color: self.cells[k].color, members });
            k += 1;
        }
        let c = Colouring {
            size: self.size,
            cells,
            color_cell: copy_nodes(&self.color_cell),
            node_cell: copy_nodes(&self.node_cell),
            node_color: copy_nodes(&self.node_color),
        };
        proof {
            assert(c@.cells =~= self@.cells);
            assert(c@.color_of_cell =~= self@.color_of_cell);
        }
        c
    }
}

impl Colouring {
    /// The colour table has an entry for every colour below `size`.
    pub closed spec fn table_ok(&self) -> bool {
        self.color_cell.len() == self.size
    }

    /// Whether this colouring is valid: its model is, and the colour table
    /// is as long as it has to be.
    pub open spec fn wf(&self) -> bool {
        self.table_ok() && self@.wf()
    }

    /// The colouring of the nodes of `g` that gives them all one colour.
    pub fn new(g: &UnGraph) -> (c: Colouring)
        ensures
            c.wf(),
            c@ == ColouringView::uniform(graph_order(*g)),
    {
        let size = node_count(g);
        let mut cells: Vec<Cell> = Vec::new();
        if size > 0 {
            let mut members: Vec<usize> = Vec::new();
            let mut i: usize = 0;
            while i < size
                invariant
                    i <= size,
                    members@ == Seq::new(i as nat, |j: int| j as usize),
                decreases size - i,
            {
                members.push(i);
                proof {
                    assert(members@ =~= Seq::new((i + 1) as nat, |j: int| j as usize));
                }
                i += 1;
            }
            cells.push(Cell { color: 0, members });
        }
        let c = Colouring {
            size,
            cells,
            color_cell: filled(size, 0),
            node_cell: filled(size, 0),
            node_color: filled(size, 0),
        };
        proof {
            let u = ColouringView::uniform(size as nat);
            assert(c@.cells =~= u.cells);
            assert(c@.color_of_cell =~= u.color_of_cell);
            lemma_uniform_wf(size as nat);
        }
        c
    }

    /// Whether every colour belongs to a single node.
    pub fn is_discrete(&self) -> (b: bool)
        ensures
            b == self@.is_discrete(),
    {
        self.cells.len() == self.size
    }

    /// The number of cells.
    pub fn get_cell_count(&self) -> (n: usize)
        ensures
            n == self@.cells.len(),
    {
        self.cells.len()
    }

    /// The number of nodes.
    pub fn get_size(&self) -> (n: usize)
        ensures
            n == self@.size,
    {
        self.size
    }

    /// The members of cell `idx`, in ascending order.
    pub fn get_cell_members(&self, idx: usize) -> (members: Vec<usize>)
        requires
            idx < self@.cells.len(),
        ensures
            members@ == self@.cells[idx as int].members,
    {
        copy_nodes(&self.cells[idx].members)
    }

    /// The members of cell `idx`, in ascending order, without a copy.
    pub fn cell_members(&self, idx: usize) -> (members: &Vec<usize>)
        requires
            idx < self@.cells.len(),
        ensures
            members@ == self@.cells[idx as int].members,
    {
        &self.cells[idx].members
    }

    /// The colour of cell `idx`.
    pub fn get_cell_color(&self, idx: usize) -> (color: usize)
        requires
            idx < self@.cells.len(),
        ensures
            color == self@.cells[idx as int].color,
    {
        self.cells[idx].color
    }

    /// The colour of `node`.
    pub fn get_node_color(&self, node: usize) -> (color: usize)
        requires
            node < self@.color_of_node.len(),
        ensures
            color == self@.color_of_node[node as int],
    {
        self.node_color[node]
    }

    /// The index of the cell of colour `color`, if the colour is in use.
    pub fn get_color_cell(&self, color: usize) -> (cell: Option<usize>)
        ensures
            cell == if self@.color_of_cell.dom().contains(color) {
                Some(self@.color_of_cell[color])
            } else {
                None
            },
    {
        if color < self.color_cell.len() {
            let k = self.color_cell[color];
            if k < self.cells.len() && self.cells[k].color == color {
                return Some(k);
            }
        }
        None
    }

    /// Moves `node` out of cell `cell_idx` into a new cell of its own at the
    /// end. The new cell takes over the colour of the old one, whose other
    /// members move up by one colour. Returns that next colour.
    pub fn individualize(&mut self, cell_idx: usize, node: usize) -> (new_color: usize)
        requires
            old(self).wf(),
            cell_idx < old(self)@.cells.len(),
            old(self)@.cells[cell_idx as int].members.len() > 1,
            old(self)@.cells[cell_idx as int].members.contains(node),
        ensures
            final(self).wf(),
            final(self)@ == old(self)@.split(cell_idx as int, seq![node]),
            final(self)@.cells.len() == old(self)@.cells.len() + 1,
            new_color == old(self)@.cells[cell_idx as int].color + 1,
            new_color == final(self)@.cells[cell_idx as int].color,
            final(self)@.cells[cell_idx as int].members == old(
                self,
            )@.cells[cell_idx as int].members.remove(
                old(self)@.cells[cell_idx as int].members.index_of(node),
            ),
            final(self)@.cells.last() == (CellView {
                color: old(self)@.cells[cell_idx as int].color,
                members: seq![node],
            }),
    {
        let mut only: Vec<usize> = Vec::new();
        only.push(node);
        proof {
            let p = self@;
            let ms = p.cells[cell_idx as int].members;
            assert(only@ =~= seq![node]);
            assert(ms[0] < ms[1]);
            if ms[0] == node {
                assert(!only@.contains(ms[1]));
            } else {
                assert(!only@.contains(ms[0]));
            }
            lemma_retain_single(ms, node);
        }
        self.split_cell(cell_idx, only)
    }

    /// Splits the nodes in `new_members` off cell `cell_idx` into a new cell
    /// at the end. The new cell takes over the colour of the old one, and
    /// the old one moves up by the size of the new cell. Returns the colour
    /// that the old cell has now.
    pub fn split_cell(&mut self, cell_idx: usize, new_members: Vec<usize>) -> (new_color: usize)
        requires
            old(self).wf(),
            old(self)@.can_split(cell_idx as int, new_members@),
        ensures
            final(self).wf(),
            final(self)@ == old(self)@.split(cell_idx as int, new_members@),
            final(self)@.cells.len() == old(self)@.cells.len() + 1,
            new_color == final(self)@.cells[cell_idx as int].color,
    {
        let ghost p = self@;
        let ghost sub = new_members@;
        let ghost ms = p.cells[cell_idx as int].members;
        let ghost before = *self;
        proof {
            lemma_split_wf(p, cell_idx as int, sub);
            lemma_retain_contains(ms, sub, true);
            lemma_retain_contains(ms, sub, false);
        }
        let fresh = self.cells.len();
        let low = self.cells[cell_idx].color;

        // The nodes that leave learn their new cell first.
        let mut i: usize = 0;
        while i < new_members.len()
            invariant
                i <= new_members.len(),
                sub == new_members@,
                p.wf(),
                p.can_split(cell_idx as int, sub),
                p == before@,
                self.size == before.size,
                self.cells == before.cells,
                self.color_cell == before.color_cell,
                self.node_color == before.node_color,
                self.node_cell.len() == self.size,
                forall|n: int|
                    0 <= n < self.size ==> #[trigger] self.node_cell[n] == if sub.take(
                        i as int,
                    ).contains(n as usize) {
                        fresh
                    } else {
                        before.node_cell[n]
                    },
            decreases new_members.len() - i,
        {
            let u = new_members[i];
            proof {
                assert(p.cells[cell_idx as int].members.contains(sub[i as int]));
                let b = choose|b: int|
                    0 <= b < p.cells[cell_idx as int].members.len() && p.cells[cell_idx as int].members[b]
                        == u;
                assert(p.cells[cell_idx as int].members[b] < p.size);
            }
            self.node_cell.set(u, fresh);
            proof {
                let shorter = sub.take(i as int);
                let longer = sub.take(i + 1);
                assert(longer =~= shorter.push(u));
                assert forall|n: int| 0 <= n < self.size implies #[trigger] self.node_cell[n]
                    == if longer.contains(n as usize) {
                    fresh
                } else {
                    before.node_cell[n]
                } by {
                    if n == u {
                        assert(longer[i as int] == u);
                    } else if shorter.contains(n as usize) {
                        let a = choose|a: int| 0 <= a < shorter.len() && shorter[a] == n as usize;
                        assert(longer[a] == n as usize);
                    } else if longer.contains(n as usize) {
                        let a = choose|a: int| 0 <= a < longer.len() && longer[a] == n as usize;
                        assert(shorter[a] == n as usize);
                    }
                }
            }
            i += 1;
        }
        proof {
            assert(sub.take(new_members.len() as int) =~= sub);
        }

        // The members of the old cell part into those that leave and those
        // that stay, each list in the order it had.
        let mut kept: Vec<usize> = Vec::new();
        let mut moved: Vec<usize> = Vec::new();
        let count = self.cells[cell_idx].members.len();
        let mut j: usize = 0;
        while j < count
            invariant
                j <= count,
                count == ms.len(),
                cell_idx < self.cells.len(),
                self.cells == before.cells,
                ms == before.cells[cell_idx as int].members@,
                p == before@,
                p.wf(),
                self.node_cell.len() == self.size,
                self.size == before.size,
                fresh == before.cells.len(),
                forall|n: int|
                    0 <= n < self.size ==> #[trigger] self.node_cell[n] == if sub.contains(
                        n as usize,
                    ) {
                        fresh
                    } else {
                        before.node_cell[n]
                    },
                kept@ == retain(ms.take(j as int), sub, false),
                moved@ == retain(ms.take(j as int), sub, true),
            decreases count - j,
        {
            let u = self.cells[cell_idx].members[j];
            proof {
                assert(p.cells[cell_idx as int].members[j as int] < p.size);
                assert(p.cell_of_node[p.cells[cell_idx as int].members[j as int] as int]
                    == cell_idx);
                assert(ms.take(j + 1).drop_last() =~= ms.take(j as int));
                assert(ms.take(j + 1).last() == u);
            }
            if self.node_cell[u] == fresh {
                moved.push(u);
            } else {
                kept.push(u);
            }
            j += 1;
        }
        proof {
            assert(ms.take(count as int) =~= ms);
        }
        let high = low + moved.len();

        // Those that stay take the next colour.
        let mut t: usize = 0;
        while t < kept.len()
            invariant
                t <= kept.len(),
                kept@ == retain(ms, sub, false),
                forall|v: usize| #[trigger]
                    kept@.contains(v) <==> ms.contains(v) && !sub.contains(v),
                ms == p.cells[cell_idx as int].members,
                cell_idx < p.cells.len(),
                p.wf(),
                self.size == before.size,
                p.size == self.size,
                self.cells == before.cells,
                self.color_cell == before.color_cell,
                self.node_color.len() == self.size,
                self.node_cell.len() == self.size,
                forall|n: int|
                    0 <= n < self.size ==> #[trigger] self.node_cell[n] == if sub.contains(
                        n as usize,
                    ) {
                        fresh
                    } else {
                        before.node_cell[n]
                    },
                forall|n: int|
                    0 <= n < self.size ==> #[trigger] self.node_color[n] == if kept@.take(
                        t as int,
                    ).contains(n as usize) {
                        high
                    } else {
                        before.node_color[n]
                    },
            decreases kept.len() - t,
        {
            let u = kept[t];
            proof {
                assert(kept@.contains(kept@[t as int]));
                let b = choose|b: int| 0 <= b < ms.len() && ms[b] == u;
                assert(p.cells[cell_idx as int].members[b] < p.size);
            }
            self.node_color.set(u, high);
            proof {
                let shorter = kept@.take(t as int);
                let longer = kept@.take(t + 1);
                assert(longer =~= shorter.push(u));
                assert forall|n: int| 0 <= n < self.size implies #[trigger] self.node_color[n]
                    == if longer.contains(n as usize) {
                    high
                } else {
                    before.node_color[n]
                } by {
                    if n == u {
                        assert(longer[t as int] == u);
                    } else if shorter.contains(n as usize) {
                        let a = choose|a: int| 0 <= a < shorter.len() && shorter[a] == n as usize;
                        assert(longer[a] == n as usize);
                    } else if longer.contains(n as usize) {
                        let a = choose|a: int| 0 <= a < longer.len() && longer[a] == n as usize;
                        assert(shorter[a] == n as usize);
                    }
                }
            }
            t += 1;
        }
        proof {
            assert(kept@.take(kept.len() as int) =~= kept@);
        }

        self.cells.set(cell_idx, Cell { color: high, members: kept });
        self.cells.push(Cell { color: low, members: moved });
        self.color_cell.set(high, cell_idx);
        self.color_cell.set(low, fresh);

        proof {
            let q = p.split(cell_idx as int, sub);
            let r = self@;
            assert(r.cells =~= q.cells);
            assert(r.cell_of_node =~= q.cell_of_node);
            assert(r.color_of_node =~= q.color_of_node) by {
                assert forall|n: int| 0 <= n < self.size implies r.color_of_node[n]
                    == q.color_of_node[n] by {
                    if p.cell_of_node[n] == cell_idx {
                        assert(p.cells[p.cell_of_node[n] as int].members.contains(n as usize));
                    }
                    if ms.contains(n as usize) {
                        let b = choose|b: int| 0 <= b < ms.len() && ms[b] == n as usize;
                        assert(p.cell_of_node[p.cells[cell_idx as int].members[b] as int]
                            == cell_idx);
                    }
                }
            }
            assert(r.color_of_cell =~= q.color_of_cell) by {
                assert forall|c: usize|
                    r.color_of_cell.dom().contains(c) == q.color_of_cell.dom().contains(
                        c,
                    ) && (r.color_of_cell.dom().contains(c) ==> r.color_of_cell[c]
                        == q.color_of_cell[c]) by {
                    if c != low && c != high && c < self.size {
                        let e = before.color_cell[c as int];
                        assert(self.color_cell[c as int] == e);
                        if e < fresh && e != cell_idx {
                            assert(r.cells[e as int] == p.cells[e as int]);
                        }
                        if e == cell_idx {
                            assert(r.cells[e as int].color == high);
                        }
                        if e == fresh {
                            assert(r.cells[e as int].color == low);
                        }
                    }
                }
            }
        }
        high
    }

    /// The first cell, in the order of the cells, that has more than one
    /// member.
    pub fn select_cell_v1(&self) -> (idx: usize)
        requires
            self.wf(),
            !self@.is_discrete(),
        ensures
            idx == self@.target(),
            idx < self@.cells.len(),
            self@.cells[idx as int].members.len() > 1,
            forall|j: int| 0 <= j < idx ==> (#[trigger] self@.cells[j]).members.len() == 1,
    {
        proof {
            lemma_target(self@);
        }
        let mut i: usize = 0;
        while self.cells[i].members.len() <= 1
            invariant
                i < self.cells.len(),
                self.wf(),
                self@.target() < self.cells.len(),
                first_large_from(self@.cells, i as int) == self@.target(),
            decreases self.cells.len() - i,
        {
            proof {
                assert(self@.cells[i as int].members.len() <= 1);
                lemma_first_large(self@.cells, i + 1);
            }
            i += 1;
        }
        i
    }
}

/// Picking the single node `node` out of an ascending list that holds it
/// gives that node alone, and leaves the list without it.
pub proof fn lemma_retain_single(ms: Seq<usize>, node: usize)
    requires
        crate::partition::ascending(ms),
        ms.contains(node),
    ensures
        retain(ms, seq![node], true) == seq![node],
        retain(ms, seq![node], false) == ms.remove(ms.index_of(node)),
{
    let i = ms.index_of(node);
    lemma_retain_around(ms, node, ms.len() as int);
    assert(ms.take(ms.len() as int) =~= ms);
    assert(ms.remove(i).take(ms.len() - 1) =~= ms.remove(i));
}

/// `retain` on a prefix of an ascending list, for a single node `node`.
proof fn lemma_retain_around(ms: Seq<usize>, node: usize, n: int)
    requires
        crate::partition::ascending(ms),
        ms.contains(node),
        0 <= n <= ms.len(),
    ensures
        ({
            let i = ms.index_of(node);
            let front = ms.take(n);
            &&& n <= i ==> retain(front, seq![node], true) == Seq::<usize>::empty() && retain(
                front,
                seq![node],
                false,
            ) == front
            &&& n > i ==> retain(front, seq![node], true) == seq![node] && retain(
                front,
                seq![node],
                false,
            ) == ms.remove(i).take(n - 1)
        }),
    decreases n,
{
    let sub = seq![node];
    let i = ms.index_of(node);
    let front = ms.take(n);
    if n > 0 {
        lemma_retain_around(ms, node, n - 1);
        assert(front.drop_last() =~= ms.take(n - 1));
        assert(front.last() == ms[n - 1]);
        assert(sub[0] == node);
        assert(sub.contains(node));
        if n - 1 == i {
            assert(ms.remove(i).take(n - 1) =~= ms.take(n - 1));
        } else {
            assert(ms[n - 1] != node) by {
                if n - 1 < i {
                    assert(ms[n - 1] < ms[i]);
                } else {
                    assert(ms[i] < ms[n - 1]);
                }
            }
            assert(!sub.contains(ms[n - 1]));
            if n - 1 < i {
                assert(retain(front, sub, false) =~= front);
            } else {
                assert(ms.remove(i).take(n - 1) =~= ms.remove(i).take(n - 2).push(ms[n - 1]));
            }
        }
    } else {
        assert(front =~= Seq::<usize>::empty());
    }
}

} // verus!
