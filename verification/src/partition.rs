//! The mathematical model of a colouring.
//!
//! A colouring of the nodes `0 .. size` is an ordered list of cells, each a
//! colour and an ascending list of members, together with three lookup maps
//! that repeat the same information by colour and by node. The functions here
//! say what a valid colouring is and what splitting a cell does to it; the
//! lemmas show that splitting keeps a colouring valid.

use vstd::prelude::*;

verus! {

/// A cell: the colour and the members, in ascending order.
pub struct CellView {
    pub color: usize,
    pub members: Seq<usize>,
}

/// A colouring of the nodes `0 .. size`.
pub struct ColouringView {
    pub size: nat,
    pub cells: Seq<CellView>,
    pub color_of_cell: Map<usize, usize>,
    pub cell_of_node: Seq<usize>,
    pub color_of_node: Seq<usize>,
}

/// Whether `s` is strictly increasing.
pub open spec fn ascending(s: Seq<usize>) -> bool {
    forall|i: int, j: int| 0 <= i < j < s.len() ==> s[i] < s[j]
}

/// The number of members of all `cells` together.
pub open spec fn total_members(cells: Seq<CellView>) -> nat
    decreases cells.len(),
{
    if cells.len() == 0 {
        0
    } else {
        total_members(cells.drop_last()) + cells.last().members.len()
    }
}

/// The entries of `ms` that occur in `sub` (for `wanted`) or that do not
/// (for `!wanted`), in the order they have in `ms`.
pub open spec fn retain(ms: Seq<usize>, sub: Seq<usize>, wanted: bool) -> Seq<usize>
    decreases ms.len(),
{
    if ms.len() == 0 {
        Seq::empty()
    } else if sub.contains(ms.last()) == wanted {
        retain(ms.drop_last(), sub, wanted).push(ms.last())
    } else {
        retain(ms.drop_last(), sub, wanted)
    }
}

/// The position of the first cell from `i` on that has more than one member,
/// or the number of cells if there is none.
pub open spec fn first_large_from(cells: Seq<CellView>, i: int) -> int
    decreases cells.len() - i,
{
    if i >= cells.len() {
        cells.len() as int
    } else if cells[i].members.len() > 1 {
        i
    } else {
        first_large_from(cells, i + 1)
    }
}

impl ColouringView {
    /// The colouring with all nodes in one cell of colour 0. On no nodes it
    /// has no cell at all, since a cell is never empty.
    pub open spec fn uniform(size: nat) -> ColouringView {
        ColouringView {
            size,
            cells: if size == 0 {
                Seq::empty()
            } else {
                seq![CellView { color: 0, members: Seq::new(size, |i: int| i as usize) }]
            },
            color_of_cell: if size == 0 {
                Map::empty()
            } else {
                Map::empty().insert(0usize, 0usize)
            },
            cell_of_node: Seq::new(size, |i: int| 0usize),
            color_of_node: Seq::new(size, |i: int| 0usize),
        }
    }

    /// Every node lies in the cell that `cell_of_node` names and in no other.
    pub open spec fn every_node_in_one_cell(self) -> bool {
        &&& self.cell_of_node.len() == self.size
        &&& forall|n: int|
            0 <= n < self.size ==> (#[trigger] self.cell_of_node[n]) < self.cells.len()
                && self.cells[self.cell_of_node[n] as int].members.contains(n as usize)
        &&& forall|k: int, i: int|
            0 <= k < self.cells.len() && 0 <= i < self.cells[k].members.len() ==> (
            #[trigger] self.cells[k].members[i]) < self.size
                && self.cell_of_node[self.cells[k].members[i] as int] == k
    }

    /// The lookup maps agree with the cells: a cell's colour leads back to
    /// the cell, and each member carries the colour of its cell.
    pub open spec fn maps_agree(self) -> bool {
        &&& self.color_of_node.len() == self.size
        &&& forall|k: int|
            0 <= k < self.cells.len() ==> self.color_of_cell.dom().contains(
                (#[trigger] self.cells[k]).color,
            ) && self.color_of_cell[self.cells[k].color] == k
        &&& forall|k: int, i: int|
            0 <= k < self.cells.len() && 0 <= i < self.cells[k].members.len()
                ==> self.color_of_node[(#[trigger] self.cells[k].members[i]) as int]
                == self.cells[k].color
    }

    /// Different cells have different colours.
    pub open spec fn colors_distinct(self) -> bool {
        forall|j: int, k: int|
            0 <= j < self.cells.len() && 0 <= k < self.cells.len() && j != k ==> (
            #[trigger] self.cells[j]).color != (#[trigger] self.cells[k]).color
    }

    /// No cell is empty.
    pub open spec fn no_empty_cell(self) -> bool {
        forall|k: int| 0 <= k < self.cells.len() ==> (#[trigger] self.cells[k]).members.len() > 0
    }

    /// Whether there are as many cells as nodes.
    pub open spec fn is_discrete(self) -> bool {
        self.cells.len() == self.size
    }

    /// Whether every cell has exactly one member.
    pub open spec fn all_singletons(self) -> bool {
        forall|k: int| 0 <= k < self.cells.len() ==> (#[trigger] self.cells[k]).members.len() == 1
    }

    /// The members of every cell are in ascending order.
    pub open spec fn members_ascending(self) -> bool {
        forall|k: int| 0 <= k < self.cells.len() ==> ascending((#[trigger] self.cells[k]).members)
    }

    /// A cell of colour `c` with `m` members owns the colours `c .. c + m`:
    /// these ranges lie below `size` and those of different cells are disjoint.
    pub open spec fn color_ranges_disjoint(self) -> bool {
        &&& forall|k: int|
            0 <= k < self.cells.len() ==> (#[trigger] self.cells[k]).color
                + self.cells[k].members.len() <= self.size
        &&& forall|j: int, k: int|
            0 <= j < self.cells.len() && 0 <= k < self.cells.len() && j != k ==> (
            #[trigger] self.cells[j]).color + self.cells[j].members.len() <= (
            #[trigger] self.cells[k]).color || self.cells[k].color + self.cells[k].members.len()
                <= self.cells[j].color
    }

    /// Whether some cell owns the colour `x`.
    pub open spec fn has_owner(self, x: int) -> bool {
        exists|k: int|
            0 <= k < self.cells.len() && (#[trigger] self.cells[k]).color <= x
                < self.cells[k].color + self.cells[k].members.len()
    }

    /// Every colour below `size` is owned by a cell.
    pub open spec fn color_ranges_cover(self) -> bool {
        forall|x: int| 0 <= x < self.size ==> #[trigger] self.has_owner(x)
    }

    /// `color_of_cell` knows the colours of the cells and no others.
    pub open spec fn colors_in_use(self) -> bool {
        forall|c: usize| #[trigger]
            self.color_of_cell.dom().contains(c) ==> self.color_of_cell[c] < self.cells.len()
                && self.cells[self.color_of_cell[c] as int].color == c
    }

    /// What holds of every colouring the library builds.
    pub open spec fn wf(self) -> bool {
        &&& self.size <= usize::MAX
        &&& self.every_node_in_one_cell()
        &&& self.maps_agree()
        &&& self.colors_distinct()
        &&& self.no_empty_cell()
        &&& (self.is_discrete() <==> self.all_singletons())
        &&& self.cells.len() <= self.size
        &&& self.members_ascending()
        &&& self.color_ranges_disjoint()
        &&& self.color_ranges_cover()
        &&& self.colors_in_use()
        &&& total_members(self.cells) == self.size
    }

    /// The first cell with more than one member.
    pub open spec fn target(self) -> int {
        first_large_from(self.cells, 0)
    }

    /// Whether `sub` can be split off cell `k`: it is not empty, it lies in
    /// the cell, and it leaves a member behind.
    pub open spec fn can_split(self, k: int, sub: Seq<usize>) -> bool {
        &&& 0 <= k < self.cells.len()
        &&& sub.len() > 0
        &&& forall|i: int| 0 <= i < sub.len() ==> self.cells[k].members.contains(#[trigger] sub[i])
        &&& exists|j: int|
            0 <= j < self.cells[k].members.len() && !sub.contains(
                #[trigger] self.cells[k].members[j],
            )
    }

    /// The colouring after the members `sub` of cell `k` have moved to a new
    /// cell at the end. The new cell takes the colour of cell `k`, and cell
    /// `k` moves up by the size of the new cell.
    pub open spec fn split(self, k: int, sub: Seq<usize>) -> ColouringView {
        let moved = retain(self.cells[k].members, sub, true);
        let kept = retain(self.cells[k].members, sub, false);
        let low = self.cells[k].color;
        let high = (low + moved.len()) as usize;
        let fresh = self.cells.len() as usize;
        ColouringView {
            size: self.size,
            cells: self.cells.update(k, CellView { color: high, members: kept }).push(
                CellView { color: low, members: moved },
            ),
            color_of_cell: self.color_of_cell.insert(high, k as usize).insert(low, fresh),
            cell_of_node: Seq::new(
                self.size,
                |n: int|
                    if sub.contains(n as usize) {
                        fresh
                    } else {
                        self.cell_of_node[n]
                    },
            ),
            color_of_node: Seq::new(
                self.size,
                |n: int|
                    if self.cell_of_node[n] == k && !sub.contains(n as usize) {
                        high
                    } else {
                        self.color_of_node[n]
                    },
            ),
        }
    }
}

/// What `retain` holds: the entries of `ms` on the wanted side of `sub`.
pub proof fn lemma_retain_contains(ms: Seq<usize>, sub: Seq<usize>, wanted: bool)
    ensures
        forall|v: usize| #[trigger]
            retain(ms, sub, wanted).contains(v) <==> ms.contains(v) && sub.contains(v) == wanted,
        retain(ms, sub, wanted).len() <= ms.len(),
    decreases ms.len(),
{
    let r = retain(ms, sub, wanted);
    if ms.len() == 0 {
        assert forall|v: usize| #[trigger]
            r.contains(v) <==> ms.contains(v) && sub.contains(v) == wanted by {}
    } else {
        let front = ms.drop_last();
        let rf = retain(front, sub, wanted);
        lemma_retain_contains(front, sub, wanted);
        assert forall|v: usize| #[trigger]
            r.contains(v) <==> ms.contains(v) && sub.contains(v) == wanted by {
            if r.contains(v) {
                let i = choose|i: int| 0 <= i < r.len() && r[i] == v;
                if sub.contains(ms.last()) == wanted && i == r.len() - 1 {
                    assert(ms[ms.len() - 1] == v);
                } else {
                    assert(rf[i] == v);
                    assert(rf.contains(v));
                    let j = choose|j: int| 0 <= j < front.len() && front[j] == v;
                    assert(ms[j] == v);
                }
            }
            if ms.contains(v) && sub.contains(v) == wanted {
                let j = choose|j: int| 0 <= j < ms.len() && ms[j] == v;
                if j == ms.len() - 1 {
                    assert(r[r.len() - 1] == v);
                } else {
                    assert(front[j] == v);
                    assert(front.contains(v));
                    assert(rf.contains(v));
                    let i = choose|i: int| 0 <= i < rf.len() && rf[i] == v;
                    assert(r[i] == v);
                }
            }
        }
    }
}

/// `retain` keeps an ascending list ascending.
pub proof fn lemma_retain_ascending(ms: Seq<usize>, sub: Seq<usize>, wanted: bool)
    requires
        ascending(ms),
    ensures
        ascending(retain(ms, sub, wanted)),
    decreases ms.len(),
{
    if ms.len() > 0 {
        let front = ms.drop_last();
        let rf = retain(front, sub, wanted);
        lemma_retain_ascending(front, sub, wanted);
        lemma_retain_contains(front, sub, wanted);
        let r = retain(ms, sub, wanted);
        assert forall|i: int, j: int| 0 <= i < j < r.len() implies r[i] < r[j] by {
            if j == rf.len() {
                assert(rf.contains(rf[i]));
                let a = choose|a: int| 0 <= a < front.len() && front[a] == rf[i];
                assert(ms[a] < ms[ms.len() - 1]);
            }
        }
    }
}

/// The two sides of `retain` share the entries of `ms` between them.
pub proof fn lemma_retain_lengths(ms: Seq<usize>, sub: Seq<usize>)
    ensures
        retain(ms, sub, true).len() + retain(ms, sub, false).len() == ms.len(),
    decreases ms.len(),
{
    if ms.len() > 0 {
        lemma_retain_lengths(ms.drop_last(), sub);
    }
}

/// Replacing one cell changes the total by the difference in size.
pub proof fn lemma_total_update(cells: Seq<CellView>, k: int, c: CellView)
    requires
        0 <= k < cells.len(),
    ensures
        total_members(cells.update(k, c)) + cells[k].members.len() == total_members(cells)
            + c.members.len(),
    decreases cells.len(),
{
    let updated = cells.update(k, c);
    if k == cells.len() - 1 {
        assert(updated.drop_last() =~= cells.drop_last());
    } else {
        lemma_total_update(cells.drop_last(), k, c);
        assert(updated.drop_last() =~= cells.drop_last().update(k, c));
    }
}

/// With no empty cell there are at most as many cells as members, and
/// exactly as many when every cell is a singleton.
pub proof fn lemma_total_bounds(cells: Seq<CellView>)
    requires
        forall|k: int| 0 <= k < cells.len() ==> (#[trigger] cells[k]).members.len() > 0,
    ensures
        cells.len() <= total_members(cells),
        cells.len() == total_members(cells) <==> forall|k: int|
            0 <= k < cells.len() ==> (#[trigger] cells[k]).members.len() == 1,
    decreases cells.len(),
{
    if cells.len() > 0 {
        let front = cells.drop_last();
        assert forall|k: int| 0 <= k < front.len() implies (#[trigger] front[k]).members.len()
            > 0 by {
            assert(front[k] == cells[k]);
        }
        lemma_total_bounds(front);
        assert(cells[cells.len() - 1].members.len() > 0);
        if cells.len() == total_members(cells) {
            assert forall|k: int| 0 <= k < cells.len() implies (#[trigger] cells[k]).members.len()
                == 1 by {
                if k < front.len() {
                    assert(front[k] == cells[k]);
                }
            }
        }
        if forall|k: int| 0 <= k < cells.len() ==> (#[trigger] cells[k]).members.len() == 1 {
            assert forall|k: int| 0 <= k < front.len() implies (#[trigger] front[k]).members.len()
                == 1 by {
                assert(front[k] == cells[k]);
            }
            assert(cells[cells.len() - 1].members.len() == 1);
        }
    }
}

/// The colouring with everything in one cell is valid.
pub proof fn lemma_uniform_wf(size: nat)
    requires
        size <= usize::MAX,
    ensures
        ColouringView::uniform(size).wf(),
{
    let p = ColouringView::uniform(size);
    if size > 0 {
        let ms = p.cells[0].members;
        assert forall|n: int| 0 <= n < size implies (#[trigger] p.cell_of_node[n]) < p.cells.len()
            && p.cells[p.cell_of_node[n] as int].members.contains(n as usize) by {
            assert(ms[n] == n as usize);
        }
        assert(p.cells.drop_last() =~= Seq::<CellView>::empty());
        assert(total_members(p.cells.drop_last()) == 0);
        assert(total_members(p.cells) == size);
        assert(p.is_discrete() <==> p.all_singletons()) by {
            if p.is_discrete() {
                assert(size == 1);
            }
            if p.all_singletons() {
                assert(p.cells[0].members.len() == 1);
            }
        }
        assert forall|x: int| 0 <= x < size implies #[trigger] p.has_owner(x) by {
            assert(p.cells[0].color <= x < p.cells[0].color + p.cells[0].members.len());
        }
    }
}

/// A valid colouring has a cell with more than one member unless it is
/// discrete, and `target` is the first such cell.
pub proof fn lemma_target(p: ColouringView)
    requires
        p.wf(),
    ensures
        p.is_discrete() ==> p.target() == p.cells.len(),
        !p.is_discrete() ==> 0 <= p.target() < p.cells.len() && p.cells[p.target()].members.len()
            > 1,
        forall|j: int| 0 <= j < p.target() ==> (#[trigger] p.cells[j]).members.len() == 1,
{
    lemma_first_large(p.cells, 0);
    if !p.is_discrete() && p.target() == p.cells.len() {
        assert(p.all_singletons());
    }
}

/// What `first_large_from` finds.
pub proof fn lemma_first_large(cells: Seq<CellView>, i: int)
    requires
        0 <= i <= cells.len(),
        forall|k: int| 0 <= k < cells.len() ==> (#[trigger] cells[k]).members.len() > 0,
    ensures
        i <= first_large_from(cells, i) <= cells.len(),
        first_large_from(cells, i) < cells.len() ==> cells[first_large_from(
            cells,
            i,
        )].members.len() > 1,
        forall|j: int|
            i <= j < first_large_from(cells, i) ==> (#[trigger] cells[j]).members.len() == 1,
    decreases cells.len() - i,
{
    if i < cells.len() && cells[i].members.len() <= 1 {
        lemma_first_large(cells, i + 1);
    }
}

/// Splitting a cell of a valid colouring gives a valid colouring with one
/// cell more, and cell `k` ends up with a colour inside its old range.
#[verifier::rlimit(50)]
pub proof fn lemma_split_wf(p: ColouringView, k: int, sub: Seq<usize>)
    requires
        p.wf(),
        p.can_split(k, sub),
        p.size <= usize::MAX,
    ensures
        p.split(k, sub).wf(),
        p.split(k, sub).cells.len() == p.cells.len() + 1,
        p.split(k, sub).size == p.size,
        retain(p.cells[k].members, sub, true).len() > 0,
        retain(p.cells[k].members, sub, false).len() > 0,
        p.split(k, sub).cells[k].color == p.cells[k].color + retain(
            p.cells[k].members,
            sub,
            true,
        ).len(),
        p.split(k, sub).cells[k].color < p.size,
{
    let q = p.split(k, sub);
    let ms = p.cells[k].members;
    let moved = retain(ms, sub, true);
    let kept = retain(ms, sub, false);
    let low = p.cells[k].color;
    let high = (low + moved.len()) as usize;
    let fresh = p.cells.len() as int;
    lemma_retain_contains(ms, sub, true);
    lemma_retain_contains(ms, sub, false);
    lemma_retain_ascending(ms, sub, true);
    lemma_retain_ascending(ms, sub, false);
    lemma_retain_lengths(ms, sub);
    assert(moved.len() > 0) by {
        assert(ms.contains(sub[0]));
        assert(sub.contains(sub[0]));
        assert(moved.contains(sub[0]));
    }
    assert(kept.len() > 0) by {
        let j = choose|j: int| 0 <= j < ms.len() && !sub.contains(#[trigger] ms[j]);
        assert(ms.contains(ms[j]));
        assert(kept.contains(ms[j]));
    }
    assert(p.cells[k].color + ms.len() <= p.size);
    assert(high == low + moved.len());
    // Members of the other cells are untouched by `sub`.
    assert forall|j: int, i: int|
        0 <= j < p.cells.len() && j != k && 0 <= i < p.cells[j].members.len() implies !sub.contains(
        #[trigger] p.cells[j].members[i],
    ) by {
        let m = p.cells[j].members[i];
        if sub.contains(m) {
            let a = choose|a: int| 0 <= a < sub.len() && sub[a] == m;
            assert(ms.contains(sub[a]));
            let b = choose|b: int| 0 <= b < ms.len() && ms[b] == m;
            assert(p.cell_of_node[p.cells[k].members[b] as int] == k);
            assert(p.cell_of_node[p.cells[j].members[i] as int] == j);
        }
    }
    assert forall|j: int| 0 <= j < p.cells.len() && j != k implies #[trigger] q.cells[j]
        == p.cells[j] by {}
    assert(q.cells[k] == CellView { color: high, members: kept });
    assert(q.cells[fresh] == CellView { color: low, members: moved });

    assert(q.every_node_in_one_cell()) by {
        assert forall|n: int| 0 <= n < q.size implies (#[trigger] q.cell_of_node[n])
            < q.cells.len() && q.cells[q.cell_of_node[n] as int].members.contains(n as usize) by {
            let j = p.cell_of_node[n];
            assert(p.cells[j as int].members.contains(n as usize));
            if sub.contains(n as usize) {
                let a = choose|a: int| 0 <= a < sub.len() && sub[a] == n as usize;
                assert(ms.contains(sub[a]));
                assert(moved.contains(n as usize));
            } else if j == k {
                assert(kept.contains(n as usize));
            } else {
                assert(q.cells[j as int] == p.cells[j as int]);
            }
        }
        assert forall|j: int, i: int|
            0 <= j < q.cells.len() && 0 <= i < q.cells[j].members.len() implies (
        #[trigger] q.cells[j].members[i]) < q.size && q.cell_of_node[q.cells[j].members[i] as int]
            == j by {
            let m = q.cells[j].members[i];
            if j == fresh {
                assert(moved.contains(m));
                let b = choose|b: int| 0 <= b < ms.len() && ms[b] == m;
                assert(p.cells[k].members[b] < p.size);
            } else if j == k {
                assert(kept.contains(m));
                let b = choose|b: int| 0 <= b < ms.len() && ms[b] == m;
                assert(p.cells[k].members[b] < p.size);
                assert(p.cell_of_node[p.cells[k].members[b] as int] == k);
            } else {
                assert(q.cells[j] == p.cells[j]);
                assert(!sub.contains(p.cells[j].members[i]));
            }
        }
    }
    assert(q.colors_distinct() && q.color_ranges_disjoint()) by {
        assert forall|j: int| 0 <= j < q.cells.len() implies (#[trigger] q.cells[j]).color
            + q.cells[j].members.len() <= q.size by {
            if j != k && j != fresh {
                assert(q.cells[j] == p.cells[j]);
            }
        }
        assert forall|i: int, j: int|
            0 <= i < q.cells.len() && 0 <= j < q.cells.len() && i != j implies ((
        #[trigger] q.cells[i]).color + q.cells[i].members.len() <= (#[trigger] q.cells[j]).color
            || q.cells[j].color + q.cells[j].members.len() <= q.cells[i].color) && q.cells[i].color
            != q.cells[j].color by {
            let ii = if i == fresh { k } else { i };
            let jj = if j == fresh { k } else { j };
            if ii != jj {
                assert(p.cells[ii].color + p.cells[ii].members.len() <= p.cells[jj].color
                    || p.cells[jj].color + p.cells[jj].members.len() <= p.cells[ii].color);
                assert(p.cells[ii].members.len() > 0);
                assert(p.cells[jj].members.len() > 0);
                if i != k && i != fresh {
                    assert(q.cells[i] == p.cells[i]);
                }
                if j != k && j != fresh {
                    assert(q.cells[j] == p.cells[j]);
                }
            }
        }
    }
    assert(q.maps_agree()) by {
        assert forall|j: int| 0 <= j < q.cells.len() implies q.color_of_cell.dom().contains(
            (#[trigger] q.cells[j]).color,
        ) && q.color_of_cell[q.cells[j].color] == j by {
            if j != k && j != fresh {
                assert(q.cells[j] == p.cells[j]);
                assert(q.cells[j].color != q.cells[k].color);
                assert(q.cells[j].color != q.cells[fresh].color);
                assert(p.color_of_cell[p.cells[j].color] == j);
            }
        }
        assert forall|j: int, i: int|
            0 <= j < q.cells.len() && 0 <= i < q.cells[j].members.len()
                implies q.color_of_node[(#[trigger] q.cells[j].members[i]) as int]
            == q.cells[j].color by {
            let m = q.cells[j].members[i];
            assert(q.cell_of_node[q.cells[j].members[i] as int] == j);
            if j == fresh {
                assert(moved.contains(m));
                let b = choose|b: int| 0 <= b < ms.len() && ms[b] == m;
                assert(p.color_of_node[p.cells[k].members[b] as int] == low);
            } else if j == k {
                assert(kept.contains(m));
                let b = choose|b: int| 0 <= b < ms.len() && ms[b] == m;
                assert(p.cell_of_node[p.cells[k].members[b] as int] == k);
            } else {
                assert(q.cells[j] == p.cells[j]);
                assert(!sub.contains(p.cells[j].members[i]));
                assert(p.cell_of_node[p.cells[j].members[i] as int] == j);
                assert(p.color_of_node[p.cells[j].members[i] as int] == p.cells[j].color);
            }
        }
    }
    assert(q.no_empty_cell()) by {
        assert forall|j: int| 0 <= j < q.cells.len() implies (#[trigger] q.cells[j]).members.len()
            > 0 by {
            if j != k && j != fresh {
                assert(q.cells[j] == p.cells[j]);
            }
        }
    }
    assert(q.members_ascending()) by {
        assert forall|j: int| 0 <= j < q.cells.len() implies ascending(
            (#[trigger] q.cells[j]).members,
        ) by {
            if j != k && j != fresh {
                assert(q.cells[j] == p.cells[j]);
            }
        }
    }
    assert(q.colors_in_use()) by {
        assert forall|c: usize| #[trigger] q.color_of_cell.dom().contains(c) implies q.color_of_cell[c]
            < q.cells.len() && q.cells[q.color_of_cell[c] as int].color == c by {
            if c != low && c != high {
                assert(p.color_of_cell.dom().contains(c));
                let j = p.color_of_cell[c] as int;
                assert(p.cells[j].color == c);
                assert(j != k);
                assert(q.cells[j] == p.cells[j]);
            }
        }
    }
    assert(total_members(q.cells) == q.size) by {
        let mid = p.cells.update(k, CellView { color: high, members: kept });
        lemma_total_update(p.cells, k, CellView { color: high, members: kept });
        assert(q.cells.drop_last() =~= mid);
    }
    lemma_total_bounds(q.cells);
    assert(q.color_ranges_cover()) by {
        assert forall|x: int| 0 <= x < q.size implies #[trigger] q.has_owner(x) by {
            assert(p.has_owner(x));
            let j = choose|j: int|
                0 <= j < p.cells.len() && (#[trigger] p.cells[j]).color <= x < p.cells[j].color
                    + p.cells[j].members.len();
            if j != k {
                assert(q.cells[j] == p.cells[j]);
                assert(q.cells[j].color <= x < q.cells[j].color + q.cells[j].members.len());
            } else if x < high {
                assert(q.cells[fresh].color <= x < q.cells[fresh].color
                    + q.cells[fresh].members.len());
            } else {
                assert(q.cells[k].color <= x < q.cells[k].color + q.cells[k].members.len());
            }
        }
    }
}

/// In a valid colouring every node has a colour below `size`, the colour of
/// its cell.
pub proof fn lemma_node_colors(p: ColouringView)
    requires
        p.wf(),
    ensures
        forall|n: int|
            0 <= n < p.size ==> (#[trigger] p.color_of_node[n]) < p.size && p.color_of_node[n]
                == p.cells[p.cell_of_node[n] as int].color,
{
    assert forall|n: int| 0 <= n < p.size implies (#[trigger] p.color_of_node[n]) < p.size
        && p.color_of_node[n] == p.cells[p.cell_of_node[n] as int].color by {
        let k = p.cell_of_node[n] as int;
        assert(p.cells[k].members.contains(n as usize));
        let i = choose|i: int| 0 <= i < p.cells[k].members.len() && p.cells[k].members[i] == n as usize;
        assert(p.color_of_node[p.cells[k].members[i] as int] == p.cells[k].color);
        assert(p.cells[k].color + p.cells[k].members.len() <= p.size);
    }
}

/// In a discrete colouring different nodes have different colours.
pub proof fn lemma_discrete_colors(p: ColouringView)
    requires
        p.wf(),
        p.is_discrete(),
    ensures
        forall|a: int, b: int|
            0 <= a < p.size && 0 <= b < p.size && a != b ==> #[trigger] p.color_of_node[a]
                != #[trigger] p.color_of_node[b],
{
    lemma_node_colors(p);
    assert forall|a: int, b: int| 0 <= a < p.size && 0 <= b < p.size && a != b implies
        #[trigger] p.color_of_node[a] != #[trigger] p.color_of_node[b] by {
        let j = p.cell_of_node[a] as int;
        let k = p.cell_of_node[b] as int;
        assert(p.cells[j].members.contains(a as usize));
        assert(p.cells[k].members.contains(b as usize));
        assert(p.cells[j].members.len() == 1);
        assert(p.cells[k].members.len() == 1);
        if j == k {
            let x = choose|x: int| 0 <= x < p.cells[j].members.len() && p.cells[j].members[x] == a as usize;
            let y = choose|y: int| 0 <= y < p.cells[k].members.len() && p.cells[k].members[y] == b as usize;
            assert(x == 0 && y == 0);
        } else {
            assert(p.cells[j].color != p.cells[k].color);
        }
    }
}

/// In a discrete colouring every colour below `size` is the colour of a
/// node.
pub proof fn lemma_discrete_onto(p: ColouringView, x: int) -> (u: int)
    requires
        p.wf(),
        p.is_discrete(),
        0 <= x < p.size,
    ensures
        0 <= u < p.size,
        p.color_of_node[u] == x,
{
    assert(p.has_owner(x));
    let k = choose|k: int|
        0 <= k < p.cells.len() && (#[trigger] p.cells[k]).color <= x < p.cells[k].color
            + p.cells[k].members.len();
    assert(p.cells[k].members.len() == 1);
    let u = p.cells[k].members[0];
    assert(p.color_of_node[p.cells[k].members[0] as int] == p.cells[k].color);
    assert(p.cells[k].members[0] < p.size);
    u as int
}

} // verus!
