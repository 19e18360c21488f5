//! A uniform grid over space: which items lie in a cell, and which lie around it.
use std::collections::HashMap;
use vstd::prelude::*;
use crate::fixed;
use crate::fixed::{Fixed, UNIT};
use crate::math::Vector;
use crate::scalar::Real;

verus! {

broadcast use vstd::std_specs::hash::group_hash_axioms;

/// A cell of the grid by its integer coordinates.
#[derive(Clone, Copy, Debug, PartialEq, Eq, Structural)]
pub struct Cell {
    /// Column.
    pub x: i64,
    /// Row.
    pub y: i64,
    /// Layer.
    pub z: i64,
}

/// An item at a cell.
#[derive(Clone, Copy, Debug, PartialEq, Eq, Structural)]
pub struct Placed {
    /// Where the item lies.
    pub cell: Cell,
    /// The caller's number for the item.
    pub item: usize,
}

/// The number of cells in the block around a cell, itself included.
pub const BLOCK: usize = 27;

pub open spec fn spec_cell_of<R: Real>(p: Vector<R>, size: R) -> Cell {
    Cell { x: p.x.div(size).floor(), y: p.y.div(size).floor(), z: p.z.div(size).floor() }
}

/// The cell of edge length `size` that holds the point `p`.
#[verifier::when_used_as_spec(spec_cell_of)]
pub fn cell_of<R: Real>(p: Vector<R>, size: R) -> (c: Cell)
    ensures
        c == spec_cell_of(p, size),
{
    Cell { x: p.x.div(size).floor(), y: p.y.div(size).floor(), z: p.z.div(size).floor() }
}

impl Cell {
    pub open spec fn spec_neighbour(self, k: usize) -> Cell {
        Cell {
            x: self.x.wrapping_add((k / 9) as i64).wrapping_sub(1),
            y: self.y.wrapping_add(((k / 3) % 3) as i64).wrapping_sub(1),
            z: self.z.wrapping_add((k % 3) as i64).wrapping_sub(1),
        }
    }

    /// The `k`-th cell of the block around this one: columns change slowest, layers fastest.
    /// Coordinates wrap at the ends of their range.
    #[verifier::when_used_as_spec(spec_neighbour)]
    pub fn neighbour(self, k: usize) -> (c: Cell)
        requires
            k < BLOCK,
        ensures
            c == self.spec_neighbour(k),
    {
        Cell {
            x: self.x.wrapping_add((k / 9) as i64).wrapping_sub(1),
            y: self.y.wrapping_add(((k / 3) % 3) as i64).wrapping_sub(1),
            z: self.z.wrapping_add((k % 3) as i64).wrapping_sub(1),
        }
    }

    pub open spec fn spec_at_limit(self) -> bool {
        self.x == i64::MIN || self.x == i64::MAX || self.y == i64::MIN || self.y == i64::MAX
            || self.z == i64::MIN || self.z == i64::MAX
    }

    /// Whether some coordinate has no successor or no predecessor.
    #[verifier::when_used_as_spec(spec_at_limit)]
    pub fn at_limit(self) -> (b: bool)
        ensures
            b == self.spec_at_limit(),
    {
        self.x == i64::MIN || self.x == i64::MAX || self.y == i64::MIN || self.y == i64::MAX
            || self.z == i64::MIN || self.z == i64::MAX
    }
}

/// The items that lie in cell `key`, in the order in which they were placed.
pub open spec fn bucket(entries: Seq<Placed>, key: Cell) -> Seq<usize>
    decreases entries.len(),
{
    if entries.len() == 0 {
        Seq::empty()
    } else {
        let rest = bucket(entries.drop_last(), key);
        if entries.last().cell == key {
            rest.push(entries.last().item)
        } else {
            rest
        }
    }
}

/// The items in the first `n` cells of the block around `center`, cell by cell.
pub open spec fn block_items(entries: Seq<Placed>, center: Cell, n: nat) -> Seq<usize>
    decreases n,
{
    if n == 0 {
        Seq::empty()
    } else {
        block_items(entries, center, (n - 1) as nat) + bucket(
            entries,
            center.spec_neighbour((n - 1) as usize),
        )
    }
}

/// The items in the block around `center`.
pub open spec fn around(entries: Seq<Placed>, center: Cell) -> Seq<usize> {
    block_items(entries, center, BLOCK as nat)
}

/// A well-spread number for a cell.
#[verifier::opaque]
spec fn spec_digest(c: Cell) -> u64 {
    (c.x as u64).wrapping_mul(0x9E37_79B9_7F4A_7C15).wrapping_add(
        (c.y as u64).wrapping_mul(0xC2B2_AE3D_27D4_EB4F),
    ).wrapping_add((c.z as u64).wrapping_mul(0x1656_67B1_9E37_79F9))
}

fn digest(c: Cell) -> (h: u64)
    ensures
        h == spec_digest(c),
{
    reveal(spec_digest);
    (c.x as u64).wrapping_mul(0x9E37_79B9_7F4A_7C15).wrapping_add(
        (c.y as u64).wrapping_mul(0xC2B2_AE3D_27D4_EB4F),
    ).wrapping_add((c.z as u64).wrapping_mul(0x1656_67B1_9E37_79F9))
}

/// The positions of the entries whose cell has the digest `h`, ascending.
spec fn positions(entries: Seq<Placed>, h: u64) -> Seq<usize>
    decreases entries.len(),
{
    if entries.len() == 0 {
        Seq::empty()
    } else {
        let rest = positions(entries.drop_last(), h);
        if spec_digest(entries.last().cell) == h {
            rest.push((entries.len() - 1) as usize)
        } else {
            rest
        }
    }
}

/// The items of those of `at` that lie in `key`.
spec fn picked(entries: Seq<Placed>, at: Seq<usize>, key: Cell) -> Seq<usize>
    decreases at.len(),
{
    if at.len() == 0 {
        Seq::empty()
    } else {
        let rest = picked(entries, at.drop_last(), key);
        if entries[at.last() as int].cell == key {
            rest.push(entries[at.last() as int].item)
        } else {
            rest
        }
    }
}

/// Every number of `at` is below `n`.
spec fn all_below(at: Seq<usize>, n: nat) -> bool {
    forall|i: int| 0 <= i < at.len() ==> (#[trigger] at[i]) < n
}

proof fn lemma_positions_bounded(entries: Seq<Placed>, h: u64)
    requires
        entries.len() <= usize::MAX,
    ensures
        all_below(positions(entries, h), entries.len()),
    decreases entries.len(),
{
    if entries.len() > 0 {
        lemma_positions_bounded(entries.drop_last(), h);
        let rest = positions(entries.drop_last(), h);
        assert(all_below(rest.push((entries.len() - 1) as usize), entries.len()));
    }
}

proof fn lemma_picked_prefix(entries: Seq<Placed>, longer: Seq<Placed>, at: Seq<usize>, key: Cell)
    requires
        entries.len() <= longer.len(),
        forall|i: int| 0 <= i < entries.len() ==> entries[i] == longer[i],
        all_below(at, entries.len()),
    ensures
        picked(entries, at, key) == picked(longer, at, key),
    decreases at.len(),
{
    if at.len() > 0 {
        assert(at.last() == at[at.len() - 1]);
        lemma_picked_prefix(entries, longer, at.drop_last(), key);
    }
}

proof fn lemma_picked_is_bucket(entries: Seq<Placed>, key: Cell)
    requires
        entries.len() <= usize::MAX,
    ensures
        picked(entries, positions(entries, spec_digest(key)), key) == bucket(entries, key),
    decreases entries.len(),
{
    if entries.len() > 0 {
        let h = spec_digest(key);
        let shorter = entries.drop_last();
        lemma_picked_is_bucket(shorter, key);
        lemma_positions_bounded(shorter, h);
        lemma_picked_prefix(shorter, entries, positions(shorter, h), key);
        let rest = positions(shorter, h);
        if spec_digest(entries.last().cell) == h {
            let at = positions(entries, h);
            assert(at == rest.push((entries.len() - 1) as usize));
            assert(at.drop_last() == rest);
            assert(at.last() == (entries.len() - 1) as usize);
        }
    }
}

/// Collects the items of those of `at` that lie in `key`.
fn pick(entries: &Vec<Placed>, at: &Vec<usize>, key: Cell) -> (items: Vec<usize>)
    requires
        all_below(at@, entries@.len()),
    ensures
        items@ == picked(entries@, at@, key),
{
    let mut items: Vec<usize> = Vec::new();
    let n: usize = at.len();
    for i in 0..n
        invariant
            n == at@.len(),
            all_below(at@, entries@.len()),
            items@ == picked(entries@, at@.take(i as int), key),
    {
        proof {
            assert(at@.take(i + 1).drop_last() == at@.take(i as int));
            assert(at@.take(i + 1).last() == at@[i as int]);
        }
        let e: Placed = entries[at[i]];
        if e.cell == key {
            items.push(e.item);
        }
    }
    assert(at@.take(n as int) == at@);
    items
}

/// The index holds the positions of the entries with digest `h`.
spec fn leads_to(index: Map<u64, Vec<usize>>, entries: Seq<Placed>, h: u64) -> bool {
    positions(entries, h) == (if index.contains_key(h) {
        index[h]@
    } else {
        Seq::empty()
    })
}

/// A grid that finds the items of a cell by the cell's digest.
pub struct CellGrid {
    entries: Vec<Placed>,
    index: HashMap<u64, Vec<usize>>,
}

impl CellGrid {
    /// The items with their cells, in the order in which they were placed.
    pub closed spec fn view(&self) -> Seq<Placed> {
        self.entries@
    }

    /// Every digest leads to exactly the positions of the entries that have it.
    pub closed spec fn wf(&self) -> bool {
        forall|h: u64| #[trigger] leads_to(self.index@, self.entries@, h)
    }

    /// A grid without items.
    pub fn new() -> (g: CellGrid)
        ensures
            g.wf(),
            g@ == Seq::<Placed>::empty(),
    {
        CellGrid { entries: Vec::new(), index: HashMap::new() }
    }

    /// Places `item` in `cell`, behind the items that are there.
    pub fn place(&mut self, cell: Cell, item: usize)
        requires
            old(self).wf(),
        ensures
            final(self).wf(),
            final(self)@ == old(self)@.push(Placed { cell, item }),
    {
        let ghost before = self.entries@;
        let h: u64 = digest(cell);
        let n: usize = self.entries.len();
        let mut at: Vec<usize> = match self.index.remove(&h) {
            Some(v) => v,
            None => Vec::new(),
        };
        assert(leads_to(old(self).index@, before, h));
        at.push(n);
        self.index.insert(h, at);
        self.entries.push(Placed { cell, item });
        proof {
            assert(self.entries@.drop_last() == before);
            assert forall|g: u64| #[trigger] leads_to(self.index@, self.entries@, g) by {
                assert(leads_to(old(self).index@, before, g));
            }
        }
    }

    /// The items that lie in cell `key`.
    pub fn items_in(&self, key: Cell) -> (items: Vec<usize>)
        requires
            self.wf(),
        ensures
            items@ == bucket(self@, key),
    {
        let h: u64 = digest(key);
        let count: usize = self.entries.len();
        proof {
            assert(count == self.entries@.len());
            lemma_positions_bounded(self.entries@, h);
            lemma_picked_is_bucket(self.entries@, key);
            assert(leads_to(self.index@, self.entries@, h));
        }
        match self.index.get(&h) {
            Some(at) => pick(&self.entries, at, key),
            None => Vec::new(),
        }
    }

    /// The items in the block around `center`, cell by cell.
    pub fn items_around(&self, center: Cell) -> (items: Vec<usize>)
        requires
            self.wf(),
        ensures
            items@ == around(self@, center),
    {
        let mut items: Vec<usize> = Vec::new();
        for k in 0..BLOCK
            invariant
                self.wf(),
                items@ == block_items(self@, center, k as nat),
        {
            let mut more: Vec<usize> = self.items_in(center.neighbour(k));
            items.append(&mut more);
        }
        items
    }
}

/// An item is in the bucket of exactly the cells at which it was placed.
pub proof fn lemma_bucket_contains(entries: Seq<Placed>, key: Cell, item: usize)
    ensures
        bucket(entries, key).contains(item) <==> exists|i: int|
            0 <= i < entries.len() && #[trigger] entries[i] == (Placed { cell: key, item }),
    decreases entries.len(),
{
    if entries.len() > 0 {
        let shorter = entries.drop_last();
        lemma_bucket_contains(shorter, key, item);
        let rest = bucket(shorter, key);
        let full = bucket(entries, key);
        if full.contains(item) {
            let j = choose|j: int| 0 <= j < full.len() && full[j] == item;
            if j < rest.len() {
                assert(rest[j] == item);
                assert(rest.contains(item));
                let i = choose|i: int|
                    0 <= i < shorter.len() && #[trigger] shorter[i] == (Placed {
                        cell: key,
                        item,
                    });
                assert(entries[i] == shorter[i]);
            } else {
                assert(entries[entries.len() - 1] == (Placed { cell: key, item }));
            }
        }
        if exists|i: int|
            0 <= i < entries.len() && #[trigger] entries[i] == (Placed { cell: key, item }) {
            let i = choose|i: int|
                0 <= i < entries.len() && #[trigger] entries[i] == (Placed { cell: key, item });
            if i < shorter.len() {
                assert(shorter[i] == entries[i]);
                assert(rest.contains(item));
                let j = choose|j: int| 0 <= j < rest.len() && rest[j] == item;
                assert(full[j] == item);
            } else {
                assert(full[full.len() - 1] == item);
            }
        }
    }
}

proof fn lemma_bucket_distinct(entries: Seq<Placed>, key: Cell)
    requires
        items_distinct(entries),
    ensures
        bucket(entries, key).no_duplicates(),
    decreases entries.len(),
{
    if entries.len() > 0 {
        let shorter = entries.drop_last();
        assert(items_distinct(shorter)) by {
            assert forall|i: int, j: int| 0 <= i < j < shorter.len() implies (
            #[trigger] shorter[i]).item != (#[trigger] shorter[j]).item by {
                assert(entries[i].item != entries[j].item);
            }
        }
        lemma_bucket_distinct(shorter, key);
        let last = entries.last();
        lemma_bucket_contains(shorter, key, last.item);
        if bucket(shorter, key).contains(last.item) {
            let i = choose|i: int|
                0 <= i < shorter.len() && #[trigger] shorter[i] == (Placed {
                    cell: key,
                    item: last.item,
                });
            assert(entries[i].item != entries[entries.len() - 1].item);
        }
    }
}

/// No two entries carry the same item.
pub open spec fn items_distinct(entries: Seq<Placed>) -> bool {
    forall|i: int, j: int|
        0 <= i < j < entries.len() ==> (#[trigger] entries[i]).item != (#[trigger] entries[j]).item
}

proof fn lemma_neighbours_distinct(c: Cell, j: usize, k: usize)
    requires
        j < BLOCK,
        k < BLOCK,
        j != k,
    ensures
        c.spec_neighbour(j) != c.spec_neighbour(k),
{
    assert(j / 9 != k / 9 || (j / 3) % 3 != (k / 3) % 3 || j % 3 != k % 3);
}

proof fn lemma_block_contains(entries: Seq<Placed>, center: Cell, n: nat, item: usize)
    requires
        n <= BLOCK,
    ensures
        block_items(entries, center, n).contains(item) <==> exists|k: usize, i: int|
            k < n && 0 <= i < entries.len() && #[trigger] entries[i] == (Placed {
                cell: #[trigger] center.spec_neighbour(k),
                item,
            }),
    decreases n,
{
    if n > 0 {
        let k0 = (n - 1) as usize;
        let rest = block_items(entries, center, (n - 1) as nat);
        let more = bucket(entries, center.spec_neighbour(k0));
        let full = block_items(entries, center, n);
        assert(full == rest + more);
        lemma_block_contains(entries, center, (n - 1) as nat, item);
        lemma_bucket_contains(entries, center.spec_neighbour(k0), item);
        if full.contains(item) {
            let j = choose|j: int| 0 <= j < full.len() && full[j] == item;
            if j < rest.len() {
                assert(rest[j] == item);
                assert(rest.contains(item));
            } else {
                assert(more[j - rest.len()] == item);
                assert(more.contains(item));
            }
        }
        if rest.contains(item) {
            let j = choose|j: int| 0 <= j < rest.len() && rest[j] == item;
            assert(full[j] == item);
        }
        if more.contains(item) {
            let j = choose|j: int| 0 <= j < more.len() && more[j] == item;
            assert(full[rest.len() + j] == item);
        }
    }
}

proof fn lemma_block_distinct(entries: Seq<Placed>, center: Cell, n: nat)
    requires
        n <= BLOCK,
        items_distinct(entries),
    ensures
        block_items(entries, center, n).no_duplicates(),
    decreases n,
{
    if n > 0 {
        let k0 = (n - 1) as usize;
        let rest = block_items(entries, center, (n - 1) as nat);
        let more = bucket(entries, center.spec_neighbour(k0));
        lemma_block_distinct(entries, center, (n - 1) as nat);
        lemma_bucket_distinct(entries, center.spec_neighbour(k0));
        assert forall|i: int, j: int| 0 <= i < rest.len() && 0 <= j < more.len() implies rest[i]
            != more[j] by {
            if rest[i] == more[j] {
                let item = rest[i];
                assert(rest.contains(item));
                assert(more.contains(item));
                lemma_block_contains(entries, center, (n - 1) as nat, item);
                lemma_bucket_contains(entries, center.spec_neighbour(k0), item);
                let (k, a) = choose|k: usize, a: int|
                    k < n - 1 && 0 <= a < entries.len() && #[trigger] entries[a] == (Placed {
                        cell: #[trigger] center.spec_neighbour(k),
                        item,
                    });
                let b = choose|b: int|
                    0 <= b < entries.len() && #[trigger] entries[b] == (Placed {
                        cell: center.spec_neighbour(k0),
                        item,
                    });
                lemma_neighbours_distinct(center, k, k0);
                assert(entries[a].item == entries[b].item);
            }
        }
        assert(block_items(entries, center, n) == rest + more);
    }
}

/// Looking around a cell finds exactly the items that lie in its block.
pub proof fn lemma_around_is_complete(entries: Seq<Placed>, center: Cell, item: usize)
    ensures
        around(entries, center).contains(item) <==> exists|k: usize, i: int|
            k < BLOCK && 0 <= i < entries.len() && #[trigger] entries[i] == (Placed {
                cell: #[trigger] center.spec_neighbour(k),
                item,
            }),
{
    lemma_block_contains(entries, center, BLOCK as nat, item);
}

/// Every item has a number below `n`.
pub open spec fn items_below(entries: Seq<Placed>, n: nat) -> bool {
    forall|k: int| 0 <= k < entries.len() ==> (#[trigger] entries[k]).item < n
}

/// Looking around a cell finds only items that were placed.
pub proof fn lemma_around_below(entries: Seq<Placed>, center: Cell, n: nat)
    requires
        items_below(entries, n),
    ensures
        forall|k: int| 0 <= k < around(entries, center).len() ==> around(entries, center)[k] < n,
{
    let items = around(entries, center);
    assert forall|k: int| 0 <= k < items.len() implies items[k] < n by {
        assert(items.contains(items[k]));
        lemma_around_is_complete(entries, center, items[k]);
    }
}

/// Looking around a cell finds no item twice.
pub proof fn lemma_around_is_distinct(entries: Seq<Placed>, center: Cell)
    requires
        items_distinct(entries),
    ensures
        around(entries, center).no_duplicates(),
{
    lemma_block_distinct(entries, center, BLOCK as nat);
}

/// Whether two points are at most `size` apart along every axis.
pub open spec fn within(p: Vector<Fixed>, q: Vector<Fixed>, size: Fixed) -> bool {
    &&& fixed::near(p.x.raw as int, q.x.raw as int, size.raw as int)
    &&& fixed::near(p.y.raw as int, q.y.raw as int, size.raw as int)
    &&& fixed::near(p.z.raw as int, q.z.raw as int, size.raw as int)
}

/// Points whose squared distance is below the square of `reach` are less than `reach` apart along
/// every axis.
pub proof fn lemma_near_points_are_within(p: Vector<Fixed>, q: Vector<Fixed>, reach: Fixed)
    requires
        reach.raw >= 0,
        p.sub(q).length_squared().raw < reach.mul(reach).raw,
    ensures
        reach.raw > 0,
        within(p, q, reach),
{
    let d = p.sub(q);
    let zero = Fixed { raw: 0 };
    fixed::lemma_square_monotone(zero, d.x);
    fixed::lemma_square_monotone(zero, d.y);
    fixed::lemma_square_monotone(zero, d.z);
    if fixed::magnitude(reach.raw as int) <= fixed::magnitude(d.x.raw as int) {
        fixed::lemma_square_monotone(reach, d.x);
    }
    if fixed::magnitude(reach.raw as int) <= fixed::magnitude(d.y.raw as int) {
        fixed::lemma_square_monotone(reach, d.y);
    }
    if fixed::magnitude(reach.raw as int) <= fixed::magnitude(d.z.raw as int) {
        fixed::lemma_square_monotone(reach, d.z);
    }
}

/// Whether a distance is at least a half, and not too large to be squared.
pub open spec fn ordinary(reach: Fixed) -> bool {
    UNIT / 2 <= reach.raw <= 0x8000_0000_0000
}

/// A coordinate of a distance that is computed to be below `reach`.
proof fn lemma_short_coordinate(x: Fixed, square: Fixed, reach: Fixed)
    requires
        ordinary(reach),
        x.mul(x).raw <= square.raw,
        square.sqrt().lt(reach),
    ensures
        fixed::magnitude(x.raw as int) <= reach.raw,
{
    let r = reach.raw as int;
    if fixed::magnitude(x.raw as int) > r {
        let m = r + 1;
        let beyond = Fixed { raw: m as i64 };
        fixed::lemma_square_monotone(beyond, x);
        assert(0 <= m * m < UNIT * 0x8000_0000_0000_0000) by (nonlinear_arith)
            requires
                0 <= m <= 0x8000_0000_0001,
        ;
        let q = (m * m) / (UNIT as int);
        vstd::arithmetic::div_mod::lemma_fundamental_div_mod(m * m, UNIT as int);
        vstd::arithmetic::div_mod::lemma_mod_bound(m * m, UNIT as int);
        assert(beyond.mul(beyond).raw == q);
        assert(m * m == r * r + 2 * r + 1) by (nonlinear_arith)
            requires
                m == r + 1,
        ;
        let n = (square.raw * UNIT) as nat;
        assert(r * r <= n);
        fixed::lemma_root_is_root(n);
        let s = fixed::root(n) as int;
        assert(s >= r) by (nonlinear_arith)
            requires
                0 <= s,
                0 <= r,
                r * r <= n,
                n < (s + 1) * (s + 1),
        ;
    }
}

/// Points whose computed distance is below an ordinary `reach` are at most `reach` apart along
/// every axis.
pub proof fn lemma_short_distance_is_within(p: Vector<Fixed>, q: Vector<Fixed>, reach: Fixed)
    requires
        ordinary(reach),
        p.sub(q).length().lt(reach),
    ensures
        within(p, q, reach),
{
    let d = p.sub(q);
    let zero = Fixed { raw: 0 };
    fixed::lemma_square_monotone(zero, d.x);
    fixed::lemma_square_monotone(zero, d.y);
    fixed::lemma_square_monotone(zero, d.z);
    lemma_short_coordinate(d.x, d.dot(d), reach);
    lemma_short_coordinate(d.y, d.dot(d), reach);
    lemma_short_coordinate(d.z, d.dot(d), reach);
}

/// The quotient before it is limited: truncated towards zero.
proof fn lemma_quotient_of(x: Fixed, size: Fixed) -> (q: int)
    requires
        size.raw > 0,
    ensures
        x.div(size).raw == fixed::saturated(q),
        fixed::truncates(x.raw * UNIT, size.raw as int, q),
{
    let m = fixed::magnitude(x.raw as int) * UNIT as nat;
    let d = size.raw as nat;
    let k = m / d;
    vstd::arithmetic::div_mod::lemma_fundamental_div_mod(m as int, d as int);
    assert(d * k == k * d) by (nonlinear_arith);
    assert((-(k as int)) * d == -(k * d)) by (nonlinear_arith);
    if x.raw < 0 {
        -(k as int)
    } else {
        k as int
    }
}

/// Two quotients of numbers that are at most the divisor apart are at most one apart.
proof fn lemma_quotients_close(x: int, y: int, d: int, p: int, q: int)
    requires
        d > 0,
        x <= y <= x + d,
        fixed::truncates(x * UNIT, d, p),
        fixed::truncates(y * UNIT, d, q),
    ensures
        p <= q <= p + UNIT,
{
    let (a, b) = (x * UNIT, y * UNIT);
    assert(a <= b <= a + d * UNIT) by (nonlinear_arith)
        requires
            a == x * UNIT,
            b == y * UNIT,
            x <= y <= x + d,
    ;
    assert(p <= q) by (nonlinear_arith)
        requires
            d > 0,
            a <= b,
            a >= 0 ==> p * d <= a,
            a <= 0 ==> p <= 0 && p * d - a < d,
            b >= 0 ==> q >= 0 && b - q * d < d,
            b <= 0 ==> b <= q * d,
    ;
    assert(q <= p + UNIT) by (nonlinear_arith)
        requires
            d > 0,
            b <= a + d * UNIT,
            a >= 0 ==> p >= 0 && a - p * d < d,
            a <= 0 ==> a <= p * d,
            b >= 0 ==> q * d <= b,
            b <= 0 ==> q <= 0 && q * d - b < d,
    ;
}

/// One coordinate of the cells of two points.
proof fn lemma_cell_coordinates_close(x: Fixed, y: Fixed, size: Fixed)
    requires
        size.raw > 0,
        fixed::near(x.raw as int, y.raw as int, size.raw as int),
    ensures
        -0x8000_0000 <= x.div(size).floor() < 0x8000_0000,
        fixed::near(x.div(size).floor() as int, y.div(size).floor() as int, 1),
{
    let p = lemma_quotient_of(x, size);
    let q = lemma_quotient_of(y, size);
    if x.raw <= y.raw {
        lemma_quotients_close(x.raw as int, y.raw as int, size.raw as int, p, q);
    } else {
        lemma_quotients_close(y.raw as int, x.raw as int, size.raw as int, q, p);
    }
}

/// Points that are at most the edge length of a cell apart along every axis lie in cells that
/// touch: the cell of one is in the block around that of the other.
pub proof fn lemma_close_points_share_a_block(p: Vector<Fixed>, q: Vector<Fixed>, size: Fixed)
    requires
        size.raw > 0,
        within(p, q, size),
    ensures
        exists|k: usize| k < BLOCK && cell_of(q, size) == #[trigger] cell_of(p, size).spec_neighbour(k),
{
    lemma_cell_coordinates_close(p.x, q.x, size);
    lemma_cell_coordinates_close(p.y, q.y, size);
    lemma_cell_coordinates_close(p.z, q.z, size);
    let a = cell_of(p, size);
    let b = cell_of(q, size);
    let (dx, dy, dz) = (b.x - a.x + 1, b.y - a.y + 1, b.z - a.z + 1);
    let k = (9 * dx + 3 * dy + dz) as usize;
    assert(k / 9 == dx && (k / 3) % 3 == dy && k % 3 == dz);
    assert(a.spec_neighbour(k) == b);
}

/// No cell of a point is at the end of the range of cells.
pub proof fn lemma_cells_have_room(p: Vector<Fixed>, size: Fixed)
    requires
        size.raw > 0,
    ensures
        !cell_of(p, size).at_limit(),
{
    lemma_cell_coordinates_close(p.x, p.x, size);
    lemma_cell_coordinates_close(p.y, p.y, size);
    lemma_cell_coordinates_close(p.z, p.z, size);
}

/// Looking around the cell of a point finds every item that lies at most the edge length of a cell
/// away from it along every axis.
pub proof fn lemma_close_items_are_found(
    entries: Seq<Placed>,
    p: Vector<Fixed>,
    q: Vector<Fixed>,
    size: Fixed,
    i: int,
)
    requires
        size.raw > 0,
        within(p, q, size),
        0 <= i < entries.len(),
        entries[i].cell == cell_of(q, size),
    ensures
        around(entries, cell_of(p, size)).contains(entries[i].item),
{
    let center = cell_of(p, size);
    let item = entries[i].item;
    lemma_close_points_share_a_block(p, q, size);
    let k = choose|k: usize| k < BLOCK && cell_of(q, size) == #[trigger] center.spec_neighbour(k);
    lemma_around_is_complete(entries, center, item);
    assert(entries[i] == (Placed { cell: center.spec_neighbour(k), item }));
}

} // verus!
