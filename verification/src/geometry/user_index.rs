//! A search index over boxes with the caller's own numbers.
//!
//! Changes only mark the index as stale; the tree over the boxes is built again at the next
//! search. A search leaves out whole branches whose bounds do not meet the box in question.
use vstd::prelude::*;
use crate::geometry::aabb;
use crate::geometry::aabb::Aabb;
use crate::scalar::Real;
use crate::sequences;

verus! {

/// The largest number of boxes in a leaf.
pub const MAX_CHILDREN: usize = 8;

/// A box in the index.
#[derive(Clone, Copy, Debug)]
pub struct Entry<R> {
    /// The caller's number.
    pub id: u64,
    /// The box.
    pub bounds: Aabb<R>,
}

/// Some boxes with the bounds of all of them.
#[derive(Clone, Debug)]
struct Leaf<R> {
    bounds: Aabb<R>,
    entries: Vec<Entry<R>>,
}

/// The leaves with the bounds of all of them.
#[derive(Clone, Debug)]
struct Root<R> {
    bounds: Aabb<R>,
    leaves: Vec<Leaf<R>>,
}

/// A search index over boxes by number. A number names at most one box, and zero names none.
#[derive(Clone, Debug)]
pub struct GenericAabbIndex<R> {
    entries: Vec<Entry<R>>,
    root: Option<Root<R>>,
    dirty: bool,
}

/// The bounds of the first `n` boxes, of which there is at least one.
pub open spec fn entries_bounds<R: Real>(s: Seq<Entry<R>>, n: nat) -> Aabb<R>
    decreases n,
{
    if n <= 1 {
        s[0].bounds
    } else {
        entries_bounds(s, (n - 1) as nat).union(s[n - 1].bounds)
    }
}

/// Whether one box comes before another along an axis: by the middle, and by the number where
/// the middles are the same.
pub open spec fn ordered<R: Real>(a: Entry<R>, b: Entry<R>, axis: usize) -> bool {
    let ca = a.bounds.center_axis(axis);
    let cb = b.bounds.center_axis(axis);
    if !cb.total_le(ca) {
        true
    } else if !ca.total_le(cb) {
        false
    } else {
        a.id <= b.id
    }
}

/// Whether boxes are in order along an axis.
pub open spec fn sorted<R: Real>(s: Seq<Entry<R>>, axis: usize) -> bool {
    forall|i: int, j: int| 0 <= i < j < s.len() ==> ordered(#[trigger] s[i], #[trigger] s[j], axis)
}

/// Whether `t` is how the index arranges `s`: as it is if it fits in a leaf, else in order along
/// the axis along which the boxes are spread furthest.
pub open spec fn arranged<R: Real>(s: Seq<Entry<R>>, t: Seq<Entry<R>>) -> bool {
    if s.len() <= MAX_CHILDREN {
        t == s
    } else {
        t.to_multiset() == s.to_multiset() && sorted(
            t,
            entries_bounds(s, s.len()).longest_axis(),
        )
    }
}

/// No two boxes have one number, and none has the number zero.
pub open spec fn ids_distinct<R>(s: Seq<Entry<R>>) -> bool {
    &&& forall|i: int| 0 <= i < s.len() ==> (#[trigger] s[i]).id != 0
    &&& forall|i: int, j: int|
        0 <= i < j < s.len() ==> (#[trigger] s[i]).id != (#[trigger] s[j]).id
}

/// Whether some box has the number.
pub open spec fn has_id<R>(s: Seq<Entry<R>>, id: u64) -> bool {
    exists|i: int| 0 <= i < s.len() && (#[trigger] s[i]).id == id
}

/// The boxes that meet the one in question.
pub open spec fn meets<R: Real>(q: Aabb<R>) -> spec_fn(Entry<R>) -> bool {
    |e: Entry<R>| e.bounds.intersects(q)
}

/// The numbers of the boxes that meet the one in question, in their order.
pub open spec fn hits<R: Real>(s: Seq<Entry<R>>, q: Aabb<R>) -> Seq<u64> {
    s.filter(meets(q)).map_values(|e: Entry<R>| e.id)
}

/// `out` with its beginning replaced by as much of `found` as fits.
pub open spec fn overwritten(out: Seq<u64>, found: Seq<u64>) -> Seq<u64> {
    Seq::new(
        out.len(),
        |i: int|
            if i < found.len() {
                found[i]
            } else {
                out[i]
            },
    )
}

spec fn leaf_ok<R: Real>(l: Leaf<R>) -> bool {
    l.entries@.len() > 0 && l.bounds == entries_bounds(l.entries@, l.entries@.len())
}

spec fn leaves_bounds<R: Real>(s: Seq<Leaf<R>>, n: nat) -> Aabb<R>
    decreases n,
{
    if n <= 1 {
        s[0].bounds
    } else {
        leaves_bounds(s, (n - 1) as nat).union(s[n - 1].bounds)
    }
}

spec fn leaves_entries<R>(s: Seq<Leaf<R>>, n: nat) -> Seq<Entry<R>>
    decreases n,
{
    if n == 0 {
        Seq::empty()
    } else {
        leaves_entries(s, (n - 1) as nat) + s[n - 1].entries@
    }
}

/// The tree holds exactly the entries, in their order.
spec fn root_ok<R: Real>(root: Root<R>, entries: Seq<Entry<R>>) -> bool {
    &&& root.leaves@.len() > 0
    &&& forall|i: int| 0 <= i < root.leaves@.len() ==> leaf_ok(#[trigger] root.leaves@[i])
    &&& root.bounds == leaves_bounds(root.leaves@, root.leaves@.len())
    &&& leaves_entries(root.leaves@, root.leaves@.len()) == entries
}

proof fn lemma_ordered_total<R: Real>(a: Entry<R>, b: Entry<R>, axis: usize)
    ensures
        ordered(a, b, axis) || ordered(b, a, axis),
{
    R::law_total_le_total(a.bounds.center_axis(axis), b.bounds.center_axis(axis));
}

proof fn lemma_ordered_transitive<R: Real>(a: Entry<R>, b: Entry<R>, c: Entry<R>, axis: usize)
    requires
        ordered(a, b, axis),
        ordered(b, c, axis),
    ensures
        ordered(a, c, axis),
{
    let ca = a.bounds.center_axis(axis);
    let cb = b.bounds.center_axis(axis);
    let cc = c.bounds.center_axis(axis);
    R::law_total_le_total(ca, cb);
    R::law_total_le_total(cb, cc);
    if cc.total_le(ca) {
        R::law_total_le_transitive(cc, ca, cb);
        R::law_total_le_transitive(cb, cc, ca);
        R::law_total_le_transitive(ca, cb, cc);
    }
}

fn is_ordered<R: Real>(a: Entry<R>, b: Entry<R>, axis: usize) -> (r: bool)
    ensures
        r == ordered(a, b, axis),
{
    let ca = a.bounds.center_axis(axis);
    let cb = b.bounds.center_axis(axis);
    if !cb.total_le(ca) {
        true
    } else if !ca.total_le(cb) {
        false
    } else {
        a.id <= b.id
    }
}

/// Everything in `s` comes before everything in `t`.
spec fn all_before<R: Real>(s: Seq<Entry<R>>, t: Seq<Entry<R>>, axis: usize) -> bool {
    forall|i: int, j: int|
        0 <= i < s.len() && 0 <= j < t.len() ==> ordered(
            #[trigger] s[i],
            #[trigger] t[j],
            axis,
        )
}

proof fn lemma_push_multiset<A>(s: Seq<A>, x: A)
    ensures
        s.push(x).to_multiset() == s.to_multiset().insert(x),
{
    broadcast use vstd::seq_lib::group_to_multiset_ensures;

}

/// Puts two sorted lists together into one.
fn merge<R: Real>(left: &Vec<Entry<R>>, right: &Vec<Entry<R>>, axis: usize) -> (out: Vec<Entry<R>>)
    requires
        sorted(left@, axis),
        sorted(right@, axis),
    ensures
        sorted(out@, axis),
        out@.to_multiset() == left@.to_multiset().add(right@.to_multiset()),
{
    let mut out: Vec<Entry<R>> = Vec::new();
    let mut i: usize = 0;
    let mut j: usize = 0;
    proof {
        broadcast use vstd::seq_lib::group_to_multiset_ensures;

        assert(out@ =~= Seq::<Entry<R>>::empty());
        assert(left@.take(0) =~= Seq::<Entry<R>>::empty());
        assert(right@.take(0) =~= Seq::<Entry<R>>::empty());
        assert(out@.to_multiset() =~= left@.take(0).to_multiset().add(
            right@.take(0).to_multiset(),
        ));
    }
    while i < left.len() || j < right.len()
        invariant
            i <= left@.len(),
            j <= right@.len(),
            sorted(left@, axis),
            sorted(right@, axis),
            sorted(out@, axis),
            all_before(out@, left@.skip(i as int), axis),
            all_before(out@, right@.skip(j as int), axis),
            out@.to_multiset() == left@.take(i as int).to_multiset().add(
                right@.take(j as int).to_multiset(),
            ),
        decreases left@.len() - i + right@.len() - j,
    {
        let ghost before = out@;
        let ghost ls = left@.skip(i as int);
        let ghost rs = right@.skip(j as int);
        let from_left = if i >= left.len() {
            false
        } else if j >= right.len() {
            true
        } else {
            is_ordered(left[i], right[j], axis)
        };
        if from_left {
            let x = left[i];
            out.push(x);
            proof {
                assert(ls[0] == x);
                assert(left@.take(i + 1) =~= left@.take(i as int).push(x));
                lemma_push_multiset(before, x);
                lemma_push_multiset(left@.take(i as int), x);
                assert(out@.to_multiset() =~= left@.take(i + 1).to_multiset().add(
                    right@.take(j as int).to_multiset(),
                ));
                let ls2 = left@.skip(i + 1);
                assert forall|a: int, b: int| 0 <= a < out@.len() && 0 <= b < ls2.len() implies
                    ordered(#[trigger] out@[a], #[trigger] ls2[b], axis) by {
                    assert(ls2[b] == ls[b + 1]);
                    assert(left@[i as int] == x && left@[i + 1 + b] == ls2[b]);
                }
                assert forall|a: int, b: int| 0 <= a < out@.len() && 0 <= b < rs.len() implies
                    ordered(#[trigger] out@[a], #[trigger] rs[b], axis) by {
                    if a == before.len() {
                        assert(right@[j + b] == rs[b]);
                        assert(rs[0] == right@[j as int]);
                        if b > 0 {
                            lemma_ordered_transitive(x, right@[j as int], rs[b], axis);
                        }
                    }
                }
            }
            i = i + 1;
        } else {
            let x = right[j];
            out.push(x);
            proof {
                assert(rs[0] == x);
                assert(right@.take(j + 1) =~= right@.take(j as int).push(x));
                lemma_push_multiset(before, x);
                lemma_push_multiset(right@.take(j as int), x);
                assert(out@.to_multiset() =~= left@.take(i as int).to_multiset().add(
                    right@.take(j + 1).to_multiset(),
                ));
                let rs2 = right@.skip(j + 1);
                assert forall|a: int, b: int| 0 <= a < out@.len() && 0 <= b < rs2.len() implies
                    ordered(#[trigger] out@[a], #[trigger] rs2[b], axis) by {
                    assert(rs2[b] == rs[b + 1]);
                    assert(right@[j as int] == x && right@[j + 1 + b] == rs2[b]);
                }
                assert forall|a: int, b: int| 0 <= a < out@.len() && 0 <= b < ls.len() implies
                    ordered(#[trigger] out@[a], #[trigger] ls[b], axis) by {
                    if a == before.len() {
                        assert(left@[i + b] == ls[b]);
                        assert(ls[0] == left@[i as int]);
                        lemma_ordered_total(x, left@[i as int], axis);
                        if b > 0 {
                            lemma_ordered_transitive(x, left@[i as int], ls[b], axis);
                        }
                    }
                }
            }
            j = j + 1;
        }
    }
    assert(left@.take(i as int) =~= left@);
    assert(right@.take(j as int) =~= right@);
    out
}

fn sort_range<R: Real>(s: &Vec<Entry<R>>, lo: usize, hi: usize, axis: usize) -> (out: Vec<
    Entry<R>,
>)
    requires
        lo <= hi <= s@.len(),
    ensures
        sorted(out@, axis),
        out@.to_multiset() == s@.subrange(lo as int, hi as int).to_multiset(),
    decreases hi - lo,
{
    if hi - lo <= 1 {
        let mut out: Vec<Entry<R>> = Vec::new();
        if lo < hi {
            out.push(s[lo]);
        }
        assert(out@ =~= s@.subrange(lo as int, hi as int));
        return out;
    }
    let mid: usize = lo + (hi - lo) / 2;
    let left = sort_range(s, lo, mid, axis);
    let right = sort_range(s, mid, hi, axis);
    proof {
        let a = s@.subrange(lo as int, mid as int);
        let b = s@.subrange(mid as int, hi as int);
        assert(s@.subrange(lo as int, hi as int) =~= a + b);
        vstd::seq_lib::lemma_multiset_commutative(a, b);
    }
    merge(&left, &right, axis)
}

fn bounds_of<R: Real>(s: &Vec<Entry<R>>) -> (b: Aabb<R>)
    requires
        s@.len() > 0,
    ensures
        b == entries_bounds(s@, s@.len()),
{
    let mut b = s[0].bounds;
    let n: usize = s.len();
    for i in 1..n
        invariant
            n == s@.len(),
            i >= 1,
            b == entries_bounds(s@, i as nat),
    {
        b = b.union(s[i].bounds);
    }
    b
}

fn make_leaf<R: Real>(s: &Vec<Entry<R>>, lo: usize, hi: usize) -> (l: Leaf<R>)
    requires
        lo < hi <= s@.len(),
    ensures
        leaf_ok(l),
        l.entries@ == s@.subrange(lo as int, hi as int),
{
    let mut entries: Vec<Entry<R>> = Vec::new();
    for i in lo..hi
        invariant
            lo <= i <= hi <= s@.len(),
            entries@ == s@.subrange(lo as int, i as int),
    {
        entries.push(s[i]);
        assert(s@.subrange(lo as int, i + 1) =~= s@.subrange(lo as int, i as int).push(
            s@[i as int],
        ));
    }
    let bounds = bounds_of(&entries);
    Leaf { bounds, entries }
}

proof fn lemma_leaves_pushed<R: Real>(s: Seq<Leaf<R>>, l: Leaf<R>, n: nat)
    requires
        n <= s.len(),
    ensures
        leaves_entries(s.push(l), n) == leaves_entries(s, n),
        0 < n ==> leaves_bounds(s.push(l), n) == leaves_bounds(s, n),
    decreases n,
{
    if n > 0 {
        lemma_leaves_pushed(s, l, (n - 1) as nat);
    }
}

/// Builds the tree over entries that are already arranged.
fn build<R: Real>(entries: &Vec<Entry<R>>) -> (root: Root<R>)
    requires
        entries@.len() > 0,
    ensures
        root_ok(root, entries@),
{
    let n: usize = entries.len();
    let first: usize = if n < MAX_CHILDREN {
        n
    } else {
        MAX_CHILDREN
    };
    let leaf = make_leaf(entries, 0, first);
    let mut bounds = leaf.bounds;
    let mut leaves: Vec<Leaf<R>> = Vec::new();
    leaves.push(leaf);
    let mut done: usize = first;
    proof {
        reveal_with_fuel(leaves_entries, 2);
        assert(leaves_entries(leaves@, 1) =~= entries@.take(done as int));
    }
    while done < n
        invariant
            n == entries@.len(),
            done <= n,
            leaves@.len() > 0,
            forall|i: int| 0 <= i < leaves@.len() ==> leaf_ok(#[trigger] leaves@[i]),
            bounds == leaves_bounds(leaves@, leaves@.len()),
            leaves_entries(leaves@, leaves@.len()) == entries@.take(done as int),
        decreases n - done,
    {
        let next: usize = if n - done < MAX_CHILDREN {
            n
        } else {
            done + MAX_CHILDREN
        };
        let leaf = make_leaf(entries, done, next);
        bounds = bounds.union(leaf.bounds);
        proof {
            lemma_leaves_pushed(leaves@, leaf, leaves@.len());
            assert(entries@.take(next as int) =~= entries@.take(done as int) + leaf.entries@);
        }
        leaves.push(leaf);
        done = next;
    }
    assert(entries@.take(n as int) =~= entries@);
    Root { bounds, leaves }
}

proof fn lemma_entry_in_bounds<R: Real>(s: Seq<Entry<R>>, n: nat, i: int, q: Aabb<R>)
    requires
        0 <= i < n <= s.len(),
        s[i].bounds.intersects(q),
    ensures
        entries_bounds(s, n).intersects(q),
    decreases n,
{
    if n > 1 {
        if i < n - 1 {
            lemma_entry_in_bounds(s, (n - 1) as nat, i, q);
        }
        aabb::lemma_union_intersects(entries_bounds(s, (n - 1) as nat), s[n - 1].bounds, q);
    }
}

proof fn lemma_leaf_in_bounds<R: Real>(s: Seq<Leaf<R>>, n: nat, i: int, q: Aabb<R>)
    requires
        0 <= i < n <= s.len(),
        s[i].bounds.intersects(q),
    ensures
        leaves_bounds(s, n).intersects(q),
    decreases n,
{
    if n > 1 {
        if i < n - 1 {
            lemma_leaf_in_bounds(s, (n - 1) as nat, i, q);
        }
        aabb::lemma_union_intersects(leaves_bounds(s, (n - 1) as nat), s[n - 1].bounds, q);
    }
}

proof fn lemma_no_hits<R: Real>(s: Seq<Entry<R>>, q: Aabb<R>)
    requires
        forall|i: int| 0 <= i < s.len() ==> !(#[trigger] s[i]).bounds.intersects(q),
    ensures
        hits(s, q) == Seq::<u64>::empty(),
{
    if s.filter(meets(q)).len() > 0 {
        sequences::lemma_filter_from(s, meets(q), 0);
    }
    assert(hits(s, q) =~= Seq::<u64>::empty());
}

proof fn lemma_pruned_leaf<R: Real>(l: Leaf<R>, q: Aabb<R>)
    requires
        leaf_ok(l),
        !l.bounds.intersects(q),
    ensures
        hits(l.entries@, q) == Seq::<u64>::empty(),
{
    assert forall|i: int| 0 <= i < l.entries@.len() implies !(
    #[trigger] l.entries@[i]).bounds.intersects(q) by {
        if l.entries@[i].bounds.intersects(q) {
            lemma_entry_in_bounds(l.entries@, l.entries@.len(), i, q);
        }
    }
    lemma_no_hits(l.entries@, q);
}

proof fn lemma_hits_joined<R: Real>(a: Seq<Entry<R>>, b: Seq<Entry<R>>, q: Aabb<R>)
    ensures
        hits(a + b, q) == hits(a, q) + hits(b, q),
{
    Seq::filter_distributes_over_add(a, b, meets(q));
    assert(hits(a + b, q) =~= hits(a, q) + hits(b, q));
}

proof fn lemma_pruned_root<R: Real>(root: Root<R>, q: Aabb<R>, n: nat)
    requires
        n <= root.leaves@.len(),
        forall|i: int| 0 <= i < root.leaves@.len() ==> leaf_ok(#[trigger] root.leaves@[i]),
        root.bounds == leaves_bounds(root.leaves@, root.leaves@.len()),
        !root.bounds.intersects(q),
    ensures
        hits(leaves_entries(root.leaves@, n), q) == Seq::<u64>::empty(),
    decreases n,
{
    if n == 0 {
        lemma_no_hits(leaves_entries(root.leaves@, 0), q);
    } else {
        lemma_pruned_root(root, q, (n - 1) as nat);
        let l = root.leaves@[n - 1];
        if l.bounds.intersects(q) {
            lemma_leaf_in_bounds(root.leaves@, root.leaves@.len(), n - 1, q);
        }
        assert(leaf_ok(l));
        lemma_pruned_leaf(l, q);
        lemma_hits_joined(leaves_entries(root.leaves@, (n - 1) as nat), l.entries@, q);
    }
}

proof fn lemma_hits_bounded<R: Real>(s: Seq<Entry<R>>, q: Aabb<R>)
    ensures
        hits(s, q).len() <= s.len(),
{
    s.lemma_filter_len(meets(q));
}

proof fn lemma_hits_next<R: Real>(s: Seq<Entry<R>>, q: Aabb<R>, k: int)
    requires
        0 <= k < s.len(),
    ensures
        hits(s.take(k + 1), q) == (if s[k].bounds.intersects(q) {
            hits(s.take(k), q).push(s[k].id)
        } else {
            hits(s.take(k), q)
        }),
{
    sequences::lemma_filter_next(s, k, meets(q));
    if s[k].bounds.intersects(q) {
        assert(hits(s.take(k + 1), q) =~= hits(s.take(k), q).push(s[k].id));
    }
}

/// Adds the numbers of the boxes of a leaf that meet the one in question, as far as there is room.
fn search_leaf<R: Real>(leaf: &Leaf<R>, q: Aabb<R>, room: usize, found: &mut Vec<u64>)
    requires
        leaf_ok(*leaf),
        old(found)@.len() <= room,
    ensures
        final(found)@ == (old(found)@ + hits(leaf.entries@, q)).take(
            if old(found)@.len() + hits(leaf.entries@, q).len() <= room {
                (old(found)@.len() + hits(leaf.entries@, q).len()) as int
            } else {
                room as int
            },
        ),
{
    let ghost all = old(found)@ + hits(leaf.entries@, q);
    if !leaf.bounds.intersects(q) {
        proof {
            lemma_pruned_leaf(*leaf, q);
            assert(all.take(all.len() as int) =~= found@);
        }
        return;
    }
    let n: usize = leaf.entries.len();
    proof {
        sequences::lemma_filter_none(leaf.entries@, meets(q));
        assert(hits(leaf.entries@.take(0), q) =~= Seq::<u64>::empty());
        assert(found@ =~= old(found)@ + hits(leaf.entries@.take(0), q));
    }
    for i in 0..n
        invariant
            n == leaf.entries@.len(),
            found@.len() <= room,
            found@ == old(found)@ + hits(leaf.entries@.take(i as int), q),
            all == old(found)@ + hits(leaf.entries@, q),
    {
        if found.len() >= room {
            proof {
                let rest = leaf.entries@.skip(i as int);
                assert(leaf.entries@.take(i as int) + rest =~= leaf.entries@);
                lemma_hits_joined(leaf.entries@.take(i as int), rest, q);
                assert(all.take(room as int) =~= found@);
            }
            return;
        }
        let e = leaf.entries[i];
        proof {
            lemma_hits_next(leaf.entries@, q, i as int);
        }
        let ghost before = hits(leaf.entries@.take(i as int), q);
        if e.bounds.intersects(q) {
            found.push(e.id);
            assert(found@ =~= old(found)@ + before.push(e.id));
        }
    }
    assert(leaf.entries@.take(n as int) =~= leaf.entries@);
    assert(all.take(all.len() as int) =~= found@);
}

/// The beginning of a sequence, at most `room` long.
pub open spec fn first_of(s: Seq<u64>, room: nat) -> Seq<u64> {
    if s.len() <= room {
        s
    } else {
        s.take(room as int)
    }
}

/// The numbers of the first boxes that meet the one in question, at most `room` of them.
fn search<R: Real>(root: &Root<R>, q: Aabb<R>, room: usize, entries: Ghost<Seq<Entry<R>>>) -> (
    found: Vec<u64>)
    requires
        root_ok(*root, entries@),
    ensures
        found@ == first_of(hits(entries@, q), room as nat),
{
    let mut found: Vec<u64> = Vec::new();
    if !root.bounds.intersects(q) {
        proof {
            lemma_pruned_root(*root, q, root.leaves@.len());
        }
        return found;
    }
    let n: usize = root.leaves.len();
    proof {
        lemma_no_hits(leaves_entries(root.leaves@, 0), q);
    }
    for i in 0..n
        invariant
            n == root.leaves@.len(),
            root_ok(*root, entries@),
            found@.len() <= room,
            found@ == first_of(hits(leaves_entries(root.leaves@, i as nat), q), room as nat),
    {
        let ghost seen = hits(leaves_entries(root.leaves@, i as nat), q);
        let ghost before = found@;
        assert(leaf_ok(root.leaves@[i as int]));
        let ghost more = hits(root.leaves@[i as int].entries@, q);
        search_leaf(&root.leaves[i], q, room, &mut found);
        proof {
            lemma_hits_joined(
                leaves_entries(root.leaves@, i as nat),
                root.leaves@[i as int].entries@,
                q,
            );
            assert(found@ =~= first_of(seen + more, room as nat));
        }
    }
    found
}

impl<R: Real> View for GenericAabbIndex<R> {
    type V = Seq<Entry<R>>;

    closed spec fn view(&self) -> Seq<Entry<R>> {
        self.entries@
    }
}

impl<R: Real> GenericAabbIndex<R> {
    /// Numbers are distinct, and the tree holds the boxes unless the index is stale.
    pub closed spec fn wf(&self) -> bool {
        &&& ids_distinct(self.entries@)
        &&& !self.dirty ==> match self.root {
            Some(root) => root_ok(root, self.entries@),
            None => self.entries@.len() == 0,
        }
    }

    /// Whether the tree has to be built again.
    pub closed spec fn stale(&self) -> bool {
        self.dirty
    }

    /// An index without boxes.
    pub fn new() -> (index: GenericAabbIndex<R>)
        ensures
            index.wf(),
            !index.stale(),
            index@ == Seq::<Entry<R>>::empty(),
    {
        GenericAabbIndex { entries: Vec::new(), root: None, dirty: false }
    }

    /// Removes every box.
    pub fn clear(&mut self)
        ensures
            final(self).wf(),
            !final(self).stale(),
            final(self)@ == Seq::<Entry<R>>::empty(),
    {
        self.entries.clear();
        self.root = None;
        self.dirty = false;
    }

    fn position(&self, id: u64) -> (r: Option<usize>)
        ensures
            match r {
                Some(i) => i < self@.len() && self@[i as int].id == id,
                None => !has_id(self@, id),
            },
    {
        let n: usize = self.entries.len();
        for i in 0..n
            invariant
                n == self.entries@.len(),
                forall|k: int| 0 <= k < i ==> (#[trigger] self.entries@[k]).id != id,
        {
            if self.entries[i].id == id {
                return Some(i);
            }
        }
        None
    }

    /// Adds a box, or replaces the one that has the number. Refuses the number zero.
    pub fn insert(&mut self, id: u64, bounds: Aabb<R>) -> (inserted: bool)
        requires
            old(self).wf(),
        ensures
            final(self).wf(),
            inserted == (id != 0),
            !inserted ==> *final(self) == *old(self),
            inserted ==> final(self).stale(),
            inserted && !has_id(old(self)@, id) ==> final(self)@ == old(self)@.push(
                Entry { id, bounds },
            ),
            inserted && has_id(old(self)@, id) ==> forall|i: int|
                0 <= i < old(self)@.len() && (#[trigger] old(self)@[i]).id == id ==> final(self)@
                    == old(self)@.update(i, Entry { id, bounds }),
    {
        if id == 0 {
            return false;
        }
        match self.position(id) {
            Some(i) => {
                proof {
                    assert forall|k: int| 0 <= k < old(self)@.len() && (#[trigger] old(
                        self,
                    )@[k]).id == id implies k == i by {
                        assert(old(self)@[i as int].id == id);
                        if k < i {
                            assert(old(self)@[k].id != old(self)@[i as int].id);
                        } else if k > i {
                            assert(old(self)@[i as int].id != old(self)@[k].id);
                        }
                    }
                }
                self.entries[i] = Entry { id, bounds };
            },
            None => {
                self.entries.push(Entry { id, bounds });
            },
        }
        self.dirty = true;
        true
    }

    /// Removes the box that has the number; the last one takes its place. Tells whether it was
    /// there.
    pub fn remove(&mut self, id: u64) -> (removed: bool)
        requires
            old(self).wf(),
        ensures
            final(self).wf(),
            removed == has_id(old(self)@, id),
            !removed ==> *final(self) == *old(self),
            removed ==> final(self).stale(),
            removed ==> forall|i: int|
                0 <= i < old(self)@.len() && (#[trigger] old(self)@[i]).id == id ==> final(self)@
                    == old(self)@.update(i, old(self)@.last()).drop_last(),
    {
        match self.position(id) {
            Some(i) => {
                proof {
                    assert(has_id(old(self)@, id));
                    assert forall|k: int| 0 <= k < old(self)@.len() && (#[trigger] old(
                        self,
                    )@[k]).id == id implies k == i by {
                        assert(old(self)@[i as int].id == id);
                        if k < i {
                            assert(old(self)@[k].id != old(self)@[i as int].id);
                        } else if k > i {
                            assert(old(self)@[i as int].id != old(self)@[k].id);
                        }
                    }
                }
                self.entries.swap_remove(i);
                self.dirty = true;
                true
            },
            None => false,
        }
    }

    /// The number of boxes.
    pub fn len(&self) -> (n: usize)
        ensures
            n == self@.len(),
    {
        self.entries.len()
    }

    /// Whether there is no box.
    pub fn is_empty(&self) -> (b: bool)
        ensures
            b == (self@.len() == 0),
    {
        self.entries.len() == 0
    }

    /// Whether some box has the number.
    pub fn contains(&self, id: u64) -> (b: bool)
        ensures
            b == has_id(self@, id),
    {
        match self.position(id) {
            Some(i) => {
                assert(self@[i as int].id == id);
                true
            },
            None => false,
        }
    }

    /// Builds the tree again if the index is stale, which arranges the boxes anew.
    pub fn rebuild(&mut self)
        requires
            old(self).wf(),
        ensures
            final(self).wf(),
            !final(self).stale(),
            old(self).stale() ==> arranged(old(self)@, final(self)@),
            !old(self).stale() ==> final(self)@ == old(self)@,
    {
        if !self.dirty {
            return;
        }
        if self.entries.len() == 0 {
            self.root = None;
            self.dirty = false;
            return;
        }
        let n: usize = self.entries.len();
        if n > MAX_CHILDREN {
            let axis: usize = bounds_of(&self.entries).longest_axis();
            let arranged_entries = sort_range(&self.entries, 0, n, axis);
            proof {
                assert(self.entries@.subrange(0, n as int) =~= self.entries@);
                lemma_arranged_ids(self.entries@, arranged_entries@);
                broadcast use vstd::seq_lib::group_to_multiset_ensures;

                assert(arranged_entries@.len() == arranged_entries@.to_multiset().len());
            }
            self.entries = arranged_entries;
        }
        let root = build(&self.entries);
        self.root = Some(root);
        self.dirty = false;
    }

    /// How many boxes meet the one in question.
    pub fn query_count(&mut self, bounds: Aabb<R>) -> (count: u32)
        requires
            old(self).wf(),
            hits(old(self)@, bounds).len() <= u32::MAX,
        ensures
            final(self).wf(),
            !final(self).stale(),
            old(self).stale() ==> arranged(old(self)@, final(self)@),
            !old(self).stale() ==> final(self)@ == old(self)@,
            count == hits(final(self)@, bounds).len(),
            count == hits(old(self)@, bounds).len(),
    {
        self.rebuild();
        proof {
            lemma_arranged_hits(old(self)@, self@, bounds);
            lemma_hits_bounded(old(self)@, bounds);
            lemma_hits_bounded(self@, bounds);
        }
        match &self.root {
            Some(root) => {
                let found = search(root, bounds, usize::MAX, Ghost(self.entries@));
                found.len() as u32
            },
            None => 0,
        }
    }

    /// Writes the numbers of the boxes that meet the one in question to the beginning of
    /// `out_ids`, as many as fit, and returns how many those are. They come in the order in which
    /// the index arranges the boxes.
    pub fn query(&mut self, bounds: Aabb<R>, out_ids: &mut [u64]) -> (written: u32)
        requires
            old(self).wf(),
            hits(old(self)@, bounds).len() <= u32::MAX || old(out_ids)@.len() <= u32::MAX,
        ensures
            final(self).wf(),
            !final(self).stale(),
            old(self).stale() ==> arranged(old(self)@, final(self)@),
            !old(self).stale() ==> final(self)@ == old(self)@,
            final(out_ids)@ == overwritten(old(out_ids)@, hits(final(self)@, bounds)),
            written == first_of(hits(final(self)@, bounds), old(out_ids)@.len()).len(),
    {
        self.rebuild();
        proof {
            lemma_arranged_hits(old(self)@, self@, bounds);
            lemma_hits_bounded(old(self)@, bounds);
            lemma_hits_bounded(self@, bounds);
        }
        let ghost before = out_ids@;
        match &self.root {
            Some(root) => {
                let room: usize = out_ids.len();
                let found = search(root, bounds, room, Ghost(self.entries@));
                let n: usize = found.len();
                for i in 0..n
                    invariant
                        n == found@.len(),
                        n <= room,
                        room == out_ids@.len(),
                        room == before.len(),
                        forall|k: int| 0 <= k < i ==> #[trigger] out_ids@[k] == found@[k],
                        forall|k: int| i <= k < room ==> #[trigger] out_ids@[k] == before[k],
                {
                    out_ids[i] = found[i];
                }
                assert(out_ids@ =~= overwritten(before, hits(self@, bounds)));
                n as u32
            },
            None => {
                assert(out_ids@ =~= overwritten(before, hits(self@, bounds)));
                0
            },
        }
    }
}

impl<R: Real> Default for GenericAabbIndex<R> {
    fn default() -> (index: GenericAabbIndex<R>)
        ensures
            index.wf(),
            !index.stale(),
            index@ == Seq::<Entry<R>>::empty(),
    {
        GenericAabbIndex::new()
    }
}

proof fn lemma_arranged_ids<R: Real>(s: Seq<Entry<R>>, t: Seq<Entry<R>>)
    requires
        ids_distinct(s),
        t.to_multiset() == s.to_multiset(),
    ensures
        ids_distinct(t),
{
    broadcast use vstd::seq_lib::group_to_multiset_ensures;

    assert(s.no_duplicates());
    s.lemma_multiset_has_no_duplicates();
    t.lemma_multiset_has_no_duplicates_conv();
    assert forall|i: int| 0 <= i < t.len() implies (#[trigger] t[i]).id != 0 by {
        assert(t.to_multiset().contains(t[i]));
        assert(s.contains(t[i]));
    }
    assert forall|i: int, j: int| 0 <= i < j < t.len() implies (#[trigger] t[i]).id != (
    #[trigger] t[j]).id by {
        assert(t.to_multiset().contains(t[i]));
        assert(t.to_multiset().contains(t[j]));
        assert(s.contains(t[i]) && s.contains(t[j]));
        let a = choose|a: int| 0 <= a < s.len() && s[a] == t[i];
        let b = choose|b: int| 0 <= b < s.len() && s[b] == t[j];
        assert(t[i] != t[j]);
        if a < b {
            assert(s[a].id != s[b].id);
        } else {
            assert(s[b].id != s[a].id);
        }
    }
}

proof fn lemma_filter_multiset<A>(s: Seq<A>, keep: spec_fn(A) -> bool)
    ensures
        s.filter(keep).to_multiset() == s.to_multiset().filter(keep),
    decreases s.len(),
{
    broadcast use vstd::seq_lib::group_to_multiset_ensures;

    reveal(Seq::filter);
    if s.len() == 0 {
        assert(s.filter(keep).to_multiset() =~= s.to_multiset().filter(keep));
    } else {
        let rest = s.drop_last();
        lemma_filter_multiset(rest, keep);
        assert(s =~= rest.push(s.last()));
        lemma_push_multiset(rest, s.last());
        lemma_push_multiset(rest.filter(keep), s.last());
        assert(s.filter(keep).to_multiset() =~= s.to_multiset().filter(keep));
    }
}

proof fn lemma_arranged_hits<R: Real>(s: Seq<Entry<R>>, t: Seq<Entry<R>>, q: Aabb<R>)
    requires
        t == s || arranged(s, t),
    ensures
        hits(t, q).len() == hits(s, q).len(),
        t.len() == s.len(),
{
    broadcast use vstd::seq_lib::group_to_multiset_ensures;

    if t != s {
        lemma_filter_multiset(s, meets(q));
        lemma_filter_multiset(t, meets(q));
        assert(s.filter(meets(q)).to_multiset().len() == s.filter(meets(q)).len());
        assert(t.filter(meets(q)).to_multiset().len() == t.filter(meets(q)).len());
        assert(s.to_multiset().len() == s.len());
        assert(t.to_multiset().len() == t.len());
    }
}

/// There is only one way to arrange boxes with distinct numbers along an axis.
pub proof fn lemma_arrangement_is_unique<R: Real>(
    s: Seq<Entry<R>>,
    t: Seq<Entry<R>>,
    u: Seq<Entry<R>>,
)
    requires
        ids_distinct(s),
        arranged(s, t),
        arranged(s, u),
    ensures
        t == u,
{
    if s.len() > MAX_CHILDREN {
        let axis = entries_bounds(s, s.len()).longest_axis();
        lemma_arranged_ids(s, t);
        lemma_sorted_unique(t, u, axis);
    }
}

proof fn lemma_sorted_unique<R: Real>(t: Seq<Entry<R>>, u: Seq<Entry<R>>, axis: usize)
    requires
        t.to_multiset() == u.to_multiset(),
        ids_distinct(t),
        sorted(t, axis),
        sorted(u, axis),
    ensures
        t == u,
    decreases t.len(),
{
    broadcast use vstd::seq_lib::group_to_multiset_ensures;

    assert(t.len() == u.len()) by {
        assert(t.to_multiset().len() == t.len());
        assert(u.to_multiset().len() == u.len());
    }
    if t.len() == 0 {
        assert(t =~= u);
    } else {
        let x = t.last();
        let y = u.last();
        lemma_arranged_ids(t, u);
        if x != y {
            assert(t.to_multiset().contains(x));
            assert(u.contains(x));
            let a = choose|a: int| 0 <= a < u.len() && u[a] == x;
            assert(ordered(u[a], u[u.len() - 1], axis));
            assert(u.to_multiset().contains(y));
            assert(t.contains(y));
            let b = choose|b: int| 0 <= b < t.len() && t[b] == y;
            assert(ordered(t[b], t[t.len() - 1], axis));
            assert(u[a].id != u[u.len() - 1].id);
            R::law_total_le_total(x.bounds.center_axis(axis), y.bounds.center_axis(axis));
            assert(false);
        }
        let t2 = t.drop_last();
        let u2 = u.drop_last();
        assert(t =~= t2.push(x));
        assert(u =~= u2.push(x));
        lemma_push_multiset(t2, x);
        lemma_push_multiset(u2, x);
        assert(t2.to_multiset() =~= t.to_multiset().remove(x));
        assert(u2.to_multiset() =~= u.to_multiset().remove(x));
        assert forall|i: int, j: int| 0 <= i < j < t2.len() implies (#[trigger] t2[i]).id != (
        #[trigger] t2[j]).id by {
            assert(t[i].id != t[j].id);
        }
        assert forall|i: int, j: int| 0 <= i < j < t2.len() implies ordered(
            #[trigger] t2[i],
            #[trigger] t2[j],
            axis,
        ) by {
            assert(ordered(t[i], t[j], axis));
        }
        assert forall|i: int, j: int| 0 <= i < j < u2.len() implies ordered(
            #[trigger] u2[i],
            #[trigger] u2[j],
            axis,
        ) by {
            assert(ordered(u[i], u[j], axis));
        }
        assert forall|i: int| 0 <= i < t2.len() implies (#[trigger] t2[i]).id != 0 by {
            assert(t[i].id != 0);
        }
        lemma_sorted_unique(t2, u2, axis);
    }
}

/// A search finds a number exactly if the box that has it meets the one in question.
pub proof fn lemma_hits_are_exact<R: Real>(s: Seq<Entry<R>>, q: Aabb<R>, id: u64)
    ensures
        hits(s, q).contains(id) <==> exists|i: int|
            0 <= i < s.len() && (#[trigger] s[i]).id == id && s[i].bounds.intersects(q),
{
    let kept = s.filter(meets(q));
    let found = hits(s, q);
    if found.contains(id) {
        let k = choose|k: int| 0 <= k < found.len() && found[k] == id;
        sequences::lemma_filter_from(s, meets(q), k);
        let i = choose|i: int| 0 <= i < s.len() && s[i] == kept[k];
        assert(s[i].id == id);
    }
    if exists|i: int| 0 <= i < s.len() && (#[trigger] s[i]).id == id && s[i].bounds.intersects(q) {
        let i = choose|i: int|
            0 <= i < s.len() && (#[trigger] s[i]).id == id && s[i].bounds.intersects(q);
        s.lemma_filter_contains(meets(q), i);
        let k = choose|k: int| 0 <= k < kept.len() && kept[k] == s[i];
        assert(found[k] == id);
    }
}

/// In an index no two boxes have one number, and none has the number zero.
pub proof fn lemma_numbers_are_distinct<R: Real>(index: GenericAabbIndex<R>)
    requires
        index.wf(),
    ensures
        ids_distinct(index@),
{
}

proof fn lemma_filtered<A>(s: Seq<A>, pred: spec_fn(A) -> bool)
    requires
        s.no_duplicates(),
    ensures
        s.filter(pred).no_duplicates(),
        forall|i: int| 0 <= i < s.filter(pred).len() ==> s.contains(#[trigger] s.filter(pred)[i]),
    decreases s.len(),
{
    reveal(Seq::filter);
    if s.len() > 0 {
        let before = s.drop_last();
        lemma_filtered(before, pred);
        assert forall|i: int| 0 <= i < s.filter(pred).len() implies s.contains(
            #[trigger] s.filter(pred)[i],
        ) by {
            if i < before.filter(pred).len() {
                assert(before.contains(before.filter(pred)[i]));
                let k = choose|k: int| 0 <= k < before.len() && before[k] == before.filter(pred)[i];
                assert(s[k] == s.filter(pred)[i]);
            } else {
                assert(s[s.len() - 1] == s.filter(pred)[i]);
            }
        }
        assert(!before.contains(s.last()));
    }
}

/// A search finds no number twice, and not zero.
pub proof fn lemma_hits_are_distinct<R: Real>(index: GenericAabbIndex<R>, q: Aabb<R>)
    requires
        index.wf(),
    ensures
        hits(index@, q).no_duplicates(),
        !hits(index@, q).contains(0),
{
    let s = index@;
    let found = s.filter(meets(q));
    lemma_filtered(s, meets(q));
    let ids = hits(s, q);
    assert forall|i: int, j: int| 0 <= i < ids.len() && 0 <= j < ids.len() && i != j implies ids[i]
        != ids[j] by {
        assert(s.contains(found[i]) && s.contains(found[j]));
        assert(found[i] != found[j]);
    }
    assert forall|i: int| 0 <= i < ids.len() implies ids[i] != 0 by {
        assert(s.contains(found[i]));
    }
}

} // verus!
