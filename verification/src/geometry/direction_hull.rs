//! Hulls that are bounded by slabs in given directions.
//!
//! Points are projected onto each direction, which gives a slab between two parallel planes. The
//! corners of the hull are the points in which three of these planes meet and that lie in every
//! slab.
use vstd::prelude::*;
use crate::fixed;
use crate::fixed::{Fixed, UNIT};
use crate::math::Vector;
use crate::scalar::Real;

verus! {

/// A choice of directions.
#[derive(Clone, Copy, Debug, PartialEq, Eq, Structural)]
pub enum KdopPreset {
    /// The three axes.
    K6,
    /// The axes and the four diagonals of a cube.
    K14,
    /// Those and the two diagonals in the plane of the first two axes.
    K18,
    /// Those and the diagonals in the other two planes.
    K26,
}

/// The space between two parallel planes.
#[derive(Clone, Copy, Debug)]
pub struct Slab<R> {
    /// Direction of unit length across the planes.
    pub normal: Vector<R>,
    /// Where the first plane lies along the direction.
    pub min: R,
    /// Where the second plane lies along the direction.
    pub max: R,
}

impl<R: Real> Slab<R> {
    pub open spec fn spec_holds(self, point: Vector<R>) -> bool {
        let projection = self.normal.dot(point);
        self.min.sub(R::decimal(1, 7)).le(projection) && projection.le(
            self.max.add(R::decimal(1, 7)),
        )
    }

    /// Whether a point lies in the slab, up to a small tolerance.
    #[verifier::when_used_as_spec(spec_holds)]
    pub fn holds(self, point: Vector<R>) -> (b: bool)
        ensures
            b == self.spec_holds(point),
    {
        let projection = self.normal.dot(point);
        self.min.sub(R::decimal(1, 7)).le(projection) && projection.le(
            self.max.add(R::decimal(1, 7)),
        )
    }
}

/// A plane by its direction and where it lies along it.
#[derive(Clone, Copy, Debug)]
pub struct Plane<R> {
    /// Direction across the plane.
    pub normal: Vector<R>,
    /// Where the plane lies along the direction.
    pub offset: R,
}

pub open spec fn spec_normalize_direction<R: Real>(direction: Vector<R>) -> Option<Vector<R>> {
    let len = direction.length();
    if R::decimal(1, 9).lt(len) {
        Some(direction.div(len))
    } else {
        None
    }
}

/// A direction with length one, unless it has next to no length.
#[verifier::when_used_as_spec(spec_normalize_direction)]
pub fn normalize_direction<R: Real>(direction: Vector<R>) -> (r: Option<Vector<R>>)
    ensures
        r == spec_normalize_direction(direction),
{
    let len = direction.length();
    if R::decimal(1, 9).lt(len) {
        Some(direction.div(len))
    } else {
        None
    }
}

/// The directions of a choice, before they are given length one.
pub open spec fn preset_axes<R: Real>(preset: KdopPreset) -> Seq<Vector<R>> {
    let o = R::zero();
    let p = R::one();
    let m = R::one().neg();
    let axes = seq![Vector::new(p, o, o), Vector::new(o, p, o), Vector::new(o, o, p)];
    let cube = seq![
        Vector::new(p, p, p),
        Vector::new(p, p, m),
        Vector::new(p, m, p),
        Vector::new(m, p, p),
    ];
    let flat = seq![Vector::new(p, p, o), Vector::new(p, m, o)];
    let upright = seq![
        Vector::new(p, o, p),
        Vector::new(p, o, m),
        Vector::new(o, p, p),
        Vector::new(o, p, m),
    ];
    match preset {
        KdopPreset::K6 => axes,
        KdopPreset::K14 => axes + cube,
        KdopPreset::K18 => axes + cube + flat,
        KdopPreset::K26 => axes + cube + flat + upright,
    }
}

/// The first `n` directions with length one, those without length left out.
pub open spec fn normalized<R: Real>(directions: Seq<Vector<R>>, n: nat) -> Seq<Vector<R>>
    decreases n,
{
    if n == 0 {
        Seq::empty()
    } else {
        let before = normalized(directions, (n - 1) as nat);
        match normalize_direction(directions[n - 1]) {
            Some(d) => before.push(d),
            None => before,
        }
    }
}

/// The directions of a choice with length one.
pub open spec fn preset_directions<R: Real>(preset: KdopPreset) -> Seq<Vector<R>> {
    normalized(preset_axes::<R>(preset), preset_axes::<R>(preset).len())
}

/// The directions of a choice, with length one.
pub fn kdop_directions<R: Real>(preset: KdopPreset) -> (out: Vec<Vector<R>>)
    ensures
        out@ == preset_directions::<R>(preset),
{
    let o = R::zero();
    let p = R::one();
    let m = R::one().neg();
    let mut axes: Vec<Vector<R>> = Vec::new();
    axes.push(Vector::new(p, o, o));
    axes.push(Vector::new(o, p, o));
    axes.push(Vector::new(o, o, p));
    if preset != KdopPreset::K6 {
        axes.push(Vector::new(p, p, p));
        axes.push(Vector::new(p, p, m));
        axes.push(Vector::new(p, m, p));
        axes.push(Vector::new(m, p, p));
    }
    if preset == KdopPreset::K18 || preset == KdopPreset::K26 {
        axes.push(Vector::new(p, p, o));
        axes.push(Vector::new(p, m, o));
    }
    if preset == KdopPreset::K26 {
        axes.push(Vector::new(p, o, p));
        axes.push(Vector::new(p, o, m));
        axes.push(Vector::new(o, p, p));
        axes.push(Vector::new(o, p, m));
    }
    assert(axes@ =~= preset_axes::<R>(preset));
    let mut out: Vec<Vector<R>> = Vec::new();
    let n: usize = axes.len();
    for i in 0..n
        invariant
            n == axes@.len(),
            out@ == normalized(axes@, i as nat),
    {
        if let Some(d) = normalize_direction(axes[i]) {
            out.push(d);
        }
    }
    out
}

/// The smallest projection of the first `n` points onto a direction.
pub open spec fn lowest<R: Real>(points: Seq<Vector<R>>, normal: Vector<R>, n: nat) -> R
    decreases n,
{
    if n == 0 {
        R::infinity()
    } else {
        lowest(points, normal, (n - 1) as nat).min(normal.dot(points[n - 1]))
    }
}

/// The largest projection of the first `n` points onto a direction.
pub open spec fn highest<R: Real>(points: Seq<Vector<R>>, normal: Vector<R>, n: nat) -> R
    decreases n,
{
    if n == 0 {
        R::neg_infinity()
    } else {
        highest(points, normal, (n - 1) as nat).max(normal.dot(points[n - 1]))
    }
}

/// The slab around the points in a direction, if the direction has length and the projections
/// are finite.
pub open spec fn slab_around<R: Real>(points: Seq<Vector<R>>, direction: Vector<R>) -> Option<
    Slab<R>,
> {
    match normalize_direction(direction) {
        Some(normal) => {
            let min = lowest(points, normal, points.len());
            let max = highest(points, normal, points.len());
            if min.is_finite() && max.is_finite() {
                Some(Slab { normal, min, max })
            } else {
                None
            }
        },
        None => None,
    }
}

/// The slabs around the points in the first `n` directions.
pub open spec fn slabs_around<R: Real>(
    points: Seq<Vector<R>>,
    directions: Seq<Vector<R>>,
    n: nat,
) -> Seq<Slab<R>>
    decreases n,
{
    if n == 0 {
        Seq::empty()
    } else {
        let before = slabs_around(points, directions, (n - 1) as nat);
        match slab_around(points, directions[n - 1]) {
            Some(slab) => before.push(slab),
            None => before,
        }
    }
}

/// The planes of the slabs, two for each, facing outwards.
pub open spec fn planes_of<R: Real>(slabs: Seq<Slab<R>>) -> Seq<Plane<R>> {
    Seq::new(
        2 * slabs.len(),
        |i: int|
            if i % 2 == 0 {
                Plane { normal: slabs[i / 2].normal, offset: slabs[i / 2].max }
            } else {
                Plane { normal: slabs[i / 2].normal.neg(), offset: slabs[i / 2].min.neg() }
            },
    )
}

pub open spec fn spec_solve_planes<R: Real>(a: Plane<R>, b: Plane<R>, c: Plane<R>) -> Option<
    Vector<R>,
> {
    let bc = b.normal.cross(c.normal);
    let det = a.normal.dot(bc);
    if det.abs().le(R::decimal(1, 9)) {
        None
    } else {
        Some(
            bc.scale(a.offset).add(c.normal.cross(a.normal).scale(b.offset)).add(
                a.normal.cross(b.normal).scale(c.offset),
            ).div(det),
        )
    }
}

/// The point in which three planes meet, if they meet in one.
#[verifier::when_used_as_spec(spec_solve_planes)]
pub fn solve_planes<R: Real>(a: Plane<R>, b: Plane<R>, c: Plane<R>) -> (r: Option<Vector<R>>)
    ensures
        r == spec_solve_planes(a, b, c),
{
    let bc = b.normal.cross(c.normal);
    let det = a.normal.dot(bc);
    if det.abs().le(R::decimal(1, 9)) {
        return None;
    }
    Some(
        bc.scale(a.offset).add(c.normal.cross(a.normal).scale(b.offset)).add(
            a.normal.cross(b.normal).scale(c.offset),
        ).div(det),
    )
}

/// Whether a point lies in every slab.
pub open spec fn inside<R: Real>(slabs: Seq<Slab<R>>, point: Vector<R>) -> bool {
    forall|i: int| 0 <= i < slabs.len() ==> (#[trigger] slabs[i]).holds(point)
}

/// Whether two points are the same up to a small tolerance.
pub open spec fn coincide<R: Real>(a: Vector<R>, b: Vector<R>) -> bool {
    a.sub(b).length_squared().le(R::decimal(1, 12))
}

/// Whether a point is already among others.
pub open spec fn known<R: Real>(points: Seq<Vector<R>>, point: Vector<R>) -> bool {
    exists|i: int| 0 <= i < points.len() && coincide(#[trigger] points[i], point)
}

/// The corners with the point in which three planes meet, if that lies in the hull and is new.
pub open spec fn with_corner<R: Real>(
    corners: Seq<Vector<R>>,
    slabs: Seq<Slab<R>>,
    a: Plane<R>,
    b: Plane<R>,
    c: Plane<R>,
) -> Seq<Vector<R>> {
    match solve_planes(a, b, c) {
        Some(p) => if inside(slabs, p) && !known(corners, p) {
            corners.push(p)
        } else {
            corners
        },
        None => corners,
    }
}

/// The corners with those of planes `i`, `j` and the later ones among the first `n`.
pub open spec fn corners_of_two<R: Real>(
    corners: Seq<Vector<R>>,
    slabs: Seq<Slab<R>>,
    i: nat,
    j: nat,
    n: nat,
) -> Seq<Vector<R>>
    decreases n,
{
    if n <= j + 1 {
        corners
    } else {
        let planes = planes_of(slabs);
        with_corner(
            corners_of_two(corners, slabs, i, j, (n - 1) as nat),
            slabs,
            planes[i as int],
            planes[j as int],
            planes[n - 1],
        )
    }
}

/// The corners with those of plane `i` and the later ones among the first `n`.
pub open spec fn corners_of_one<R: Real>(
    corners: Seq<Vector<R>>,
    slabs: Seq<Slab<R>>,
    i: nat,
    n: nat,
) -> Seq<Vector<R>>
    decreases n,
{
    if n <= i + 1 {
        corners
    } else {
        corners_of_two(
            corners_of_one(corners, slabs, i, (n - 1) as nat),
            slabs,
            i,
            (n - 1) as nat,
            planes_of(slabs).len(),
        )
    }
}

/// The corners of the first `n` planes and all later ones.
pub open spec fn corners_of<R: Real>(slabs: Seq<Slab<R>>, n: nat) -> Seq<Vector<R>>
    decreases n,
{
    if n == 0 {
        Seq::empty()
    } else {
        corners_of_one(
            corners_of(slabs, (n - 1) as nat),
            slabs,
            (n - 1) as nat,
            planes_of(slabs).len(),
        )
    }
}

/// The corners of the hull around points that is bounded in the given directions. There is no
/// hull around fewer than four points, none with fewer than three slabs, and none without
/// corners.
pub open spec fn hull_corners<R: Real>(
    points: Seq<Vector<R>>,
    directions: Seq<Vector<R>>,
) -> Option<Seq<Vector<R>>> {
    let slabs = slabs_around(points, directions, directions.len());
    let corners = corners_of(slabs, planes_of(slabs).len());
    if points.len() < 4 || slabs.len() < 3 || corners.len() == 0 {
        None
    } else {
        Some(corners)
    }
}

fn find_slab<R: Real>(points: &[Vector<R>], direction: Vector<R>) -> (r: Option<Slab<R>>)
    ensures
        r == slab_around(points@, direction),
{
    match normalize_direction(direction) {
        Some(normal) => {
            let mut min = R::infinity();
            let mut max = R::neg_infinity();
            let n: usize = points.len();
            for i in 0..n
                invariant
                    n == points@.len(),
                    min == lowest(points@, normal, i as nat),
                    max == highest(points@, normal, i as nat),
            {
                let projection = normal.dot(points[i]);
                min = min.min(projection);
                max = max.max(projection);
            }
            if min.is_finite() && max.is_finite() {
                Some(Slab { normal, min, max })
            } else {
                None
            }
        },
        None => None,
    }
}

fn find_slabs<R: Real>(points: &[Vector<R>], directions: &[Vector<R>]) -> (slabs: Vec<Slab<R>>)
    ensures
        slabs@ == slabs_around(points@, directions@, directions@.len()),
{
    let mut slabs: Vec<Slab<R>> = Vec::new();
    let n: usize = directions.len();
    for i in 0..n
        invariant
            n == directions@.len(),
            slabs@ == slabs_around(points@, directions@, i as nat),
    {
        if let Some(slab) = find_slab(points, directions[i]) {
            slabs.push(slab);
        }
    }
    slabs
}

fn find_planes<R: Real>(slabs: &Vec<Slab<R>>) -> (planes: Vec<Plane<R>>)
    ensures
        planes@ == planes_of(slabs@),
{
    let mut planes: Vec<Plane<R>> = Vec::new();
    let n: usize = slabs.len();
    for i in 0..n
        invariant
            n == slabs@.len(),
            planes@.len() == 2 * i,
            forall|k: int| 0 <= k < planes@.len() ==> #[trigger] planes@[k] == planes_of(slabs@)[k],
    {
        let s = slabs[i];
        planes.push(Plane { normal: s.normal, offset: s.max });
        planes.push(Plane { normal: s.normal.neg(), offset: s.min.neg() });
    }
    assert(planes@ =~= planes_of(slabs@));
    planes
}

fn contains_point<R: Real>(slabs: &Vec<Slab<R>>, point: Vector<R>) -> (b: bool)
    ensures
        b == inside(slabs@, point),
{
    let n: usize = slabs.len();
    for i in 0..n
        invariant
            n == slabs@.len(),
            forall|k: int| 0 <= k < i ==> (#[trigger] slabs@[k]).holds(point),
    {
        if !slabs[i].holds(point) {
            return false;
        }
    }
    true
}

fn is_known<R: Real>(points: &Vec<Vector<R>>, point: Vector<R>) -> (b: bool)
    ensures
        b == known(points@, point),
{
    let n: usize = points.len();
    for i in 0..n
        invariant
            n == points@.len(),
            forall|k: int| 0 <= k < i ==> !coincide(#[trigger] points@[k], point),
    {
        if points[i].sub(point).length_squared().le(R::decimal(1, 12)) {
            assert(coincide(points@[i as int], point));
            return true;
        }
    }
    false
}

fn add_corner<R: Real>(
    corners: &mut Vec<Vector<R>>,
    slabs: &Vec<Slab<R>>,
    a: Plane<R>,
    b: Plane<R>,
    c: Plane<R>,
)
    ensures
        final(corners)@ == with_corner(old(corners)@, slabs@, a, b, c),
{
    if let Some(p) = solve_planes(a, b, c) {
        if contains_point(slabs, p) && !is_known(corners, p) {
            corners.push(p);
        }
    }
}

fn find_corners<R: Real>(slabs: &Vec<Slab<R>>) -> (corners: Vec<Vector<R>>)
    ensures
        corners@ == corners_of(slabs@, planes_of(slabs@).len()),
{
    let planes = find_planes(slabs);
    let mut corners: Vec<Vector<R>> = Vec::new();
    let n: usize = planes.len();
    for i in 0..n
        invariant
            n == planes@.len(),
            planes@ == planes_of(slabs@),
            corners@ == corners_of(slabs@, i as nat),
    {
        let ghost first = corners@;
        for j in i + 1..n
            invariant
                n == planes@.len(),
                planes@ == planes_of(slabs@),
                i < n,
                corners@ == corners_of_one(first, slabs@, i as nat, j as nat),
        {
            let ghost second = corners@;
            for k in j + 1..n
                invariant
                    n == planes@.len(),
                    planes@ == planes_of(slabs@),
                    i < n,
                    j < n,
                    corners@ == corners_of_two(second, slabs@, i as nat, j as nat, k as nat),
            {
                add_corner(&mut corners, slabs, planes[i], planes[j], planes[k]);
            }
        }
    }
    corners
}

/// The corners of the hull around points that is bounded in the given directions. There is none
/// around fewer than four points, or where the slabs do not bound a space.
pub fn build_direction_hull<R: Real>(points: &[Vector<R>], directions: &[Vector<R>]) -> (r: Option<
    Vec<Vector<R>>,
>)
    ensures
        match hull_corners(points@, directions@) {
            Some(corners) => r is Some && r->0@ == corners,
            None => r is None,
        },
{
    if points.len() < 4 {
        return None;
    }
    let slabs = find_slabs(points, directions);
    if slabs.len() < 3 {
        return None;
    }
    let corners = find_corners(&slabs);
    if corners.len() == 0 {
        return None;
    }
    Some(corners)
}

/// A hull that is bounded in given directions.
pub trait DirectionHull<R: Real> {
    spec fn spec_directions(&self) -> Seq<Vector<R>>;

    /// The directions.
    fn directions(&self) -> (d: &[Vector<R>])
        ensures
            d@ == self.spec_directions(),
    ;

    /// The corners of the hull around points.
    fn build(&self, points: &[Vector<R>]) -> (r: Option<Vec<Vector<R>>>)
        ensures
            match hull_corners(points@, self.spec_directions()) {
                Some(corners) => r is Some && r->0@ == corners,
                None => r is None,
            },
    {
        build_direction_hull(points, self.directions())
    }
}

/// A hull with directions of its own.
#[derive(Clone, Debug)]
pub struct KdopHull<R> {
    /// The directions.
    pub directions: Vec<Vector<R>>,
}

impl<R: Real> DirectionHull<R> for KdopHull<R> {
    open spec fn spec_directions(&self) -> Seq<Vector<R>> {
        self.directions@
    }

    fn directions(&self) -> (d: &[Vector<R>]) {
        self.directions.as_slice()
    }
}

/// A hull with directions that are kept elsewhere.
#[derive(Clone, Debug)]
pub struct FdhHull<'a, R> {
    /// The directions.
    pub directions: &'a [Vector<R>],
}

impl<'a, R: Real> DirectionHull<R> for FdhHull<'a, R> {
    open spec fn spec_directions(&self) -> Seq<Vector<R>> {
        self.directions@
    }

    fn directions(&self) -> (d: &[Vector<R>]) {
        self.directions
    }
}

/// Every corner lies in every slab, and no later corner coincides with an earlier one.
pub open spec fn corners_sound<R: Real>(corners: Seq<Vector<R>>, slabs: Seq<Slab<R>>) -> bool {
    &&& forall|i: int| 0 <= i < corners.len() ==> inside(slabs, #[trigger] corners[i])
    &&& forall|i: int, j: int|
        0 <= i < j < corners.len() ==> !coincide(#[trigger] corners[i], #[trigger] corners[j])
}

proof fn lemma_with_corner<R: Real>(
    corners: Seq<Vector<R>>,
    slabs: Seq<Slab<R>>,
    a: Plane<R>,
    b: Plane<R>,
    c: Plane<R>,
)
    requires
        corners_sound(corners, slabs),
    ensures
        corners_sound(with_corner(corners, slabs, a, b, c), slabs),
{
    let after = with_corner(corners, slabs, a, b, c);
    if after.len() > corners.len() {
        let p = after.last();
        assert forall|i: int, j: int| 0 <= i < j < after.len() implies !coincide(
            #[trigger] after[i],
            #[trigger] after[j],
        ) by {
            assert(after[i] == corners[i]);
            if j < corners.len() {
                assert(after[j] == corners[j]);
            } else {
                assert(!known(corners, p));
            }
        }
    }
}

proof fn lemma_corners_of_two<R: Real>(
    corners: Seq<Vector<R>>,
    slabs: Seq<Slab<R>>,
    i: nat,
    j: nat,
    n: nat,
)
    requires
        corners_sound(corners, slabs),
    ensures
        corners_sound(corners_of_two(corners, slabs, i, j, n), slabs),
    decreases n,
{
    if n > j + 1 {
        lemma_corners_of_two(corners, slabs, i, j, (n - 1) as nat);
        let planes = planes_of(slabs);
        lemma_with_corner(
            corners_of_two(corners, slabs, i, j, (n - 1) as nat),
            slabs,
            planes[i as int],
            planes[j as int],
            planes[n - 1],
        );
    }
}

proof fn lemma_corners_of_one<R: Real>(
    corners: Seq<Vector<R>>,
    slabs: Seq<Slab<R>>,
    i: nat,
    n: nat,
)
    requires
        corners_sound(corners, slabs),
    ensures
        corners_sound(corners_of_one(corners, slabs, i, n), slabs),
    decreases n,
{
    if n > i + 1 {
        lemma_corners_of_one(corners, slabs, i, (n - 1) as nat);
        lemma_corners_of_two(
            corners_of_one(corners, slabs, i, (n - 1) as nat),
            slabs,
            i,
            (n - 1) as nat,
            planes_of(slabs).len(),
        );
    }
}

proof fn lemma_corners_of<R: Real>(slabs: Seq<Slab<R>>, n: nat)
    ensures
        corners_sound(corners_of(slabs, n), slabs),
    decreases n,
{
    if n > 0 {
        lemma_corners_of(slabs, (n - 1) as nat);
        lemma_corners_of_one(
            corners_of(slabs, (n - 1) as nat),
            slabs,
            (n - 1) as nat,
            planes_of(slabs).len(),
        );
    }
}

/// The corners of a hull all lie in all of its slabs, and no two of them coincide.
pub proof fn lemma_hull_is_bounded<R: Real>(points: Seq<Vector<R>>, directions: Seq<Vector<R>>)
    requires
        hull_corners(points, directions) is Some,
    ensures
        corners_sound(
            hull_corners(points, directions)->0,
            slabs_around(points, directions, directions.len()),
        ),
{
    let slabs = slabs_around(points, directions, directions.len());
    lemma_corners_of(slabs, planes_of(slabs).len());
}

proof fn lemma_projection_bounded<R: Real>(
    points: Seq<Vector<R>>,
    normal: Vector<R>,
    i: int,
    n: nat,
)
    requires
        0 <= i < n <= points.len(),
        normal.dot(points[i]).is_finite(),
    ensures
        lowest(points, normal, n).le(normal.dot(points[i])),
        normal.dot(points[i]).le(highest(points, normal, n)),
    decreases n,
{
    let p = normal.dot(points[i]);
    let low = lowest(points, normal, (n - 1) as nat);
    let high = highest(points, normal, (n - 1) as nat);
    if i == n - 1 {
        R::law_le_itself(p);
        R::law_min_le(p, low, p);
        R::law_le_max(p, high, p);
    } else {
        lemma_projection_bounded(points, normal, i, (n - 1) as nat);
        R::law_min_le(low, normal.dot(points[n - 1]), p);
        R::law_le_max(high, normal.dot(points[n - 1]), p);
    }
}

/// A hull holds the points that it is built around: each lies in every slab, provided that its
/// projections are ordinary numbers.
pub proof fn lemma_hull_holds_its_points<R: Real>(
    points: Seq<Vector<R>>,
    directions: Seq<Vector<R>>,
    n: nat,
    i: int,
)
    requires
        n <= directions.len(),
        0 <= i < points.len(),
        forall|k: int|
            #![trigger slabs_around(points, directions, n)[k]]
            0 <= k < slabs_around(points, directions, n).len() ==> slabs_around(
                points,
                directions,
                n,
            )[k].normal.dot(points[i]).is_finite(),
    ensures
        inside(slabs_around(points, directions, n), points[i]),
    decreases n,
{
    if n > 0 {
        let before = slabs_around(points, directions, (n - 1) as nat);
        let slabs = slabs_around(points, directions, n);
        assert forall|k: int|
            #![trigger before[k]]
            0 <= k < before.len() implies before[k].normal.dot(points[i]).is_finite() by {
            assert(slabs[k] == before[k]);
        }
        lemma_hull_holds_its_points(points, directions, (n - 1) as nat, i);
        if let Some(slab) = slab_around(points, directions[n - 1]) {
            assert(slabs[before.len() as int] == slab);
            let p = slab.normal.dot(points[i]);
            lemma_projection_bounded(points, slab.normal, i, points.len());
            R::law_room(slab.min, p, 1, 7);
            R::law_room(slab.max, p, 1, 7);
        }
        assert forall|k: int| 0 <= k < slabs.len() implies (#[trigger] slabs[k]).holds(
            points[i],
        ) by {
            if k < before.len() {
                assert(slabs[k] == before[k]);
            }
        }
    }
}

proof fn lemma_normalized_all<R: Real>(directions: Seq<Vector<R>>, n: nat)
    requires
        n <= directions.len(),
        forall|i: int|
            0 <= i < n ==> normalize_direction(#[trigger] directions[i]) is Some,
    ensures
        normalized(directions, n).len() == n,
        forall|i: int|
            #![trigger normalized(directions, n)[i]]
            0 <= i < n ==> normalized(directions, n)[i] == directions[i].div(
                directions[i].length(),
            ),
    decreases n,
{
    if n > 0 {
        lemma_normalized_all(directions, (n - 1) as nat);
        assert(normalize_direction(directions[n - 1]) is Some);
    }
}

/// The choices have three, seven, nine and thirteen directions, each choice begins with the one
/// before it, and every direction is its axis over the length of that, where the scalars tell the
/// lengths of the axes from zero.
pub proof fn lemma_presets_nest<R: Real>()
    requires
        forall|i: int|
            0 <= i < 13 ==> normalize_direction(
                #[trigger] preset_axes::<R>(KdopPreset::K26)[i],
            ) is Some,
    ensures
        preset_directions::<R>(KdopPreset::K6).len() == 3,
        preset_directions::<R>(KdopPreset::K14).len() == 7,
        preset_directions::<R>(KdopPreset::K18).len() == 9,
        preset_directions::<R>(KdopPreset::K26).len() == 13,
        preset_directions::<R>(KdopPreset::K6) == preset_directions::<R>(KdopPreset::K14).take(3),
        preset_directions::<R>(KdopPreset::K14) == preset_directions::<R>(KdopPreset::K18).take(7),
        preset_directions::<R>(KdopPreset::K18) == preset_directions::<R>(KdopPreset::K26).take(9),
        forall|i: int|
            #![trigger preset_directions::<R>(KdopPreset::K26)[i]]
            0 <= i < 13 ==> preset_directions::<R>(KdopPreset::K26)[i] == preset_axes::<R>(
                KdopPreset::K26,
            )[i].div(preset_axes::<R>(KdopPreset::K26)[i].length()),
{
    let all = preset_axes::<R>(KdopPreset::K26);
    assert(preset_axes::<R>(KdopPreset::K6) =~= all.take(3));
    assert(preset_axes::<R>(KdopPreset::K14) =~= all.take(7));
    assert(preset_axes::<R>(KdopPreset::K18) =~= all.take(9));
    lemma_normalized_all(all, 13);
    assert forall|i: int| 0 <= i < 9 implies normalize_direction(
        #[trigger] all.take(9)[i],
    ) is Some by {
        assert(all.take(9)[i] == all[i]);
    }
    assert forall|i: int| 0 <= i < 7 implies normalize_direction(
        #[trigger] all.take(7)[i],
    ) is Some by {
        assert(all.take(7)[i] == all[i]);
    }
    assert forall|i: int| 0 <= i < 3 implies normalize_direction(
        #[trigger] all.take(3)[i],
    ) is Some by {
        assert(all.take(3)[i] == all[i]);
    }
    lemma_normalized_all(all.take(9), 9);
    lemma_normalized_all(all.take(7), 7);
    lemma_normalized_all(all.take(3), 3);
}

/// A coordinate of an axis in steps.
spec fn is_axis_coordinate(x: Fixed) -> bool {
    x.raw == 0 || x.raw == UNIT || x.raw == -UNIT
}

spec fn nonzero(x: Fixed) -> int {
    if x.raw == 0 {
        0
    } else {
        1
    }
}

proof fn lemma_axis_length(v: Vector<Fixed>, c: Fixed, n: int)
    requires
        v.x.raw == 0 || v.x == c || v.x.raw == -c.raw,
        v.y.raw == 0 || v.y == c || v.y.raw == -c.raw,
        v.z.raw == 0 || v.z == c || v.z.raw == -c.raw,
        0 < c.raw <= UNIT,
        n == nonzero(v.x) + nonzero(v.y) + nonzero(v.z),
    ensures
        v.dot(v).raw == n * c.mul(c).raw,
{
    let a = c.raw as int;
    assert(0 * 0 == 0 && 0nat / UNIT as nat == 0);
    assert(a * a <= UNIT * UNIT) by (nonlinear_arith)
        requires
            0 < a <= UNIT,
    ;
    let square = (a * a) as nat / UNIT as nat;
    assert(square <= UNIT);
    assert(c.mul(c).raw == square);
    assert(v.x.mul(v.x).raw == nonzero(v.x) * square);
    assert(v.y.mul(v.y).raw == nonzero(v.y) * square);
    assert(v.z.mul(v.z).raw == nonzero(v.z) * square);
    assert(n * square == nonzero(v.x) * square + nonzero(v.y) * square + nonzero(v.z) * square)
        by (nonlinear_arith)
        requires
            n == nonzero(v.x) + nonzero(v.y) + nonzero(v.z),
    ;
}

/// A coordinate of an axis, shortened to `c` steps.
spec fn shortened(x: Fixed, y: Fixed, c: int) -> bool {
    &&& x.raw == 0 ==> y.raw == 0
    &&& x.raw > 0 ==> y.raw == c
    &&& x.raw < 0 ==> y.raw == -c
}

proof fn lemma_axis_normalizes(v: Vector<Fixed>) -> (c: int)
    requires
        is_axis_coordinate(v.x) && is_axis_coordinate(v.y) && is_axis_coordinate(v.z),
        nonzero(v.x) + nonzero(v.y) + nonzero(v.z) > 0,
    ensures
        normalize_direction(v) is Some,
        UNIT - 3 <= v.div(v.length()).length().raw <= UNIT,
        0 < c <= UNIT,
        shortened(v.x, v.div(v.length()).x, c),
        shortened(v.y, v.div(v.length()).y, c),
        shortened(v.z, v.div(v.length()).z, c),
        nonzero(v.x) + nonzero(v.y) + nonzero(v.z) == 1 ==> c == UNIT,
{
    let n = nonzero(v.x) + nonzero(v.y) + nonzero(v.z);
    let one = Fixed { raw: UNIT as i64 };
    let square = UNIT * UNIT;
    assert(one.mul(one).raw == UNIT);
    lemma_axis_length(v, one, n);
    // The length of the axis, its reciprocal, and the length of the direction.
    let (len, c, again): (nat, int, nat) = if n == 1 {
        (0x1_0000_0000, 0x1_0000_0000, 0x1_0000_0000)
    } else if n == 2 {
        (6_074_000_999, 3_037_000_500, 0x1_0000_0000)
    } else {
        (7_439_101_573, 2_479_700_524, 4_294_967_293)
    };
    assert(v.dot(v).raw == n * UNIT);
    assert(fixed::is_root((n * UNIT * UNIT) as nat, len)) by {
        if n == 1 {
            assert(fixed::is_root(18446744073709551616, 4_294_967_296)) by (nonlinear_arith);
        } else if n == 2 {
            assert(fixed::is_root(36893488147419103232, 6_074_000_999)) by (nonlinear_arith);
        } else {
            assert(fixed::is_root(55340232221128654848, 7_439_101_573)) by (nonlinear_arith);
        }
    }
    fixed::lemma_root((n * UNIT * UNIT) as nat, len);
    assert(v.length().raw == len);
    assert(fixed::pow10(9) == 1_000_000_000) by {
        reveal_with_fuel(fixed::pow10, 10);
    }
    let d = v.div(v.length());
    let unit = Fixed { raw: c as i64 };
    assert(square as nat / len == c);
    assert(d.x.raw == 0 || d.x.raw == c || d.x.raw == -c);
    assert(d.y.raw == 0 || d.y.raw == c || d.y.raw == -c);
    assert(d.z.raw == 0 || d.z.raw == c || d.z.raw == -c);
    assert(nonzero(d.x) == nonzero(v.x) && nonzero(d.y) == nonzero(v.y) && nonzero(d.z) == nonzero(
        v.z,
    ));
    lemma_axis_length(d, unit, n);
    let s = unit.mul(unit).raw;
    assert(s == (c * c) as nat / UNIT as nat);
    assert(fixed::is_root((n * s * UNIT) as nat, again)) by {
        if n == 1 {
            assert(fixed::is_root(18446744073709551616, 4_294_967_296)) by (nonlinear_arith);
        } else if n == 2 {
            assert(s == 2147483648);
            assert(fixed::is_root(18446744073709551616, 4_294_967_296)) by (nonlinear_arith);
        } else {
            assert(s == 1431655764);
            assert(fixed::is_root(18446744056529682432, 4_294_967_293)) by (nonlinear_arith);
        }
    }
    fixed::lemma_root((n * s * UNIT) as nat, again);
    c
}

/// In fixed point the choices have three, seven, nine and thirteen directions, each choice begins
/// with the one before it, and every direction has length one up to three steps.
pub proof fn lemma_preset_directions_are_unit()
    ensures
        preset_directions::<Fixed>(KdopPreset::K6).len() == 3,
        preset_directions::<Fixed>(KdopPreset::K14).len() == 7,
        preset_directions::<Fixed>(KdopPreset::K18).len() == 9,
        preset_directions::<Fixed>(KdopPreset::K26).len() == 13,
        preset_directions::<Fixed>(KdopPreset::K6) == preset_directions::<Fixed>(
            KdopPreset::K14,
        ).take(3),
        preset_directions::<Fixed>(KdopPreset::K14) == preset_directions::<Fixed>(
            KdopPreset::K18,
        ).take(7),
        preset_directions::<Fixed>(KdopPreset::K18) == preset_directions::<Fixed>(
            KdopPreset::K26,
        ).take(9),
        forall|i: int|
            #![trigger preset_directions::<Fixed>(KdopPreset::K26)[i]]
            0 <= i < 13 ==> UNIT - 3 <= preset_directions::<Fixed>(
                KdopPreset::K26,
            )[i].length().raw <= UNIT,
{
    let all = preset_axes::<Fixed>(KdopPreset::K26);
    lemma_fixed_presets();
    lemma_presets_nest::<Fixed>();
    assert forall|i: int|
        #![trigger preset_directions::<Fixed>(KdopPreset::K26)[i]]
        0 <= i < 13 implies UNIT - 3 <= preset_directions::<Fixed>(
        KdopPreset::K26,
    )[i].length().raw <= UNIT by {
        lemma_axis_made_of_units(i);
        let c = lemma_axis_normalizes(all[i]);
    }
}

/// Whether two directions lie along one line: their cross product, computed exactly, is zero.
pub open spec fn parallel(u: Vector<Fixed>, v: Vector<Fixed>) -> bool {
    &&& u.y.raw * v.z.raw == u.z.raw * v.y.raw
    &&& u.z.raw * v.x.raw == u.x.raw * v.z.raw
    &&& u.x.raw * v.y.raw == u.y.raw * v.x.raw
}

spec fn sign(x: Fixed) -> int {
    if x.raw == 0 {
        0
    } else if x.raw > 0 {
        1
    } else {
        -1
    }
}

/// The product of two signs.
spec fn sign_product(a: int, b: int) -> int {
    if a == 0 || b == 0 {
        0
    } else if a == b {
        1
    } else {
        -1
    }
}

/// A number that tells axes apart which do not lie along one line.
spec fn line_code(v: Vector<Fixed>) -> nat {
    fixed::magnitude(9 * sign(v.x) + 3 * sign(v.y) + sign(v.z))
}

proof fn lemma_shortened_product(x: Fixed, y: Fixed, p: Fixed, q: Fixed, c: int, e: int)
    requires
        shortened(x, p, c),
        shortened(y, q, e),
        0 < c,
        0 < e,
    ensures
        p.raw * q.raw == sign_product(sign(x), sign(y)) * (c * e),
{
    let (a, b) = (p.raw as int, q.raw as int);
    if sign(x) == 0 || sign(y) == 0 {
        assert(a * b == 0) by (nonlinear_arith)
            requires
                a == 0 || b == 0,
        ;
    } else if sign(x) == sign(y) {
        assert(a * b == c * e) by (nonlinear_arith)
            requires
                (a == c && b == e) || (a == -c && b == -e),
        ;
    } else {
        assert(a * b == -(c * e)) by (nonlinear_arith)
            requires
                (a == -c && b == e) || (a == c && b == -e),
        ;
    }
    assert(0 * (c * e) == 0 && 1 * (c * e) == c * e && (-1) * (c * e) == -(c * e))
        by (nonlinear_arith);
}

proof fn lemma_cancelled(s: int, t: int, m: int)
    requires
        s * m == t * m,
        m > 0,
    ensures
        s == t,
{
    assert(s == t) by (nonlinear_arith)
        requires
            s * m == t * m,
            m > 0,
    ;
}

spec fn is_sign(a: int) -> bool {
    a == 0 || a == 1 || a == -1
}

/// Signs in proportion are equal or opposite.
proof fn lemma_signs_in_proportion(a: int, b: int, c: int, p: int, q: int, r: int)
    requires
        is_sign(a) && is_sign(b) && is_sign(c),
        is_sign(p) && is_sign(q) && is_sign(r),
        a != 0 || b != 0 || c != 0,
        p != 0 || q != 0 || r != 0,
        sign_product(b, r) == sign_product(c, q),
        sign_product(c, p) == sign_product(a, r),
        sign_product(a, q) == sign_product(b, p),
    ensures
        (a == p && b == q && c == r) || (a == -p && b == -q && c == -r),
{
}

proof fn lemma_parallel_axes(
    u: Vector<Fixed>,
    v: Vector<Fixed>,
    d: Vector<Fixed>,
    e: Vector<Fixed>,
    a: int,
    b: int,
)
    requires
        is_axis_coordinate(u.x) && is_axis_coordinate(u.y) && is_axis_coordinate(u.z),
        is_axis_coordinate(v.x) && is_axis_coordinate(v.y) && is_axis_coordinate(v.z),
        nonzero(u.x) + nonzero(u.y) + nonzero(u.z) > 0,
        nonzero(v.x) + nonzero(v.y) + nonzero(v.z) > 0,
        shortened(u.x, d.x, a) && shortened(u.y, d.y, a) && shortened(u.z, d.z, a),
        shortened(v.x, e.x, b) && shortened(v.y, e.y, b) && shortened(v.z, e.z, b),
        0 < a,
        0 < b,
        parallel(d, e),
    ensures
        line_code(u) == line_code(v),
{
    assert(a * b > 0) by (nonlinear_arith)
        requires
            a > 0,
            b > 0,
    ;
    lemma_shortened_product(u.y, v.z, d.y, e.z, a, b);
    lemma_shortened_product(u.z, v.y, d.z, e.y, a, b);
    lemma_shortened_product(u.z, v.x, d.z, e.x, a, b);
    lemma_shortened_product(u.x, v.z, d.x, e.z, a, b);
    lemma_shortened_product(u.x, v.y, d.x, e.y, a, b);
    lemma_shortened_product(u.y, v.x, d.y, e.x, a, b);
    lemma_cancelled(
        sign_product(sign(u.y), sign(v.z)),
        sign_product(sign(u.z), sign(v.y)),
        a * b,
    );
    lemma_cancelled(
        sign_product(sign(u.z), sign(v.x)),
        sign_product(sign(u.x), sign(v.z)),
        a * b,
    );
    lemma_cancelled(
        sign_product(sign(u.x), sign(v.y)),
        sign_product(sign(u.y), sign(v.x)),
        a * b,
    );
    lemma_signs_in_proportion(sign(u.x), sign(u.y), sign(u.z), sign(v.x), sign(v.y), sign(v.z));
}

/// The axes before they are given length one: what they are made of, and that no two of them lie
/// along one line.
proof fn lemma_axes_differ(i: int, j: int)
    requires
        0 <= i < j < 13,
    ensures
        line_code(preset_axes::<Fixed>(KdopPreset::K26)[i]) != line_code(
            preset_axes::<Fixed>(KdopPreset::K26)[j],
        ),
{
    let all = preset_axes::<Fixed>(KdopPreset::K26);
    let codes: Seq<nat> = seq![9, 3, 1, 13, 11, 7, 5, 12, 6, 10, 8, 4, 2];
    assert(line_code(all[i]) == codes[i]);
    assert(line_code(all[j]) == codes[j]);
    assert(codes[i] != codes[j]);
}

proof fn lemma_axis_made_of_units(i: int)
    requires
        0 <= i < 13,
    ensures
        ({
            let v = preset_axes::<Fixed>(KdopPreset::K26)[i];
            &&& is_axis_coordinate(v.x) && is_axis_coordinate(v.y) && is_axis_coordinate(v.z)
            &&& nonzero(v.x) + nonzero(v.y) + nonzero(v.z) > 0
            &&& i < 3 ==> nonzero(v.x) + nonzero(v.y) + nonzero(v.z) == 1
        }),
{
}

proof fn lemma_fixed_presets()
    ensures
        forall|i: int|
            0 <= i < 13 ==> normalize_direction(
                #[trigger] preset_axes::<Fixed>(KdopPreset::K26)[i],
            ) is Some,
{
    assert forall|i: int| 0 <= i < 13 implies normalize_direction(
        #[trigger] preset_axes::<Fixed>(KdopPreset::K26)[i],
    ) is Some by {
        lemma_axis_made_of_units(i);
        let c = lemma_axis_normalizes(preset_axes::<Fixed>(KdopPreset::K26)[i]);
    }
}

/// In fixed point no two directions of a choice lie along one line.
pub proof fn lemma_preset_directions_differ(i: int, j: int)
    requires
        0 <= i < j < 13,
    ensures
        !parallel(
            preset_directions::<Fixed>(KdopPreset::K26)[i],
            preset_directions::<Fixed>(KdopPreset::K26)[j],
        ),
{
    let u = preset_axes::<Fixed>(KdopPreset::K26)[i];
    let v = preset_axes::<Fixed>(KdopPreset::K26)[j];
    let d = preset_directions::<Fixed>(KdopPreset::K26)[i];
    let e = preset_directions::<Fixed>(KdopPreset::K26)[j];
    lemma_fixed_presets();
    lemma_presets_nest::<Fixed>();
    lemma_axes_differ(i, j);
    lemma_axis_made_of_units(i);
    lemma_axis_made_of_units(j);
    let a = lemma_axis_normalizes(u);
    let b = lemma_axis_normalizes(v);
    if parallel(d, e) {
        lemma_parallel_axes(u, v, d, e, a, b);
    }
}

/// In fixed point the first three directions of every choice are the axes, exactly.
pub proof fn lemma_preset_directions_begin_with_axes(i: int)
    requires
        0 <= i < 3,
    ensures
        preset_directions::<Fixed>(KdopPreset::K26)[i] == preset_axes::<Fixed>(KdopPreset::K6)[i],
        preset_directions::<Fixed>(KdopPreset::K18)[i] == preset_axes::<Fixed>(KdopPreset::K6)[i],
        preset_directions::<Fixed>(KdopPreset::K14)[i] == preset_axes::<Fixed>(KdopPreset::K6)[i],
        preset_directions::<Fixed>(KdopPreset::K6)[i] == preset_axes::<Fixed>(KdopPreset::K6)[i],
{
    let v = preset_axes::<Fixed>(KdopPreset::K26)[i];
    let (k6, k14, k18, k26) = (
        preset_directions::<Fixed>(KdopPreset::K6),
        preset_directions::<Fixed>(KdopPreset::K14),
        preset_directions::<Fixed>(KdopPreset::K18),
        preset_directions::<Fixed>(KdopPreset::K26),
    );
    lemma_fixed_presets();
    lemma_presets_nest::<Fixed>();
    lemma_axis_made_of_units(i);
    let c = lemma_axis_normalizes(v);
    assert(preset_axes::<Fixed>(KdopPreset::K6)[i] == v);
    assert(k26[i] == v.div(v.length()));
    assert(k18[i] == k26.take(9)[i]);
    assert(k14[i] == k18.take(7)[i]);
    assert(k6[i] == k14.take(3)[i]);
}

} // verus!
