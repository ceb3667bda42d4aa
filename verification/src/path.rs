//! Interpolation of waypoint paths, with corners rounded by tangent circular
//! arcs.
//!
//! What takes trigonometry is left to the caller: the angles of the corners are
//! handed in, and a sample says where on the path a pose lies, rotations between
//! waypoints and points on arcs being named rather than computed.

use crate::arithmetic::{lemma_count_over_itself, lemma_sum_of_positive};
use crate::configs::{PathConfig, Pose};
use crate::double::{Double, HALF, MINUS_ONE, ONE};
use crate::vector::Vector3;
use vstd::arithmetic::div_mod::lemma_fundamental_div_mod_converse;
use vstd::prelude::*;

verus! {

/// The length below which a segment has no direction, and a line is not worth a
/// piece: 1e-12.
pub const SHORT: u64 = 0x3D71_9799_812D_EA11;

/// The sine of a turn below which a corner counts as straight or as a reversal:
/// 1e-9.
pub const FLAT: u64 = 0x3E11_2E0B_E826_D695;

/// An orientation on the path.
#[derive(Clone, Copy, Debug, PartialEq, Eq, Structural)]
pub enum Orientation {
    /// That of a waypoint.
    Waypoint(usize),
    /// The slerp between a waypoint and the next one.
    Between { segment: usize, t: Double },
}

/// The shape of a piece of a corner-rounded path.
#[derive(Clone, Copy, Debug, PartialEq, Eq, Structural)]
pub enum PieceKind {
    Line {
        start: Vector3,
        /// Full displacement over the piece (end − start), not normalized.
        direction: Vector3,
    },
    Arc {
        center: Vector3,
        /// Blend-entry point relative to the center; rotated through the sweep
        /// to trace the arc.
        start_offset: Vector3,
        /// Unit rotation axis (normal of the corner's plane).
        axis: Vector3,
        sweep: Double,
    },
}

/// One straight or arc piece of a corner-rounded path. Orientation slerps from
/// `start_rotation` to `end_rotation` along the piece's length.
#[derive(Clone, Copy, Debug, PartialEq, Eq, Structural)]
pub struct PathPiece {
    pub length: Double,
    pub start_rotation: Orientation,
    pub end_rotation: Orientation,
    pub kind: PieceKind,
}

/// Where a pose on a piece lies.
#[derive(Clone, Copy, Debug, PartialEq, Eq, Structural)]
pub enum Placement {
    Point(Vector3),
    /// `center` plus `offset` turned by the rotation of axis and angle `turn`.
    OnArc { center: Vector3, offset: Vector3, turn: Vector3 },
}

/// A pose of the interpolated path.
#[derive(Clone, Copy, Debug, PartialEq, Eq, Structural)]
pub enum Sample {
    /// A waypoint itself.
    Waypoint(usize),
    /// Translation lerp, rotation slerp from a waypoint to the next one.
    Along { segment: usize, t: Double },
    /// On a piece of a rounded path, the orientation being the slerp between two
    /// orientations.
    OnPiece { placement: Placement, from: Orientation, to: Orientation, t: Double },
}

/// The pose at a fraction of a piece.
pub open spec fn pose_on(piece: PathPiece, t: Double) -> Sample {
    let placement = match piece.kind {
        PieceKind::Line { start, direction } => Placement::Point(
            start.sum(direction.stretched(t)),
        ),
        PieceKind::Arc { center, start_offset, axis, sweep } => Placement::OnArc {
            center,
            offset: start_offset,
            turn: axis.stretched(sweep.product(t)),
        },
    };
    Sample::OnPiece { placement, from: piece.start_rotation, to: piece.end_rotation, t }
}

impl PathPiece {
    /// The pose at a fraction of the piece.
    pub fn pose_at(&self, t: Double) -> (sample: Sample)
        ensures
            sample == pose_on(*self, t),
    {
        let placement: Placement = match self.kind {
            PieceKind::Line { start, direction } => Placement::Point(
                start.plus(direction.times(t)),
            ),
            PieceKind::Arc { center, start_offset, axis, sweep } => Placement::OnArc {
                center,
                offset: start_offset,
                turn: axis.times(sweep.times(t)),
            },
        };
        Sample::OnPiece { placement, from: self.start_rotation, to: self.end_rotation, t }
    }
}

/// The geometry of a corner that can be rounded.
#[derive(Clone, Copy, Debug, PartialEq, Eq, Structural)]
pub struct Corner {
    /// Unit direction in.
    pub u: Vector3,
    /// Unit direction out.
    pub v: Vector3,
    pub len_in: Double,
    pub len_out: Double,
    /// u × v.
    pub normal: Vector3,
    /// Cosine of the turn, within [−1, 1].
    pub cosine: Double,
}

/// The turn of a corner, and the tangent and cosine of half of it.
#[derive(Clone, Copy, Debug, PartialEq, Eq, Structural)]
pub struct CornerAngles {
    pub turn: Double,
    pub half_tan: Double,
    pub half_cos: Double,
}

/// Tangent-arc fillet for one interior waypoint.
#[derive(Clone, Copy, Debug, PartialEq, Eq, Structural)]
pub struct CornerFillet {
    /// Tangent cut distance along both adjacent segments (possibly clamped).
    pub cut: Double,
    pub center: Vector3,
    pub axis: Vector3,
    pub sweep: Double,
    /// Effective radius after clamping; arc length is `radius * sweep`.
    pub radius: Double,
    /// Whether the radius had to be clamped.
    pub clamped: bool,
}

/// Whether a segment of a length has a direction.
pub open spec fn has_direction(length: Double) -> bool {
    (Double { bits: SHORT }).at_most(length) && length.finite()
}

/// The corner between two segments. None where a segment has no direction, or
/// where the corner is straight or a reversal: there is no plane to fillet in. A
/// corner whose cosine rounds to one is straight as well: it has no turn to
/// measure.
pub open spec fn corner_between(before: Vector3, here: Vector3, after: Vector3) -> Option<Corner> {
    let to_here = here.difference(before);
    let to_next = after.difference(here);
    let len_in = to_here.length();
    let len_out = to_next.length();
    let u = to_here.shrunk(len_in);
    let v = to_next.shrunk(len_out);
    let normal = u.outer(v);
    let cosine = u.inner(v).clamped(Double { bits: MINUS_ONE }, Double { bits: ONE });
    if !has_direction(len_in) || !has_direction(len_out) {
        None
    } else if !(Double { bits: FLAT }).at_most(normal.length()) {
        None
    } else if !cosine.less(Double { bits: ONE }) {
        None
    } else {
        Some(Corner { u, v, len_in, len_out, normal, cosine })
    }
}

/// The corners of a path, one place per waypoint: only interior ones can be
/// rounded.
pub open spec fn corners_of(positions: Seq<Vector3>) -> Seq<Option<Corner>> {
    Seq::new(
        positions.len(),
        |i: int|
            if 0 < i < positions.len() - 1 {
                corner_between(positions[i - 1], positions[i], positions[i + 1])
            } else {
                None
            },
    )
}

/// Half of the shorter of two neighbouring segments: the most that a fillet may
/// cut off either.
pub open spec fn longest_cut(corner: Corner) -> Double {
    (Double { bits: HALF }).product(corner.len_in.smaller(corner.len_out))
}

/// The fillet of a corner: the tangent cut d = r·tan(φ/2), clamped to fit; the
/// effective radius d/tan(φ/2); the center on the interior bisector, at distance
/// r/cos(φ/2) from the corner, so that both segments are tangent at the cut.
pub open spec fn fillet_of(
    position: Vector3,
    corner: Corner,
    angles: CornerAngles,
    radius: Double,
) -> CornerFillet {
    let wanted = radius.product(angles.half_tan);
    let most = longest_cut(corner);
    let clamped = most.less(wanted);
    let cut = if clamped {
        most
    } else {
        wanted
    };
    let effective = cut.quotient(angles.half_tan);
    let bisector = corner.v.difference(corner.u).direction();
    CornerFillet {
        cut,
        center: position.sum(bisector.stretched(effective.quotient(angles.half_cos))),
        axis: corner.normal.direction(),
        sweep: angles.turn,
        radius: effective,
        clamped,
    }
}

impl CornerFillet {
    /// Whether the fillet cuts off something and its arc has a length. A turn of
    /// zero has neither: its radius would be 0/0.
    pub open spec fn has_arc(self) -> bool {
        &&& (Double { bits: 0 }).less(self.cut)
        &&& (Double { bits: 0 }).less(self.radius.product(self.sweep))
    }
}

/// A fillet never cuts off more than half of either neighbouring segment, and
/// says so exactly where the radius was too large.
pub proof fn lemma_fillet_fits(
    position: Vector3,
    corner: Corner,
    angles: CornerAngles,
    radius: Double,
)
    ensures
        ({
            let fillet = fillet_of(position, corner, angles, radius);
            &&& !longest_cut(corner).less(fillet.cut)
            &&& fillet.clamped <==> longest_cut(corner).less(radius.product(angles.half_tan))
            &&& !fillet.clamped ==> fillet.cut == radius.product(angles.half_tan)
        }),
{
}

/// The corners that can be rounded, with the cosines of their turns.
pub fn corners(positions: &Vec<Vector3>) -> (result: Vec<Option<Corner>>)
    ensures
        result@ == corners_of(positions@),
{
    let n: usize = positions.len();
    let mut result: Vec<Option<Corner>> = Vec::new();
    let mut i: usize = 0;
    while i < n
        invariant
            i <= n,
            n == positions@.len(),
            result@.len() == i,
            forall|j: int| 0 <= j < i ==> #[trigger] result@[j] == corners_of(positions@)[j],
        decreases n - i,
    {
        if i == 0 || i == n - 1 {
            result.push(None);
        } else {
            result.push(corner_at(positions[i - 1], positions[i], positions[i + 1]));
        }
        i = i + 1;
    }
    assert(result@ =~= corners_of(positions@));
    result
}

fn corner_at(before: Vector3, here: Vector3, after: Vector3) -> (result: Option<Corner>)
    ensures
        result == corner_between(before, here, after),
{
    let to_here: Vector3 = here.minus(before);
    let to_next: Vector3 = after.minus(here);
    let len_in: Double = to_here.norm();
    let len_out: Double = to_next.norm();
    let short: Double = Double { bits: SHORT };
    if !(short.le(len_in) && len_in.is_finite()) || !(short.le(len_out) && len_out.is_finite()) {
        return None;
    }
    let u: Vector3 = to_here.over(len_in);
    let v: Vector3 = to_next.over(len_out);
    let normal: Vector3 = u.cross(v);
    if !(Double { bits: FLAT }).le(normal.norm()) {
        return None;
    }
    let cosine: Double = u.dot(v).clamp(Double { bits: MINUS_ONE }, Double { bits: ONE });
    if !cosine.lt(Double { bits: ONE }) {
        return None;
    }
    Some(Corner { u, v, len_in, len_out, normal, cosine })
}

fn fillet(position: Vector3, corner: Corner, angles: CornerAngles, radius: Double) -> (result:
    CornerFillet)
    ensures
        result == fillet_of(position, corner, angles, radius),
{
    let wanted: Double = radius.times(angles.half_tan);
    let most: Double = (Double { bits: HALF }).times(corner.len_in.min(corner.len_out));
    let clamped: bool = most.lt(wanted);
    let cut: Double = if clamped {
        most
    } else {
        wanted
    };
    let effective: Double = cut.over(angles.half_tan);
    let bisector: Vector3 = corner.v.minus(corner.u).normalize();
    CornerFillet {
        cut,
        center: position.plus(bisector.times(effective.over(angles.half_cos))),
        axis: corner.normal.normalize(),
        sweep: angles.turn,
        radius: effective,
        clamped,
    }
}

/// The fillets of a path, one place per waypoint. `angles` are those of the
/// corners; a corner that is left sharp needs none. A corner whose fillet would
/// have no arc is left sharp.
pub open spec fn fillets_of(
    positions: Seq<Vector3>,
    angles: Seq<CornerAngles>,
    radius: Double,
) -> Seq<Option<CornerFillet>> {
    Seq::new(
        positions.len(),
        |i: int|
            match corners_of(positions)[i] {
                Some(corner) => {
                    let fillet = fillet_of(positions[i], corner, angles[i], radius);
                    if fillet.has_arc() {
                        Some(fillet)
                    } else {
                        None
                    }
                },
                None => None,
            },
    )
}

/// The fillets of a path.
pub fn fillets(positions: &Vec<Vector3>, angles: &Vec<CornerAngles>, radius: Double) -> (result: Vec<
    Option<CornerFillet>,
>)
    requires
        angles@.len() == positions@.len(),
    ensures
        result@ == fillets_of(positions@, angles@, radius),
{
    let places: Vec<Option<Corner>> = corners(positions);
    let mut result: Vec<Option<CornerFillet>> = Vec::new();
    let mut i: usize = 0;
    while i < positions.len()
        invariant
            i <= positions@.len(),
            angles@.len() == positions@.len(),
            places@ == corners_of(positions@),
            result@.len() == i,
            forall|j: int|
                0 <= j < i ==> #[trigger] result@[j] == fillets_of(positions@, angles@, radius)[j],
        decreases positions@.len() - i,
    {
        match places[i] {
            Some(corner) => {
                let rounded: CornerFillet = fillet(positions[i], corner, angles[i], radius);
                let zero: Double = Double { bits: 0 };
                if zero.lt(rounded.cut) && zero.lt(rounded.radius.times(rounded.sweep)) {
                    result.push(Some(rounded));
                } else {
                    result.push(None);
                }
            },
            None => {
                result.push(None);
            },
        }
        i = i + 1;
    }
    assert(result@ =~= fillets_of(positions@, angles@, radius));
    result
}

/// The straight run to waypoint `i`: to its fillet entry, or to the waypoint
/// itself where the corner is sharp or the path ends. Its end orientation is the
/// segment's at that point.
pub open spec fn run_end(
    positions: Seq<Vector3>,
    fillet: Option<CornerFillet>,
    i: int,
) -> (Vector3, Orientation) {
    match fillet {
        Some(fillet) => {
            let segment = positions[i].difference(positions[i - 1]);
            let length = segment.length();
            (
                positions[i].difference(segment.stretched(fillet.cut.quotient(length))),
                Orientation::Between {
                    segment: (i - 1) as usize,
                    t: length.difference(fillet.cut).quotient(length),
                },
            )
        },
        None => (
            positions[i],
            Orientation::Between { segment: (i - 1) as usize, t: Double { bits: ONE } },
        ),
    }
}

/// The point and the orientation where a path leaves the fillet of waypoint `i`.
pub open spec fn fillet_exit(
    positions: Seq<Vector3>,
    fillet: CornerFillet,
    i: int,
) -> (Vector3, Orientation) {
    let segment = positions[i + 1].difference(positions[i]);
    let length = segment.length();
    (
        positions[i].sum(segment.stretched(fillet.cut.quotient(length))),
        Orientation::Between { segment: i as usize, t: fillet.cut.quotient(length) },
    )
}

/// The pieces that a straight run adds: none where it has no length.
pub open spec fn run_pieces(
    from: Vector3,
    start_rotation: Orientation,
    to: Vector3,
    end_rotation: Orientation,
) -> Seq<PathPiece> {
    let direction = to.difference(from);
    if (Double { bits: SHORT }).less(direction.length()) {
        seq![
            PathPiece {
                length: direction.length(),
                start_rotation,
                end_rotation,
                kind: PieceKind::Line { start: from, direction },
            },
        ]
    } else {
        Seq::empty()
    }
}

/// The arc of a fillet, entered at a point.
pub open spec fn fillet_arc(
    fillet: CornerFillet,
    entry: Vector3,
    start_rotation: Orientation,
    end_rotation: Orientation,
) -> PathPiece {
    PathPiece {
        length: fillet.radius.product(fillet.sweep),
        start_rotation,
        end_rotation,
        kind: PieceKind::Arc {
            center: fillet.center,
            start_offset: entry.difference(fillet.center),
            axis: fillet.axis,
            sweep: fillet.sweep,
        },
    }
}

/// The pieces of the first `count` segments, and where they end.
pub open spec fn traced(
    positions: Seq<Vector3>,
    fillets: Seq<Option<CornerFillet>>,
    count: nat,
) -> (Seq<PathPiece>, Vector3, Orientation)
    decreases count,
{
    if count == 0 {
        (Seq::empty(), positions[0], Orientation::Waypoint(0))
    } else {
        let i = count as int;
        let (pieces, position, rotation) = traced(positions, fillets, (count - 1) as nat);
        let (end, end_rotation) = run_end(positions, fillets[i], i);
        let straight = pieces + run_pieces(position, rotation, end, end_rotation);
        match fillets[i] {
            Some(fillet) => {
                let (exit, exit_rotation) = fillet_exit(positions, fillet, i);
                (
                    straight.push(fillet_arc(fillet, end, end_rotation, exit_rotation)),
                    exit,
                    exit_rotation,
                )
            },
            None => (straight, end, end_rotation),
        }
    }
}

/// One leg of a path, a straight run or the arc of a fillet, and the piece that it
/// adds. A run that is not worth a piece adds none.
pub struct Leg {
    pub from: Vector3,
    pub to: Vector3,
    pub start_rotation: Orientation,
    pub end_rotation: Orientation,
    pub piece: Option<PathPiece>,
}

/// The legs of the first `count` segments.
pub open spec fn legs(
    positions: Seq<Vector3>,
    fillets: Seq<Option<CornerFillet>>,
    count: nat,
) -> Seq<Leg>
    decreases count,
{
    if count == 0 {
        Seq::empty()
    } else {
        let i = count as int;
        let (_, position, rotation) = traced(positions, fillets, (count - 1) as nat);
        let (end, end_rotation) = run_end(positions, fillets[i], i);
        let run = run_pieces(position, rotation, end, end_rotation);
        let straight = legs(positions, fillets, (count - 1) as nat).push(
            Leg {
                from: position,
                to: end,
                start_rotation: rotation,
                end_rotation,
                piece: if run.len() > 0 {
                    Some(run[0])
                } else {
                    None
                },
            },
        );
        match fillets[i] {
            Some(fillet) => {
                let (exit, exit_rotation) = fillet_exit(positions, fillet, i);
                straight.push(
                    Leg {
                        from: end,
                        to: exit,
                        start_rotation: end_rotation,
                        end_rotation: exit_rotation,
                        piece: Some(fillet_arc(fillet, end, end_rotation, exit_rotation)),
                    },
                )
            },
            None => straight,
        }
    }
}

/// The pieces that legs add, in order.
pub open spec fn pieces_of(legs: Seq<Leg>) -> Seq<PathPiece>
    decreases legs.len(),
{
    if legs.len() == 0 {
        Seq::empty()
    } else {
        match legs.last().piece {
            Some(piece) => pieces_of(legs.drop_last()).push(piece),
            None => pieces_of(legs.drop_last()),
        }
    }
}

impl Leg {
    /// Whether the leg's piece leads from its start to its end. A line's
    /// displacement is the difference of the two points. An arc sets out from the
    /// first point as seen from the center; the other point is where the fillet of a
    /// waypoint is left, and the arc turns about that fillet's center and axis
    /// through its sweep. A run without a piece is not longer than a line that is
    /// worth one.
    pub open spec fn leads(
        self,
        positions: Seq<Vector3>,
        fillets: Seq<Option<CornerFillet>>,
    ) -> bool {
        match self.piece {
            Some(piece) => {
                &&& piece.start_rotation == self.start_rotation
                &&& piece.end_rotation == self.end_rotation
                &&& match piece.kind {
                    PieceKind::Line { start, direction } => {
                        &&& start == self.from
                        &&& direction == self.to.difference(self.from)
                        &&& piece.length == direction.length()
                    },
                    PieceKind::Arc { .. } => exists|i: int|
                        0 < i < fillets.len() && #[trigger] follows_fillet(
                            self,
                            positions,
                            fillets,
                            i,
                        ),
                }
            },
            None => !(Double { bits: SHORT }).less(self.to.difference(self.from).length()),
        }
    }
}

/// Whether a leg is the arc of the fillet of a waypoint.
pub open spec fn follows_fillet(
    leg: Leg,
    positions: Seq<Vector3>,
    fillets: Seq<Option<CornerFillet>>,
    i: int,
) -> bool {
    &&& fillets[i] matches Some(fillet) && leg.piece matches Some(piece)
        && piece.kind matches PieceKind::Arc { center, start_offset, axis, sweep } && {
        &&& leg.from == run_end(positions, fillets[i], i).0
        &&& start_offset == leg.from.difference(center)
        &&& leg.to == fillet_exit(positions, fillet, i).0
        &&& center == fillet.center
        &&& axis == fillet.axis
        &&& sweep == fillet.sweep
        &&& piece.length == fillet.radius.product(fillet.sweep)
    }
}

/// A rounded path is connected: its legs lead from the first waypoint, each from
/// where the one before it ended and in the orientation it ended in, and its pieces
/// are those of the legs.
proof fn lemma_legs_are_connected(
    positions: Seq<Vector3>,
    fillets: Seq<Option<CornerFillet>>,
    count: nat,
)
    requires
        count < positions.len(),
        fillets.len() == positions.len(),
    ensures
        ({
            let way = legs(positions, fillets, count);
            let (pieces, position, rotation) = traced(positions, fillets, count);
            &&& count > 0 ==> way.len() > 0 && way[0].from == positions[0]
                && way[0].start_rotation == Orientation::Waypoint(0) && way.last().to == position
                && way.last().end_rotation == rotation
            &&& forall|k: int| 0 <= k < way.len() ==> (#[trigger] way[k]).leads(positions, fillets)
            &&& forall|k: int|
                0 <= k < way.len() - 1 ==> (#[trigger] way[k]).to == way[k + 1].from
                    && way[k].end_rotation == way[k + 1].start_rotation
            &&& pieces_of(way) == pieces
        }),
    decreases count,
{
    if count > 0 {
        let i = count as int;
        lemma_legs_are_connected(positions, fillets, (count - 1) as nat);
        let before = legs(positions, fillets, (count - 1) as nat);
        let (pieces, position, rotation) = traced(positions, fillets, (count - 1) as nat);
        let (end, end_rotation) = run_end(positions, fillets[i], i);
        let run = run_pieces(position, rotation, end, end_rotation);
        let leg = Leg {
            from: position,
            to: end,
            start_rotation: rotation,
            end_rotation,
            piece: if run.len() > 0 {
                Some(run[0])
            } else {
                None
            },
        };
        let straight = before.push(leg);
        assert(straight.drop_last() =~= before);
        assert(pieces_of(straight) =~= pieces + run);
        assert(leg.leads(positions, fillets));
        match fillets[i] {
            Some(fillet) => {
                let (exit, exit_rotation) = fillet_exit(positions, fillet, i);
                let arc = fillet_arc(fillet, end, end_rotation, exit_rotation);
                let turn = Leg {
                    from: end,
                    to: exit,
                    start_rotation: end_rotation,
                    end_rotation: exit_rotation,
                    piece: Some(arc),
                };
                assert(follows_fillet(turn, positions, fillets, i));
                assert(turn.leads(positions, fillets));
                assert(straight.push(turn).drop_last() =~= straight);
            },
            None => {},
        }
    }
}

/// A rounded path is connected. Its legs lead from the first waypoint to the last
/// one, each from exactly where the one before it ended and in the orientation it
/// ended in. Its pieces are those of the legs: every arc, and every run but those
/// not longer than a line that is worth a piece. A path whose first segment is
/// longer than that has a piece.
pub proof fn lemma_path_is_connected(
    positions: Seq<Vector3>,
    angles: Seq<CornerAngles>,
    radius: Double,
)
    requires
        2 <= positions.len() <= usize::MAX,
    ensures
        ({
            let last = (positions.len() - 1) as nat;
            let fillets = fillets_of(positions, angles, radius);
            let way = legs(positions, fillets, last);
            &&& way.len() > 0
            &&& way[0].from == positions[0]
            &&& way[0].start_rotation == Orientation::Waypoint(0)
            &&& way.last().to == positions.last()
            &&& way.last().end_rotation == (Orientation::Between {
                segment: (last - 1) as usize,
                t: Double { bits: ONE },
            })
            &&& forall|k: int| 0 <= k < way.len() ==> (#[trigger] way[k]).leads(positions, fillets)
            &&& forall|k: int|
                0 <= k < way.len() - 1 ==> (#[trigger] way[k]).to == way[k + 1].from
                    && way[k].end_rotation == way[k + 1].start_rotation
            &&& pieces_of(way) == traced(positions, fillets, last).0
            &&& (Double { bits: SHORT }).less(positions[1].difference(positions[0]).length())
                ==> traced(positions, fillets, last).0.len() > 0
        }),
{
    let last = (positions.len() - 1) as nat;
    let fillets = fillets_of(positions, angles, radius);
    lemma_legs_are_connected(positions, fillets, last);
    assert(fillets[last as int] is None);
    if (Double { bits: SHORT }).less(positions[1].difference(positions[0]).length()) {
        lemma_pieces_stay(positions, fillets, last);
    }
}

/// A path that has a piece after its first segment keeps it.
proof fn lemma_pieces_stay(
    positions: Seq<Vector3>,
    fillets: Seq<Option<CornerFillet>>,
    count: nat,
)
    requires
        1 <= count < positions.len(),
        (Double { bits: SHORT }).less(positions[1].difference(positions[0]).length()),
    ensures
        traced(positions, fillets, count).0.len() > 0,
    decreases count,
{
    if count > 1 {
        lemma_pieces_stay(positions, fillets, (count - 1) as nat);
    } else {
        assert(traced(positions, fillets, 0).1 == positions[0]);
    }
}

/// Build the alternating line/arc pieces of the rounded path. Collinear and
/// reversal corners (no plane to fillet in, or no tangent arc exists) are left
/// sharp. `fillets` has one place per waypoint, none at either end.
pub fn rounded_pieces(positions: &Vec<Vector3>, fillets: &Vec<Option<CornerFillet>>) -> (pieces: Vec<
    PathPiece,
>)
    requires
        positions@.len() >= 1,
        fillets@.len() == positions@.len(),
        fillets@[fillets@.len() - 1] is None,
    ensures
        pieces@ == traced(positions@, fillets@, (positions@.len() - 1) as nat).0,
{
    let n: usize = positions.len();
    let mut pieces: Vec<PathPiece> = Vec::new();
    let mut cursor_position: Vector3 = positions[0];
    let mut cursor_rotation: Orientation = Orientation::Waypoint(0);
    let mut i: usize = 1;
    while i < n
        invariant
            1 <= i <= n,
            n == positions@.len(),
            fillets@.len() == n,
            fillets@[n - 1] is None,
            (pieces@, cursor_position, cursor_rotation) == traced(
                positions@,
                fillets@,
                (i - 1) as nat,
            ),
        decreases n - i,
    {
        let ghost before = pieces@;
        let (line_end, end_rotation): (Vector3, Orientation) = match fillets[i] {
            Some(fillet) => {
                let segment: Vector3 = positions[i].minus(positions[i - 1]);
                let length: Double = segment.norm();
                (
                    positions[i].minus(segment.times(fillet.cut.over(length))),
                    Orientation::Between {
                        segment: i - 1,
                        t: length.minus(fillet.cut).over(length),
                    },
                )
            },
            None => (
                positions[i],
                Orientation::Between { segment: i - 1, t: Double { bits: ONE } },
            ),
        };
        let line_vector: Vector3 = line_end.minus(cursor_position);
        let line_length: Double = line_vector.norm();
        if (Double { bits: SHORT }).lt(line_length) {
            pieces.push(
                PathPiece {
                    length: line_length,
                    start_rotation: cursor_rotation,
                    end_rotation,
                    kind: PieceKind::Line { start: cursor_position, direction: line_vector },
                },
            );
        }
        assert(pieces@ =~= before + run_pieces(
            cursor_position,
            cursor_rotation,
            line_end,
            end_rotation,
        ));
        cursor_position = line_end;
        cursor_rotation = end_rotation;

        if let Some(fillet) = fillets[i] {
            let next_segment: Vector3 = positions[i + 1].minus(positions[i]);
            let next_length: Double = next_segment.norm();
            let exit_rotation: Orientation = Orientation::Between {
                segment: i,
                t: fillet.cut.over(next_length),
            };
            pieces.push(
                PathPiece {
                    length: fillet.radius.times(fillet.sweep),
                    start_rotation: cursor_rotation,
                    end_rotation: exit_rotation,
                    kind: PieceKind::Arc {
                        center: fillet.center,
                        start_offset: cursor_position.minus(fillet.center),
                        axis: fillet.axis,
                        sweep: fillet.sweep,
                    },
                },
            );
            cursor_position = positions[i].plus(next_segment.times(fillet.cut.over(next_length)));
            cursor_rotation = exit_rotation;
        }
        i = i + 1;
    }
    pieces
}

/// The length of the first `count` pieces.
pub open spec fn length_of(pieces: Seq<PathPiece>, count: nat) -> Double
    decreases count,
{
    if count == 0 {
        Double { bits: 0 }
    } else {
        length_of(pieces, (count - 1) as nat).sum(pieces[count - 1].length)
    }
}

/// The piece that a distance from the start of piece `from` falls on, and the
/// fraction of that piece.
pub open spec fn locate(pieces: Seq<PathPiece>, distance: Double, from: nat) -> Option<
    (nat, Double),
>
    decreases pieces.len() - from,
{
    if from >= pieces.len() {
        None
    } else {
        let length = pieces[from as int].length;
        if distance.at_most(length) {
            Some((from, distance.quotient(length)))
        } else {
            locate(pieces, distance.difference(length), from + 1)
        }
    }
}

/// The pose at a fraction `index / last` of the length of a path. Rounding that
/// spills past the last piece lands on its end.
pub open spec fn sample_at(pieces: Seq<PathPiece>, index: nat, last: nat) -> Sample {
    let distance = length_of(pieces, pieces.len()).product(Double::of_count(index)).quotient(
        Double::of_count(last),
    );
    match locate(pieces, distance, 0) {
        Some((piece, t)) => pose_on(pieces[piece as int], t),
        None => pose_on(pieces.last(), Double { bits: ONE }),
    }
}

/// The number of poses of an interpolated path, rounded or not.
pub open spec fn pose_count(waypoints: nat, poses_per_segment: nat) -> nat {
    1 + (waypoints - 1) as nat * poses_per_segment
}

/// A rounded path sampled uniformly by arc length, both ends being the
/// waypoints themselves.
pub open spec fn rounded_samples(
    pieces: Seq<PathPiece>,
    waypoints: nat,
    poses_per_segment: nat,
) -> Seq<Sample> {
    let count = pose_count(waypoints, poses_per_segment);
    Seq::new(
        count,
        |index: int|
            if index == 0 {
                Sample::Waypoint(0)
            } else if index == count - 1 {
                Sample::Waypoint((waypoints - 1) as usize)
            } else {
                sample_at(pieces, index as nat, (count - 1) as nat)
            },
    )
}

/// A path with sharp corners: the first waypoint, then each segment in equal
/// steps.
pub open spec fn plain_samples(waypoints: nat, poses_per_segment: nat) -> Seq<Sample> {
    Seq::new(
        pose_count(waypoints, poses_per_segment),
        |index: int|
            if index == 0 {
                Sample::Waypoint(0)
            } else {
                Sample::Along {
                    segment: ((index - 1) / poses_per_segment as int) as usize,
                    t: Double::of_count(
                        ((index - 1) % poses_per_segment as int + 1) as nat,
                    ).quotient(Double::of_count(poses_per_segment)),
                }
            },
    )
}

/// Where the waypoints are.
pub open spec fn positions_of(waypoints: Seq<Pose>) -> Seq<Vector3> {
    Seq::new(
        waypoints.len(),
        |i: int|
            Vector3 {
                x: waypoints[i].xyz@[0],
                y: waypoints[i].xyz@[1],
                z: waypoints[i].xyz@[2],
            },
    )
}

/// Finds the piece that a distance from the start falls on.
fn find(pieces: &Vec<PathPiece>, distance: Double) -> (result: Option<(usize, Double)>)
    ensures
        match result {
            Some((piece, t)) => piece < pieces@.len() && locate(pieces@, distance, 0) == Some(
                (piece as nat, t),
            ),
            None => locate(pieces@, distance, 0) is None,
        },
{
    let mut rest: Double = distance;
    let mut k: usize = 0;
    while k < pieces.len()
        invariant
            k <= pieces@.len(),
            locate(pieces@, distance, 0) == locate(pieces@, rest, k as nat),
        decreases pieces@.len() - k,
    {
        let length: Double = pieces[k].length;
        if rest.le(length) {
            return Some((k, rest.over(length)));
        }
        rest = rest.minus(length);
        k = k + 1;
    }
    None
}

/// Sample the rounded path uniformly by arc length, matching the unrounded pose
/// count (1 + segments * poses_per_segment), endpoints exact.
pub fn sample_rounded(
    pieces: &Vec<PathPiece>,
    waypoints: usize,
    poses_per_segment: usize,
) -> (samples: Vec<Sample>)
    requires
        pieces@.len() >= 1,
        waypoints >= 1,
        pose_count(waypoints as nat, poses_per_segment as nat) <= usize::MAX,
    ensures
        samples@ == rounded_samples(pieces@, waypoints as nat, poses_per_segment as nat),
{
    let mut total_length: Double = Double { bits: 0 };
    let mut k: usize = 0;
    while k < pieces.len()
        invariant
            k <= pieces@.len(),
            total_length == length_of(pieces@, k as nat),
        decreases pieces@.len() - k,
    {
        total_length = total_length.plus(pieces[k].length);
        k = k + 1;
    }
    let count: usize = 1 + (waypoints - 1) * poses_per_segment;
    let last: Double = Double::from_count(count - 1);
    let ghost goal = rounded_samples(pieces@, waypoints as nat, poses_per_segment as nat);
    let mut samples: Vec<Sample> = Vec::new();
    let mut index: usize = 0;
    while index < count
        invariant
            index <= count,
            1 <= count,
            count == pose_count(waypoints as nat, poses_per_segment as nat),
            waypoints >= 1,
            pieces@.len() >= 1,
            total_length == length_of(pieces@, pieces@.len()),
            last == Double::of_count((count - 1) as nat),
            goal == rounded_samples(pieces@, waypoints as nat, poses_per_segment as nat),
            samples@.len() == index,
            forall|i: int| 0 <= i < index ==> #[trigger] samples@[i] == goal[i],
        decreases count - index,
    {
        if index == 0 {
            samples.push(Sample::Waypoint(0));
        } else if index == count - 1 {
            samples.push(Sample::Waypoint(waypoints - 1));
        } else {
            let distance: Double = total_length.times(Double::from_count(index)).over(last);
            let sample: Sample = match find(pieces, distance) {
                Some((piece, t)) => pieces[piece].pose_at(t),
                None => pieces[pieces.len() - 1].pose_at(Double { bits: ONE }),
            };
            samples.push(sample);
        }
        index = index + 1;
    }
    assert(samples@ =~= goal);
    samples
}

/// Steps through every segment, leaving the corners sharp.
fn sample_plain(waypoints: usize, poses_per_segment: usize) -> (samples: Vec<Sample>)
    requires
        waypoints >= 1,
        pose_count(waypoints as nat, poses_per_segment as nat) <= usize::MAX,
    ensures
        samples@ == plain_samples(waypoints as nat, poses_per_segment as nat),
{
    let count: usize = 1 + (waypoints - 1) * poses_per_segment;
    let whole: Double = Double::from_count(poses_per_segment);
    let ghost goal = plain_samples(waypoints as nat, poses_per_segment as nat);
    let mut samples: Vec<Sample> = Vec::new();
    samples.push(Sample::Waypoint(0));
    proof {
        if poses_per_segment == 0 {
            assert((waypoints - 1) * poses_per_segment == 0) by (nonlinear_arith)
                requires
                    poses_per_segment == 0,
            ;
        }
    }
    let mut index: usize = 1;
    while index < count
        invariant
            1 <= index <= count,
            count == pose_count(waypoints as nat, poses_per_segment as nat),
            count > 1 ==> poses_per_segment > 0,
            whole == Double::of_count(poses_per_segment as nat),
            goal == plain_samples(waypoints as nat, poses_per_segment as nat),
            samples@.len() == index,
            forall|i: int| 0 <= i < index ==> #[trigger] samples@[i] == goal[i],
        decreases count - index,
    {
        let segment: usize = (index - 1) / poses_per_segment;
        let step: usize = (index - 1) % poses_per_segment + 1;
        samples.push(Sample::Along { segment, t: Double::from_count(step).over(whole) });
        index = index + 1;
    }
    assert(samples@ =~= goal);
    samples
}

/// Whether corners are to be rounded: there is a radius, and a corner.
pub open spec fn rounds_corners(config: PathConfig) -> bool {
    (Double { bits: 0 }).less(config.corner_radius) && config.waypoints@.len() >= 3
}

/// The poses of an interpolated path. A path without any length has nothing to
/// round.
pub open spec fn interpolated(config: PathConfig, angles: Seq<CornerAngles>) -> Seq<Sample> {
    let n = config.waypoints@.len();
    let positions = positions_of(config.waypoints@);
    let pieces = traced(
        positions,
        fillets_of(positions, angles, config.corner_radius),
        (n - 1) as nat,
    ).0;
    if rounds_corners(config) && pieces.len() > 0 {
        rounded_samples(pieces, n, config.poses_per_segment as nat)
    } else {
        plain_samples(n, config.poses_per_segment as nat)
    }
}

/// The angles of a corner without a turn.
pub open spec fn straight() -> CornerAngles {
    CornerAngles {
        turn: Double { bits: 0 },
        half_tan: Double { bits: 0 },
        half_cos: Double { bits: ONE },
    }
}

/// Whether these are the angles of the corners: what `measure` gives for the
/// cosine of each.
pub open spec fn are_angles<A>(
    corners: Seq<Option<Corner>>,
    measure: A,
    angles: Seq<CornerAngles>,
) -> bool where A: Fn(Double) -> CornerAngles {
    &&& angles.len() == corners.len()
    &&& forall|i: int|
        0 <= i < corners.len() ==> match corners[i] {
            Some(corner) => call_ensures(measure, (corner.cosine,), #[trigger] angles[i]),
            None => angles[i] == straight(),
        }
}

/// Whether the fillet of a waypoint has to be clamped to fit.
pub open spec fn clamps_at(config: PathConfig, angles: Seq<CornerAngles>, waypoint: int) -> bool {
    &&& rounds_corners(config)
    &&& 0 <= waypoint < config.waypoints@.len()
    &&& fillets_of(positions_of(config.waypoints@), angles, config.corner_radius)[waypoint]
        matches Some(fillet) && fillet.clamped
}

impl Orientation {
    /// Whether the waypoints that this names exist.
    pub open spec fn lies_on(self, waypoints: nat) -> bool {
        match self {
            Orientation::Waypoint(i) => i < waypoints,
            Orientation::Between { segment, .. } => segment + 1 < waypoints,
        }
    }
}

impl Sample {
    /// Whether the waypoints that this names exist.
    pub open spec fn lies_on(self, waypoints: nat) -> bool {
        match self {
            Sample::Waypoint(i) => i < waypoints,
            Sample::Along { segment, .. } => segment + 1 < waypoints,
            Sample::OnPiece { from, to, .. } => from.lies_on(waypoints) && to.lies_on(waypoints),
        }
    }
}

/// The orientations of the pieces of a path are those of its waypoints.
proof fn lemma_pieces_lie_on_the_path(
    positions: Seq<Vector3>,
    angles: Seq<CornerAngles>,
    radius: Double,
    count: nat,
)
    requires
        count < positions.len() <= usize::MAX,
    ensures
        ({
            let (pieces, _, rotation) = traced(
                positions,
                fillets_of(positions, angles, radius),
                count,
            );
            &&& rotation.lies_on(positions.len())
            &&& forall|k: int|
                0 <= k < pieces.len() ==> (#[trigger] pieces[k]).start_rotation.lies_on(
                    positions.len(),
                ) && pieces[k].end_rotation.lies_on(positions.len())
        }),
    decreases count,
{
    if count > 0 {
        lemma_pieces_lie_on_the_path(positions, angles, radius, (count - 1) as nat);
        let fillets = fillets_of(positions, angles, radius);
        let i = count as int;
        assert(fillets[i] is Some ==> i < positions.len() - 1);
    }
}

/// Every pose of a path lies on it: the waypoints and segments that it names
/// exist.
pub proof fn lemma_samples_lie_on_the_path(config: PathConfig, angles: Seq<CornerAngles>)
    requires
        1 <= config.waypoints@.len() <= usize::MAX,
    ensures
        forall|i: int|
            0 <= i < interpolated(config, angles).len() ==> (#[trigger] interpolated(
                config,
                angles,
            )[i]).lies_on(config.waypoints@.len()),
{
    let n = config.waypoints@.len();
    let steps = config.poses_per_segment as nat;
    let positions = positions_of(config.waypoints@);
    let radius = config.corner_radius;
    let pieces = traced(positions, fillets_of(positions, angles, radius), (n - 1) as nat).0;
    lemma_pieces_lie_on_the_path(positions, angles, radius, (n - 1) as nat);
    let samples = interpolated(config, angles);
    assert forall|index: int| 0 <= index < samples.len() implies (#[trigger] samples[index]).lies_on(
        n,
    ) by {
        if rounds_corners(config) && pieces.len() > 0 {
            let count = pose_count(n, steps);
            if 0 < index < count - 1 {
                let distance = length_of(pieces, pieces.len()).product(
                    Double::of_count(index as nat),
                ).quotient(Double::of_count((count - 1) as nat));
                lemma_located_piece_exists(pieces, distance, 0);
                assert(pieces.last() == pieces[pieces.len() - 1]);
            }
        } else if index > 0 {
            let segments = (n - 1) as nat;
            assert(steps > 0 && (index - 1) / steps as int <= segments - 1 && (index - 1)
                / steps as int >= 0) by (nonlinear_arith)
                requires
                    0 < index < 1 + segments * steps,
            ;
        }
    }
}

/// Every piece of a path has a length: a positive one, never a NaN. So has the path
/// up to any piece.
pub proof fn lemma_lengths_are_positive(
    positions: Seq<Vector3>,
    angles: Seq<CornerAngles>,
    radius: Double,
    count: nat,
    upto: nat,
)
    requires
        count < positions.len(),
        upto <= traced(positions, fillets_of(positions, angles, radius), count).0.len(),
    ensures
        ({
            let pieces = traced(positions, fillets_of(positions, angles, radius), count).0;
            &&& forall|k: int|
                0 <= k < pieces.len() ==> (Double { bits: 0 }).less(
                    (#[trigger] pieces[k]).length,
                )
            &&& (Double { bits: 0 }).at_most(length_of(pieces, upto))
        }),
    decreases count, upto,
{
    let fillets = fillets_of(positions, angles, radius);
    let pieces = traced(positions, fillets, count).0;
    if count > 0 {
        let i = count as int;
        lemma_lengths_are_positive(positions, angles, radius, (count - 1) as nat, 0);
        assert(fillets[i] matches Some(fillet) ==> fillet.has_arc());
    }
    if upto > 0 {
        lemma_lengths_are_positive(positions, angles, radius, count, (upto - 1) as nat);
        lemma_sum_of_positive(length_of(pieces, (upto - 1) as nat), pieces[upto - 1].length);
    }
}

/// A distance falls on a piece that exists.
proof fn lemma_located_piece_exists(pieces: Seq<PathPiece>, distance: Double, from: nat)
    ensures
        locate(pieces, distance, from) matches Some((piece, _)) ==> piece < pieces.len(),
    decreases pieces.len() - from,
{
    if from < pieces.len() && !distance.at_most(pieces[from as int].length) {
        lemma_located_piece_exists(
            pieces,
            distance.difference(pieces[from as int].length),
            from + 1,
        );
    }
}

/// Without a radius the corners stay sharp: the path is interpolated segment by
/// segment.
pub proof fn lemma_no_radius_keeps_corners_sharp(config: PathConfig, angles: Seq<CornerAngles>)
    requires
        config.corner_radius.zero(),
    ensures
        interpolated(config, angles) == plain_samples(
            config.waypoints@.len(),
            config.poses_per_segment as nat,
        ),
{
}

impl PathConfig {
    /// Where the waypoints are.
    pub fn positions(&self) -> (positions: Vec<Vector3>)
        ensures
            positions@ == positions_of(self.waypoints@),
    {
        let mut positions: Vec<Vector3> = Vec::new();
        let mut i: usize = 0;
        while i < self.waypoints.len()
            invariant
                i <= self.waypoints@.len(),
                positions@.len() == i,
                forall|j: int|
                    0 <= j < i ==> #[trigger] positions@[j] == positions_of(self.waypoints@)[j],
            decreases self.waypoints@.len() - i,
        {
            let xyz: [Double; 3] = self.waypoints[i].xyz;
            positions.push(Vector3 { x: xyz[0], y: xyz[1], z: xyz[2] });
            i = i + 1;
        }
        assert(positions@ =~= positions_of(self.waypoints@));
        positions
    }

    /// The angles of the corners, one place per waypoint. `measure` gives the
    /// angles of a turn from its cosine; a corner that is left sharp has none.
    pub fn corner_angles<A>(&self, measure: A) -> (angles: Vec<CornerAngles>) where
        A: Fn(Double) -> CornerAngles,

        requires
            forall|cosine: Double| call_requires(measure, (cosine,)),
        ensures
            are_angles(corners_of(positions_of(self.waypoints@)), measure, angles@),
    {
        let places: Vec<Option<Corner>> = corners(&self.positions());
        let mut angles: Vec<CornerAngles> = Vec::new();
        let mut i: usize = 0;
        while i < places.len()
            invariant
                i <= places@.len(),
                forall|cosine: Double| call_requires(measure, (cosine,)),
                angles@.len() == i,
                forall|j: int|
                    0 <= j < i ==> match places@[j] {
                        Some(corner) => call_ensures(
                            measure,
                            (corner.cosine,),
                            #[trigger] angles@[j],
                        ),
                        None => angles@[j] == straight(),
                    },
            decreases places@.len() - i,
        {
            let found: CornerAngles = match places[i] {
                Some(corner) => measure(corner.cosine),
                None => CornerAngles {
                    turn: Double { bits: 0 },
                    half_tan: Double { bits: 0 },
                    half_cos: Double { bits: ONE },
                },
            };
            angles.push(found);
            i = i + 1;
        }
        angles
    }

    /// The waypoints whose fillet had to be clamped to fit, in order.
    pub fn clamped_corners(&self, angles: &Vec<CornerAngles>) -> (waypoints: Vec<usize>)
        requires
            angles@.len() == self.waypoints@.len(),
        ensures
            forall|i: int|
                #![trigger clamps_at(*self, angles@, i)]
                0 <= i <= usize::MAX ==> (waypoints@.contains(i as usize) <==> clamps_at(
                    *self,
                    angles@,
                    i,
                )),
            forall|a: int, b: int|
                0 <= a < b < waypoints@.len() ==> waypoints@[a] < waypoints@[b],
    {
        let mut waypoints: Vec<usize> = Vec::new();
        if (Double { bits: 0 }).lt(self.corner_radius) && self.waypoints.len() >= 3 {
            let positions: Vec<Vector3> = self.positions();
            let rounded: Vec<Option<CornerFillet>> = fillets(
                &positions,
                angles,
                self.corner_radius,
            );
            let mut i: usize = 0;
            while i < rounded.len()
                invariant
                    i <= rounded@.len(),
                    rounds_corners(*self),
                    rounded@ == fillets_of(
                        positions_of(self.waypoints@),
                        angles@,
                        self.corner_radius,
                    ),
                    forall|a: int| 0 <= a < waypoints@.len() ==> #[trigger] waypoints@[a] < i,
                    forall|a: int|
                        0 <= a < waypoints@.len() ==> clamps_at(
                            *self,
                            angles@,
                            #[trigger] waypoints@[a] as int,
                        ),
                    forall|j: int|
                        0 <= j < i && #[trigger] clamps_at(*self, angles@, j)
                            ==> waypoints@.contains(j as usize),
                    forall|a: int, b: int|
                        0 <= a < b < waypoints@.len() ==> waypoints@[a] < waypoints@[b],
                decreases rounded@.len() - i,
            {
                let ghost before = waypoints@;
                let clamped: bool = match rounded[i] {
                    Some(fillet) => fillet.clamped,
                    None => false,
                };
                if clamped {
                    waypoints.push(i);
                }
                assert(clamped == clamps_at(*self, angles@, i as int));
                assert forall|j: int|
                    0 <= j <= i && #[trigger] clamps_at(
                        *self,
                        angles@,
                        j,
                    ) implies waypoints@.contains(j as usize) by {
                    if j < i {
                        assert(before.contains(j as usize));
                        let a = choose|a: int| 0 <= a < before.len() && before[a] == j as usize;
                        assert(waypoints@[a] == j as usize);
                    } else {
                        assert(waypoints@.last() == i);
                    }
                }
                i = i + 1;
            }
        }
        waypoints
    }

    /// Interpolate waypoints into a pose list: translation lerp, rotation slerp.
    /// With a nonzero `corner_radius`, interior corners are replaced by tangent
    /// circular-arc fillets and the path is resampled uniformly by arc length
    /// (same total pose count either way).
    ///
    /// `angles` has one place per waypoint: the angles of those corners that can
    /// be rounded, of which `corners` gives the cosines.
    pub fn interpolate(&self, angles: &Vec<CornerAngles>) -> (samples: Vec<Sample>)
        requires
            self.waypoints@.len() >= 1,
            (Double { bits: 0 }).at_most(self.corner_radius),
            angles@.len() == self.waypoints@.len(),
            pose_count(self.waypoints@.len(), self.poses_per_segment as nat) <= usize::MAX,
        ensures
            samples@ == interpolated(*self, angles@),
            samples@.len() == pose_count(self.waypoints@.len(), self.poses_per_segment as nat),
            forall|i: int|
                0 <= i < samples@.len() ==> (#[trigger] samples@[i]).lies_on(
                    self.waypoints@.len(),
                ),
    {
        let n: usize = self.waypoints.len();
        proof {
            lemma_samples_lie_on_the_path(*self, angles@);
        }
        if (Double { bits: 0 }).lt(self.corner_radius) && n >= 3 {
            let positions: Vec<Vector3> = self.positions();
            let rounded: Vec<Option<CornerFillet>> = fillets(
                &positions,
                angles,
                self.corner_radius,
            );
            let pieces: Vec<PathPiece> = rounded_pieces(&positions, &rounded);
            if pieces.len() > 0 {
                let samples: Vec<Sample> = sample_rounded(&pieces, n, self.poses_per_segment);
                assert(samples@ == interpolated(*self, angles@));
                return samples;
            }
        }
        let samples: Vec<Sample> = sample_plain(n, self.poses_per_segment);
        assert(samples@ == interpolated(*self, angles@));
        samples
    }
}

/// A path starts at the first waypoint and, where it has more than one pose, ends
/// at the last one: exactly there where the corners are rounded, otherwise at the
/// end of the last segment.
pub proof fn lemma_path_keeps_its_ends(config: PathConfig, angles: Seq<CornerAngles>)
    requires
        2 <= config.waypoints@.len() <= usize::MAX,
        0 < config.poses_per_segment,
    ensures
        ({
            let samples = interpolated(config, angles);
            let last = (config.waypoints@.len() - 1) as usize;
            &&& samples.len() > 1
            &&& samples[0] == Sample::Waypoint(0)
            &&& samples.last() == Sample::Waypoint(last) || samples.last() == (Sample::Along {
                segment: (last - 1) as usize,
                t: Double { bits: ONE },
            })
        }),
{
    let n = config.waypoints@.len();
    let steps = config.poses_per_segment as nat;
    let count = pose_count(n, steps);
    let intervals = (n - 1) as nat * steps;
    assert(intervals >= steps) by (nonlinear_arith)
        requires
            intervals == (n - 1) as nat * steps,
            n >= 2,
            steps > 0,
    ;
    // The last step of a segment is the whole of it.
    let index = (count - 1) as int;
    assert((index - 1) / steps as int == n - 2 && (index - 1) % steps as int == steps - 1) by {
        let segments = n - 2;
        assert(index == (segments + 1) * steps);
        assert(index - 1 == segments * (steps as int) + (steps - 1)) by (nonlinear_arith)
            requires
                index == (segments + 1) * steps,
        ;
        lemma_fundamental_div_mod_converse(index - 1, steps as int, n - 2, steps - 1);
    }
    lemma_count_over_itself(steps);
}

/// Whatever the radius, a path of the same waypoints and density has the same
/// number of poses.
pub proof fn lemma_rounding_keeps_the_pose_count(
    config: PathConfig,
    other: PathConfig,
    angles: Seq<CornerAngles>,
)
    requires
        config.waypoints@.len() == other.waypoints@.len(),
        config.poses_per_segment == other.poses_per_segment,
    ensures
        interpolated(config, angles).len() == interpolated(other, angles).len(),
{
}

} // verus!
