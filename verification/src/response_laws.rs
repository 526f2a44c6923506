//! What the avatar-space error measures: displacements of bound vertices, and nothing else.

use vstd::arithmetic::power2::{lemma2_to64, lemma2_to64_rest, lemma_pow2_pos, pow2};
use vstd::prelude::*;

use crate::arithmetic::{lemma_infinity_64, lemma_sign_of_units_64};
use crate::arithmetic_laws::{lemma_rounded_is_a_number, lemma_units_of_zero};
use crate::arkit::ArkitBlendshape;
use crate::avatar_response::{
    bound_vertices, channel_error, displacement, pushed_by, response_rms, squared_displacement, vertex_error,
    AvatarMorphDelta, AvatarVertexKey, PerfectSyncMorphResponse,
};
use crate::binary::{magnitude_units, Binary32, Binary64};
use crate::matrix::running_total;
use crate::rounding::lemma_nearest_ratio_exists;
use crate::rounding_error::lemma_widened;

verus! {

/// The numbers are opposites of each other; zeros and what is not a number are their own.
pub open spec fn are_opposite(left: Binary64, right: Binary64) -> bool {
    &&& left.magnitude() == right.magnitude()
    &&& left.magnitude() == 0 || left.nan() || left.negative() != right.negative()
}

/// Opposite summands have opposite sums.
proof fn lemma_opposite_sums(a: Binary64, b: Binary64, x: Binary64, y: Binary64)
    requires
        are_opposite(a, x),
        are_opposite(b, y),
    ensures
        are_opposite(a.plus(b), x.plus(y)),
{
    lemma_infinity_64();
    if a.finite() && b.finite() {
        lemma_sign_of_units_64(a);
        lemma_sign_of_units_64(b);
        lemma_sign_of_units_64(x);
        lemma_sign_of_units_64(y);
        lemma_sign_of_units_64(Binary64 { bits: 0 });
        let exact = a.units() + b.units();
        assert(x.units() == -a.units() && y.units() == -b.units());
        if exact != 0 {
            let size = (if exact < 0 {
                -exact
            } else {
                exact
            }) as nat;
            lemma2_to64();
            lemma2_to64_rest();
            lemma_nearest_ratio_exists(size, 1, 52, 2047);
        }
    }
}

/// Opposite factors have opposite products.
proof fn lemma_opposite_products(a: Binary64, x: Binary64, factor: Binary64)
    requires
        are_opposite(a, x),
    ensures
        are_opposite(a.times(factor), x.times(factor)),
        a.times(a) == x.times(x),
{
    lemma_infinity_64();
    lemma2_to64();
    lemma2_to64_rest();
    lemma_pow2_pos(1074);
    let p = magnitude_units(a.magnitude() as nat, 52);
    let q = magnitude_units(factor.magnitude() as nat, 52);
    lemma_nearest_ratio_exists(p * q, pow2(1074), 52, 2047);
    lemma_nearest_ratio_exists(p * p, pow2(1074), 52, 2047);
}

/// The error of a channel, seen from the other side.
proof fn lemma_opposite_errors(predicted: Seq<Binary32>, teacher: Seq<Binary32>, channel: ArkitBlendshape)
    requires
        predicted[channel.position()].finite(),
        teacher[channel.position()].finite(),
        predicted[channel.position()].minus(teacher[channel.position()]).finite(),
    ensures
        are_opposite(channel_error(predicted, teacher, channel), channel_error(teacher, predicted, channel)),
{
    let (p, t) = (predicted[channel.position()], teacher[channel.position()]);
    let (d, e) = (p.minus(t), t.minus(p));
    lemma_infinity_64();
    lemma_units_of_zero();
    assert(p.negated().units() == -p.units() && t.negated().units() == -t.units());
    let exact = p.units() - t.units();
    if exact != 0 {
        let size = (if exact < 0 {
            -exact
        } else {
            exact
        }) as nat;
        lemma_rounded_is_a_number(size, 1);
        assert(d.magnitude() == e.magnitude());
    }
    assert(e.finite());
    lemma_widened(d);
    lemma_widened(e);
    crate::metric_laws::lemma_widened_magnitude(d, e);
}

/// The numbers of the bound channels are finite, and so are their differences.
pub open spec fn comparable(
    channels: Seq<(ArkitBlendshape, Vec<AvatarMorphDelta>)>,
    predicted: Seq<Binary32>,
    teacher: Seq<Binary32>,
) -> bool {
    forall|n: int|
        0 <= n < channels.len() ==> {
            let at = (#[trigger] channels[n]).0.position();
            &&& predicted[at].finite()
            &&& teacher[at].finite()
            &&& predicted[at].minus(teacher[at]).finite()
        }
}

proof fn lemma_opposite_pushes(
    start: Binary64,
    other: Binary64,
    deltas: Seq<AvatarMorphDelta>,
    key: AvatarVertexKey,
    axis: int,
    error: Binary64,
    back: Binary64,
    d: int,
)
    requires
        are_opposite(start, other),
        are_opposite(error, back),
    ensures
        are_opposite(
            pushed_by(start, deltas, key, axis, error, d),
            pushed_by(other, deltas, key, axis, back, d),
        ),
    decreases d,
{
    if d > 0 {
        lemma_opposite_pushes(start, other, deltas, key, axis, error, back, d - 1);
        let reach = deltas[d - 1].delta_xyz@[axis].widened();
        lemma_opposite_products(error, back, reach);
        lemma_opposite_sums(
            pushed_by(start, deltas, key, axis, error, d - 1),
            error.times(reach),
            pushed_by(other, deltas, key, axis, back, d - 1),
            back.times(reach),
        );
    }
}

proof fn lemma_opposite_displacements(
    channels: Seq<(ArkitBlendshape, Vec<AvatarMorphDelta>)>,
    key: AvatarVertexKey,
    axis: int,
    predicted: Seq<Binary32>,
    teacher: Seq<Binary32>,
    n: int,
)
    requires
        comparable(channels, predicted, teacher),
        n <= channels.len(),
    ensures
        are_opposite(
            displacement(channels, key, axis, predicted, teacher, n),
            displacement(channels, key, axis, teacher, predicted, n),
        ),
    decreases n,
{
    if n > 0 {
        lemma_opposite_displacements(channels, key, axis, predicted, teacher, n - 1);
        let channel = channels[n - 1].0;
        lemma_opposite_errors(predicted, teacher, channel);
        lemma_opposite_pushes(
            displacement(channels, key, axis, predicted, teacher, n - 1),
            displacement(channels, key, axis, teacher, predicted, n - 1),
            channels[n - 1].1@,
            key,
            axis,
            channel_error(predicted, teacher, channel),
            channel_error(teacher, predicted, channel),
            channels[n - 1].1@.len() as int,
        );
    }
}

/// The avatar-space error is a distance: it does not matter which of the two faces is the
/// teacher's.
pub proof fn lemma_response_error_is_symmetric(
    response: PerfectSyncMorphResponse,
    predicted: Seq<Binary32>,
    teacher: Seq<Binary32>,
)
    requires
        comparable(response.channels@, predicted, teacher),
    ensures
        response_rms(response, predicted, teacher) == response_rms(response, teacher, predicted),
{
    let channels = response.channels@;
    let keys = bound_vertices(response);
    let one_way = Seq::new(keys.len(), |v: int| vertex_error(channels, keys[v], predicted, teacher));
    let other_way = Seq::new(keys.len(), |v: int| vertex_error(channels, keys[v], teacher, predicted));
    assert forall|v: int| 0 <= v < keys.len() implies #[trigger] one_way[v] == other_way[v] by {
        let key = keys[v];
        assert forall|axis: int| 0 <= axis < 3 implies #[trigger] squared_displacement(
            channels,
            key,
            axis,
            predicted,
            teacher,
        ) == squared_displacement(channels, key, axis, teacher, predicted) by {
            let n = channels.len() as int;
            lemma_opposite_displacements(channels, key, axis, predicted, teacher, n);
            lemma_opposite_products(
                displacement(channels, key, axis, predicted, teacher, n),
                displacement(channels, key, axis, teacher, predicted, n),
                Binary64 { bits: 0 },
            );
        }
        assert(Seq::new(3, |axis: int| squared_displacement(channels, key, axis, predicted, teacher))
            =~= Seq::new(3, |axis: int| squared_displacement(channels, key, axis, teacher, predicted)));
    }
    assert(one_way =~= other_way);
}

/// Every delta of the response is finite.
pub open spec fn deltas_finite(channels: Seq<(ArkitBlendshape, Vec<AvatarMorphDelta>)>) -> bool {
    forall|n: int, d: int, axis: int|
        0 <= n < channels.len() && 0 <= d < channels[n].1@.len() && 0 <= axis < 3
            ==> (#[trigger] channels[n].1@[d].delta_xyz@[axis]).finite()
}

proof fn lemma_no_push(
    start: Binary64,
    deltas: Seq<AvatarMorphDelta>,
    key: AvatarVertexKey,
    axis: int,
    error: Binary64,
    d: int,
)
    requires
        start.magnitude() == 0,
        error.magnitude() == 0,
        d <= deltas.len(),
        forall|i: int| 0 <= i < deltas.len() ==> (#[trigger] deltas[i]).delta_xyz@[axis].finite(),
    ensures
        pushed_by(start, deltas, key, axis, error, d).magnitude() == 0,
    decreases d,
{
    if d > 0 {
        lemma_no_push(start, deltas, key, axis, error, d - 1);
        let reach = deltas[d - 1].delta_xyz@[axis];
        lemma_infinity_64();
        lemma_widened(reach);
        assert(error.times(reach.widened()).magnitude() == 0);
        lemma_zero_sum(pushed_by(start, deltas, key, axis, error, d - 1), error.times(reach.widened()));
    }
}

/// Zeros add up to zero.
pub proof fn lemma_zero_sum(left: Binary64, right: Binary64)
    requires
        left.magnitude() == 0,
        right.magnitude() == 0,
    ensures
        left.plus(right).magnitude() == 0,
{
    lemma_infinity_64();
    lemma_sign_of_units_64(left);
    lemma_sign_of_units_64(right);
    lemma_sign_of_units_64(Binary64 { bits: 0 });
}

/// Sums of zeros are zero.
pub proof fn lemma_zero_total(numbers: Seq<Binary64>, n: int)
    requires
        0 <= n <= numbers.len(),
        forall|i: int| 0 <= i < numbers.len() ==> (#[trigger] numbers[i]).magnitude() == 0,
    ensures
        running_total(numbers, n).magnitude() == 0,
    decreases n,
{
    if n > 0 {
        lemma_zero_total(numbers, n - 1);
        assert(numbers[n - 1].magnitude() == 0);
        lemma_zero_sum(running_total(numbers, n - 1), numbers[n - 1]);
    }
}

proof fn lemma_no_displacement(
    channels: Seq<(ArkitBlendshape, Vec<AvatarMorphDelta>)>,
    key: AvatarVertexKey,
    axis: int,
    face: Seq<Binary32>,
    n: int,
)
    requires
        comparable(channels, face, face),
        deltas_finite(channels),
        n <= channels.len(),
        0 <= axis < 3,
    ensures
        displacement(channels, key, axis, face, face, n).magnitude() == 0,
    decreases n,
{
    if n > 0 {
        lemma_no_displacement(channels, key, axis, face, n - 1);
        let value = face[channels[n - 1].0.position()];
        assert(value.finite());
        lemma_units_of_zero();
        assert(value.minus(value).magnitude() == 0);
        crate::gain_laws::lemma_widened_zero(value.minus(value));
        let deltas = channels[n - 1].1@;
        assert forall|i: int| 0 <= i < deltas.len() implies (#[trigger] deltas[i]).delta_xyz@[axis].finite() by {
            assert(channels[n - 1].1@[i].delta_xyz@[axis].finite());
        }
        lemma_no_push(
            displacement(channels, key, axis, face, face, n - 1),
            deltas,
            key,
            axis,
            channel_error(face, face, channels[n - 1].0),
            deltas.len() as int,
        );
    }
}

/// A face has no error against itself.
pub proof fn lemma_equal_faces_have_no_response_error(response: PerfectSyncMorphResponse, face: Seq<Binary32>)
    requires
        comparable(response.channels@, face, face),
        deltas_finite(response.channels@),
        0 < bound_vertices(response).len() <= 0x100_0000,
    ensures
        response_rms(response, face, face).magnitude() == 0,
{
    let channels = response.channels@;
    let keys = bound_vertices(response);
    let errors = Seq::new(keys.len(), |v: int| vertex_error(channels, keys[v], face, face));
    lemma_infinity_64();
    assert forall|v: int| 0 <= v < errors.len() implies (#[trigger] errors[v]).magnitude() == 0 by {
        let key = keys[v];
        let squares = Seq::new(3, |axis: int| squared_displacement(channels, key, axis, face, face));
        assert forall|axis: int| 0 <= axis < squares.len() implies (#[trigger] squares[axis]).magnitude() == 0 by {
            lemma_no_displacement(channels, key, axis, face, channels.len() as int);
        }
        lemma_zero_total(squares, 3);
    }
    lemma_zero_total(errors, errors.len() as int);
    crate::mean_laws::lemma_count_value((keys.len() * 3) as nat);
}

/// Channels that move no vertex do not matter: faces that agree in the channels of the
/// response have the same error.
pub proof fn lemma_only_bound_channels_matter(
    response: PerfectSyncMorphResponse,
    predicted: Seq<Binary32>,
    teacher: Seq<Binary32>,
    other: Seq<Binary32>,
    model: Seq<Binary32>,
)
    requires
        forall|n: int|
            0 <= n < response.channels@.len() ==> {
                let at = (#[trigger] response.channels@[n]).0.position();
                predicted[at] == other[at] && teacher[at] == model[at]
            },
    ensures
        response_rms(response, predicted, teacher) == response_rms(response, other, model),
{
    let channels = response.channels@;
    let keys = bound_vertices(response);
    let left = Seq::new(keys.len(), |v: int| vertex_error(channels, keys[v], predicted, teacher));
    let right = Seq::new(keys.len(), |v: int| vertex_error(channels, keys[v], other, model));
    assert forall|v: int| 0 <= v < keys.len() implies #[trigger] left[v] == right[v] by {
        let key = keys[v];
        assert forall|axis: int| 0 <= axis < 3 implies #[trigger] squared_displacement(
            channels,
            key,
            axis,
            predicted,
            teacher,
        ) == squared_displacement(channels, key, axis, other, model) by {
            lemma_same_displacement(channels, key, axis, predicted, teacher, other, model, channels.len() as int);
        }
        assert(Seq::new(3, |axis: int| squared_displacement(channels, key, axis, predicted, teacher))
            =~= Seq::new(3, |axis: int| squared_displacement(channels, key, axis, other, model)));
    }
    assert(left =~= right);
}

proof fn lemma_same_displacement(
    channels: Seq<(ArkitBlendshape, Vec<AvatarMorphDelta>)>,
    key: AvatarVertexKey,
    axis: int,
    predicted: Seq<Binary32>,
    teacher: Seq<Binary32>,
    other: Seq<Binary32>,
    model: Seq<Binary32>,
    n: int,
)
    requires
        n <= channels.len(),
        forall|n: int|
            0 <= n < channels.len() ==> {
                let at = (#[trigger] channels[n]).0.position();
                predicted[at] == other[at] && teacher[at] == model[at]
            },
    ensures
        displacement(channels, key, axis, predicted, teacher, n) == displacement(channels, key, axis, other, model, n),
    decreases n,
{
    if n > 0 {
        lemma_same_displacement(channels, key, axis, predicted, teacher, other, model, n - 1);
        assert(predicted[channels[n - 1].0.position()] == other[channels[n - 1].0.position()]);
    }
}

} // verus!
