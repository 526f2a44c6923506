//! Coefficient errors composed through the morph response of an avatar.

use vstd::prelude::*;

use crate::arkit::{Arkit52Coefficients, ArkitBlendshape};
use crate::binary::{Binary32, Binary64};
use crate::matrix::{sum_all, total};
use crate::unified_ablation::{UnifiedAblationError, VariantFrame};

verus! {

/// Sparse avatar vertex identity.
#[derive(Clone, Copy, Debug, PartialEq, Eq, PartialOrd, Ord, Structural)]
pub struct AvatarVertexKey {
    /// glTF mesh index.
    pub mesh_index: usize,
    /// Vertex index inside the mesh primitive response.
    pub vertex_index: usize,
}

/// Order of vertices: by mesh, then by vertex.
pub open spec fn key_less(left: AvatarVertexKey, right: AvatarVertexKey) -> bool {
    left.mesh_index < right.mesh_index || (left.mesh_index == right.mesh_index
        && left.vertex_index < right.vertex_index)
}

/// One expression's displacement of one avatar vertex.
#[derive(Clone, Copy, Debug, PartialEq)]
pub struct AvatarMorphDelta {
    /// Affected vertex.
    pub vertex: AvatarVertexKey,
    /// Position displacement at coefficient one.
    pub delta_xyz: [Binary32; 3],
}

/// Engine-neutral non-tongue Perfect Sync morph response.
#[derive(Clone, Debug, PartialEq)]
pub struct PerfectSyncMorphResponse {
    /// SHA-256 of the local model bytes; no path is retained.
    pub model_sha256: String,
    /// Sparse response by non-tongue semantic.
    pub channels: Vec<(ArkitBlendshape, Vec<AvatarMorphDelta>)>,
}

/// Some displacement of an earlier channel entry is of the same expression.
pub open spec fn channel_repeats(channels: Seq<(ArkitBlendshape, Vec<AvatarMorphDelta>)>, i: int) -> bool {
    exists|j: int| 0 <= j < i && (#[trigger] channels[j]).0 == channels[i].0
}

/// The displacement is not finite, or its vertex came before in the list.
pub open spec fn delta_bad(deltas: Seq<AvatarMorphDelta>, d: int) -> bool {
    ||| !deltas[d].delta_xyz@[0].finite()
    ||| !deltas[d].delta_xyz@[1].finite()
    ||| !deltas[d].delta_xyz@[2].finite()
    ||| exists|e: int| 0 <= e < d && (#[trigger] deltas[e]).vertex == deltas[d].vertex
}

/// A list has a displacement that is not usable.
pub open spec fn deltas_bad(deltas: Seq<AvatarMorphDelta>) -> bool {
    exists|d: int| 0 <= d < deltas.len() && #[trigger] delta_bad(deltas, d)
}

/// What is wrong with the first `n` channels, if something is: the first faulty one
/// counts.
pub open spec fn channels_fault(channels: Seq<(ArkitBlendshape, Vec<AvatarMorphDelta>)>, n: int) -> Option<
    UnifiedAblationError,
>
    decreases n,
{
    if n <= 0 {
        None
    } else if channels_fault(channels, n - 1) is Some {
        channels_fault(channels, n - 1)
    } else if channels[n - 1].0 == ArkitBlendshape::TongueOut || channel_repeats(
        channels,
        n - 1,
    ) {
        Some(UnifiedAblationError::InvalidData("avatar morph channel"))
    } else if deltas_bad(channels[n - 1].1@) {
        Some(UnifiedAblationError::InvalidData("avatar morph delta"))
    } else {
        None
    }
}

/// The expression displaces the vertex.
pub open spec fn displaces(deltas: Seq<AvatarMorphDelta>, key: AvatarVertexKey) -> bool {
    exists|d: int| 0 <= d < deltas.len() && (#[trigger] deltas[d]).vertex == key
}

/// One of the first `n` channels displaces the vertex.
pub open spec fn is_bound(
    channels: Seq<(ArkitBlendshape, Vec<AvatarMorphDelta>)>,
    key: AvatarVertexKey,
    n: int,
) -> bool {
    exists|i: int| 0 <= i < n && displaces((#[trigger] channels[i]).1@, key)
}

/// How many displacements the first `n` channels list.
pub open spec fn entry_count(channels: Seq<(ArkitBlendshape, Vec<AvatarMorphDelta>)>, n: int) -> nat
    decreases n,
{
    if n <= 0 {
        0
    } else {
        entry_count(channels, n - 1) + channels[n - 1].1@.len()
    }
}

/// What is wrong with a response, if something is.
pub open spec fn response_fault(response: PerfectSyncMorphResponse) -> Option<UnifiedAblationError> {
    let channels = response.channels@;
    let n = channels.len() as int;
    if channels_fault(channels, n) is Some {
        channels_fault(channels, n)
    } else if forall|i: int| 0 <= i < n ==> (#[trigger] channels[i]).1@.len() == 0 {
        Some(UnifiedAblationError::EmptyMorphResponse)
    } else {
        None
    }
}

/// The list is in order, without repetition.
pub open spec fn keys_ordered(keys: Seq<AvatarVertexKey>) -> bool {
    forall|i: int, j: int| 0 <= i < j < keys.len() ==> key_less(#[trigger] keys[i], #[trigger] keys[j])
}

/// The list holds exactly the vertices that the first `n` channels displace.
pub open spec fn lists_bound(
    channels: Seq<(ArkitBlendshape, Vec<AvatarMorphDelta>)>,
    n: int,
    keys: Seq<AvatarVertexKey>,
) -> bool {
    forall|key: AvatarVertexKey| #[trigger] keys.contains(key) <==> is_bound(channels, key, n)
}

/// The vertices of a response in order, each once.
pub open spec fn is_vertex_list(response: PerfectSyncMorphResponse, keys: Seq<AvatarVertexKey>) -> bool {
    keys_ordered(keys) && lists_bound(response.channels@, response.channels@.len() as int, keys)
}

/// The vertices of a response.
pub open spec fn bound_vertices(response: PerfectSyncMorphResponse) -> Seq<AvatarVertexKey> {
    choose|keys: Seq<AvatarVertexKey>| is_vertex_list(response, keys)
}

/// A response has one ordered list of vertices.
pub proof fn lemma_vertex_list_is_unique(
    response: PerfectSyncMorphResponse,
    left: Seq<AvatarVertexKey>,
    right: Seq<AvatarVertexKey>,
)
    requires
        is_vertex_list(response, left),
        is_vertex_list(response, right),
    ensures
        left == right,
{
    lemma_ordered_lists_agree(left, right, left.len() as int);
    lemma_ordered_lists_agree(right, left, right.len() as int);
    assert(left =~= right);
}

/// An ordered list begins with another ordered list of the same vertices.
proof fn lemma_ordered_lists_agree(
    left: Seq<AvatarVertexKey>,
    right: Seq<AvatarVertexKey>,
    n: int,
)
    requires
        0 <= n <= left.len(),
        keys_ordered(left),
        keys_ordered(right),
        forall|key: AvatarVertexKey| #[trigger] left.contains(key) ==> right.contains(key),
        forall|key: AvatarVertexKey| #[trigger] right.contains(key) ==> left.contains(key),
    ensures
        n <= right.len(),
        forall|i: int| 0 <= i < n ==> left[i] == right[i],
    decreases n,
{
    if n > 0 {
        lemma_ordered_lists_agree(left, right, n - 1);
        let at = n - 1;
        assert(left.contains(left[at]));
        assert(right.contains(left[at]));
        let other = choose|j: int| 0 <= j < right.len() && right[j] == left[at];
        if other < at {
            assert(left[other] == right[other]);
            assert(key_less(left[other], left[at]));
        } else if other > at {
            assert(right.contains(right[at]));
            assert(left.contains(right[at]));
            let back = choose|j: int| 0 <= j < left.len() && left[j] == right[at];
            assert(key_less(right[at], right[other]));
            if back < at {
                assert(right[back] == left[back]);
                assert(key_less(right[back], right[at]));
            } else if back > at {
                assert(key_less(left[at], left[back]));
            }
        }
    }
}

/// Displacement of the vertex along an axis by the first `d` entries of a list.
pub open spec fn pushed_by(
    start: Binary64,
    deltas: Seq<AvatarMorphDelta>,
    key: AvatarVertexKey,
    axis: int,
    error: Binary64,
    d: int,
) -> Binary64
    decreases d,
{
    if d <= 0 {
        start
    } else {
        let before = pushed_by(start, deltas, key, axis, error, d - 1);
        if deltas[d - 1].vertex == key {
            before.plus(error.times(deltas[d - 1].delta_xyz@[axis].widened()))
        } else {
            before
        }
    }
}

/// Error of a channel.
pub open spec fn channel_error(
    predicted: Seq<Binary32>,
    teacher: Seq<Binary32>,
    channel: ArkitBlendshape,
) -> Binary64 {
    predicted[channel.position()].minus(teacher[channel.position()]).widened()
}

/// Displacement error of the vertex along an axis through the first `n` channels.
pub open spec fn displacement(
    channels: Seq<(ArkitBlendshape, Vec<AvatarMorphDelta>)>,
    key: AvatarVertexKey,
    axis: int,
    predicted: Seq<Binary32>,
    teacher: Seq<Binary32>,
    n: int,
) -> Binary64
    decreases n,
{
    if n <= 0 {
        Binary64 { bits: 0 }
    } else {
        pushed_by(
            displacement(channels, key, axis, predicted, teacher, n - 1),
            channels[n - 1].1@,
            key,
            axis,
            channel_error(predicted, teacher, channels[n - 1].0),
            channels[n - 1].1@.len() as int,
        )
    }
}

/// Squared displacement error of the vertex along an axis.
pub open spec fn squared_displacement(
    channels: Seq<(ArkitBlendshape, Vec<AvatarMorphDelta>)>,
    key: AvatarVertexKey,
    axis: int,
    predicted: Seq<Binary32>,
    teacher: Seq<Binary32>,
) -> Binary64 {
    let moved = displacement(channels, key, axis, predicted, teacher, channels.len() as int);
    moved.times(moved)
}

/// Squared displacement error of the vertex.
pub open spec fn vertex_error(
    channels: Seq<(ArkitBlendshape, Vec<AvatarMorphDelta>)>,
    key: AvatarVertexKey,
    predicted: Seq<Binary32>,
    teacher: Seq<Binary32>,
) -> Binary64 {
    total(
        Seq::new(
            3,
            |axis: int| squared_displacement(channels, key, axis, predicted, teacher),
        ),
    )
}

/// Per-coordinate RMS over the bound vertices.
pub open spec fn response_rms(
    response: PerfectSyncMorphResponse,
    predicted: Seq<Binary32>,
    teacher: Seq<Binary32>,
) -> Binary64 {
    let keys = bound_vertices(response);
    total(
        Seq::new(
            keys.len(),
            |v: int| vertex_error(response.channels@, keys[v], predicted, teacher),
        ),
    ).over(Binary64::of_integer((keys.len() * 3) as nat)).root()
}

fn has_channel(channels: &Vec<(ArkitBlendshape, Vec<AvatarMorphDelta>)>, i: usize) -> (repeats: bool)
    requires
        i < channels@.len(),
    ensures
        repeats == channel_repeats(channels@, i as int),
{
    for j in 0..i
        invariant
            i < channels@.len(),
            forall|k: int|
                0 <= k < j ==> (#[trigger] channels@[k]).0 != channels@[i as int].0,
    {
        if channels[j].0 == channels[i].0 {
            return true;
        }
    }
    false
}

fn is_delta_bad(deltas: &Vec<AvatarMorphDelta>, d: usize) -> (bad: bool)
    requires
        d < deltas@.len(),
    ensures
        bad == delta_bad(deltas@, d as int),
{
    let delta = deltas[d];
    if !delta.delta_xyz[0].is_finite() || !delta.delta_xyz[1].is_finite()
        || !delta.delta_xyz[2].is_finite() {
        return true;
    }
    for e in 0..d
        invariant
            d < deltas@.len(),
            delta == deltas@[d as int],
            forall|f: int| 0 <= f < e ==> (#[trigger] deltas@[f]).vertex != delta.vertex,
    {
        if deltas[e].vertex == delta.vertex {
            return true;
        }
    }
    false
}

fn are_deltas_bad(deltas: &Vec<AvatarMorphDelta>) -> (bad: bool)
    ensures
        bad == deltas_bad(deltas@),
{
    for d in 0..deltas.len()
        invariant
            forall|e: int| 0 <= e < d ==> !#[trigger] delta_bad(deltas@, e),
    {
        if is_delta_bad(deltas, d) {
            assert(delta_bad(deltas@, d as int));
            return true;
        }
    }
    false
}

/// Inserts a vertex into an ordered list.
fn insert_key(keys: &mut Vec<AvatarVertexKey>, key: AvatarVertexKey)
    requires
        keys_ordered(old(keys)@),
    ensures
        keys_ordered(final(keys)@),
        forall|other: AvatarVertexKey| #[trigger]
            final(keys)@.contains(other) <==> old(keys)@.contains(other) || other == key,
        final(keys)@.len() <= old(keys)@.len() + 1,
{
    let ghost before = keys@;
    let mut at: usize = 0;
    while at < keys.len()
        invariant_except_break
            at <= keys@.len(),
        invariant
            keys@ == before,
            keys_ordered(before),
            at <= before.len(),
            forall|j: int| 0 <= j < at ==> key_less(#[trigger] before[j], key),
        ensures
            at <= before.len(),
            at < before.len() ==> before[at as int] == key || key_less(key, before[at as int]),
        decreases keys@.len() - at,
    {
        let here = keys[at];
        let below = here.mesh_index < key.mesh_index || (here.mesh_index == key.mesh_index
            && here.vertex_index < key.vertex_index);
        if !below {
            break;
        }
        at = at + 1;
    }
    if at < keys.len() && keys[at] == key {
        assert(before.contains(before[at as int]));
        return;
    }
    keys.insert(at, key);
    proof {
        let after = keys@;
        assert(after =~= before.insert(at as int, key));
        assert forall|i: int, j: int| 0 <= i < j < after.len() implies key_less(
            #[trigger] after[i],
            #[trigger] after[j],
        ) by {
            if j < at {
                assert(key_less(before[i], before[j]));
            } else if j == at {
                assert(key_less(before[i], key));
            } else if i < at {
                assert(key_less(before[i], before[j - 1]));
            } else if i == at {
                if j - 1 > at {
                    assert(key_less(before[at as int], before[j - 1]));
                }
            } else {
                assert(key_less(before[i - 1], before[j - 1]));
            }
        }
        assert forall|other: AvatarVertexKey| #[trigger]
            after.contains(other) <==> before.contains(other) || other == key by {
            if before.contains(other) {
                let i = choose|i: int| 0 <= i < before.len() && before[i] == other;
                if i < at {
                    assert(after[i] == other);
                } else {
                    assert(after[i + 1] == other);
                }
            }
            if other == key {
                assert(after[at as int] == key);
            }
            if after.contains(other) {
                let i = choose|i: int| 0 <= i < after.len() && after[i] == other;
                if i < at {
                    assert(before[i] == other);
                } else if i > at {
                    assert(before[i - 1] == other);
                }
            }
        }
    }
}

/// Adds the vertices of one channel to an ordered list.
fn insert_channel(keys: &mut Vec<AvatarVertexKey>, deltas: &Vec<AvatarMorphDelta>)
    requires
        keys_ordered(old(keys)@),
    ensures
        keys_ordered(final(keys)@),
        forall|key: AvatarVertexKey| #[trigger]
            final(keys)@.contains(key) <==> old(keys)@.contains(key) || displaces(deltas@, key),
        deltas@.len() > 0 ==> final(keys)@.len() > 0,
        old(keys)@.len() > 0 ==> final(keys)@.len() > 0,
        final(keys)@.len() <= old(keys)@.len() + deltas@.len(),
{
    let ghost before = keys@;
    for d in 0..deltas.len()
        invariant
            keys_ordered(keys@),
            keys@.len() <= before.len() + d,
            forall|key: AvatarVertexKey| #[trigger]
                keys@.contains(key) <==> before.contains(key) || exists|e: int|
                    0 <= e < d && (#[trigger] deltas@[e]).vertex == key,
    {
        let ghost held = keys@;
        insert_key(keys, deltas[d].vertex);
        assert forall|key: AvatarVertexKey| #[trigger]
            keys@.contains(key) <==> before.contains(key) || exists|e: int|
                0 <= e < d + 1 && (#[trigger] deltas@[e]).vertex == key by {
            if held.contains(key) && !before.contains(key) {
                let e = choose|e: int| 0 <= e < d && (#[trigger] deltas@[e]).vertex == key;
                assert(deltas@[e].vertex == key);
            }
            if key == deltas@[d as int].vertex {
                assert(deltas@[d as int].vertex == key);
            }
        }
    }
    proof {
        if deltas@.len() > 0 {
            assert(displaces(deltas@, deltas@[0].vertex));
            assert(keys@.contains(deltas@[0].vertex));
        }
        if before.len() > 0 {
            assert(before.contains(before[0]));
            assert(keys@.contains(before[0]));
        }
    }
}

/// Checks a response and lists its vertices.
fn prepare_avatar_response(response: &PerfectSyncMorphResponse) -> (result: Result<
    Vec<AvatarVertexKey>,
    UnifiedAblationError,
>)
    ensures
        match result {
            Ok(keys) => {
                &&& response_fault(*response) is None
                &&& keys@ == bound_vertices(*response)
                &&& is_vertex_list(*response, keys@)
                &&& keys@.len() <= entry_count(
                    response.channels@,
                    response.channels@.len() as int,
                )
            },
            Err(error) => response_fault(*response) == Some(error),
        },
{
    let channels = &response.channels;
    let mut keys: Vec<AvatarVertexKey> = Vec::new();
    assert(lists_bound(channels@, 0, keys@));
    for i in 0..channels.len()
        invariant
            channels@ == response.channels@,
            channels_fault(channels@, i as int) is None,
            keys_ordered(keys@),
            lists_bound(channels@, i as int, keys@),
            keys@.len() <= entry_count(channels@, i as int),
            keys@.len() == 0 ==> forall|j: int|
                0 <= j < i ==> (#[trigger] channels@[j]).1@.len() == 0,
    {
        let entry = &channels[i];
        if matches!(entry.0, ArkitBlendshape::TongueOut) || has_channel(channels, i) {
            let error = UnifiedAblationError::InvalidData("avatar morph channel");
            proof {
                lemma_first_fault_stays(channels@, (i + 1) as int, channels@.len() as int);
            }
            return Err(error);
        }
        if are_deltas_bad(&entry.1) {
            let error = UnifiedAblationError::InvalidData("avatar morph delta");
            proof {
                lemma_first_fault_stays(channels@, (i + 1) as int, channels@.len() as int);
            }
            return Err(error);
        }
        let ghost held = keys@;
        insert_channel(&mut keys, &entry.1);
        proof {
            assert forall|key: AvatarVertexKey| #[trigger]
                keys@.contains(key) <==> is_bound(channels@, key, (i + 1) as int) by {
                if is_bound(channels@, key, i as int) {
                    let j = choose|j: int|
                        0 <= j < i && displaces((#[trigger] channels@[j]).1@, key);
                    assert(displaces(channels@[j].1@, key));
                }
                if displaces(channels@[i as int].1@, key) {
                    assert(displaces(channels@[i as int].1@, key));
                }
                if is_bound(channels@, key, (i + 1) as int) {
                    let j = choose|j: int|
                        0 <= j < i + 1 && displaces((#[trigger] channels@[j]).1@, key);
                    if j < i {
                        assert(displaces(channels@[j].1@, key));
                        assert(is_bound(channels@, key, i as int));
                        assert(held.contains(key));
                    }
                }
            }
        }
    }
    if keys.len() == 0 {
        return Err(UnifiedAblationError::EmptyMorphResponse);
    }
    proof {
        let first = keys@[0];
        assert(keys@.contains(first));
        let j = choose|j: int|
            0 <= j < channels@.len() && displaces((#[trigger] channels@[j]).1@, first);
        assert(channels@[j].1@.len() > 0);
        lemma_vertex_list_is_unique(*response, keys@, bound_vertices(*response));
    }
    Ok(keys)
}

/// The first fault among some channels is the first among more.
proof fn lemma_first_fault_stays(
    channels: Seq<(ArkitBlendshape, Vec<AvatarMorphDelta>)>,
    less: int,
    more: int,
)
    requires
        0 <= less <= more,
        channels_fault(channels, less) is Some,
    ensures
        channels_fault(channels, more) == channels_fault(channels, less),
    decreases more - less,
{
    if less < more {
        lemma_first_fault_stays(channels, less, more - 1);
    }
}

/// Displacement error of a vertex along an axis.
fn measure_displacement(
    channels: &Vec<(ArkitBlendshape, Vec<AvatarMorphDelta>)>,
    key: AvatarVertexKey,
    axis: usize,
    predicted: &Arkit52Coefficients,
    teacher: &Arkit52Coefficients,
) -> (moved: Binary64)
    requires
        axis < 3,
    ensures
        moved == displacement(
            channels@,
            key,
            axis as int,
            predicted@,
            teacher@,
            channels@.len() as int,
        ),
{
    let mut moved = Binary64::zero();
    for n in 0..channels.len()
        invariant
            axis < 3,
            moved == displacement(channels@, key, axis as int, predicted@, teacher@, n as int),
    {
        let entry = &channels[n];
        let error = predicted.get(entry.0).difference(teacher.get(entry.0)).widen();
        let ghost start = moved;
        for d in 0..entry.1.len()
            invariant
                axis < 3,
                moved == pushed_by(start, entry.1@, key, axis as int, error, d as int),
        {
            if entry.1[d].vertex == key {
                moved = moved.sum(error.product(entry.1[d].delta_xyz[axis].widen()));
            }
        }
    }
    moved
}

/// RMS of a checked response.
fn score_avatar_response(
    predicted: &Arkit52Coefficients,
    teacher: &Arkit52Coefficients,
    response: &PerfectSyncMorphResponse,
    keys: &Vec<AvatarVertexKey>,
) -> (rms: Binary64)
    requires
        keys@ == bound_vertices(*response),
        keys@.len() * 3 <= usize::MAX,
    ensures
        rms == response_rms(*response, predicted@, teacher@),
{
    let channels = &response.channels;
    let mut errors: Vec<Binary64> = Vec::new();
    for v in 0..keys.len()
        invariant
            channels@ == response.channels@,
            errors@.len() == v,
            forall|w: int|
                0 <= w < v ==> #[trigger] errors@[w] == vertex_error(
                    channels@,
                    keys@[w],
                    predicted@,
                    teacher@,
                ),
    {
        let mut squares: Vec<Binary64> = Vec::new();
        for axis in 0..3usize
            invariant
                channels@ == response.channels@,
                v < keys@.len(),
                squares@.len() == axis,
                forall|a: int|
                    0 <= a < axis ==> #[trigger] squares@[a] == squared_displacement(
                        channels@,
                        keys@[v as int],
                        a,
                        predicted@,
                        teacher@,
                    ),
        {
            let moved = measure_displacement(channels, keys[v], axis, predicted, teacher);
            squares.push(moved.product(moved));
        }
        assert(squares@ =~= Seq::new(
            3,
            |axis: int|
                squared_displacement(channels@, keys@[v as int], axis, predicted@, teacher@),
        ));
        errors.push(sum_all(&squares));
    }
    assert(errors@ =~= Seq::new(
        keys@.len(),
        |v: int| vertex_error(channels@, keys@[v], predicted@, teacher@),
    ));
    sum_all(&errors).quotient(Binary64::from_integer((keys.len() * 3) as u64)).square_root()
}

/// Composes coefficient errors through sparse morph deltas and returns the
/// per-coordinate RMS over the union of bound vertices.
///
/// # Errors
///
/// Rejects the tongue, duplicate channels or vertices, non-finite deltas, and an
/// empty response.
pub fn avatar_space_rms_error(
    predicted: &Arkit52Coefficients,
    teacher: &Arkit52Coefficients,
    response: &PerfectSyncMorphResponse,
) -> (result: Result<Binary64, UnifiedAblationError>)
    requires
        entry_count(response.channels@, response.channels@.len() as int) * 3 <= usize::MAX,
    ensures
        match result {
            Ok(rms) => {
                &&& response_fault(*response) is None
                &&& rms == response_rms(*response, predicted@, teacher@)
            },
            Err(error) => response_fault(*response) == Some(error),
        },
{
    match prepare_avatar_response(response) {
        Ok(keys) => Ok(score_avatar_response(predicted, teacher, response, &keys)),
        Err(error) => Err(error),
    }
}

/// Computes per-frame avatar morph-space RMS while preparing the sparse response only
/// once.
///
/// # Errors
///
/// Rejects malformed or empty morph responses.
pub fn avatar_space_rms_errors(frames: &Vec<VariantFrame>, response: &PerfectSyncMorphResponse) -> (result:
    Result<Vec<Binary64>, UnifiedAblationError>)
    requires
        entry_count(response.channels@, response.channels@.len() as int) * 3 <= usize::MAX,
    ensures
        match result {
            Ok(errors) => {
                &&& response_fault(*response) is None
                &&& errors@ == Seq::new(
                    frames@.len(),
                    |i: int| response_rms(*response, frames@[i].output@, frames@[i].teacher@),
                )
            },
            Err(error) => response_fault(*response) == Some(error),
        },
{
    let keys = match prepare_avatar_response(response) {
        Ok(keys) => keys,
        Err(error) => {
            return Err(error);
        },
    };
    let mut errors: Vec<Binary64> = Vec::new();
    for i in 0..frames.len()
        invariant
            keys@ == bound_vertices(*response),
            keys@.len() * 3 <= usize::MAX,
            errors@.len() == i,
            forall|j: int|
                0 <= j < i ==> #[trigger] errors@[j] == response_rms(
                    *response,
                    frames@[j].output@,
                    frames@[j].teacher@,
                ),
    {
        errors.push(
            score_avatar_response(&frames[i].output, &frames[i].teacher, response, &keys),
        );
    }
    assert(errors@ =~= Seq::new(
        frames@.len(),
        |i: int| response_rms(*response, frames@[i].output@, frames@[i].teacher@),
    ));
    Ok(errors)
}

} // verus!
