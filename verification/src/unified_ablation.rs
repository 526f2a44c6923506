//! Common-frame selection and avatar-space bookkeeping of the unified offline
//! comparison.

use vstd::prelude::*;

use crate::arkit::{same_numbers, Arkit52Coefficients};
use crate::takes::{compare_texts, lemma_text_less_transitive, text_less, TextOrder};

verus! {

/// Fixed variants in the unified offline comparison, in report order.
#[derive(Clone, Copy, Debug, Eq, PartialEq, Ord, PartialOrd, Structural)]
pub enum GnmResearchVariant {
    /// MediaPipe Direct.
    Direct,
    /// Hand-designed GNM projection.
    GnmProjected,
    /// Learned reduced-GNM decoder.
    GnmLearned,
    /// Direct plus landmark residual.
    LandmarkResidual,
    /// Direct plus reduced-GNM residual.
    HybridGnmResidual,
    /// Direct plus reduced-GNM and landmark residual.
    HybridGnmLandmarkResidual,
}

/// Number of variants.
pub const VARIANT_COUNT: usize = 6;

impl GnmResearchVariant {
    /// Position in report order.
    pub open spec fn position(self) -> int {
        match self {
            GnmResearchVariant::Direct => 0,
            GnmResearchVariant::GnmProjected => 1,
            GnmResearchVariant::GnmLearned => 2,
            GnmResearchVariant::LandmarkResidual => 3,
            GnmResearchVariant::HybridGnmResidual => 4,
            GnmResearchVariant::HybridGnmLandmarkResidual => 5,
        }
    }

    /// Position in report order.
    pub fn index(self) -> (index: usize)
        ensures
            index == self.position(),
            index < VARIANT_COUNT,
    {
        match self {
            GnmResearchVariant::Direct => 0,
            GnmResearchVariant::GnmProjected => 1,
            GnmResearchVariant::GnmLearned => 2,
            GnmResearchVariant::LandmarkResidual => 3,
            GnmResearchVariant::HybridGnmResidual => 4,
            GnmResearchVariant::HybridGnmLandmarkResidual => 5,
        }
    }

    /// All required variants in report order.
    pub fn all() -> (variants: [GnmResearchVariant; 6])
        ensures
            forall|i: int| 0 <= i < 6 ==> (#[trigger] variants@[i]).position() == i,
    {
        [
            GnmResearchVariant::Direct,
            GnmResearchVariant::GnmProjected,
            GnmResearchVariant::GnmLearned,
            GnmResearchVariant::LandmarkResidual,
            GnmResearchVariant::HybridGnmResidual,
            GnmResearchVariant::HybridGnmLandmarkResidual,
        ]
    }
}

/// One exact-frame teacher/output pair for one variant.
#[derive(Clone, Debug, PartialEq)]
pub struct VariantFrame {
    /// Capture take identity.
    pub take_id: String,
    /// Source frame sequence.
    pub frame_seq: u64,
    /// Source timestamp.
    pub timestamp_micros: u64,
    /// Same-frame ARKit teacher.
    pub teacher: Arkit52Coefficients,
    /// Variant output.
    pub output: Arkit52Coefficients,
}

/// Unified offline evaluation failure.
#[derive(Clone, Debug, PartialEq)]
pub enum UnifiedAblationError {
    /// A required fixed variant has no input series.
    MissingVariant(GnmResearchVariant),
    /// A variant contains the same exact identity more than once.
    DuplicateIdentity(GnmResearchVariant),
    /// Teachers disagree at an otherwise exact common identity.
    TeacherMismatch,
    /// No frames remain in the exact six-way intersection.
    NoCommonFrames,
    /// A metric received no frames.
    EmptyFrames,
    /// Frame ordering, identity, coefficient, or response content is invalid.
    InvalidData(&'static str),
    /// Avatar response has no non-tongue bound vertices.
    EmptyMorphResponse,
}

/// One optional frame series per variant.
#[derive(Clone, Debug, PartialEq)]
pub struct VariantFrames {
    /// Slots in report order.
    pub slots: Vec<Option<Vec<VariantFrame>>>,
}

impl VariantFrames {
    /// There is one slot per variant.
    pub open spec fn wf(self) -> bool {
        self.slots@.len() == VARIANT_COUNT
    }

    /// The series of one variant.
    pub open spec fn series(self, variant: GnmResearchVariant) -> Option<Seq<VariantFrame>> {
        match self.slots@[variant.position()] {
            Some(frames) => Some(frames@),
            None => None,
        }
    }

    /// No series at all.
    pub fn new() -> (frames: Self)
        ensures
            frames.wf(),
            forall|variant: GnmResearchVariant| frames.series(variant) is None,
    {
        let mut slots: Vec<Option<Vec<VariantFrame>>> = Vec::new();
        for i in 0..VARIANT_COUNT
            invariant
                slots@.len() == i,
                forall|j: int| 0 <= j < i ==> slots@[j] is None,
        {
            slots.push(None);
        }
        VariantFrames { slots }
    }

    /// Sets the series of one variant.
    pub fn insert(&mut self, variant: GnmResearchVariant, frames: Vec<VariantFrame>)
        requires
            old(self).wf(),
        ensures
            final(self).wf(),
            final(self).series(variant) == Some(frames@),
            forall|other: GnmResearchVariant|
                other != variant ==> final(self).series(other) == old(self).series(other),
    {
        self.slots[variant.index()] = Some(frames);
    }

    /// The series of one variant.
    pub fn get(&self, variant: GnmResearchVariant) -> (frames: Option<&Vec<VariantFrame>>)
        requires
            self.wf(),
        ensures
            match frames {
                Some(found) => self.series(variant) == Some(found@),
                None => self.series(variant) is None,
            },
    {
        match &self.slots[variant.index()] {
            Some(frames) => Some(frames),
            None => None,
        }
    }
}

/// Exact identity of a frame: take, sequence and timestamp.
pub open spec fn identity(frame: VariantFrame) -> (Seq<char>, u64, u64) {
    (frame.take_id@, frame.frame_seq, frame.timestamp_micros)
}

/// Order of identities: by take name, then sequence, then timestamp.
pub open spec fn identity_less(
    left: (Seq<char>, u64, u64),
    right: (Seq<char>, u64, u64),
) -> bool {
    text_less(left.0, right.0) || (left.0 == right.0 && (left.1 < right.1 || (left.1 == right.1
        && left.2 < right.2)))
}

/// A frame of the series has this identity.
pub open spec fn holds_identity(
    frames: Seq<VariantFrame>,
    wanted: (Seq<char>, u64, u64),
) -> bool {
    exists|i: int| 0 <= i < frames.len() && identity(#[trigger] frames[i]) == wanted
}

/// No identity occurs twice.
pub open spec fn distinct_identities(frames: Seq<VariantFrame>) -> bool {
    forall|i: int, j: int|
        0 <= i < j < frames.len() ==> identity(#[trigger] frames[i]) != identity(
            #[trigger] frames[j],
        )
}

/// Frames stand in strictly ascending identity order.
pub open spec fn identity_ordered(frames: Seq<VariantFrame>) -> bool {
    forall|i: int, j: int|
        0 <= i < j < frames.len() ==> identity_less(
            identity(#[trigger] frames[i]),
            identity(#[trigger] frames[j]),
        )
}

/// The slot holds a series without repeated identities.
pub open spec fn usable_slot(slot: Option<Vec<VariantFrame>>) -> bool {
    slot is Some && distinct_identities(slot->0@)
}

/// Every variant has a series without repeated identities.
pub open spec fn all_usable(variants: VariantFrames) -> bool {
    forall|p: int| 0 <= p < VARIANT_COUNT ==> usable_slot(#[trigger] variants.slots@[p])
}

/// The identity occurs in all six series.
pub open spec fn common_identity(
    variants: VariantFrames,
    wanted: (Seq<char>, u64, u64),
) -> bool {
    forall|p: int|
        0 <= p < VARIANT_COUNT ==> holds_identity((#[trigger] variants.slots@[p])->0@, wanted)
}

/// Frame `i` of Direct and frame `j` of variant `p` are one common frame whose
/// teachers differ.
pub open spec fn teachers_disagree_at(variants: VariantFrames, p: int, i: int, j: int) -> bool {
    let direct = variants.slots@[0]->0@;
    let other = variants.slots@[p]->0@;
    &&& 0 <= p < VARIANT_COUNT
    &&& 0 <= i < direct.len()
    &&& 0 <= j < other.len()
    &&& identity(direct[i]) == identity(other[j])
    &&& common_identity(variants, identity(direct[i]))
    &&& !same_numbers(direct[i].teacher@, other[j].teacher@)
}

/// Some common frame has differing teachers.
pub open spec fn teachers_disagree(variants: VariantFrames) -> bool {
    exists|p: int, i: int, j: int| teachers_disagree_at(variants, p, i, j)
}

/// `selected` holds the common frames of one series, in identity order.
pub open spec fn common_selection(
    variants: VariantFrames,
    source: Seq<VariantFrame>,
    selected: Seq<VariantFrame>,
) -> bool {
    &&& identity_ordered(selected)
    &&& forall|i: int| 0 <= i < selected.len() ==> source.contains(#[trigger] selected[i])
    &&& forall|wanted: (Seq<char>, u64, u64)|
        holds_identity(selected, wanted) <==> common_identity(variants, wanted)
}

proof fn lemma_identity_less_transitive(
    a: (Seq<char>, u64, u64),
    b: (Seq<char>, u64, u64),
    c: (Seq<char>, u64, u64),
)
    requires
        identity_less(a, b),
        identity_less(b, c),
    ensures
        identity_less(a, c),
{
    if text_less(a.0, b.0) && text_less(b.0, c.0) {
        lemma_text_less_transitive(a.0, b.0, c.0);
    }
}

/// Copies a frame.
fn copy_frame(frame: &VariantFrame) -> (copy: VariantFrame)
    ensures
        copy == *frame,
{
    VariantFrame {
        take_id: frame.take_id.clone(),
        frame_seq: frame.frame_seq,
        timestamp_micros: frame.timestamp_micros,
        teacher: frame.teacher,
        output: frame.output,
    }
}

fn is_same_identity(left: &VariantFrame, right: &VariantFrame) -> (same: bool)
    ensures
        same == (identity(*left) == identity(*right)),
{
    left.frame_seq == right.frame_seq && left.timestamp_micros == right.timestamp_micros
        && left.take_id == right.take_id
}

fn is_identity_less(left: &VariantFrame, right: &VariantFrame) -> (less: bool)
    ensures
        less ==> identity_less(identity(*left), identity(*right)),
        !less && identity(*left) != identity(*right) ==> identity_less(
            identity(*right),
            identity(*left),
        ),
{
    match compare_texts(&left.take_id, &right.take_id) {
        TextOrder::Before => true,
        TextOrder::After => false,
        TextOrder::Same => left.frame_seq < right.frame_seq || (left.frame_seq == right.frame_seq
            && left.timestamp_micros < right.timestamp_micros),
    }
}

/// Position of the frame with the wanted frame's identity.
fn find_identity(frames: &Vec<VariantFrame>, wanted: &VariantFrame) -> (found: Option<usize>)
    ensures
        match found {
            Some(at) => at < frames@.len() && identity(frames@[at as int]) == identity(*wanted),
            None => !holds_identity(frames@, identity(*wanted)),
        },
{
    for i in 0..frames.len()
        invariant
            forall|j: int|
                0 <= j < i ==> identity(#[trigger] frames@[j]) != identity(*wanted),
    {
        if is_same_identity(&frames[i], wanted) {
            return Some(i);
        }
    }
    None
}

/// Whether an identity occurs twice.
fn has_duplicate_identity(frames: &Vec<VariantFrame>) -> (duplicate: bool)
    ensures
        duplicate == !distinct_identities(frames@),
{
    for i in 0..frames.len()
        invariant
            distinct_identities(frames@.take(i as int)),
    {
        for j in 0..i
            invariant
                i < frames@.len(),
                forall|k: int|
                    0 <= k < j ==> identity(#[trigger] frames@[k]) != identity(
                        frames@[i as int],
                    ),
        {
            if is_same_identity(&frames[j], &frames[i]) {
                assert(identity(frames@[j as int]) == identity(frames@[i as int]));
                return true;
            }
        }
        assert(frames@.take(i + 1) =~= frames@.take(i as int).push(frames@[i as int]));
    }
    assert(frames@.take(frames@.len() as int) =~= frames@);
    false
}

/// Positions of Direct's common frames, in identity order.
#[verifier::spinoff_prover]
#[verifier::rlimit(60)]
fn common_positions(variants: &VariantFrames, direct: &Vec<VariantFrame>) -> (positions: Vec<usize>)
    requires
        variants.wf(),
        all_usable(*variants),
        direct@ == variants.slots@[0]->0@,
    ensures
        forall|i: int| 0 <= i < positions@.len() ==> #[trigger] positions@[i] < direct@.len(),
        forall|i: int|
            0 <= i < positions@.len() ==> common_identity(
                *variants,
                identity(direct@[#[trigger] positions@[i] as int]),
            ),
        forall|i: int, j: int|
            0 <= i < j < positions@.len() ==> identity_less(
                identity(direct@[#[trigger] positions@[i] as int]),
                identity(direct@[#[trigger] positions@[j] as int]),
            ),
        forall|k: int|
            0 <= k < direct@.len() && common_identity(
                *variants,
                identity(#[trigger] direct@[k]),
            ) ==> positions@.contains(k as usize),
{
    let mut positions: Vec<usize> = Vec::new();
    for k in 0..direct.len()
        invariant
            variants.wf(),
            all_usable(*variants),
            direct@ == variants.slots@[0]->0@,
            forall|i: int| 0 <= i < positions@.len() ==> #[trigger] positions@[i] < k,
            forall|i: int|
                0 <= i < positions@.len() ==> common_identity(
                    *variants,
                    identity(direct@[#[trigger] positions@[i] as int]),
                ),
            forall|i: int, j: int|
                0 <= i < j < positions@.len() ==> identity_less(
                    identity(direct@[#[trigger] positions@[i] as int]),
                    identity(direct@[#[trigger] positions@[j] as int]),
                ),
            forall|m: int|
                0 <= m < k && common_identity(
                    *variants,
                    identity(#[trigger] direct@[m]),
                ) ==> positions@.contains(m as usize),
    {
        let ghost wanted = identity(direct@[k as int]);
        let mut everywhere = true;
        for p in 0..VARIANT_COUNT
            invariant
                variants.wf(),
                all_usable(*variants),
                k < direct@.len(),
                wanted == identity(direct@[k as int]),
                everywhere == (forall|q: int|
                    0 <= q < p ==> holds_identity((#[trigger] variants.slots@[q])->0@, wanted)),
        {
            match &variants.slots[p] {
                Some(frames) => {
                    match find_identity(frames, &direct[k]) {
                        Some(at) => {
                            assert(identity(frames@[at as int]) == wanted);
                        },
                        None => {
                            everywhere = false;
                            assert(!holds_identity(variants.slots@[p as int]->0@, wanted));
                        },
                    }
                },
                None => {
                    assert(usable_slot(variants.slots@[p as int]));
                    assert(false);
                },
            }
        }
        let ghost before = positions@;
        if everywhere {
            assert(common_identity(*variants, wanted));
            let mut at: usize = 0;
            while at < positions.len()
                invariant_except_break
                    at <= positions@.len(),
                invariant
                    positions@ == before,
                    k < direct@.len(),
                    forall|i: int| 0 <= i < before.len() ==> #[trigger] before[i] < k,
                    forall|i: int|
                        0 <= i < at ==> identity_less(
                            identity(direct@[#[trigger] before[i] as int]),
                            identity(direct@[k as int]),
                        ),
                ensures
                    at <= positions@.len(),
                    at < positions@.len() ==> identity_less(
                        identity(direct@[k as int]),
                        identity(direct@[before[at as int] as int]),
                    ) || identity(direct@[before[at as int] as int]) == identity(direct@[k as int]),
                decreases positions@.len() - at,
            {
                if !is_identity_less(&direct[positions[at]], &direct[k]) {
                    break;
                }
                at = at + 1;
            }
            positions.insert(at, k);
            proof {
                assert(positions@ =~= before.insert(at as int, k));
                assert(usable_slot(variants.slots@[0]));
                if at < before.len() {
                    let here = before[at as int] as int;
                    assert(identity(direct@[here]) != identity(direct@[k as int]));
                    assert(identity_less(identity(direct@[k as int]), identity(direct@[here])));
                }
                assert forall|j: int| at < j < positions@.len() implies identity_less(
                    identity(direct@[k as int]),
                    identity(direct@[#[trigger] positions@[j] as int]),
                ) by {
                    if j > at + 1 {
                        lemma_identity_less_transitive(
                            identity(direct@[k as int]),
                            identity(direct@[before[at as int] as int]),
                            identity(direct@[before[j - 1] as int]),
                        );
                    }
                }
            }
        }
        proof {
            assert forall|m: int|
                0 <= m < k + 1 && common_identity(
                    *variants,
                    identity(#[trigger] direct@[m]),
                ) implies positions@.contains(m as usize) by {
                if m < k {
                    assert(before.contains(m as usize));
                    let n = choose|n: int| 0 <= n < before.len() && before[n] == m as usize;
                    if everywhere {
                        let at = choose|at: int|
                            0 <= at <= before.len() && positions@ == before.insert(at, k);
                        if n < at {
                            assert(positions@[n] == m as usize);
                        } else {
                            assert(positions@[n + 1] == m as usize);
                        }
                    }
                } else {
                    let at = choose|at: int|
                        0 <= at <= before.len() && positions@ == before.insert(at, k);
                    assert(positions@[at] == k);
                }
            }
        }
    }
    positions
}

/// A differing pair in the selections is a disagreement in the input.
proof fn lemma_disagreement(
    variants: VariantFrames,
    common: VariantFrames,
    shared: (Seq<char>, u64, u64),
    p: int,
    t: int,
)
    requires
        variants.wf(),
        common.wf(),
        all_usable(variants),
        0 <= p < VARIANT_COUNT,
        common_identity(variants, shared),
        0 <= t < common.slots@[0]->0@.len(),
        0 <= t < common.slots@[p]->0@.len(),
        common_selection(variants, variants.slots@[0]->0@, common.slots@[0]->0@),
        common_selection(variants, variants.slots@[p]->0@, common.slots@[p]->0@),
        identity(common.slots@[0]->0@[t]) == shared,
        identity(common.slots@[p]->0@[t]) == shared,
        !same_numbers(common.slots@[0]->0@[t].teacher@, common.slots@[p]->0@[t].teacher@),
    ensures
        teachers_disagree(variants),
{
    let direct = variants.slots@[0]->0@;
    let other = variants.slots@[p]->0@;
    let a = common.slots@[0]->0@[t];
    let b = common.slots@[p]->0@[t];
    assert(direct.contains(a));
    assert(other.contains(b));
    let i = choose|i: int| 0 <= i < direct.len() && direct[i] == a;
    let j = choose|j: int| 0 <= j < other.len() && other[j] == b;
    assert(teachers_disagree_at(variants, p, i, j));
}

/// Where the selections' teachers agree, so do the input's.
proof fn lemma_agreement(variants: VariantFrames, common: VariantFrames, p: int, i: int, j: int)
    requires
        variants.wf(),
        common.wf(),
        all_usable(variants),
        selections_aligned(variants, common),
        forall|q: int|
            0 <= q < VARIANT_COUNT ==> same_teachers(
                common.slots@[0]->0@,
                (#[trigger] common.slots@[q])->0@,
                common.slots@[0]->0@.len() as int,
            ),
    ensures
        !teachers_disagree_at(variants, p, i, j),
{
    if teachers_disagree_at(variants, p, i, j) {
        let direct = variants.slots@[0]->0@;
        let other = variants.slots@[p]->0@;
        let shared = identity(direct[i]);
        assert(usable_slot(variants.slots@[0]) && usable_slot(variants.slots@[p]));
        assert(common.slots@[0] is Some && common.slots@[p] is Some);
        let mine = common.slots@[0]->0@;
        let theirs = common.slots@[p]->0@;
        assert(holds_identity(mine, shared));
        let t = choose|t: int| 0 <= t < mine.len() && identity(#[trigger] mine[t]) == shared;
        assert(direct.contains(mine[t]));
        let a = choose|a: int| 0 <= a < direct.len() && direct[a] == mine[t];
        assert(a == i);
        assert(identity(theirs[t]) == shared);
        assert(other.contains(theirs[t]));
        let b = choose|b: int| 0 <= b < other.len() && other[b] == theirs[t];
        assert(b == j);
    }
}

/// The frames of one series that stand at Direct's common positions.
fn select_common(
    variants: &VariantFrames,
    direct: &Vec<VariantFrame>,
    positions: &Vec<usize>,
    p: usize,
) -> (selected: Vec<VariantFrame>)
    requires
        variants.wf(),
        all_usable(*variants),
        p < VARIANT_COUNT,
        direct@ == variants.slots@[0]->0@,
        forall|i: int| 0 <= i < positions@.len() ==> #[trigger] positions@[i] < direct@.len(),
        forall|i: int|
            0 <= i < positions@.len() ==> common_identity(
                *variants,
                identity(direct@[#[trigger] positions@[i] as int]),
            ),
    ensures
        selected@.len() == positions@.len(),
        forall|i: int|
            0 <= i < selected@.len() ==> identity(#[trigger] selected@[i]) == identity(
                direct@[positions@[i] as int],
            ),
        forall|i: int|
            0 <= i < selected@.len() ==> variants.slots@[p as int]->0@.contains(
                #[trigger] selected@[i],
            ),
{
    let mut selected: Vec<VariantFrame> = Vec::new();
    assert(usable_slot(variants.slots@[p as int]));
    if let Some(frames) = &variants.slots[p] {
        for t in 0..positions.len()
            invariant
                variants.wf(),
                p < VARIANT_COUNT,
                variants.slots@[p as int]->0 == *frames,
                direct@ == variants.slots@[0]->0@,
                forall|i: int|
                    0 <= i < positions@.len() ==> #[trigger] positions@[i] < direct@.len(),
                forall|i: int|
                    0 <= i < positions@.len() ==> common_identity(
                        *variants,
                        identity(direct@[#[trigger] positions@[i] as int]),
                    ),
                selected@.len() == t,
                forall|i: int|
                    0 <= i < t ==> identity(#[trigger] selected@[i]) == identity(
                        direct@[positions@[i] as int],
                    ),
                forall|i: int| 0 <= i < t ==> frames@.contains(#[trigger] selected@[i]),
        {
            let wanted = &direct[positions[t]];
            assert(common_identity(*variants, identity(*wanted)));
            assert(holds_identity(variants.slots@[p as int]->0@, identity(*wanted)));
            if let Some(at) = find_identity(frames, wanted) {
                selected.push(copy_frame(&frames[at]));
                assert(frames@.contains(frames@[at as int]));
            }
        }
    }
    selected
}

/// A selection taken at Direct's common positions is the common selection.
proof fn lemma_selection_is_common(
    variants: VariantFrames,
    direct: Seq<VariantFrame>,
    positions: Seq<usize>,
    p: int,
    selected: Seq<VariantFrame>,
)
    requires
        variants.wf(),
        all_usable(variants),
        0 <= p < VARIANT_COUNT,
        direct == variants.slots@[0]->0@,
        forall|i: int| 0 <= i < positions.len() ==> #[trigger] positions[i] < direct.len(),
        forall|i: int|
            0 <= i < positions.len() ==> common_identity(
                variants,
                identity(direct[#[trigger] positions[i] as int]),
            ),
        forall|i: int, j: int|
            0 <= i < j < positions.len() ==> identity_less(
                identity(direct[#[trigger] positions[i] as int]),
                identity(direct[#[trigger] positions[j] as int]),
            ),
        forall|k: int|
            0 <= k < direct.len() && common_identity(
                variants,
                identity(#[trigger] direct[k]),
            ) ==> positions.contains(k as usize),
        direct.len() <= usize::MAX,
        selected.len() == positions.len(),
        forall|i: int|
            0 <= i < selected.len() ==> identity(#[trigger] selected[i]) == identity(
                direct[positions[i] as int],
            ),
        forall|i: int|
            0 <= i < selected.len() ==> variants.slots@[p]->0@.contains(#[trigger] selected[i]),
    ensures
        common_selection(variants, variants.slots@[p]->0@, selected),
{
    assert forall|i: int, j: int| 0 <= i < j < selected.len() implies identity_less(
        identity(#[trigger] selected[i]),
        identity(#[trigger] selected[j]),
    ) by {
        assert(positions[i] < direct.len() && positions[j] < direct.len());
    }
    assert forall|wanted: (Seq<char>, u64, u64)|
        holds_identity(selected, wanted) <==> common_identity(variants, wanted) by {
        if holds_identity(selected, wanted) {
            let i = choose|i: int|
                0 <= i < selected.len() && identity(#[trigger] selected[i]) == wanted;
            assert(common_identity(variants, identity(direct[positions[i] as int])));
        }
        if common_identity(variants, wanted) {
            assert(holds_identity(variants.slots@[0]->0@, wanted));
            let k = choose|k: int|
                0 <= k < direct.len() && identity(#[trigger] direct[k]) == wanted;
            assert(positions.contains(k as usize));
            let i = choose|i: int| 0 <= i < positions.len() && positions[i] == k as usize;
            assert(identity(selected[i]) == wanted);
        }
    }
}

/// All six selections stand at Direct's common positions.
spec fn selections_aligned(variants: VariantFrames, common: VariantFrames) -> bool {
    forall|q: int|
        0 <= q < VARIANT_COUNT ==> {
            &&& (#[trigger] common.slots@[q]) is Some
            &&& common_selection(variants, variants.slots@[q]->0@, common.slots@[q]->0@)
            &&& common.slots@[q]->0@.len() == common.slots@[0]->0@.len()
            &&& same_identities(common.slots@[0]->0@, common.slots@[q]->0@)
        }
}

/// Frames at equal positions have equal identities.
spec fn same_identities(left: Seq<VariantFrame>, right: Seq<VariantFrame>) -> bool {
    forall|t: int|
        0 <= t < left.len() && t < right.len() ==> identity(#[trigger] left[t]) == identity(
            #[trigger] right[t],
        )
}

/// Frames at equal positions below `n` have equal teachers.
spec fn same_teachers(left: Seq<VariantFrame>, right: Seq<VariantFrame>, n: int) -> bool {
    forall|t: int|
        0 <= t < n ==> same_numbers((#[trigger] left[t]).teacher@, (#[trigger] right[t]).teacher@)
}

/// Whether all six selections carry Direct's teachers.
fn teachers_agree(Ghost(variants): Ghost<VariantFrames>, common: &VariantFrames) -> (agree: bool)
    requires
        variants.wf(),
        common.wf(),
        all_usable(variants),
        selections_aligned(variants, *common),
    ensures
        agree == !teachers_disagree(variants),
{
    assert(common.slots@[0] is Some);
    for p in 0..VARIANT_COUNT
        invariant
            variants.wf(),
            common.wf(),
            all_usable(variants),
            common.slots@[0] is Some,
            selections_aligned(variants, *common),
            forall|q: int|
                0 <= q < p ==> same_teachers(
                    common.slots@[0]->0@,
                    (#[trigger] common.slots@[q])->0@,
                    common.slots@[0]->0@.len() as int,
                ),
    {
        assert(common.slots@[p as int] is Some);
        match (&common.slots[0], &common.slots[p]) {
            (Some(mine), Some(theirs)) => {
                for t in 0..mine.len()
                    invariant
                        variants.wf(),
                        common.wf(),
                        p < VARIANT_COUNT,
                        all_usable(variants),
                        selections_aligned(variants, *common),
                        common.slots@[0]->0 == *mine,
                        common.slots@[p as int]->0 == *theirs,
                        mine@.len() == theirs@.len(),
                        same_teachers(mine@, theirs@, t as int),
                {
                    if !mine[t].teacher.is_same(&theirs[t].teacher) {
                        proof {
                            assert(common.slots@[0] is Some && common.slots@[p as int] is Some);
                            let shared = identity(mine@[t as int]);
                            assert(identity(theirs@[t as int]) == shared);
                            assert(holds_identity(mine@, shared));
                            lemma_disagreement(variants, *common, shared, p as int, t as int);
                        }
                        return false;
                    }
                }
            },
            _ => {},
        }
    }
    proof {
        if teachers_disagree(variants) {
            let (p, i, j) = choose|p: int, i: int, j: int| teachers_disagree_at(variants, p, i, j);
            lemma_agreement(variants, *common, p, i, j);
        }
    }
    true
}

/// The common selections of all six variants.
fn select_all_common(variants: &VariantFrames, direct: &Vec<VariantFrame>, positions: &Vec<usize>) -> (common:
    VariantFrames)
    requires
        variants.wf(),
        all_usable(*variants),
        direct@ == variants.slots@[0]->0@,
        direct@.len() <= usize::MAX,
        forall|i: int| 0 <= i < positions@.len() ==> #[trigger] positions@[i] < direct@.len(),
        forall|i: int|
            0 <= i < positions@.len() ==> common_identity(
                *variants,
                identity(direct@[#[trigger] positions@[i] as int]),
            ),
        forall|i: int, j: int|
            0 <= i < j < positions@.len() ==> identity_less(
                identity(direct@[#[trigger] positions@[i] as int]),
                identity(direct@[#[trigger] positions@[j] as int]),
            ),
        forall|k: int|
            0 <= k < direct@.len() && common_identity(
                *variants,
                identity(#[trigger] direct@[k]),
            ) ==> positions@.contains(k as usize),
    ensures
        common.wf(),
        selections_aligned(*variants, common),
{
    let mut common = VariantFrames { slots: Vec::new() };
    for p in 0..VARIANT_COUNT
        invariant
            variants.wf(),
            all_usable(*variants),
            direct@ == variants.slots@[0]->0@,
            direct@.len() <= usize::MAX,
            forall|i: int| 0 <= i < positions@.len() ==> #[trigger] positions@[i] < direct@.len(),
            forall|i: int|
                0 <= i < positions@.len() ==> common_identity(
                    *variants,
                    identity(direct@[#[trigger] positions@[i] as int]),
                ),
            forall|i: int, j: int|
                0 <= i < j < positions@.len() ==> identity_less(
                    identity(direct@[#[trigger] positions@[i] as int]),
                    identity(direct@[#[trigger] positions@[j] as int]),
                ),
            forall|k: int|
                0 <= k < direct@.len() && common_identity(
                    *variants,
                    identity(#[trigger] direct@[k]),
                ) ==> positions@.contains(k as usize),
            common.slots@.len() == p,
            forall|q: int|
                0 <= q < p ==> {
                    &&& (#[trigger] common.slots@[q]) is Some
                    &&& common.slots@[q]->0@.len() == positions@.len()
                    &&& common_selection(*variants, variants.slots@[q]->0@, common.slots@[q]->0@)
                    &&& at_positions(common.slots@[q]->0@, direct@, positions@)
                },
    {
        let selected = select_common(variants, direct, positions, p);
        proof {
            lemma_selection_is_common(*variants, direct@, positions@, p as int, selected@);
        }
        let ghost before = common.slots@;
        common.slots.push(Some(selected));
        assert(forall|q: int| 0 <= q < p ==> common.slots@[q] == before[q]);
    }
    assert forall|q: int| 0 <= q < VARIANT_COUNT implies same_identities(
        common.slots@[0]->0@,
        (#[trigger] common.slots@[q])->0@,
    ) by {
        assert(at_positions(common.slots@[0]->0@, direct@, positions@));
    }
    common
}

/// Frame `i` has the identity of Direct's frame at position `i`.
spec fn at_positions(
    selected: Seq<VariantFrame>,
    direct: Seq<VariantFrame>,
    positions: Seq<usize>,
) -> bool {
    forall|i: int|
        0 <= i < positions.len() ==> identity(#[trigger] selected[i]) == identity(
            direct[positions[i] as int],
        )
}

/// Restricts all six variants to their exact `(take, sequence, timestamp)`
/// intersection, in identity order. There are no nearest joins, holds or
/// filling.
///
/// # Errors
///
/// Rejects missing variants, duplicate identities, an empty intersection, or
/// teacher disagreement.
pub fn exact_common_variant_frames(variants: &VariantFrames) -> (result: Result<
    VariantFrames,
    UnifiedAblationError,
>)
    requires
        variants.wf(),
    ensures
        match result {
            Ok(common) => {
                &&& common.wf()
                &&& all_usable(*variants)
                &&& exists|wanted: (Seq<char>, u64, u64)| common_identity(*variants, wanted)
                &&& !teachers_disagree(*variants)
                &&& forall|p: int|
                    0 <= p < VARIANT_COUNT ==> (#[trigger] common.slots@[p]) is Some
                        && common_selection(
                        *variants,
                        variants.slots@[p]->0@,
                        common.slots@[p]->0@,
                    )
            },
            Err(UnifiedAblationError::MissingVariant(variant)) => {
                &&& variants.series(variant) is None
                &&& forall|q: int|
                    0 <= q < variant.position() ==> usable_slot(#[trigger] variants.slots@[q])
            },
            Err(UnifiedAblationError::DuplicateIdentity(variant)) => {
                &&& variants.series(variant) is Some
                &&& !distinct_identities(variants.series(variant)->0)
                &&& forall|q: int|
                    0 <= q < variant.position() ==> usable_slot(#[trigger] variants.slots@[q])
            },
            Err(UnifiedAblationError::NoCommonFrames) => {
                &&& all_usable(*variants)
                &&& forall|wanted: (Seq<char>, u64, u64)| !common_identity(*variants, wanted)
            },
            Err(UnifiedAblationError::TeacherMismatch) => {
                &&& all_usable(*variants)
                &&& teachers_disagree(*variants)
            },
            Err(_) => false,
        },
{
    let all = GnmResearchVariant::all();
    for p in 0..VARIANT_COUNT
        invariant
            variants.wf(),
            forall|i: int| 0 <= i < 6 ==> (#[trigger] all@[i]).position() == i,
            forall|q: int| 0 <= q < p ==> usable_slot(#[trigger] variants.slots@[q]),
    {
        match &variants.slots[p] {
            None => {
                return Err(UnifiedAblationError::MissingVariant(all[p]));
            },
            Some(frames) => {
                if has_duplicate_identity(frames) {
                    return Err(UnifiedAblationError::DuplicateIdentity(all[p]));
                }
            },
        }
    }
    let direct = match &variants.slots[0] {
        Some(frames) => frames,
        None => {
            return Err(UnifiedAblationError::MissingVariant(GnmResearchVariant::Direct));
        },
    };
    assert(direct.len() == direct@.len());
    let positions = common_positions(variants, direct);
    if positions.len() == 0 {
        assert forall|wanted: (Seq<char>, u64, u64)| !common_identity(*variants, wanted) by {
            if common_identity(*variants, wanted) {
                assert(holds_identity(variants.slots@[0]->0@, wanted));
                let k = choose|k: int|
                    0 <= k < direct@.len() && identity(#[trigger] direct@[k]) == wanted;
                assert(positions@.contains(k as usize));
            }
        }
        return Err(UnifiedAblationError::NoCommonFrames);
    }
    assert(common_identity(*variants, identity(direct@[positions@[0] as int])));
    let common = select_all_common(variants, direct, &positions);
    if !teachers_agree(Ghost(*variants), &common) {
        return Err(UnifiedAblationError::TeacherMismatch);
    }
    Ok(common)
}

/// Why a frame series is out of order, if it is: a repeated identity anywhere,
/// else two frames of one take, next to each other or with other takes between
/// them, whose sequence or timestamp does not increase.
pub open spec fn frame_order_error(frames: Seq<VariantFrame>) -> Option<UnifiedAblationError> {
    if !distinct_identities(frames) {
        Some(UnifiedAblationError::InvalidData("duplicate frame"))
    } else if exists|i: int, j: int| #[trigger] take_regresses(frames, i, j) {
        Some(UnifiedAblationError::InvalidData("frame order"))
    } else {
        None
    }
}

/// Frame `j` comes after frame `i` of the same take without advancing.
pub open spec fn take_regresses(frames: Seq<VariantFrame>, i: int, j: int) -> bool {
    &&& 0 <= i < j < frames.len()
    &&& frames[i].take_id@ == frames[j].take_id@
    &&& frames[j].frame_seq <= frames[i].frame_seq || frames[j].timestamp_micros
        <= frames[i].timestamp_micros
}

/// Checks that no identity repeats and that each take advances.
pub fn validate_frame_order(frames: &Vec<VariantFrame>) -> (result: Result<
    (),
    UnifiedAblationError,
>)
    ensures
        match result {
            Ok(_) => frame_order_error(frames@) is None,
            Err(error) => frame_order_error(frames@) == Some(error),
        },
{
    if has_duplicate_identity(frames) {
        return Err(UnifiedAblationError::InvalidData("duplicate frame"));
    }
    for j in 0..frames.len()
        invariant
            distinct_identities(frames@),
            forall|i: int, k: int| k < j ==> !#[trigger] take_regresses(frames@, i, k),
    {
        for i in 0..j
            invariant
                j < frames@.len(),
                distinct_identities(frames@),
                forall|h: int| h < i ==> !#[trigger] take_regresses(frames@, h, j as int),
        {
            let here = &frames[i];
            let next = &frames[j];
            if here.take_id == next.take_id && (next.frame_seq <= here.frame_seq
                || next.timestamp_micros <= here.timestamp_micros) {
                assert(take_regresses(frames@, i as int, j as int));
                return Err(UnifiedAblationError::InvalidData("frame order"));
            }
        }
    }
    Ok(())
}

/// Maximal runs of equal take names among the first `n` frames, as half-open
/// position ranges.
pub open spec fn take_runs(frames: Seq<VariantFrame>, n: int) -> Seq<(usize, usize)>
    decreases n,
{
    if n <= 0 {
        Seq::empty()
    } else if n == 1 {
        seq![(0usize, 1usize)]
    } else {
        let runs = take_runs(frames, n - 1);
        let start = runs.last().0;
        if frames[n - 1].take_id@ == frames[start as int].take_id@ {
            runs.drop_last().push((start, n as usize))
        } else {
            runs.push(((n - 1) as usize, n as usize))
        }
    }
}

/// Splits a series into maximal runs of equal take names.
pub fn take_slices(frames: &Vec<VariantFrame>) -> (runs: Vec<(usize, usize)>)
    ensures
        runs@ == take_runs(frames@, frames@.len() as int),
{
    let mut runs: Vec<(usize, usize)> = Vec::new();
    let mut start: usize = 0;
    if frames.len() == 0 {
        return runs;
    }
    let mut index: usize = 1;
    while index < frames.len()
        invariant
            1 <= index <= frames@.len(),
            start < index,
            take_runs(frames@, index as int) == runs@.push((start, index)),
        decreases frames@.len() - index,
    {
        if frames[index].take_id != frames[start].take_id {
            runs.push((start, index));
            start = index;
            assert(take_runs(frames@, index + 1) =~= runs@.push((start, (index + 1) as usize)));
        } else {
            assert(take_runs(frames@, index as int).drop_last() =~= runs@);
            assert(take_runs(frames@, index + 1) =~= runs@.push((start, (index + 1) as usize)));
        }
        index = index + 1;
    }
    runs.push((start, frames.len()));
    runs
}

/// The runs cover the series from front to back, each inside one take, and
/// neighbouring runs belong to different takes.
pub proof fn lemma_take_runs_partition(frames: Seq<VariantFrame>, n: int)
    requires
        1 <= n <= frames.len(),
        n <= usize::MAX,
    ensures
        0 < take_runs(frames, n).len() <= n,
        take_runs(frames, n)[0].0 == 0,
        take_runs(frames, n).last().1 == n,
        forall|i: int|
            0 <= i < take_runs(frames, n).len() ==> (#[trigger] take_runs(frames, n)[i]).0
                < take_runs(frames, n)[i].1 <= n,
        forall|i: int|
            0 < i < take_runs(frames, n).len() ==> take_runs(frames, n)[i - 1].1 == (
            #[trigger] take_runs(frames, n)[i]).0,
        forall|i: int, k: int|
            #![trigger take_runs(frames, n)[i], frames[k]]
            0 <= i < take_runs(frames, n).len() && take_runs(frames, n)[i].0 <= k < take_runs(
                frames,
                n,
            )[i].1 ==> frames[k].take_id@ == frames[take_runs(frames, n)[i].0 as int].take_id@,
        forall|i: int|
            0 < i < take_runs(frames, n).len() ==> frames[take_runs(frames, n)[i - 1].0 as int].take_id@
                != frames[(#[trigger] take_runs(frames, n)[i]).0 as int].take_id@,
    decreases n,
{
    if n > 1 {
        lemma_take_runs_partition(frames, n - 1);
    }
}

} // verus!
