//! Sets of capture takes, written as lists of take names.

use vstd::prelude::*;
use vstd::string::*;
use vstd::utf8::encode_utf8;

verus! {

/// The list names the take.
pub open spec fn names_take(takes: Seq<String>, take: Seq<char>) -> bool {
    exists|i: int| 0 <= i < takes.len() && (#[trigger] takes[i])@ == take
}

/// Lexicographic order of byte sequences from position `at` on.
pub open spec fn bytes_less(left: Seq<u8>, right: Seq<u8>, at: int) -> bool
    decreases right.len() - at,
{
    if at >= right.len() || at < 0 {
        false
    } else if at >= left.len() {
        true
    } else if left[at] != right[at] {
        left[at] < right[at]
    } else {
        bytes_less(left, right, at + 1)
    }
}

/// Order of texts by their UTF-8 bytes.
pub open spec fn text_less(left: Seq<char>, right: Seq<char>) -> bool {
    bytes_less(encode_utf8(left), encode_utf8(right), 0)
}

/// Every name comes strictly before the next one.
pub open spec fn strictly_ordered(takes: Seq<String>) -> bool {
    forall|i: int, j: int|
        0 <= i < j < takes.len() ==> text_less((#[trigger] takes[i])@, (#[trigger] takes[j])@)
}

/// Both lists name the same takes.
pub open spec fn same_takes(left: Seq<String>, right: Seq<String>) -> bool {
    forall|take: Seq<char>| names_take(left, take) <==> names_take(right, take)
}

/// The outcome of comparing two texts.
#[derive(Clone, Copy, Debug, PartialEq, Eq, Structural)]
pub enum TextOrder {
    /// The left text comes first.
    Before,
    /// Both texts are equal.
    Same,
    /// The right text comes first.
    After,
}

proof fn lemma_bytes_less_transitive(a: Seq<u8>, b: Seq<u8>, c: Seq<u8>, at: int)
    requires
        0 <= at,
        bytes_less(a, b, at),
        bytes_less(b, c, at),
    ensures
        bytes_less(a, c, at),
    decreases c.len() - at,
{
    if at < a.len() && at < b.len() && at < c.len() && a[at] == b[at] && b[at] == c[at] {
        lemma_bytes_less_transitive(a, b, c, at + 1);
    }
}

proof fn lemma_bytes_less_irreflexive(a: Seq<u8>, at: int)
    requires
        0 <= at,
    ensures
        !bytes_less(a, a, at),
    decreases a.len() - at,
{
    if at < a.len() {
        lemma_bytes_less_irreflexive(a, at + 1);
    }
}

/// The order of texts is transitive.
pub proof fn lemma_text_less_transitive(a: Seq<char>, b: Seq<char>, c: Seq<char>)
    requires
        text_less(a, b),
        text_less(b, c),
    ensures
        text_less(a, c),
{
    lemma_bytes_less_transitive(encode_utf8(a), encode_utf8(b), encode_utf8(c), 0);
}

/// A common prefix decides nothing.
proof fn lemma_bytes_less_skips_prefix(a: Seq<u8>, b: Seq<u8>, at: int, to: int)
    requires
        0 <= at <= to,
        to <= a.len(),
        to <= b.len(),
        forall|i: int| at <= i < to ==> a[i] == b[i],
    ensures
        bytes_less(a, b, at) == bytes_less(a, b, to),
    decreases to - at,
{
    if at < to {
        lemma_bytes_less_skips_prefix(a, b, at + 1, to);
    }
}

/// Compares two texts by their UTF-8 bytes.
pub fn compare_texts(left: &String, right: &String) -> (order: TextOrder)
    ensures
        match order {
            TextOrder::Before => text_less(left@, right@),
            TextOrder::Same => left@ == right@,
            TextOrder::After => text_less(right@, left@),
        },
{
    if *left == *right {
        return TextOrder::Same;
    }
    let a = left.as_str().as_bytes();
    let b = right.as_str().as_bytes();
    let shorter: usize = if a.len() < b.len() {
        a.len()
    } else {
        b.len()
    };
    for i in 0..shorter
        invariant
            shorter <= a@.len(),
            shorter <= b@.len(),
            a@ == encode_utf8(left@),
            b@ == encode_utf8(right@),
            forall|j: int| 0 <= j < i ==> a@[j] == b@[j],
    {
        if a[i] != b[i] {
            proof {
                lemma_bytes_less_skips_prefix(a@, b@, 0, i as int);
                lemma_bytes_less_skips_prefix(b@, a@, 0, i as int);
            }
            if a[i] < b[i] {
                return TextOrder::Before;
            } else {
                return TextOrder::After;
            }
        }
    }
    proof {
        lemma_bytes_less_skips_prefix(a@, b@, 0, shorter as int);
        lemma_bytes_less_skips_prefix(b@, a@, 0, shorter as int);
    }
    if a.len() < b.len() {
        TextOrder::Before
    } else if b.len() < a.len() {
        TextOrder::After
    } else {
        proof {
            assert(a@ =~= b@);
            vstd::utf8::encode_utf8_decode_utf8(left@);
            vstd::utf8::encode_utf8_decode_utf8(right@);
        }
        TextOrder::Same
    }
}

/// Whether the list names the take.
pub fn contains_take(takes: &Vec<String>, take: &String) -> (contained: bool)
    ensures
        contained == names_take(takes@, take@),
{
    for i in 0..takes.len()
        invariant
            forall|j: int| 0 <= j < i ==> (#[trigger] takes@[j])@ != take@,
    {
        if takes[i] == *take {
            assert(takes@[i as int]@ == take@);
            return true;
        }
    }
    false
}

/// The named takes in ascending order, each once.
pub fn sorted_takes(takes: &Vec<String>) -> (sorted: Vec<String>)
    ensures
        strictly_ordered(sorted@),
        same_takes(sorted@, takes@),
{
    let mut sorted: Vec<String> = Vec::new();
    for i in 0..takes.len()
        invariant
            strictly_ordered(sorted@),
            same_takes(sorted@, takes@.take(i as int)),
    {
        let ghost before = sorted@;
        let take = &takes[i];
        let mut at: usize = 0;
        let mut present = false;
        while at < sorted.len()
            invariant_except_break
                !present,
                at <= sorted@.len(),
            invariant
                sorted@ == before,
                strictly_ordered(before),
                forall|j: int| 0 <= j < at ==> text_less((#[trigger] before[j])@, take@),
            ensures
                at <= sorted@.len(),
                present ==> at < sorted@.len() && before[at as int]@ == take@,
                !present && at < sorted@.len() ==> text_less(take@, before[at as int]@),
            decreases sorted@.len() - at,
        {
            match compare_texts(&sorted[at], take) {
                TextOrder::Before => {
                    at = at + 1;
                },
                TextOrder::Same => {
                    present = true;
                    break;
                },
                TextOrder::After => {
                    break;
                },
            }
        }
        assert(takes@.take(i + 1) =~= takes@.take(i as int).push(*take));
        if !present {
            let copy = take.clone();
            sorted.insert(at, copy);
            proof {
                assert(sorted@ =~= before.insert(at as int, copy));
                assert forall|j: int| at < j < sorted@.len() implies text_less(
                    take@,
                    (#[trigger] sorted@[j])@,
                ) by {
                    if j > at + 1 {
                        lemma_text_less_transitive(take@, before[at as int]@, before[j - 1]@);
                    }
                }
                assert(strictly_ordered(sorted@));
            }
        }
        proof {
            assert forall|name: Seq<char>|
                names_take(sorted@, name) <==> names_take(takes@.take(i + 1), name) by {
                let grown = takes@.take(i + 1);
                let shorter = takes@.take(i as int);
                if names_take(grown, name) {
                    let k = choose|k: int| 0 <= k < grown.len() && (#[trigger] grown[k])@ == name;
                    if k < i {
                        assert(shorter[k]@ == name);
                        assert(names_take(before, name));
                        let m = choose|m: int|
                            0 <= m < before.len() && (#[trigger] before[m])@ == name;
                        if present || m < at {
                            assert(sorted@[m]@ == name);
                        } else {
                            assert(sorted@[m + 1]@ == name);
                        }
                    } else {
                        assert(sorted@[at as int]@ == name);
                    }
                }
                if names_take(sorted@, name) {
                    let k = choose|k: int|
                        0 <= k < sorted@.len() && (#[trigger] sorted@[k])@ == name;
                    if !present && k == at {
                        assert(grown[i as int]@ == name);
                    } else {
                        let m = if present || k < at {
                            k
                        } else {
                            k - 1
                        };
                        assert(before[m]@ == name);
                        assert(names_take(shorter, name));
                        let n = choose|n: int|
                            0 <= n < shorter.len() && (#[trigger] shorter[n])@ == name;
                        assert(grown[n]@ == name);
                    }
                }
            }
        }
    }
    assert(takes@.take(takes@.len() as int) =~= takes@);
    sorted
}

/// An ascending list without repetition is determined by the takes it names.
pub proof fn lemma_sorted_takes_are_unique(left: Seq<String>, right: Seq<String>)
    requires
        strictly_ordered(left),
        strictly_ordered(right),
        same_takes(left, right),
    ensures
        left.len() == right.len(),
        forall|i: int| 0 <= i < left.len() ==> (#[trigger] left[i])@ == right[i]@,
    decreases left.len() + right.len(),
{
    if left.len() == 0 {
        if right.len() > 0 {
            assert(names_take(right, right[0]@));
            assert(names_take(left, right[0]@));
        }
    } else if right.len() == 0 {
        assert(names_take(left, left[0]@));
        assert(names_take(right, left[0]@));
    } else {
        let a = left.last()@;
        let b = right.last()@;
        assert(left[left.len() - 1]@ == a);
        assert(right[right.len() - 1]@ == b);
        assert(names_take(left, a));
        assert(names_take(right, b));
        assert(names_take(right, a));
        assert(names_take(left, b));
        let i = choose|i: int| 0 <= i < right.len() && (#[trigger] right[i])@ == a;
        let j = choose|j: int| 0 <= j < left.len() && (#[trigger] left[j])@ == b;
        if a != b {
            assert(i < right.len() - 1);
            assert(j < left.len() - 1);
            assert(text_less(a, b));
            assert(text_less(b, a));
            lemma_text_less_transitive(a, b, a);
            lemma_bytes_less_irreflexive(encode_utf8(a), 0);
        }
        let l = left.drop_last();
        let r = right.drop_last();
        assert forall|name: Seq<char>| names_take(l, name) <==> names_take(r, name) by {
            if names_take(l, name) {
                let k = choose|k: int| 0 <= k < l.len() && (#[trigger] l[k])@ == name;
                assert(left[k]@ == name);
                assert(text_less(left[k]@, left[left.len() - 1]@));
                lemma_bytes_less_irreflexive(encode_utf8(a), 0);
                assert(names_take(left, name));
                let m = choose|m: int| 0 <= m < right.len() && (#[trigger] right[m])@ == name;
                assert(r[m]@ == name);
            }
            if names_take(r, name) {
                let k = choose|k: int| 0 <= k < r.len() && (#[trigger] r[k])@ == name;
                assert(right[k]@ == name);
                assert(text_less(right[k]@, right[right.len() - 1]@));
                lemma_bytes_less_irreflexive(encode_utf8(a), 0);
                assert(names_take(right, name));
                let m = choose|m: int| 0 <= m < left.len() && (#[trigger] left[m])@ == name;
                assert(l[m]@ == name);
            }
        }
        lemma_sorted_takes_are_unique(l, r);
        assert forall|k: int| 0 <= k < left.len() implies (#[trigger] left[k])@ == right[k]@ by {
            if k < left.len() - 1 {
                assert(l[k]@ == r[k]@);
            }
        }
    }
}

/// Positions among the first `n` ids that name one of the takes, in order.
pub open spec fn selected_positions(ids: Seq<Seq<char>>, takes: Seq<String>, n: int) -> Seq<usize>
    decreases n,
{
    if n <= 0 {
        Seq::empty()
    } else if names_take(takes, ids[n - 1]) {
        selected_positions(ids, takes, n - 1).push((n - 1) as usize)
    } else {
        selected_positions(ids, takes, n - 1)
    }
}

/// Where something is selected, the sorted takes name something too.
pub proof fn lemma_selection_needs_takes(
    ids: Seq<Seq<char>>,
    takes: Seq<String>,
    sorted: Seq<String>,
    n: int,
)
    requires
        selected_positions(ids, takes, n).len() > 0,
        same_takes(sorted, takes),
    ensures
        sorted.len() > 0,
    decreases n,
{
    if names_take(takes, ids[n - 1]) {
        assert(names_take(sorted, ids[n - 1]));
    } else {
        lemma_selection_needs_takes(ids, takes, sorted, n - 1);
    }
}

/// Selected positions lie below `n`, and there are no more than `n`.
pub proof fn lemma_selected_positions_fit(ids: Seq<Seq<char>>, takes: Seq<String>, n: int)
    requires
        0 <= n <= usize::MAX,
    ensures
        selected_positions(ids, takes, n).len() <= n,
        forall|i: int|
            0 <= i < selected_positions(ids, takes, n).len() ==> #[trigger] selected_positions(
                ids,
                takes,
                n,
            )[i] < n,
    decreases n,
{
    if n > 0 {
        lemma_selected_positions_fit(ids, takes, n - 1);
    }
}

/// The selection reads nothing but the ids before `n`.
pub proof fn lemma_selection_reads_a_prefix(
    left: Seq<Seq<char>>,
    right: Seq<Seq<char>>,
    takes: Seq<String>,
    n: int,
)
    requires
        n <= left.len(),
        n <= right.len(),
        forall|i: int| 0 <= i < n ==> left[i] == right[i],
    ensures
        selected_positions(left, takes, n) == selected_positions(right, takes, n),
    decreases n,
{
    if n > 0 {
        lemma_selection_reads_a_prefix(left, right, takes, n - 1);
    }
}

/// Ids of other takes change nothing in the selection, however many follow.
pub proof fn lemma_other_takes_are_not_selected(
    ids: Seq<Seq<char>>,
    takes: Seq<String>,
    extras: Seq<Seq<char>>,
)
    requires
        forall|i: int| 0 <= i < extras.len() ==> !names_take(takes, #[trigger] extras[i]),
    ensures
        selected_positions(ids + extras, takes, (ids + extras).len() as int) == selected_positions(
            ids,
            takes,
            ids.len() as int,
        ),
    decreases extras.len(),
{
    let all = ids + extras;
    if extras.len() == 0 {
        assert(all =~= ids);
    } else {
        let fewer = ids + extras.drop_last();
        lemma_other_takes_are_not_selected(ids, takes, extras.drop_last());
        lemma_selection_reads_a_prefix(fewer, all, takes, fewer.len() as int);
        assert(all.last() == extras[extras.len() - 1]);
    }
}

/// What stands at the selected positions is what is left of the list without the
/// other takes.
pub proof fn lemma_selected_are_kept<S>(
    samples: Seq<S>,
    ids: Seq<Seq<char>>,
    takes: Seq<String>,
    keep: spec_fn(S) -> bool,
)
    requires
        samples.len() == ids.len(),
        samples.len() <= usize::MAX,
        forall|i: int| 0 <= i < samples.len() ==> keep(#[trigger] samples[i]) == names_take(takes, ids[i]),
    ensures
        ({
            let positions = selected_positions(ids, takes, ids.len() as int);
            &&& samples.filter(keep).len() == positions.len()
            &&& forall|i: int|
                0 <= i < positions.len() ==> #[trigger] positions[i] < samples.len()
                    && samples.filter(keep)[i] == samples[positions[i] as int]
        }),
    decreases samples.len(),
{
    reveal(Seq::filter);
    if samples.len() > 0 {
        let fewer = samples.drop_last();
        let names = ids.drop_last();
        assert(keep(samples[samples.len() - 1]) == names_take(takes, ids[ids.len() - 1]));
        assert forall|i: int| 0 <= i < fewer.len() implies keep(#[trigger] fewer[i]) == names_take(
            takes,
            names[i],
        ) by {
            assert(fewer[i] == samples[i]);
        }
        lemma_selected_are_kept(fewer, names, takes, keep);
        lemma_selection_reads_a_prefix(names, ids, takes, names.len() as int);
        let before = selected_positions(names, takes, names.len() as int);
        let positions = selected_positions(ids, takes, ids.len() as int);
        assert forall|i: int| 0 <= i < positions.len() implies #[trigger] positions[i]
            < samples.len() && samples.filter(keep)[i] == samples[positions[i] as int] by {
            if i < before.len() {
                assert(before[i] == positions[i]);
                assert(fewer[before[i] as int] == samples[before[i] as int]);
            }
        }
    }
}

/// A list of which nothing is kept adds nothing.
pub proof fn lemma_nothing_is_kept<S>(samples: Seq<S>, extras: Seq<S>, keep: spec_fn(S) -> bool)
    requires
        forall|i: int| 0 <= i < extras.len() ==> !keep(#[trigger] extras[i]),
    ensures
        (samples + extras).filter(keep) == samples.filter(keep),
    decreases extras.len(),
{
    reveal(Seq::filter);
    if extras.len() == 0 {
        assert(samples + extras =~= samples);
    } else {
        lemma_nothing_is_kept(samples, extras.drop_last(), keep);
        assert((samples + extras).drop_last() =~= samples + extras.drop_last());
        assert((samples + extras).last() == extras[extras.len() - 1]);
    }
}

} // verus!
