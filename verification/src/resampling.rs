//! How mono samples are resampled.
//!
//! Samples are floating point numbers, with which only the caller can calculate.
//! The functions here take positions and weighing as arguments and decide which
//! samples go into them.
//!
//! A law that rests on a fact of that arithmetic names the fact and asks it only of
//! samples that `within` admits, with results told apart by `same`: finite samples
//! in range, for one, and the equality under which both zeros are the same.
use vstd::prelude::*;

use crate::functions;
use crate::mixing;

verus! {

/// Whether `part` is what position `i` of the output gets: between two samples
/// their interpolation, at the last sample that sample, and beyond it nothing.
pub open spec fn is_resampled<S, F, P: Fn(usize) -> (usize, F), L: Fn(S, S, F) -> S>(
    samples: Seq<S>,
    position: P,
    interpolate: L,
    i: usize,
    part: Option<S>,
) -> bool {
    exists|index: usize, fraction: F| #[trigger]
        call_ensures(position, (i,), (index, fraction)) && if index + 1 < samples.len() {
            part matches Some(sample) && call_ensures(
                interpolate,
                (samples[index as int], samples[index + 1], fraction),
                sample,
            )
        } else if index < samples.len() {
            part == Some(samples[index as int])
        } else {
            part is None
        }
}

/// The samples that there are, in order.
pub open spec fn present<S>(parts: Seq<Option<S>>) -> Seq<S> {
    parts.filter_map(|part: Option<S>| part)
}

/// Whether `parts` are what each position of the output gets.
pub open spec fn are_resampled<S, F, P: Fn(usize) -> (usize, F), L: Fn(S, S, F) -> S>(
    samples: Seq<S>,
    position: P,
    interpolate: L,
    parts: Seq<Option<S>>,
) -> bool {
    forall|i: int|
        0 <= i < parts.len() ==> is_resampled(
            samples,
            position,
            interpolate,
            i as usize,
            #[trigger] parts[i],
        )
}

/// Whether `resampled` is what resampling from one rate to another gives: at the
/// same rate the samples, and else what the positions of the output get.
pub open spec fn is_resampling<S, F, P: Fn(usize) -> (usize, F), L: Fn(S, S, F) -> S>(
    samples: Seq<S>,
    from_rate: u32,
    to_rate: u32,
    new_length: usize,
    position: P,
    interpolate: L,
    resampled: Seq<S>,
) -> bool {
    if from_rate == to_rate {
        resampled == samples
    } else {
        exists|parts: Seq<Option<S>>|
            {
                &&& parts.len() == new_length
                &&& #[trigger] are_resampled(samples, position, interpolate, parts)
                &&& resampled == present(parts)
            }
    }
}

/// Resamples from one rate to another by linear interpolation. At the same rate
/// the samples stay as they are.
///
/// `position` says between which samples, and how far, each sample of the output
/// falls: the index of the sample in front of it and the fraction of the way to
/// the next. `interpolate` weighs two neighbours by such a fraction.
pub fn resample<S: Copy, F: Copy, P: Fn(usize) -> (usize, F), L: Fn(S, S, F) -> S>(
    samples: &Vec<S>,
    from_rate: u32,
    to_rate: u32,
    new_length: usize,
    position: P,
    interpolate: L,
) -> (resampled: Vec<S>)
    requires
        from_rate > 0 || to_rate == 0 || samples@.len() == 0,
        from_rate != to_rate ==> forall|i: usize|
            i < new_length ==> call_requires(position, (i,)),
        forall|a: S, b: S, f: F| call_requires(interpolate, (a, b, f)),
    ensures
        is_resampling(
            samples@,
            from_rate,
            to_rate,
            new_length,
            position,
            interpolate,
            resampled@,
        ),
{
    let mut resampled: Vec<S> = Vec::new();
    let mut i: usize = 0;
    if from_rate == to_rate {
        while i < samples.len()
            invariant
                i <= samples@.len(),
                resampled@ == samples@.take(i as int),
            decreases samples@.len() - i,
        {
            resampled.push(samples[i]);
            i = i + 1;
        }
        proof {
            assert(samples@.take(i as int) =~= samples@);
        }
        return resampled;
    }
    let ghost mut parts: Seq<Option<S>> = Seq::empty();
    while i < new_length
        invariant
            i <= new_length,
            forall|i: usize| i < new_length ==> call_requires(position, (i,)),
            forall|a: S, b: S, f: F| call_requires(interpolate, (a, b, f)),
            parts.len() == i,
            are_resampled(samples@, position, interpolate, parts),
            resampled@ == present(parts),
        decreases new_length - i,
    {
        let (index, fraction): (usize, F) = position(i);
        let ghost mut part: Option<S> = None;
        if index < samples.len() {
            let sample: S = if samples.len() - index > 1 {
                interpolate(samples[index], samples[index + 1], fraction)
            } else {
                samples[index]
            };
            resampled.push(sample);
            proof {
                part = Some(sample);
            }
        }
        proof {
            assert(is_resampled(samples@, position, interpolate, i, part));
            lemma_present_grows(parts, part);
            parts = parts.push(part);
        }
        i = i + 1;
    }
    resampled
}

/// Resampling gives at most one sample for each position of the output, and
/// exactly one where every position falls on the samples.
pub proof fn lemma_resampled_length<S>(parts: Seq<Option<S>>)
    ensures
        present(parts).len() <= parts.len(),
        (forall|i: int| 0 <= i < parts.len() ==> (#[trigger] parts[i]) is Some)
            ==> present(parts).len() == parts.len(),
    decreases parts.len(),
{
    reveal_with_fuel(Seq::filter_map, 1);
    if parts.len() > 0 {
        let before = parts.drop_last();
        lemma_resampled_length(before);
        assert(forall|i: int| 0 <= i < before.len() ==> before[i] == parts[i]);
        assert(parts.last() == parts[parts.len() - 1]);
    }
}

/// Whether later positions of the output never fall on earlier samples.
pub open spec fn goes_forward<F, P: Fn(usize) -> (usize, F)>(position: P) -> bool {
    forall|i: usize, j: usize, at_i: (usize, F), at_j: (usize, F)|
        i <= j && #[trigger] call_ensures(position, (i,), at_i) && #[trigger] call_ensures(
            position,
            (j,),
            at_j,
        ) ==> at_i.0 <= at_j.0
}

/// What falls between two samples depends on those two alone: samples put behind
/// do not change it.
pub proof fn lemma_output_between_samples_is_local<
    S,
    F,
    P: Fn(usize) -> (usize, F),
    L: Fn(S, S, F) -> S,
>(samples: Seq<S>, more: Seq<S>, position: P, interpolate: L, i: usize, part: Option<S>)
    requires
        forall|index: usize, fraction: F| #[trigger]
            call_ensures(position, (i,), (index, fraction)) ==> index + 1 < samples.len(),
    ensures
        is_resampled(samples, position, interpolate, i, part) <==> is_resampled(
            samples + more,
            position,
            interpolate,
            i,
            part,
        ),
{
    if is_resampled(samples, position, interpolate, i, part) {
        let (index, fraction) = choose|index: usize, fraction: F| #[trigger]
            call_ensures(position, (i,), (index, fraction)) && if index + 1 < samples.len() {
                part matches Some(sample) && call_ensures(
                    interpolate,
                    (samples[index as int], samples[index + 1], fraction),
                    sample,
                )
            } else if index < samples.len() {
                part == Some(samples[index as int])
            } else {
                part is None
            };
        assert((samples + more)[index as int] == samples[index as int]);
        assert((samples + more)[index + 1] == samples[index + 1]);
        assert(call_ensures(position, (i,), (index, fraction)));
    }
    if is_resampled(samples + more, position, interpolate, i, part) {
        let all = samples + more;
        let (index, fraction) = choose|index: usize, fraction: F| #[trigger]
            call_ensures(position, (i,), (index, fraction)) && if index + 1 < all.len() {
                part matches Some(sample) && call_ensures(
                    interpolate,
                    (all[index as int], all[index + 1], fraction),
                    sample,
                )
            } else if index < all.len() {
                part == Some(all[index as int])
            } else {
                part is None
            };
        assert(all[index as int] == samples[index as int]);
        assert(all[index + 1] == samples[index + 1]);
        assert(call_ensures(position, (i,), (index, fraction)));
    }
}

/// Samples put behind others shorten nothing and change no output that falls
/// between two of the first ones.
pub proof fn lemma_appended_samples_change_no_earlier_output<
    S,
    F,
    P: Fn(usize) -> (usize, F),
    L: Fn(S, S, F) -> S,
>(
    samples: Seq<S>,
    more: Seq<S>,
    position: P,
    interpolate: L,
    length: usize,
    longer_length: usize,
    parts: Seq<Option<S>>,
    longer_parts: Seq<Option<S>>,
)
    requires
        functions::has_one_result(position),
        functions::has_one_result_of_three(interpolate),
        goes_forward(position),
        length <= longer_length,
        parts.len() == length,
        longer_parts.len() == longer_length,
        are_resampled(samples, position, interpolate, parts),
        are_resampled(samples + more, position, interpolate, longer_parts),
    ensures
        present(parts).len() <= present(longer_parts).len(),
        forall|i: usize, index: usize, fraction: F|
            i < present(parts).len() && #[trigger] call_ensures(
                position,
                (i,),
                (index, fraction),
            ) && index + 1 < samples.len() ==> present(parts)[i as int] == present(
                longer_parts,
            )[i as int],
{
    let all = samples + more;
    lemma_parts_end_once(samples, position, interpolate, parts);
    lemma_parts_end_once(all, position, interpolate, longer_parts);
    lemma_present_is_front(parts);
    lemma_present_is_front(longer_parts);
    let count = present(parts).len();
    let longer_count = present(longer_parts).len();
    if count > longer_count {
        let i = longer_count as int;
        assert(parts[i] is Some);
        assert(longer_parts[i] is None);
        assert(is_resampled(samples, position, interpolate, i as usize, parts[i]));
        assert(is_resampled(all, position, interpolate, i as usize, longer_parts[i]));
    }
    assert forall|i: usize, index: usize, fraction: F|
        i < count && #[trigger] call_ensures(position, (i,), (index, fraction)) && index + 1
            < samples.len() implies present(parts)[i as int] == present(longer_parts)[i as int] by {
        assert(parts[i as int] == Some(present(parts)[i as int]));
        assert(longer_parts[i as int] == Some(present(longer_parts)[i as int]));
        assert(is_resampled(samples, position, interpolate, i, parts[i as int]));
        assert(is_resampled(all, position, interpolate, i, longer_parts[i as int]));
        assert(all[index as int] == samples[index as int]);
        assert(all[index + 1] == samples[index + 1]);
    }
}

/// Behind a position of the output that falls beyond the samples, all do.
proof fn lemma_parts_end_once<S, F, P: Fn(usize) -> (usize, F), L: Fn(S, S, F) -> S>(
    samples: Seq<S>,
    position: P,
    interpolate: L,
    parts: Seq<Option<S>>,
)
    requires
        goes_forward(position),
        parts.len() <= usize::MAX,
        are_resampled(samples, position, interpolate, parts),
    ensures
        forall|i: int, j: int|
            0 <= i <= j < parts.len() && (#[trigger] parts[j]) is Some ==> (#[trigger] parts[i])
                is Some,
{
    assert forall|i: int, j: int|
        0 <= i <= j < parts.len() && (#[trigger] parts[j]) is Some implies (#[trigger] parts[i])
        is Some by {
        assert(is_resampled(samples, position, interpolate, i as usize, parts[i]));
        assert(is_resampled(samples, position, interpolate, j as usize, parts[j]));
    }
}

/// Where parts end once, the samples that there are stand in front.
proof fn lemma_present_is_front<S>(parts: Seq<Option<S>>)
    requires
        forall|i: int, j: int|
            0 <= i <= j < parts.len() && (#[trigger] parts[j]) is Some ==> (#[trigger] parts[i])
                is Some,
    ensures
        present(parts).len() <= parts.len(),
        forall|i: int|
            0 <= i < present(parts).len() ==> #[trigger] parts[i] == Some(present(parts)[i]),
        forall|i: int| present(parts).len() <= i < parts.len() ==> (#[trigger] parts[i]) is None,
    decreases parts.len(),
{
    if parts.len() == 0 {
        reveal_with_fuel(Seq::filter_map, 1);
    } else {
        let before = parts.drop_last();
        assert(forall|i: int| 0 <= i < before.len() ==> before[i] == parts[i]);
        lemma_present_is_front(before);
        lemma_present_grows(before, parts.last());
        assert(before.push(parts.last()) =~= parts);
        if parts.last() is Some && present(before).len() < before.len() {
            assert(before[present(before).len() as int] is None);
            assert(parts[parts.len() - 1] is Some);
        }
    }
}

/// Samples, length, positions and weighing settle the result; of the rates only
/// whether they are equal matters besides.
pub proof fn lemma_resampling_has_one_outcome<
    S,
    F,
    P: Fn(usize) -> (usize, F),
    L: Fn(S, S, F) -> S,
>(
    samples: Seq<S>,
    from_rate: u32,
    to_rate: u32,
    other_from_rate: u32,
    other_to_rate: u32,
    new_length: usize,
    position: P,
    interpolate: L,
    one: Seq<S>,
    other: Seq<S>,
)
    requires
        functions::has_one_result(position),
        functions::has_one_result_of_three(interpolate),
        from_rate == to_rate <==> other_from_rate == other_to_rate,
        is_resampling(samples, from_rate, to_rate, new_length, position, interpolate, one),
        is_resampling(
            samples,
            other_from_rate,
            other_to_rate,
            new_length,
            position,
            interpolate,
            other,
        ),
    ensures
        one == other,
{
    if from_rate != to_rate {
        let parts = lemma_parts_of_resampling(
            samples,
            from_rate,
            to_rate,
            new_length,
            position,
            interpolate,
            one,
        );
        let other_parts = lemma_parts_of_resampling(
            samples,
            other_from_rate,
            other_to_rate,
            new_length,
            position,
            interpolate,
            other,
        );
        assert forall|i: int| 0 <= i < parts.len() implies parts[i] == other_parts[i] by {
            assert(is_resampled(samples, position, interpolate, i as usize, parts[i]));
            assert(is_resampled(samples, position, interpolate, i as usize, other_parts[i]));
        }
        assert(parts =~= other_parts);
    }
}

/// Only the ratio of the rates matters: where two pairs of rates have the same
/// ratio, and so the same length and positions, the results are the same.
pub proof fn lemma_only_the_ratio_of_rates_matters<
    S,
    F,
    P: Fn(usize) -> (usize, F),
    L: Fn(S, S, F) -> S,
>(
    samples: Seq<S>,
    from_rate: u32,
    to_rate: u32,
    other_from_rate: u32,
    other_to_rate: u32,
    new_length: usize,
    position: P,
    interpolate: L,
    one: Seq<S>,
    other: Seq<S>,
)
    requires
        functions::has_one_result(position),
        functions::has_one_result_of_three(interpolate),
        from_rate > 0,
        other_from_rate > 0,
        to_rate * other_from_rate == other_to_rate * from_rate,
        is_resampling(samples, from_rate, to_rate, new_length, position, interpolate, one),
        is_resampling(
            samples,
            other_from_rate,
            other_to_rate,
            new_length,
            position,
            interpolate,
            other,
        ),
    ensures
        one == other,
{
    assert(from_rate == to_rate <==> other_from_rate == other_to_rate) by (nonlinear_arith)
        requires
            from_rate > 0,
            other_from_rate > 0,
            to_rate * other_from_rate == other_to_rate * from_rate,
    ;
    lemma_resampling_has_one_outcome(
        samples,
        from_rate,
        to_rate,
        other_from_rate,
        other_to_rate,
        new_length,
        position,
        interpolate,
        one,
        other,
    );
}

/// Whether the first positions fall on, or a fraction behind, a sample.
pub open spec fn falls_on_fractions<F, P: Fn(usize) -> (usize, F)>(
    position: P,
    length: nat,
    is_fraction: spec_fn(F) -> bool,
) -> bool {
    forall|i: usize, at: (usize, F)|
        i < length && #[trigger] call_ensures(position, (i,), at) ==> is_fraction(at.1)
}

/// Whether weighing mapped samples gives the mapped result.
pub open spec fn interpolates_alike<S, F, L: Fn(S, S, F) -> S>(
    interpolate: L,
    map: spec_fn(S) -> S,
    is_fraction: spec_fn(F) -> bool,
    within: spec_fn(S) -> bool,
    same: spec_fn(S, S) -> bool,
) -> bool {
    forall|a: S, b: S, f: F, r: S, t: S|
        within(a) && within(b) && is_fraction(f) && #[trigger] call_ensures(interpolate, (a, b, f), r)
            && #[trigger] call_ensures(interpolate, (map(a), map(b), f), t) ==> same(t, map(r))
}

/// Resampling goes along with a map on samples with which weighing goes along:
/// negated samples, for one, resample to the negated result.
pub proof fn lemma_mapped_samples_resample_alike<
    S,
    F,
    P: Fn(usize) -> (usize, F),
    L: Fn(S, S, F) -> S,
>(
    samples: Seq<S>,
    from_rate: u32,
    to_rate: u32,
    new_length: usize,
    position: P,
    interpolate: L,
    map: spec_fn(S) -> S,
    is_fraction: spec_fn(F) -> bool,
    within: spec_fn(S) -> bool,
    same: spec_fn(S, S) -> bool,
    resampled: Seq<S>,
    mapped: Seq<S>,
)
    requires
        functions::has_one_result(position),
        falls_on_fractions(position, new_length as nat, is_fraction),
        interpolates_alike(interpolate, map, is_fraction, within, same),
        forall|a: S| #[trigger] within(a) ==> same(map(a), map(a)),
        forall|i: int| 0 <= i < samples.len() ==> within(#[trigger] samples[i]),
        is_resampling(samples, from_rate, to_rate, new_length, position, interpolate, resampled),
        is_resampling(
            samples.map_values(map),
            from_rate,
            to_rate,
            new_length,
            position,
            interpolate,
            mapped,
        ),
    ensures
        mixing::all_same(mapped, resampled.map_values(map), same),
{
    let images = samples.map_values(map);
    if from_rate == to_rate {
        assert forall|i: int| 0 <= i < mapped.len() implies same(
            #[trigger] mapped[i],
            resampled.map_values(map)[i],
        ) by {
            assert(within(samples[i]));
        }
    } else {
        let parts = lemma_parts_of_resampling(
            samples,
            from_rate,
            to_rate,
            new_length,
            position,
            interpolate,
            resampled,
        );
        let mapped_parts = lemma_parts_of_resampling(
            images,
            from_rate,
            to_rate,
            new_length,
            position,
            interpolate,
            mapped,
        );
        let related = |t: S, r: S| same(t, map(r));
        assert forall|i: int| 0 <= i < parts.len() implies #[trigger] are_related(
            mapped_parts[i],
            parts[i],
            related,
        ) by {
            assert(is_resampled(samples, position, interpolate, i as usize, parts[i]));
            assert(is_resampled(images, position, interpolate, i as usize, mapped_parts[i]));
            let (index, fraction) = choose|index: usize, fraction: F| #[trigger]
                call_ensures(position, (i as usize,), (index, fraction));
            if index < samples.len() {
                assert(within(samples[index as int]));
                assert(images[index as int] == map(samples[index as int]));
                if index + 1 < samples.len() {
                    assert(within(samples[index + 1]));
                    assert(images[index + 1] == map(samples[index + 1]));
                }
            }
        }
        lemma_present_relates(mapped_parts, parts, related);
        assert forall|i: int| 0 <= i < mapped.len() implies same(
            #[trigger] mapped[i],
            resampled.map_values(map)[i],
        ) by {
            assert(related(present(mapped_parts)[i], present(parts)[i]));
        }
    }
}

/// Whether the first positions are those of twice the rate: each falls on half
/// its number, and the even ones on a sample.
pub open spec fn doubles<F, P: Fn(usize) -> (usize, F)>(
    position: P,
    length: nat,
    is_none: spec_fn(F) -> bool,
) -> bool {
    forall|i: usize, at: (usize, F)|
        i < length && #[trigger] call_ensures(position, (i,), at) ==> at.0 == i / 2 && (i % 2 == 0
            ==> is_none(at.1))
}

/// Whether the first positions are those of half the rate: each falls on the
/// sample with twice its number.
pub open spec fn halves<F, P: Fn(usize) -> (usize, F)>(
    position: P,
    length: nat,
    is_none: spec_fn(F) -> bool,
) -> bool {
    forall|i: usize, at: (usize, F)|
        i < length && #[trigger] call_ensures(position, (i,), at) ==> at.0 == 2 * i && is_none(
            at.1,
        )
}

/// Whether weighing keeps samples within bounds, and a fraction of nothing gives
/// the sample in front.
pub open spec fn weighs_within<S, F, L: Fn(S, S, F) -> S>(
    interpolate: L,
    is_fraction: spec_fn(F) -> bool,
    is_none: spec_fn(F) -> bool,
    within: spec_fn(S) -> bool,
    same: spec_fn(S, S) -> bool,
) -> bool {
    forall|a: S, b: S, f: F, r: S|
        within(a) && within(b) && is_fraction(f) && #[trigger] call_ensures(
            interpolate,
            (a, b, f),
            r,
        ) ==> within(r) && (is_none(f) ==> same(r, a))
}

/// Doubling the rate and halving it again loses nothing.
pub proof fn lemma_doubling_and_halving_loses_nothing<
    S,
    F,
    P: Fn(usize) -> (usize, F),
    Q: Fn(usize) -> (usize, F),
    L: Fn(S, S, F) -> S,
>(
    samples: Seq<S>,
    rate: u32,
    up: P,
    down: Q,
    interpolate: L,
    is_fraction: spec_fn(F) -> bool,
    is_none: spec_fn(F) -> bool,
    within: spec_fn(S) -> bool,
    same: spec_fn(S, S) -> bool,
    resampled: Seq<S>,
    back: Seq<S>,
)
    requires
        0 < rate,
        2 * rate <= u32::MAX,
        2 * samples.len() <= usize::MAX,
        doubles(up, 2 * samples.len(), is_none),
        halves(down, samples.len(), is_none),
        falls_on_fractions(up, 2 * samples.len(), is_fraction),
        falls_on_fractions(down, samples.len(), is_fraction),
        weighs_within(interpolate, is_fraction, is_none, within, same),
        forall|a: S| #[trigger] within(a) ==> same(a, a),
        forall|a: S, b: S, c: S| #[trigger] same(a, b) && #[trigger] same(b, c) ==> same(a, c),
        forall|i: int| 0 <= i < samples.len() ==> within(#[trigger] samples[i]),
        is_resampling(
            samples,
            rate,
            (2 * rate) as u32,
            (2 * samples.len()) as usize,
            up,
            interpolate,
            resampled,
        ),
        is_resampling(
            resampled,
            (2 * rate) as u32,
            rate,
            samples.len() as usize,
            down,
            interpolate,
            back,
        ),
    ensures
        resampled.len() == 2 * samples.len(),
        mixing::all_same(back, samples, same),
{
    let n = samples.len() as int;
    let parts = lemma_parts_of_resampling(
        samples,
        rate,
        (2 * rate) as u32,
        (2 * n) as usize,
        up,
        interpolate,
        resampled,
    );
    let back_parts = lemma_parts_of_resampling(
        resampled,
        (2 * rate) as u32,
        rate,
        n as usize,
        down,
        interpolate,
        back,
    );
    assert forall|i: int| 0 <= i < 2 * n implies {
        &&& (#[trigger] parts[i]) matches Some(part)
        &&& within(part)
        &&& i % 2 == 0 ==> same(part, samples[i / 2])
    } by {
        assert(is_resampled(samples, up, interpolate, i as usize, parts[i]));
        assert(within(samples[i / 2]));
        if i / 2 + 1 < n {
            assert(within(samples[i / 2 + 1]));
        }
    }
    lemma_present_is_front(parts);
    lemma_resampled_length(parts);
    assert forall|i: int| 0 <= i < 2 * n implies parts[i] == Some(#[trigger] resampled[i]) by {}
    assert forall|i: int| 0 <= i < n implies {
        &&& (#[trigger] back_parts[i]) matches Some(part)
        &&& same(part, samples[i])
    } by {
        assert(is_resampled(resampled, down, interpolate, i as usize, back_parts[i]));
        assert(parts[2 * i] == Some(resampled[2 * i]));
        assert(parts[2 * i + 1] == Some(resampled[2 * i + 1]));
        assert((2 * i) % 2 == 0 && (2 * i) / 2 == i);
        assert(within(resampled[2 * i]) && within(resampled[2 * i + 1]));
        assert(same(resampled[2 * i], samples[i]));
    }
    lemma_present_is_front(back_parts);
    lemma_resampled_length(back_parts);
    assert forall|i: int| 0 <= i < back.len() implies same(#[trigger] back[i], samples[i]) by {
        assert(back_parts[i] == Some(back[i]));
    }
}

/// What each position of the output gets, where the rates differ.
proof fn lemma_parts_of_resampling<S, F, P: Fn(usize) -> (usize, F), L: Fn(S, S, F) -> S>(
    samples: Seq<S>,
    from_rate: u32,
    to_rate: u32,
    new_length: usize,
    position: P,
    interpolate: L,
    resampled: Seq<S>,
) -> (parts: Seq<Option<S>>)
    requires
        from_rate != to_rate,
        is_resampling(samples, from_rate, to_rate, new_length, position, interpolate, resampled),
    ensures
        parts.len() == new_length,
        are_resampled(samples, position, interpolate, parts),
        resampled == present(parts),
{
    choose|parts: Seq<Option<S>>|
        {
            &&& parts.len() == new_length
            &&& #[trigger] are_resampled(samples, position, interpolate, parts)
            &&& resampled == present(parts)
        }
}

/// Whether two parts are both missing, or both there and related.
spec fn are_related<S>(one: Option<S>, other: Option<S>, related: spec_fn(S, S) -> bool) -> bool {
    match (one, other) {
        (Some(a), Some(b)) => related(a, b),
        (None, None) => true,
        _ => false,
    }
}

/// Where parts are related one for one, so are the samples that there are.
proof fn lemma_present_relates<S>(
    one: Seq<Option<S>>,
    other: Seq<Option<S>>,
    related: spec_fn(S, S) -> bool,
)
    requires
        one.len() == other.len(),
        forall|i: int| 0 <= i < one.len() ==> #[trigger] are_related(one[i], other[i], related),
    ensures
        present(one).len() == present(other).len(),
        forall|i: int|
            0 <= i < present(one).len() ==> #[trigger] related(present(one)[i], present(other)[i]),
    decreases one.len(),
{
    if one.len() == 0 {
        reveal_with_fuel(Seq::filter_map, 1);
    } else {
        let before = one.drop_last();
        let other_before = other.drop_last();
        assert forall|i: int| 0 <= i < before.len() implies #[trigger] are_related(
            before[i],
            other_before[i],
            related,
        ) by {
            assert(are_related(one[i], other[i], related));
        }
        lemma_present_relates(before, other_before, related);
        lemma_present_grows(before, one.last());
        lemma_present_grows(other_before, other.last());
        assert(before.push(one.last()) =~= one);
        assert(other_before.push(other.last()) =~= other);
        assert(are_related(one[one.len() - 1], other[one.len() - 1], related));
        assert forall|i: int| 0 <= i < present(one).len() implies #[trigger] related(
            present(one)[i],
            present(other)[i],
        ) by {
            if i < present(before).len() {
                assert(related(present(before)[i], present(other_before)[i]));
            }
        }
    }
}

/// How one more part adds to the samples that there are.
proof fn lemma_present_grows<S>(parts: Seq<Option<S>>, part: Option<S>)
    ensures
        present(parts.push(part)) == match part {
            Some(sample) => present(parts).push(sample),
            None => present(parts),
        },
{
    reveal_with_fuel(Seq::filter_map, 1);
    assert(parts.push(part).drop_last() =~= parts);
}

// What the operation is for.
/// What resampling does, at any ratio of rates. At the same rate the samples stay.
/// Else each position of the output that falls on the samples gives one sample, in
/// order: between two samples a result of weighing those two by the fraction, and
/// at the last sample that sample. Gives where each position falls, and the numbers
/// of the positions that fall on the samples.
pub proof fn lemma_what_resampling_does<S, F, P: Fn(usize) -> (usize, F), L: Fn(S, S, F) -> S>(
    samples: Seq<S>,
    from_rate: u32,
    to_rate: u32,
    new_length: usize,
    position: P,
    interpolate: L,
    resampled: Seq<S>,
) -> (fallen: (Seq<(usize, F)>, Seq<int>))
    requires
        is_resampling(samples, from_rate, to_rate, new_length, position, interpolate, resampled),
    ensures
        from_rate == to_rate ==> resampled == samples,
        from_rate != to_rate ==> fallen.0.len() == new_length,
        from_rate != to_rate ==> forall|i: usize|
            i < new_length ==> call_ensures(position, (i,), #[trigger] fallen.0[i as int]),
        from_rate != to_rate ==> forall|k: int|
            0 <= k < fallen.1.len() ==> 0 <= #[trigger] fallen.1[k] < new_length,
        from_rate != to_rate ==> forall|k: int, l: int|
            0 <= k < l < fallen.1.len() ==> fallen.1[k] < fallen.1[l],
        from_rate != to_rate ==> forall|i: int|
            0 <= i < new_length ==> (#[trigger] fallen.1.contains(i) <==> fallen.0[i].0
                < samples.len()),
        from_rate != to_rate ==> resampled.len() == fallen.1.len(),
        from_rate != to_rate ==> forall|k: int|
            0 <= k < fallen.1.len() ==> {
                let (index, fraction) = fallen.0[#[trigger] fallen.1[k]];
                &&& index + 1 < samples.len() ==> call_ensures(
                    interpolate,
                    (samples[index as int], samples[index + 1], fraction),
                    resampled[k],
                )
                &&& index + 1 == samples.len() ==> resampled[k] == samples[index as int]
            },
{
    if from_rate == to_rate {
        (Seq::empty(), Seq::empty())
    } else {
        let parts = lemma_parts_of_resampling(
            samples,
            from_rate,
            to_rate,
            new_length,
            position,
            interpolate,
            resampled,
        );
        lemma_where_parts_fall(samples, position, interpolate, parts)
    }
}

/// Where parts fall, and which of them fall on the samples.
proof fn lemma_where_parts_fall<S, F, P: Fn(usize) -> (usize, F), L: Fn(S, S, F) -> S>(
    samples: Seq<S>,
    position: P,
    interpolate: L,
    parts: Seq<Option<S>>,
) -> (fallen: (Seq<(usize, F)>, Seq<int>))
    requires
        parts.len() <= usize::MAX,
        are_resampled(samples, position, interpolate, parts),
    ensures
        fallen.0.len() == parts.len(),
        forall|i: usize|
            i < parts.len() ==> call_ensures(position, (i,), #[trigger] fallen.0[i as int]),
        forall|k: int| 0 <= k < fallen.1.len() ==> 0 <= #[trigger] fallen.1[k] < parts.len(),
        forall|k: int, l: int| 0 <= k < l < fallen.1.len() ==> fallen.1[k] < fallen.1[l],
        forall|i: int|
            0 <= i < parts.len() ==> (#[trigger] fallen.1.contains(i) <==> fallen.0[i].0
                < samples.len()),
        present(parts).len() == fallen.1.len(),
        forall|k: int|
            0 <= k < fallen.1.len() ==> {
                let (index, fraction) = fallen.0[#[trigger] fallen.1[k]];
                &&& index + 1 < samples.len() ==> call_ensures(
                    interpolate,
                    (samples[index as int], samples[index + 1], fraction),
                    present(parts)[k],
                )
                &&& index + 1 == samples.len() ==> present(parts)[k] == samples[index as int]
            },
    decreases parts.len(),
{
    if parts.len() == 0 {
        reveal_with_fuel(Seq::filter_map, 1);
        (Seq::empty(), Seq::empty())
    } else {
        let before = parts.drop_last();
        let last = parts.len() - 1;
        assert forall|i: int| 0 <= i < before.len() implies is_resampled(
            samples,
            position,
            interpolate,
            i as usize,
            #[trigger] before[i],
        ) by {
            assert(before[i] == parts[i]);
        }
        let (falls, origins) = lemma_where_parts_fall(samples, position, interpolate, before);
        lemma_present_grows(before, parts.last());
        assert(before.push(parts.last()) =~= parts);
        assert(is_resampled(samples, position, interpolate, last as usize, parts[last]));
        let (index, fraction) = lemma_where_a_part_falls(
            samples,
            position,
            interpolate,
            last as usize,
            parts[last],
        );
        let all_falls = falls.push((index, fraction));
        let all_origins = if index < samples.len() {
            origins.push(last)
        } else {
            origins
        };
        assert forall|i: usize| i < parts.len() implies call_ensures(
            position,
            (i,),
            #[trigger] all_falls[i as int],
        ) by {
            if i < last {
                assert(all_falls[i as int] == falls[i as int]);
            }
        }
        assert forall|i: int| 0 <= i < parts.len() implies (#[trigger] all_origins.contains(i)
            <==> all_falls[i].0 < samples.len()) by {
            if i < last {
                if origins.contains(i) {
                    let k = choose|k: int| 0 <= k < origins.len() && origins[k] == i;
                    assert(all_origins[k] == i);
                }
                if all_origins.contains(i) {
                    let k = choose|k: int| 0 <= k < all_origins.len() && all_origins[k] == i;
                    assert(origins[k] == i);
                }
                assert(all_falls[i] == falls[i]);
            } else if all_origins.len() > origins.len() {
                assert(all_origins[all_origins.len() - 1] == last);
            }
        }
        assert forall|k: int| 0 <= k < all_origins.len() implies {
            let (index, fraction) = all_falls[#[trigger] all_origins[k]];
            &&& index + 1 < samples.len() ==> call_ensures(
                interpolate,
                (samples[index as int], samples[index + 1], fraction),
                present(parts)[k],
            )
            &&& index + 1 == samples.len() ==> present(parts)[k] == samples[index as int]
        } by {
            if k < origins.len() {
                assert(all_origins[k] == origins[k]);
                assert(all_falls[origins[k]] == falls[origins[k]]);
            }
        }
        (all_falls, all_origins)
    }
}

/// Where a part falls, and what it then is.
proof fn lemma_where_a_part_falls<S, F, P: Fn(usize) -> (usize, F), L: Fn(S, S, F) -> S>(
    samples: Seq<S>,
    position: P,
    interpolate: L,
    i: usize,
    part: Option<S>,
) -> (at: (usize, F))
    requires
        is_resampled(samples, position, interpolate, i, part),
    ensures
        call_ensures(position, (i,), at),
        at.0 < samples.len() <==> part is Some,
        at.0 + 1 < samples.len() ==> call_ensures(
            interpolate,
            (samples[at.0 as int], samples[at.0 + 1], at.1),
            part->0,
        ),
        at.0 + 1 == samples.len() ==> part == Some(samples[at.0 as int]),
{
    let (index, fraction) = choose|index: usize, fraction: F| #[trigger]
        call_ensures(position, (i,), (index, fraction)) && if index + 1 < samples.len() {
            part matches Some(sample) && call_ensures(
                interpolate,
                (samples[index as int], samples[index + 1], fraction),
                sample,
            )
        } else if index < samples.len() {
            part == Some(samples[index as int])
        } else {
            part is None
        };
    (index, fraction)
}

/// Changing samples changes no output between two samples that stay, whatever the
/// positions are: where every position falls on the samples, two lists that agree
/// in the two neighbours of an output agree in that output.
pub proof fn lemma_other_samples_do_not_matter<
    S,
    F,
    P: Fn(usize) -> (usize, F),
    L: Fn(S, S, F) -> S,
>(
    samples: Seq<S>,
    changed: Seq<S>,
    from_rate: u32,
    to_rate: u32,
    new_length: usize,
    position: P,
    interpolate: L,
    resampled: Seq<S>,
    other: Seq<S>,
    i: usize,
    index: usize,
    fraction: F,
)
    requires
        from_rate != to_rate,
        functions::has_one_result(position),
        functions::has_one_result_of_three(interpolate),
        changed.len() == samples.len(),
        forall|j: usize, at: (usize, F)|
            j < new_length && #[trigger] call_ensures(position, (j,), at) ==> at.0 < samples.len(),
        is_resampling(samples, from_rate, to_rate, new_length, position, interpolate, resampled),
        is_resampling(changed, from_rate, to_rate, new_length, position, interpolate, other),
        i < new_length,
        call_ensures(position, (i,), (index, fraction)),
        index + 1 < samples.len(),
        changed[index as int] == samples[index as int],
        changed[index + 1] == samples[index + 1],
    ensures
        resampled.len() == new_length,
        other.len() == new_length,
        call_ensures(
            interpolate,
            (samples[index as int], samples[index + 1], fraction),
            resampled[i as int],
        ),
        other[i as int] == resampled[i as int],
{
    lemma_each_position_gives_its_sample(
        samples,
        from_rate,
        to_rate,
        new_length,
        position,
        interpolate,
        resampled,
    );
    lemma_each_position_gives_its_sample(
        changed,
        from_rate,
        to_rate,
        new_length,
        position,
        interpolate,
        other,
    );
}

/// Where weighing by a fraction gives back the sample in front, an output at that
/// fraction is the sample in front of it, wherever it falls.
pub proof fn lemma_output_on_a_sample_is_that_sample<
    S,
    F,
    P: Fn(usize) -> (usize, F),
    L: Fn(S, S, F) -> S,
>(
    samples: Seq<S>,
    from_rate: u32,
    to_rate: u32,
    new_length: usize,
    position: P,
    interpolate: L,
    resampled: Seq<S>,
    i: usize,
    index: usize,
    fraction: F,
)
    requires
        from_rate != to_rate,
        functions::has_one_result(position),
        forall|j: usize, at: (usize, F)|
            j < new_length && #[trigger] call_ensures(position, (j,), at) ==> at.0 < samples.len(),
        forall|a: S, b: S, r: S| #[trigger]
            call_ensures(interpolate, (a, b, fraction), r) ==> r == a,
        is_resampling(samples, from_rate, to_rate, new_length, position, interpolate, resampled),
        i < new_length,
        call_ensures(position, (i,), (index, fraction)),
    ensures
        resampled.len() == new_length,
        resampled[i as int] == samples[index as int],
{
    lemma_each_position_gives_its_sample(
        samples,
        from_rate,
        to_rate,
        new_length,
        position,
        interpolate,
        resampled,
    );
}

/// Where every position falls on the samples, each gives the sample at its place.
pub proof fn lemma_each_position_gives_its_sample<
    S,
    F,
    P: Fn(usize) -> (usize, F),
    L: Fn(S, S, F) -> S,
>(
    samples: Seq<S>,
    from_rate: u32,
    to_rate: u32,
    new_length: usize,
    position: P,
    interpolate: L,
    resampled: Seq<S>,
)
    requires
        from_rate != to_rate,
        functions::has_one_result(position),
        forall|j: usize, at: (usize, F)|
            j < new_length && #[trigger] call_ensures(position, (j,), at) ==> at.0 < samples.len(),
        is_resampling(samples, from_rate, to_rate, new_length, position, interpolate, resampled),
    ensures
        resampled.len() == new_length,
        forall|i: usize, index: usize, fraction: F|
            i < new_length && #[trigger] call_ensures(position, (i,), (index, fraction)) ==> {
                &&& index + 1 < samples.len() ==> call_ensures(
                    interpolate,
                    (samples[index as int], samples[index + 1], fraction),
                    resampled[i as int],
                )
                &&& index + 1 == samples.len() ==> resampled[i as int] == samples[index as int]
            },
{
    let parts = lemma_parts_of_resampling(
        samples,
        from_rate,
        to_rate,
        new_length,
        position,
        interpolate,
        resampled,
    );
    assert forall|i: int| 0 <= i < parts.len() implies (#[trigger] parts[i]) is Some by {
        let at = lemma_where_a_part_falls(samples, position, interpolate, i as usize, parts[i]);
    }
    lemma_resampled_length(parts);
    lemma_present_is_front(parts);
    assert forall|i: usize, index: usize, fraction: F|
        i < new_length && #[trigger] call_ensures(position, (i,), (index, fraction)) implies {
        &&& index + 1 < samples.len() ==> call_ensures(
            interpolate,
            (samples[index as int], samples[index + 1], fraction),
            resampled[i as int],
        )
        &&& index + 1 == samples.len() ==> resampled[i as int] == samples[index as int]
    } by {
        assert(parts[i as int] == Some(resampled[i as int]));
        let at = lemma_where_a_part_falls(samples, position, interpolate, i, parts[i as int]);
        assert(call_ensures(position, (i,), at));
        assert(at == (index, fraction));
    }
}

} // verus!
