//! The statistics that stand for the samples of a histogram.
//!
//! Samples are the bits of doubles. Their order statistics are computed outside of this module and
//! come as text; which samples enter them, and which rows are written, is decided here.
use vstd::prelude::*;

use crate::text::{decimal, decimal_text};

verus! {

/// The bits of positive infinity. Larger magnitudes are those of values that are no numbers.
pub const INFINITY_BITS: u64 = 0x7ff0_0000_0000_0000;

/// The sign bit of a double.
pub const SIGN_BIT: u64 = 0x8000_0000_0000_0000;

/// The bits of a double without its sign.
pub open spec fn magnitude(bits: u64) -> int {
    if bits >= SIGN_BIT {
        bits - SIGN_BIT
    } else {
        bits as int
    }
}

/// Whether a double with these bits is finite.
pub open spec fn is_finite(bits: u64) -> bool {
    magnitude(bits) < INFINITY_BITS
}

/// Whether a double with these bits is no number.
pub open spec fn is_nan(bits: u64) -> bool {
    magnitude(bits) > INFINITY_BITS
}

/// Whether a double with these bits is negative infinity.
pub open spec fn is_negative_infinity(bits: u64) -> bool {
    magnitude(bits) == INFINITY_BITS && bits >= SIGN_BIT
}

/// Whether a double with these bits is positive infinity.
pub open spec fn is_positive_infinity(bits: u64) -> bool {
    bits == INFINITY_BITS
}

/// The finite samples, in order.
pub open spec fn finite_samples(samples: Seq<u64>) -> Seq<u64> {
    samples.filter(|bits: u64| is_finite(bits))
}

/// How many samples there are of the kind that `class` decides.
pub open spec fn count_of(samples: Seq<u64>, class: spec_fn(u64) -> bool) -> nat {
    samples.filter(class).len()
}

/// Samples by what can be done with them.
pub struct SampleGroups {
    /// The finite samples, in order.
    pub finite: Vec<u64>,
    /// How many are negative infinity.
    pub negative_infinite: u64,
    /// How many are positive infinity.
    pub positive_infinite: u64,
    /// How many are no numbers.
    pub nan: u64,
}

impl SampleGroups {
    /// Whether these are the groups of `samples`.
    pub open spec fn partition(self, samples: Seq<u64>) -> bool {
        &&& self.finite@ == finite_samples(samples)
        &&& self.negative_infinite == count_of(samples, |bits: u64| is_negative_infinity(bits))
        &&& self.positive_infinite == count_of(samples, |bits: u64| is_positive_infinity(bits))
        &&& self.nan == count_of(samples, |bits: u64| is_nan(bits))
    }
}

/// Parts `samples` into those that are finite and the counts of the others.
pub fn group_samples(samples: &Vec<u64>) -> (groups: SampleGroups)
    ensures
        groups.partition(samples@),
{
    let mut groups = SampleGroups {
        finite: Vec::new(),
        negative_infinite: 0,
        positive_infinite: 0,
        nan: 0,
    };
    let mut i: usize = 0;
    proof {
        reveal(Seq::filter);
        assert(samples@.take(0) =~= Seq::<u64>::empty());
    }
    while i < samples.len()
        invariant
            i <= samples@.len(),
            groups.partition(samples@.take(i as int)),
            groups.negative_infinite <= i,
            groups.positive_infinite <= i,
            groups.nan <= i,
        decreases samples.len() - i,
    {
        let bits: u64 = samples[i];
        let size: u64 = if bits >= SIGN_BIT { bits - SIGN_BIT } else { bits };
        proof {
            let earlier = samples@.take(i as int);
            assert(samples@.take(i + 1) =~= earlier.push(bits));
            filter_push(earlier, bits, |b: u64| is_finite(b));
            filter_push(earlier, bits, |b: u64| is_nan(b));
            filter_push(earlier, bits, |b: u64| is_negative_infinity(b));
            filter_push(earlier, bits, |b: u64| is_positive_infinity(b));
        }
        if size < INFINITY_BITS {
            groups.finite.push(bits);
        } else if size > INFINITY_BITS {
            groups.nan = groups.nan + 1;
        } else if bits >= SIGN_BIT {
            groups.negative_infinite = groups.negative_infinite + 1;
        } else {
            groups.positive_infinite = groups.positive_infinite + 1;
        }
        i = i + 1;
    }
    assert(samples@.take(samples@.len() as int) =~= samples@);
    groups
}

proof fn filter_push(samples: Seq<u64>, bits: u64, class: spec_fn(u64) -> bool)
    ensures
        samples.push(bits).filter(class) == (if class(bits) {
            samples.filter(class).push(bits)
        } else {
            samples.filter(class)
        }),
{
    reveal(Seq::filter);
    assert(samples.push(bits).drop_last() =~= samples);
}

/// Every sample is in exactly one group, so none is lost and none counted twice.
pub proof fn groups_count_every_sample(samples: Seq<u64>, groups: SampleGroups)
    requires
        groups.partition(samples),
    ensures
        groups.finite@.len() + groups.negative_infinite + groups.positive_infinite + groups.nan
            == samples.len(),
{
    counts_add_up(samples);
}

proof fn counts_add_up(samples: Seq<u64>)
    ensures
        finite_samples(samples).len() + count_of(samples, |bits: u64| is_negative_infinity(bits))
            + count_of(samples, |bits: u64| is_positive_infinity(bits)) + count_of(
            samples,
            |bits: u64| is_nan(bits),
        ) == samples.len(),
    decreases samples.len(),
{
    reveal(Seq::filter);
    if samples.len() > 0 {
        counts_add_up(samples.drop_last());
    }
}

/// The order statistics of finite samples, as they are written.
pub struct Spread {
    pub min: String,
    /// The quantiles, in the order of `quantile_label`; `None` where there is no estimate.
    pub quantiles: Vec<Option<String>>,
    pub max: String,
}

/// One statistic of a histogram, as it is written.
pub struct Stat {
    pub name: &'static str,
    pub value: String,
}

impl View for Stat {
    type V = (Seq<char>, Seq<char>);

    open spec fn view(&self) -> (Seq<char>, Seq<char>) {
        (self.name@, self.value@)
    }
}

/// What a list of statistics says.
pub open spec fn stat_views(stats: Seq<Stat>) -> Seq<(Seq<char>, Seq<char>)> {
    stats.map_values(|stat: Stat| stat@)
}

/// The number of quantiles that are written.
pub const QUANTILE_COUNT: usize = 5;

/// The name under which the quantile at `index` is written.
pub open spec fn quantile_label_spec(index: int) -> Seq<char> {
    if index == 0 {
        "q50"@
    } else if index == 1 {
        "q90"@
    } else if index == 2 {
        "q95"@
    } else if index == 3 {
        "q99"@
    } else {
        "q999"@
    }
}

/// The name under which the quantile at `index` is written.
pub fn quantile_label(index: usize) -> (label: &'static str)
    requires
        index < QUANTILE_COUNT,
    ensures
        label@ == quantile_label_spec(index as int),
{
    if index == 0 {
        "q50"
    } else if index == 1 {
        "q90"
    } else if index == 2 {
        "q95"
    } else if index == 3 {
        "q99"
    } else {
        "q999"
    }
}

/// The rows of the first `n` quantiles: one for each that has an estimate.
pub open spec fn quantile_stats(quantiles: Seq<Option<String>>, n: int) -> Seq<
    (Seq<char>, Seq<char>),
>
    decreases n,
{
    if n <= 0 {
        Seq::empty()
    } else {
        let earlier = quantile_stats(quantiles, n - 1);
        if n - 1 < quantiles.len() {
            match quantiles[n - 1] {
                Some(value) => earlier.push((quantile_label_spec(n - 1), value@)),
                None => earlier,
            }
        } else {
            earlier
        }
    }
}

/// The row of a count that is written only where there is something to count.
pub open spec fn count_stat(name: Seq<char>, count: nat) -> Seq<(Seq<char>, Seq<char>)> {
    if count > 0 {
        seq![(name, decimal(count))]
    } else {
        Seq::empty()
    }
}

/// The rows of the order statistics, where there are finite samples to have any.
pub open spec fn spread_stats(spread: Option<Spread>) -> Seq<(Seq<char>, Seq<char>)> {
    match spread {
        Some(spread) => seq![("min"@, spread.min@)] + quantile_stats(
            spread.quantiles@,
            QUANTILE_COUNT as int,
        ) + seq![("max"@, spread.max@)],
        None => Seq::empty(),
    }
}

/// All rows of a histogram whose samples fall into these groups: `count` always, then the order
/// statistics, then a count of each kind of samples that are not finite, if it occurs.
pub open spec fn group_rows(groups: SampleGroups, spread: Option<Spread>) -> Seq<
    (Seq<char>, Seq<char>),
> {
    seq![("count"@, decimal(groups.finite@.len()))] + spread_stats(spread) + count_stat(
        "-inf"@,
        groups.negative_infinite as nat,
    ) + count_stat("inf"@, groups.positive_infinite as nat) + count_stat(
        "nan"@,
        groups.nan as nat,
    )
}

/// Appends the row of a count if there is something to count.
fn push_count(stats: &mut Vec<Stat>, name: &'static str, count: u64)
    ensures
        stat_views(final(stats)@) == stat_views(old(stats)@) + count_stat(name@, count as nat),
{
    let ghost before = stats@;
    if count > 0 {
        stats.push(Stat { name, value: decimal_text(count) });
    }
    assert(stat_views(stats@) =~= stat_views(before) + count_stat(name@, count as nat));
}

/// Appends the rows of the order statistics.
fn push_spread(stats: &mut Vec<Stat>, spread: &Spread)
    ensures
        stat_views(final(stats)@) == stat_views(old(stats)@) + spread_stats(Some(*spread)),
{
    let ghost before = stat_views(stats@);
    stats.push(Stat { name: "min", value: spread.min.clone() });
    let ghost start = before.push(("min"@, spread.min@));
    assert(stat_views(stats@) =~= start);
    let mut i: usize = 0;
    while i < QUANTILE_COUNT
        invariant
            i <= QUANTILE_COUNT,
            stat_views(stats@) == start + quantile_stats(spread.quantiles@, i as int),
        decreases QUANTILE_COUNT - i,
    {
        let ghost earlier = stats@;
        if i < spread.quantiles.len() {
            if let Some(value) = &spread.quantiles[i] {
                stats.push(Stat { name: quantile_label(i), value: value.clone() });
                assert(stat_views(stats@) =~= stat_views(earlier).push(
                    (quantile_label_spec(i as int), value@),
                ));
            }
        }
        i = i + 1;
        assert(stat_views(stats@) =~= start + quantile_stats(spread.quantiles@, i as int));
    }
    let ghost earlier = stats@;
    stats.push(Stat { name: "max", value: spread.max.clone() });
    assert(stat_views(stats@) =~= stat_views(earlier).push(("max"@, spread.max@)));
    assert(stat_views(stats@) =~= before + spread_stats(Some(*spread)));
}

/// Lists the statistics of a histogram whose samples fall into these groups.
pub fn group_stats(groups: &SampleGroups, spread: &Option<Spread>) -> (stats: Vec<Stat>)
    ensures
        stat_views(stats@) == group_rows(*groups, *spread),
{
    let mut stats: Vec<Stat> = Vec::new();
    let count: u64 = groups.finite.len() as u64;
    stats.push(Stat { name: "count", value: decimal_text(count) });
    assert(stat_views(stats@) =~= seq![("count"@, decimal(groups.finite@.len()))]);
    if let Some(spread) = spread {
        push_spread(&mut stats, spread);
    }
    assert(stat_views(stats@) =~= seq![("count"@, decimal(groups.finite@.len()))] + spread_stats(
        *spread,
    ));
    push_count(&mut stats, "-inf", groups.negative_infinite);
    push_count(&mut stats, "inf", groups.positive_infinite);
    push_count(&mut stats, "nan", groups.nan);
    stats
}

/// Whether `spread` is what `summarize` may answer for `samples`. It is asked about the finite
/// samples, and only where there are any.
pub open spec fn is_spread_of<S: Fn(Vec<u64>) -> Spread>(
    samples: Seq<u64>,
    summarize: S,
    spread: Option<Spread>,
) -> bool {
    match spread {
        Some(answer) => finite_samples(samples).len() > 0 && exists|finite: Vec<u64>|
            finite@ == finite_samples(samples) && #[trigger] call_ensures(
                summarize,
                (finite,),
                answer,
            ),
        None => finite_samples(samples).len() == 0,
    }
}

/// Whether `stats` are the statistics of a histogram with these samples.
pub open spec fn are_stats_of<S: Fn(Vec<u64>) -> Spread>(
    samples: Seq<u64>,
    summarize: S,
    stats: Seq<(Seq<char>, Seq<char>)>,
) -> bool {
    exists|groups: SampleGroups, spread: Option<Spread>|
        groups.partition(samples) && is_spread_of(samples, summarize, spread) && stats
            == #[trigger] group_rows(groups, spread)
}

/// Lists the statistics of a histogram with these samples. `summarize` computes the order
/// statistics of finite samples.
pub fn histogram_stats<S: Fn(Vec<u64>) -> Spread>(samples: &Vec<u64>, summarize: &S) -> (stats: Vec<
    Stat,
>)
    requires
        forall|finite: Vec<u64>|
            finite@.len() > 0 ==> #[trigger] call_requires(*summarize, (finite,)),
    ensures
        are_stats_of(samples@, *summarize, stat_views(stats@)),
{
    let groups = group_samples(samples);
    let spread = if groups.finite.len() > 0 {
        let finite = copy_samples(&groups.finite);
        Some(summarize(finite))
    } else {
        None
    };
    let stats = group_stats(&groups, &spread);
    assert(is_spread_of(samples@, *summarize, spread));
    assert(stat_views(stats@) == group_rows(groups, spread));
    stats
}

/// Copies samples.
fn copy_samples(samples: &Vec<u64>) -> (copy: Vec<u64>)
    ensures
        copy@ == samples@,
{
    let mut copy: Vec<u64> = Vec::new();
    let mut i: usize = 0;
    while i < samples.len()
        invariant
            i <= samples@.len(),
            copy@ == samples@.take(i as int),
        decreases samples.len() - i,
    {
        copy.push(samples[i]);
        i = i + 1;
        assert(copy@ =~= samples@.take(i as int));
    }
    assert(copy@ =~= samples@);
    copy
}

/// The number of finite samples is always among the statistics, and it comes first, also where
/// there are no samples.
pub proof fn count_is_always_present<S: Fn(Vec<u64>) -> Spread>(
    samples: Seq<u64>,
    summarize: S,
    stats: Seq<(Seq<char>, Seq<char>)>,
)
    requires
        are_stats_of(samples, summarize, stats),
    ensures
        stats.len() > 0,
        stats[0] == ("count"@, decimal(finite_samples(samples).len())),
        samples.len() == 0 ==> stats.len() == 1,
{
    let (groups, spread) = choose|groups: SampleGroups, spread: Option<Spread>|
        groups.partition(samples) && is_spread_of(samples, summarize, spread) && stats
            == #[trigger] group_rows(groups, spread);
    assert(group_rows(groups, spread)[0] == ("count"@, decimal(groups.finite@.len())));
    counts_add_up(samples);
}

/// Whether a text, and no other, stands under a name.
pub open spec fn says(
    stats: Seq<(Seq<char>, Seq<char>)>,
    name: Seq<char>,
    text: Seq<char>,
) -> bool {
    &&& stats.contains((name, text))
    &&& forall|i: int|
        0 <= i < stats.len() && (#[trigger] stats[i]).0 == name ==> stats[i].1 == text
}

/// Whether nothing stands under a name.
pub open spec fn is_silent_on(stats: Seq<(Seq<char>, Seq<char>)>, name: Seq<char>) -> bool {
    forall|i: int| 0 <= i < stats.len() ==> (#[trigger] stats[i]).0 != name
}

/// Whether the estimate at that place among the quantiles stands under a name, or nothing does where
/// there is no estimate.
pub open spec fn says_quantile(
    stats: Seq<(Seq<char>, Seq<char>)>,
    name: Seq<char>,
    quantiles: Seq<Option<String>>,
    place: int,
) -> bool {
    if place < quantiles.len() && quantiles[place] is Some {
        says(stats, name, quantiles[place]->0@)
    } else {
        is_silent_on(stats, name)
    }
}

/// Whether each order statistic stands under its own name.
pub open spec fn says_spread(stats: Seq<(Seq<char>, Seq<char>)>, spread: Spread) -> bool {
    &&& says(stats, "min"@, spread.min@)
    &&& says_quantile(stats, "q50"@, spread.quantiles@, 0)
    &&& says_quantile(stats, "q90"@, spread.quantiles@, 1)
    &&& says_quantile(stats, "q95"@, spread.quantiles@, 2)
    &&& says_quantile(stats, "q99"@, spread.quantiles@, 3)
    &&& says_quantile(stats, "q999"@, spread.quantiles@, 4)
    &&& says(stats, "max"@, spread.max@)
}

/// Whether no order statistic is there.
pub open spec fn is_silent_on_spread(stats: Seq<(Seq<char>, Seq<char>)>) -> bool {
    &&& is_silent_on(stats, "min"@) && is_silent_on(stats, "max"@)
    &&& is_silent_on(stats, "q50"@) && is_silent_on(stats, "q90"@) && is_silent_on(stats, "q95"@)
    &&& is_silent_on(stats, "q99"@) && is_silent_on(stats, "q999"@)
}

/// Whether a number stands under a name, or nothing does where the number is zero.
pub open spec fn says_count(
    stats: Seq<(Seq<char>, Seq<char>)>,
    name: Seq<char>,
    count: nat,
) -> bool {
    if count > 0 {
        says(stats, name, decimal(count))
    } else {
        is_silent_on(stats, name)
    }
}

/// The names of all statistics.
spec fn stat_name(rank: int) -> Seq<char> {
    if rank == 0 {
        "count"@
    } else if rank == 1 {
        "min"@
    } else if rank == 2 {
        "q50"@
    } else if rank == 3 {
        "q90"@
    } else if rank == 4 {
        "q95"@
    } else if rank == 5 {
        "q99"@
    } else if rank == 6 {
        "q999"@
    } else if rank == 7 {
        "max"@
    } else if rank == 8 {
        "-inf"@
    } else if rank == 9 {
        "inf"@
    } else {
        "nan"@
    }
}

/// No two statistics share a name.
proof fn stat_names_differ(a: int, b: int)
    requires
        0 <= a <= 10,
        0 <= b <= 10,
        stat_name(a) == stat_name(b),
    ensures
        a == b,
{
    reveal_strlit("count");
    reveal_strlit("min");
    reveal_strlit("q50");
    reveal_strlit("q90");
    reveal_strlit("q95");
    reveal_strlit("q99");
    reveal_strlit("q999");
    reveal_strlit("max");
    reveal_strlit("-inf");
    reveal_strlit("inf");
    reveal_strlit("nan");
    let x = stat_name(a);
    let y = stat_name(b);
    assert(x.len() == y.len() && x[0] == y[0] && x[1] == y[1] && x[2] == y[2]);
}

/// The text that is to stand under each name.
spec fn stat_text(groups: SampleGroups, spread: Option<Spread>, rank: int) -> Option<Seq<char>> {
    if rank == 0 {
        Some(decimal(groups.finite@.len()))
    } else if rank == 8 || rank == 9 || rank == 10 {
        let count = if rank == 8 {
            groups.negative_infinite
        } else if rank == 9 {
            groups.positive_infinite
        } else {
            groups.nan
        };
        if count > 0 {
            Some(decimal(count as nat))
        } else {
            None
        }
    } else {
        match spread {
            None => None,
            Some(spread) => if rank == 1 {
                Some(spread.min@)
            } else if rank == 7 {
                Some(spread.max@)
            } else if rank - 2 < spread.quantiles@.len() && spread.quantiles@[rank - 2] is Some {
                Some(spread.quantiles@[rank - 2]->0@)
            } else {
                None
            },
        }
    }
}

/// The statistics of the first `n` names.
spec fn ranked_stats(groups: SampleGroups, spread: Option<Spread>, n: int) -> Seq<
    (Seq<char>, Seq<char>),
>
    decreases n,
{
    if n <= 0 {
        Seq::empty()
    } else {
        let earlier = ranked_stats(groups, spread, n - 1);
        match stat_text(groups, spread, n - 1) {
            Some(text) => earlier.push((stat_name(n - 1), text)),
            None => earlier,
        }
    }
}

/// Each text stands under its own name, and nothing else stands anywhere.
proof fn ranked_stats_say_their_texts(groups: SampleGroups, spread: Option<Spread>, n: int)
    requires
        0 <= n <= 11,
    ensures
        forall|rank: int|
            0 <= rank < n ==> match #[trigger] stat_text(groups, spread, rank) {
                Some(text) => says(ranked_stats(groups, spread, n), stat_name(rank), text),
                None => is_silent_on(ranked_stats(groups, spread, n), stat_name(rank)),
            },
        forall|rank: int|
            n <= rank <= 10 ==> is_silent_on(
                ranked_stats(groups, spread, n),
                #[trigger] stat_name(rank),
            ),
        forall|i: int|
            0 <= i < ranked_stats(groups, spread, n).len() ==> exists|rank: int|
                0 <= rank < n && (#[trigger] ranked_stats(groups, spread, n)[i]).0
                    == #[trigger] stat_name(rank),
    decreases n,
{
    if n > 0 {
        ranked_stats_say_their_texts(groups, spread, n - 1);
        let earlier = ranked_stats(groups, spread, n - 1);
        let stats = ranked_stats(groups, spread, n);
        let name = stat_name(n - 1);
        assert(is_silent_on(earlier, name));
        if stat_text(groups, spread, n - 1) is Some {
            let last = (name, stat_text(groups, spread, n - 1)->0);
            assert(stats == earlier.push(last));
            assert(stats[stats.len() - 1] == last);
            assert forall|i: int| 0 <= i < earlier.len() implies stats[i] == earlier[i] by {}
        }
        assert forall|rank: int| 0 <= rank < n implies match #[trigger] stat_text(
            groups,
            spread,
            rank,
        ) {
            Some(text) => says(stats, stat_name(rank), text),
            None => is_silent_on(stats, stat_name(rank)),
        } by {
            if rank < n - 1 {
                if stat_name(rank) == name {
                    stat_names_differ(rank, n - 1);
                }
                if stat_text(groups, spread, rank) is Some {
                    let entry = (stat_name(rank), stat_text(groups, spread, rank)->0);
                    let i = choose|i: int| 0 <= i < earlier.len() && earlier[i] == entry;
                    assert(stats[i] == entry);
                }
            }
        }
        assert forall|rank: int| n <= rank <= 10 implies is_silent_on(
            stats,
            #[trigger] stat_name(rank),
        ) by {
            if stat_name(rank) == name {
                stat_names_differ(rank, n - 1);
            }
        }
        assert forall|i: int| 0 <= i < stats.len() implies exists|rank: int|
            0 <= rank < n && (#[trigger] stats[i]).0 == #[trigger] stat_name(rank) by {
            if i < earlier.len() {
                assert(stats[i] == earlier[i]);
                let rank = choose|rank: int|
                    0 <= rank < n - 1 && earlier[i].0 == #[trigger] stat_name(rank);
                assert(0 <= rank < n && stats[i].0 == stat_name(rank));
            } else {
                assert(stats[i].0 == stat_name(n - 1));
            }
        }
    }
}

proof fn quantiles_are_ranked(groups: SampleGroups, spread: Spread, k: int)
    requires
        0 <= k <= QUANTILE_COUNT,
    ensures
        ranked_stats(groups, Some(spread), k + 2) == ranked_stats(groups, Some(spread), 2)
            + quantile_stats(spread.quantiles@, k),
    decreases k,
{
    if k > 0 {
        quantiles_are_ranked(groups, spread, k - 1);
        assert(quantile_label_spec(k - 1) == stat_name(k + 1));
    }
    assert(ranked_stats(groups, Some(spread), k + 2) =~= ranked_stats(groups, Some(spread), 2)
        + quantile_stats(spread.quantiles@, k));
}

proof fn groups_are_ranked(groups: SampleGroups, spread: Option<Spread>)
    ensures
        group_rows(groups, spread) == ranked_stats(groups, spread, 11),
{
    reveal_with_fuel(ranked_stats, 4);
    let count = seq![("count"@, decimal(groups.finite@.len()))];
    assert(ranked_stats(groups, spread, 1) =~= count);
    match spread {
        Some(spread) => {
            assert(ranked_stats(groups, Some(spread), 2) =~= count + seq![("min"@, spread.min@)]);
            quantiles_are_ranked(groups, spread, QUANTILE_COUNT as int);
            assert(ranked_stats(groups, Some(spread), 8) =~= count + spread_stats(Some(spread)));
        },
        None => {
            assert(ranked_stats(groups, spread, 4) =~= count);
            assert(ranked_stats(groups, spread, 7) =~= count);
            assert(ranked_stats(groups, spread, 8) =~= count + spread_stats(spread));
        },
    }
    assert(ranked_stats(groups, spread, 11) =~= group_rows(groups, spread));
}

/// Whether this is the name of a statistic.
pub open spec fn is_stat_name(name: Seq<char>) -> bool {
    ||| name == "count"@ || name == "min"@ || name == "max"@
    ||| name == "q50"@ || name == "q90"@ || name == "q95"@ || name == "q99"@ || name == "q999"@
    ||| name == "-inf"@ || name == "inf"@ || name == "nan"@
}

/// Whether statistics tell of all samples: how many are finite; their order statistics, each under
/// its own name, as `summarize` answers for just the finite samples, where there are any; and how
/// many are negative infinity, positive infinity or no number, where any is. No name comes twice,
/// and there are no others.
pub open spec fn tell_of<S: Fn(Vec<u64>) -> Spread>(
    stats: Seq<(Seq<char>, Seq<char>)>,
    samples: Seq<u64>,
    summarize: S,
) -> bool {
    let finite = samples.filter(|bits: u64| is_finite(bits));
    &&& says(stats, "count"@, decimal(finite.len()))
    &&& says_count(
        stats,
        "-inf"@,
        samples.filter(|bits: u64| is_negative_infinity(bits)).len(),
    )
    &&& says_count(stats, "inf"@, samples.filter(|bits: u64| is_positive_infinity(bits)).len())
    &&& says_count(stats, "nan"@, samples.filter(|bits: u64| is_nan(bits)).len())
    &&& finite.len() == 0 ==> is_silent_on_spread(stats)
    &&& finite.len() > 0 ==> exists|asked: Vec<u64>, answer: Spread|
        asked@ == finite && #[trigger] call_ensures(summarize, (asked,), answer) && says_spread(
            stats,
            answer,
        )
    &&& forall|i: int, j: int|
        0 <= i < j < stats.len() ==> (#[trigger] stats[i]).0 != (#[trigger] stats[j]).0
    &&& forall|i: int| 0 <= i < stats.len() ==> is_stat_name((#[trigger] stats[i]).0)
}

/// The statistics of a histogram tell of all its samples, each under its own name.
pub proof fn statistics_stand_under_their_names<S: Fn(Vec<u64>) -> Spread>(
    samples: Seq<u64>,
    summarize: S,
    stats: Seq<(Seq<char>, Seq<char>)>,
)
    requires
        are_stats_of(samples, summarize, stats),
    ensures
        tell_of(stats, samples, summarize),
{
    let (groups, spread) = choose|groups: SampleGroups, spread: Option<Spread>|
        groups.partition(samples) && is_spread_of(samples, summarize, spread) && stats
            == #[trigger] group_rows(groups, spread);
    groups_are_ranked(groups, spread);
    ranked_stats_say_their_texts(groups, spread, 11);
    ranked_stats_come_once(groups, spread, 11);
    assert(stat_text(groups, spread, 0) is Some);
    assert(stat_text(groups, spread, 8) is Some <==> groups.negative_infinite > 0);
    assert(stat_text(groups, spread, 9) is Some <==> groups.positive_infinite > 0);
    assert(stat_text(groups, spread, 10) is Some <==> groups.nan > 0);
    assert(stat_text(groups, spread, 1) is Some <==> spread is Some);
    assert(stat_text(groups, spread, 7) is Some <==> spread is Some);
    assert(spread is None ==> stat_text(groups, spread, 2) is None);
    assert(spread is None ==> stat_text(groups, spread, 3) is None);
    assert(spread is None ==> stat_text(groups, spread, 4) is None);
    assert(spread is None ==> stat_text(groups, spread, 5) is None);
    assert(spread is None ==> stat_text(groups, spread, 6) is None);
    if let Some(answer) = spread {
        let asked = choose|asked: Vec<u64>|
            asked@ == finite_samples(samples) && #[trigger] call_ensures(
                summarize,
                (asked,),
                answer,
            );
        assert(says_spread(stats, answer));
        assert(call_ensures(summarize, (asked,), answer));
    }
}

proof fn ranked_stats_come_once(groups: SampleGroups, spread: Option<Spread>, n: int)
    requires
        0 <= n <= 11,
    ensures
        forall|i: int, j: int|
            0 <= i < j < ranked_stats(groups, spread, n).len() ==> (#[trigger] ranked_stats(
                groups,
                spread,
                n,
            )[i]).0 != (#[trigger] ranked_stats(groups, spread, n)[j]).0,
    decreases n,
{
    if n > 0 {
        ranked_stats_come_once(groups, spread, n - 1);
        ranked_stats_say_their_texts(groups, spread, n - 1);
        let earlier = ranked_stats(groups, spread, n - 1);
        assert(is_silent_on(earlier, stat_name(n - 1)));
    }
}

/// Samples are told apart as doubles are: those whose exponent is not all ones are finite; of the
/// others, those with a fraction are no numbers, and those without are the two infinities, which
/// differ in sign.
pub proof fn samples_are_told_apart_as_doubles(bits: u64)
    ensures
        is_finite(bits) <==> (bits >> 52) & 0x7ff != 0x7ff,
        is_nan(bits) <==> (bits >> 52) & 0x7ff == 0x7ff && bits & 0xf_ffff_ffff_ffff != 0,
        is_negative_infinity(bits) <==> (bits >> 52) & 0x7ff == 0x7ff && bits & 0xf_ffff_ffff_ffff
            == 0 && bits >> 63 == 1,
        is_positive_infinity(bits) <==> (bits >> 52) & 0x7ff == 0x7ff && bits & 0xf_ffff_ffff_ffff
            == 0 && bits >> 63 == 0,
{
    let size: u64 = if bits >= SIGN_BIT {
        (bits - SIGN_BIT) as u64
    } else {
        bits
    };
    assert(size == bits & 0x7fff_ffff_ffff_ffff) by {
        assert(bits >= 0x8000_0000_0000_0000 ==> bits - 0x8000_0000_0000_0000 == bits
            & 0x7fff_ffff_ffff_ffff) by (bit_vector);
        assert(bits < 0x8000_0000_0000_0000 ==> bits == bits & 0x7fff_ffff_ffff_ffff)
            by (bit_vector);
    }
    assert(bits & 0x7fff_ffff_ffff_ffff < 0x7ff0_0000_0000_0000 <==> (bits >> 52) & 0x7ff != 0x7ff)
        by (bit_vector);
    assert(bits & 0x7fff_ffff_ffff_ffff > 0x7ff0_0000_0000_0000 <==> (bits >> 52) & 0x7ff == 0x7ff
        && bits & 0xf_ffff_ffff_ffff != 0) by (bit_vector);
    assert(bits >= 0x8000_0000_0000_0000 <==> bits >> 63 == 1) by (bit_vector);
    assert(bits >> 63 == 0 || bits >> 63 == 1) by (bit_vector);
}

} // verus!
