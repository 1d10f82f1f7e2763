//! Picking an output device and a configuration for it.

use vstd::prelude::*;

verus! {

/// The fewest frames a callback may be asked for where the device leaves it open.
pub const DEFAULT_MIN_FRAMES: u32 = 1;

/// The most frames a callback may be asked for where the device leaves it open.
pub const DEFAULT_MAX_FRAMES: u32 = 8192;

/// The device that was opened, and how.
#[derive(Debug)]
pub struct AudioStatus {
    pub device_name: String,
    pub sample_rate: u32,
    /// The range of frame counts a callback may be asked to render.
    pub min_frames: u32,
    pub max_frames: u32,
}

/// The sample rates one supported configuration covers.
#[derive(Clone, Copy, Debug, PartialEq, Eq, Structural)]
pub struct RateRange {
    pub min_sample_rate: u32,
    pub max_sample_rate: u32,
}

/// One of a list, by its index, or whatever the host has by default.
#[derive(Clone, Copy, Debug, PartialEq, Eq, Structural)]
pub enum Choice {
    Listed(usize),
    Default,
}

/// The sample formats a device may ask for.
#[derive(Clone, Copy, Debug, PartialEq, Eq, Structural)]
pub enum OutputFormat {
    F32,
    I16,
    U16,
    Other,
}

/// The first device at or after `from` with the name `wanted`.
pub open spec fn first_named(names: Seq<Option<String>>, wanted: Seq<char>, from: nat) -> Choice
    decreases names.len() - from,
{
    if from >= names.len() {
        Choice::Default
    } else if names[from as int] matches Some(name) && name@ == wanted {
        Choice::Listed(from as usize)
    } else {
        first_named(names, wanted, from + 1)
    }
}

/// The device to open: the first with the wanted name, or the host's default where no name is
/// wanted or no device has it. A device whose name is not known is never picked by name.
pub fn choose_device(names: &Vec<Option<String>>, wanted: &Option<String>) -> (choice: Choice)
    ensures
        choice == (match *wanted {
            Some(name) => first_named(names@, name@, 0),
            None => Choice::Default,
        }),
{
    if let Some(wanted_name) = wanted {
        let mut i: usize = 0;
        while i < names.len()
            invariant
                i <= names@.len(),
                *wanted == Some(*wanted_name),
                first_named(names@, wanted_name@, 0) == first_named(
                    names@,
                    wanted_name@,
                    i as nat,
                ),
            decreases names@.len() - i,
        {
            if let Some(name) = &names[i] {
                if *name == *wanted_name {
                    return Choice::Listed(i);
                }
            }
            i += 1;
        }
    }
    Choice::Default
}

/// Of the first `n` devices, the names that are known, in order.
pub open spec fn known_names(names: Seq<Option<String>>, n: nat) -> Seq<Seq<char>>
    decreases n,
{
    if n == 0 {
        Seq::empty()
    } else {
        let earlier = known_names(names, (n - 1) as nat);
        match names[n - 1] {
            Some(name) => earlier.push(name@),
            None => earlier,
        }
    }
}

/// The names of the devices, in the host's order. A device whose name is not known is left out.
pub fn listed_names(names: &Vec<Option<String>>) -> (listed: Vec<String>)
    ensures
        Seq::new(listed@.len(), |i: int| listed@[i]@) == known_names(names@, names@.len()),
{
    let mut listed: Vec<String> = Vec::new();
    let mut i: usize = 0;
    assert(Seq::new(listed@.len(), |i: int| listed@[i]@) =~= known_names(names@, 0));
    while i < names.len()
        invariant
            i <= names@.len(),
            Seq::new(listed@.len(), |k: int| listed@[k]@) == known_names(names@, i as nat),
        decreases names@.len() - i,
    {
        if let Some(name) = &names[i] {
            let ghost earlier = listed@;
            listed.push(name.clone());
            assert(Seq::new(listed@.len(), |k: int| listed@[k]@) =~= Seq::new(
                earlier.len(),
                |k: int| earlier[k]@,
            ).push(name@));
        }
        i += 1;
    }
    listed
}

/// Whether a configuration covers a sample rate.
pub open spec fn covers_rate(range: RateRange, rate: u32) -> bool {
    range.min_sample_rate <= rate <= range.max_sample_rate
}

/// The first configuration at or after `from` that covers `rate`.
pub open spec fn first_covering(ranges: Seq<RateRange>, rate: u32, from: nat) -> Choice
    decreases ranges.len() - from,
{
    if from >= ranges.len() {
        Choice::Default
    } else if covers_rate(ranges[from as int], rate) {
        Choice::Listed(from as usize)
    } else {
        first_covering(ranges, rate, from + 1)
    }
}

/// The configuration to open a device with: the first that covers the wanted sample rate, or the
/// device's default where no rate is wanted or none covers it.
pub fn choose_config(ranges: &Vec<RateRange>, wanted: Option<u32>) -> (choice: Choice)
    ensures
        choice == (match wanted {
            Some(rate) => first_covering(ranges@, rate, 0),
            None => Choice::Default,
        }),
{
    if let Some(rate) = wanted {
        let mut i: usize = 0;
        while i < ranges.len()
            invariant
                i <= ranges@.len(),
                wanted == Some(rate),
                first_covering(ranges@, rate, 0) == first_covering(ranges@, rate, i as nat),
            decreases ranges@.len() - i,
        {
            if ranges[i].min_sample_rate <= rate && rate <= ranges[i].max_sample_rate {
                return Choice::Listed(i);
            }
            i += 1;
        }
    }
    Choice::Default
}

/// Whether one of a device's configurations covers a sample rate.
pub open spec fn supported(ranges: Seq<RateRange>, rate: u32) -> bool {
    exists|i: int| 0 <= i < ranges.len() && covers_rate(#[trigger] ranges[i], rate)
}

/// The lowest sample rate, from `from` on, that a device supports.
pub fn next_supported_rate(ranges: &Vec<RateRange>, from: u32) -> (next: Option<u32>)
    ensures
        next matches Some(rate) ==> from <= rate && supported(ranges@, rate),
        forall|q: u32|
            from <= q && (next matches Some(rate) ==> q < rate) ==> !#[trigger] supported(ranges@, q),
{
    let mut next: Option<u32> = None;
    let mut i: usize = 0;
    while i < ranges.len()
        invariant
            i <= ranges@.len(),
            next matches Some(rate) ==> from <= rate && supported(ranges@, rate),
            forall|q: u32, k: int|
                from <= q && (next matches Some(rate) ==> q < rate) && 0 <= k < i
                    ==> !#[trigger] covers_rate(ranges@[k], q),
        decreases ranges@.len() - i,
    {
        let range = ranges[i];
        let first: u32 = if range.min_sample_rate < from {
            from
        } else {
            range.min_sample_rate
        };
        if first <= range.max_sample_rate {
            assert(covers_rate(ranges@[i as int], first));
            let nearer: bool = match next {
                Some(rate) => first < rate,
                None => true,
            };
            if nearer {
                next = Some(first);
            }
        }
        i += 1;
    }
    next
}

/// The sample rates to offer for a device, each once and in rising order: every one that it
/// supports. The list is as long as the device's ranges are wide.
pub fn offered_sample_rates(ranges: &Vec<RateRange>) -> (rates: Vec<u32>)
    ensures
        forall|i: int, j: int| 0 <= i < j < rates@.len() ==> rates@[i] < rates@[j],
        forall|rate: u32| #[trigger] rates@.contains(rate) <==> supported(ranges@, rate),
{
    let mut rates: Vec<u32> = Vec::new();
    let mut next: Option<u32> = next_supported_rate(ranges, 0);
    while next.is_some()
        invariant
            forall|i: int, j: int| 0 <= i < j < rates@.len() ==> rates@[i] < rates@[j],
            forall|k: int| 0 <= k < rates@.len() ==> supported(ranges@, #[trigger] rates@[k]),
            next matches Some(upcoming) ==> supported(ranges@, upcoming) && forall|k: int|
                0 <= k < rates@.len() ==> #[trigger] rates@[k] < upcoming,
            forall|q: u32|
                #[trigger] supported(ranges@, q) && (next matches Some(upcoming) ==> q < upcoming)
                    ==> rates@.contains(q),
        decreases
            match next {
                Some(upcoming) => u32::MAX - upcoming + 1,
                None => 0,
            },
    {
        let ghost earlier = rates@;
        let rate: u32 = next.unwrap();
        rates.push(rate);
        next = if rate < u32::MAX {
            next_supported_rate(ranges, rate + 1)
        } else {
            None
        };
        assert forall|q: u32|
            #[trigger] supported(ranges@, q) && (next matches Some(upcoming) ==> q
                < upcoming) implies rates@.contains(q) by {
            if q < rate {
                assert(earlier.contains(q));
                let k = choose|k: int| 0 <= k < earlier.len() && earlier[k] == q;
                assert(rates@[k] == q);
            } else {
                assert(rates@[earlier.len() as int] == rate);
                assert(q == rate);
            }
        }
    }
    rates
}

/// Whether playback can be built for a sample format.
pub fn is_supported(format: OutputFormat) -> (r: bool)
    ensures
        r == (format != OutputFormat::Other),
{
    match format {
        OutputFormat::F32 => true,
        OutputFormat::I16 => true,
        OutputFormat::U16 => true,
        OutputFormat::Other => false,
    }
}

impl AudioStatus {
    /// The status of a device opened at `sample_rate`. Where the device fixes its buffer size, a
    /// callback is always asked for just that many frames.
    pub fn opened(device_name: String, sample_rate: u32, fixed_frames: Option<u32>) -> (status: Self)
        ensures
            status.device_name@ == device_name@,
            status.sample_rate == sample_rate,
            fixed_frames matches Some(n) ==> status.min_frames == n && status.max_frames == n,
            fixed_frames is None ==> status.min_frames == DEFAULT_MIN_FRAMES && status.max_frames
                == DEFAULT_MAX_FRAMES,
    {
        let (min_frames, max_frames) = match fixed_frames {
            Some(n) => (n, n),
            None => (DEFAULT_MIN_FRAMES, DEFAULT_MAX_FRAMES),
        };
        AudioStatus { device_name, sample_rate, min_frames, max_frames }
    }
}

/// A rate that is offered for a device never has to fall back to the device's default: it is opened
/// with the first of its configurations that covers the rate.
pub proof fn law_offered_rates_are_covered(ranges: Seq<RateRange>, rate: u32)
    requires
        ranges.len() <= usize::MAX,
        supported(ranges, rate),
    ensures
        first_covering(ranges, rate, 0) matches Choice::Listed(i) && i < ranges.len() && covers_rate(
            ranges[i as int],
            rate,
        ),
{
    let i = choose|i: int| 0 <= i < ranges.len() && covers_rate(#[trigger] ranges[i], rate);
    lemma_first_covering(ranges, rate, 0, i);
    lemma_first_covering_covers(ranges, rate, 0);
}

proof fn lemma_first_covering_covers(ranges: Seq<RateRange>, rate: u32, from: nat)
    requires
        ranges.len() <= usize::MAX,
    ensures
        first_covering(ranges, rate, from) matches Choice::Listed(i) ==> i < ranges.len()
            && covers_rate(ranges[i as int], rate),
    decreases ranges.len() - from,
{
    if from < ranges.len() && !covers_rate(ranges[from as int], rate) {
        lemma_first_covering_covers(ranges, rate, from + 1);
    }
}

proof fn lemma_first_covering(ranges: Seq<RateRange>, rate: u32, from: nat, i: int)
    requires
        from <= i < ranges.len(),
        covers_rate(ranges[i], rate),
    ensures
        first_covering(ranges, rate, from) is Listed,
    decreases i - from,
{
    if !covers_rate(ranges[from as int], rate) {
        lemma_first_covering(ranges, rate, from + 1, i);
    }
}

proof fn lemma_first_named(names: Seq<Option<String>>, wanted: Seq<char>, from: nat)
    requires
        names.len() <= usize::MAX,
    ensures
        first_named(names, wanted, from) matches Choice::Listed(i) ==> from <= i < names.len() && (
        names[i as int] matches Some(name) && name@ == wanted) && forall|k: int|
            from <= k < i ==> !((#[trigger] names[k]) matches Some(name) && name@ == wanted),
        first_named(names, wanted, from) is Default ==> forall|k: int|
            from <= k < names.len() ==> !((#[trigger] names[k]) matches Some(name) && name@
                == wanted),
    decreases names.len() - from,
{
    if from < names.len() && !(names[from as int] matches Some(name) && name@ == wanted) {
        lemma_first_named(names, wanted, from + 1);
    }
}

/// A device is chosen by name: the chosen one has the wanted name, no earlier one has it, and the
/// default is taken only where no device has it.
pub proof fn law_the_first_device_of_the_name_is_chosen(
    names: Seq<Option<String>>,
    wanted: Seq<char>,
)
    requires
        names.len() <= usize::MAX,
    ensures
        first_named(names, wanted, 0) matches Choice::Listed(i) ==> i < names.len() && (
        names[i as int] matches Some(name) && name@ == wanted) && forall|k: int|
            0 <= k < i ==> !((#[trigger] names[k]) matches Some(name) && name@ == wanted),
        first_named(names, wanted, 0) is Default ==> forall|k: int|
            0 <= k < names.len() ==> !((#[trigger] names[k]) matches Some(name) && name@ == wanted),
{
    lemma_first_named(names, wanted, 0);
}

proof fn lemma_first_covering_is_first(ranges: Seq<RateRange>, rate: u32, from: nat)
    requires
        ranges.len() <= usize::MAX,
    ensures
        first_covering(ranges, rate, from) matches Choice::Listed(i) ==> from <= i < ranges.len()
            && ranges[i as int].min_sample_rate <= rate <= ranges[i as int].max_sample_rate
            && forall|k: int|
            from <= k < i ==> !((#[trigger] ranges[k]).min_sample_rate <= rate
                <= ranges[k].max_sample_rate),
        first_covering(ranges, rate, from) is Default ==> forall|k: int|
            from <= k < ranges.len() ==> !((#[trigger] ranges[k]).min_sample_rate <= rate
                <= ranges[k].max_sample_rate),
    decreases ranges.len() - from,
{
    if from < ranges.len() && !covers_rate(ranges[from as int], rate) {
        lemma_first_covering_is_first(ranges, rate, from + 1);
    }
}

/// A device is opened with the first configuration between whose ends the wanted rate lies, and with
/// its default only where there is none.
pub proof fn law_the_first_range_around_the_rate_is_chosen(ranges: Seq<RateRange>, rate: u32)
    requires
        ranges.len() <= usize::MAX,
    ensures
        first_covering(ranges, rate, 0) matches Choice::Listed(i) ==> i < ranges.len()
            && ranges[i as int].min_sample_rate <= rate <= ranges[i as int].max_sample_rate
            && forall|k: int|
            0 <= k < i ==> !((#[trigger] ranges[k]).min_sample_rate <= rate
                <= ranges[k].max_sample_rate),
        first_covering(ranges, rate, 0) is Default ==> forall|k: int|
            0 <= k < ranges.len() ==> !((#[trigger] ranges[k]).min_sample_rate <= rate
                <= ranges[k].max_sample_rate),
{
    lemma_first_covering_is_first(ranges, rate, 0);
}

/// A device supports exactly the rates that lie between the ends of one of its ranges, the ends
/// included.
pub proof fn law_a_rate_between_the_ends_is_supported(ranges: Seq<RateRange>, rate: u32)
    ensures
        forall|i: int|
            0 <= i < ranges.len() && (#[trigger] ranges[i]).min_sample_rate <= rate
                <= ranges[i].max_sample_rate ==> supported(ranges, rate),
        (forall|i: int|
            0 <= i < ranges.len() ==> !((#[trigger] ranges[i]).min_sample_rate <= rate
                <= ranges[i].max_sample_rate)) ==> !supported(ranges, rate),
{
    assert forall|i: int|
        0 <= i < ranges.len() && (#[trigger] ranges[i]).min_sample_rate <= rate
            <= ranges[i].max_sample_rate implies supported(ranges, rate) by {
        assert(covers_rate(ranges[i], rate));
    }
}

/// How many of the first `n` devices have a name that is known.
pub open spec fn known_before(names: Seq<Option<String>>, n: nat) -> nat
    decreases n,
{
    if n == 0 {
        0
    } else {
        known_before(names, (n - 1) as nat) + (if names[n - 1] is Some {
            1nat
        } else {
            0nat
        })
    }
}

/// Every device whose name is known is listed, in the host's order and under its own name, and
/// nothing else is.
pub proof fn law_every_known_name_is_listed(names: Seq<Option<String>>, n: nat)
    requires
        n <= names.len(),
    ensures
        known_names(names, n).len() == known_before(names, n),
        forall|i: int|
            #![trigger names[i]]
            0 <= i < n && names[i] is Some ==> known_before(names, i as nat) < known_before(
                names,
                n,
            ) && known_names(names, n)[known_before(names, i as nat) as int] == (names[i]->0)@,
    decreases n,
{
    if n > 0 {
        law_every_known_name_is_listed(names, (n - 1) as nat);
        assert forall|i: int|
            #![trigger names[i]]
            0 <= i < n && names[i] is Some implies known_before(names, i as nat) < known_before(
            names,
            n,
        ) && known_names(names, n)[known_before(names, i as nat) as int] == (names[i]->0)@ by {
            if i < n - 1 {
                assert(known_before(names, i as nat) < known_before(names, (n - 1) as nat));
            }
        }
    }
}

} // verus!
