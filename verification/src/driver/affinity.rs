//! Where the dispatcher's workers run.

use crate::text::{characters, parse_number, parsed_number};
use vstd::multiset::Multiset;
use vstd::prelude::*;
use vstd::seq_lib::*;

verus! {

/// Whether workers are pinned to processors.
#[derive(Clone, Copy, Debug, PartialEq, Eq, Structural)]
pub enum DispatcherAffinity {
    Auto,
    Performance,
    Unrestricted,
}

/// What a host asks of the dispatcher.
#[derive(Clone, Copy, Debug, PartialEq, Eq, Structural)]
pub struct DispatcherConfig {
    pub workers: Option<usize>,
    pub affinity: DispatcherAffinity,
}

impl Default for DispatcherConfig {
    fn default() -> (config: DispatcherConfig)
        ensures
            config.workers is None,
            config.affinity is Auto,
    {
        DispatcherConfig { workers: None, affinity: DispatcherAffinity::Auto }
    }
}

/// How many workers the dispatcher runs, and on which processors.
#[derive(Debug)]
pub struct DispatcherPlacement {
    pub worker_count: usize,
    pub pinned_core_ids: Option<Vec<usize>>,
}

impl DispatcherPlacement {
    /// Whether workers are pinned.
    pub fn is_pinned(&self) -> (pinned: bool)
        ensures
            pinned == self.pinned_core_ids is Some,
    {
        self.pinned_core_ids.is_some()
    }

    /// The processor on which the worker with the given index runs.
    pub fn pinned_core(&self, index: usize) -> (core: Option<usize>)
        requires
            self.pinned_core_ids matches Some(ids) ==> ids@.len() > 0,
        ensures
            core == match self.pinned_core_ids {
                Some(ids) => Some(ids@[(index as int) % (ids@.len() as int)]),
                None => None,
            },
    {
        match &self.pinned_core_ids {
            Some(ids) => Some(ids[index % ids.len()]),
            None => None,
        }
    }
}

/// Places the dispatcher's workers, given the processors found to perform best and
/// the number of workers that the machine can run at once.
pub fn configure_dispatcher(
    config: DispatcherConfig,
    detected: Option<Vec<usize>>,
    available_parallelism: usize,
) -> (placement: DispatcherPlacement)
    requires
        detected matches Some(ids) ==> ids@.len() > 0,
        config.workers matches Some(workers) ==> workers > 0,
        available_parallelism > 0,
    ensures
        placement.pinned_core_ids == if config.affinity is Unrestricted {
            Option::<Vec<usize>>::None
        } else {
            detected
        },
        placement.worker_count == match (config.workers, placement.pinned_core_ids) {
            (Some(workers), _) => workers as int,
            (None, Some(ids)) => ids@.len() as int,
            (None, None) => available_parallelism as int,
        },
        placement.worker_count > 0,
{
    let pinned_core_ids: Option<Vec<usize>> = match config.affinity {
        DispatcherAffinity::Unrestricted => None,
        DispatcherAffinity::Auto | DispatcherAffinity::Performance => detected,
    };
    let worker_count: usize = match config.workers {
        Some(workers) => workers,
        None => match &pinned_core_ids {
            Some(ids) => ids.len(),
            None => available_parallelism,
        },
    };
    DispatcherPlacement { worker_count, pinned_core_ids }
}

/// What is known of one physical core.
#[derive(Debug)]
pub struct PhysicalCoreMetric {
    pub logical_processor_ids: Vec<usize>,
    pub capacity: Option<u32>,
    pub max_freq_khz: Option<u32>,
}

/// By which figure cores are compared.
#[derive(Clone, Copy, Debug, PartialEq, Eq, Structural)]
pub enum CoreMetric {
    Capacity,
    MaxFrequency,
}

impl PhysicalCoreMetric {
    /// The figure by which this core is compared.
    pub open spec fn metric(self, which: CoreMetric) -> Option<u32> {
        match which {
            CoreMetric::Capacity => self.capacity,
            CoreMetric::MaxFrequency => self.max_freq_khz,
        }
    }

    fn get_metric(&self, which: CoreMetric) -> (metric: Option<u32>)
        ensures
            metric == self.metric(which),
    {
        match which {
            CoreMetric::Capacity => self.capacity,
            CoreMetric::MaxFrequency => self.max_freq_khz,
        }
    }
}

/// Whether `bound` is a figure of some core that no core's figure exceeds.
pub open spec fn is_highest(cores: Seq<PhysicalCoreMetric>, which: CoreMetric, bound: u32) -> bool {
    &&& exists|i: int| 0 <= i < cores.len() && (#[trigger] cores[i]).metric(which) == Some(bound)
    &&& forall|i: int|
        0 <= i < cores.len() && (#[trigger] cores[i]).metric(which) is Some
            ==> cores[i].metric(which)->0 <= bound
}

/// Whether `bound` is a figure of some core that no core's figure is below.
pub open spec fn is_lowest(cores: Seq<PhysicalCoreMetric>, which: CoreMetric, bound: u32) -> bool {
    &&& exists|i: int| 0 <= i < cores.len() && (#[trigger] cores[i]).metric(which) == Some(bound)
    &&& forall|i: int|
        0 <= i < cores.len() && (#[trigger] cores[i]).metric(which) is Some
            ==> cores[i].metric(which)->0 >= bound
}

/// Whether cores differ by at least a tenth of the highest figure.
pub open spec fn heterogeneous(cores: Seq<PhysicalCoreMetric>, which: CoreMetric) -> bool {
    exists|low: u32, high: u32|
        #![trigger is_lowest(cores, which, low), is_highest(cores, which, high)]
        is_lowest(cores, which, low) && is_highest(cores, which, high) && high > 0 && (high - low)
            * 10 >= high
}

/// Whether a core's figure is at least nine tenths of the highest.
pub open spec fn performs(
    cores: Seq<PhysicalCoreMetric>,
    which: CoreMetric,
    core: PhysicalCoreMetric,
) -> bool {
    exists|high: u32|
        #[trigger] is_highest(cores, which, high) && core.metric(which) is Some && core.metric(which)->0
            * 10 >= high * 9
}

/// Whether a processor belongs to a core that performs.
pub open spec fn selected_processor(
    cores: Seq<PhysicalCoreMetric>,
    which: CoreMetric,
    id: usize,
) -> bool {
    exists|i: int|
        0 <= i < cores.len() && performs(cores, which, #[trigger] cores[i])
            && cores[i].logical_processor_ids@.contains(id)
}

/// Whether a set of processors is worth preferring: cores differ, some processor is
/// selected, and some core is not.
pub open spec fn worth_pinning(cores: Seq<PhysicalCoreMetric>, which: CoreMetric) -> bool {
    &&& heterogeneous(cores, which)
    &&& exists|id: usize| selected_processor(cores, which, id)
    &&& exists|i: int| 0 <= i < cores.len() && !performs(cores, which, #[trigger] cores[i])
}

/// Whether numbers stand in strictly increasing order.
pub open spec fn ascending(ids: Seq<usize>) -> bool {
    forall|i: int, j: int| 0 <= i < j < ids.len() ==> ids[i] < ids[j]
}

/// Whether numbers stand in order, equal ones side by side.
pub open spec fn ordered(ids: Seq<usize>) -> bool {
    forall|i: int, j: int| 0 <= i <= j < ids.len() ==> ids[i] <= ids[j]
}

fn insert_ordered(ids: &mut Vec<usize>, id: usize)
    requires
        ordered(old(ids)@),
    ensures
        ordered(final(ids)@),
        final(ids)@.to_multiset() == old(ids)@.to_multiset().insert(id),
        final(ids)@.len() == old(ids)@.len() + 1,
{
    let mut at: usize = ids.len();
    while at > 0 && ids[at - 1] > id
        invariant
            at <= ids@.len(),
            ids@ == old(ids)@,
            ordered(ids@),
            forall|j: int| at <= j < ids@.len() ==> ids@[j] > id,
        decreases at,
    {
        at = at - 1;
    }
    proof {
        vstd::seq_lib::to_multiset_insert(ids@, at as int, id);
    }
    ids.insert(at, id);
}

fn insert_ascending(ids: &mut Vec<usize>, id: usize)
    requires
        ascending(old(ids)@),
    ensures
        ascending(final(ids)@),
        forall|x: usize| #[trigger] final(ids)@.contains(x) <==> old(ids)@.contains(x) || x == id,
{
    let mut at: usize = ids.len();
    while at > 0 && ids[at - 1] > id
        invariant
            at <= ids@.len(),
            ids@ == old(ids)@,
            ascending(ids@),
            forall|j: int| at <= j < ids@.len() ==> ids@[j] > id,
        decreases at,
    {
        at = at - 1;
    }
    if at > 0 && ids[at - 1] == id {
        assert(old(ids)@.contains(id));
        return;
    }
    ids.insert(at, id);
    proof {
        let before = old(ids)@;
        let after = ids@;
        assert forall|x: usize| #[trigger] after.contains(x) <==> before.contains(x) || x == id by {
            if before.contains(x) {
                let k = choose|k: int| 0 <= k < before.len() && before[k] == x;
                if k < at {
                    assert(after[k] == x);
                } else {
                    assert(after[k + 1] == x);
                }
            }
            if x == id {
                assert(after[at as int] == x);
            }
            if after.contains(x) {
                let k = choose|k: int| 0 <= k < after.len() && after[k] == x;
                if k < at {
                    assert(before[k] == x);
                } else if k > at {
                    assert(before[k - 1] == x);
                }
            }
        }
    }
}

/// The processors of the cores whose figure is within a tenth of the highest, where
/// that is worth preferring.
pub fn select_performance_core_ids(cores: &[PhysicalCoreMetric], which: CoreMetric) -> (ids: Option<
    Vec<usize>,
>)
    ensures
        ids is Some <==> worth_pinning(cores@, which),
        ids matches Some(found) ==> {
            &&& found@.len() > 0
            &&& ascending(found@)
            &&& forall|id: usize| #[trigger]
                found@.contains(id) <==> selected_processor(cores@, which, id)
        },
{
    let mut bounds: Option<(u32, u32)> = None;
    let mut i: usize = 0;
    while i < cores.len()
        invariant
            i <= cores@.len(),
            match bounds {
                None => forall|j: int| 0 <= j < i ==> (#[trigger] cores@[j]).metric(which) is None,
                Some((low, high)) => {
                    &&& is_lowest(cores@.take(i as int), which, low)
                    &&& is_highest(cores@.take(i as int), which, high)
                },
            },
        decreases cores@.len() - i,
    {
        let ghost seen = cores@.take(i as int);
        let ghost next = cores@.take(i + 1);
        let metric = cores[i].get_metric(which);
        proof {
            assert forall|j: int| 0 <= j < i implies #[trigger] next[j] == seen[j] by {}
            assert(next[i as int] == cores@[i as int]);
        }
        match (metric, bounds) {
            (None, None) => {},
            (None, Some((low, high))) => {
                proof {
                    let a = choose|a: int|
                        0 <= a < seen.len() && (#[trigger] seen[a]).metric(which) == Some(low);
                    assert(next[a].metric(which) == Some(low));
                    let b = choose|b: int|
                        0 <= b < seen.len() && (#[trigger] seen[b]).metric(which) == Some(high);
                    assert(next[b].metric(which) == Some(high));
                }
            },
            (Some(value), None) => {
                assert(next[i as int].metric(which) == Some(value));
                bounds = Some((value, value));
            },
            (Some(value), Some((low, high))) => {
                proof {
                    let a = choose|a: int|
                        0 <= a < seen.len() && (#[trigger] seen[a]).metric(which) == Some(low);
                    assert(next[a].metric(which) == Some(low));
                    let b = choose|b: int|
                        0 <= b < seen.len() && (#[trigger] seen[b]).metric(which) == Some(high);
                    assert(next[b].metric(which) == Some(high));
                    assert(next[i as int].metric(which) == Some(value));
                }
                let new_low: u32 = if value < low { value } else { low };
                let new_high: u32 = if value > high { value } else { high };
                bounds = Some((new_low, new_high));
            },
        }
        i = i + 1;
    }
    assert(cores@.take(i as int) =~= cores@);
    let (low, high): (u32, u32) = match bounds {
        None => {
            return None;
        },
        Some(found) => found,
    };
    if high == 0 || (high - low) as u64 * 10 < high as u64 {
        assert(!heterogeneous(cores@, which)) by {
            assert forall|l: u32, h: u32|
                #![trigger is_lowest(cores@, which, l), is_highest(cores@, which, h)]
                is_lowest(cores@, which, l) && is_highest(cores@, which, h) implies l == low && h
                == high by {}
        }
        return None;
    }
    assert(heterogeneous(cores@, which));
    let threshold: u64 = (high as u64 * 9 + 9) / 10;
    let mut ids: Vec<usize> = Vec::new();
    let mut selected: usize = 0;
    let mut k: usize = 0;
    while k < cores.len()
        invariant
            k <= cores@.len(),
            is_highest(cores@, which, high),
            threshold as int == (high * 9 + 9) / 10,
            selected <= k,
            selected == k <==> forall|j: int|
                0 <= j < k ==> performs(cores@, which, #[trigger] cores@[j]),
            ascending(ids@),
            forall|id: usize| #[trigger]
                ids@.contains(id) <==> exists|j: int|
                    0 <= j < k && performs(cores@, which, #[trigger] cores@[j])
                        && cores@[j].logical_processor_ids@.contains(id),
        decreases cores@.len() - k,
    {
        let ghost before = ids@;
        let core = &cores[k];
        let metric = core.get_metric(which);
        proof {
            assert forall|h: u32| is_highest(cores@, which, h) implies h == high by {}
            assert(performs(cores@, which, cores@[k as int]) <==> metric is Some && metric->0
                >= threshold);
        }
        match metric {
            Some(value) if value as u64 >= threshold => {
                selected = selected + 1;
                let mut n: usize = 0;
                while n < core.logical_processor_ids.len()
                    invariant
                        n <= core.logical_processor_ids@.len(),
                        ascending(ids@),
                        forall|id: usize| #[trigger]
                            ids@.contains(id) <==> before.contains(id)
                                || core.logical_processor_ids@.take(n as int).contains(id),
                    decreases core.logical_processor_ids@.len() - n,
                {
                    let ghost seen = core.logical_processor_ids@.take(n as int);
                    let id = core.logical_processor_ids[n];
                    insert_ascending(&mut ids, id);
                    n = n + 1;
                    proof {
                        let next = core.logical_processor_ids@.take(n as int);
                        assert(next =~= seen.push(id));
                        assert forall|x: usize| #[trigger]
                            next.contains(x) <==> seen.contains(x) || x == id by {
                            if seen.contains(x) {
                                let a = choose|a: int| 0 <= a < seen.len() && seen[a] == x;
                                assert(next[a] == x);
                            }
                            if x == id {
                                assert(next[n - 1] == x);
                            }
                        }
                    }
                }
                assert(core.logical_processor_ids@.take(n as int)
                    =~= core.logical_processor_ids@);
            },
            _ => {},
        }
        k = k + 1;
    }
    assert(forall|id: usize| #[trigger]
        ids@.contains(id) <==> selected_processor(cores@, which, id));
    if ids.len() == 0 {
        assert forall|id: usize| !selected_processor(cores@, which, id) by {
            assert(!ids@.contains(id));
        }
        return None;
    }
    assert(ids@.contains(ids@[0]));
    if selected == cores.len() {
        return None;
    }
    Some(ids)
}

/// The processors to prefer: by capacity, or else by frequency.
pub fn detect_performance_logical_processors(cores: &[PhysicalCoreMetric]) -> (ids: Option<
    Vec<usize>,
>)
    ensures
        ids is Some <==> worth_pinning(cores@, CoreMetric::Capacity) || worth_pinning(
            cores@,
            CoreMetric::MaxFrequency,
        ),
        ids matches Some(found) ==> {
            let which = if worth_pinning(cores@, CoreMetric::Capacity) {
                CoreMetric::Capacity
            } else {
                CoreMetric::MaxFrequency
            };
            &&& found@.len() > 0
            &&& ascending(found@)
            &&& forall|id: usize| #[trigger]
                found@.contains(id) <==> selected_processor(cores@, which, id)
        },
{
    if cores.len() == 0 {
        return None;
    }
    match select_performance_core_ids(cores, CoreMetric::Capacity) {
        Some(ids) => Some(ids),
        None => select_performance_core_ids(cores, CoreMetric::MaxFrequency),
    }
}

/// The number in a processor's directory name: `cpu` and a decimal number.
pub open spec fn cpu_dir_number(name: Seq<char>) -> Option<nat> {
    if name.len() >= 3 && name.take(3) == seq!['c', 'p', 'u'] {
        parsed_number(name.skip(3), usize::MAX as nat)
    } else {
        None
    }
}

/// The processor that a directory is named after.
pub fn parse_cpu_dir(name: &str) -> (id: Option<usize>)
    ensures
        id is Some == cpu_dir_number(name@) is Some,
        id matches Some(found) ==> cpu_dir_number(name@) == Some(found as nat),
{
    let chars = characters(name);
    if chars.len() < 3 || chars[0] != 'c' || chars[1] != 'p' || chars[2] != 'u' {
        assert(name@.len() >= 3 ==> name@.take(3)[0] == name@[0] && name@.take(3)[1] == name@[1]
            && name@.take(3)[2] == name@[2]);
        return None;
    }
    assert(name@.take(3) =~= seq!['c', 'p', 'u']);
    match parse_number(&chars, 3, usize::MAX as u64) {
        Some(n) => Some(n as usize),
        None => None,
    }
}

/// What the system reports of one logical processor.
#[derive(Clone, Copy, Debug, PartialEq, Eq, Structural)]
pub struct LogicalProcessor {
    pub id: usize,
    pub package_id: Option<usize>,
    pub core_id: Option<usize>,
    pub capacity: Option<u32>,
    pub max_freq_khz: Option<u32>,
}

impl LogicalProcessor {
    /// The physical core that the processor belongs to.
    pub open spec fn core_key(self) -> (usize, usize) {
        (
            match self.package_id {
                Some(package) => package,
                None => 0,
            },
            match self.core_id {
                Some(core) => core,
                None => self.id,
            },
        )
    }
}

/// The processors of one physical core.
pub open spec fn on_core(processors: Seq<LogicalProcessor>, key: (usize, usize)) -> Seq<
    LogicalProcessor,
> {
    processors.filter(|p: LogicalProcessor| p.core_key() == key)
}

/// The first figure that is known.
pub open spec fn first_known(figures: Seq<Option<u32>>) -> Option<u32>
    decreases figures.len(),
{
    if figures.len() == 0 {
        None
    } else {
        match first_known(figures.drop_last()) {
            Some(found) => Some(found),
            None => figures.last(),
        }
    }
}

/// Whether `core` sums up the processors of one physical core.
pub open spec fn sums_up(core: PhysicalCoreMetric, processors: Seq<LogicalProcessor>) -> bool {
    &&& ordered(core.logical_processor_ids@)
    &&& core.logical_processor_ids@.to_multiset() == processors.map_values(
        |p: LogicalProcessor| p.id,
    ).to_multiset()
    &&& core.capacity == first_known(processors.map_values(|p: LogicalProcessor| p.capacity))
    &&& core.max_freq_khz == first_known(processors.map_values(|p: LogicalProcessor| p.max_freq_khz))
}

/// Whether `cores` are the physical cores of `processors`, one for each of `keys`.
pub open spec fn grouped(
    cores: Seq<PhysicalCoreMetric>,
    keys: Seq<(usize, usize)>,
    processors: Seq<LogicalProcessor>,
) -> bool {
    &&& cores.len() == keys.len()
    &&& keys.no_duplicates()
    &&& forall|p: int| 0 <= p < processors.len() ==> keys.contains((#[trigger] processors[p]).core_key())
    &&& forall|i: int|
        0 <= i < cores.len() ==> (#[trigger] cores[i]).logical_processor_ids@.len() > 0 && sums_up(
            cores[i],
            on_core(processors, keys[i]),
        )
}

proof fn lemma_on_core_push(
    processors: Seq<LogicalProcessor>,
    next: LogicalProcessor,
    key: (usize, usize),
)
    ensures
        on_core(processors.push(next), key) == if next.core_key() == key {
            on_core(processors, key).push(next)
        } else {
            on_core(processors, key)
        },
{
    reveal(Seq::filter);
    assert(processors.push(next).drop_last() =~= processors);
}

proof fn lemma_sums_up_push(
    before: PhysicalCoreMetric,
    after: PhysicalCoreMetric,
    processors: Seq<LogicalProcessor>,
    next: LogicalProcessor,
)
    requires
        sums_up(before, processors),
        ordered(after.logical_processor_ids@),
        after.logical_processor_ids@.to_multiset()
            == before.logical_processor_ids@.to_multiset().insert(next.id),
        after.capacity == match before.capacity {
            Some(found) => Some(found),
            None => next.capacity,
        },
        after.max_freq_khz == match before.max_freq_khz {
            Some(found) => Some(found),
            None => next.max_freq_khz,
        },
    ensures
        sums_up(after, processors.push(next)),
{
    let grown = processors.push(next);
    let ids = processors.map_values(|p: LogicalProcessor| p.id);
    assert(grown.map_values(|p: LogicalProcessor| p.id) =~= ids.push(next.id));
    ids.to_multiset_ensures();
    let capacities = grown.map_values(|p: LogicalProcessor| p.capacity);
    assert(capacities.drop_last() =~= processors.map_values(|p: LogicalProcessor| p.capacity));
    let frequencies = grown.map_values(|p: LogicalProcessor| p.max_freq_khz);
    assert(frequencies.drop_last() =~= processors.map_values(
        |p: LogicalProcessor| p.max_freq_khz,
    ));
}

fn known_or(known: Option<u32>, other: Option<u32>) -> (figure: Option<u32>)
    ensures
        figure == match known {
            Some(found) => Some(found),
            None => other,
        },
{
    match known {
        Some(found) => Some(found),
        None => other,
    }
}

/// Whether cores stand in the order of their first processors.
pub open spec fn by_first_processor(cores: Seq<PhysicalCoreMetric>) -> bool {
    forall|i: int, j: int|
        0 <= i <= j < cores.len() ==> (#[trigger] cores[i]).logical_processor_ids@[0] <= (
        #[trigger] cores[j]).logical_processor_ids@[0]
}

fn collect_cores(processors: &[LogicalProcessor]) -> (result: (
    Vec<(usize, usize)>,
    Vec<PhysicalCoreMetric>,
))
    ensures
        grouped(result.1@, result.0@, processors@),
{
    let mut keys: Vec<(usize, usize)> = Vec::new();
    let mut cores: Vec<PhysicalCoreMetric> = Vec::new();
    let mut n: usize = 0;
    while n < processors.len()
        invariant
            n <= processors@.len(),
            grouped(cores@, keys@, processors@.take(n as int)),
        decreases processors@.len() - n,
    {
        let ghost seen = processors@.take(n as int);
        let next = processors[n];
        assert(processors@.take(n + 1) =~= seen.push(next));
        let package: usize = match next.package_id {
            Some(package) => package,
            None => 0,
        };
        let core_number: usize = match next.core_id {
            Some(core) => core,
            None => next.id,
        };
        let ghost key = next.core_key();
        let mut at: usize = 0;
        while at < keys.len() && !(keys[at].0 == package && keys[at].1 == core_number)
            invariant
                at <= keys@.len(),
                key == (package, core_number),
                forall|j: int| 0 <= j < at ==> keys@[j] != key,
            decreases keys@.len() - at,
        {
            at = at + 1;
        }
        let ghost old_keys = keys@;
        let ghost old_cores = cores@;
        if at == keys.len() {
            let mut core = PhysicalCoreMetric {
                logical_processor_ids: Vec::new(),
                capacity: next.capacity,
                max_freq_khz: next.max_freq_khz,
            };
            let ghost blank = PhysicalCoreMetric {
                logical_processor_ids: core.logical_processor_ids,
                capacity: None,
                max_freq_khz: None,
            };
            proof {
                assert(on_core(seen, key) =~= Seq::empty()) by {
                    assert forall|i: int| 0 <= i < seen.len() implies (#[trigger] seen[i]).core_key()
                        != key by {
                        assert(old_keys.contains(seen[i].core_key()));
                    }
                    lemma_filter_none(seen, key);
                }
                assert(blank.logical_processor_ids@.to_multiset() =~= Seq::<
                    LogicalProcessor,
                >::empty().map_values(|p: LogicalProcessor| p.id).to_multiset()) by {
                    assert(Seq::<LogicalProcessor>::empty().map_values(
                        |p: LogicalProcessor| p.id,
                    ) =~= blank.logical_processor_ids@);
                }
                assert(sums_up(blank, on_core(seen, key)));
            }
            insert_ordered(&mut core.logical_processor_ids, next.id);
            proof {
                lemma_sums_up_push(blank, core, on_core(seen, key), next);
            }
            keys.push((package, core_number));
            cores.push(core);
        } else {
            let mut core = cores.remove(at);
            let ghost before = core;
            insert_ordered(&mut core.logical_processor_ids, next.id);
            core.capacity = known_or(core.capacity, next.capacity);
            core.max_freq_khz = known_or(core.max_freq_khz, next.max_freq_khz);
            proof {
                lemma_sums_up_push(before, core, on_core(seen, key), next);
            }
            cores.insert(at, core);
        }
        proof {
            let grown = seen.push(next);
            assert forall|p: int| 0 <= p < grown.len() implies keys@.contains(
                (#[trigger] grown[p]).core_key(),
            ) by {
                if p < seen.len() {
                    let k = choose|k: int|
                        0 <= k < old_keys.len() && old_keys[k] == seen[p].core_key();
                    assert(old_keys.contains(seen[p].core_key()));
                    assert(keys@[k] == seen[p].core_key());
                } else {
                    assert(keys@[at as int] == key);
                }
            }
            assert forall|i: int| 0 <= i < cores@.len() implies (
            #[trigger] cores@[i]).logical_processor_ids@.len() > 0 && sums_up(
                cores@[i],
                on_core(grown, keys@[i]),
            ) by {
                lemma_on_core_push(seen, next, keys@[i]);
                if i != at {
                    assert(cores@[i] == old_cores[i]);
                    assert(keys@[i] == old_keys[i]);
                    assert(keys@[i] != key);
                }
            }
        }
        n = n + 1;
    }
    assert(processors@.take(n as int) =~= processors@);
    (keys, cores)
}

proof fn lemma_filter_none(processors: Seq<LogicalProcessor>, key: (usize, usize))
    requires
        forall|i: int| 0 <= i < processors.len() ==> (#[trigger] processors[i]).core_key() != key,
    ensures
        on_core(processors, key).len() == 0,
    decreases processors.len(),
{
    reveal(Seq::filter);
    if processors.len() > 0 {
        lemma_filter_none(processors.drop_last(), key);
    }
}

/// The physical cores that the given processors belong to, each with its processors
/// in order and the first figures that are known of it.
pub fn group_physical_cores(processors: &[LogicalProcessor]) -> (cores: Vec<PhysicalCoreMetric>)
    ensures
        by_first_processor(cores@),
        exists|keys: Seq<(usize, usize)>| grouped(cores@, keys, processors@),
{
    let (keys, mut rest) = collect_cores(processors);
    let ghost mut rest_keys = keys@;
    let ghost mut done_keys: Seq<(usize, usize)> = Seq::empty();
    let mut cores: Vec<PhysicalCoreMetric> = Vec::new();
    assert(rest_keys + done_keys =~= rest_keys);
    assert forall|p: int| 0 <= p < processors@.len() implies (rest_keys + done_keys).contains(
        (#[trigger] processors@[p]).core_key(),
    ) by {
        assert(rest_keys.contains(processors@[p].core_key()));
    }
    while rest.len() > 0
        invariant
            rest@.len() == rest_keys.len(),
            cores@.len() == done_keys.len(),
            (rest_keys + done_keys).no_duplicates(),
            forall|p: int|
                0 <= p < processors@.len() ==> (rest_keys + done_keys).contains(
                    (#[trigger] processors@[p]).core_key(),
                ),
            forall|i: int|
                0 <= i < rest@.len() ==> (#[trigger] rest@[i]).logical_processor_ids@.len() > 0
                    && sums_up(rest@[i], on_core(processors@, rest_keys[i])),
            forall|i: int|
                0 <= i < cores@.len() ==> (#[trigger] cores@[i]).logical_processor_ids@.len() > 0
                    && sums_up(cores@[i], on_core(processors@, done_keys[i])),
            by_first_processor(cores@),
        decreases rest@.len(),
    {
        let ghost old_rest = rest_keys;
        let ghost old_done = done_keys;
        let ghost old_cores = cores@;
        let last: usize = rest.len() - 1;
        let core = rest.remove(last);
        let ghost key = old_rest.last();
        let first: usize = core.logical_processor_ids[0];
        let mut at: usize = cores.len();
        while at > 0 && cores[at - 1].logical_processor_ids[0] > first
            invariant
                at <= cores@.len(),
                cores@ == old_cores,
                by_first_processor(cores@),
                forall|i: int|
                    0 <= i < cores@.len() ==> (#[trigger] cores@[i]).logical_processor_ids@.len() > 0,
                forall|j: int|
                    at <= j < cores@.len() ==> (#[trigger] cores@[j]).logical_processor_ids@[0] > first,
            decreases at,
        {
            at = at - 1;
        }
        cores.insert(at, core);
        proof {
            rest_keys = old_rest.drop_last();
            done_keys = old_done.insert(at as int, key);
            let old_all = old_rest + old_done;
            let new_all = rest_keys + done_keys;
            let r = rest_keys.len() as int;
            assert forall|i: int| 0 <= i < new_all.len() implies #[trigger] new_all[i] == old_all[
                if i < r {
                    i
                } else if i < r + at {
                    i + 1
                } else if i == r + at {
                    r
                } else {
                    i
                }
            ] by {}
            assert(new_all.no_duplicates());
            assert forall|p: int| 0 <= p < processors@.len() implies new_all.contains(
                (#[trigger] processors@[p]).core_key(),
            ) by {
                let want = processors@[p].core_key();
                assert(old_all.contains(want));
                let k = choose|k: int| 0 <= k < old_all.len() && old_all[k] == want;
                if k < r {
                    assert(new_all[k] == want);
                } else if k == r {
                    assert(new_all[r + at] == want);
                } else if k - 1 < r + at {
                    assert(new_all[k - 1] == want);
                } else {
                    assert(new_all[k] == want);
                }
            }
        }
    }
    assert(rest_keys + done_keys =~= done_keys);
    assert(grouped(cores@, done_keys, processors@));
    cores
}

} // verus!
