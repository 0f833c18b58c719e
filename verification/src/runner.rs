//! The sampling loop's configuration and its per-tick decisions:
//! feeding a poll's samples into the per-core windows, pacing the
//! display against its own deadline, bounding a logging run, and
//! shaping CSV header and record rows.
//!
//! The loop itself — file reads, sleeps, rendering, the CSV writer —
//! belongs to the caller, which consults these functions once per
//! tick.

use vstd::prelude::*;

verus! {

use std::collections::BTreeMap;
use std::collections::HashSet;
use crate::digits::dec_chars;
use crate::digits::u64_to_dec_string;
use crate::stat::CpuStat;
use crate::stat::window_step;
use vstd::std_specs::cmp::OrdSpec;

/// Default milliseconds between display refreshes in monitor mode.
pub const DEFAULT_MONITOR_FREQUENCY: u64 = 100;

/// Default milliseconds between samples.
pub const DEFAULT_SAMPLE_FREQUENCY: u64 = 1;

/// Default running-average window capacity in monitor mode.
pub const DEFAULT_WINDOW_SIZE: usize = 10000;

/// Per-core sources report kHz; multiplying by this factor moves a
/// reading into the common sample unit.
pub const KILO: u64 = 1000;

/// Which operating-system interface supplies samples.
#[derive(Clone, Copy, Debug, PartialEq, Eq, Structural)]
pub enum Interface {
    Procfs,
    Sysfs,
}

impl Default for Interface {
    /// The per-core interface is the default.
    fn default() -> (r: Self)
        ensures
            r == Interface::Sysfs,
    {
        Interface::Sysfs
    }
}

/// How results leave the engine: a live terminal view refreshed on
/// its own cadence, or CSV rows for a bounded duration. Where the
/// log rows go is the caller's concern, not the engine's.
#[derive(Clone, Copy, Debug)]
pub enum Output {
    Monitor { update_freq: Option<u64>, window_size: Option<usize> },
    Log { duration_ms: u64 },
}

impl Default for Output {
    /// A monitor view at the default refresh cadence and window
    /// capacity.
    fn default() -> (r: Self)
        ensures
            (r == Output::Monitor {
                update_freq: Some(DEFAULT_MONITOR_FREQUENCY),
                window_size: Some(DEFAULT_WINDOW_SIZE),
            }),
    {
        Output::Monitor {
            update_freq: Some(DEFAULT_MONITOR_FREQUENCY),
            window_size: Some(DEFAULT_WINDOW_SIZE),
        }
    }
}

/// One run's configuration: which interface, which cores, the sample
/// cadence, and the output mode. Immutable once gathered.
#[derive(Debug)]
pub struct Runner {
    interface: Interface,
    cpuset: HashSet<usize>,
    sample_interval_ms: u64,
    output: Output,
}

impl Runner {
    /// Which interface supplies samples.
    pub closed spec fn spec_interface(&self) -> Interface {
        self.interface
    }

    /// The tracked cores.
    pub closed spec fn spec_cpuset(&self) -> Set<usize> {
        self.cpuset@
    }

    /// Milliseconds between samples.
    pub closed spec fn spec_sample_interval_ms(&self) -> u64 {
        self.sample_interval_ms
    }

    /// The output mode.
    pub closed spec fn spec_output(&self) -> Output {
        self.output
    }

    /// Gather one run's configuration. The sample cadence is given
    /// in milliseconds.
    pub fn new(
        interface: Interface,
        cpuset: HashSet<usize>,
        sample_frequency_ms: u64,
        output: Output,
    ) -> (r: Self)
        ensures
            r.spec_interface() == interface,
            r.spec_cpuset() == cpuset@,
            r.spec_sample_interval_ms() == sample_frequency_ms,
            r.spec_output() == output,
    {
        Self { interface, cpuset, sample_interval_ms: sample_frequency_ms, output }
    }

    /// Which interface supplies samples.
    pub fn interface(&self) -> (r: Interface)
        ensures
            r == self.spec_interface(),
    {
        self.interface
    }

    /// The tracked cores.
    pub fn cpuset(&self) -> (r: &HashSet<usize>)
        ensures
            r@ == self.spec_cpuset(),
    {
        &self.cpuset
    }

    /// Milliseconds between samples.
    pub fn sample_interval_ms(&self) -> (r: u64)
        ensures
            r == self.spec_sample_interval_ms(),
    {
        self.sample_interval_ms
    }

    /// The output mode.
    pub fn output(&self) -> (r: Output)
        ensures
            r == self.spec_output(),
    {
        self.output
    }

    /// Has the display deadline elapsed? The view is redrawn only
    /// once "now" has passed the deadline, never on the tick that
    /// lands exactly on it.
    pub fn display_due(now_ms: u64, deadline_ms: u64) -> (r: bool)
        ensures
            r == (now_ms > deadline_ms),
    {
        now_ms > deadline_ms
    }

    /// The next display deadline, rescheduled from "now" rather than
    /// from the deadline that was missed: the cadence may drift, but
    /// a stall never causes a burst of catch-up renders. Saturates at
    /// the far end of the clock.
    pub fn next_deadline(now_ms: u64, interval_ms: u64) -> (r: u64)
        ensures
            r == if now_ms + interval_ms <= u64::MAX {
                now_ms + interval_ms
            } else {
                u64::MAX as int
            },
    {
        match now_ms.checked_add(interval_ms) {
            Some(d) => d,
            None => u64::MAX,
        }
    }

    /// When a logging run ends: the wall clock at its start plus the
    /// requested duration, measured once. Saturates at the far end
    /// of the clock.
    pub fn log_end_ms(start_ms: u64, duration_ms: u64) -> (r: u64)
        ensures
            r == if start_ms + duration_ms <= u64::MAX {
                start_ms + duration_ms
            } else {
                u64::MAX as int
            },
    {
        match start_ms.checked_add(duration_ms) {
            Some(d) => d,
            None => u64::MAX,
        }
    }

    /// Does a logging run take another tick? It runs while "now" is
    /// strictly before the end; a zero-duration run takes none.
    pub fn log_should_continue(now_ms: u64, end_ms: u64) -> (r: bool)
        ensures
            r == (now_ms < end_ms),
    {
        now_ms < end_ms
    }
}

/// The entries of a sample map as a sequence of key/value pairs in
/// strictly ascending key order: every pair is an entry of the map,
/// and every key of the map appears.
pub open spec fn is_ascending_entries(pairs: Seq<(usize, u64)>, m: Map<usize, u64>) -> bool {
    &&& pairs.len() == m.dom().len()
    &&& forall|i: int|
        0 <= i < pairs.len() ==> m.contains_key((#[trigger] pairs[i]).0) && m[pairs[i].0]
            == pairs[i].1
    &&& forall|i: int, j: int|
        0 <= i < j < pairs.len() ==> (#[trigger] pairs[i]).0 < (#[trigger] pairs[j]).0
    &&& forall|k: usize|
        #[trigger] m.contains_key(k) ==> exists|i: int|
            0 <= i < pairs.len() && (#[trigger] pairs[i]).0 == k
}

/// The core ids among the first `n` pairs.
pub open spec fn entry_key_set(pairs: Seq<(usize, u64)>, n: int) -> Set<usize> {
    Set::new(|k: usize| exists|j: int| 0 <= j < n && (#[trigger] pairs[j]).0 == k)
}

/// A full-length ascending enumeration of a finite map's entries
/// reaches every key: there is no room left to miss one.
proof fn lemma_entries_complete(pairs: Seq<(usize, u64)>, m: Map<usize, u64>)
    requires
        m.dom().finite(),
        pairs.len() == m.dom().len(),
        forall|i: int|
            0 <= i < pairs.len() ==> m.contains_key((#[trigger] pairs[i]).0) && m[pairs[i].0]
                == pairs[i].1,
        forall|i: int, j: int|
            0 <= i < j < pairs.len() ==> (#[trigger] pairs[i]).0 < (#[trigger] pairs[j]).0,
    ensures
        forall|k: usize|
            #[trigger] m.contains_key(k) ==> exists|i: int|
                0 <= i < pairs.len() && (#[trigger] pairs[i]).0 == k,
{
    let keys = pairs.map_values(|p: (usize, u64)| p.0);
    assert(keys.no_duplicates()) by {
        assert(forall|i: int, j: int|
            0 <= i < j < keys.len() ==> #[trigger] keys[i] != #[trigger] keys[j]);
    }
    keys.unique_seq_to_set();
    assert(keys.to_set().subset_of(m.dom())) by {
        assert forall|k: usize| keys.to_set().contains(k) implies m.dom().contains(k) by {
            let i = choose|i: int| 0 <= i < keys.len() && keys[i] == k;
            assert(m.contains_key(pairs[i].0));
        }
    }
    assert forall|k: usize| #[trigger] m.contains_key(k) implies exists|i: int|
        0 <= i < pairs.len() && (#[trigger] pairs[i]).0 == k by {
        if !keys.to_set().contains(k) {
            // the enumeration would fit inside the set with `k`
            // removed, which is too small for it
            assert(keys.to_set().subset_of(m.dom().remove(k)));
            vstd::set_lib::lemma_len_subset(keys.to_set(), m.dom().remove(k));
            assert(m.dom().remove(k).len() == m.dom().len() - 1);
        }
        assert(keys.to_set().contains(k));
        let i = choose|i: int| 0 <= i < keys.len() && keys[i] == k;
        assert(pairs[i].0 == k);
    }
}

/// One poll's samples, as pairs in ascending core-id order.
fn map_pairs(m: &BTreeMap<usize, u64>) -> (r: Vec<(usize, u64)>)
    ensures
        is_ascending_entries(r@, m@),
{
    let mut r: Vec<(usize, u64)> = Vec::new();
    for p in it: m.iter()
        invariant
            r@.len() == it.index(),
            it.seq().len() == m@.dom().len(),
            forall|i: int|
                0 <= i < r@.len() ==> #[trigger] r@[i] == (*it.seq()[i].0, *it.seq()[i].1),
            forall|i: int|
                0 <= i < r@.len() ==> m@.contains_key((#[trigger] r@[i]).0) && m@[r@[i].0]
                    == r@[i].1,
            forall|i: int|
                0 <= i < it.seq().len() ==> m@.contains_key(*(#[trigger] it.seq()[i]).0)
                    && m@[*it.seq()[i].0] == *it.seq()[i].1,
            vstd::laws_cmp::obeys_cmp::<usize>(),
            vstd::std_specs::btree::increasing_seq(
                it.seq().map_values(|kv: (&usize, &u64)| *kv.0),
            ),
            forall|i: int, j: int|
                0 <= i < j < r@.len() ==> (#[trigger] r@[i]).0 < (#[trigger] r@[j]).0,
            it.index() >= it.seq().len() ==> r@.len() == m@.dom().len(),
    {
        let ghost i = it.index() as int;
        r.push((*p.0, *p.1));
        proof {
            assert(p == it.seq()[i]);
            let keys = it.seq().map_values(|kv: (&usize, &u64)| *kv.0);
            assert(forall|a: int, b: int|
                0 <= a < b < keys.len() ==> #[trigger] keys[a].cmp_spec(&keys[b]) is Less);
            assert forall|a: int| 0 <= a < i implies (#[trigger] r@[a]).0 < r@[i as int].0 by {
                assert(keys[a] == *it.seq()[a].0);
                assert(keys[i] == *it.seq()[i].0);
                assert(keys[a].cmp_spec(&keys[i]) is Less);
            }
        }
    }
    proof {
        lemma_entries_complete(r@, m@);
    }
    r
}

impl Runner {
    /// One poll tick's bookkeeping: feed each returned core's sample
    /// into that core's window. A sample for a core without a window
    /// is ignored; a window that gets no sample this tick is left
    /// untouched.
    pub fn feed_samples(stats: &mut BTreeMap<usize, CpuStat>, samples: &BTreeMap<usize, u64>)
        requires
            forall|id: usize|
                old(stats)@.dom().contains(id) ==> (#[trigger] old(stats)@[id]).wf(),
        ensures
            final(stats)@.dom() == old(stats)@.dom(),
            forall|id: usize|
                old(stats)@.dom().contains(id) ==> ({
                    let prev = old(stats)@[id];
                    let st = #[trigger] final(stats)@[id];
                    if samples@.contains_key(id) {
                        &&& st.wf()
                        &&& st.spec_id() == prev.spec_id()
                        &&& st.spec_window_size() == prev.spec_window_size()
                        &&& st.samples() == window_step(
                            prev.samples(),
                            samples@[id],
                            prev.spec_window_size() as nat,
                        )
                    } else {
                        st == prev
                    }
                }),
    {
        let pairs = map_pairs(samples);
        let mut i: usize = 0;
        while i < pairs.len()
            invariant
                0 <= i <= pairs@.len(),
                is_ascending_entries(pairs@, samples@),
                forall|id: usize|
                    old(stats)@.dom().contains(id) ==> (#[trigger] old(stats)@[id]).wf(),
                stats@.dom() == old(stats)@.dom(),
                forall|id: usize|
                    old(stats)@.dom().contains(id) ==> ({
                        let prev = old(stats)@[id];
                        let st = #[trigger] stats@[id];
                        if entry_key_set(pairs@, i as int).contains(id) {
                            &&& st.wf()
                            &&& st.spec_id() == prev.spec_id()
                            &&& st.spec_window_size() == prev.spec_window_size()
                            &&& st.samples() == window_step(
                                prev.samples(),
                                samples@[id],
                                prev.spec_window_size() as nat,
                            )
                        } else {
                            st == prev
                        }
                    }),
            decreases pairs@.len() - i,
        {
            let p = pairs[i];
            let id = p.0;
            let v = p.1;
            proof {
                assert(!entry_key_set(pairs@, i as int).contains(id)) by {
                    if entry_key_set(pairs@, i as int).contains(id) {
                        let j = choose|j: int| 0 <= j < i && (#[trigger] pairs@[j]).0 == id;
                        assert(pairs@[j].0 < pairs@[i as int].0);
                    }
                }
                assert(samples@.contains_key(id) && samples@[id] == v);
            }
            let ghost stats_before = stats@;
            match stats.remove(&id) {
                Some(mut st) => {
                    proof {
                        assert(st == old(stats)@[id]);
                    }
                    st.add_sample(v);
                    stats.insert(id, st);
                    proof {
                        assert(stats@.dom() =~= stats_before.dom());
                    }
                },
                None => {
                    proof {
                        assert(stats@ =~= stats_before);
                    }
                },
            }
            proof {
                assert(entry_key_set(pairs@, i + 1) =~= entry_key_set(pairs@, i as int).insert(
                    id,
                )) by {
                    assert forall|x: usize| entry_key_set(pairs@, i + 1).contains(x) implies
                        entry_key_set(pairs@, i as int).contains(x) || x == id by {
                        let j = choose|j: int| 0 <= j < i + 1 && (#[trigger] pairs@[j]).0 == x;
                        if j < i {
                            assert(entry_key_set(pairs@, i as int).contains(x));
                        }
                    }
                    assert forall|x: usize|
                        entry_key_set(pairs@, i as int).contains(x) || x == id implies
                        entry_key_set(pairs@, i + 1).contains(x) by {
                        if entry_key_set(pairs@, i as int).contains(x) {
                            let j = choose|j: int| 0 <= j < i && (#[trigger] pairs@[j]).0 == x;
                            assert(0 <= j < i + 1 && pairs@[j].0 == x);
                        } else {
                            assert(0 <= i < i + 1 && pairs@[i as int].0 == x);
                        }
                    }
                }
            }
            i = i + 1;
        }
        proof {
            assert forall|id: usize| #[trigger] samples@.contains_key(id) implies entry_key_set(
                pairs@,
                pairs@.len() as int,
            ).contains(id) by {
                let j = choose|j: int|
                    0 <= j < pairs@.len() && (#[trigger] pairs@[j]).0 == id;
                assert(0 <= j < pairs@.len() && pairs@[j].0 == id);
            }
            assert forall|id: usize|
                !samples@.contains_key(id) implies !entry_key_set(
                pairs@,
                pairs@.len() as int,
            ).contains(id) by {
                if entry_key_set(pairs@, pairs@.len() as int).contains(id) {
                    let j = choose|j: int|
                        0 <= j < pairs@.len() && (#[trigger] pairs@[j]).0 == id;
                    assert(samples@.contains_key(pairs@[j].0));
                }
            }
        }
    }
}

/// Ascending order.
pub open spec fn sorted_asc(s: Seq<usize>) -> bool {
    forall|i: int, j: int| 0 <= i < j < s.len() ==> s[i] <= s[j]
}

/// A set of core ids has exactly one ascending, duplicate-free
/// enumeration, so a contract that asks for one names a single
/// sequence: the column order of a header is fully determined by the
/// tracked set.
pub proof fn lemma_ascending_unique(s1: Seq<usize>, s2: Seq<usize>)
    requires
        sorted_asc(s1),
        s1.no_duplicates(),
        sorted_asc(s2),
        s2.no_duplicates(),
        s1.to_set() == s2.to_set(),
    ensures
        s1 =~= s2,
    decreases s1.len(),
{
    if s1.len() == 0 {
        if s2.len() > 0 {
            assert(s2.to_set().contains(s2[0]));
            assert(s1.to_set().contains(s2[0]));
            assert(s1.contains(s2[0]));
        }
        assert(s1 =~= s2);
    } else {
        assert(s1.to_set().contains(s1[0]));
        assert(s2.contains(s1[0]));
        let j = choose|j: int| 0 <= j < s2.len() && s2[j] == s1[0];
        assert(s2[0] <= s2[j]);
        assert(s2.to_set().contains(s2[0]));
        assert(s1.contains(s2[0]));
        let k = choose|k: int| 0 <= k < s1.len() && s1[k] == s2[0];
        assert(s1[0] <= s1[k]);
        assert(s1[0] == s2[0]);
        let t1 = s1.drop_first();
        let t2 = s2.drop_first();
        assert(forall|i: int| 0 <= i < t1.len() ==> #[trigger] t1[i] == s1[i + 1]);
        assert(forall|i: int| 0 <= i < t2.len() ==> #[trigger] t2[i] == s2[i + 1]);
        assert(t1.to_set() =~= t2.to_set()) by {
            assert forall|x: usize| t1.to_set().contains(x) implies t2.to_set().contains(x) by {
                let i = choose|i: int| 0 <= i < t1.len() && t1[i] == x;
                assert(s1[i + 1] == x && x != s1[0]);
                assert(s1.contains(x));
                assert(s1.to_set().contains(x));
                assert(s2.to_set().contains(x));
                assert(s2.contains(x));
                let j2 = choose|j2: int| 0 <= j2 < s2.len() && s2[j2] == x;
                assert(j2 != 0);
                assert(t2[j2 - 1] == x);
            }
            assert forall|x: usize| t2.to_set().contains(x) implies t1.to_set().contains(x) by {
                let i = choose|i: int| 0 <= i < t2.len() && t2[i] == x;
                assert(s2[i + 1] == x && x != s2[0]);
                assert(s2.contains(x));
                assert(s2.to_set().contains(x));
                assert(s1.to_set().contains(x));
                assert(s1.contains(x));
                let j2 = choose|j2: int| 0 <= j2 < s1.len() && s1[j2] == x;
                assert(j2 != 0);
                assert(t1[j2 - 1] == x);
            }
        }
        lemma_ascending_unique(t1, t2);
        assert(s1.len() == s2.len());
        assert forall|i: int| 0 <= i < s1.len() implies s1[i] == s2[i] by {
            if i > 0 {
                assert(t1[i - 1] == s1[i]);
                assert(t2[i - 1] == s2[i]);
            }
        }
        assert(s1 =~= s2);
    }
}

/// A sample map likewise has exactly one ascending enumeration of
/// its entries: a contract that asks for one names a single sequence
/// of pairs, so a record row's cell order and contents are fully
/// determined by the map.
pub proof fn lemma_ascending_entries_unique(
    p1: Seq<(usize, u64)>,
    p2: Seq<(usize, u64)>,
    m: Map<usize, u64>,
)
    requires
        is_ascending_entries(p1, m),
        is_ascending_entries(p2, m),
    ensures
        p1 =~= p2,
{
    let k1 = p1.map_values(|p: (usize, u64)| p.0);
    let k2 = p2.map_values(|p: (usize, u64)| p.0);
    assert(sorted_asc(k1) && k1.no_duplicates()) by {
        assert(forall|i: int, j: int|
            0 <= i < j < k1.len() ==> #[trigger] k1[i] < #[trigger] k1[j]);
    }
    assert(sorted_asc(k2) && k2.no_duplicates()) by {
        assert(forall|i: int, j: int|
            0 <= i < j < k2.len() ==> #[trigger] k2[i] < #[trigger] k2[j]);
    }
    assert(k1.to_set() =~= k2.to_set()) by {
        assert forall|x: usize| k1.to_set().contains(x) implies k2.to_set().contains(x) by {
            let i = choose|i: int| 0 <= i < k1.len() && k1[i] == x;
            assert(m.contains_key(p1[i].0));
            let j = choose|j: int| 0 <= j < p2.len() && (#[trigger] p2[j]).0 == x;
            assert(k2[j] == x);
        }
        assert forall|x: usize| k2.to_set().contains(x) implies k1.to_set().contains(x) by {
            let i = choose|i: int| 0 <= i < k2.len() && k2[i] == x;
            assert(m.contains_key(p2[i].0));
            let j = choose|j: int| 0 <= j < p1.len() && (#[trigger] p1[j]).0 == x;
            assert(k1[j] == x);
        }
    }
    lemma_ascending_unique(k1, k2);
    assert forall|i: int| 0 <= i < p1.len() implies p1[i] == p2[i] by {
        assert(k1[i] == p1[i].0 && k2[i] == p2[i].0);
        assert(p1[i].1 == m[p1[i].0] && p2[i].1 == m[p2[i].0]);
    }
    assert(p1 =~= p2);
}

/// The ids of the tracked core set, in whatever order the set hands
/// them out.
fn cpuset_ids(cpuset: &HashSet<usize>) -> (r: Vec<usize>)
    ensures
        r@.no_duplicates(),
        r@.to_set() == cpuset@,
{
    let mut r: Vec<usize> = Vec::new();
    for id in it: cpuset.iter()
        invariant
            r@ == it.seq().take(it.index() as int).unref(),
            it.seq().unref().to_set() == cpuset@,
            it.seq().no_duplicates(),
            it.index() >= it.seq().len() ==> (r@.no_duplicates() && r@.to_set() == cpuset@),
    {
        let ghost i = it.index() as int;
        r.push(*id);
        proof {
            assert(id == it.seq()[i]);
            assert(r@ =~= it.seq().take(i + 1).unref());
            assert(i + 1 == it.seq().len() ==> it.seq().take(i + 1) =~= it.seq());
            assert forall|a: int, b: int| 0 <= a < b < r@.len() implies r@[a] != r@[b] by {
                assert(r@[a] == *it.seq()[a] && r@[b] == *it.seq()[b]);
                assert(it.seq()[a] != it.seq()[b]);
            }
        }
    }
    r
}

/// Insert one id at its place in an ascending, duplicate-free
/// vector.
fn insert_sorted(r: &mut Vec<usize>, x: usize)
    requires
        sorted_asc(old(r)@),
        old(r)@.no_duplicates(),
        !old(r)@.to_set().contains(x),
    ensures
        sorted_asc(final(r)@),
        final(r)@.no_duplicates(),
        final(r)@.len() == old(r)@.len() + 1,
        final(r)@.to_set() == old(r)@.to_set().insert(x),
{
    let mut p: usize = 0;
    while p < r.len() && r[p] < x
        invariant
            0 <= p <= r@.len(),
            r@ == old(r)@,
            forall|i: int| 0 <= i < p ==> #[trigger] r@[i] < x,
        decreases r@.len() - p,
    {
        p = p + 1;
    }
    let ghost before = r@;
    proof {
        if p < before.len() {
            assert(!before.to_set().contains(x) ==> before[p as int] != x) by {
                assert(before.to_set().contains(before[p as int]));
            }
        }
    }
    r.insert(p, x);
    proof {
        assert forall|i: int| 0 <= i < r@.len() implies #[trigger] r@[i] == (if i < p {
            before[i]
        } else if i == p {
            x
        } else {
            before[i - 1]
        }) by {
            if i < p {
                assert(r@[i] == before.subrange(0, p as int).push(x)[i]);
            }
        }
        assert forall|i: int, j: int| 0 <= i < j < r@.len() implies r@[i] <= r@[j] by {
            if j < p {
            } else if i < p && j == p {
                assert(r@[i] == before[i] && before[i] < x);
            } else if i < p && j > p {
                assert(before[i] < x && x <= before[j - 1]);
            } else if i == p && j > p {
                assert(x <= before[j - 1]) by {
                    assert(p < before.len() ==> x <= before[p as int]);
                    assert(before[p as int] <= before[j - 1]);
                }
            }
        }
        assert forall|i: int, j: int| 0 <= i < j < r@.len() implies r@[i] != r@[j] by {
            if i == p || j == p {
                assert(!before.to_set().contains(x));
                if i != p {
                    assert(before.to_set().contains(before[i]));
                }
                if j != p {
                    assert(before.to_set().contains(before[if j < p { j } else { j - 1 }]));
                }
            }
        }
        assert forall|y: usize| r@.to_set().contains(y) implies before.to_set().contains(y) || y
            == x by {
            let i = choose|i: int| 0 <= i < r@.len() && r@[i] == y;
            if i != p {
                assert(before.contains(before[if i < p { i } else { i - 1 }]));
            }
        }
        assert forall|y: usize| before.to_set().contains(y) || y == x implies
            r@.to_set().contains(y) by {
            if before.to_set().contains(y) {
                let i = choose|i: int| 0 <= i < before.len() && before[i] == y;
                if i < p {
                    assert(r@[i] == y);
                } else {
                    assert(r@[i + 1] == y);
                }
            } else {
                assert(r@[p as int] == y);
            }
        }
        assert(r@.to_set() =~= before.to_set().insert(x));
    }
}

/// The ids in ascending order.
fn sort_ids(ids: &Vec<usize>) -> (r: Vec<usize>)
    requires
        ids@.no_duplicates(),
    ensures
        sorted_asc(r@),
        r@.no_duplicates(),
        r@.len() == ids@.len(),
        r@.to_set() == ids@.to_set(),
{
    let mut r: Vec<usize> = Vec::new();
    let mut i: usize = 0;
    proof {
        assert(r@.to_set() =~= ids@.take(0).to_set());
    }
    while i < ids.len()
        invariant
            0 <= i <= ids@.len(),
            ids@.no_duplicates(),
            sorted_asc(r@),
            r@.no_duplicates(),
            r@.len() == i,
            r@.to_set() == ids@.take(i as int).to_set(),
        decreases ids@.len() - i,
    {
        let x = ids[i];
        proof {
            assert(!r@.to_set().contains(x)) by {
                if r@.to_set().contains(x) {
                    let j = choose|j: int|
                        0 <= j < i && ids@.take(i as int)[j] == x;
                    assert(ids@[j] == x && ids@[i as int] == x);
                }
            }
        }
        insert_sorted(&mut r, x);
        proof {
            assert(ids@.take(i + 1) =~= ids@.take(i as int).push(x));
            ids@.take(i as int).lemma_push_to_set_commute(x);
        }
        i = i + 1;
    }
    proof {
        assert(ids@.take(ids@.len() as int) =~= ids@);
    }
    r
}

/// A CSV header for a core set: the labels `cpu{N}`, one per tracked
/// core, in ascending core-id order.
pub open spec fn is_cpu_header(labels: Seq<String>, ids: Seq<usize>, set: Set<usize>) -> bool {
    &&& ids.no_duplicates()
    &&& sorted_asc(ids)
    &&& ids.to_set() == set
    &&& labels.len() == ids.len()
    &&& forall|i: int|
        0 <= i < ids.len() ==> (#[trigger] labels[i])@ == "cpu"@ + dec_chars(ids[i] as int)
}

impl Runner {
    /// The CSV header row: one `cpu{N}` column name per tracked
    /// core, in ascending core-id order.
    pub fn get_log_header(cpuset: &HashSet<usize>) -> (r: Vec<String>)
        ensures
            r@.len() == cpuset@.len(),
            exists|ids: Seq<usize>| #[trigger] is_cpu_header(r@, ids, cpuset@),
    {
        let ids = cpuset_ids(cpuset);
        let sorted = sort_ids(&ids);
        let mut r: Vec<String> = Vec::new();
        let mut i: usize = 0;
        while i < sorted.len()
            invariant
                0 <= i <= sorted@.len(),
                r@.len() == i,
                forall|k: int|
                    0 <= k < i ==> (#[trigger] r@[k])@ == "cpu"@ + dec_chars(sorted@[k] as int),
            decreases sorted@.len() - i,
        {
            let id = sorted[i];
            let mut label = "cpu".to_owned();
            let digits = u64_to_dec_string(id as u64);
            label.append(digits.as_str());
            r.push(label);
            i = i + 1;
        }
        proof {
            assert(is_cpu_header(r@, sorted@, cpuset@));
            ids@.unique_seq_to_set();
        }
        r
    }

    /// One CSV data row: the tick's samples in ascending core-id
    /// order, each rendered in decimal.
    pub fn format_record(samples: &BTreeMap<usize, u64>) -> (r: Vec<String>)
        ensures
            r@.len() == samples@.dom().len(),
            exists|pairs: Seq<(usize, u64)>|
                {
                    &&& #[trigger] is_ascending_entries(pairs, samples@)
                    &&& r@.len() == pairs.len()
                    &&& forall|i: int|
                        0 <= i < pairs.len() ==> (#[trigger] r@[i])@ == dec_chars(
                            pairs[i].1 as int,
                        )
                },
    {
        let pairs = map_pairs(samples);
        let mut r: Vec<String> = Vec::new();
        let mut i: usize = 0;
        while i < pairs.len()
            invariant
                0 <= i <= pairs@.len(),
                is_ascending_entries(pairs@, samples@),
                r@.len() == i,
                forall|k: int|
                    0 <= k < i ==> (#[trigger] r@[k])@ == dec_chars(pairs@[k].1 as int),
            decreases pairs@.len() - i,
        {
            let p = pairs[i];
            r.push(u64_to_dec_string(p.1));
            i = i + 1;
        }
        proof {
            assert(is_ascending_entries(pairs@, samples@) && r@.len() == pairs@.len() && forall|
                i: int,
            |
                0 <= i < pairs@.len() ==> (#[trigger] r@[i])@ == dec_chars(pairs@[i].1 as int));
        }
        r
    }
}

} // verus!
