//! Rate engine: per-device deltas between two snapshots and the elapsed
//! interval between their timestamps.

use vstd::prelude::*;

use crate::stats::{
    clone_bytes, lemma_map_of_seq_at, lemma_map_of_seq_dom, spec_subtract, subtract_statistics,
    DeviceRates, DeviceStatistics,
};
use crate::Error;

verus! {

/// Per-device deltas `new[device] - old[device]`.
///
/// The result holds exactly the names present in both inputs; a device
/// without a baseline in `old` (and one no longer present in `new`) is
/// dropped. Subtraction wraps on counters that decreased.
pub fn subtract_device_rates(a: &DeviceRates, b: &DeviceRates) -> (r: DeviceRates)
    requires
        a.wf(),
        b.wf(),
    ensures
        r.wf(),
        r.as_map().dom() == a.as_map().dom().intersect(b.as_map().dom()),
        forall|n: Seq<u8>|
            #[trigger] r.as_map().dom().contains(n) ==> r.as_map()[n] == spec_subtract(
                a.as_map()[n],
                b.as_map()[n],
            ),
{
    let mut r = DeviceRates::new();
    let mut i: usize = 0;
    proof {
        lemma_map_of_seq_dom(a.as_entries());
    }
    while i < a.entries.len()
        invariant
            a.wf(),
            b.wf(),
            r.wf(),
            0 <= i <= a.as_entries().len(),
            forall|n: Seq<u8>|
                #[trigger] r.as_map().dom().contains(n) <==> ((exists|k: int|
                    0 <= k < i && a.as_entries()[k].0 == n) && b.as_map().dom().contains(n)),
            forall|n: Seq<u8>|
                #[trigger] r.as_map().dom().contains(n) ==> r.as_map()[n] == spec_subtract(
                    a.as_map()[n],
                    b.as_map()[n],
                ),
        decreases a.as_entries().len() - i,
    {
        let entry = &a.entries[i];
        proof {
            lemma_map_of_seq_at(a.as_entries(), i as int);
        }
        match b.get(&entry.name) {
            Some(baseline) => {
                let delta = subtract_statistics(entry.stats, baseline);
                let name = clone_bytes(&entry.name);
                proof {
                    assert(name@ =~= a.as_entries()[i as int].0);
                }
                r.insert(name, delta);
                proof {
                    assert forall|n: Seq<u8>| #[trigger]
                        r.as_map().dom().contains(n) implies ((exists|k: int|
                        0 <= k < i + 1 && a.as_entries()[k].0 == n)
                        && b.as_map().dom().contains(n)) by {
                        if n == a.as_entries()[i as int].0 {
                            assert(a.as_entries()[i as int].0 == n);
                        }
                    }
                }
            },
            None => {
                proof {
                    assert forall|n: Seq<u8>| #[trigger]
                        r.as_map().dom().contains(n) implies ((exists|k: int|
                        0 <= k < i + 1 && a.as_entries()[k].0 == n)
                        && b.as_map().dom().contains(n)) by {}
                    assert forall|n: Seq<u8>| ((exists|k: int|
                        0 <= k < i + 1 && a.as_entries()[k].0 == n) && b.as_map().dom().contains(
                        n,
                    )) implies #[trigger] r.as_map().dom().contains(n) by {
                        let k = choose|k: int| 0 <= k < i + 1 && a.as_entries()[k].0 == n;
                        if k == i {
                            assert(!b.as_map().dom().contains(n));
                        }
                    }
                }
            },
        }
        i = i + 1;
    }
    proof {
        assert forall|n: Seq<u8>| #[trigger] r.as_map().dom().contains(n) implies a.as_map().dom()
            .intersect(b.as_map().dom()).contains(n) by {}
        assert forall|n: Seq<u8>| a.as_map().dom().intersect(b.as_map().dom()).contains(
            n,
        ) implies #[trigger] r.as_map().dom().contains(n) by {
            assert(a.as_map().dom().contains(n));
        }
        assert(r.as_map().dom() =~= a.as_map().dom().intersect(b.as_map().dom()));
    }
    r
}

/// Elapsed milliseconds from `old_ts` to `new_ts`.
///
/// A clock that went backward (or a corrupted stored timestamp) makes the
/// interval negative: that is a hard error, never clamped to zero.
pub fn interval_between(new_ts: u64, old_ts: u64) -> (r: Result<u64, Error>)
    ensures
        r is Ok <==> old_ts <= new_ts,
        r matches Ok(ms) ==> ms == new_ts - old_ts,
        r is Err ==> r == Result::<u64, Error>::Err(Error::NegativeInterval),
{
    if new_ts >= old_ts {
        Ok(new_ts - old_ts)
    } else {
        Err(Error::NegativeInterval)
    }
}

/// Diffing a mapping against itself leaves every one of its devices in
/// place, with all-zero deltas: the keys survive and the rates vanish.
pub proof fn lemma_self_diff_zero(m: Map<Seq<u8>, DeviceStatistics>, d: Map<Seq<u8>, DeviceStatistics>)
    requires
        d.dom() == m.dom().intersect(m.dom()),
        forall|n: Seq<u8>| #[trigger] d.dom().contains(n) ==> d[n] == spec_subtract(m[n], m[n]),
    ensures
        d.dom() == m.dom(),
        forall|n: Seq<u8>|
            #[trigger] d.dom().contains(n) ==> d[n] == (DeviceStatistics { rx: 0, tx: 0 }),
{
    assert(m.dom().intersect(m.dom()) =~= m.dom());
}

} // verus!
