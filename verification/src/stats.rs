//! Data model: per-device counters, the name-to-counters mapping, and the
//! timestamped snapshot that groups them.

use vstd::prelude::*;

verus! {

/// Cumulative receive / transmit byte counters of one interface, as
/// reported by the kernel since interface initialization.
#[derive(Debug, Clone, Copy, PartialEq, Eq, Structural)]
pub struct DeviceStatistics {
    pub rx: u64,
    pub tx: u64,
}

/// `a - b` modulo 2^64.
pub open spec fn spec_wrap_sub(a: u64, b: u64) -> u64 {
    if b <= a {
        (a - b) as u64
    } else {
        (a - b + 0x1_0000_0000_0000_0000) as u64
    }
}

/// Componentwise `a - b` modulo 2^64.
pub open spec fn spec_subtract(a: DeviceStatistics, b: DeviceStatistics) -> DeviceStatistics {
    DeviceStatistics { rx: spec_wrap_sub(a.rx, b.rx), tx: spec_wrap_sub(a.tx, b.tx) }
}

/// Pointwise subtraction of two counter pairs.
///
/// The counters are unsigned and may have wrapped (an interface reset
/// makes the new counter smaller than the old one); subtraction wraps
/// accordingly rather than failing.
pub fn subtract_statistics(a: DeviceStatistics, b: DeviceStatistics) -> (r: DeviceStatistics)
    ensures
        r == spec_subtract(a, b),
        r.rx == (if b.rx <= a.rx { a.rx - b.rx } else { a.rx - b.rx + 0x1_0000_0000_0000_0000 }),
        r.tx == (if b.tx <= a.tx { a.tx - b.tx } else { a.tx - b.tx + 0x1_0000_0000_0000_0000 }),
{
    DeviceStatistics { rx: a.rx.wrapping_sub(b.rx), tx: a.tx.wrapping_sub(b.tx) }
}

/// One named interface with its counters.
#[derive(Debug)]
pub struct DeviceEntry {
    pub name: Vec<u8>,
    pub stats: DeviceStatistics,
}

/// No two entries of `es` carry the same name.
pub open spec fn distinct_names(es: Seq<(Seq<u8>, DeviceStatistics)>) -> bool {
    forall|i: int, j: int| 0 <= i < j < es.len() ==> es[i].0 != es[j].0
}

/// The mapping denoted by an entry sequence; a later entry for the same
/// name overrides an earlier one.
pub open spec fn map_of_seq(es: Seq<(Seq<u8>, DeviceStatistics)>) -> Map<
    Seq<u8>,
    DeviceStatistics,
>
    decreases es.len(),
{
    if es.len() == 0 {
        Map::empty()
    } else {
        map_of_seq(es.drop_last()).insert(es.last().0, es.last().1)
    }
}

/// A name is in the denoted mapping exactly when some entry carries it.
pub proof fn lemma_map_of_seq_dom(es: Seq<(Seq<u8>, DeviceStatistics)>)
    ensures
        forall|n: Seq<u8>|
            #[trigger] map_of_seq(es).dom().contains(n) <==> (exists|k: int|
                0 <= k < es.len() && es[k].0 == n),
    decreases es.len(),
{
    if es.len() > 0 {
        lemma_map_of_seq_dom(es.drop_last());
        assert forall|n: Seq<u8>| #[trigger]
            map_of_seq(es).dom().contains(n) implies (exists|k: int|
            0 <= k < es.len() && es[k].0 == n) by {
            if n == es.last().0 {
                assert(es[es.len() - 1].0 == n);
            } else {
                assert(map_of_seq(es.drop_last()).dom().contains(n));
                let k = choose|k: int| 0 <= k < es.drop_last().len() && es.drop_last()[k].0 == n;
                assert(es[k].0 == n);
            }
        }
        assert forall|n: Seq<u8>| (exists|k: int|
            0 <= k < es.len() && es[k].0 == n) implies #[trigger]
        map_of_seq(es).dom().contains(n) by {
            let k = choose|k: int| 0 <= k < es.len() && es[k].0 == n;
            if k < es.len() - 1 {
                assert(es.drop_last()[k].0 == n);
                assert(map_of_seq(es.drop_last()).dom().contains(n));
            }
        }
    }
}

/// Under distinct names, each entry's counters are what the denoted
/// mapping holds for its name.
pub proof fn lemma_map_of_seq_at(es: Seq<(Seq<u8>, DeviceStatistics)>, k: int)
    requires
        distinct_names(es),
        0 <= k < es.len(),
    ensures
        map_of_seq(es).dom().contains(es[k].0),
        map_of_seq(es)[es[k].0] == es[k].1,
    decreases es.len(),
{
    lemma_map_of_seq_dom(es);
    if k < es.len() - 1 {
        assert(es[k].0 != es.last().0);
        lemma_map_of_seq_at(es.drop_last(), k);
        assert(es.drop_last()[k] == es[k]);
    }
}

/// The name-to-counters mapping of one snapshot: a list of uniquely named
/// entries, queried by name.
#[derive(Debug)]
pub struct DeviceRates {
    pub entries: Vec<DeviceEntry>,
}

impl DeviceRates {
    /// The stored entries as plain values, in stored order.
    pub open spec fn as_entries(self) -> Seq<(Seq<u8>, DeviceStatistics)> {
        self.entries@.map_values(|e: DeviceEntry| (e.name@, e.stats))
    }

    /// The mapping the entries denote.
    pub open spec fn as_map(self) -> Map<Seq<u8>, DeviceStatistics> {
        map_of_seq(self.as_entries())
    }

    /// Entry names are unique.
    pub open spec fn wf(self) -> bool {
        distinct_names(self.as_entries())
    }

    pub fn new() -> (r: DeviceRates)
        ensures
            r.as_entries() == Seq::<(Seq<u8>, DeviceStatistics)>::empty(),
            r.as_map() == Map::<Seq<u8>, DeviceStatistics>::empty(),
            r.wf(),
    {
        let r = DeviceRates { entries: Vec::new() };
        proof {
            assert(r.as_entries() =~= Seq::<(Seq<u8>, DeviceStatistics)>::empty());
        }
        r
    }

    pub fn len(&self) -> (r: usize)
        ensures
            r == self.as_entries().len(),
    {
        self.entries.len()
    }

    /// The position of the first entry named `name`, if any.
    fn position_of(&self, name: &Vec<u8>) -> (r: Option<usize>)
        ensures
            r matches Some(p) ==> p < self.as_entries().len() && self.as_entries()[p as int].0
                == name@,
            r is None ==> forall|k: int|
                0 <= k < self.as_entries().len() ==> self.as_entries()[k].0 != name@,
    {
        let mut i: usize = 0;
        while i < self.entries.len()
            invariant
                0 <= i <= self.entries@.len(),
                forall|k: int| 0 <= k < i ==> self.as_entries()[k].0 != name@,
            decreases self.entries@.len() - i,
        {
            if bytes_eq(&self.entries[i].name, name) {
                return Some(i);
            }
            i = i + 1;
        }
        None
    }

    /// Looks a name up in the mapping.
    pub fn get(&self, name: &Vec<u8>) -> (r: Option<DeviceStatistics>)
        requires
            self.wf(),
        ensures
            r is Some <==> self.as_map().dom().contains(name@),
            r matches Some(st) ==> st == self.as_map()[name@],
    {
        proof {
            lemma_map_of_seq_dom(self.as_entries());
        }
        match self.position_of(name) {
            Some(p) => {
                proof {
                    lemma_map_of_seq_at(self.as_entries(), p as int);
                }
                Some(self.entries[p].stats)
            },
            None => None,
        }
    }

    /// Binds `name` to `stats`: overrides the counters of an existing
    /// entry with that name, otherwise appends a new entry.
    pub fn insert(&mut self, name: Vec<u8>, stats: DeviceStatistics)
        requires
            old(self).wf(),
        ensures
            final(self).wf(),
            final(self).as_map() == old(self).as_map().insert(name@, stats),
            !old(self).as_map().dom().contains(name@) ==> final(self).as_entries() == old(self).as_entries().push((name@, stats)),
            old(self).as_map().dom().contains(name@) ==> {
                &&& final(self).as_entries().len() == old(self).as_entries().len()
                &&& forall|k: int|
                    0 <= k < old(self).as_entries().len()
                        ==> #[trigger] final(self).as_entries()[k] == (
                    if old(self).as_entries()[k].0 == name@ {
                        (name@, stats)
                    } else {
                        old(self).as_entries()[k]
                    })
            },
    {
        let ghost nv = name@;
        proof {
            lemma_map_of_seq_dom(self.as_entries());
        }
        match self.position_of(&name) {
            Some(p) => {
                self.entries[p] = DeviceEntry { name, stats };
                proof {
                    let oes = old(self).as_entries();
                    let nes = self.as_entries();
                    assert forall|k: int| 0 <= k < oes.len() implies #[trigger] nes[k] == (if oes[k].0
                        == nv {
                        (nv, stats)
                    } else {
                        oes[k]
                    }) by {
                        if k != p {
                            assert(oes[k].0 != oes[p as int].0);
                        }
                    }
                    lemma_insert_pointwise(oes, nes, nv, stats);
                }
            },
            None => {
                self.entries.push(DeviceEntry { name, stats });
                proof {
                    let oes = old(self).as_entries();
                    let nes = self.as_entries();
                    assert(nes =~= oes.push((nv, stats)));
                    assert(nes.drop_last() =~= oes);
                    lemma_map_of_seq_dom(nes);
                }
            },
        }
    }
}

/// Pointwise replacement of one name's counters leaves a distinct-name
/// sequence distinct and inserts into the denoted mapping.
proof fn lemma_insert_pointwise(
    oes: Seq<(Seq<u8>, DeviceStatistics)>,
    nes: Seq<(Seq<u8>, DeviceStatistics)>,
    n: Seq<u8>,
    stats: DeviceStatistics,
)
    requires
        distinct_names(oes),
        nes.len() == oes.len(),
        forall|k: int|
            0 <= k < oes.len() ==> #[trigger] nes[k] == (if oes[k].0 == n {
                (n, stats)
            } else {
                oes[k]
            }),
        exists|k: int| 0 <= k < oes.len() && oes[k].0 == n,
    ensures
        distinct_names(nes),
        map_of_seq(nes) == map_of_seq(oes).insert(n, stats),
{
    assert forall|i: int, j: int| 0 <= i < j < nes.len() implies nes[i].0 != nes[j].0 by {
        assert(nes[i].0 == oes[i].0 && nes[j].0 == oes[j].0);
    }
    let p = choose|k: int| 0 <= k < oes.len() && oes[k].0 == n;
    lemma_map_of_seq_dom(oes);
    lemma_map_of_seq_dom(nes);
    assert forall|m: Seq<u8>| #[trigger]
        map_of_seq(nes).dom().contains(m) implies map_of_seq(oes).insert(n, stats).dom().contains(
        m,
    ) by {
        let k = choose|k: int| 0 <= k < nes.len() && nes[k].0 == m;
        if m != n {
            assert(oes[k].0 == m);
        }
    }
    assert forall|m: Seq<u8>| #[trigger]
        map_of_seq(oes).insert(n, stats).dom().contains(m) implies map_of_seq(nes).dom().contains(
        m,
    ) by {
        if m == n {
            assert(nes[p].0 == n);
        } else {
            let k = choose|k: int| 0 <= k < oes.len() && oes[k].0 == m;
            assert(nes[k].0 == m);
        }
    }
    assert forall|m: Seq<u8>| #[trigger] map_of_seq(nes).dom().contains(m) implies map_of_seq(nes)[m]
        == map_of_seq(oes).insert(n, stats)[m] by {
        if m == n {
            assert(nes[p] == (n, stats));
            lemma_map_of_seq_at(nes, p);
        } else {
            let k = choose|k: int| 0 <= k < nes.len() && nes[k].0 == m;
            assert(oes[k].0 == m && nes[k] == oes[k]);
            lemma_map_of_seq_at(nes, k);
            lemma_map_of_seq_at(oes, k);
        }
    }
    assert(map_of_seq(nes) =~= map_of_seq(oes).insert(n, stats));
}

/// A copy of `v[from..to]`.
pub(crate) fn copy_range(v: &Vec<u8>, from: usize, to: usize) -> (r: Vec<u8>)
    requires
        from <= to <= v@.len(),
    ensures
        r@ == v@.subrange(from as int, to as int),
{
    let mut r: Vec<u8> = Vec::new();
    let mut i: usize = from;
    while i < to
        invariant
            from <= i <= to <= v@.len(),
            r@ == v@.subrange(from as int, i as int),
        decreases to - i,
    {
        r.push(v[i]);
        proof {
            assert(r@ =~= v@.subrange(from as int, i as int + 1));
        }
        i = i + 1;
    }
    r
}

/// Appends a copy of `b` to `out`.
pub(crate) fn append_bytes(out: &mut Vec<u8>, b: &Vec<u8>)
    ensures
        final(out)@ == old(out)@ + b@,
{
    let mut i: usize = 0;
    while i < b.len()
        invariant
            0 <= i <= b@.len(),
            out@ == old(out)@ + b@.take(i as int),
        decreases b@.len() - i,
    {
        out.push(b[i]);
        proof {
            assert(out@ =~= old(out)@ + b@.take(i as int + 1));
        }
        i = i + 1;
    }
    proof {
        assert(old(out)@ + b@.take(b@.len() as int) =~= old(out)@ + b@);
    }
}

/// A copy of a byte string.
pub(crate) fn clone_bytes(v: &Vec<u8>) -> (r: Vec<u8>)
    ensures
        r@ == v@,
{
    let mut r: Vec<u8> = Vec::new();
    let mut i: usize = 0;
    while i < v.len()
        invariant
            0 <= i <= v@.len(),
            r@ == v@.take(i as int),
        decreases v@.len() - i,
    {
        r.push(v[i]);
        proof {
            assert(r@ =~= v@.take(i as int + 1));
        }
        i = i + 1;
    }
    proof {
        assert(v@.take(v@.len() as int) =~= v@);
    }
    r
}

/// Byte-string equality.
pub(crate) fn bytes_eq(a: &Vec<u8>, b: &Vec<u8>) -> (r: bool)
    ensures
        r <==> a@ == b@,
{
    if a.len() != b.len() {
        return false;
    }
    let mut i: usize = 0;
    while i < a.len()
        invariant
            a@.len() == b@.len(),
            0 <= i <= a@.len(),
            forall|k: int| 0 <= k < i ==> a@[k] == b@[k],
        decreases a@.len() - i,
    {
        if a[i] != b[i] {
            return false;
        }
        i = i + 1;
    }
    proof {
        assert(a@ =~= b@);
    }
    true
}

/// All counters as observed at one instant, plus when they were observed
/// (milliseconds since the Unix epoch).
#[derive(Debug)]
pub struct StatisticsSnapshot {
    pub timestamp_ms: u64,
    pub devices: DeviceRates,
}

impl StatisticsSnapshot {
    pub open spec fn wf(self) -> bool {
        self.devices.wf()
    }
}

/// Relies on chrono::Utc::now and chrono::DateTime::timestamp_millis: the
/// current wall-clock time as milliseconds since the Unix epoch. Nothing
/// is promised of the value; callers treat it as arbitrary. Utc::now
/// itself panics on a system clock set before the Unix epoch, which
/// Linux (the only platform with the counter table this crate reads)
/// does not permit; chrono offers no non-panicking variant of it.
#[verifier::external_body]
pub(crate) fn now_unix_millis() -> u64 {
    chrono::Utc::now().timestamp_millis() as u64
}

} // verus!
