//! Report renderer: the aligned two-column rate table.
//!
//! Rows follow the ordering policy — by total magnitude descending with
//! ties in stored order, or alphabetically by name — over the ordering
//! source's full device set; a device without a delta row is skipped.

use vstd::prelude::*;

use crate::scale::{
    binary_prefixes, bits_rate, bytes_rate, decimal_prefixes, format_scaled, lemma_pow_mono, pow_of,
    scale, scale_steps, spec_format_scaled, ScaledValue,
};
use crate::stats::{
    append_bytes, bytes_eq, clone_bytes, DeviceRates, DeviceStatistics, StatisticsSnapshot,
};

verus! {

/// `n` copies of the byte `c`.
pub open spec fn spec_repeated(c: u8, n: nat) -> Seq<u8> {
    Seq::new(n, |i: int| c)
}

/// A string of `n` copies of `c`.
pub fn make_repeated_string(c: u8, n: usize) -> (r: Vec<u8>)
    ensures
        r@ == spec_repeated(c, n as nat),
{
    let mut r: Vec<u8> = Vec::new();
    let mut i: usize = 0;
    while i < n
        invariant
            0 <= i <= n,
            r@ == spec_repeated(c, i as nat),
        decreases n - i,
    {
        r.push(c);
        proof {
            assert(r@ =~= spec_repeated(c, i as nat + 1));
        }
        i = i + 1;
    }
    r
}

/// Strict lexicographic byte order.
pub open spec fn lex_lt(a: Seq<u8>, b: Seq<u8>) -> bool
    decreases a.len(),
{
    if b.len() == 0 {
        false
    } else if a.len() == 0 {
        true
    } else if a[0] < b[0] {
        true
    } else if a[0] > b[0] {
        false
    } else {
        lex_lt(a.drop_first(), b.drop_first())
    }
}

pub proof fn lemma_lex_total(a: Seq<u8>, b: Seq<u8>)
    ensures
        lex_lt(a, b) || lex_lt(b, a) || a == b,
    decreases a.len(),
{
    if a.len() > 0 && b.len() > 0 && a[0] == b[0] {
        lemma_lex_total(a.drop_first(), b.drop_first());
        if !lex_lt(a, b) && !lex_lt(b, a) {
            assert(a.drop_first() == b.drop_first());
            assert(a =~= b) by {
                assert(forall|i: int|
                    1 <= i < a.len() ==> a[i] == a.drop_first()[i - 1] && b[i] == b.drop_first()[i
                        - 1]);
            }
        }
    }
}

pub proof fn lemma_lex_trans(a: Seq<u8>, b: Seq<u8>, c: Seq<u8>)
    requires
        lex_lt(a, b),
        lex_lt(b, c),
    ensures
        lex_lt(a, c),
    decreases a.len(),
{
    if a.len() > 0 && b.len() > 0 && c.len() > 0 && a[0] == b[0] && b[0] == c[0] {
        lemma_lex_trans(a.drop_first(), b.drop_first(), c.drop_first());
    }
}

/// Strict total row order on two distinct entry positions: by summed
/// magnitude descending with ties in stored order, or by name with ties
/// in stored order.
pub open spec fn row_order(
    es: Seq<(Seq<u8>, DeviceStatistics)>,
    by_stat: bool,
    i: int,
    j: int,
) -> bool {
    if by_stat {
        let si = es[i].1.rx + es[i].1.tx;
        let sj = es[j].1.rx + es[j].1.tx;
        si > sj || (si == sj && i < j)
    } else {
        lex_lt(es[i].0, es[j].0) || (es[i].0 == es[j].0 && i < j)
    }
}

proof fn lemma_row_order_total(es: Seq<(Seq<u8>, DeviceStatistics)>, by_stat: bool, i: int, j: int)
    requires
        0 <= i < es.len(),
        0 <= j < es.len(),
        i != j,
    ensures
        row_order(es, by_stat, i, j) || row_order(es, by_stat, j, i),
{
    if !by_stat {
        lemma_lex_total(es[i].0, es[j].0);
    }
}

proof fn lemma_row_order_trans(
    es: Seq<(Seq<u8>, DeviceStatistics)>,
    by_stat: bool,
    i: int,
    j: int,
    k: int,
)
    requires
        row_order(es, by_stat, i, j),
        row_order(es, by_stat, j, k),
    ensures
        row_order(es, by_stat, i, k),
{
    if !by_stat {
        if lex_lt(es[i].0, es[j].0) && lex_lt(es[j].0, es[k].0) {
            lemma_lex_trans(es[i].0, es[j].0, es[k].0);
        }
    }
}

/// `ps` lists every entry position exactly once, in row order.
pub open spec fn sorted_positions(
    es: Seq<(Seq<u8>, DeviceStatistics)>,
    by_stat: bool,
    ps: Seq<int>,
) -> bool {
    &&& ps.len() == es.len()
    &&& forall|k: int| 0 <= k < ps.len() ==> 0 <= #[trigger] ps[k] < es.len()
    &&& forall|a: int, b: int| 0 <= a < b < ps.len() ==> row_order(es, by_stat, ps[a], ps[b])
    &&& forall|p: int| 0 <= p < es.len() ==> #[trigger] ps.contains(p)
}

/// Does row `i` come before row `j`?
fn row_order_exec(rates: &DeviceRates, by_stat: bool, i: usize, j: usize) -> (r: bool)
    requires
        i < rates.as_entries().len(),
        j < rates.as_entries().len(),
    ensures
        r == row_order(rates.as_entries(), by_stat, i as int, j as int),
{
    proof {
        assert(rates.as_entries()[i as int] == (rates.entries@[i as int].name@,
        rates.entries@[i as int].stats));
        assert(rates.as_entries()[j as int] == (rates.entries@[j as int].name@,
        rates.entries@[j as int].stats));
    }
    if by_stat {
        let ei = &rates.entries[i];
        let ej = &rates.entries[j];
        let si: u128 = ei.stats.rx as u128 + ei.stats.tx as u128;
        let sj: u128 = ej.stats.rx as u128 + ej.stats.tx as u128;
        si > sj || (si == sj && i < j)
    } else {
        let ni = &rates.entries[i].name;
        let nj = &rates.entries[j].name;
        if bytes_lt(ni, nj) {
            true
        } else {
            bytes_eq(ni, nj) && i < j
        }
    }
}

/// Strict lexicographic comparison of two byte strings.
fn bytes_lt(a: &Vec<u8>, b: &Vec<u8>) -> (r: bool)
    ensures
        r == lex_lt(a@, b@),
{
    let mut i: usize = 0;
    proof {
        assert(a@.skip(0) =~= a@);
        assert(b@.skip(0) =~= b@);
    }
    loop
        invariant
            0 <= i <= a@.len(),
            i <= b@.len(),
            forall|k: int| 0 <= k < i ==> a@[k] == b@[k],
            lex_lt(a@, b@) == lex_lt(a@.skip(i as int), b@.skip(i as int)),
        decreases a@.len() - i,
    {
        if i >= a.len() || i >= b.len() {
            return i >= a.len() && i < b.len();
        }
        let x = a[i];
        let y = b[i];
        if x < y {
            return true;
        }
        if x > y {
            return false;
        }
        proof {
            assert(a@.skip(i as int).drop_first() =~= a@.skip(i as int + 1));
            assert(b@.skip(i as int).drop_first() =~= b@.skip(i as int + 1));
        }
        i = i + 1;
    }
}

/// The entry positions of `rates`, in row order (a stable ordering: ties
/// keep stored order).
fn sort_positions(rates: &DeviceRates, by_stat: bool) -> (r: Vec<usize>)
    ensures
        sorted_positions(
            rates.as_entries(),
            by_stat,
            r@.map_values(|u: usize| u as int),
        ),
{
    let ghost es = rates.as_entries();
    let mut out: Vec<usize> = Vec::new();
    let mut p: usize = 0;
    while p < rates.entries.len()
        invariant
            0 <= p <= es.len(),
            es == rates.as_entries(),
            out@.len() == p,
            forall|k: int| 0 <= k < out@.len() ==> #[trigger] out@[k] < p,
            forall|a: int, b: int|
                0 <= a < b < out@.len() ==> row_order(es, by_stat, out@[a] as int, out@[b] as int),
            forall|q: usize| q < p ==> #[trigger] out@.contains(q),
        decreases es.len() - p,
    {
        let mut pos: usize = 0;
        while pos < out.len()
            invariant
                0 <= pos <= out@.len(),
                0 <= p < es.len(),
                es == rates.as_entries(),
                forall|k: int| 0 <= k < out@.len() ==> #[trigger] out@[k] < p,
                forall|a: int, b: int|
                    0 <= a < b < out@.len() ==> row_order(
                        es,
                        by_stat,
                        out@[a] as int,
                        out@[b] as int,
                    ),
                forall|k: int| 0 <= k < pos ==> row_order(es, by_stat, out@[k] as int, p as int),
            ensures
                0 <= pos <= out@.len(),
                forall|k: int| 0 <= k < pos ==> row_order(es, by_stat, out@[k] as int, p as int),
                forall|k: int|
                    pos <= k < out@.len() ==> row_order(es, by_stat, p as int, out@[k] as int),
            decreases out@.len() - pos,
        {
            if row_order_exec(rates, by_stat, out[pos], p) {
                pos = pos + 1;
            } else {
                proof {
                    lemma_row_order_total(es, by_stat, out@[pos as int] as int, p as int);
                    assert forall|k: int|
                        pos <= k < out@.len() implies row_order(
                        es,
                        by_stat,
                        p as int,
                        out@[k] as int,
                    ) by {
                        if k > pos {
                            lemma_row_order_trans(
                                es,
                                by_stat,
                                p as int,
                                out@[pos as int] as int,
                                out@[k] as int,
                            );
                        }
                    }
                }
                break ;
            }
        }
        let ghost old_out = out@;
        out.insert(pos, p);
        proof {
            assert(out@ =~= old_out.insert(pos as int, p));
            assert forall|a: int, b: int|
                0 <= a < b < out@.len() implies row_order(
                es,
                by_stat,
                out@[a] as int,
                out@[b] as int,
            ) by {
                if b < pos {
                } else if a >= pos + 1 {
                    assert(out@[a] == old_out[a - 1] && out@[b] == old_out[b - 1]);
                } else if a < pos && b == pos {
                    assert(out@[a] == old_out[a] && out@[b] == p);
                } else if a == pos && b > pos {
                    assert(out@[a] == p && out@[b] == old_out[b - 1]);
                } else if a < pos && b > pos {
                    assert(out@[a] == old_out[a] && out@[b] == old_out[b - 1]);
                }
            }
            assert forall|q: usize| q < p + 1 implies #[trigger] out@.contains(q) by {
                if q == p {
                    assert(out@[pos as int] == q);
                } else {
                    assert(old_out.contains(q));
                    let k0 = choose|k: int| 0 <= k < old_out.len() && old_out[k] == q;
                    if k0 < pos {
                        assert(out@[k0] == q);
                    } else {
                        assert(out@[k0 + 1] == q);
                    }
                }
            }
        }
        p = p + 1;
    }
    proof {
        let ps = out@.map_values(|u: usize| u as int);
        assert forall|a: int, b: int| 0 <= a < b < ps.len() implies row_order(
            es,
            by_stat,
            ps[a],
            ps[b],
        ) by {
            assert(ps[a] == out@[a] as int && ps[b] == out@[b] as int);
        }
        assert forall|k: int| 0 <= k < ps.len() implies 0 <= #[trigger] ps[k] < es.len() by {
            assert(ps[k] == out@[k] as int);
        }
        assert forall|q: int| 0 <= q < es.len() implies #[trigger] ps.contains(q) by {
            assert(out@.contains(q as usize));
            let k0 = choose|k: int| 0 <= k < out@.len() && out@[k] == q as usize;
            assert(ps[k0] == q);
        }
        assert(sorted_positions(es, by_stat, ps));
    }
    out
}

/// The device names of a snapshot, in row order.
pub fn get_sorted_ifs(db: &StatisticsSnapshot, sort_by_stat: bool) -> (r: Vec<Vec<u8>>)
    ensures
        exists|ps: Seq<int>|
            {
                &&& #[trigger] sorted_positions(db.devices.as_entries(), sort_by_stat, ps)
                &&& r@.len() == ps.len()
                &&& forall|k: int|
                    0 <= k < ps.len() ==> #[trigger] r@[k]@ == db.devices.as_entries()[ps[k]].0
            },
{
    let ghost es = db.devices.as_entries();
    let positions = sort_positions(&db.devices, sort_by_stat);
    let ghost ps = positions@.map_values(|u: usize| u as int);
    let mut r: Vec<Vec<u8>> = Vec::new();
    let mut k: usize = 0;
    while k < positions.len()
        invariant
            0 <= k <= positions@.len(),
            es == db.devices.as_entries(),
            ps == positions@.map_values(|u: usize| u as int),
            sorted_positions(es, sort_by_stat, ps),
            r@.len() == k,
            forall|m: int| 0 <= m < k ==> #[trigger] r@[m]@ == es[ps[m]].0,
        decreases positions@.len() - k,
    {
        proof {
            assert(ps[k as int] == positions@[k as int] as int);
            assert(0 <= ps[k as int] < es.len());
            assert(es[ps[k as int]] == (db.devices.entries@[ps[k as int]].name@,
            db.devices.entries@[ps[k as int]].stats));
        }
        let name = clone_bytes(&db.devices.entries[positions[k]].name);
        r.push(name);
        k = k + 1;
    }
    r
}


/// The binary prefix reached after `k` divisions.
pub open spec fn bin_prefix_seq(k: nat) -> Seq<u8> {
    if k == 0 {
        Seq::empty()
    } else if k == 1 {
        seq![75u8, 105]  // Ki
    } else if k == 2 {
        seq![77u8, 105]  // Mi
    } else if k == 3 {
        seq![71u8, 105]  // Gi
    } else {
        seq![84u8, 105]  // Ti
    }
}

/// The decimal prefix reached after `k` divisions.
pub open spec fn dec_prefix_seq(k: nat) -> Seq<u8> {
    if k == 0 {
        Seq::empty()
    } else if k == 1 {
        seq![75u8]  // K
    } else if k == 2 {
        seq![77u8]  // M
    } else if k == 3 {
        seq![71u8]  // G
    } else {
        seq![84u8]  // T
    }
}

/// The ladder walk never divides more often than the ladder is long.
pub proof fn lemma_steps_le_rem(num: nat, den: nat, factor: nat, rem: nat)
    ensures
        scale_steps(num, den, factor, rem) <= rem,
    decreases rem,
{
    if !(rem == 0 || num <= factor * den) {
        lemma_steps_le_rem(num, den * factor, factor, (rem - 1) as nat);
    }
}

/// One displayed quantity: the byte rate in binary units and the bit
/// rate in decimal units, both to two decimal places, e.g.
/// `1.00 KiB/s (8.19 Kbit/s)`. A zero interval makes both rates
/// non-finite and leaves them unscaled.
pub open spec fn spec_cell(count: u64, interval_ms: u64) -> Seq<u8> {
    let bk: nat = if interval_ms == 0 {
        0
    } else {
        scale_steps((count * 1000) as nat, interval_ms as nat, 1024, 4)
    };
    let dk: nat = if interval_ms == 0 {
        0
    } else {
        scale_steps((count * 8000) as nat, interval_ms as nat, 1000, 4)
    };
    spec_format_scaled((count * 1000) as nat, (interval_ms * pow_of(1024, bk)) as nat) + seq![32u8]
        + bin_prefix_seq(bk) + seq![66u8, 47, 115, 32, 40] + spec_format_scaled(
        (count * 8000) as nat,
        (interval_ms * pow_of(1000, dk)) as nat,
    ) + seq![32u8] + dec_prefix_seq(dk) + seq![98u8, 105, 116, 47, 115, 41]
}

/// Renders one count over an interval as bytes and bits per second.
#[verifier::rlimit(100)]
pub fn render_cell(count: u64, interval_ms: u64) -> (r: Vec<u8>)
    ensures
        r@ == spec_cell(count, interval_ms),
{
    proof {
        assert(pow_of(1024, 1) == 1024 * pow_of(1024, 0));
        assert(pow_of(1024, 2) == 1024 * pow_of(1024, 1));
        assert(pow_of(1024, 3) == 1024 * pow_of(1024, 2));
        assert(pow_of(1024, 4) == 1024 * pow_of(1024, 3));
        assert(pow_of(1000, 1) == 1000 * pow_of(1000, 0));
        assert(pow_of(1000, 2) == 1000 * pow_of(1000, 1));
        assert(pow_of(1000, 3) == 1000 * pow_of(1000, 2));
        assert(pow_of(1000, 4) == 1000 * pow_of(1000, 3));
        assert(pow_of(1024, 4) == 1099511627776);
        assert(pow_of(1000, 4) == 1000000000000);
        assert(interval_ms * pow_of(1024, 4) <= u128::MAX);
        assert(interval_ms * pow_of(1000, 4) <= u128::MAX);
        lemma_steps_le_rem((count * 1000) as nat, interval_ms as nat, 1024, 4);
        lemma_steps_le_rem((count * 8000) as nat, interval_ms as nat, 1000, 4);
        if interval_ms > 0 {
            let bk = scale_steps((count * 1000) as nat, interval_ms as nat, 1024, 4);
            let dk = scale_steps((count * 8000) as nat, interval_ms as nat, 1000, 4);
            lemma_pow_mono(1024, bk, 4);
            lemma_pow_mono(1000, dk, 4);
            assert(interval_ms * pow_of(1024, bk) <= interval_ms * pow_of(1024, 4))
                by (nonlinear_arith)
                requires
                    pow_of(1024, bk) <= pow_of(1024, 4),
                    interval_ms >= 0,
            ;
            assert(interval_ms * pow_of(1000, dk) <= interval_ms * pow_of(1000, 4))
                by (nonlinear_arith)
                requires
                    pow_of(1000, dk) <= pow_of(1000, 4),
                    interval_ms >= 0,
            ;
        }
    }
    let bp = binary_prefixes();
    let (sbv, sbp) = scale(bytes_rate(count, interval_ms), &bp, 1024);
    let dp = decimal_prefixes();
    let (sdv, sdp) = scale(bits_rate(count, interval_ms), &dp, 1000);
    let mut out = format_scaled(sbv);
    out.push(32);
    append_bytes(&mut out, &sbp);
    out.push(66);
    out.push(47);
    out.push(115);
    out.push(32);
    out.push(40);
    let fd = format_scaled(sdv);
    append_bytes(&mut out, &fd);
    out.push(32);
    append_bytes(&mut out, &sdp);
    out.push(98);
    out.push(105);
    out.push(116);
    out.push(47);
    out.push(115);
    out.push(41);
    proof {
        assert(out@ =~= spec_cell(count, interval_ms));
    }
    out
}

/// The longest name in an entry sequence.
pub open spec fn max_name_len(es: Seq<(Seq<u8>, DeviceStatistics)>) -> nat
    decreases es.len(),
{
    if es.len() == 0 {
        0
    } else if es.last().0.len() > max_name_len(es.drop_last()) {
        es.last().0.len()
    } else {
        max_name_len(es.drop_last())
    }
}

/// The name column width: the longest name across the full device set,
/// floored at 10.
pub open spec fn spec_name_width(es: Seq<(Seq<u8>, DeviceStatistics)>) -> nat {
    if max_name_len(es) > 10 {
        max_name_len(es)
    } else {
        10
    }
}

/// Computes the name column width of a device set.
pub fn name_width(rates: &DeviceRates) -> (w: usize)
    ensures
        w == spec_name_width(rates.as_entries()),
{
    let ghost es = rates.as_entries();
    let mut m: usize = 10;
    let mut i: usize = 0;
    proof {
        assert(es.take(0) =~= Seq::<(Seq<u8>, DeviceStatistics)>::empty());
    }
    while i < rates.entries.len()
        invariant
            0 <= i <= es.len(),
            es == rates.as_entries(),
            m == spec_name_width(es.take(i as int)),
            m >= 10,
        decreases es.len() - i,
    {
        proof {
            assert(es[i as int] == (rates.entries@[i as int].name@,
            rates.entries@[i as int].stats));
            assert(es.take(i as int + 1).drop_last() =~= es.take(i as int));
            assert(es.take(i as int + 1).last() == es[i as int]);
        }
        let l = rates.entries[i].name.len();
        if l > m {
            m = l;
        }
        i = i + 1;
    }
    proof {
        assert(es.take(es.len() as int) =~= es);
    }
    m
}

/// `s` pushed to the right edge of a field `w` wide (left-padded with
/// spaces; an over-long value is not truncated).
pub open spec fn right_align(s: Seq<u8>, w: nat) -> Seq<u8> {
    if s.len() >= w {
        s
    } else {
        spec_repeated(32, (w - s.len()) as nat) + s
    }
}

/// `s` centered in a field `w` wide, the odd space going to the right.
pub open spec fn center(s: Seq<u8>, w: nat) -> Seq<u8> {
    if s.len() >= w {
        s
    } else {
        let pad = (w - s.len()) as nat;
        spec_repeated(32, pad / 2) + s + spec_repeated(32, (pad - pad / 2) as nat)
    }
}

/// One data field: a leading separator space, then either a blank field
/// (a zero count under `hide_zero`) or the right-aligned cell.
pub open spec fn spec_field(c: u64, interval_ms: u64, hide_zero: bool) -> Seq<u8> {
    seq![32u8] + (if hide_zero && c == 0 {
        spec_repeated(32, 30)
    } else {
        right_align(spec_cell(c, interval_ms), 30)
    })
}

/// One device row: the right-aligned name, the receive and transmit
/// fields, and a newline.
pub open spec fn spec_row(
    name: Seq<u8>,
    st: DeviceStatistics,
    w: nat,
    interval_ms: u64,
    hide_zero: bool,
) -> Seq<u8> {
    right_align(name, w) + spec_field(st.rx, interval_ms, hide_zero) + spec_field(
        st.tx,
        interval_ms,
        hide_zero,
    ) + seq![10u8]
}

/// The header row: `Interface`, `Receive`, `Transmit`.
pub open spec fn spec_header(w: nat) -> Seq<u8> {
    right_align(seq![73u8, 110, 116, 101, 114, 102, 97, 99, 101], w) + seq![32u8] + center(
        seq![82u8, 101, 99, 101, 105, 118, 101],
        30,
    ) + seq![32u8] + center(seq![84u8, 114, 97, 110, 115, 109, 105, 116], 30) + seq![10u8]
}

/// The rows from position-list index `k` on: a row per listed device
/// that has a delta, nothing for one that has none.
pub open spec fn spec_rows(
    es: Seq<(Seq<u8>, DeviceStatistics)>,
    dmap: Map<Seq<u8>, DeviceStatistics>,
    ps: Seq<int>,
    k: int,
    w: nat,
    interval_ms: u64,
    hide_zero: bool,
) -> Seq<u8>
    decreases ps.len() - k,
    when 0 <= k <= ps.len()
{
    if k >= ps.len() {
        Seq::empty()
    } else {
        (if 0 <= ps[k] < es.len() && dmap.dom().contains(es[ps[k]].0) {
            spec_row(es[ps[k]].0, dmap[es[ps[k]].0], w, interval_ms, hide_zero)
        } else {
            Seq::empty()
        }) + spec_rows(es, dmap, ps, k + 1, w, interval_ms, hide_zero)
    }
}

/// The whole report over a given row order.
pub open spec fn spec_report(
    es: Seq<(Seq<u8>, DeviceStatistics)>,
    dmap: Map<Seq<u8>, DeviceStatistics>,
    ps: Seq<int>,
    interval_ms: u64,
    hide_zero: bool,
) -> Seq<u8> {
    spec_header(spec_name_width(es)) + spec_rows(
        es,
        dmap,
        ps,
        0,
        spec_name_width(es),
        interval_ms,
        hide_zero,
    )
}

/// Appends `s`, right-aligned in a field `w` wide.
fn push_right_aligned(out: &mut Vec<u8>, s: &Vec<u8>, w: usize)
    ensures
        final(out)@ == old(out)@ + right_align(s@, w as nat),
{
    if s.len() < w {
        let pad = make_repeated_string(32, w - s.len());
        append_bytes(out, &pad);
    }
    append_bytes(out, s);
    proof {
        assert(out@ =~= old(out)@ + right_align(s@, w as nat));
    }
}

/// Appends `s`, centered in a field `w` wide.
fn push_centered(out: &mut Vec<u8>, s: &Vec<u8>, w: usize)
    ensures
        final(out)@ == old(out)@ + center(s@, w as nat),
{
    if s.len() < w {
        let pad = w - s.len();
        let left = make_repeated_string(32, pad / 2);
        append_bytes(out, &left);
        append_bytes(out, s);
        let right = make_repeated_string(32, pad - pad / 2);
        append_bytes(out, &right);
    } else {
        append_bytes(out, s);
    }
    proof {
        assert(out@ =~= old(out)@ + center(s@, w as nat));
    }
}

/// Appends one data field.
fn push_field(out: &mut Vec<u8>, c: u64, interval_ms: u64, hide_zero: bool)
    ensures
        final(out)@ == old(out)@ + spec_field(c, interval_ms, hide_zero),
{
    out.push(32);
    if hide_zero && c == 0 {
        let blank = make_repeated_string(32, 30);
        append_bytes(out, &blank);
    } else {
        let cell = render_cell(c, interval_ms);
        push_right_aligned(out, &cell, 30);
    }
    proof {
        assert(out@ =~= old(out)@ + spec_field(c, interval_ms, hide_zero));
    }
}

/// Renders the whole report: a header, then one row per device of the
/// ordering source that has a delta, in the configured row order.
#[verifier::rlimit(100)]
pub fn render_report(
    deltas: &DeviceRates,
    db: &StatisticsSnapshot,
    interval_ms: u64,
    hide_zero_values: bool,
    sort_by_stat: bool,
) -> (r: Vec<u8>)
    requires
        deltas.wf(),
    ensures
        exists|ps: Seq<int>|
            {
                &&& #[trigger] sorted_positions(db.devices.as_entries(), sort_by_stat, ps)
                &&& r@ == spec_report(
                    db.devices.as_entries(),
                    deltas.as_map(),
                    ps,
                    interval_ms,
                    hide_zero_values,
                )
            },
{
    let ghost es = db.devices.as_entries();
    let ghost dmap = deltas.as_map();
    let w = name_width(&db.devices);
    let mut out: Vec<u8> = Vec::new();
    let mut label: Vec<u8> = Vec::new();
    label.push(73);
    label.push(110);
    label.push(116);
    label.push(101);
    label.push(114);
    label.push(102);
    label.push(97);
    label.push(99);
    label.push(101);
    proof {
        assert(label@ =~= seq![73u8, 110, 116, 101, 114, 102, 97, 99, 101]);
    }
    push_right_aligned(&mut out, &label, w);
    out.push(32);
    let mut label: Vec<u8> = Vec::new();
    label.push(82);
    label.push(101);
    label.push(99);
    label.push(101);
    label.push(105);
    label.push(118);
    label.push(101);
    proof {
        assert(label@ =~= seq![82u8, 101, 99, 101, 105, 118, 101]);
    }
    push_centered(&mut out, &label, 30);
    out.push(32);
    let mut label: Vec<u8> = Vec::new();
    label.push(84);
    label.push(114);
    label.push(97);
    label.push(110);
    label.push(115);
    label.push(109);
    label.push(105);
    label.push(116);
    proof {
        assert(label@ =~= seq![84u8, 114, 97, 110, 115, 109, 105, 116]);
    }
    push_centered(&mut out, &label, 30);
    out.push(10);
    proof {
        assert(out@ =~= spec_header(w as nat));
    }
    let positions = sort_positions(&db.devices, sort_by_stat);
    let ghost ps = positions@.map_values(|u: usize| u as int);
    let ghost full = spec_report(es, dmap, ps, interval_ms, hide_zero_values);
    proof {
        assert(out@ + spec_rows(es, dmap, ps, 0, w as nat, interval_ms, hide_zero_values)
            =~= full);
    }
    let mut k: usize = 0;
    while k < positions.len()
        invariant
            0 <= k <= positions@.len(),
            es == db.devices.as_entries(),
            dmap == deltas.as_map(),
            deltas.wf(),
            ps == positions@.map_values(|u: usize| u as int),
            sorted_positions(es, sort_by_stat, ps),
            w as nat == spec_name_width(es),
            out@ + spec_rows(es, dmap, ps, k as int, w as nat, interval_ms, hide_zero_values)
                == full,
        decreases positions@.len() - k,
    {
        let p = positions[k];
        proof {
            assert(ps[k as int] == positions@[k as int] as int);
            assert(0 <= ps[k as int] < es.len());
            assert(es[p as int] == (db.devices.entries@[p as int].name@,
            db.devices.entries@[p as int].stats));
        }
        let name = &db.devices.entries[p].name;
        match deltas.get(name) {
            Some(st) => {
                push_right_aligned(&mut out, name, w);
                push_field(&mut out, st.rx, interval_ms, hide_zero_values);
                push_field(&mut out, st.tx, interval_ms, hide_zero_values);
                out.push(10);
                proof {
                    assert(out@ + spec_rows(
                        es,
                        dmap,
                        ps,
                        k as int + 1,
                        w as nat,
                        interval_ms,
                        hide_zero_values,
                    ) =~= full);
                }
            },
            None => {
                proof {
                    assert(out@ + spec_rows(
                        es,
                        dmap,
                        ps,
                        k as int + 1,
                        w as nat,
                        interval_ms,
                        hide_zero_values,
                    ) =~= full);
                }
            },
        }
        k = k + 1;
    }
    proof {
        assert(spec_rows(es, dmap, ps, positions@.len() as int, w as nat, interval_ms,
            hide_zero_values) =~= Seq::<u8>::empty());
        assert(out@ =~= full);
    }
    out
}

} // verus!
