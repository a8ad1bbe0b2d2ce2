//! Snapshot store: the history file's self-describing textual format.
//!
//! A snapshot is persisted as
//! `{"timestamp_ms":N,"devices":{"name":{"rx":N,"tx":N},...}}`.
//! `save_snapshot` produces exactly these bytes; `load_snapshot` accepts
//! exactly them and reports `CorruptStore` for anything else. Quote and
//! backslash bytes inside a device name are backslash-escaped, so every
//! name round-trips.

use vstd::prelude::*;

use crate::digits::{
    dec_rep, dec_val, is_digit, lemma_dec_rep_digits, lemma_dec_val_of_rep, push_dec_u64,
};
use crate::stats::{
    append_bytes, copy_range, distinct_names, DeviceRates, DeviceStatistics, StatisticsSnapshot,
};
use crate::Error;

verus! {

/// `{"timestamp_ms":`
pub open spec fn lit_header() -> Seq<u8> {
    seq![123u8, 34, 116, 105, 109, 101, 115, 116, 97, 109, 112, 95, 109, 115, 34, 58]
}

/// `,"devices":{`
pub open spec fn lit_devices() -> Seq<u8> {
    seq![44u8, 34, 100, 101, 118, 105, 99, 101, 115, 34, 58, 123]
}

/// `":{"rx":`
pub open spec fn lit_name_close() -> Seq<u8> {
    seq![34u8, 58, 123, 34, 114, 120, 34, 58]
}

/// `,"tx":`
pub open spec fn lit_tx() -> Seq<u8> {
    seq![44u8, 34, 116, 120, 34, 58]
}

/// How one name byte is embedded between the quotes: a quote or
/// backslash byte gets a backslash escape, any other byte stands as
/// itself.
pub open spec fn esc_byte(b: u8) -> Seq<u8> {
    if b == 34 || b == 92 {
        seq![92u8, b]
    } else {
        seq![b]
    }
}

/// A whole name as embedded between the quotes.
pub open spec fn esc_name(n: Seq<u8>) -> Seq<u8>
    decreases n.len(),
{
    if n.len() == 0 {
        Seq::empty()
    } else {
        esc_byte(n[0]) + esc_name(n.drop_first())
    }
}

/// The bytes of one `"name":{"rx":N,"tx":N}` entry, the name escaped.
pub open spec fn encode_entry(n: Seq<u8>, st: DeviceStatistics) -> Seq<u8> {
    seq![34u8] + (esc_name(n) + (lit_name_close() + (dec_rep(st.rx as nat) + (lit_tx() + (dec_rep(
        st.tx as nat,
    ) + seq![125u8])))))
}

/// The bytes of one or more entries, comma-separated.
pub open spec fn encode_join(es: Seq<(Seq<u8>, DeviceStatistics)>) -> Seq<u8>
    decreases es.len(),
    when es.len() >= 1
{
    encode_entry(es[0].0, es[0].1) + (if es.len() == 1 {
        Seq::<u8>::empty()
    } else {
        seq![44u8] + encode_join(es.drop_first())
    })
}

/// The bytes of an entry list, possibly empty.
pub open spec fn encode_entries(es: Seq<(Seq<u8>, DeviceStatistics)>) -> Seq<u8> {
    if es.len() == 0 {
        Seq::empty()
    } else {
        encode_join(es)
    }
}

/// The bytes of a whole snapshot.
pub open spec fn encode_snapshot(ts: u64, es: Seq<(Seq<u8>, DeviceStatistics)>) -> Seq<u8> {
    lit_header() + (dec_rep(ts as nat) + (lit_devices() + (encode_entries(es) + seq![
        125u8,
        125u8,
    ])))
}

/// The first position at or after `i` holding a non-digit, or the end.
pub open spec fn digits_end(s: Seq<u8>, i: int) -> int
    decreases s.len() - i,
    when 0 <= i <= s.len()
{
    if i >= s.len() || !is_digit(s[i]) {
        i
    } else {
        digits_end(s, i + 1)
    }
}

proof fn lemma_digits_end(s: Seq<u8>, i: int)
    requires
        0 <= i <= s.len(),
    ensures
        i <= digits_end(s, i) <= s.len(),
        forall|k: int| i <= k < digits_end(s, i) ==> is_digit(s[k]),
        digits_end(s, i) == s.len() || !is_digit(s[digits_end(s, i)]),
    decreases s.len() - i,
{
    if !(i >= s.len() || !is_digit(s[i])) {
        lemma_digits_end(s, i + 1);
    }
}

proof fn lemma_digits_end_charac(s: Seq<u8>, i: int, j: int)
    requires
        0 <= i <= j <= s.len(),
        forall|k: int| i <= k < j ==> is_digit(s[k]),
        j == s.len() || !is_digit(s[j]),
    ensures
        digits_end(s, i) == j,
    decreases j - i,
{
    if i < j {
        assert(is_digit(s[i]));
        lemma_digits_end_charac(s, i + 1, j);
    }
}

/// The position of the closing quote of the name region starting at
/// `i`: the first unescaped quote, stepping over backslash escapes
/// pairwise. A region with no closing quote, or one cut off inside an
/// escape, ends at the line's end and is unterminated.
pub open spec fn esc_end(s: Seq<u8>, i: int) -> int
    decreases s.len() - i,
    when 0 <= i <= s.len()
{
    if i >= s.len() {
        i
    } else if s[i] == 34 {
        i
    } else if s[i] != 92 {
        esc_end(s, i + 1)
    } else if i + 2 <= s.len() {
        esc_end(s, i + 2)
    } else {
        s.len() as int
    }
}

proof fn lemma_esc_end_bounds(s: Seq<u8>, i: int)
    requires
        0 <= i <= s.len(),
    ensures
        i <= esc_end(s, i) <= s.len(),
    decreases s.len() - i,
{
    if i < s.len() && s[i] != 34 {
        if s[i] != 92 {
            lemma_esc_end_bounds(s, i + 1);
        } else if i + 2 <= s.len() {
            lemma_esc_end_bounds(s, i + 2);
        }
    }
}

/// The name the bytes between `i` and `e` denote, escapes resolved (a
/// dangling escape just before `e` contributes nothing).
pub open spec fn unesc_range(s: Seq<u8>, i: int, e: int) -> Seq<u8>
    decreases e - i,
    when 0 <= i <= e
{
    if i >= e {
        Seq::empty()
    } else if s[i] == 92 && i + 1 < e {
        seq![s[i + 1]] + unesc_range(s, i + 2, e)
    } else if s[i] == 92 {
        Seq::empty()
    } else {
        seq![s[i]] + unesc_range(s, i + 1, e)
    }
}

/// An escaped name region followed by a quote scans and decodes back to
/// the name that was escaped, whatever bytes it holds.
proof fn lemma_esc_region(s: Seq<u8>, i: int, n: Seq<u8>)
    requires
        0 <= i,
        i + esc_name(n).len() < s.len(),
        s.subrange(i, i + esc_name(n).len()) == esc_name(n),
        s[i + esc_name(n).len()] == 34,
    ensures
        esc_end(s, i) == i + esc_name(n).len(),
        unesc_range(s, i, i + esc_name(n).len()) == n,
    decreases n.len(),
{
    let l = esc_name(n).len() as int;
    if n.len() == 0 {
        assert(s.subrange(i, i) =~= Seq::<u8>::empty());
    } else {
        let b = n[0];
        let eb = esc_byte(b);
        let rest = esc_name(n.drop_first());
        assert(esc_name(n) == eb + rest);
        lemma_split_at(s, i, eb, rest);
        if b == 34 || b == 92 {
            assert(s[i] == 92 && s[i + 1] == b) by {
                assert(s.subrange(i, i + 2)[0] == s[i]);
                assert(s.subrange(i, i + 2)[1] == s[i + 1]);
            }
            lemma_esc_region(s, i + 2, n.drop_first());
            assert(unesc_range(s, i, i + l) =~= n);
        } else {
            assert(s[i] == b) by {
                assert(s.subrange(i, i + 1)[0] == s[i]);
            }
            lemma_esc_region(s, i + 1, n.drop_first());
            assert(unesc_range(s, i, i + l) =~= n);
        }
    }
}

/// Does `lit` occur verbatim at position `i` of `s`?
pub open spec fn match_lit(s: Seq<u8>, i: int, lit: Seq<u8>) -> bool {
    0 <= i && i + lit.len() <= s.len() && s.subrange(i, i + lit.len()) == lit
}

/// The number at position `i`: a maximal non-empty digit run whose value
/// fits in a `u64`, and the position just past it.
pub open spec fn parse_number(s: Seq<u8>, i: int) -> Option<(u64, int)> {
    if !(0 <= i <= s.len()) {
        None
    } else {
        let e = digits_end(s, i);
        if e == i {
            None
        } else if dec_val(s.subrange(i, e)) > u64::MAX {
            None
        } else {
            Some((dec_val(s.subrange(i, e)) as u64, e))
        }
    }
}

/// One `"name":{"rx":N,"tx":N}` entry at position `i`, and the position
/// just past it.
pub open spec fn parse_entry(s: Seq<u8>, i: int) -> Option<((Seq<u8>, DeviceStatistics), int)> {
    if !(0 <= i < s.len() && s[i] == 34) {
        None
    } else {
        let qe = esc_end(s, i + 1);
        if qe >= s.len() {
            None
        } else {
            let n = unesc_range(s, i + 1, qe);
            if !match_lit(s, qe, lit_name_close()) {
                None
            } else {
                match parse_number(s, qe + 8) {
                    Option::None => None,
                    Option::Some((rx, p)) => if !match_lit(s, p, lit_tx()) {
                        None
                    } else {
                        match parse_number(s, p + 6) {
                            Option::None => None,
                            Option::Some((tx, q)) => if q < s.len() && s[q] == 125 {
                                Some(((n, DeviceStatistics { rx, tx }), q + 1))
                            } else {
                                None
                            },
                        }
                    },
                }
            }
        }
    }
}

proof fn lemma_parse_entry_advances(s: Seq<u8>, i: int)
    requires
        parse_entry(s, i) is Some,
    ensures
        i < parse_entry(s, i)->Some_0.1 <= s.len(),
{
    lemma_esc_end_bounds(s, i + 1);
    let qe = esc_end(s, i + 1);
    if qe < s.len() && match_lit(s, qe, lit_name_close()) {
        lemma_digits_end(s, qe + 8);
        if parse_number(s, qe + 8) is Some {
            let p = parse_number(s, qe + 8)->Some_0.1;
            if match_lit(s, p, lit_tx()) {
                lemma_digits_end(s, p + 6);
            }
        }
    }
}

/// A comma-separated run of entries starting at `i`, and the position
/// just past its last entry.
pub open spec fn parse_entries(s: Seq<u8>, i: int) -> Option<
    (Seq<(Seq<u8>, DeviceStatistics)>, int),
>
    decreases s.len() - i,
    when 0 <= i <= s.len()
    via parse_entries_decreases
{
    match parse_entry(s, i) {
        Option::None => None,
        Option::Some((e, p)) => if p < s.len() && s[p] == 44 {
            match parse_entries(s, p + 1) {
                Option::None => None,
                Option::Some((es, q)) => Some((seq![e] + es, q)),
            }
        } else {
            Some((seq![e], p))
        },
    }
}

#[via_fn]
proof fn parse_entries_decreases(s: Seq<u8>, i: int) {
    if parse_entry(s, i) is Some {
        lemma_parse_entry_advances(s, i);
    }
}

/// A whole snapshot: header, timestamp, device object, nothing after.
pub open spec fn parse_snapshot(s: Seq<u8>) -> Option<(u64, Seq<(Seq<u8>, DeviceStatistics)>)> {
    if !match_lit(s, 0, lit_header()) {
        None
    } else {
        match parse_number(s, 16) {
            Option::None => None,
            Option::Some((ts, p)) => if !match_lit(s, p, lit_devices()) {
                None
            } else {
                let q = p + 12;
                if q < s.len() && s[q] == 125 {
                    if q + 2 == s.len() && s[q + 1] == 125 {
                        Some((ts, Seq::empty()))
                    } else {
                        None
                    }
                } else {
                    match parse_entries(s, q) {
                        Option::None => None,
                        Option::Some((es, r)) => if r + 2 == s.len() && s[r] == 125 && s[r + 1]
                            == 125 {
                            Some((ts, es))
                        } else {
                            None
                        },
                    }
                }
            },
        }
    }
}

/// What a raw entry list leaves in a mapping that absorbs it entry by
/// entry, front to back.
pub open spec fn fold_insert(
    acc: Seq<(Seq<u8>, DeviceStatistics)>,
    raw: Seq<(Seq<u8>, DeviceStatistics)>,
) -> Seq<(Seq<u8>, DeviceStatistics)>
    decreases raw.len(),
{
    if raw.len() == 0 {
        acc
    } else {
        fold_insert(crate::reader::spec_insert(acc, raw[0].0, raw[0].1), raw.drop_first())
    }
}

/// Absorbing a distinct-named list into a disjoint accumulator just
/// appends it.
pub proof fn lemma_fold_insert_distinct(
    acc: Seq<(Seq<u8>, DeviceStatistics)>,
    raw: Seq<(Seq<u8>, DeviceStatistics)>,
)
    requires
        distinct_names(acc + raw),
    ensures
        fold_insert(acc, raw) == acc + raw,
    decreases raw.len(),
{
    if raw.len() == 0 {
        assert(acc + raw =~= acc);
    } else {
        let n = raw[0].0;
        assert forall|k: int| 0 <= k < acc.len() implies acc[k].0 != n by {
            assert((acc + raw)[k] == acc[k]);
            assert((acc + raw)[acc.len() as int] == raw[0]);
        }
        assert(!(exists|k: int| 0 <= k < acc.len() && acc[k].0 == n));
        let acc1 = crate::reader::spec_insert(acc, n, raw[0].1);
        assert(acc1 == acc.push(raw[0]));
        assert(acc1 + raw.drop_first() =~= acc + raw);
        lemma_fold_insert_distinct(acc1, raw.drop_first());
        assert(fold_insert(acc, raw) == fold_insert(acc1, raw.drop_first()));
    }
}

/// Splitting a known subrange of `s` into its two halves.
proof fn lemma_split_at(s: Seq<u8>, i: int, a: Seq<u8>, b: Seq<u8>)
    requires
        0 <= i,
        i + a.len() + b.len() <= s.len(),
        s.subrange(i, i + a.len() + b.len()) == a + b,
    ensures
        s.subrange(i, i + a.len()) == a,
        s.subrange(i + a.len(), i + a.len() + b.len()) == b,
{
    let whole = s.subrange(i, i + a.len() + b.len());
    assert forall|k: int| 0 <= k < a.len() implies s[i + k] == a[k] by {
        assert(whole[k] == s[i + k]);
        assert((a + b)[k] == a[k]);
    }
    assert(s.subrange(i, i + a.len()) =~= a);
    assert forall|k: int| 0 <= k < b.len() implies s[i + a.len() + k] == b[k] by {
        assert(whole[a.len() + k] == s[i + a.len() + k]);
        assert((a + b)[a.len() + k] == b[k]);
    }
    assert(s.subrange(i + a.len(), i + a.len() + b.len()) =~= b);
}

/// An encoded entry parses back to what was encoded.
proof fn lemma_parse_entry_encoded(s: Seq<u8>, i: int, n: Seq<u8>, st: DeviceStatistics)
    requires
        0 <= i,
        i + encode_entry(n, st).len() <= s.len(),
        s.subrange(i, i + encode_entry(n, st).len()) == encode_entry(n, st),
    ensures
        parse_entry(s, i) == Some(((n, st), i + encode_entry(n, st).len())),
{
    let rxd = dec_rep(st.rx as nat);
    let txd = dec_rep(st.tx as nat);
    lemma_dec_rep_digits(st.rx as nat);
    lemma_dec_rep_digits(st.tx as nat);
    let en = esc_name(n);
    let rest1 = en + (lit_name_close() + (rxd + (lit_tx() + (txd + seq![125u8]))));
    let rest2 = lit_name_close() + (rxd + (lit_tx() + (txd + seq![125u8])));
    let rest3 = rxd + (lit_tx() + (txd + seq![125u8]));
    let rest4 = lit_tx() + (txd + seq![125u8]);
    let rest5 = txd + seq![125u8];
    let p0 = i;
    let p1 = i + 1;  // after the opening quote
    let p2 = p1 + en.len();  // at the closing quote
    let p3 = p2 + 8;  // after `":{"rx":`
    let p4 = p3 + rxd.len();  // after the rx digits
    let p5 = p4 + 6;  // after `,"tx":`
    let p6 = p5 + txd.len();  // at the closing brace
    lemma_split_at(s, p0, seq![34u8], rest1);
    lemma_split_at(s, p1, en, rest2);
    lemma_split_at(s, p2, lit_name_close(), rest3);
    lemma_split_at(s, p3, rxd, rest4);
    lemma_split_at(s, p4, lit_tx(), rest5);
    lemma_split_at(s, p5, txd, seq![125u8]);
    assert(s[p0] == 34) by {
        assert(s.subrange(p0, p0 + 1)[0] == s[p0]);
    }
    assert(s[p2] == 34) by {
        assert(s.subrange(p2, p2 + 8)[0] == s[p2]);
    }
    assert(s[p6] == 125) by {
        assert(s.subrange(p6, p6 + 1)[0] == s[p6]);
    }
    // the escaped name runs from just after the opening quote to the
    // first unescaped quote, and decodes back to the name
    lemma_esc_region(s, p1, n);
    // the rx digit run
    assert forall|k: int| p3 <= k < p4 implies is_digit(s[k]) by {
        assert(s.subrange(p3, p4)[k - p3] == s[k]);
    }
    assert(s[p4] == 44) by {
        assert(s.subrange(p4, p4 + 6)[0] == s[p4]);
    }
    lemma_digits_end_charac(s, p3, p4);
    lemma_dec_val_of_rep(st.rx as nat);
    assert(parse_number(s, p3) == Some((st.rx, p4)));
    // the tx digit run
    assert forall|k: int| p5 <= k < p6 implies is_digit(s[k]) by {
        assert(s.subrange(p5, p6)[k - p5] == s[k]);
    }
    lemma_digits_end_charac(s, p5, p6);
    lemma_dec_val_of_rep(st.tx as nat);
    assert(parse_number(s, p5) == Some((st.tx, p6)));
    assert(match_lit(s, p2, lit_name_close()));
    assert(match_lit(s, p4, lit_tx()));
}

/// An encoded entry run followed by a closing brace parses back to the
/// encoded list.
proof fn lemma_parse_join_encoded(s: Seq<u8>, i: int, es: Seq<(Seq<u8>, DeviceStatistics)>)
    requires
        1 <= es.len(),
        0 <= i,
        i + encode_join(es).len() < s.len(),
        s.subrange(i, i + encode_join(es).len()) == encode_join(es),
        s[i + encode_join(es).len()] == 125,
    ensures
        parse_entries(s, i) == Some((es, i + encode_join(es).len())),
    decreases es.len(),
{
    let e0 = encode_entry(es[0].0, es[0].1);
    let l = encode_join(es).len();
    if es.len() == 1 {
        assert(encode_join(es) =~= e0);
        lemma_parse_entry_encoded(s, i, es[0].0, es[0].1);
        let p = i + e0.len();
        assert(s[p] == 125);
        assert(seq![es[0]] =~= es);
    } else {
        let tail = seq![44u8] + encode_join(es.drop_first());
        assert(encode_join(es) == e0 + tail);
        lemma_split_at(s, i, e0, tail);
        lemma_parse_entry_encoded(s, i, es[0].0, es[0].1);
        let p = i + e0.len();
        lemma_split_at(s, p, seq![44u8], encode_join(es.drop_first()));
        assert(s[p] == 44) by {
            assert(s.subrange(p, p + 1)[0] == s[p]);
        }
        assert(i + l == p + 1 + encode_join(es.drop_first()).len());
        lemma_parse_join_encoded(s, p + 1, es.drop_first());
        assert(seq![es[0]] + es.drop_first() =~= es);
    }
}

/// Round trip: the bytes `save_snapshot` writes for any snapshot with
/// unique device names parse back, with `load_snapshot`'s insertion
/// fold, to exactly the timestamp and entry list that were saved —
/// whatever the device set (including the empty one) and whatever
/// bytes the names hold.
pub proof fn lemma_store_round_trip(ts: u64, es: Seq<(Seq<u8>, DeviceStatistics)>)
    requires
        distinct_names(es),
    ensures
        parse_snapshot(encode_snapshot(ts, es)) == Some((ts, es)),
        fold_insert(Seq::empty(), es) == es,
{
    let s = encode_snapshot(ts, es);
    let tsd = dec_rep(ts as nat);
    lemma_dec_rep_digits(ts as nat);
    let rest1 = tsd + (lit_devices() + (encode_entries(es) + seq![125u8, 125u8]));
    let rest2 = lit_devices() + (encode_entries(es) + seq![125u8, 125u8]);
    let rest3 = encode_entries(es) + seq![125u8, 125u8];
    let p1 = 16int;
    let p2 = p1 + tsd.len();
    let p3 = p2 + 12;
    let p4 = p3 + encode_entries(es).len();
    assert(s.subrange(0, s.len() as int) =~= s);
    lemma_split_at(s, 0, lit_header(), rest1);
    lemma_split_at(s, p1, tsd, rest2);
    lemma_split_at(s, p2, lit_devices(), rest3);
    lemma_split_at(s, p3, encode_entries(es), seq![125u8, 125u8]);
    assert(match_lit(s, 0, lit_header()));
    assert forall|k: int| p1 <= k < p2 implies is_digit(s[k]) by {
        assert(s.subrange(p1, p2)[k - p1] == s[k]);
    }
    assert(s[p2] == 44) by {
        assert(s.subrange(p2, p3)[0] == s[p2]);
    }
    assert(s[p4] == 125 && s[p4 + 1] == 125) by {
        assert(s.subrange(p4, p4 + 2)[0] == s[p4]);
        assert(s.subrange(p4, p4 + 2)[1] == s[p4 + 1]);
    }
    lemma_digits_end_charac(s, p1, p2);
    lemma_dec_val_of_rep(ts as nat);
    assert(parse_number(s, 16) == Some((ts, p2)));
    assert(match_lit(s, p2, lit_devices()));
    if es.len() == 0 {
        assert(p3 == p4);
        assert(parse_snapshot(s) == Some((ts, Seq::<(Seq<u8>, DeviceStatistics)>::empty())));
        assert(Seq::<(Seq<u8>, DeviceStatistics)>::empty() =~= es);
    } else {
        assert(s[p3] == 34) by {
            assert(encode_entries(es)[0] == 34);
            assert(s.subrange(p3, p4)[0] == s[p3]);
        }
        lemma_parse_join_encoded(s, p3, es);
        assert(parse_entries(s, p3) == Some((es, p4)));
    }
    lemma_fold_insert_distinct(Seq::empty(), es);
    assert(Seq::<(Seq<u8>, DeviceStatistics)>::empty() + es =~= es);
}

fn lit_header_vec() -> (v: Vec<u8>)
    ensures
        v@ == lit_header(),
{
    let mut v: Vec<u8> = Vec::new();
    v.push(123);
    v.push(34);
    v.push(116);
    v.push(105);
    v.push(109);
    v.push(101);
    v.push(115);
    v.push(116);
    v.push(97);
    v.push(109);
    v.push(112);
    v.push(95);
    v.push(109);
    v.push(115);
    v.push(34);
    v.push(58);
    proof {
        assert(v@ =~= lit_header());
    }
    v
}

fn lit_devices_vec() -> (v: Vec<u8>)
    ensures
        v@ == lit_devices(),
{
    let mut v: Vec<u8> = Vec::new();
    v.push(44);
    v.push(34);
    v.push(100);
    v.push(101);
    v.push(118);
    v.push(105);
    v.push(99);
    v.push(101);
    v.push(115);
    v.push(34);
    v.push(58);
    v.push(123);
    proof {
        assert(v@ =~= lit_devices());
    }
    v
}

fn lit_name_close_vec() -> (v: Vec<u8>)
    ensures
        v@ == lit_name_close(),
{
    let mut v: Vec<u8> = Vec::new();
    v.push(34);
    v.push(58);
    v.push(123);
    v.push(34);
    v.push(114);
    v.push(120);
    v.push(34);
    v.push(58);
    proof {
        assert(v@ =~= lit_name_close());
    }
    v
}

fn lit_tx_vec() -> (v: Vec<u8>)
    ensures
        v@ == lit_tx(),
{
    let mut v: Vec<u8> = Vec::new();
    v.push(44);
    v.push(34);
    v.push(116);
    v.push(120);
    v.push(34);
    v.push(58);
    proof {
        assert(v@ =~= lit_tx());
    }
    v
}

/// Does `lit` occur verbatim at position `i`?
fn match_lit_exec(s: &Vec<u8>, i: usize, lit: &Vec<u8>) -> (r: bool)
    ensures
        r == match_lit(s@, i as int, lit@),
{
    if s.len() < lit.len() || i > s.len() - lit.len() {
        return false;
    }
    let mut k: usize = 0;
    while k < lit.len()
        invariant
            0 <= k <= lit@.len(),
            i + lit@.len() <= s@.len(),
            s@.len() <= usize::MAX,
            forall|m: int| 0 <= m < k ==> s@[i + m] == lit@[m],
        decreases lit@.len() - k,
    {
        if s[i + k] != lit[k] {
            proof {
                assert(s@.subrange(i as int, i + lit@.len())[k as int] != lit@[k as int]);
            }
            return false;
        }
        k = k + 1;
    }
    proof {
        assert(s@.subrange(i as int, i + lit@.len()) =~= lit@);
    }
    true
}

/// Appends a name with its quote and backslash bytes escaped.
fn push_escaped(out: &mut Vec<u8>, name: &Vec<u8>)
    ensures
        final(out)@ == old(out)@ + esc_name(name@),
{
    let mut i: usize = 0;
    proof {
        assert(name@.skip(0) =~= name@);
    }
    while i < name.len()
        invariant
            0 <= i <= name@.len(),
            old(out)@ + esc_name(name@) == out@ + esc_name(name@.skip(i as int)),
        decreases name@.len() - i,
    {
        let b = name[i];
        proof {
            assert(name@.skip(i as int)[0] == name@[i as int]);
            assert(name@.skip(i as int).drop_first() =~= name@.skip(i as int + 1));
        }
        if b == 34 || b == 92 {
            out.push(92);
        }
        out.push(b);
        proof {
            assert(old(out)@ + esc_name(name@) =~= out@ + esc_name(name@.skip(i as int + 1)));
        }
        i = i + 1;
    }
    proof {
        assert(esc_name(name@.skip(name@.len() as int)) =~= Seq::<u8>::empty());
        assert(out@ =~= old(out)@ + esc_name(name@));
    }
}

/// Appends one encoded entry to `out`.
fn push_entry(out: &mut Vec<u8>, name: &Vec<u8>, st: DeviceStatistics)
    ensures
        final(out)@ == old(out)@ + encode_entry(name@, st),
{
    out.push(34);
    push_escaped(out, name);
    let nc = lit_name_close_vec();
    append_bytes(out, &nc);
    push_dec_u64(st.rx, out);
    let lt = lit_tx_vec();
    append_bytes(out, &lt);
    push_dec_u64(st.tx, out);
    out.push(125);
    proof {
        assert(out@ =~= old(out)@ + encode_entry(name@, st));
    }
}

/// The bytes still to emit once the first `i` entries are out.
spec fn tail_bytes(es: Seq<(Seq<u8>, DeviceStatistics)>, i: int) -> Seq<u8> {
    if i >= es.len() {
        Seq::empty()
    } else if i == 0 {
        encode_entries(es)
    } else {
        seq![44u8] + encode_join(es.skip(i))
    }
}

/// Serializes a snapshot to the history format, field names preserved.
#[verifier::rlimit(60)]
pub fn save_snapshot(s: &StatisticsSnapshot) -> (out: Vec<u8>)
    ensures
        out@ == encode_snapshot(s.timestamp_ms, s.devices.as_entries()),
{
    let ghost es = s.devices.as_entries();
    let mut out: Vec<u8> = Vec::new();
    let lh = lit_header_vec();
    append_bytes(&mut out, &lh);
    push_dec_u64(s.timestamp_ms, &mut out);
    let ld = lit_devices_vec();
    append_bytes(&mut out, &ld);
    let ghost base = out@;
    let mut i: usize = 0;
    while i < s.devices.entries.len()
        invariant
            0 <= i <= es.len(),
            es == s.devices.as_entries(),
            es.len() == s.devices.entries@.len(),
            out@ + tail_bytes(es, i as int) == base + encode_entries(es),
        decreases es.len() - i,
    {
        proof {
            assert(es[i as int] == (s.devices.entries@[i as int].name@,
            s.devices.entries@[i as int].stats));
        }
        if i > 0 {
            out.push(44);
        }
        push_entry(&mut out, &s.devices.entries[i].name, s.devices.entries[i].stats);
        proof {
            if i == 0 {
                if es.len() == 1 {
                    assert(tail_bytes(es, 1) =~= Seq::<u8>::empty());
                    assert(out@ + tail_bytes(es, 1) =~= base + encode_entries(es));
                } else {
                    assert(es.skip(1) =~= es.drop_first());
                    assert(out@ + tail_bytes(es, 1) =~= base + encode_entries(es));
                }
            } else {
                let sk = es.skip(i as int);
                assert(sk[0] == es[i as int]);
                assert(sk.drop_first() =~= es.skip(i as int + 1));
                if i + 1 < s.devices.entries.len() {
                    assert(out@ + tail_bytes(es, i as int + 1) =~= base + encode_entries(es));
                } else {
                    assert(tail_bytes(es, i as int + 1) =~= Seq::<u8>::empty());
                    assert(out@ + tail_bytes(es, i as int + 1) =~= base + encode_entries(es));
                }
            }
        }
        i = i + 1;
    }
    proof {
        assert(out@ + tail_bytes(es, i as int) =~= out@);
    }
    out.push(125);
    out.push(125);
    proof {
        assert(out@ =~= encode_snapshot(s.timestamp_ms, es));
    }
    out
}

/// The first position at or after `i` holding a non-digit byte.
fn scan_digits(s: &Vec<u8>, i: usize) -> (e: usize)
    requires
        i <= s@.len(),
    ensures
        e == digits_end(s@, i as int),
        i <= e <= s@.len(),
{
    let mut j: usize = i;
    while j < s.len()
        invariant
            i <= j <= s@.len(),
            forall|k: int| i <= k < j ==> is_digit(s@[k]),
        ensures
            i <= j <= s@.len(),
            forall|k: int| i <= k < j ==> is_digit(s@[k]),
            j == s@.len() || !is_digit(s@[j as int]),
        decreases s@.len() - j,
    {
        let b = s[j];
        if b < 48 || b > 57 {
            break ;
        }
        j = j + 1;
    }
    proof {
        lemma_digits_end_charac(s@, i as int, j as int);
    }
    j
}

/// The position of the closing quote of the name region at `i`,
/// stepping over backslash escapes.
fn scan_name_end(s: &Vec<u8>, i: usize) -> (e: usize)
    requires
        i <= s@.len(),
    ensures
        e == esc_end(s@, i as int),
        i <= e <= s@.len(),
{
    proof {
        lemma_esc_end_bounds(s@, i as int);
    }
    let mut j: usize = i;
    loop
        invariant
            i <= j <= s@.len(),
            esc_end(s@, i as int) == esc_end(s@, j as int),
            i <= esc_end(s@, i as int) <= s@.len(),
        decreases s@.len() - j,
    {
        if j >= s.len() {
            return j;
        }
        let b = s[j];
        if b == 34 {
            return j;
        }
        if b != 92 {
            j = j + 1;
        } else if s.len() - j >= 2 {
            j = j + 2;
        } else {
            // a dangling escape: the region is unterminated
            return s.len();
        }
    }
}

/// Decodes the escaped name bytes between `from` and `to`.
fn unescape_range(s: &Vec<u8>, from: usize, to: usize) -> (r: Vec<u8>)
    requires
        from <= to <= s@.len(),
    ensures
        r@ == unesc_range(s@, from as int, to as int),
{
    let mut r: Vec<u8> = Vec::new();
    let mut j: usize = from;
    loop
        invariant
            from <= j <= to <= s@.len(),
            unesc_range(s@, from as int, to as int) == r@ + unesc_range(s@, j as int, to as int),
        decreases to - j,
    {
        if j >= to {
            proof {
                assert(r@ + unesc_range(s@, j as int, to as int) =~= r@);
            }
            return r;
        }
        let b = s[j];
        if b == 92 && to - j >= 2 {
            r.push(s[j + 1]);
            proof {
                assert(unesc_range(s@, from as int, to as int) =~= r@ + unesc_range(
                    s@,
                    j as int + 2,
                    to as int,
                ));
            }
            j = j + 2;
        } else if b == 92 {
            // a dangling escape contributes nothing
            proof {
                assert(r@ + unesc_range(s@, j as int, to as int) =~= r@);
            }
            return r;
        } else {
            r.push(b);
            proof {
                assert(unesc_range(s@, from as int, to as int) =~= r@ + unesc_range(
                    s@,
                    j as int + 1,
                    to as int,
                ));
            }
            j = j + 1;
        }
    }
}

/// Reads the number at position `i`.
fn parse_number_exec(s: &Vec<u8>, i: usize) -> (r: Option<(u64, usize)>)
    requires
        i <= s@.len(),
    ensures
        r is Some <==> parse_number(s@, i as int) is Some,
        r matches Some(p) ==> parse_number(s@, i as int) == Some((p.0, p.1 as int)),
{
    let e = scan_digits(s, i);
    if e == i {
        return None;
    }
    proof {
        lemma_digits_end(s@, i as int);
    }
    let digits = copy_range(s, i, e);
    proof {
        assert(forall|k: int|
            0 <= k < digits@.len() ==> is_digit(#[trigger] digits@[k]) && digits@[k] == s@[i + k]);
    }
    match crate::digits::parse_u64(&digits) {
        Some(v) => Some((v, e)),
        None => None,
    }
}

/// Reads the entry at position `i`.
fn parse_entry_exec(s: &Vec<u8>, i: usize) -> (r: Option<((Vec<u8>, DeviceStatistics), usize)>)
    requires
        i <= s@.len(),
    ensures
        r is Some <==> parse_entry(s@, i as int) is Some,
        r matches Some(p) ==> {
            &&& parse_entry(s@, i as int) matches Some(q)
            &&& p.0.0@ == q.0.0
            &&& p.0.1 == q.0.1
            &&& p.1 == q.1
            &&& p.1 <= s@.len()
        },
{
    if i >= s.len() || s[i] != 34 {
        return None;
    }
    let qe = scan_name_end(s, i + 1);
    if qe >= s.len() {
        return None;
    }
    let name = unescape_range(s, i + 1, qe);
    let nc = lit_name_close_vec();
    if !match_lit_exec(s, qe, &nc) {
        return None;
    }
    match parse_number_exec(s, qe + 8) {
        None => None,
        Some((rx, p)) => {
            proof {
                lemma_digits_end(s@, qe + 8);
            }
            let lt = lit_tx_vec();
            if !match_lit_exec(s, p, &lt) {
                return None;
            }
            match parse_number_exec(s, p + 6) {
                None => None,
                Some((tx, q)) => {
                    proof {
                        lemma_digits_end(s@, p + 6);
                    }
                    if q < s.len() && s[q] == 125 {
                        Some(((name, DeviceStatistics { rx, tx }), q + 1))
                    } else {
                        None
                    }
                },
            }
        },
    }
}

/// Reads a comma-separated entry run from position `i`, absorbing each
/// entry into `devices` in file order.
fn parse_entries_exec(s: &Vec<u8>, i: usize, devices: &mut DeviceRates) -> (r: Option<usize>)
    requires
        i <= s@.len(),
        old(devices).wf(),
    ensures
        r is Some <==> parse_entries(s@, i as int) is Some,
        r matches Some(p) ==> {
            &&& parse_entries(s@, i as int) matches Some(q)
            &&& p == q.1
            &&& final(devices).wf()
            &&& final(devices).as_entries() == fold_insert(old(devices).as_entries(), q.0)
        },
    decreases s@.len() - i,
{
    match parse_entry_exec(s, i) {
        None => None,
        Some(((name, st), p)) => {
            let ghost entry = parse_entry(s@, i as int)->Some_0.0;
            let ghost before = devices.as_entries();
            let ghost nv = name@;
            proof {
                crate::stats::lemma_map_of_seq_dom(before);
            }
            devices.insert(name, st);
            proof {
                if exists|k: int| 0 <= k < before.len() && before[k].0 == nv {
                    assert(devices.as_entries() =~= crate::reader::spec_insert(before, nv, st));
                } else {
                    assert(devices.as_entries() =~= crate::reader::spec_insert(before, nv, st));
                }
            }
            if p < s.len() && s[p] == 44 {
                proof {
                    lemma_parse_entry_advances(s@, i as int);
                }
                match parse_entries_exec(s, p + 1, devices) {
                    None => None,
                    Some(q) => {
                        proof {
                            let raw = parse_entries(s@, i as int)->Some_0.0;
                            let rest = parse_entries(s@, p as int + 1)->Some_0.0;
                            assert(raw == seq![entry] + rest);
                            assert(raw[0] == entry);
                            assert(raw.drop_first() =~= rest);
                            assert(fold_insert(before, raw) == fold_insert(
                                crate::reader::spec_insert(before, entry.0, entry.1),
                                rest,
                            ));
                        }
                        Some(q)
                    },
                }
            } else {
                proof {
                    let raw = parse_entries(s@, i as int)->Some_0.0;
                    assert(raw == seq![entry]);
                    assert(raw[0] == entry);
                    assert(raw.drop_first() =~= Seq::<(Seq<u8>, DeviceStatistics)>::empty());
                    assert(fold_insert(crate::reader::spec_insert(before, entry.0, entry.1),
                    raw.drop_first()) == crate::reader::spec_insert(before, entry.0, entry.1));
                }
                Some(p)
            }
        },
    }
}

/// Deserializes a snapshot from the history format; any structural or
/// type mismatch is a `CorruptStore` error.
pub fn load_snapshot(bytes: &Vec<u8>) -> (r: Result<StatisticsSnapshot, Error>)
    ensures
        r is Ok <==> parse_snapshot(bytes@) is Some,
        r matches Ok(s) ==> {
            &&& parse_snapshot(bytes@) matches Some((ts, raw))
            &&& s.timestamp_ms == ts
            &&& s.devices.as_entries() == fold_insert(
                Seq::<(Seq<u8>, DeviceStatistics)>::empty(),
                raw,
            )
            &&& s.wf()
        },
        r is Err ==> r == Result::<StatisticsSnapshot, Error>::Err(Error::CorruptStore),
{
    let lh = lit_header_vec();
    if !match_lit_exec(bytes, 0, &lh) {
        return Err(Error::CorruptStore);
    }
    match parse_number_exec(bytes, 16) {
        None => Err(Error::CorruptStore),
        Some((ts, p)) => {
            proof {
                lemma_digits_end(bytes@, 16);
            }
            let ld = lit_devices_vec();
            if !match_lit_exec(bytes, p, &ld) {
                return Err(Error::CorruptStore);
            }
            let n = bytes.len();
            proof {
                assert(p + 12 <= n);
            }
            let q = p + 12;
            if q < bytes.len() && bytes[q] == 125 {
                if q == n - 2 && bytes[q + 1] == 125 {
                    let devices = DeviceRates::new();
                    Ok(StatisticsSnapshot { timestamp_ms: ts, devices })
                } else {
                    Err(Error::CorruptStore)
                }
            } else {
                let mut devices = DeviceRates::new();
                match parse_entries_exec(bytes, q, &mut devices) {
                    None => Err(Error::CorruptStore),
                    Some(r) => {
                        if r == n - 2 && bytes[r] == 125 && bytes[r + 1] == 125 {
                            Ok(StatisticsSnapshot { timestamp_ms: ts, devices })
                        } else {
                            Err(Error::CorruptStore)
                        }
                    },
                }
            }
        },
    }
}

/// Relies on std::path::Path::is_file: whether `path` names an existing
/// regular file (not a directory or other special file). The result
/// depends on the state of the file system; nothing is promised of it.
#[verifier::external_body]
pub fn is_file_exist(path: &str) -> bool {
    std::path::Path::new(path).is_file()
}

} // verus!
