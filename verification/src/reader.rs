//! Statistics source reader: parses the kernel's textual per-device
//! counter table into a snapshot.
//!
//! The table is line-oriented: two fixed header lines, then one line per
//! interface. Each line is whitespace-tokenized; the first token is the
//! interface name (trailing `:` characters stripped, however many), the
//! second is the received-byte counter, and the tenth is the
//! transmitted-byte counter (the kernel's fixed column layout: rx bytes,
//! packets, errs, drop, fifo, frame, compressed, multicast, tx bytes).

use vstd::prelude::*;

use crate::digits::spec_parse_u64;
use crate::stats::{
    copy_range, lemma_map_of_seq_dom, now_unix_millis, DeviceRates, DeviceStatistics,
    StatisticsSnapshot,
};
use crate::Error;

verus! {

/// Is `b` an ASCII whitespace byte (space, tab, newline, form feed,
/// carriage return)?
pub open spec fn is_space(b: u8) -> bool {
    b == 32 || b == 9 || b == 10 || b == 12 || b == 13
}

/// The end of the token that starts at `i`: the first position at or
/// after `i` holding whitespace, or the end of the line.
pub open spec fn token_end(s: Seq<u8>, i: int) -> int
    decreases s.len() - i,
    when 0 <= i <= s.len()
{
    if i >= s.len() || is_space(s[i]) {
        i
    } else {
        token_end(s, i + 1)
    }
}

pub proof fn lemma_token_end(s: Seq<u8>, i: int)
    requires
        0 <= i <= s.len(),
    ensures
        i <= token_end(s, i) <= s.len(),
        forall|k: int| i <= k < token_end(s, i) ==> !is_space(s[k]),
        token_end(s, i) == s.len() || is_space(s[token_end(s, i)]),
    decreases s.len() - i,
{
    if !(i >= s.len() || is_space(s[i])) {
        lemma_token_end(s, i + 1);
    }
}

/// `j` is the end of the token at `i` exactly when everything from `i` up
/// to `j` is non-space and `j` sits on whitespace or at the line's end.
pub proof fn lemma_token_end_charac(s: Seq<u8>, i: int, j: int)
    requires
        0 <= i <= j <= s.len(),
        forall|k: int| i <= k < j ==> !is_space(s[k]),
        j == s.len() || is_space(s[j]),
    ensures
        token_end(s, i) == j,
    decreases j - i,
{
    if i < j {
        assert(!is_space(s[i]));
        lemma_token_end_charac(s, i + 1, j);
    }
}

/// The whitespace-separated tokens of `s`, from position `i` on.
pub open spec fn tokens_from(s: Seq<u8>, i: int) -> Seq<Seq<u8>>
    decreases s.len() - i,
    when 0 <= i <= s.len()
    via tokens_from_decreases
{
    if i >= s.len() {
        Seq::empty()
    } else if is_space(s[i]) {
        tokens_from(s, i + 1)
    } else {
        seq![s.subrange(i, token_end(s, i))] + tokens_from(s, token_end(s, i))
    }
}

#[via_fn]
proof fn tokens_from_decreases(s: Seq<u8>, i: int) {
    if 0 <= i < s.len() && !is_space(s[i]) {
        lemma_token_end(s, i);
    }
}

/// The tokens of a whole line.
pub open spec fn tokens_of(s: Seq<u8>) -> Seq<Seq<u8>> {
    tokens_from(s, 0)
}

/// `t` with every trailing `:` removed.
pub open spec fn trim_colons(t: Seq<u8>) -> Seq<u8>
    decreases t.len(),
{
    if t.len() > 0 && t.last() == 58 {
        trim_colons(t.drop_last())
    } else {
        t
    }
}

proof fn lemma_trim_colons_take(t: Seq<u8>, e: int)
    requires
        0 <= e <= t.len(),
        forall|k: int| e <= k < t.len() ==> t[k] == 58,
        e == 0 || t[e - 1] != 58,
    ensures
        trim_colons(t) == t.take(e),
    decreases t.len(),
{
    if e == t.len() {
        if t.len() == 0 || t.last() != 58 {
            assert(t.take(e) =~= t);
        } else {
            assert(t[e - 1] == t.last());
            assert(false);
        }
    } else {
        assert(t.last() == 58);
        lemma_trim_colons_take(t.drop_last(), e);
        assert(t.drop_last().take(e) =~= t.take(e));
    }
}

/// What one interface line denotes: its trimmed name and the two
/// counters, or nothing if a counter token is missing or non-numeric.
pub open spec fn spec_parse_line(line: Seq<u8>) -> Option<(Seq<u8>, u64, u64)> {
    let ts = tokens_of(line);
    if ts.len() < 10 {
        None
    } else if spec_parse_u64(ts[1]) is None || spec_parse_u64(ts[9]) is None {
        None
    } else {
        Some((trim_colons(ts[0]), spec_parse_u64(ts[1])->Some_0, spec_parse_u64(ts[9])->Some_0))
    }
}

fn is_space_exec(b: u8) -> (r: bool)
    ensures
        r == is_space(b),
{
    b == 32 || b == 9 || b == 10 || b == 12 || b == 13
}

/// Splits a line into its whitespace-separated tokens.
fn tokenize(line: &Vec<u8>) -> (r: Vec<Vec<u8>>)
    ensures
        r@.map_values(|t: Vec<u8>| t@) == tokens_of(line@),
{
    let mut r: Vec<Vec<u8>> = Vec::new();
    let mut i: usize = 0;
    proof {
        assert(r@.map_values(|t: Vec<u8>| t@) + tokens_from(line@, 0) =~= tokens_of(line@));
    }
    while i < line.len()
        invariant
            0 <= i <= line@.len(),
            tokens_of(line@) == r@.map_values(|t: Vec<u8>| t@) + tokens_from(line@, i as int),
        decreases line@.len() - i,
    {
        if is_space_exec(line[i]) {
            i = i + 1;
        } else {
            let ghost start = i as int;
            let mut j: usize = i + 1;
            while j < line.len()
                invariant
                    0 <= start < j <= line@.len(),
                    forall|k: int| start <= k < j ==> !is_space(line@[k]),
                ensures
                    0 <= start < j <= line@.len(),
                    forall|k: int| start <= k < j ==> !is_space(line@[k]),
                    j == line@.len() || is_space(line@[j as int]),
                decreases line@.len() - j,
            {
                if is_space_exec(line[j]) {
                    break ;
                }
                j = j + 1;
            }
            proof {
                lemma_token_end_charac(line@, start, j as int);
            }
            let tok = copy_range(line, i, j);
            let ghost seen = r@.map_values(|t: Vec<u8>| t@);
            r.push(tok);
            proof {
                assert(r@.map_values(|t: Vec<u8>| t@) =~= seen + seq![
                    line@.subrange(start, j as int),
                ]);
            }
            i = j;
        }
    }
    proof {
        assert(r@.map_values(|t: Vec<u8>| t@) + tokens_from(line@, i as int) =~= r@.map_values(
            |t: Vec<u8>| t@,
        ));
    }
    r
}

/// Parses one interface line into (name, rx bytes, tx bytes).
fn parse_line(line: &Vec<u8>) -> (r: Option<(Vec<u8>, u64, u64)>)
    ensures
        r is Some <==> spec_parse_line(line@) is Some,
        r matches Some(p) ==> {
            &&& spec_parse_line(line@) matches Some(q)
            &&& p.0@ == q.0
            &&& p.1 == q.1
            &&& p.2 == q.2
        },
{
    let tokens = tokenize(line);
    if tokens.len() < 10 {
        return None;
    }
    assert(tokens@.map_values(|t: Vec<u8>| t@)[1] == tokens@[1]@);
    assert(tokens@.map_values(|t: Vec<u8>| t@)[9] == tokens@[9]@);
    assert(tokens@.map_values(|t: Vec<u8>| t@)[0] == tokens@[0]@);
    let rx = match crate::digits::parse_u64(&tokens[1]) {
        Some(v) => v,
        None => {
            return None;
        },
    };
    let tx = match crate::digits::parse_u64(&tokens[9]) {
        Some(v) => v,
        None => {
            return None;
        },
    };
    let name_tok = &tokens[0];
    let mut e: usize = name_tok.len();
    while e > 0
        invariant
            0 <= e <= name_tok@.len(),
            forall|k: int| e <= k < name_tok@.len() ==> name_tok@[k] == 58,
        ensures
            0 <= e <= name_tok@.len(),
            forall|k: int| e <= k < name_tok@.len() ==> name_tok@[k] == 58,
            e == 0 || name_tok@[e - 1] != 58,
        decreases e,
    {
        if name_tok[e - 1] != 58 {
            break ;
        }
        e = e - 1;
    }
    proof {
        lemma_trim_colons_take(name_tok@, e as int);
    }
    let name = copy_range(name_tok, 0, e);
    Some((name, rx, tx))
}

/// How an entry sequence absorbs one more binding: an existing entry with
/// the same name has its counters replaced, otherwise the binding is
/// appended.
pub open spec fn spec_insert(
    es: Seq<(Seq<u8>, DeviceStatistics)>,
    n: Seq<u8>,
    st: DeviceStatistics,
) -> Seq<(Seq<u8>, DeviceStatistics)> {
    if exists|k: int| 0 <= k < es.len() && es[k].0 == n {
        Seq::new(
            es.len(),
            |k: int|
                if es[k].0 == n {
                    (n, st)
                } else {
                    es[k]
                },
        )
    } else {
        es.push((n, st))
    }
}

/// What a sequence of interface lines denotes: entries in line order,
/// later lines overriding earlier ones of the same name; `None` as soon
/// as any line is malformed. With `hide_zero` set, devices whose two
/// counters are both zero are left out.
pub open spec fn spec_parse_table(lines: Seq<Seq<u8>>, hide_zero: bool) -> Option<
    Seq<(Seq<u8>, DeviceStatistics)>,
>
    decreases lines.len(),
{
    if lines.len() == 0 {
        Some(Seq::empty())
    } else {
        match spec_parse_table(lines.drop_last(), hide_zero) {
            Option::None => None,
            Option::Some(es) => match spec_parse_line(lines.last()) {
                Option::None => None,
                Option::Some(p) => if hide_zero && p.1 == 0 && p.2 == 0 {
                    Some(es)
                } else {
                    Some(spec_insert(es, p.0, DeviceStatistics { rx: p.1, tx: p.2 }))
                },
            },
        }
    }
}

/// The per-line views of an exec line table.
pub open spec fn views_of(lines: Seq<Vec<u8>>) -> Seq<Seq<u8>> {
    lines.map_values(|l: Vec<u8>| l@)
}

/// The interface lines of a table: everything after the two-line header.
pub open spec fn body_lines(lines: Seq<Seq<u8>>) -> Seq<Seq<u8>> {
    if lines.len() <= 2 {
        Seq::empty()
    } else {
        lines.skip(2)
    }
}

/// Parses the kernel counter table. The first two lines are the fixed
/// header and are unconditionally skipped; each further line must be a
/// well-formed interface line, else the whole read fails. With
/// `hide_zero_ifs` set, devices whose counters are both zero are
/// excluded.
pub fn parse_source_table(lines: &Vec<Vec<u8>>, hide_zero_ifs: bool) -> (r: Result<
    DeviceRates,
    Error,
>)
    ensures
        r is Ok <==> spec_parse_table(body_lines(views_of(lines@)), hide_zero_ifs) is Some,
        r matches Ok(d) ==> {
            &&& d.wf()
            &&& Some(d.as_entries()) == spec_parse_table(body_lines(views_of(lines@)), hide_zero_ifs)
        },
        r is Err ==> r == Result::<DeviceRates, Error>::Err(Error::MalformedLine),
{
    let mut devices = DeviceRates::new();
    let mut i: usize = 2;
    if lines.len() <= 2 {
        proof {
            if body_lines(views_of(lines@)).len() > 0 {
                assert(views_of(lines@).len() == lines@.len());
            }
            assert(body_lines(views_of(lines@)) =~= Seq::<Seq<u8>>::empty());
        }
        return Ok(devices);
    }
    while i < lines.len()
        invariant
            2 <= i <= lines@.len(),
            devices.wf(),
            Some(devices.as_entries()) == spec_parse_table(
                views_of(lines@).subrange(2, i as int),
                hide_zero_ifs,
            ),
        decreases lines@.len() - i,
    {
        let ghost prefix = views_of(lines@).subrange(2, i as int);
        let ghost prefix1 = views_of(lines@).subrange(2, i as int + 1);
        proof {
            assert(prefix1.drop_last() =~= prefix);
            assert(prefix1.last() == views_of(lines@)[i as int]);
            assert(views_of(lines@)[i as int] == lines@[i as int]@);
        }
        match parse_line(&lines[i]) {
            None => {
                proof {
                    lemma_parse_table_extends_none(views_of(lines@), i as int, hide_zero_ifs);
                }
                return Err(Error::MalformedLine);
            },
            Some((name, rx, tx)) => {
                if hide_zero_ifs && rx == 0 && tx == 0 {
                    // A device whose counters are both zero is silently
                    // excluded from the snapshot.
                } else {
                    let st = DeviceStatistics { rx, tx };
                    let ghost before = devices.as_entries();
                    let ghost nv = name@;
                    proof {
                        lemma_map_of_seq_dom(before);
                    }
                    devices.insert(name, st);
                    proof {
                        if exists|k: int| 0 <= k < before.len() && before[k].0 == nv {
                            assert(devices.as_entries() =~= spec_insert(before, nv, st));
                        } else {
                            assert(devices.as_entries() =~= spec_insert(before, nv, st));
                        }
                    }
                }
                i = i + 1;
            },
        }
    }
    proof {
        assert(views_of(lines@).len() == lines@.len());
        assert(views_of(lines@).subrange(2, lines@.len() as int) =~= body_lines(
            views_of(lines@),
        ));
    }
    Ok(devices)
}

/// A malformed line poisons every longer prefix of the table.
proof fn lemma_parse_table_extends_none(lines: Seq<Seq<u8>>, i: int, hide_zero: bool)
    requires
        2 <= i < lines.len(),
        spec_parse_line(lines[i]) is None,
    ensures
        spec_parse_table(body_lines(lines), hide_zero) is None,
{
    lemma_parse_table_none_from(lines, i, lines.len() as int, hide_zero);
    assert(lines.subrange(2, lines.len() as int) =~= body_lines(lines));
}

proof fn lemma_parse_table_none_from(lines: Seq<Seq<u8>>, i: int, j: int, hide_zero: bool)
    requires
        2 <= i < j <= lines.len(),
        spec_parse_line(lines[i]) is None,
    ensures
        spec_parse_table(lines.subrange(2, j), hide_zero) is None,
    decreases j,
{
    let sub = lines.subrange(2, j);
    if j == i + 1 {
        assert(sub.last() == lines[i]);
    } else {
        lemma_parse_table_none_from(lines, i, j - 1, hide_zero);
        assert(sub.drop_last() =~= lines.subrange(2, j - 1));
    }
}

/// Reads the counter table into a fresh snapshot stamped with the current
/// wall-clock time.
pub fn read_snapshot(lines: &Vec<Vec<u8>>, hide_zero_ifs: bool) -> (r: Result<
    StatisticsSnapshot,
    Error,
>)
    ensures
        r is Ok <==> spec_parse_table(body_lines(views_of(lines@)), hide_zero_ifs) is Some,
        r matches Ok(s) ==> {
            &&& s.wf()
            &&& Some(s.devices.as_entries()) == spec_parse_table(
                body_lines(views_of(lines@)),
                hide_zero_ifs,
            )
        },
        r is Err ==> r == Result::<StatisticsSnapshot, Error>::Err(Error::MalformedLine),
{
    match parse_source_table(lines, hide_zero_ifs) {
        Ok(devices) => Ok(
            StatisticsSnapshot { timestamp_ms: now_unix_millis(), devices },
        ),
        Err(e) => Err(e),
    }
}

/// Every well-formed interface line yields exactly one entry: a table
/// whose lines all parse, with pairwise distinct names and `hide_zero`
/// off, denotes one entry per line, in line order, whatever internal
/// whitespace the lines carry.
pub proof fn lemma_one_entry_per_line(lines: Seq<Seq<u8>>)
    requires
        forall|i: int| 0 <= i < lines.len() ==> spec_parse_line(lines[i]) is Some,
        forall|i: int, j: int|
            0 <= i < j < lines.len() ==> spec_parse_line(lines[i])->Some_0.0 != spec_parse_line(
                lines[j],
            )->Some_0.0,
    ensures
        spec_parse_table(lines, false) is Some,
        spec_parse_table(lines, false)->Some_0.len() == lines.len(),
        forall|i: int|
            0 <= i < lines.len() ==> #[trigger] spec_parse_table(lines, false)->Some_0[i] == (
            spec_parse_line(lines[i])->Some_0.0,
            DeviceStatistics {
                rx: spec_parse_line(lines[i])->Some_0.1,
                tx: spec_parse_line(lines[i])->Some_0.2,
            },
        ),
    decreases lines.len(),
{
    if lines.len() > 0 {
        lemma_one_entry_per_line(lines.drop_last());
        let es = spec_parse_table(lines.drop_last(), false)->Some_0;
        let p = spec_parse_line(lines.last())->Some_0;
        assert forall|k: int| 0 <= k < es.len() implies es[k].0 != p.0 by {
            assert(spec_parse_line(lines[k]) is Some);
            assert(es[k].0 == spec_parse_line(lines[k])->Some_0.0);
        }
        assert(spec_parse_table(lines, false)->Some_0 =~= es.push(
            (p.0, DeviceStatistics { rx: p.1, tx: p.2 }),
        ));
    }
}

} // verus!
