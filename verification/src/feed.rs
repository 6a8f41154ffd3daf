//! Building bus schedules and route stop lists from the parsed GTFS tables
//! (`trips.txt`, `stop_times.txt`, `routes.txt`, `stops.txt`).
//!
//! Tables come as header names and rows of fields (see
//! [`crate::gtfs::parse_csv`]); a row's field is looked up by header name.

use vstd::prelude::*;
use crate::gtfs::{
    csv_field, field_spec, parse_time, parse_time_fields, rows_view, strings_view, time_fields_spec,
    time_seconds, BusSchedule, StopTime,
};
use crate::text::{chars_of, parse_u32_spec, parse_u32_str};

verus! {

/// A stop time as plain values: stop ID, arrival, departure, sequence.
pub open spec fn stop_time_view(st: StopTime) -> (Seq<char>, u32, u32, u32) {
    (st.stop_id@, st.arrival_s, st.departure_s, st.stop_sequence)
}

/// The plain values of each stop time.
pub open spec fn stop_times_view(v: Seq<StopTime>) -> Seq<(Seq<char>, u32, u32, u32)> {
    v.map_values(|st: StopTime| stop_time_view(st))
}

/// The text of a looked-up field, if there is one.
pub open spec fn opt_text(v: Option<&String>) -> Option<Seq<char>> {
    match v {
        Some(s) => Some(s@),
        None => None,
    }
}

/// A time field whose seconds from midnight fit in a `u32` (a missing field
/// or one that is not a time needs no room).
pub open spec fn time_fits(v: Option<Seq<char>>) -> bool {
    v matches Some(t) ==> (time_fields_spec(t) matches Some(f) ==> time_seconds(f) <= u32::MAX)
}

/// Seconds from midnight of a time field; 0 when it is missing or not a
/// time.
pub open spec fn seconds_or_zero(v: Option<Seq<char>>) -> u32 {
    match v {
        Some(t) => match time_fields_spec(t) {
            Some(f) => time_seconds(f) as u32,
            None => 0,
        },
        None => 0,
    }
}

/// A number field as `u32`; 0 when it is missing or not a number.
pub open spec fn number_or_zero(v: Option<Seq<char>>) -> u32 {
    match v {
        Some(t) => match parse_u32_spec(t) {
            Some(x) => x,
            None => 0,
        },
        None => 0,
    }
}

/// The trip and the stop time that a `stop_times.txt` row yields; none
/// when the row has no trip ID or no stop ID.
pub open spec fn stop_time_entry(h: Seq<Seq<char>>, r: Seq<Seq<char>>) -> Option<(Seq<char>, (Seq<char>, u32, u32, u32))> {
    match (field_spec(h, r, "trip_id"@), field_spec(h, r, "stop_id"@)) {
        (Some(t), Some(s)) => Some(
            (
                t,
                (
                    s,
                    seconds_or_zero(field_spec(h, r, "arrival_time"@)),
                    seconds_or_zero(field_spec(h, r, "departure_time"@)),
                    number_or_zero(field_spec(h, r, "stop_sequence"@)),
                ),
            ),
        ),
        _ => None,
    }
}

/// The times of a row that yields a stop time fit in a `u32`.
pub open spec fn row_times_fit(h: Seq<Seq<char>>, r: Seq<Seq<char>>) -> bool {
    (field_spec(h, r, "trip_id"@) is Some && field_spec(h, r, "stop_id"@) is Some) ==> (time_fits(
        field_spec(h, r, "arrival_time"@),
    ) && time_fits(field_spec(h, r, "departure_time"@)))
}

/// Every row has one field per header.
pub open spec fn rows_shaped(headers: Seq<String>, rows: Seq<Vec<String>>) -> bool {
    forall|k: int| 0 <= k < rows.len() ==> (#[trigger] rows[k])@.len() == headers.len()
}

/// The entry of a row, as a function of the row.
pub open spec fn entry_of_row(h: Seq<Seq<char>>) -> spec_fn(Seq<Seq<char>>) -> Option<(Seq<char>, (Seq<char>, u32, u32, u32))> {
    |r: Seq<Seq<char>>| stop_time_entry(h, r)
}

/// The (trip, stop time) entries of the rows, in row order.
pub open spec fn stop_time_entries(h: Seq<Seq<char>>, rows: Seq<Seq<Seq<char>>>) -> Seq<(Seq<char>, (Seq<char>, u32, u32, u32))> {
    rows.filter_map(entry_of_row(h))
}

/// An entry belongs to the trip.
pub open spec fn of_trip(trip: Seq<char>) -> spec_fn((Seq<char>, (Seq<char>, u32, u32, u32))) -> bool {
    |e: (Seq<char>, (Seq<char>, u32, u32, u32))| e.0 == trip
}

/// The stop times of one trip among the entries, in entry order.
pub open spec fn trip_group(
    entries: Seq<(Seq<char>, (Seq<char>, u32, u32, u32))>,
    trip: Seq<char>,
) -> Seq<(Seq<char>, u32, u32, u32)> {
    entries.filter(of_trip(trip)).map_values(
        |e: (Seq<char>, (Seq<char>, u32, u32, u32))| e.1,
    )
}

/// Stop times in non-decreasing order of stop sequence.
pub open spec fn sorted_by_sequence(s: Seq<(Seq<char>, u32, u32, u32)>) -> bool {
    forall|i: int, j: int| 0 <= i < j < s.len() ==> s[i].3 <= s[j].3
}

/// The stop times with sequence number `n`, in order.
pub open spec fn with_sequence(s: Seq<(Seq<char>, u32, u32, u32)>, n: u32) -> Seq<(Seq<char>, u32, u32, u32)> {
    s.filter(|x: (Seq<char>, u32, u32, u32)| x.3 == n)
}

/// For every sequence number, the two lists hold the same stop times in the
/// same order.
pub open spec fn same_per_sequence(a: Seq<(Seq<char>, u32, u32, u32)>, b: Seq<(Seq<char>, u32, u32, u32)>) -> bool {
    forall|n: u32| #[trigger] with_sequence(a, n) == with_sequence(b, n)
}

/// Seconds from midnight of a time field, 0 when it is missing or not a
/// time.
fn seconds_of_field(v: Option<&String>) -> (r: u32)
    requires
        time_fits(opt_text(v)),
    ensures
        r == seconds_or_zero(opt_text(v)),
{
    match v {
        Some(s) => match parse_time(s.as_str()) {
            Some(x) => x,
            None => 0,
        },
        None => 0,
    }
}

/// A number field as `u32`, 0 when it is missing or not a number.
fn number_of_field(v: Option<&String>) -> (r: u32)
    ensures
        r == number_or_zero(opt_text(v)),
{
    match v {
        Some(s) => match parse_u32_str(s.as_str()) {
            Some(x) => x,
            None => 0,
        },
        None => 0,
    }
}

/// Whether the seconds of a time field fit in a `u32`.
fn time_field_fits(v: Option<&String>) -> (r: bool)
    ensures
        r == time_fits(opt_text(v)),
{
    match v {
        Some(s) => match parse_time_fields(s.as_str()) {
            Some((h, m, x)) => (h as u64) * 3600 + (m as u64) * 60 + (x as u64) <= u32::MAX as u64,
            None => true,
        },
        None => true,
    }
}

/// The trip ID and the stop time of one `stop_times.txt` row; `None` when
/// the row has no trip ID or no stop ID. Missing or unreadable times and
/// sequence numbers count as 0.
pub fn stop_time_of_row(headers: &Vec<String>, row: &Vec<String>) -> (r: Option<(String, StopTime)>)
    requires
        row@.len() == headers@.len(),
        row_times_fit(strings_view(headers@), strings_view(row@)),
    ensures
        match r {
            Some((t, st)) => stop_time_entry(strings_view(headers@), strings_view(row@)) == Some(
                (t@, stop_time_view(st)),
            ),
            None => stop_time_entry(strings_view(headers@), strings_view(row@)) is None,
        },
{
    let trip = match csv_field(headers, row, "trip_id") {
        Some(v) => v,
        None => {
            return None;
        },
    };
    let stop = match csv_field(headers, row, "stop_id") {
        Some(v) => v,
        None => {
            return None;
        },
    };
    let arrival_s = seconds_of_field(csv_field(headers, row, "arrival_time"));
    let departure_s = seconds_of_field(csv_field(headers, row, "departure_time"));
    let stop_sequence = number_of_field(csv_field(headers, row, "stop_sequence"));
    Some((trip.clone(), StopTime { stop_id: stop.clone(), arrival_s, departure_s, stop_sequence }))
}

/// Whether every row that yields a stop time has arrival and departure
/// times whose seconds fit in a `u32`.
pub fn stop_times_fit(headers: &Vec<String>, rows: &Vec<Vec<String>>) -> (r: bool)
    requires
        rows_shaped(headers@, rows@),
    ensures
        r == forall|k: int| 0 <= k < rows@.len() ==> row_times_fit(strings_view(headers@), #[trigger] strings_view(rows@[k]@)),
{
    let mut k: usize = 0;
    while k < rows.len()
        invariant
            0 <= k <= rows@.len(),
            rows_shaped(headers@, rows@),
            forall|j: int| 0 <= j < k ==> row_times_fit(strings_view(headers@), #[trigger] strings_view(rows@[j]@)),
        decreases rows@.len() - k,
    {
        let row = &rows[k];
        let has_ids = csv_field(headers, row, "trip_id").is_some() && csv_field(headers, row, "stop_id").is_some();
        if has_ids {
            if !time_field_fits(csv_field(headers, row, "arrival_time")) || !time_field_fits(csv_field(headers, row, "departure_time")) {
                return false;
            }
        }
        k = k + 1;
    }
    true
}

/// A filter keeps nothing when no element passes.
proof fn lemma_filter_none<A>(s: Seq<A>, p: spec_fn(A) -> bool)
    requires
        forall|i: int| 0 <= i < s.len() ==> !p(#[trigger] s[i]),
    ensures
        s.filter(p) == Seq::<A>::empty(),
    decreases s.len(),
{
    reveal(Seq::filter);
    if s.len() > 0 {
        lemma_filter_none(s.drop_last(), p);
    }
}

/// A copy of a stop time.
fn copy_stop_time(st: &StopTime) -> (r: StopTime)
    ensures
        stop_time_view(r) == stop_time_view(*st),
{
    StopTime {
        stop_id: st.stop_id.clone(),
        arrival_s: st.arrival_s,
        departure_s: st.departure_s,
        stop_sequence: st.stop_sequence,
    }
}

/// Position of a string in a list, if it is there.
fn position_of(list: &Vec<String>, s: &String) -> (r: Option<usize>)
    ensures
        match r {
            Some(g) => g < list@.len() && list@[g as int]@ == s@,
            None => !strings_view(list@).contains(s@),
        },
{
    let mut g: usize = 0;
    while g < list.len()
        invariant
            0 <= g <= list@.len(),
            forall|k: int| 0 <= k < g ==> (#[trigger] list@[k])@ != s@,
        decreases list@.len() - g,
    {
        if list[g] == *s {
            return Some(g);
        }
        g = g + 1;
    }
    proof {
        if strings_view(list@).contains(s@) {
            let k = choose|k: int| 0 <= k < strings_view(list@).len() && strings_view(list@)[k] == s@;
            assert(list@[k]@ == s@);
        }
    }
    None
}

/// The plain values of each list of stop times.
pub open spec fn lists_view(v: Seq<Vec<StopTime>>) -> Seq<Seq<(Seq<char>, u32, u32, u32)>> {
    v.map_values(|l: Vec<StopTime>| stop_times_view(l@))
}

/// `ids` are the distinct trips of the entries, and `lists[g]` holds the
/// stop times of trip `ids[g]` in entry order.
pub open spec fn grouping(
    ids: Seq<Seq<char>>,
    lists: Seq<Seq<(Seq<char>, u32, u32, u32)>>,
    es: Seq<(Seq<char>, (Seq<char>, u32, u32, u32))>,
) -> bool {
    &&& ids.len() == lists.len()
    &&& ids.no_duplicates()
    &&& forall|t: Seq<char>| #[trigger] ids.contains(t) <==> exists|j: int| 0 <= j < es.len() && es[j].0 == t
    &&& forall|g: int| 0 <= g < ids.len() ==> #[trigger] lists[g] == trip_group(es, ids[g])
}

proof fn lemma_grouping_existing(
    ids: Seq<Seq<char>>,
    lists: Seq<Seq<(Seq<char>, u32, u32, u32)>>,
    es: Seq<(Seq<char>, (Seq<char>, u32, u32, u32))>,
    e: (Seq<char>, (Seq<char>, u32, u32, u32)),
    g: int,
)
    requires
        grouping(ids, lists, es),
        0 <= g < ids.len(),
        ids[g] == e.0,
    ensures
        grouping(ids, lists.update(g, lists[g].push(e.1)), es.push(e)),
{
    let es2 = es.push(e);
    let l2 = lists.update(g, lists[g].push(e.1));
    assert forall|h: int| 0 <= h < ids.len() implies #[trigger] l2[h] == trip_group(es2, ids[h]) by {
        es.lemma_filter_push(e, of_trip(ids[h]));
        if h == g {
            assert(trip_group(es2, ids[h]) =~= trip_group(es, ids[h]).push(e.1));
        } else {
            assert(ids[h] != ids[g]);
        }
    }
    assert forall|t: Seq<char>| #[trigger] ids.contains(t) <==> exists|j: int| 0 <= j < es2.len() && es2[j].0 == t by {
        if ids.contains(t) {
            let j = choose|j: int| 0 <= j < es.len() && es[j].0 == t;
            assert(es2[j].0 == t);
        }
        if exists|j: int| 0 <= j < es2.len() && es2[j].0 == t {
            let j = choose|j: int| 0 <= j < es2.len() && es2[j].0 == t;
            if j == es.len() {
                assert(ids[g] == t);
            } else {
                assert(es[j].0 == t);
            }
        }
    }
}

proof fn lemma_grouping_new(
    ids: Seq<Seq<char>>,
    lists: Seq<Seq<(Seq<char>, u32, u32, u32)>>,
    es: Seq<(Seq<char>, (Seq<char>, u32, u32, u32))>,
    e: (Seq<char>, (Seq<char>, u32, u32, u32)),
)
    requires
        grouping(ids, lists, es),
        !ids.contains(e.0),
    ensures
        grouping(ids.push(e.0), lists.push(seq![e.1]), es.push(e)),
{
    let es2 = es.push(e);
    let i2 = ids.push(e.0);
    let l2 = lists.push(seq![e.1]);
    let pe = of_trip(e.0);
    assert forall|j: int| 0 <= j < es.len() implies !pe(#[trigger] es[j]) by {
        if es[j].0 == e.0 {
            assert(ids.contains(e.0));
        }
    }
    lemma_filter_none(es, pe);
    assert forall|h: int| 0 <= h < i2.len() implies #[trigger] l2[h] == trip_group(es2, i2[h]) by {
        es.lemma_filter_push(e, of_trip(i2[h]));
        if h == ids.len() {
            assert(trip_group(es2, i2[h]) =~= seq![e.1]);
        } else {
            assert(ids.contains(ids[h]));
            assert(ids[h] != e.0);
        }
    }
    assert forall|a: int, b: int| 0 <= a < b < i2.len() implies i2[a] != i2[b] by {
        if b == ids.len() {
            assert(ids.contains(ids[a]));
        }
    }
    assert forall|t: Seq<char>| #[trigger] i2.contains(t) <==> exists|j: int| 0 <= j < es2.len() && es2[j].0 == t by {
        if i2.contains(t) {
            let a = choose|a: int| 0 <= a < i2.len() && i2[a] == t;
            if a == ids.len() {
                assert(es2[es.len() as int].0 == t);
            } else {
                assert(ids.contains(t));
                let j = choose|j: int| 0 <= j < es.len() && es[j].0 == t;
                assert(es2[j].0 == t);
            }
        }
        if exists|j: int| 0 <= j < es2.len() && es2[j].0 == t {
            let j = choose|j: int| 0 <= j < es2.len() && es2[j].0 == t;
            if j == es.len() {
                assert(i2[ids.len() as int] == t);
            } else {
                assert(es[j].0 == t);
                assert(ids.contains(t));
                let a = choose|a: int| 0 <= a < ids.len() && ids[a] == t;
                assert(i2[a] == t);
            }
        }
    }
}

/// The stop times of the rows grouped by trip: the distinct trip IDs, and
/// for each the trip's stop times in row order.
fn group_by_trip(headers: &Vec<String>, rows: &Vec<Vec<String>>) -> (r: (Vec<String>, Vec<Vec<StopTime>>))
    requires
        rows_shaped(headers@, rows@),
        forall|k: int| 0 <= k < rows@.len() ==> row_times_fit(strings_view(headers@), #[trigger] strings_view(rows@[k]@)),
    ensures
        grouping(strings_view(r.0@), lists_view(r.1@), stop_time_entries(strings_view(headers@), rows_view(rows@))),
{
    let ghost hv = strings_view(headers@);
    let ghost rv = rows_view(rows@);
    let ghost f = entry_of_row(hv);
    let mut ids: Vec<String> = Vec::new();
    let mut lists: Vec<Vec<StopTime>> = Vec::new();
    let mut k: usize = 0;
    proof {
        assert(rv.take(0) =~= Seq::<Seq<Seq<char>>>::empty());
        assert(strings_view(ids@) =~= Seq::<Seq<char>>::empty());
        assert(lists_view(lists@) =~= Seq::<Seq<(Seq<char>, u32, u32, u32)>>::empty());
    }
    while k < rows.len()
        invariant
            0 <= k <= rows@.len(),
            hv == strings_view(headers@),
            rv == rows_view(rows@),
            f == entry_of_row(hv),
            rows_shaped(headers@, rows@),
            forall|j: int| 0 <= j < rows@.len() ==> row_times_fit(hv, #[trigger] strings_view(rows@[j]@)),
            grouping(strings_view(ids@), lists_view(lists@), rv.take(k as int).filter_map(f)),
        decreases rows@.len() - k,
    {
        let ghost es = rv.take(k as int).filter_map(f);
        let ghost iv = strings_view(ids@);
        let ghost lv = lists_view(lists@);
        proof {
            rv.lemma_filter_map_take_succ(f, k as int);
            assert(rv[k as int] == strings_view(rows@[k as int]@));
        }
        let entry = stop_time_of_row(headers, &rows[k]);
        match entry {
            Some((trip, st)) => {
                let ghost e = (trip@, stop_time_view(st));
                proof {
                    assert(rv.take(k + 1).filter_map(f) =~= es.push(e));
                }
                match position_of(&ids, &trip) {
                    Some(g) => {
                        let ghost old_lists = lists@;
                        lists[g].push(st);
                        proof {
                            lemma_grouping_existing(iv, lv, es, e, g as int);
                            assert(lists@[g as int]@ == old_lists[g as int]@.push(st));
                            assert(stop_times_view(lists@[g as int]@) =~= stop_times_view(old_lists[g as int]@).push(e.1));
                            assert(lists_view(lists@) =~= lv.update(g as int, lv[g as int].push(e.1)));
                        }
                    },
                    None => {
                        let mut fresh: Vec<StopTime> = Vec::new();
                        fresh.push(st);
                        proof {
                            assert(stop_times_view(fresh@) =~= seq![e.1]);
                        }
                        ids.push(trip);
                        lists.push(fresh);
                        proof {
                            lemma_grouping_new(iv, lv, es, e);
                            assert(strings_view(ids@) =~= iv.push(e.0));
                            assert(lists_view(lists@) =~= lv.push(seq![e.1]));
                        }
                    },
                }
            },
            None => {
                proof {
                    assert(rv.take(k + 1).filter_map(f) =~= es);
                }
            },
        }
        k = k + 1;
    }
    proof {
        assert(rv.take(rows@.len() as int) =~= rv);
    }
    (ids, lists)
}

proof fn lemma_filter_single<A>(x: A, p: spec_fn(A) -> bool)
    ensures
        seq![x].filter(p) == if p(x) { seq![x] } else { Seq::<A>::empty() },
{
    Seq::<A>::empty().lemma_filter_push(x, p);
    assert(Seq::<A>::empty().push(x) =~= seq![x]);
    assert(Seq::<A>::empty().filter(p) =~= Seq::<A>::empty()) by {
        reveal(Seq::filter);
    }
}

/// Inserting a stop time after every one with a sequence number not above
/// its own, and before every one with a greater number, keeps the list
/// sorted and adds it last among its sequence number.
proof fn lemma_insert_stable(
    ov: Seq<(Seq<char>, u32, u32, u32)>,
    prefix: Seq<(Seq<char>, u32, u32, u32)>,
    p: int,
    x: (Seq<char>, u32, u32, u32),
)
    requires
        sorted_by_sequence(ov),
        same_per_sequence(ov, prefix),
        0 <= p <= ov.len(),
        forall|j: int| 0 <= j < p ==> ov[j].3 <= x.3,
        forall|j: int| p <= j < ov.len() ==> ov[j].3 > x.3,
    ensures
        sorted_by_sequence(ov.insert(p, x)),
        same_per_sequence(ov.insert(p, x), prefix.push(x)),
{
    let ins = ov.insert(p, x);
    let a = ov.take(p);
    let b = ov.skip(p);
    assert(ins =~= a + seq![x] + b);
    assert(ov =~= a + b);
    assert forall|n: u32| #[trigger] with_sequence(ins, n) == with_sequence(prefix.push(x), n) by {
        let q = |y: (Seq<char>, u32, u32, u32)| y.3 == n;
        Seq::filter_distributes_over_add(a + seq![x], b, q);
        Seq::filter_distributes_over_add(a, seq![x], q);
        Seq::filter_distributes_over_add(a, b, q);
        lemma_filter_single(x, q);
        prefix.lemma_filter_push(x, q);
        assert(with_sequence(ov, n) == with_sequence(prefix, n));
        if n == x.3 {
            assert forall|j: int| 0 <= j < b.len() implies !q(#[trigger] b[j]) by {
                assert(b[j] == ov[p + j]);
            }
            lemma_filter_none(b, q);
            assert(with_sequence(ins, n) =~= a.filter(q).push(x));
        } else {
            assert(with_sequence(ins, n) =~= a.filter(q) + b.filter(q));
        }
    }
}

/// Sort stop times by stop sequence, keeping the order of stop times with
/// equal sequence numbers (a stable sort).
pub fn sort_by_sequence(v: &Vec<StopTime>) -> (r: Vec<StopTime>)
    ensures
        sorted_by_sequence(stop_times_view(r@)),
        same_per_sequence(stop_times_view(r@), stop_times_view(v@)),
{
    let ghost vv = stop_times_view(v@);
    let mut out: Vec<StopTime> = Vec::new();
    let mut k: usize = 0;
    proof {
        assert(vv.take(0) =~= stop_times_view(out@));
    }
    while k < v.len()
        invariant
            0 <= k <= v@.len(),
            vv == stop_times_view(v@),
            sorted_by_sequence(stop_times_view(out@)),
            same_per_sequence(stop_times_view(out@), vv.take(k as int)),
        decreases v@.len() - k,
    {
        let x = copy_stop_time(&v[k]);
        let ghost ov = stop_times_view(out@);
        let mut p: usize = 0;
        while p < out.len() && out[p].stop_sequence <= x.stop_sequence
            invariant
                0 <= p <= out@.len(),
                ov == stop_times_view(out@),
                forall|j: int| 0 <= j < p ==> ov[j].3 <= x.stop_sequence,
            decreases out@.len() - p,
        {
            p = p + 1;
        }
        proof {
            assert forall|j: int| p <= j < ov.len() implies ov[j].3 > x.stop_sequence by {
                assert(ov[p as int].3 <= ov[j].3);
            }
            lemma_insert_stable(ov, vv.take(k as int), p as int, stop_time_view(x));
            assert(vv.take(k + 1) =~= vv.take(k as int).push(stop_time_view(x)));
        }
        out.insert(p, x);
        proof {
            assert(stop_times_view(out@) =~= ov.insert(p as int, stop_time_view(x)));
        }
        k = k + 1;
    }
    proof {
        assert(vv.take(v@.len() as int) =~= vv);
    }
    out
}

/// `a` sorts before `b` as `str` comparison orders text: the first
/// differing character decides, and a proper prefix sorts first. (UTF-8
/// bytes compare as the characters they encode.)
pub open spec fn text_lt(a: Seq<char>, b: Seq<char>) -> bool
    decreases a.len(),
{
    if b.len() == 0 {
        false
    } else if a.len() == 0 {
        true
    } else if a[0] != b[0] {
        a[0] < b[0]
    } else {
        text_lt(a.drop_first(), b.drop_first())
    }
}

proof fn lemma_text_lt_irreflexive(a: Seq<char>)
    ensures
        !text_lt(a, a),
    decreases a.len(),
{
    if a.len() > 0 {
        lemma_text_lt_irreflexive(a.drop_first());
    }
}

proof fn lemma_text_lt_total(a: Seq<char>, b: Seq<char>)
    requires
        a != b,
    ensures
        text_lt(a, b) || text_lt(b, a),
    decreases a.len(),
{
    if a.len() > 0 && b.len() > 0 && a[0] == b[0] {
        if a.drop_first() == b.drop_first() {
            assert(a =~= seq![a[0]] + a.drop_first());
            assert(b =~= seq![b[0]] + b.drop_first());
        } else {
            lemma_text_lt_total(a.drop_first(), b.drop_first());
        }
    } else if a.len() == 0 && b.len() == 0 {
        assert(a =~= b);
    }
}

proof fn lemma_text_lt_asymmetric(a: Seq<char>, b: Seq<char>)
    requires
        text_lt(a, b),
    ensures
        !text_lt(b, a),
    decreases a.len(),
{
    if a.len() > 0 && b.len() > 0 && a[0] == b[0] {
        lemma_text_lt_asymmetric(a.drop_first(), b.drop_first());
    }
}

proof fn lemma_text_lt_transitive(a: Seq<char>, b: Seq<char>, c: Seq<char>)
    requires
        text_lt(a, b),
        text_lt(b, c),
    ensures
        text_lt(a, c),
    decreases a.len(),
{
    if a.len() > 0 && b.len() > 0 && c.len() > 0 && a[0] == b[0] && b[0] == c[0] {
        lemma_text_lt_transitive(a.drop_first(), b.drop_first(), c.drop_first());
    }
}

/// Whether `a` sorts before `b` as `str` comparison orders text.
pub fn text_less(a: &String, b: &String) -> (r: bool)
    ensures
        r == text_lt(a@, b@),
{
    let x = chars_of(a.as_str());
    let y = chars_of(b.as_str());
    let mut i: usize = 0;
    proof {
        assert(x@.skip(0) =~= x@);
        assert(y@.skip(0) =~= y@);
    }
    while i < x.len() && i < y.len() && x[i] == y[i]
        invariant
            0 <= i <= x@.len(),
            i <= y@.len(),
            text_lt(x@, y@) == text_lt(x@.skip(i as int), y@.skip(i as int)),
        decreases x@.len() - i,
    {
        proof {
            assert(x@.skip(i as int).drop_first() =~= x@.skip(i + 1));
            assert(y@.skip(i as int).drop_first() =~= y@.skip(i + 1));
        }
        i = i + 1;
    }
    if i == y.len() {
        false
    } else if i == x.len() {
        true
    } else {
        proof {
            assert(x@.skip(i as int)[0] == x@[i as int]);
            assert(y@.skip(i as int)[0] == y@[i as int]);
        }
        x[i] < y[i]
    }
}

/// The route of a trip as `trips.txt` gives it: the route ID of the last
/// row with that trip ID and a route ID; `"unknown"` when there is none.
pub open spec fn trip_route_spec(h: Seq<Seq<char>>, rows: Seq<Seq<Seq<char>>>, trip: Seq<char>) -> Seq<char>
    decreases rows.len(),
{
    if rows.len() == 0 {
        "unknown"@
    } else {
        let r = rows.last();
        match (field_spec(h, r, "trip_id"@), field_spec(h, r, "route_id"@)) {
            (Some(t), Some(route)) => if t == trip {
                route
            } else {
                trip_route_spec(h, rows.drop_last(), trip)
            },
            _ => trip_route_spec(h, rows.drop_last(), trip),
        }
    }
}

/// The route of a trip according to the rows of `trips.txt` (the last row
/// naming the trip and a route counts); `"unknown"` when no row does.
pub fn trip_route(headers: &Vec<String>, rows: &Vec<Vec<String>>, trip: &String) -> (r: String)
    requires
        rows_shaped(headers@, rows@),
    ensures
        r@ == trip_route_spec(strings_view(headers@), rows_view(rows@), trip@),
{
    let ghost hv = strings_view(headers@);
    let ghost rv = rows_view(rows@);
    let mut k = rows.len();
    proof {
        assert(rv.take(k as int) =~= rv);
    }
    while k > 0
        invariant
            k <= rows@.len(),
            hv == strings_view(headers@),
            rv == rows_view(rows@),
            rows_shaped(headers@, rows@),
            trip_route_spec(hv, rv, trip@) == trip_route_spec(hv, rv.take(k as int), trip@),
        decreases k,
    {
        let ghost pre = rv.take(k as int);
        proof {
            assert(pre.last() == strings_view(rows@[k - 1]@));
            assert(pre.drop_last() =~= rv.take(k - 1));
        }
        let row = &rows[k - 1];
        match (csv_field(headers, row, "trip_id"), csv_field(headers, row, "route_id")) {
            (Some(t), Some(route)) => {
                if *t == *trip {
                    return route.clone();
                }
            },
            _ => {},
        }
        k = k - 1;
    }
    "unknown".to_owned()
}

/// A schedule as plain values: trip ID, route ID and stop times.
pub open spec fn schedule_view(s: BusSchedule) -> (Seq<char>, Seq<char>, Seq<(Seq<char>, u32, u32, u32)>) {
    (s.trip_id@, s.route_id@, stop_times_view(s.stop_times@))
}

/// The plain values of each schedule.
pub open spec fn schedules_view(v: Seq<BusSchedule>) -> Seq<(Seq<char>, Seq<char>, Seq<(Seq<char>, u32, u32, u32)>)> {
    v.map_values(|s: BusSchedule| schedule_view(s))
}

/// Some entry belongs to the trip.
pub open spec fn has_entries(es: Seq<(Seq<char>, (Seq<char>, u32, u32, u32))>, trip: Seq<char>) -> bool {
    exists|k: int| 0 <= k < es.len() && es[k].0 == trip
}

/// Some schedule is for the trip.
pub open spec fn has_schedule(sv: Seq<(Seq<char>, Seq<char>, Seq<(Seq<char>, u32, u32, u32)>)>, trip: Seq<char>) -> bool {
    exists|i: int| 0 <= i < sv.len() && sv[i].0 == trip
}

/// The schedule of a trip is right: its route as `trips.txt` gives it, and
/// the trip's stop times sorted by stop sequence (stably).
pub open spec fn schedule_right(
    trip_h: Seq<Seq<char>>,
    trip_rows: Seq<Seq<Seq<char>>>,
    es: Seq<(Seq<char>, (Seq<char>, u32, u32, u32))>,
    s: (Seq<char>, Seq<char>, Seq<(Seq<char>, u32, u32, u32)>),
) -> bool {
    &&& s.1 == trip_route_spec(trip_h, trip_rows, s.0)
    &&& sorted_by_sequence(s.2)
    &&& same_per_sequence(s.2, trip_group(es, s.0))
}

/// Build one bus schedule per trip of `stop_times.txt`, sorted by trip ID.
///
/// Each schedule holds the trip's stop times sorted by stop sequence (rows
/// with equal sequence numbers keep their order), and the route that
/// `trips.txt` gives the trip (`"unknown"` if none). Rows without a trip
/// ID or a stop ID are skipped; missing or unreadable times and sequence
/// numbers count as 0.
pub fn build_schedules(
    trip_headers: &Vec<String>,
    trip_rows: &Vec<Vec<String>>,
    st_headers: &Vec<String>,
    st_rows: &Vec<Vec<String>>,
) -> (r: Vec<BusSchedule>)
    requires
        rows_shaped(trip_headers@, trip_rows@),
        rows_shaped(st_headers@, st_rows@),
        forall|k: int| 0 <= k < st_rows@.len() ==> row_times_fit(strings_view(st_headers@), #[trigger] strings_view(st_rows@[k]@)),
    ensures
        ({
            let es = stop_time_entries(strings_view(st_headers@), rows_view(st_rows@));
            let sv = schedules_view(r@);
            &&& forall|i: int, j: int| 0 <= i < j < sv.len() ==> text_lt(sv[i].0, sv[j].0)
            &&& forall|i: int| 0 <= i < sv.len() ==> has_entries(es, #[trigger] sv[i].0)
            &&& forall|k: int| 0 <= k < es.len() ==> has_schedule(sv, #[trigger] es[k].0)
            &&& forall|i: int| 0 <= i < sv.len() ==> schedule_right(strings_view(trip_headers@), rows_view(trip_rows@), es, #[trigger] sv[i])
        }),
{
    let ghost es = stop_time_entries(strings_view(st_headers@), rows_view(st_rows@));
    let ghost th = strings_view(trip_headers@);
    let ghost tr = rows_view(trip_rows@);
    let (ids, lists) = group_by_trip(st_headers, st_rows);
    let ghost iv = strings_view(ids@);
    let ghost lv = lists_view(lists@);
    let mut out: Vec<BusSchedule> = Vec::new();
    let mut g: usize = 0;
    while g < ids.len()
        invariant
            0 <= g <= ids@.len(),
            iv == strings_view(ids@),
            lv == lists_view(lists@),
            grouping(iv, lv, es),
            th == strings_view(trip_headers@),
            tr == rows_view(trip_rows@),
            rows_shaped(trip_headers@, trip_rows@),
            forall|i: int, j: int| 0 <= i < j < schedules_view(out@).len() ==> text_lt(schedules_view(out@)[i].0, schedules_view(out@)[j].0),
            forall|i: int| 0 <= i < schedules_view(out@).len() ==> iv.take(g as int).contains(#[trigger] schedules_view(out@)[i].0),
            forall|a: int| 0 <= a < g ==> exists|i: int| 0 <= i < schedules_view(out@).len() && schedules_view(out@)[i].0 == #[trigger] iv[a],
            forall|i: int| 0 <= i < schedules_view(out@).len() ==> schedule_right(th, tr, es, #[trigger] schedules_view(out@)[i]),
        decreases ids@.len() - g,
    {
        let ghost ov = schedules_view(out@);
        let id = &ids[g];
        let route_id = trip_route(trip_headers, trip_rows, id);
        let stop_times = sort_by_sequence(&lists[g]);
        let sched = BusSchedule { trip_id: id.clone(), route_id, stop_times };
        let ghost s = schedule_view(sched);
        proof {
            assert(lv[g as int] == stop_times_view(lists@[g as int]@));
            assert(s.0 == iv[g as int]);
        }
        let mut p: usize = 0;
        while p < out.len() && text_less(&out[p].trip_id, id)
            invariant
                0 <= p <= out@.len(),
                ov == schedules_view(out@),
                forall|j: int| 0 <= j < p ==> text_lt(ov[j].0, id@),
            decreases out@.len() - p,
        {
            p = p + 1;
        }
        proof {
            assert(!iv.take(g as int).contains(id@)) by {
                if iv.take(g as int).contains(id@) {
                    let a = choose|a: int| 0 <= a < g && iv.take(g as int)[a] == id@;
                    assert(iv[a] == iv[g as int]);
                }
            }
            assert forall|j: int| p <= j < ov.len() implies text_lt(id@, ov[j].0) by {
                assert(ov[p as int].0 != id@);
                lemma_text_lt_total(ov[p as int].0, id@);
                if j > p {
                    lemma_text_lt_transitive(id@, ov[p as int].0, ov[j].0);
                }
            }
        }
        out.insert(p, sched);
        proof {
            let nv = schedules_view(out@);
            assert(nv =~= ov.insert(p as int, s));
            assert(iv.take(g + 1) =~= iv.take(g as int).push(id@));
            assert forall|i: int, j: int| 0 <= i < j < nv.len() implies text_lt(nv[i].0, nv[j].0) by {
                if j < p {
                } else if j == p {
                } else if i < p {
                    lemma_text_lt_transitive(nv[i].0, id@, nv[j].0);
                } else if i == p {
                } else {
                }
            }
            assert forall|i: int| 0 <= i < nv.len() implies iv.take(g + 1).contains(#[trigger] nv[i].0) by {
                if i < p {
                    assert(iv.take(g as int).contains(ov[i].0));
                } else if i > p {
                    assert(iv.take(g as int).contains(ov[i - 1].0));
                } else {
                    assert(iv.take(g + 1)[g as int] == nv[i].0);
                }
            }
            assert forall|a: int| 0 <= a < g + 1 implies exists|i: int| 0 <= i < nv.len() && nv[i].0 == #[trigger] iv[a] by {
                if a == g {
                    assert(nv[p as int].0 == iv[a]);
                } else {
                    let i = choose|i: int| 0 <= i < ov.len() && ov[i].0 == iv[a];
                    if i < p {
                        assert(nv[i].0 == iv[a]);
                    } else {
                        assert(nv[i + 1].0 == iv[a]);
                    }
                }
            }
            assert forall|i: int| 0 <= i < nv.len() implies schedule_right(th, tr, es, #[trigger] nv[i]) by {
                if i < p {
                    assert(nv[i] == ov[i]);
                } else if i > p {
                    assert(nv[i] == ov[i - 1]);
                }
            }
        }
        g = g + 1;
    }
    proof {
        let sv = schedules_view(out@);
        assert(iv.take(ids@.len() as int) =~= iv);
        assert forall|i: int| 0 <= i < sv.len() implies has_entries(es, #[trigger] sv[i].0) by {
            assert(iv.contains(sv[i].0));
        }
        assert forall|k: int| 0 <= k < es.len() implies has_schedule(sv, #[trigger] es[k].0) by {
            assert(iv.contains(es[k].0));
            let a = choose|a: int| 0 <= a < iv.len() && iv[a] == es[k].0;
            assert(exists|i: int| 0 <= i < sv.len() && sv[i].0 == iv[a]);
        }
    }
    out
}

/// A route with the IDs of its stops, in order.
#[derive(Debug, Clone, PartialEq, Eq)]
pub struct RouteStopIds {
    /// Unique route identifier from GTFS.
    pub route_id: String,
    /// Route display name.
    pub route_name: String,
    /// IDs of the stops along the route, in order.
    pub stop_ids: Vec<String>,
}

/// A route as plain values: route ID, name and stop IDs.
pub open spec fn route_view(r: RouteStopIds) -> (Seq<char>, Seq<char>, Seq<Seq<char>>) {
    (r.route_id@, r.route_name@, strings_view(r.stop_ids@))
}

/// The plain values of each route.
pub open spec fn routes_view(v: Seq<RouteStopIds>) -> Seq<(Seq<char>, Seq<char>, Seq<Seq<char>>)> {
    v.map_values(|r: RouteStopIds| route_view(r))
}

/// The route ID and name that a `routes.txt` row gives: none without a
/// route ID; a missing name is empty.
pub open spec fn route_entry(h: Seq<Seq<char>>, r: Seq<Seq<char>>) -> Option<(Seq<char>, Seq<char>)> {
    match field_spec(h, r, "route_id"@) {
        Some(id) => Some(
            (
                id,
                match field_spec(h, r, "route_long_name"@) {
                    Some(n) => n,
                    None => Seq::empty(),
                },
            ),
        ),
        None => None,
    }
}

/// The name of a route: that of the last row with the route's ID; none if
/// no row has it.
pub open spec fn route_name_spec(h: Seq<Seq<char>>, rows: Seq<Seq<Seq<char>>>, id: Seq<char>) -> Option<Seq<char>>
    decreases rows.len(),
{
    if rows.len() == 0 {
        None
    } else {
        match route_entry(h, rows.last()) {
            Some((i, n)) => if i == id {
                Some(n)
            } else {
                route_name_spec(h, rows.drop_last(), id)
            },
            None => route_name_spec(h, rows.drop_last(), id),
        }
    }
}

/// Some row of `stops.txt` has the stop ID.
pub open spec fn stop_known(h: Seq<Seq<char>>, rows: Seq<Seq<Seq<char>>>, stop: Seq<char>) -> bool {
    exists|k: int| 0 <= k < rows.len() && field_spec(h, #[trigger] rows[k], "stop_id"@) == Some(stop)
}

/// The stop is known to `stops.txt`, as a predicate on stop IDs.
pub open spec fn known_stop(h: Seq<Seq<char>>, rows: Seq<Seq<Seq<char>>>) -> spec_fn(Seq<char>) -> bool {
    |s: Seq<char>| stop_known(h, rows, s)
}

/// The stop IDs of the first schedule (in schedule order) of the route.
pub open spec fn first_route_stops(
    sv: Seq<(Seq<char>, Seq<char>, Seq<(Seq<char>, u32, u32, u32)>)>,
    route: Seq<char>,
) -> Option<Seq<Seq<char>>>
    decreases sv.len(),
{
    if sv.len() == 0 {
        None
    } else if sv[0].1 == route {
        Some(sv[0].2.map_values(|x: (Seq<char>, u32, u32, u32)| x.0))
    } else {
        first_route_stops(sv.drop_first(), route)
    }
}

/// Law: the stops of a route are taken from the route's first schedule:
/// when schedule `i` is the first on the route, the route's stop IDs are
/// exactly schedule `i`'s, in order, and no later schedule on the route
/// changes them; when no schedule runs on the route, it has none.
pub proof fn law_route_stops_come_from_first_schedule(
    sv: Seq<(Seq<char>, Seq<char>, Seq<(Seq<char>, u32, u32, u32)>)>,
    route: Seq<char>,
    i: int,
)
    ensures
        0 <= i < sv.len() && sv[i].1 == route && (forall|j: int| 0 <= j < i ==> (#[trigger] sv[j]).1 != route) ==> {
            &&& first_route_stops(sv, route) matches Some(ids)
            &&& ids.len() == sv[i].2.len()
            &&& forall|k: int| 0 <= k < ids.len() ==> #[trigger] ids[k] == sv[i].2[k].0
        },
        (forall|j: int| 0 <= j < sv.len() ==> (#[trigger] sv[j]).1 != route) ==> first_route_stops(sv, route) is None,
    decreases sv.len(),
{
    if sv.len() > 0 {
        let rest = sv.drop_first();
        if sv[0].1 != route {
            law_route_stops_come_from_first_schedule(rest, route, i - 1);
            if 0 <= i < sv.len() && sv[i].1 == route && (forall|j: int| 0 <= j < i ==> (#[trigger] sv[j]).1 != route) {
                assert(rest[i - 1] == sv[i]);
                assert forall|j: int| 0 <= j < i - 1 implies (#[trigger] rest[j]).1 != route by {
                    assert(rest[j] == sv[j + 1]);
                }
            }
            if forall|j: int| 0 <= j < sv.len() ==> (#[trigger] sv[j]).1 != route {
                assert forall|j: int| 0 <= j < rest.len() implies (#[trigger] rest[j]).1 != route by {
                    assert(rest[j] == sv[j + 1]);
                }
            }
        } else {
            if 0 <= i < sv.len() && sv[i].1 == route && (forall|j: int| 0 <= j < i ==> (#[trigger] sv[j]).1 != route) {
                if i > 0 {
                    assert(sv[0].1 != route);
                }
            }
            assert(sv[0].1 == route);
        }
    }
}

/// The stops of a route: those of its first schedule that `stops.txt`
/// knows, in order; none when no schedule runs on the route.
pub open spec fn route_stops_spec(
    sv: Seq<(Seq<char>, Seq<char>, Seq<(Seq<char>, u32, u32, u32)>)>,
    stop_h: Seq<Seq<char>>,
    stop_rows: Seq<Seq<Seq<char>>>,
    route: Seq<char>,
) -> Seq<Seq<char>> {
    match first_route_stops(sv, route) {
        Some(ids) => ids.filter(known_stop(stop_h, stop_rows)),
        None => Seq::empty(),
    }
}

/// Whether some row of `stops.txt` has the stop ID.
fn stop_is_known(headers: &Vec<String>, rows: &Vec<Vec<String>>, stop: &String) -> (r: bool)
    requires
        rows_shaped(headers@, rows@),
    ensures
        r == stop_known(strings_view(headers@), rows_view(rows@), stop@),
{
    let ghost hv = strings_view(headers@);
    let ghost rv = rows_view(rows@);
    let mut k: usize = 0;
    while k < rows.len()
        invariant
            0 <= k <= rows@.len(),
            hv == strings_view(headers@),
            rv == rows_view(rows@),
            rows_shaped(headers@, rows@),
            forall|j: int| 0 <= j < k ==> field_spec(hv, #[trigger] rv[j], "stop_id"@) != Some(stop@),
        decreases rows@.len() - k,
    {
        proof {
            assert(rv[k as int] == strings_view(rows@[k as int]@));
        }
        match csv_field(headers, &rows[k], "stop_id") {
            Some(s) => {
                if *s == *stop {
                    return true;
                }
            },
            None => {},
        }
        k = k + 1;
    }
    false
}

/// The IDs of the stops of a route: those of the route's first schedule
/// that `stops.txt` knows, in order; empty when no schedule runs on the
/// route.
pub fn route_stops(
    schedules: &Vec<BusSchedule>,
    route: &String,
    stop_headers: &Vec<String>,
    stop_rows: &Vec<Vec<String>>,
) -> (r: Vec<String>)
    requires
        rows_shaped(stop_headers@, stop_rows@),
    ensures
        strings_view(r@) == route_stops_spec(schedules_view(schedules@), strings_view(stop_headers@), rows_view(stop_rows@), route@),
        forall|i: int|
            0 <= i < schedules@.len() && (#[trigger] schedules_view(schedules@)[i]).1 == route@ && (forall|j: int|
                0 <= j < i ==> schedules_view(schedules@)[j].1 != route@) ==> strings_view(r@)
                == schedules_view(schedules@)[i].2.map_values(|x: (Seq<char>, u32, u32, u32)| x.0).filter(
                known_stop(strings_view(stop_headers@), rows_view(stop_rows@)),
            ),
        (forall|j: int| 0 <= j < schedules@.len() ==> (#[trigger] schedules_view(schedules@)[j]).1 != route@) ==> r@.len()
            == 0,
{
    let ghost sv = schedules_view(schedules@);
    let ghost known = known_stop(strings_view(stop_headers@), rows_view(stop_rows@));
    proof {
        assert forall|i: int|
            0 <= i < sv.len() && (#[trigger] sv[i]).1 == route@ && (forall|j: int| 0 <= j < i ==> sv[j].1 != route@) implies
            route_stops_spec(sv, strings_view(stop_headers@), rows_view(stop_rows@), route@)
            == sv[i].2.map_values(|x: (Seq<char>, u32, u32, u32)| x.0).filter(known) by {
            law_route_stops_come_from_first_schedule(sv, route@, i);
            let ids = first_route_stops(sv, route@)->0;
            assert(ids =~= sv[i].2.map_values(|x: (Seq<char>, u32, u32, u32)| x.0));
        }
        law_route_stops_come_from_first_schedule(sv, route@, 0);
    }
    let mut i: usize = 0;
    proof {
        assert(sv.skip(0) =~= sv);
    }
    while i < schedules.len() && !(schedules[i].route_id == *route)
        invariant
            0 <= i <= schedules@.len(),
            sv == schedules_view(schedules@),
            first_route_stops(sv, route@) == first_route_stops(sv.skip(i as int), route@),
        decreases schedules@.len() - i,
    {
        proof {
            assert(sv.skip(i as int).drop_first() =~= sv.skip(i + 1));
            assert(sv.skip(i as int)[0] == sv[i as int]);
        }
        i = i + 1;
    }
    let mut out: Vec<String> = Vec::new();
    if i == schedules.len() {
        proof {
            assert(sv.skip(i as int).len() == 0);
        }
        return out;
    }
    let times = &schedules[i].stop_times;
    let ghost ids = sv[i as int].2.map_values(|x: (Seq<char>, u32, u32, u32)| x.0);
    proof {
        assert(sv.skip(i as int)[0] == sv[i as int]);
        assert(ids.take(0) =~= Seq::<Seq<char>>::empty());
        assert(Seq::<Seq<char>>::empty().filter(known) =~= Seq::<Seq<char>>::empty()) by {
            reveal(Seq::filter);
        }
    }
    let mut k: usize = 0;
    while k < times.len()
        invariant
            0 <= k <= times@.len(),
            ids.len() == times@.len(),
            forall|j: int| 0 <= j < times@.len() ==> ids[j] == (#[trigger] times@[j]).stop_id@,
            known == known_stop(strings_view(stop_headers@), rows_view(stop_rows@)),
            rows_shaped(stop_headers@, stop_rows@),
            strings_view(out@) == ids.take(k as int).filter(known),
        decreases times@.len() - k,
    {
        let s = &times[k].stop_id;
        proof {
            assert(ids.take(k + 1) =~= ids.take(k as int).push(s@));
            ids.take(k as int).lemma_filter_push(s@, known);
        }
        if stop_is_known(stop_headers, stop_rows, s) {
            let ghost before = out@;
            out.push(s.clone());
            proof {
                assert(strings_view(out@) =~= strings_view(before).push(s@));
            }
        }
        k = k + 1;
    }
    proof {
        assert(ids.take(times@.len() as int) =~= ids);
    }
    out
}

/// Some route has the ID.
pub open spec fn has_route(rv: Seq<(Seq<char>, Seq<char>, Seq<Seq<char>>)>, id: Seq<char>) -> bool {
    exists|i: int| 0 <= i < rv.len() && rv[i].0 == id
}

/// Build the routes of `routes.txt`, sorted by route ID: one per distinct
/// route ID, named as its last row names it (empty when the row has no
/// name), with the stops of its first schedule (in schedule order) that
/// `stops.txt` knows.
pub fn build_routes(
    route_headers: &Vec<String>,
    route_rows: &Vec<Vec<String>>,
    schedules: &Vec<BusSchedule>,
    stop_headers: &Vec<String>,
    stop_rows: &Vec<Vec<String>>,
) -> (r: Vec<RouteStopIds>)
    requires
        rows_shaped(route_headers@, route_rows@),
        rows_shaped(stop_headers@, stop_rows@),
    ensures
        ({
            let h = strings_view(route_headers@);
            let rows = rows_view(route_rows@);
            let rv = routes_view(r@);
            &&& forall|i: int, j: int| 0 <= i < j < rv.len() ==> text_lt(rv[i].0, rv[j].0)
            &&& forall|i: int| 0 <= i < rv.len() ==> route_name_spec(h, rows, #[trigger] rv[i].0) == Some(rv[i].1)
            &&& forall|k: int| 0 <= k < rows.len() ==> (route_entry(h, #[trigger] rows[k]) matches Some(e) ==> has_route(rv, e.0))
            &&& forall|i: int| 0 <= i < rv.len() ==> (#[trigger] rv[i]).2 == route_stops_spec(
                schedules_view(schedules@),
                strings_view(stop_headers@),
                rows_view(stop_rows@),
                rv[i].0,
            )
        }),
{
    let ghost h = strings_view(route_headers@);
    let ghost rows = rows_view(route_rows@);
    let mut ids: Vec<String> = Vec::new();
    let mut names: Vec<String> = Vec::new();
    let mut k: usize = 0;
    while k < route_rows.len()
        invariant
            0 <= k <= route_rows@.len(),
            h == strings_view(route_headers@),
            rows == rows_view(route_rows@),
            rows_shaped(route_headers@, route_rows@),
            ids@.len() == names@.len(),
            strings_view(ids@).no_duplicates(),
            forall|g: int| 0 <= g < ids@.len() ==> route_name_spec(h, rows.take(k as int), #[trigger] ids@[g]@) == Some(names@[g]@),
            forall|j: int| 0 <= j < k ==> (route_entry(h, #[trigger] rows[j]) matches Some(e) ==> strings_view(ids@).contains(e.0)),
        decreases route_rows@.len() - k,
    {
        let ghost pre = rows.take(k + 1);
        proof {
            assert(rows[k as int] == strings_view(route_rows@[k as int]@));
            assert(pre.last() == rows[k as int]);
            assert(pre.drop_last() =~= rows.take(k as int));
        }
        let row = &route_rows[k];
        match csv_field(route_headers, row, "route_id") {
            Some(id) => {
                let name = match csv_field(route_headers, row, "route_long_name") {
                    Some(n) => n.clone(),
                    None => String::new(),
                };
                let ghost old_ids = ids@;
                let ghost old_names = names@;
                match position_of(&ids, id) {
                    Some(g) => {
                        names.set(g, name);
                        proof {
                            assert forall|a: int| 0 <= a < ids@.len() implies route_name_spec(h, pre, #[trigger] ids@[a]@) == Some(names@[a]@) by {
                                if a != g {
                                    assert(strings_view(ids@)[a] != strings_view(ids@)[g as int]);
                                }
                            }
                            assert forall|j: int| 0 <= j < k + 1 implies (route_entry(h, #[trigger] rows[j]) matches Some(e) ==> strings_view(ids@).contains(e.0)) by {
                                if j == k {
                                    assert(strings_view(ids@)[g as int] == id@);
                                }
                            }
                        }
                    },
                    None => {
                        ids.push(id.clone());
                        names.push(name);
                        proof {
                            assert(strings_view(ids@) =~= strings_view(old_ids).push(id@));
                            assert forall|a: int| 0 <= a < ids@.len() implies route_name_spec(h, pre, #[trigger] ids@[a]@) == Some(names@[a]@) by {
                                if a < old_ids.len() {
                                    assert(strings_view(old_ids)[a] == old_ids[a]@);
                                    assert(old_ids[a]@ != id@);
                                    assert(ids@[a] == old_ids[a]);
                                    assert(names@[a] == old_names[a]);
                                }
                            }
                            assert forall|a: int, b: int| 0 <= a < b < strings_view(ids@).len() implies strings_view(ids@)[a] != strings_view(ids@)[b] by {
                                if b == old_ids.len() {
                                    assert(strings_view(old_ids).contains(strings_view(old_ids)[a]));
                                }
                            }
                            assert forall|j: int| 0 <= j < k + 1 implies (route_entry(h, #[trigger] rows[j]) matches Some(e) ==> strings_view(ids@).contains(e.0)) by {
                                if j == k {
                                    assert(strings_view(ids@)[old_ids.len() as int] == id@);
                                } else if route_entry(h, rows[j]) is Some {
                                    let e = route_entry(h, rows[j])->0;
                                    assert(strings_view(old_ids).contains(e.0));
                                    let a = choose|a: int| 0 <= a < strings_view(old_ids).len() && strings_view(old_ids)[a] == e.0;
                                    assert(strings_view(ids@)[a] == e.0);
                                }
                            }
                        }
                    },
                }
            },
            None => {},
        }
        k = k + 1;
    }
    proof {
        assert(rows.take(route_rows@.len() as int) =~= rows);
    }
    let ghost iv = strings_view(ids@);
    let mut out: Vec<RouteStopIds> = Vec::new();
    let mut g: usize = 0;
    while g < ids.len()
        invariant
            0 <= g <= ids@.len(),
            ids@.len() == names@.len(),
            iv == strings_view(ids@),
            iv.no_duplicates(),
            h == strings_view(route_headers@),
            rows == rows_view(route_rows@),
            rows_shaped(stop_headers@, stop_rows@),
            forall|a: int| 0 <= a < ids@.len() ==> route_name_spec(h, rows, #[trigger] ids@[a]@) == Some(names@[a]@),
            forall|i: int, j: int| 0 <= i < j < routes_view(out@).len() ==> text_lt(routes_view(out@)[i].0, routes_view(out@)[j].0),
            forall|i: int| 0 <= i < routes_view(out@).len() ==> iv.take(g as int).contains(#[trigger] routes_view(out@)[i].0),
            forall|a: int| 0 <= a < g ==> has_route(routes_view(out@), #[trigger] iv[a]),
            forall|i: int| 0 <= i < routes_view(out@).len() ==> route_name_spec(h, rows, #[trigger] routes_view(out@)[i].0) == Some(routes_view(out@)[i].1),
            forall|i: int| 0 <= i < routes_view(out@).len() ==> (#[trigger] routes_view(out@)[i]).2 == route_stops_spec(
                schedules_view(schedules@),
                strings_view(stop_headers@),
                rows_view(stop_rows@),
                routes_view(out@)[i].0,
            ),
        decreases ids@.len() - g,
    {
        let ghost ov = routes_view(out@);
        let id = &ids[g];
        let stop_ids = route_stops(schedules, id, stop_headers, stop_rows);
        let route = RouteStopIds { route_id: id.clone(), route_name: names[g].clone(), stop_ids };
        let ghost s = route_view(route);
        proof {
            assert(s.0 == iv[g as int]);
            assert(route_name_spec(h, rows, ids@[g as int]@) == Some(names@[g as int]@));
        }
        let mut p: usize = 0;
        while p < out.len() && text_less(&out[p].route_id, id)
            invariant
                0 <= p <= out@.len(),
                ov == routes_view(out@),
                forall|j: int| 0 <= j < p ==> text_lt(ov[j].0, id@),
            decreases out@.len() - p,
        {
            p = p + 1;
        }
        proof {
            assert(!iv.take(g as int).contains(id@)) by {
                if iv.take(g as int).contains(id@) {
                    let a = choose|a: int| 0 <= a < g && iv.take(g as int)[a] == id@;
                    assert(iv[a] == iv[g as int]);
                }
            }
            assert forall|j: int| p <= j < ov.len() implies text_lt(id@, ov[j].0) by {
                assert(ov[p as int].0 != id@);
                lemma_text_lt_total(ov[p as int].0, id@);
                if j > p {
                    lemma_text_lt_transitive(id@, ov[p as int].0, ov[j].0);
                }
            }
        }
        out.insert(p, route);
        proof {
            let nv = routes_view(out@);
            assert(nv =~= ov.insert(p as int, s));
            assert(iv.take(g + 1) =~= iv.take(g as int).push(id@));
            assert forall|i: int, j: int| 0 <= i < j < nv.len() implies text_lt(nv[i].0, nv[j].0) by {
                if i < p && j > p {
                    lemma_text_lt_transitive(nv[i].0, id@, nv[j].0);
                }
            }
            assert forall|i: int| 0 <= i < nv.len() implies iv.take(g + 1).contains(#[trigger] nv[i].0) by {
                if i < p {
                    assert(iv.take(g as int).contains(ov[i].0));
                } else if i > p {
                    assert(iv.take(g as int).contains(ov[i - 1].0));
                } else {
                    assert(iv.take(g + 1)[g as int] == nv[i].0);
                }
            }
            assert forall|a: int| 0 <= a < g + 1 implies has_route(nv, #[trigger] iv[a]) by {
                if a == g {
                    assert(nv[p as int].0 == iv[a]);
                } else {
                    let i = choose|i: int| 0 <= i < ov.len() && ov[i].0 == iv[a];
                    if i < p {
                        assert(nv[i].0 == iv[a]);
                    } else {
                        assert(nv[i + 1].0 == iv[a]);
                    }
                }
            }
            assert forall|i: int| 0 <= i < nv.len() implies route_name_spec(h, rows, #[trigger] nv[i].0) == Some(nv[i].1) by {
                if i < p {
                    assert(nv[i] == ov[i]);
                } else if i > p {
                    assert(nv[i] == ov[i - 1]);
                }
            }
            assert forall|i: int| 0 <= i < nv.len() implies (#[trigger] nv[i]).2 == route_stops_spec(
                schedules_view(schedules@),
                strings_view(stop_headers@),
                rows_view(stop_rows@),
                nv[i].0,
            ) by {
                if i < p {
                    assert(nv[i] == ov[i]);
                } else if i > p {
                    assert(nv[i] == ov[i - 1]);
                }
            }
        }
        g = g + 1;
    }
    proof {
        let rv = routes_view(out@);
        assert(iv.take(ids@.len() as int) =~= iv);
        assert forall|k: int| 0 <= k < rows.len() implies (route_entry(h, #[trigger] rows[k]) matches Some(e) ==> has_route(rv, e.0)) by {
            if route_entry(h, rows[k]) is Some {
                let e = route_entry(h, rows[k])->0;
                assert(iv.contains(e.0));
                let a = choose|a: int| 0 <= a < iv.len() && iv[a] == e.0;
                assert(has_route(rv, iv[a]));
            }
        }
    }
    out
}

} // verus!
