//! Parsing of GTFS feed text: the lightweight CSV reader used for the
//! `*.txt` tables and the `HH:MM:SS` time format of stop times, plus the
//! schedule records built from them.

use vstd::prelude::*;
use crate::text::{chars_of, line_ranges, parse_u32_range, parse_u32_spec, split_on, split_ranges, string_of_range, trim, trim_range, lines_of};

verus! {

/// A single stop time entry within a schedule.
#[derive(Debug, Clone, PartialEq, Eq)]
pub struct StopTime {
    /// Stop identifier.
    pub stop_id: String,
    /// Arrival time as seconds from midnight.
    pub arrival_s: u32,
    /// Departure time as seconds from midnight.
    pub departure_s: u32,
    /// Position in the stop sequence (1-based).
    pub stop_sequence: u32,
}

/// A bus schedule representing one trip along a route.
#[derive(Debug, Clone, PartialEq)]
pub struct BusSchedule {
    /// Unique trip identifier.
    pub trip_id: String,
    /// Route this trip belongs to.
    pub route_id: String,
    /// Ordered stop times for this trip.
    pub stop_times: Vec<StopTime>,
}

/// The hours, minutes and seconds of an `HH:MM:SS` time: the trimmed text
/// must consist of exactly three `:`-separated unsigned decimal numbers.
/// Hours may exceed 23 (GTFS trips crossing midnight).
pub open spec fn time_fields_spec(s: Seq<char>) -> Option<(u32, u32, u32)> {
    let parts = split_on(trim(s), ':');
    if parts.len() != 3 {
        None
    } else {
        match (parse_u32_spec(parts[0]), parse_u32_spec(parts[1]), parse_u32_spec(parts[2])) {
            (Some(h), Some(m), Some(x)) => Some((h, m, x)),
            _ => None,
        }
    }
}

/// Seconds from midnight of a time's fields.
pub open spec fn time_seconds(f: (u32, u32, u32)) -> int {
    f.0 * 3600 + f.1 * 60 + f.2
}

/// Split a time string "HH:MM:SS" into its hours, minutes and seconds.
pub fn parse_time_fields(s: &str) -> (r: Option<(u32, u32, u32)>)
    ensures
        r == time_fields_spec(s@),
{
    let chars = chars_of(s);
    let (a, b) = trim_range(&chars, 0, chars.len());
    proof {
        assert(chars@.subrange(0, chars@.len() as int) =~= chars@);
    }
    let parts = split_ranges(&chars, a, b, ':');
    if parts.len() != 3 {
        return None;
    }
    let ghost ps = split_on(trim(s@), ':');
    let h = match parse_u32_range(&chars, parts[0].0, parts[0].1) {
        Some(v) => v,
        None => {
            return None;
        },
    };
    let m = match parse_u32_range(&chars, parts[1].0, parts[1].1) {
        Some(v) => v,
        None => {
            return None;
        },
    };
    let x = match parse_u32_range(&chars, parts[2].0, parts[2].1) {
        Some(v) => v,
        None => {
            return None;
        },
    };
    Some((h, m, x))
}

/// Parse a time string "HH:MM:SS" into seconds from midnight.
///
/// Supports hours >= 24 (GTFS convention for trips crossing midnight).
/// The number of seconds must fit in a `u32`.
pub fn parse_time(s: &str) -> (r: Option<u32>)
    requires
        time_fields_spec(s@) matches Some(f) ==> time_seconds(f) <= u32::MAX,
    ensures
        r matches Some(v) ==> time_fields_spec(s@) matches Some(f) && v == time_seconds(f),
        r is None <==> time_fields_spec(s@) is None,
{
    match parse_time_fields(s) {
        Some((h, m, x)) => Some(h * 3600 + m * 60 + x),
        None => None,
    }
}

/// The header names of a CSV text: the fields of its first line, trimmed.
pub open spec fn csv_headers_spec(content: Seq<char>) -> Seq<Seq<char>> {
    split_on(lines_of(content)[0], ',').map_values(|f: Seq<char>| trim(f))
}

/// The row a CSV line yields with `nh` headers: none for a blank line or a
/// line with fewer than `nh` fields; otherwise its first `nh` fields,
/// trimmed (fields past the headers are ignored).
pub open spec fn csv_row_spec(line: Seq<char>, nh: nat) -> Option<Seq<Seq<char>>> {
    let t = trim(line);
    if t.len() == 0 {
        None
    } else {
        let fields = split_on(t, ',');
        if fields.len() < nh {
            None
        } else {
            Some(fields.take(nh as int).map_values(|f: Seq<char>| trim(f)))
        }
    }
}

/// The rows of the data lines of a CSV text, in order.
pub open spec fn csv_rows_spec(lines: Seq<Seq<char>>, nh: nat) -> Seq<Seq<Seq<char>>> {
    lines.filter_map(|l: Seq<char>| csv_row_spec(l, nh))
}

/// The text of each string.
pub open spec fn strings_view(v: Seq<String>) -> Seq<Seq<char>> {
    v.map_values(|s: String| s@)
}

/// The text of each field of each row.
pub open spec fn rows_view(rows: Seq<Vec<String>>) -> Seq<Seq<Seq<char>>> {
    rows.map_values(|r: Vec<String>| strings_view(r@))
}

/// The trimmed fields of `chars[start..end]` split on commas, keeping the
/// first `count` of them.
fn trimmed_fields(chars: &Vec<char>, pieces: &Vec<(usize, usize)>, count: usize) -> (r: Vec<String>)
    requires
        count <= pieces@.len(),
        forall|k: int| 0 <= k < pieces@.len() ==> (#[trigger] pieces@[k]).0 <= pieces@[k].1 <= chars@.len(),
    ensures
        strings_view(r@) == pieces@.take(count as int).map_values(
            |p: (usize, usize)| trim(chars@.subrange(p.0 as int, p.1 as int)),
        ),
{
    let mut out: Vec<String> = Vec::new();
    let mut i: usize = 0;
    while i < count
        invariant
            count <= pieces@.len(),
            forall|k: int| 0 <= k < pieces@.len() ==> (#[trigger] pieces@[k]).0 <= pieces@[k].1 <= chars@.len(),
            0 <= i <= count,
            strings_view(out@) == pieces@.take(i as int).map_values(
                |p: (usize, usize)| trim(chars@.subrange(p.0 as int, p.1 as int)),
            ),
        decreases count - i,
    {
        let (a, b) = pieces[i];
        let (ta, tb) = trim_range(chars, a, b);
        let f = string_of_range(chars, ta, tb);
        let ghost prev = out@;
        proof {
            assert(pieces@.take(i + 1) =~= pieces@.take(i as int).push(pieces@[i as int]));
        }
        out.push(f);
        proof {
            assert(strings_view(out@) =~= strings_view(prev).push(f@));
            assert(pieces@.take(i + 1).map_values(
                |p: (usize, usize)| trim(chars@.subrange(p.0 as int, p.1 as int)),
            ) =~= pieces@.take(i as int).map_values(
                |p: (usize, usize)| trim(chars@.subrange(p.0 as int, p.1 as int)),
            ).push(trim(chars@.subrange(a as int, b as int))));
            assert(strings_view(out@) =~= pieces@.take(i + 1).map_values(
                |p: (usize, usize)| trim(chars@.subrange(p.0 as int, p.1 as int)),
            ));
        }
        i = i + 1;
    }
    out
}

/// The fields named by a range list, trimmed, equal the trimmed pieces of
/// the split text.
proof fn lemma_pieces_as_split(chars: Seq<char>, pieces: Seq<(usize, usize)>, text: Seq<char>, count: int)
    requires
        0 <= count <= pieces.len(),
        pieces.len() == split_on(text, ',').len(),
        forall|k: int| 0 <= k < pieces.len() ==> chars.subrange((#[trigger] pieces[k]).0 as int, pieces[k].1 as int) == split_on(text, ',')[k],
    ensures
        pieces.take(count).map_values(|p: (usize, usize)| trim(chars.subrange(p.0 as int, p.1 as int)))
            == split_on(text, ',').take(count).map_values(|f: Seq<char>| trim(f)),
{
    assert(pieces.take(count).map_values(|p: (usize, usize)| trim(chars.subrange(p.0 as int, p.1 as int)))
        =~= split_on(text, ',').take(count).map_values(|f: Seq<char>| trim(f)));
}

/// Parse a CSV text into its header names and rows.
///
/// Lines are split at `\n` (a `\r` before it is dropped). The first line
/// gives the headers (trimmed). Each further line is trimmed; blank lines
/// are skipped, and so are lines with fewer fields than there are headers.
/// A row keeps one trimmed field per header, in header order. Returns
/// `None` for a text without any line.
pub fn parse_csv(content: &str) -> (r: Option<(Vec<String>, Vec<Vec<String>>)>)
    ensures
        r is None <==> lines_of(content@).len() == 0,
        r matches Some((headers, rows)) ==> {
            &&& strings_view(headers@) == csv_headers_spec(content@)
            &&& rows_view(rows@) == csv_rows_spec(lines_of(content@).drop_first(), headers@.len())
        },
{
    let chars = chars_of(content);
    let lines = line_ranges(&chars);
    if lines.len() == 0 {
        return None;
    }
    let ghost ls = lines_of(content@);
    let (ha, hb) = lines[0];
    let hpieces = split_ranges(&chars, ha, hb, ',');
    let headers = trimmed_fields(&chars, &hpieces, hpieces.len());
    proof {
        lemma_pieces_as_split(chars@, hpieces@, ls[0], hpieces@.len() as int);
        assert(hpieces@.take(hpieces@.len() as int) =~= hpieces@);
        assert(split_on(ls[0], ',').take(hpieces@.len() as int) =~= split_on(ls[0], ','));
    }
    let nh = headers.len();
    let mut rows: Vec<Vec<String>> = Vec::new();
    let mut k: usize = 1;
    proof {
        assert(ls.subrange(1, 1) =~= Seq::<Seq<char>>::empty());
        assert(rows_view(rows@) =~= Seq::<Seq<Seq<char>>>::empty());
    }
    while k < lines.len()
        invariant
            lines@.len() == ls.len(),
            ls == lines_of(chars@),
            forall|j: int|
                0 <= j < lines@.len() ==> {
                    &&& (#[trigger] lines@[j]).0 <= lines@[j].1 <= chars@.len()
                    &&& chars@.subrange(lines@[j].0 as int, lines@[j].1 as int) == ls[j]
                },
            1 <= k <= lines@.len(),
            rows_view(rows@) == csv_rows_spec(ls.subrange(1, k as int), nh as nat),
        decreases lines@.len() - k,
    {
        let ghost prev = rows@;
        let ghost line = ls[k as int];
        proof {
            assert(ls.subrange(1, k + 1).drop_last() =~= ls.subrange(1, k as int));
            assert(ls.subrange(1, k + 1).last() == line);
        }
        let (a, b) = lines[k];
        let (ta, tb) = trim_range(&chars, a, b);
        if ta < tb {
            let pieces = split_ranges(&chars, ta, tb, ',');
            if pieces.len() >= nh {
                let row = trimmed_fields(&chars, &pieces, nh);
                proof {
                    lemma_pieces_as_split(chars@, pieces@, trim(line), nh as int);
                }
                rows.push(row);
                proof {
                    assert(rows_view(rows@) =~= rows_view(prev).push(strings_view(row@)));
                }
            }
        }
        k = k + 1;
    }
    proof {
        assert(ls.subrange(1, ls.len() as int) =~= ls.drop_first());
    }
    Some((headers, rows))
}

/// Index of the last header named `name`, or -1 when there is none.
pub open spec fn last_header(headers: Seq<Seq<char>>, name: Seq<char>) -> int
    decreases headers.len(),
{
    if headers.len() == 0 {
        -1
    } else if headers.last() == name {
        headers.len() - 1
    } else {
        last_header(headers.drop_last(), name)
    }
}

/// The field of a row under a header name (the last header of that name
/// counts, as when a row is keyed by header in a map).
pub open spec fn field_spec(headers: Seq<Seq<char>>, row: Seq<Seq<char>>, name: Seq<char>) -> Option<Seq<char>> {
    let j = last_header(headers, name);
    if j < 0 {
        None
    } else {
        Some(row[j])
    }
}

proof fn lemma_last_header(headers: Seq<Seq<char>>, name: Seq<char>, j: int)
    requires
        -1 <= j < headers.len(),
        j >= 0 ==> headers[j] == name,
        forall|k: int| j < k < headers.len() ==> headers[k] != name,
    ensures
        last_header(headers, name) == j,
    decreases headers.len(),
{
    if headers.len() > 0 && j < headers.len() - 1 {
        lemma_last_header(headers.drop_last(), name, j);
    }
}

/// Look up the field of a row under a header name. When several headers
/// carry the name, the last one counts.
pub fn csv_field<'a>(headers: &Vec<String>, row: &'a Vec<String>, name: &str) -> (r: Option<&'a String>)
    requires
        row@.len() == headers@.len(),
    ensures
        r is None <==> field_spec(strings_view(headers@), strings_view(row@), name@) is None,
        r matches Some(v) ==> field_spec(strings_view(headers@), strings_view(row@), name@) == Some(v@),
{
    let key = name.to_owned();
    let ghost hs = strings_view(headers@);
    let mut j = headers.len();
    while j > 0
        invariant
            j <= headers@.len(),
            row@.len() == headers@.len(),
            key@ == name@,
            hs == strings_view(headers@),
            forall|k: int| j <= k < headers@.len() ==> hs[k] != name@,
        decreases j,
    {
        j = j - 1;
        if headers[j] == key {
            proof {
                lemma_last_header(hs, name@, j as int);
            }
            return Some(&row[j]);
        }
    }
    proof {
        lemma_last_header(hs, name@, -1);
    }
    None
}

} // verus!
