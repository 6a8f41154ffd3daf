//! Origin-Destination matrix for zone-to-zone trip volumes.

use vstd::prelude::*;

verus! {

/// Number of traffic analysis zones.
pub const ZONE_COUNT: usize = 10;

/// Traffic analysis zones: the five District 1 POC zones and the five
/// city districts of the wider HCMC model.
#[derive(Debug, Clone, Copy, PartialEq, Eq, Structural, Hash)]
pub enum Zone {
    BenThanh,
    NguyenHue,
    Bitexco,
    BuiVien,
    Waterfront,
    District1,
    District3,
    District5,
    District10,
    BinhThanh,
}

/// Position of a zone in declaration order.
pub open spec fn zone_index(z: Zone) -> int {
    match z {
        Zone::BenThanh => 0,
        Zone::NguyenHue => 1,
        Zone::Bitexco => 2,
        Zone::BuiVien => 3,
        Zone::Waterfront => 4,
        Zone::District1 => 5,
        Zone::District3 => 6,
        Zone::District5 => 7,
        Zone::District10 => 8,
        Zone::BinhThanh => 9,
    }
}

/// The zone at a position in declaration order.
pub open spec fn zone_at(i: int) -> Zone {
    if i <= 0 {
        Zone::BenThanh
    } else if i == 1 {
        Zone::NguyenHue
    } else if i == 2 {
        Zone::Bitexco
    } else if i == 3 {
        Zone::BuiVien
    } else if i == 4 {
        Zone::Waterfront
    } else if i == 5 {
        Zone::District1
    } else if i == 6 {
        Zone::District3
    } else if i == 7 {
        Zone::District5
    } else if i == 8 {
        Zone::District10
    } else {
        Zone::BinhThanh
    }
}

/// Position of the (from, to) cell in the row-major trip table.
/// Position of a zone pair's cell in the row-major trip table.
pub open spec fn cell_index(from: Zone, to: Zone) -> int {
    zone_index(from) * 10 + zone_index(to)
}

/// Every zone pair has its own cell.
pub proof fn lemma_cell_index_injective(f1: Zone, t1: Zone, f2: Zone, t2: Zone)
    ensures
        0 <= cell_index(f1, t1) < 100,
        cell_index(f1, t1) == cell_index(f2, t2) ==> f1 == f2 && t1 == t2,
{
}

impl Zone {
    /// Position of this zone in declaration order.
    pub fn index(self) -> (r: usize)
        ensures
            r == zone_index(self),
            r < ZONE_COUNT,
    {
        match self {
            Zone::BenThanh => 0,
            Zone::NguyenHue => 1,
            Zone::Bitexco => 2,
            Zone::BuiVien => 3,
            Zone::Waterfront => 4,
            Zone::District1 => 5,
            Zone::District3 => 6,
            Zone::District5 => 7,
            Zone::District10 => 8,
            Zone::BinhThanh => 9,
        }
    }

    /// The zone at a position in declaration order.
    pub fn from_index(i: usize) -> (r: Zone)
        requires
            i < ZONE_COUNT,
        ensures
            r == zone_at(i as int),
            zone_index(r) == i,
    {
        if i == 0 {
            Zone::BenThanh
        } else if i == 1 {
            Zone::NguyenHue
        } else if i == 2 {
            Zone::Bitexco
        } else if i == 3 {
            Zone::BuiVien
        } else if i == 4 {
            Zone::Waterfront
        } else if i == 5 {
            Zone::District1
        } else if i == 6 {
            Zone::District3
        } else if i == 7 {
            Zone::District5
        } else if i == 8 {
            Zone::District10
        } else {
            Zone::BinhThanh
        }
    }
}

/// Sum of a sequence of trip counts.
pub open spec fn sum_counts(s: Seq<u32>) -> nat
    decreases s.len(),
{
    if s.len() == 0 {
        0
    } else {
        sum_counts(s.drop_last()) + s.last() as nat
    }
}

/// The non-zero cells among the first `n` cells of a trip table, as
/// (from, to, count) triples in row-major order.
pub open spec fn nonzero_cells(cells: Seq<u32>, n: int) -> Seq<(Zone, Zone, u32)>
    decreases n,
{
    if n <= 0 {
        Seq::empty()
    } else {
        let rest = nonzero_cells(cells, n - 1);
        if cells[n - 1] == 0 {
            rest
        } else {
            rest.push((zone_at((n - 1) / 10), zone_at((n - 1) % 10), cells[n - 1]))
        }
    }
}

/// Origin-Destination matrix storing zone-to-zone trip counts (trips per hour).
#[derive(Debug, Clone)]
pub struct OdMatrix {
    trips: [u32; 100],
}

impl OdMatrix {
    /// The trip table in row-major order (origin major).
    pub closed spec fn cells(&self) -> Seq<u32> {
        self.trips@
    }

    /// Trips per hour configured for a zone pair (0 if not configured).
    pub open spec fn trips(&self, from: Zone, to: Zone) -> u32 {
        self.cells()[cell_index(from, to)]
    }

    /// Sum of all trips across all zone pairs.
    pub open spec fn total(&self) -> nat {
        sum_counts(self.cells())
    }

    /// The table has one cell per ordered zone pair.
    pub proof fn lemma_cells_len(&self)
        ensures
            self.cells().len() == 100,
    {
    }

    /// Create an empty OD matrix.
    pub fn new() -> (r: Self)
        ensures
            r.cells().len() == 100,
            forall|i: int| 0 <= i < 100 ==> r.cells()[i] == 0,
            forall|from: Zone, to: Zone| r.trips(from, to) == 0,
            r.total() == 0,
    {
        let r = OdMatrix { trips: [0u32; 100] };
        proof {
            lemma_sum_zeros(r.cells());
        }
        r
    }

    /// Set trips per hour for a zone pair.
    pub fn set_trips(&mut self, from: Zone, to: Zone, count: u32)
        ensures
            final(self).cells() == old(self).cells().update(cell_index(from, to), count),
            final(self).trips(from, to) == count,
            final(self).total() == old(self).total() - old(self).trips(from, to) + count,
            forall|f: Zone, t: Zone|
                !(f == from && t == to) ==> #[trigger] final(self).trips(f, t) == old(self).trips(
                    f,
                    t,
                ),
    {
        let i = from.index() * ZONE_COUNT + to.index();
        self.trips[i] = count;
        proof {
            lemma_cell_index_injective(from, to, from, to);
            lemma_sum_update(old(self).cells(), cell_index(from, to), count);
            assert forall|f: Zone, t: Zone| !(f == from && t == to) implies #[trigger] self.trips(
                f,
                t,
            ) == old(self).trips(f, t) by {
                lemma_cell_index_injective(f, t, from, to);
            }
        }
    }

    /// Get trips per hour for a zone pair. Returns 0 if not configured.
    pub fn get_trips(&self, from: Zone, to: Zone) -> (r: u32)
        ensures
            r == self.trips(from, to),
    {
        self.trips[from.index() * ZONE_COUNT + to.index()]
    }

    /// Sum of all trips across all zone pairs.
    ///
    /// The sum must fit in a `u32`.
    pub fn total_trips(&self) -> (r: u32)
        requires
            self.total() <= u32::MAX,
        ensures
            r == self.total(),
    {
        let mut sum: u32 = 0;
        let mut i: usize = 0;
        while i < 100
            invariant
                0 <= i <= 100,
                self.cells().len() == 100,
                sum == sum_counts(self.cells().take(i as int)),
                self.total() <= u32::MAX,
            decreases 100 - i,
        {
            proof {
                assert(self.cells().take(i + 1).drop_last() =~= self.cells().take(i as int));
                lemma_sum_prefix_le(self.cells(), i + 1);
            }
            sum = sum + self.trips[i];
            i = i + 1;
        }
        proof {
            assert(self.cells().take(100) =~= self.cells());
        }
        sum
    }

    /// All non-zero zone pairs as (from, to, count), in row-major order.
    pub fn zone_pairs(&self) -> (r: Vec<(Zone, Zone, u32)>)
        ensures
            r@ == nonzero_cells(self.cells(), 100),
    {
        let mut out: Vec<(Zone, Zone, u32)> = Vec::new();
        let mut i: usize = 0;
        while i < 100
            invariant
                0 <= i <= 100,
                self.cells().len() == 100,
                out@ == nonzero_cells(self.cells(), i as int),
            decreases 100 - i,
        {
            let c = self.trips[i];
            if c != 0 {
                out.push((Zone::from_index(i / ZONE_COUNT), Zone::from_index(i % ZONE_COUNT), c));
            }
            i = i + 1;
        }
        out
    }
}

/// The sum of a prefix never exceeds the sum of the whole sequence.
pub proof fn lemma_sum_prefix_le(s: Seq<u32>, n: int)
    requires
        0 <= n <= s.len(),
    ensures
        sum_counts(s.take(n)) <= sum_counts(s),
    decreases s.len() - n,
{
    if n < s.len() {
        lemma_sum_prefix_le(s, n + 1);
        assert(s.take(n + 1).drop_last() =~= s.take(n));
    } else {
        assert(s.take(n) =~= s);
    }
}

/// Replacing one element changes the sum by the difference.
pub proof fn lemma_sum_update(s: Seq<u32>, i: int, v: u32)
    requires
        0 <= i < s.len(),
    ensures
        sum_counts(s.update(i, v)) == sum_counts(s) - s[i] + v,
    decreases s.len(),
{
    if i == s.len() - 1 {
        assert(s.update(i, v).drop_last() =~= s.drop_last());
    } else {
        lemma_sum_update(s.drop_last(), i, v);
        assert(s.update(i, v).drop_last() =~= s.drop_last().update(i, v));
    }
}

/// A sequence of zeros sums to zero.
pub proof fn lemma_sum_zeros(s: Seq<u32>)
    requires
        forall|i: int| 0 <= i < s.len() ==> s[i] == 0,
    ensures
        sum_counts(s) == 0,
    decreases s.len(),
{
    if s.len() > 0 {
        lemma_sum_zeros(s.drop_last());
    }
}

/// Membership in the non-zero listing of the first `n` cells.
pub proof fn lemma_nonzero_cells_members(cells: Seq<u32>, n: int)
    requires
        0 <= n <= cells.len(),
        cells.len() == 100,
    ensures
        forall|k: int|
            0 <= k < nonzero_cells(cells, n).len() ==> {
                let e = #[trigger] nonzero_cells(cells, n)[k];
                &&& 0 <= cell_index(e.0, e.1) < n
                &&& e.2 == cells[cell_index(e.0, e.1)]
                &&& e.2 != 0
            },
        forall|i: int|
            0 <= i < n && cells[i] != 0 ==> exists|k: int|
                0 <= k < nonzero_cells(cells, n).len() && #[trigger] nonzero_cells(cells, n)[k]
                    == (zone_at(i / 10), zone_at(i % 10), cells[i]),
    decreases n,
{
    if n > 0 {
        lemma_nonzero_cells_members(cells, n - 1);
        let rest = nonzero_cells(cells, n - 1);
        let i = n - 1;
        assert(cell_index(zone_at(i / 10), zone_at(i % 10)) == i);
        if cells[n - 1] != 0 {
            let cur = nonzero_cells(cells, n);
            assert(cur == rest.push((zone_at(i / 10), zone_at(i % 10), cells[i])));
            assert(cur[rest.len() as int] == (zone_at(i / 10), zone_at(i % 10), cells[i]));
            assert forall|j: int| 0 <= j < n && cells[j] != 0 implies exists|k: int|
                0 <= k < cur.len() && #[trigger] cur[k] == (zone_at(j / 10), zone_at(j % 10), cells[j]) by {
                if j < n - 1 {
                    let k = choose|k: int|
                        0 <= k < rest.len() && #[trigger] rest[k] == (zone_at(j / 10), zone_at(j % 10), cells[j]);
                    assert(cur[k] == rest[k]);
                } else {
                    assert(cur[rest.len() as int] == (zone_at(j / 10), zone_at(j % 10), cells[j]));
                }
            }
        } else {
            assert(nonzero_cells(cells, n) == rest);
            assert forall|j: int| 0 <= j < n && cells[j] != 0 implies exists|k: int|
                0 <= k < rest.len() && #[trigger] rest[k] == (zone_at(j / 10), zone_at(j % 10), cells[j]) by {
                assert(j < n - 1);
            }
        }
    }
}

/// Sum of the counts of a list of (from, to, count) triples.
pub open spec fn pair_counts_sum(s: Seq<(Zone, Zone, u32)>) -> nat
    decreases s.len(),
{
    if s.len() == 0 {
        0
    } else {
        pair_counts_sum(s.drop_last()) + s.last().2 as nat
    }
}

/// The listing of the first `n` cells goes in strictly increasing cell
/// order, and its counts add up to those of the first `n` cells.
proof fn lemma_nonzero_cells_order_and_sum(cells: Seq<u32>, n: int)
    requires
        0 <= n <= cells.len(),
        cells.len() == 100,
    ensures
        forall|a: int, b: int|
            0 <= a < b < nonzero_cells(cells, n).len() ==> cell_index(
                #[trigger] nonzero_cells(cells, n)[a].0,
                nonzero_cells(cells, n)[a].1,
            ) < cell_index(#[trigger] nonzero_cells(cells, n)[b].0, nonzero_cells(cells, n)[b].1),
        forall|a: int| 0 <= a < nonzero_cells(cells, n).len() ==> cell_index(
            #[trigger] nonzero_cells(cells, n)[a].0,
            nonzero_cells(cells, n)[a].1,
        ) < n,
        pair_counts_sum(nonzero_cells(cells, n)) == sum_counts(cells.take(n)),
    decreases n,
{
    if n == 0 {
        assert(cells.take(0) =~= Seq::<u32>::empty());
    } else {
        lemma_nonzero_cells_order_and_sum(cells, n - 1);
        let rest = nonzero_cells(cells, n - 1);
        let cur = nonzero_cells(cells, n);
        let i = n - 1;
        assert(cells.take(n).drop_last() =~= cells.take(n - 1));
        assert(cell_index(zone_at(i / 10), zone_at(i % 10)) == i);
        if cells[i] != 0 {
            assert(cur == rest.push((zone_at(i / 10), zone_at(i % 10), cells[i])));
            assert(cur.drop_last() =~= rest);
            assert forall|a: int, b: int| 0 <= a < b < cur.len() implies cell_index(
                #[trigger] cur[a].0,
                cur[a].1,
            ) < cell_index(#[trigger] cur[b].0, cur[b].1) by {
                assert(cur[a] == rest[a]);
                if b < rest.len() {
                    assert(cur[b] == rest[b]);
                }
            }
            assert forall|a: int| 0 <= a < cur.len() implies cell_index(#[trigger] cur[a].0, cur[a].1) < n by {
                if a < rest.len() {
                    assert(cur[a] == rest[a]);
                }
            }
        } else {
            assert(cur == rest);
        }
    }
}

impl OdMatrix {
    /// Law: no zone pair is listed twice, and the listed counts add up to
    /// the matrix's total.
    pub proof fn law_zone_pairs_distinct_and_sum_to_total(m: OdMatrix)
        ensures
            forall|a: int, b: int|
                0 <= a < b < nonzero_cells(m.cells(), 100).len() ==> (
                #[trigger] nonzero_cells(m.cells(), 100)[a].0,
                nonzero_cells(m.cells(), 100)[a].1,
            ) != (#[trigger] nonzero_cells(m.cells(), 100)[b].0, nonzero_cells(m.cells(), 100)[b].1),
            pair_counts_sum(nonzero_cells(m.cells(), 100)) == m.total(),
    {
        m.lemma_cells_len();
        lemma_nonzero_cells_order_and_sum(m.cells(), 100);
        assert(m.cells().take(100) =~= m.cells());
    }
}

/// Trips per hour between District 1 POC zones.
pub open spec fn district1_poc_trips(from: Zone, to: Zone) -> u32 {
    match (from, to) {
        (Zone::BenThanh, Zone::NguyenHue) => 80,
        (Zone::NguyenHue, Zone::BenThanh) => 70,
        (Zone::BenThanh, Zone::Bitexco) => 60,
        (Zone::Bitexco, Zone::BenThanh) => 50,
        (Zone::BenThanh, Zone::BuiVien) => 50,
        (Zone::BuiVien, Zone::BenThanh) => 60,
        (Zone::NguyenHue, Zone::Waterfront) => 40,
        (Zone::Waterfront, Zone::NguyenHue) => 40,
        (Zone::Bitexco, Zone::Waterfront) => 30,
        (Zone::Waterfront, Zone::Bitexco) => 30,
        (Zone::BuiVien, Zone::Bitexco) => 25,
        (Zone::Bitexco, Zone::BuiVien) => 25,
        _ => 0,
    }
}

/// Whether a zone is one of the five city districts.
pub open spec fn is_district(z: Zone) -> bool {
    zone_index(z) >= 5
}

/// Hourly trips generated by a city district at the reference (factor 1.0)
/// demand level.
pub open spec fn district_outbound(z: Zone) -> nat {
    match z {
        Zone::District1 => 40_000,
        Zone::District3 => 35_000,
        Zone::District5 => 30_000,
        Zone::District10 => 35_000,
        Zone::BinhThanh => 35_000,
        _ => 0,
    }
}

/// Trips per hour between city districts: 40% of a district's outbound
/// trips stay inside it, 15% go to each of the four other districts.
pub open spec fn hcmc_5district_trips(from: Zone, to: Zone) -> u32 {
    if !is_district(from) || !is_district(to) {
        0
    } else if from == to {
        (district_outbound(from) * 40 / 100) as u32
    } else {
        (district_outbound(from) * 15 / 100) as u32
    }
}

impl OdMatrix {
    /// Law: setting a pair's count changes the total by the difference
    /// between the new and the old count.
    pub proof fn law_total_after_set(old_m: OdMatrix, new_m: OdMatrix, from: Zone, to: Zone, count: u32)
        requires
            new_m.cells() == old_m.cells().update(cell_index(from, to), count),
        ensures
            new_m.total() == old_m.total() - old_m.trips(from, to) + count,
    {
        old_m.lemma_cells_len();
        lemma_sum_update(old_m.cells(), cell_index(from, to), count);
    }

    /// Law: the zone pairs listed are exactly the pairs with a non-zero
    /// count, each listed with its count.
    pub proof fn law_zone_pairs_are_nonzero_pairs(m: OdMatrix)
        ensures
            forall|k: int|
                0 <= k < nonzero_cells(m.cells(), 100).len() ==> {
                    let e = #[trigger] nonzero_cells(m.cells(), 100)[k];
                    e.2 == m.trips(e.0, e.1) && e.2 != 0
                },
            forall|from: Zone, to: Zone|
                #[trigger] m.trips(from, to) != 0 ==> nonzero_cells(m.cells(), 100).contains(
                    (from, to, m.trips(from, to)),
                ),
    {
        m.lemma_cells_len();
        lemma_nonzero_cells_members(m.cells(), 100);
        assert forall|from: Zone, to: Zone| #[trigger] m.trips(from, to) != 0 implies nonzero_cells(
            m.cells(),
            100,
        ).contains((from, to, m.trips(from, to))) by {
            let i = cell_index(from, to);
            assert(zone_at(i / 10) == from && zone_at(i % 10) == to);
            let k = choose|k: int|
                0 <= k < nonzero_cells(m.cells(), 100).len() && #[trigger] nonzero_cells(
                    m.cells(),
                    100,
                )[k] == (zone_at(i / 10), zone_at(i % 10), m.cells()[i]);
            assert(nonzero_cells(m.cells(), 100)[k] == (from, to, m.trips(from, to)));
        }
    }

    /// Factory: District 1 POC OD matrix with 5 zones and realistic trip
    /// volumes (560 trips per hour over 12 zone pairs).
    pub fn district1_poc() -> (r: Self)
        ensures
            forall|from: Zone, to: Zone| #[trigger] r.trips(from, to) == district1_poc_trips(from, to),
            r.total() == 560,
    {
        let mut od = OdMatrix::new();
        od.set_trips(Zone::BenThanh, Zone::NguyenHue, 80);
        od.set_trips(Zone::NguyenHue, Zone::BenThanh, 70);
        od.set_trips(Zone::BenThanh, Zone::Bitexco, 60);
        od.set_trips(Zone::Bitexco, Zone::BenThanh, 50);
        od.set_trips(Zone::BenThanh, Zone::BuiVien, 50);
        od.set_trips(Zone::BuiVien, Zone::BenThanh, 60);
        od.set_trips(Zone::NguyenHue, Zone::Waterfront, 40);
        od.set_trips(Zone::Waterfront, Zone::NguyenHue, 40);
        od.set_trips(Zone::Bitexco, Zone::Waterfront, 30);
        od.set_trips(Zone::Waterfront, Zone::Bitexco, 30);
        od.set_trips(Zone::BuiVien, Zone::Bitexco, 25);
        od.set_trips(Zone::Bitexco, Zone::BuiVien, 25);
        od
    }

    /// Factory: five-district HCMC OD matrix (District 1, 3, 5, 10 and Binh
    /// Thanh) with all 25 district pairs populated, 175,000 trips per hour at
    /// the reference demand level.
    pub fn hcmc_5district() -> (r: Self)
        ensures
            forall|from: Zone, to: Zone| #[trigger] r.trips(from, to) == hcmc_5district_trips(from, to),
            r.total() == 175_000,
    {
        let mut od = OdMatrix::new();
        od.set_trips(Zone::District1, Zone::District1, 16000);
        od.set_trips(Zone::District1, Zone::District3, 6000);
        od.set_trips(Zone::District1, Zone::District5, 6000);
        od.set_trips(Zone::District1, Zone::District10, 6000);
        od.set_trips(Zone::District1, Zone::BinhThanh, 6000);
        od.set_trips(Zone::District3, Zone::District1, 5250);
        od.set_trips(Zone::District3, Zone::District3, 14000);
        od.set_trips(Zone::District3, Zone::District5, 5250);
        od.set_trips(Zone::District3, Zone::District10, 5250);
        od.set_trips(Zone::District3, Zone::BinhThanh, 5250);
        od.set_trips(Zone::District5, Zone::District1, 4500);
        od.set_trips(Zone::District5, Zone::District3, 4500);
        od.set_trips(Zone::District5, Zone::District5, 12000);
        od.set_trips(Zone::District5, Zone::District10, 4500);
        od.set_trips(Zone::District5, Zone::BinhThanh, 4500);
        od.set_trips(Zone::District10, Zone::District1, 5250);
        od.set_trips(Zone::District10, Zone::District3, 5250);
        od.set_trips(Zone::District10, Zone::District5, 5250);
        od.set_trips(Zone::District10, Zone::District10, 14000);
        od.set_trips(Zone::District10, Zone::BinhThanh, 5250);
        od.set_trips(Zone::BinhThanh, Zone::District1, 5250);
        od.set_trips(Zone::BinhThanh, Zone::District3, 5250);
        od.set_trips(Zone::BinhThanh, Zone::District5, 5250);
        od.set_trips(Zone::BinhThanh, Zone::District10, 5250);
        od.set_trips(Zone::BinhThanh, Zone::BinhThanh, 14000);
        od
    }
}

impl Default for OdMatrix {
    /// An empty OD matrix.
    fn default() -> (r: Self)
        ensures
            forall|from: Zone, to: Zone| r.trips(from, to) == 0,
            r.total() == 0,
    {
        OdMatrix::new()
    }
}

} // verus!
