//! Decoding of SRTM DEM heightmap tiles (`.hgt` files).
//!
//! A tile is a square grid of big-endian 16-bit signed elevations in
//! metres, row-major from north to south and west to east: 3601 samples
//! per side for SRTM1 (1 arc-second) and 1201 for SRTM3 (3 arc-second).

use vstd::prelude::*;

verus! {

/// SRTM1 (1 arc-second) samples per side: 3601.
pub const SRTM1_SAMPLES: usize = 3601;

/// SRTM3 (3 arc-second) samples per side: 1201.
pub const SRTM3_SAMPLES: usize = 1201;

/// SRTM void (no-data) sentinel value.
pub const SRTM_VOID: i16 = -32768;

/// Byte size of an SRTM1 tile.
pub const SRTM1_BYTES: usize = 25_934_402;

/// Byte size of an SRTM3 tile.
pub const SRTM3_BYTES: usize = 2_884_802;

/// Why a tile could not be decoded.
#[derive(Debug, Clone, Copy, PartialEq, Eq, Structural)]
pub enum HgtError {
    /// The data is neither an SRTM1 nor an SRTM3 tile.
    InvalidSize {
        /// Number of bytes found.
        len: usize,
    },
}

/// The signed 16-bit value of two big-endian bytes.
pub open spec fn be_i16(hi: u8, lo: u8) -> int {
    let v = hi * 256 + lo;
    if v >= 0x8000 {
        v - 0x1_0000
    } else {
        v
    }
}

/// The elevation stored at sample `i`: its big-endian value, with voids
/// read as sea level (0).
pub open spec fn sample_elevation(data: Seq<u8>, i: int) -> int {
    let v = be_i16(data[2 * i], data[2 * i + 1]);
    if v == SRTM_VOID {
        0
    } else {
        v
    }
}

/// Law: two bytes decode as the two's-complement reading of the 16-bit
/// number `hi * 256 + lo`: the value lies in the `i16` range and agrees
/// with that number modulo 2^16.
pub proof fn law_be_i16_is_twos_complement(hi: u8, lo: u8)
    ensures
        i16::MIN <= be_i16(hi, lo) <= i16::MAX,
        (be_i16(hi, lo) - (hi * 256 + lo)) % 0x1_0000 == 0,
        hi < 0x80 ==> be_i16(hi, lo) == hi * 256 + lo,
{
}

/// Law: whatever the data (and so whatever the tile size), a sample whose
/// big-endian value is the void sentinel reads as sea level (0), every
/// other sample reads as its big-endian value, and no sample reads as the
/// void sentinel.
pub proof fn law_voids_read_as_sea_level(data: Seq<u8>, i: int)
    ensures
        be_i16(data[2 * i], data[2 * i + 1]) == SRTM_VOID ==> sample_elevation(data, i) == 0,
        be_i16(data[2 * i], data[2 * i + 1]) != SRTM_VOID ==> sample_elevation(data, i) == be_i16(data[2 * i], data[2 * i + 1]),
        sample_elevation(data, i) != SRTM_VOID,
{
}

/// Samples per side of a tile of `len` bytes, if it is a tile size.
pub open spec fn tile_samples(len: nat) -> Option<nat> {
    if len == SRTM1_BYTES {
        Some(SRTM1_SAMPLES as nat)
    } else if len == SRTM3_BYTES {
        Some(SRTM3_SAMPLES as nat)
    } else {
        None
    }
}

/// Decode two big-endian bytes as an `i16`.
fn i16_from_be_bytes(hi: u8, lo: u8) -> (r: i16)
    ensures
        r == be_i16(hi, lo),
{
    let v: u32 = (hi as u32) * 256 + lo as u32;
    if v >= 0x8000 {
        (v as i32 - 0x1_0000) as i16
    } else {
        v as i16
    }
}

/// Decode an SRTM `.hgt` tile into an elevation grid.
///
/// Returns `(elevations, samples_per_side)` where elevations is a row-major
/// flat array (north to south, west to east). Void values (-32768) are
/// replaced with 0 (sea level). Data of any size other than an SRTM1
/// (3601x3601) or SRTM3 (1201x1201) tile is rejected.
pub fn parse_hgt_bytes(data: &[u8]) -> (r: Result<(Vec<i16>, usize), HgtError>)
    ensures
        tile_samples(data@.len()) is None <==> r is Err,
        r matches Err(e) ==> e == (HgtError::InvalidSize { len: data@.len() as usize }),
        r matches Ok((elevations, samples)) ==> {
            &&& tile_samples(data@.len()) == Some(samples as nat)
            &&& elevations@.len() == samples * samples
            &&& forall|i: int| 0 <= i < elevations@.len() ==> #[trigger] elevations@[i] == sample_elevation(data@, i)
            &&& forall|i: int| 0 <= i < elevations@.len() ==> #[trigger] elevations@[i] != SRTM_VOID
            &&& forall|i: int|
                0 <= i < elevations@.len() ==> #[trigger] elevations@[i] == (if be_i16(data@[2 * i], data@[2 * i + 1])
                    == SRTM_VOID {
                    0
                } else {
                    be_i16(data@[2 * i], data@[2 * i + 1])
                })
        },
{
    let len = data.len();
    let samples: usize = if len == SRTM1_BYTES {
        SRTM1_SAMPLES
    } else if len == SRTM3_BYTES {
        SRTM3_SAMPLES
    } else {
        return Err(HgtError::InvalidSize { len });
    };
    let total = samples * samples;
    let mut elevations: Vec<i16> = Vec::with_capacity(total);
    let mut i: usize = 0;
    while i < total
        invariant
            total == samples * samples,
            data@.len() == 2 * total,
            len == data@.len(),
            0 <= i <= total,
            elevations@.len() == i,
            forall|k: int| 0 <= k < i ==> #[trigger] elevations@[k] == sample_elevation(data@, k),
        decreases total - i,
    {
        let offset = i * 2;
        let raw = i16_from_be_bytes(data[offset], data[offset + 1]);
        let value = if raw == SRTM_VOID {
            0
        } else {
            raw
        };
        elevations.push(value);
        i = i + 1;
    }
    proof {
        assert forall|k: int| 0 <= k < elevations@.len() implies #[trigger] elevations@[k] != SRTM_VOID && elevations@[k]
            == (if be_i16(data@[2 * k], data@[2 * k + 1]) == SRTM_VOID {
            0
        } else {
            be_i16(data@[2 * k], data@[2 * k + 1])
        }) by {
            law_voids_read_as_sea_level(data@, k);
        }
    }
    Ok((elevations, samples))
}

/// The six vertex indices of the grid quad whose top-left vertex is at
/// (`row`, `col`) in a row-major grid `cols` vertices wide: the triangles
/// (top-left, bottom-left, top-right) and (top-right, bottom-left,
/// bottom-right).
pub open spec fn quad_indices(cols: int, row: int, col: int) -> Seq<u32> {
    let tl = row * cols + col;
    let bl = (row + 1) * cols + col;
    seq![tl as u32, bl as u32, (tl + 1) as u32, (tl + 1) as u32, bl as u32, (bl + 1) as u32]
}

proof fn lemma_quad_before(cols: int, rr: int, cc: int, row: int, col: int)
    requires
        cols >= 2,
        0 <= rr,
        0 <= cc < cols - 1,
        0 <= col <= cols - 1,
        rr < row || (rr == row && cc < col),
    ensures
        rr * (cols - 1) + cc < row * (cols - 1) + col,
{
    if rr < row {
        assert(rr * (cols - 1) + cc < row * (cols - 1)) by (nonlinear_arith)
            requires
                rr < row,
                0 <= cc < cols - 1,
                cols >= 2,
        ;
    }
}

/// Triangle indices of a row-major grid of vertices, two triangles per
/// quad, quads in row-major order (the index buffer of a terrain mesh).
pub fn grid_triangle_indices(num_rows: usize, num_cols: usize) -> (r: Vec<u32>)
    requires
        1 <= num_rows,
        1 <= num_cols,
        num_rows * num_cols <= u32::MAX,
    ensures
        r@.len() == (num_rows - 1) * (num_cols - 1) * 6,
        forall|row: int, col: int, k: int|
            0 <= row < num_rows - 1 && 0 <= col < num_cols - 1 && 0 <= k < 6 ==> r@[(row * (num_cols - 1) + col) * 6 + k]
                == #[trigger] quad_indices(num_cols as int, row, col)[k],
{
    let mut out: Vec<u32> = Vec::new();
    if num_rows < 2 || num_cols < 2 {
        return out;
    }
    let ghost c1 = (num_cols - 1) as int;
    let mut row: usize = 0;
    while row < num_rows - 1
        invariant
            2 <= num_rows,
            2 <= num_cols,
            c1 == num_cols - 1,
            num_rows * num_cols <= u32::MAX,
            0 <= row <= num_rows - 1,
            out@.len() == row * c1 * 6,
            forall|rr: int, cc: int, k: int|
                0 <= rr < row && 0 <= cc < c1 && 0 <= k < 6 ==> out@[(rr * c1 + cc) * 6 + k]
                    == #[trigger] quad_indices(num_cols as int, rr, cc)[k],
        decreases num_rows - 1 - row,
    {
        let mut col: usize = 0;
        while col < num_cols - 1
            invariant
                2 <= num_rows,
                2 <= num_cols,
                c1 == num_cols - 1,
                num_rows * num_cols <= u32::MAX,
                0 <= row < num_rows - 1,
                0 <= col <= num_cols - 1,
                out@.len() == (row * c1 + col) * 6,
                forall|rr: int, cc: int, k: int|
                    0 <= rr && 0 <= cc < c1 && 0 <= k < 6 && (rr < row || (rr == row && cc < col)) ==> out@[(
                    rr * c1 + cc) * 6 + k] == #[trigger] quad_indices(num_cols as int, rr, cc)[k],
            decreases num_cols - 1 - col,
        {
            proof {
                assert((row + 1) * num_cols + col + 1 < num_rows * num_cols) by (nonlinear_arith)
                    requires
                        row + 1 < num_rows,
                        col + 1 < num_cols,
                ;
                assert(row * num_cols + col <= (row + 1) * num_cols + col) by (nonlinear_arith)
                    requires
                        0 <= row,
                        0 <= num_cols,
                ;
                assert((row + 1) * num_cols == row * num_cols + num_cols) by (nonlinear_arith);
            }
            let tl = (row * num_cols + col) as u32;
            let tr = tl + 1;
            let bl = ((row + 1) * num_cols + col) as u32;
            let br = bl + 1;
            let ghost base = (row * c1 + col) * 6;
            let ghost before = out@;
            out.push(tl);
            out.push(bl);
            out.push(tr);
            out.push(tr);
            out.push(bl);
            out.push(br);
            proof {
                let q = quad_indices(num_cols as int, row as int, col as int);
                assert(before.len() == base);
                assert forall|k: int| 0 <= k < 6 implies out@[base + k] == q[k] by {
                    assert(out@[base + k] == seq![tl, bl, tr, tr, bl, br][k]);
                }
                assert((row * c1 + col + 1) * 6 == base + 6) by (nonlinear_arith)
                    requires
                        base == (row * c1 + col) * 6,
                ;
                assert forall|rr: int, cc: int, k: int|
                    0 <= rr && 0 <= cc < c1 && 0 <= k < 6 && (rr < row || (rr == row && cc < col + 1)) implies out@[(
                    rr * c1 + cc) * 6 + k] == #[trigger] quad_indices(num_cols as int, rr, cc)[k] by {
                    if rr == row && cc == col {
                        assert((rr * c1 + cc) * 6 + k == base + k);
                    } else {
                        lemma_quad_before(num_cols as int, rr, cc, row as int, col as int);
                        assert((rr * c1 + cc) * 6 + k < base) by (nonlinear_arith)
                            requires
                                rr * c1 + cc < row * c1 + col,
                                base == (row * c1 + col) * 6,
                                0 <= k < 6,
                        ;
                        assert(out@[(rr * c1 + cc) * 6 + k] == before[(rr * c1 + cc) * 6 + k]);
                    }
                }
            }
            col = col + 1;
        }
        proof {
            assert((row * c1 + c1) * 6 == (row + 1) * c1 * 6) by (nonlinear_arith);
            assert forall|rr: int, cc: int, k: int|
                0 <= rr < row + 1 && 0 <= cc < c1 && 0 <= k < 6 implies out@[(rr * c1 + cc) * 6 + k]
                    == #[trigger] quad_indices(num_cols as int, rr, cc)[k] by {
                assert(rr < row || (rr == row && cc < col));
            }
        }
        row = row + 1;
    }
    out
}

/// Law: every index of a grid quad names a vertex of the grid.
pub proof fn law_quad_indices_within_grid(num_rows: int, num_cols: int, row: int, col: int, k: int)
    requires
        num_rows * num_cols <= u32::MAX,
        0 <= row < num_rows - 1,
        0 <= col < num_cols - 1,
        0 <= k < 6,
    ensures
        quad_indices(num_cols, row, col)[k] < num_rows * num_cols,
{
    assert((row + 1) * num_cols + col + 1 < num_rows * num_cols) by (nonlinear_arith)
        requires
            row + 1 < num_rows,
            col + 1 < num_cols,
            0 <= col,
    ;
    assert(row * num_cols + col + 1 <= (row + 1) * num_cols + col) by (nonlinear_arith)
        requires
            0 <= row,
            0 <= col,
            col + 1 < num_cols,
    ;
    assert(0 <= row * num_cols) by (nonlinear_arith)
        requires
            0 <= row,
            0 <= num_cols,
    ;
}

} // verus!
