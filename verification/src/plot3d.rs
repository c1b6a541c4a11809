//! PLOT3D structured-grid binary reading.
//!
//! A binary PLOT3D stream holds a 32-bit block count, then three 32-bit
//! dimensions per block, then for each block its x, y and z coordinate
//! arrays. Coordinates are carried here as raw IEEE-754 bit words (64-bit
//! words in double precision, 32-bit words zero-extended otherwise); turning
//! words into floating-point values is left to unverified callers.

use vstd::prelude::*;

verus! {

/// Failure conditions of the binary reader.
#[derive(Clone, Copy, Debug, PartialEq, Eq, Structural)]
pub enum Plot3dError {
    /// The stream ended before the announced data.
    Truncated,
    /// The stream announces zero blocks.
    BadBlockCount,
    /// The announced sizes do not fit this machine.
    TooLarge,
}

/// One structured block: its dimensions and raw coordinate words.
#[derive(Debug)]
pub struct Plot3DBlock {
    pub imax: u32,
    pub jmax: u32,
    pub kmax: u32,
    pub x: Vec<u64>,
    pub y: Vec<u64>,
    pub z: Vec<u64>,
}

/// The 32-bit word at `off`, under the given byte order.
pub open spec fn word32(s: Seq<u8>, off: int, big_endian: bool) -> int {
    if big_endian {
        s[off] * 0x1000000 + s[off + 1] * 0x10000 + s[off + 2] * 0x100 + s[off + 3]
    } else {
        s[off + 3] * 0x1000000 + s[off + 2] * 0x10000 + s[off + 1] * 0x100 + s[off]
    }
}

/// The 64-bit word at `off`, under the given byte order.
pub open spec fn word64(s: Seq<u8>, off: int, big_endian: bool) -> int {
    if big_endian {
        word32(s, off, true) * 0x100000000 + word32(s, off + 4, true)
    } else {
        word32(s, off + 4, false) * 0x100000000 + word32(s, off, false)
    }
}

/// Reads the 32-bit word at `off`.
fn read_u32(data: &Vec<u8>, off: usize, big_endian: bool) -> (r: u32)
    requires
        off + 4 <= data@.len(),
    ensures
        r as int == word32(data@, off as int, big_endian),
{
    let n = data.len();
    let b0 = data[off] as u32;
    let b1 = data[off + 1] as u32;
    let b2 = data[off + 2] as u32;
    let b3 = data[off + 3] as u32;
    if big_endian {
        b0 * 0x1000000 + b1 * 0x10000 + b2 * 0x100 + b3
    } else {
        b3 * 0x1000000 + b2 * 0x10000 + b1 * 0x100 + b0
    }
}

/// Reads the 64-bit word at `off`.
fn read_u64(data: &Vec<u8>, off: usize, big_endian: bool) -> (r: u64)
    requires
        off + 8 <= data@.len(),
    ensures
        r as int == word64(data@, off as int, big_endian),
{
    let n = data.len();
    let lo_off: usize = if big_endian {
        off + 4
    } else {
        off
    };
    let hi_off: usize = if big_endian {
        off
    } else {
        off + 4
    };
    let hi = read_u32(data, hi_off, big_endian) as u64;
    let lo = read_u32(data, lo_off, big_endian) as u64;
    hi * 0x100000000 + lo
}

/// Reads one coordinate chunk of `count` words starting at `off`: 8-byte
/// words in double precision, 4-byte words (zero-extended) otherwise.
/// Returns the words and the offset just past them. Fails with `Truncated`
/// exactly when the stream is shorter than the chunk needs.
pub fn read_plot3d_chunk_binary(
    data: &Vec<u8>,
    off: usize,
    count: usize,
    double_precision: bool,
    big_endian: bool,
) -> (r: Result<(Vec<u64>, usize), Plot3dError>)
    ensures
        ({
            let width: int = if double_precision {
                8
            } else {
                4
            };
            &&& (r matches Err(e) && e == Plot3dError::Truncated <==> off + count * width
                > data@.len())
            &&& (r matches Ok(_) <==> off + count * width <= data@.len())
            &&& (r matches Err(e) ==> e == Plot3dError::Truncated)
            &&& (r matches Ok(p) ==> {
                &&& p.0@.len() == count
                &&& p.1 == off + count * width
                &&& forall|t: int|
                    0 <= t < count ==> #[trigger] p.0@[t] as int == (if double_precision {
                        word64(data@, off + 8 * t, big_endian)
                    } else {
                        word32(data@, off + 4 * t, big_endian)
                    })
            })
        }),
{
    let width: usize = if double_precision {
        8
    } else {
        4
    };
    if off > data.len() {
        proof {
            assert(count * width as int >= 0) by (nonlinear_arith)
                requires
                    count >= 0,
                    width as int >= 1,
            ;
        }
        return Err(Plot3dError::Truncated);
    }
    let avail: usize = (data.len() - off) / width;
    if count > avail {
        proof {
            let gw = width as int;
            let room = data@.len() - off;
            vstd::arithmetic::div_mod::lemma_fundamental_div_mod(room, gw);
            vstd::arithmetic::div_mod::lemma_mod_division_less_than_divisor(room, gw);
            assert(count * gw > room) by (nonlinear_arith)
                requires
                    count > room / gw,
                    room == gw * (room / gw) + room % gw,
                    0 <= room % gw < gw,
                    gw >= 1,
            ;
        }
        return Err(Plot3dError::Truncated);
    }
    proof {
        let gw = width as int;
        let room = data@.len() - off;
        vstd::arithmetic::div_mod::lemma_fundamental_div_mod(room, gw);
        vstd::arithmetic::div_mod::lemma_mod_division_less_than_divisor(room, gw);
        assert(count * gw <= room) by (nonlinear_arith)
            requires
                count <= room / gw,
                room == gw * (room / gw) + room % gw,
                0 <= room % gw < gw,
                gw >= 1,
        ;
    }
    let dlen = data.len();
    let mut v: Vec<u64> = Vec::new();
    let mut t: usize = 0;
    let mut pos: usize = off;
    while t < count
        invariant
            t <= count,
            v@.len() == t,
            pos == off + t * (width as int),
            width == (if double_precision {
                8usize
            } else {
                4usize
            }),
            off + count * (width as int) <= data@.len(),
            data@.len() <= usize::MAX,
            forall|q: int|
                0 <= q < t ==> #[trigger] v@[q] as int == (if double_precision {
                    word64(data@, off + 8 * q, big_endian)
                } else {
                    word32(data@, off + 4 * q, big_endian)
                }),
        decreases count - t,
    {
        proof {
            assert((t + 1) * (width as int) <= count * (width as int) && t * (width as int) >= 0)
                by (nonlinear_arith)
                requires
                    0 <= t < count,
                    width as int >= 1,
            ;
            assert((t + 1) * (width as int) == t * (width as int) + width as int)
                by (nonlinear_arith);
        }
        if double_precision {
            let w = read_u64(data, pos, big_endian);
            v.push(w);
        } else {
            let w = read_u32(data, pos, big_endian) as u64;
            v.push(w);
        }
        pos = pos + width;
        t = t + 1;
    }
    Ok((v, pos))
}

/// Block `b`'s dimensions in `blk` match the words in the stream header.
pub open spec fn dims_match(s: Seq<u8>, im: u32, jm: u32, km: u32, b: int, big_endian: bool) -> bool {
    &&& im as int == word32(s, 4 + 12 * b, big_endian)
    &&& jm as int == word32(s, 8 + 12 * b, big_endian)
    &&& km as int == word32(s, 12 + 12 * b, big_endian)
}

/// `blk` carries the dimensions announced for block `b` and coordinate
/// arrays of the matching length.
pub open spec fn block_matches(s: Seq<u8>, blk: Plot3DBlock, b: int, big_endian: bool) -> bool {
    &&& dims_match(s, blk.imax, blk.jmax, blk.kmax, b, big_endian)
    &&& blk.x@.len() == blk.imax as int * blk.jmax as int * blk.kmax as int
    &&& blk.y@.len() == blk.x@.len()
    &&& blk.z@.len() == blk.x@.len()
}

/// Reads a whole binary PLOT3D stream: the block count, each block's three
/// dimensions, then each block's x, y and z coordinate words in order.
/// Trailing bytes are ignored. A zero block count is rejected.
pub fn read_plot3d_binary(data: &Vec<u8>, double_precision: bool, big_endian: bool) -> (r: Result<
    Vec<Plot3DBlock>,
    Plot3dError,
>)
    ensures
        r matches Ok(blocks) ==> {
            &&& data@.len() >= 4
            &&& blocks@.len() == word32(data@, 0, big_endian)
            &&& forall|b: int|
                0 <= b < blocks@.len() ==> block_matches(
                    data@,
                    #[trigger] blocks@[b],
                    b,
                    big_endian,
                )
        },
        data@.len() < 4 ==> (r matches Err(e) && e == Plot3dError::Truncated),
        (data@.len() >= 4 && word32(data@, 0, big_endian) == 0) <==> (r matches Err(e) && e
            == Plot3dError::BadBlockCount),
        r matches Err(e) ==> e == Plot3dError::Truncated || e == Plot3dError::BadBlockCount || e
            == Plot3dError::TooLarge,
{
    if data.len() < 4 {
        return Err(Plot3dError::Truncated);
    }
    let nblocks32 = read_u32(data, 0, big_endian);
    if nblocks32 == 0 {
        return Err(Plot3dError::BadBlockCount);
    }
    let nblocks = nblocks32 as usize;
    let mut dims: Vec<(u32, u32, u32)> = Vec::new();
    let mut b: usize = 0;
    while b < nblocks
        invariant
            b <= nblocks,
            dims@.len() == b,
            data@.len() >= 4,
            nblocks as int == word32(data@, 0, big_endian),
            forall|q: int|
                0 <= q < b ==> dims_match(
                    data@,
                    (#[trigger] dims@[q]).0,
                    dims@[q].1,
                    dims@[q].2,
                    q,
                    big_endian,
                ),
        decreases nblocks - b,
    {
        if b > (usize::MAX - 16) / 12 {
            return Err(Plot3dError::TooLarge);
        }
        let base: usize = 4 + 12 * b;
        if base + 12 > data.len() {
            return Err(Plot3dError::Truncated);
        }
        let im = read_u32(data, base, big_endian);
        let jm = read_u32(data, base + 4, big_endian);
        let km = read_u32(data, base + 8, big_endian);
        dims.push((im, jm, km));
        b = b + 1;
    }
    let mut blocks: Vec<Plot3DBlock> = Vec::new();
    let dim_bytes = match 12usize.checked_mul(nblocks) {
        Some(v) => v,
        None => {
            return Err(Plot3dError::TooLarge);
        },
    };
    if dim_bytes > usize::MAX - 4 {
        return Err(Plot3dError::TooLarge);
    }
    let mut pos: usize = 4 + dim_bytes;
    let mut k: usize = 0;
    while k < nblocks
        invariant
            k <= nblocks,
            blocks@.len() == k,
            dims@.len() == nblocks,
            data@.len() >= 4,
            nblocks as int == word32(data@, 0, big_endian),
            forall|q: int|
                0 <= q < nblocks ==> dims_match(
                    data@,
                    (#[trigger] dims@[q]).0,
                    dims@[q].1,
                    dims@[q].2,
                    q,
                    big_endian,
                ),
            forall|q: int|
                0 <= q < k ==> block_matches(data@, #[trigger] blocks@[q], q, big_endian),
        decreases nblocks - k,
    {
        let (im, jm, km) = dims[k];
        let c1 = match (im as usize).checked_mul(jm as usize) {
            Some(v) => v,
            None => {
                return Err(Plot3dError::TooLarge);
            },
        };
        let count = match c1.checked_mul(km as usize) {
            Some(v) => v,
            None => {
                return Err(Plot3dError::TooLarge);
            },
        };
        proof {
            assert(count as int == im as int * jm as int * km as int) by (nonlinear_arith)
                requires
                    c1 as int == im as int * jm as int,
                    count as int == c1 as int * km as int,
            ;
        }
        let (x, p1) = match read_plot3d_chunk_binary(data, pos, count, double_precision, big_endian) {
            Ok(v) => v,
            Err(e) => {
                return Err(e);
            },
        };
        let (y, p2) = match read_plot3d_chunk_binary(data, p1, count, double_precision, big_endian) {
            Ok(v) => v,
            Err(e) => {
                return Err(e);
            },
        };
        let (z, p3) = match read_plot3d_chunk_binary(data, p2, count, double_precision, big_endian) {
            Ok(v) => v,
            Err(e) => {
                return Err(e);
            },
        };
        blocks.push(Plot3DBlock { imax: im, jmax: jm, kmax: km, x, y, z });
        pos = p3;
        k = k + 1;
    }
    Ok(blocks)
}

} // verus!
