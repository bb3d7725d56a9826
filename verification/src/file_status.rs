//! A fingerprint of a file's metadata, to notice that a file changed.
use std::collections::hash_map::DefaultHasher;
use std::hash::Hasher;
use vstd::std_specs::hash::DefaultHasherAdditionalSpecFns;
use vstd::prelude::*;

verus! {

/// The fingerprint of a file's modification time and size.
#[derive(Debug, Clone, Copy, PartialEq, Eq, Structural)]
pub struct FileStatus(pub u64);

/// The `n` low bytes of `x`, least significant first.
pub open spec fn le_bytes(x: u64, n: nat) -> Seq<u8> {
    Seq::new(n, |k: int| (x >> ((8 * k) as u64)) as u8)
}

/// What is hashed for a file: its modification time (seconds since the epoch
/// and nanoseconds), then its size, each in little-endian bytes.
pub open spec fn status_writes(mtime_secs: i64, mtime_nanos: u32, size: u64) -> Seq<Seq<u8>> {
    seq![
        le_bytes(mtime_secs as u64, 8),
        le_bytes(mtime_nanos as u64, 4),
        le_bytes(size, 8),
    ]
}

/// The low `n` bytes of `x`, least significant first.
fn little_endian(x: u64, n: u64) -> (bytes: Vec<u8>)
    requires
        n <= 8,
    ensures
        bytes@ == le_bytes(x, n as nat),
{
    let mut bytes: Vec<u8> = Vec::new();
    let mut k: u64 = 0;
    while k < n
        invariant
            k <= n <= 8,
            bytes@ == le_bytes(x, k as nat),
        decreases n - k,
    {
        let b = (x >> (8 * k)) as u8;
        proof {
            assert(le_bytes(x, (k + 1) as nat) =~= le_bytes(x, k as nat).push(b));
        }
        bytes.push(b);
        k = k + 1;
    }
    bytes
}

impl FileStatus {
    /// The status of a file modified at `mtime_secs` seconds and
    /// `mtime_nanos` nanoseconds after the epoch, holding `size` bytes: the
    /// default hasher's digest of these three numbers.
    pub fn from_metadata(mtime_secs: i64, mtime_nanos: u32, size: u64) -> (status: FileStatus)
        ensures
            status.0 == DefaultHasher::spec_finish(status_writes(mtime_secs, mtime_nanos, size)),
    {
        let mut hasher = DefaultHasher::new();
        let secs = little_endian(mtime_secs as u64, 8);
        hasher.write(secs.as_slice());
        let nanos = little_endian(mtime_nanos as u64, 4);
        hasher.write(nanos.as_slice());
        let len = little_endian(size, 8);
        hasher.write(len.as_slice());
        assert(hasher@ =~= status_writes(mtime_secs, mtime_nanos, size));
        FileStatus(hasher.finish())
    }
}

proof fn lemma_le_bytes_u64_injective(x: u64, y: u64)
    requires
        le_bytes(x, 8) == le_bytes(y, 8),
    ensures
        x == y,
{
    let bx = le_bytes(x, 8);
    let by = le_bytes(y, 8);
    assert(bx[0] == by[0] && bx[1] == by[1] && bx[2] == by[2] && bx[3] == by[3]);
    assert(bx[4] == by[4] && bx[5] == by[5] && bx[6] == by[6] && bx[7] == by[7]);
    assert(bx[0] == (x >> 0u64) as u8 && by[0] == (y >> 0u64) as u8);
    assert(bx[1] == (x >> 8u64) as u8 && by[1] == (y >> 8u64) as u8);
    assert(bx[2] == (x >> 16u64) as u8 && by[2] == (y >> 16u64) as u8);
    assert(bx[3] == (x >> 24u64) as u8 && by[3] == (y >> 24u64) as u8);
    assert(bx[4] == (x >> 32u64) as u8 && by[4] == (y >> 32u64) as u8);
    assert(bx[5] == (x >> 40u64) as u8 && by[5] == (y >> 40u64) as u8);
    assert(bx[6] == (x >> 48u64) as u8 && by[6] == (y >> 48u64) as u8);
    assert(bx[7] == (x >> 56u64) as u8 && by[7] == (y >> 56u64) as u8);
    assert(x == y) by (bit_vector)
        requires
            (x >> 0u64) as u8 == (y >> 0u64) as u8,
            (x >> 8u64) as u8 == (y >> 8u64) as u8,
            (x >> 16u64) as u8 == (y >> 16u64) as u8,
            (x >> 24u64) as u8 == (y >> 24u64) as u8,
            (x >> 32u64) as u8 == (y >> 32u64) as u8,
            (x >> 40u64) as u8 == (y >> 40u64) as u8,
            (x >> 48u64) as u8 == (y >> 48u64) as u8,
            (x >> 56u64) as u8 == (y >> 56u64) as u8,
    ;
}

proof fn lemma_le_bytes_u32_injective(x: u32, y: u32)
    requires
        le_bytes(x as u64, 4) == le_bytes(y as u64, 4),
    ensures
        x == y,
{
    let xx = x as u64;
    let yy = y as u64;
    let bx = le_bytes(xx, 4);
    let by = le_bytes(yy, 4);
    assert(bx[0] == by[0] && bx[1] == by[1] && bx[2] == by[2] && bx[3] == by[3]);
    assert(bx[0] == (xx >> 0u64) as u8 && by[0] == (yy >> 0u64) as u8);
    assert(bx[1] == (xx >> 8u64) as u8 && by[1] == (yy >> 8u64) as u8);
    assert(bx[2] == (xx >> 16u64) as u8 && by[2] == (yy >> 16u64) as u8);
    assert(bx[3] == (xx >> 24u64) as u8 && by[3] == (yy >> 24u64) as u8);
    assert(x == y) by (bit_vector)
        requires
            xx == x as u64,
            yy == y as u64,
            (xx >> 0u64) as u8 == (yy >> 0u64) as u8,
            (xx >> 8u64) as u8 == (yy >> 8u64) as u8,
            (xx >> 16u64) as u8 == (yy >> 16u64) as u8,
            (xx >> 24u64) as u8 == (yy >> 24u64) as u8,
    ;
}

/// The number that bytes stand for, least significant byte first.
pub open spec fn le_value(bytes: Seq<u8>) -> int
    decreases bytes.len(),
{
    if bytes.len() == 0 {
        0
    } else {
        bytes[0] + 256 * le_value(bytes.drop_first())
    }
}

proof fn lemma_le_value_8(bs: Seq<u8>)
    requires
        bs.len() == 8,
    ensures
        le_value(bs) == bs[0] + 256 * (bs[1] + 256 * (bs[2] + 256 * (bs[3] + 256 * (bs[4] + 256 * (
        bs[5] + 256 * (bs[6] + 256 * (bs[7] as int))))))),
{
    reveal_with_fuel(le_value, 9);
}

proof fn lemma_le_value_4(bs: Seq<u8>)
    requires
        bs.len() == 4,
    ensures
        le_value(bs) == bs[0] + 256 * (bs[1] + 256 * (bs[2] + 256 * (bs[3] as int))),
{
    reveal_with_fuel(le_value, 5);
}

/// The little-endian bytes of a 64-bit number stand for that number.
pub proof fn lemma_le_bytes_value_u64(x: u64)
    ensures
        le_value(le_bytes(x, 8)) == x,
{
    let bx = le_bytes(x, 8);
    lemma_le_value_8(bx);
    assert(bx[0] == (x >> 0u64) as u8);
    assert(bx[1] == (x >> 8u64) as u8);
    assert(bx[2] == (x >> 16u64) as u8);
    assert(bx[3] == (x >> 24u64) as u8);
    assert(bx[4] == (x >> 32u64) as u8);
    assert(bx[5] == (x >> 40u64) as u8);
    assert(bx[6] == (x >> 48u64) as u8);
    assert(bx[7] == (x >> 56u64) as u8);
    assert(x == ((x >> 0u64) as u8) + 256 * (((x >> 8u64) as u8) + 256 * (((x >> 16u64) as u8)
        + 256 * (((x >> 24u64) as u8) + 256 * (((x >> 32u64) as u8) + 256 * (((x >> 40u64) as u8)
        + 256 * (((x >> 48u64) as u8) + 256 * (((x >> 56u64) as u8) as int)))))))) by (bit_vector);
}

/// The four little-endian bytes of a 32-bit number stand for that number.
pub proof fn lemma_le_bytes_value_u32(x: u32)
    ensures
        le_value(le_bytes(x as u64, 4)) == x,
{
    let xx = x as u64;
    let bx = le_bytes(xx, 4);
    lemma_le_value_4(bx);
    assert(bx[0] == (xx >> 0u64) as u8);
    assert(bx[1] == (xx >> 8u64) as u8);
    assert(bx[2] == (xx >> 16u64) as u8);
    assert(bx[3] == (xx >> 24u64) as u8);
    assert(xx == ((xx >> 0u64) as u8) + 256 * (((xx >> 8u64) as u8) + 256 * (((xx >> 16u64) as u8)
        + 256 * (((xx >> 24u64) as u8) as int)))) by (bit_vector)
        requires
            xx == x as u64,
    ;
}

/// What is hashed, read back as numbers: the first write stands for the
/// modification time's seconds (as the 64-bit two's complement), the second
/// for its nanoseconds and the third for the size.
pub proof fn lemma_hashed_bytes_stand_for_metadata(secs: i64, nanos: u32, size: u64)
    ensures
        le_value(status_writes(secs, nanos, size)[0]) == secs as u64,
        le_value(status_writes(secs, nanos, size)[1]) == nanos,
        le_value(status_writes(secs, nanos, size)[2]) == size,
{
    lemma_le_bytes_value_u64(secs as u64);
    lemma_le_bytes_value_u32(nanos);
    lemma_le_bytes_value_u64(size);
}

/// The bytes hashed for a file determine its metadata: they are three writes
/// of 8, 4 and 8 bytes, and two files whose hashed bytes agree have the same
/// modification time (seconds and nanoseconds) and the same size. So any
/// change of the metadata changes what is hashed.
pub proof fn lemma_hashed_bytes_determine_metadata(
    secs: i64,
    nanos: u32,
    size: u64,
    other_secs: i64,
    other_nanos: u32,
    other_size: u64,
)
    ensures
        status_writes(secs, nanos, size).len() == 3,
        status_writes(secs, nanos, size)[0].len() == 8,
        status_writes(secs, nanos, size)[1].len() == 4,
        status_writes(secs, nanos, size)[2].len() == 8,
        status_writes(secs, nanos, size) == status_writes(other_secs, other_nanos, other_size)
            ==> secs == other_secs && nanos == other_nanos && size == other_size,
{
    let w = status_writes(secs, nanos, size);
    let v = status_writes(other_secs, other_nanos, other_size);
    if w == v {
        assert(w[0] == v[0] && w[1] == v[1] && w[2] == v[2]);
        lemma_le_bytes_u64_injective(secs as u64, other_secs as u64);
        lemma_le_bytes_u32_injective(nanos, other_nanos);
        lemma_le_bytes_u64_injective(size, other_size);
        let a = secs as u64;
        let b = other_secs as u64;
        assert(secs == other_secs) by (bit_vector)
            requires
                a == secs as u64,
                b == other_secs as u64,
                a == b,
        ;
    }
}

/// Two files with the same modification time and size have the same status.
pub proof fn lemma_status_determined_by_metadata(
    mtime_secs: i64,
    mtime_nanos: u32,
    size: u64,
    other_secs: i64,
    other_nanos: u32,
    other_size: u64,
)
    requires
        mtime_secs == other_secs,
        mtime_nanos == other_nanos,
        size == other_size,
    ensures
        DefaultHasher::spec_finish(status_writes(mtime_secs, mtime_nanos, size))
            == DefaultHasher::spec_finish(status_writes(other_secs, other_nanos, other_size)),
{
}

} // verus!
