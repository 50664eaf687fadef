//! A Bloom filter over the bytes of a batch, filled while each byte is mapped.

use vstd::prelude::*;

verus! {

/// Bytes that are hashed into the filter, and bytes of the filter.
pub const BLOOM_BYTES: usize = 128;

/// Hashes that are kept side by side.
pub const LANES: usize = 8;

/// The hash `h` with one byte more.
pub open spec fn mixed(h: u32, byte: u8) -> u32 {
    let a = u32::wrapping_add(h, byte as u32);
    let b = u32::wrapping_add(a, a << 10u32);
    b ^ (b >> 6u32)
}

/// The hash of `bytes` that starts from `seed`.
pub open spec fn lane_hash(seed: u32, bytes: Seq<u8>) -> u32
    decreases bytes.len(),
{
    if bytes.len() == 0 {
        seed
    } else {
        mixed(lane_hash(seed, bytes.drop_last()), bytes.last())
    }
}

/// The hash `h` once all bytes are in.
pub open spec fn finished(h: u32) -> u32 {
    let a = u32::wrapping_add(h, h << 3u32);
    let b = a ^ (a >> 11u32);
    u32::wrapping_add(b, b << 15u32)
}

/// The byte of the filter that the hash `h` marks: the first, or one behind the last.
pub open spec fn cell(h: u32) -> u32 {
    (h >> 3u32) & (BLOOM_BYTES as u32)
}

/// The mark that the hash `h` leaves.
pub open spec fn mark(h: u32) -> u32 {
    1u32 << (h & 7u32)
}

/// The hash of lane `lane` over the bytes that go into the filter.
pub open spec fn filter_hash(bytes: Seq<u8>, lane: int) -> u32 {
    finished(lane_hash(lane as u32, bytes.take(BLOOM_BYTES as int)))
}

/// The filter with the marks of the first `n` lanes. A hash whose byte is not in the filter
/// leaves no mark.
pub open spec fn marked(bytes: Seq<u8>, n: nat) -> Seq<u8>
    decreases n,
{
    if n == 0 {
        Seq::new(BLOOM_BYTES as nat, |i: int| 0u8)
    } else {
        let before = marked(bytes, (n - 1) as nat);
        let h = filter_hash(bytes, n - 1);
        if cell(h) < BLOOM_BYTES {
            before.update(cell(h) as int, before[cell(h) as int] | (mark(h) as u8))
        } else {
            before
        }
    }
}

/// The filter of a batch: empty, where the batch has too few bytes.
pub open spec fn filter_of(bytes: Seq<u8>) -> Seq<u8> {
    if bytes.len() < BLOOM_BYTES {
        marked(bytes, 0)
    } else {
        marked(bytes, LANES as nat)
    }
}

/// The hash `h` with one byte more.
fn mix(h: u32, byte: u8) -> (r: u32)
    ensures
        r == mixed(h, byte),
{
    let a: u32 = h.wrapping_add(byte as u32);
    let b: u32 = a.wrapping_add(a << 10u32);
    b ^ (b >> 6u32)
}

/// The hash `h` once all bytes are in.
fn finish(h: u32) -> (r: u32)
    ensures
        r == finished(h),
{
    let a: u32 = h.wrapping_add(h << 3u32);
    let b: u32 = a ^ (a >> 11u32);
    b.wrapping_add(b << 15u32)
}

/// The hash of lane `lane` over the bytes that go into the filter.
fn hash_lane(bytes: &Vec<u8>, lane: u32) -> (r: u32)
    requires
        bytes@.len() >= BLOOM_BYTES,
    ensures
        r == filter_hash(bytes@, lane as int),
{
    let ghost first = bytes@.take(BLOOM_BYTES as int);
    let mut h: u32 = lane;
    let mut i: usize = 0;
    assert(first.take(0) =~= Seq::<u8>::empty());
    while i < BLOOM_BYTES
        invariant
            i <= BLOOM_BYTES <= bytes@.len(),
            first == bytes@.take(BLOOM_BYTES as int),
            h == lane_hash(lane, first.take(i as int)),
        decreases BLOOM_BYTES - i,
    {
        assert(first.take(i + 1).drop_last() =~= first.take(i as int));
        assert(first.take(i + 1).last() == bytes@[i as int]);
        h = mix(h, bytes[i]);
        i += 1;
    }
    assert(first.take(i as int) =~= first);
    finish(h)
}

/// The filter of a batch.
pub fn fill_filter(bytes: &Vec<u8>) -> (r: [u8; BLOOM_BYTES])
    ensures
        r@ == filter_of(bytes@),
{
    let mut bloom: [u8; BLOOM_BYTES] = [0; BLOOM_BYTES];
    assert(bloom@ =~= marked(bytes@, 0));
    if bytes.len() < BLOOM_BYTES {
        return bloom;
    }
    let mut lane: u32 = 0;
    while lane < 8
        invariant
            lane <= 8,
            bytes@.len() >= BLOOM_BYTES,
            bloom@ == marked(bytes@, lane as nat),
        decreases 8 - lane,
    {
        let h: u32 = hash_lane(bytes, lane);
        let at: usize = ((h >> 3u32) & (BLOOM_BYTES as u32)) as usize;
        let bit: u32 = h & 7u32;
        assert(h & 7u32 < 32u32) by (bit_vector);
        let value: u8 = (1u32 << bit) as u8;
        if at < BLOOM_BYTES {
            bloom[at] = bloom[at] | value;
        }
        assert(bloom@ =~= marked(bytes@, (lane + 1) as nat));
        lane += 1;
    }
    bloom
}

/// Mapping bytes, with a Bloom filter over each batch on the way.
pub trait Bloom: Sized {
    /// The filter of the last batch.
    spec fn filter(&self) -> Seq<u8>;

    /// Fills the filter with a batch, and maps each of its bytes by `logic`.
    fn bloom<L: Fn(u8) -> u8>(&mut self, data: Vec<u8>, logic: L) -> (r: Vec<u8>)
        requires
            forall|i: int| 0 <= i < data@.len() ==> call_requires(logic, (#[trigger] data@[i],)),
        ensures
            final(self).filter() == filter_of(data@),
            r@.len() == data@.len(),
            forall|i: int|
                0 <= i < data@.len() ==> call_ensures(logic, (data@[i],), #[trigger] r@[i]),
    ;
}

/// The filter of the last batch.
pub struct BloomFilter {
    /// Its bytes.
    pub cells: [u8; BLOOM_BYTES],
}

impl BloomFilter {
    /// An empty filter.
    pub fn new() -> (r: Self)
        ensures
            r.filter() == Seq::new(BLOOM_BYTES as nat, |i: int| 0u8),
    {
        let r = BloomFilter { cells: [0; BLOOM_BYTES] };
        assert(r.cells@ =~= Seq::new(BLOOM_BYTES as nat, |i: int| 0u8));
        r
    }
}

impl Bloom for BloomFilter {
    open spec fn filter(&self) -> Seq<u8> {
        self.cells@
    }

    fn bloom<L: Fn(u8) -> u8>(&mut self, data: Vec<u8>, logic: L) -> (r: Vec<u8>) {
        self.cells = fill_filter(&data);
        let mut r: Vec<u8> = Vec::new();
        let mut i: usize = 0;
        while i < data.len()
            invariant
                i <= data@.len(),
                self.cells@ == filter_of(data@),
                forall|k: int|
                    0 <= k < data@.len() ==> call_requires(logic, (#[trigger] data@[k],)),
                r@.len() == i,
                forall|k: int|
                    0 <= k < i ==> call_ensures(logic, (data@[k],), #[trigger] r@[k]),
            decreases data@.len() - i,
        {
            r.push(logic(data[i]));
            i += 1;
        }
        r
    }
}

/// The filter of a batch that fills it holds the mark of each lane whose byte is in it: what was
/// put in is found again.
pub proof fn law_marks_found(bytes: Seq<u8>, lane: int)
    requires
        bytes.len() >= 128,
        0 <= lane < 8,
        cell(filter_hash(bytes, lane)) < 128,
    ensures
        filter_of(bytes).len() == 128,
        filter_of(bytes)[cell(filter_hash(bytes, lane)) as int] & (mark(
            filter_hash(bytes, lane),
        ) as u8) == mark(filter_hash(bytes, lane)) as u8,
{
    lemma_marked_shape(bytes, LANES as nat);
    lemma_marked(bytes, LANES as nat, lane);
}

/// Marks stand in the first byte of the filter alone.
pub proof fn law_marks_in_first_byte(bytes: Seq<u8>, i: int)
    requires
        0 < i < 128,
    ensures
        filter_of(bytes).len() == 128,
        filter_of(bytes)[i] == 0,
{
    lemma_marked_shape(bytes, 0);
    lemma_marked_shape(bytes, LANES as nat);
}

proof fn lemma_marked(bytes: Seq<u8>, n: nat, lane: int)
    requires
        0 <= lane < n,
        cell(filter_hash(bytes, lane)) < BLOOM_BYTES,
    ensures
        marked(bytes, n)[cell(filter_hash(bytes, lane)) as int] & (mark(
            filter_hash(bytes, lane),
        ) as u8) == mark(filter_hash(bytes, lane)) as u8,
    decreases n,
{
    let own = filter_hash(bytes, lane);
    let m = mark(own) as u8;
    let held = marked(bytes, (n - 1) as nat)[cell(own) as int];
    lemma_marked_shape(bytes, (n - 1) as nat);
    if lane < n - 1 {
        let new = mark(filter_hash(bytes, n - 1)) as u8;
        lemma_marked(bytes, (n - 1) as nat, lane);
        assert(held & m == m ==> (held | new) & m == m) by (bit_vector);
    } else {
        assert((held | m) & m == m) by (bit_vector);
    }
}

proof fn lemma_marked_shape(bytes: Seq<u8>, n: nat)
    ensures
        marked(bytes, n).len() == BLOOM_BYTES,
        forall|i: int| 0 < i < BLOOM_BYTES ==> #[trigger] marked(bytes, n)[i] == 0,
    decreases n,
{
    if n > 0 {
        lemma_marked_shape(bytes, (n - 1) as nat);
        let h = filter_hash(bytes, n - 1);
        assert((h >> 3u32) & 128u32 == 0 || (h >> 3u32) & 128u32 == 128) by (bit_vector);
    }
}

/// Hashing in arithmetic, modulo two to the 32nd. A byte is added to the hash, the sum is taken
/// 1025 times, and the result is combined with its 64th part. In the end the hash is taken 9 times,
/// combined with its 2048th part, and taken 32769 times.
pub proof fn law_hash_arithmetic(h: u32, byte: u8)
    ensures
        ({
            let sum = (((h + byte) * 1025) % 0x1_0000_0000) as u32;
            mixed(h, byte) == sum ^ (sum / 64)
        }),
        ({
            let nine = ((h * 9) % 0x1_0000_0000) as u32;
            let half = nine ^ (nine / 2048);
            finished(h) == (half * 32769) % 0x1_0000_0000
        }),
{
    let b32 = byte as u32;
    let a = u32::wrapping_add(h, b32);
    let b = u32::wrapping_add(a, a << 10u32);
    assert(a == (h + b32) % 0x1_0000_0000);
    assert((a + (a << 10u32)) % 0x1_0000_0000 == (a * 1025) % 0x1_0000_0000) by (bit_vector);
    assert(b == (a * 1025) % 0x1_0000_0000);
    assert((a * 1025) % 0x1_0000_0000 == ((h + byte) * 1025) % 0x1_0000_0000) by {
        vstd::arithmetic::div_mod::lemma_mul_mod_noop_left((h + b32) as int, 1025, 0x1_0000_0000);
    }
    assert(b >> 6u32 == b / 64u32) by (bit_vector);
    let x = u32::wrapping_add(h, h << 3u32);
    assert((h + (h << 3u32)) % 0x1_0000_0000 == (h * 9) % 0x1_0000_0000) by (bit_vector);
    assert(x == (h * 9) % 0x1_0000_0000);
    assert(x >> 11u32 == x / 2048u32) by (bit_vector);
    let y = x ^ (x >> 11u32);
    assert((y + (y << 15u32)) % 0x1_0000_0000 == (y * 32769) % 0x1_0000_0000) by (bit_vector);
    assert(u32::wrapping_add(y, y << 15u32) == (y * 32769) % 0x1_0000_0000);
}

/// Hashing goes on where it stopped: the hash of some bytes and then of others is that of all. The
/// hash of no bytes is the seed, and that of one byte is mixed once.
pub proof fn law_hash_in_parts(seed: u32, first: Seq<u8>, second: Seq<u8>, byte: u8)
    ensures
        lane_hash(seed, first + second) == lane_hash(lane_hash(seed, first), second),
        lane_hash(seed, Seq::empty()) == seed,
        lane_hash(seed, seq![byte]) == mixed(seed, byte),
    decreases second.len(),
{
    reveal_with_fuel(lane_hash, 2);
    assert(seq![byte].drop_last() =~= Seq::<u8>::empty());
    if second.len() == 0 {
        assert(first + second =~= first);
    } else {
        assert((first + second).drop_last() =~= first + second.drop_last());
        law_hash_in_parts(seed, first, second.drop_last(), byte);
    }
}

/// A hash marks the bit that its rest by eight names, in the first byte, or in one that is not
/// there: it is so where the part of the hash by 1024 is odd. The hash of a lane starts from the
/// number of the lane, and goes over the first 128 bytes.
pub proof fn law_mark_placed(h: u32, bytes: Seq<u8>, lane: int)
    requires
        0 <= lane < 8,
        bytes.len() >= 128,
    ensures
        cell(h) == (if (h / 1024) % 2 == 1 {
            128u32
        } else {
            0
        }),
        mark(h) == vstd::arithmetic::power2::pow2((h % 8) as nat),
        filter_hash(bytes, lane) == finished(lane_hash(lane as u32, bytes.subrange(0, 128))),
{
    assert((h >> 3u32) & 128u32 == (if (h / 1024u32) % 2u32 == 1u32 {
        128u32
    } else {
        0u32
    })) by (bit_vector);
    let bit = h & 7u32;
    assert(h & 7u32 == h % 8u32) by (bit_vector);
    assert(bit < 8);
    vstd::arithmetic::power2::lemma2_to64();
    assert(1u32 << 0u32 == 1 && 1u32 << 1u32 == 2 && 1u32 << 2u32 == 4 && 1u32 << 3u32 == 8 && 1u32
        << 4u32 == 16 && 1u32 << 5u32 == 32 && 1u32 << 6u32 == 64 && 1u32 << 7u32 == 128)
        by (bit_vector);
    assert(bytes.take(128) =~= bytes.subrange(0, 128));
}

/// Nothing but lanes leaves a mark: a bit of the filter is set where a lane marks it, and nowhere
/// else. A batch that does not fill the filter leaves it empty.
pub proof fn law_marks_are_of_lanes(bytes: Seq<u8>, bit: u32)
    requires
        bit < 8,
    ensures
        bytes.len() < 128 ==> filter_of(bytes)[0] == 0,
        bytes.len() >= 128 && filter_of(bytes)[0] & ((1u32 << bit) as u8) != 0 ==> exists|lane: int|
            0 <= lane < 8 && cell(#[trigger] filter_hash(bytes, lane)) == 0 && filter_hash(
                bytes,
                lane,
            ) % 8 == bit,
{
    if bytes.len() >= 128 && filter_of(bytes)[0] & ((1u32 << bit) as u8) != 0 {
        lemma_mark_has_lane(bytes, 8, bit);
    }
}

proof fn lemma_mark_has_lane(bytes: Seq<u8>, n: nat, bit: u32)
    requires
        bit < 8,
        marked(bytes, n)[0] & ((1u32 << bit) as u8) != 0,
    ensures
        exists|lane: int|
            0 <= lane < n && cell(#[trigger] filter_hash(bytes, lane)) == 0 && filter_hash(
                bytes,
                lane,
            ) % 8 == bit,
    decreases n,
{
    let m = (1u32 << bit) as u8;
    if n == 0 {
        assert(0u8 & m == 0) by (bit_vector);
    } else {
        let h = filter_hash(bytes, n - 1);
        let held = marked(bytes, (n - 1) as nat)[0];
        lemma_marked_shape(bytes, (n - 1) as nat);
        assert((h >> 3u32) & 128u32 == 0 || (h >> 3u32) & 128u32 == 128) by (bit_vector);
        if held & m != 0 {
            lemma_mark_has_lane(bytes, (n - 1) as nat, bit);
            let lane = choose|lane: int|
                0 <= lane < n - 1 && cell(#[trigger] filter_hash(bytes, lane)) == 0 && filter_hash(
                    bytes,
                    lane,
                ) % 8 == bit;
            assert(0 <= lane < n && cell(filter_hash(bytes, lane)) == 0);
        } else {
            let new = mark(h) as u8;
            assert(held & m == 0 && new & m == 0 ==> (held | new) & m == 0) by (bit_vector);
            let own = h & 7u32;
            assert(own < 8) by (bit_vector)
                requires
                    own == h & 7u32,
            ;
            assert(own == bit) by (bit_vector)
                requires
                    own < 8,
                    bit < 8,
                    ((1u32 << own) as u8) & ((1u32 << bit) as u8) != 0,
            ;
            assert(h & 7u32 == h % 8u32) by (bit_vector);
            assert(cell(filter_hash(bytes, n - 1)) == 0);
        }
    }
}

} // verus!
