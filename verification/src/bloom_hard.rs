//! A Bloom filter on a device: bytes go out through one cache line and come back through
//! another.

use vstd::prelude::*;

use crate::access::{
    fenced_loads, fenced_stores, is_fenced, law_loads_read, law_stores_write, lemma_fenced_join,
    lemma_fenced_lines, lemma_load_count_join, lemma_load_count_loads, lemma_load_count_stores,
    lemma_plans_join, load_count, loaded_slots, memory_after, push_loads, push_stores, Access,
};

verus! {

/// Bytes that go out at a time, one in each word of a line.
pub const LINE_WORDS: usize = 16;

/// The words that carry `bytes`.
pub open spec fn byte_words(bytes: Seq<u8>) -> Seq<u64> {
    bytes.map_values(|b: u8| b as u64)
}

/// The bytes that `words` carry.
pub open spec fn low_bytes(words: Seq<u64>) -> Seq<u8> {
    words.map_values(|w: u64| w as u8)
}

/// How many of `n` bytes go out together: as many as a line has words, if there are as many.
pub open spec fn line_bytes(n: nat) -> nat {
    if n < LINE_WORDS {
        n
    } else {
        LINE_WORDS as nat
    }
}

/// What is to be done with the lines for a batch: line by line, its bytes go out, and as many
/// come back.
pub open spec fn bloom_plan(bytes: Seq<u8>, line_1: usize, line_2: usize) -> Seq<Access>
    decreases bytes.len(),
{
    if bytes.len() == 0 {
        Seq::empty()
    } else {
        let n = line_bytes(bytes.len());
        fenced_stores(line_1, byte_words(bytes.take(n as int))) + fenced_loads(line_2, n)
            + bloom_plan(bytes.skip(n as int), line_1, line_2)
    }
}

/// Sending bytes through a filter on a device.
pub trait BloomHardware: Sized {
    /// Where the line starts through which bytes go out.
    spec fn out_line(&self) -> usize;

    /// Where the line starts through which bytes come back.
    spec fn back_line(&self) -> usize;

    /// What is to be done with the lines for a batch, so that one byte comes back for each.
    fn bloom_hardware(&self, data: &Vec<u8>) -> (r: Vec<Access>)
        requires
            self.out_line() + LINE_WORDS <= usize::MAX,
            self.back_line() + LINE_WORDS <= usize::MAX,
        ensures
            r@ == bloom_plan(data@, self.out_line(), self.back_line()),
            load_count(r@) == data@.len(),
    ;

    /// The bytes that came back.
    fn read_bytes(&self, words: &Vec<u64>) -> (r: Vec<u8>)
        ensures
            r@ == low_bytes(words@),
    ;
}

/// Two lines of memory that is shared with the device.
pub struct Lines {
    /// Where the line starts through which bytes go out.
    pub offset_1: usize,
    /// Where the line starts through which bytes come back.
    pub offset_2: usize,
}

impl Lines {
    /// The first two lines.
    pub fn new() -> (r: Self)
        ensures
            r.out_line() == 0,
            r.back_line() == 16,
    {
        Lines { offset_1: 0, offset_2: 16 }
    }
}

impl BloomHardware for Lines {
    open spec fn out_line(&self) -> usize {
        self.offset_1
    }

    open spec fn back_line(&self) -> usize {
        self.offset_2
    }

    fn bloom_hardware(&self, data: &Vec<u8>) -> (r: Vec<Access>) {
        let mut words: Vec<u64> = Vec::new();
        let mut i: usize = 0;
        while i < data.len()
            invariant
                i <= data@.len(),
                words@ == byte_words(data@.take(i as int)),
            decreases data@.len() - i,
        {
            words.push(data[i] as u64);
            assert(words@ =~= byte_words(data@.take(i + 1)));
            i += 1;
        }
        assert(data@.take(i as int) =~= data@);
        let mut plan: Vec<Access> = Vec::new();
        let mut sent: usize = 0;
        let ghost goal = bloom_plan(data@, self.offset_1, self.offset_2);
        assert(data@.skip(0) =~= data@);
        assert(goal =~= plan@ + goal);
        while sent < words.len()
            invariant
                sent <= data@.len(),
                words@ == byte_words(data@),
                self.offset_1 + LINE_WORDS <= usize::MAX,
                self.offset_2 + LINE_WORDS <= usize::MAX,
                goal == plan@ + bloom_plan(data@.skip(sent as int), self.offset_1, self.offset_2),
                load_count(plan@) == sent,
            decreases data@.len() - sent,
        {
            let left: usize = words.len() - sent;
            let n: usize = if left < LINE_WORDS {
                left
            } else {
                LINE_WORDS
            };
            let ghost start = plan@;
            push_stores(&mut plan, self.offset_1, &words, sent, sent + n);
            push_loads(&mut plan, self.offset_2, n);
            proof {
                let rest = data@.skip(sent as int);
                let line = byte_words(rest.take(n as int));
                let out = fenced_stores(self.offset_1, line);
                let back = fenced_loads(self.offset_2, n as nat);
                assert(words@.subrange(sent as int, sent + n) =~= line);
                assert(rest.skip(n as int) =~= data@.skip(sent + n));
                let later = bloom_plan(data@.skip(sent + n), self.offset_1, self.offset_2);
                assert(start + (out + back + later) =~= (start + out + back) + later);
                lemma_load_count_join(start, out);
                lemma_load_count_join(start + out, back);
                lemma_load_count_stores(self.offset_1, line);
                lemma_load_count_loads(self.offset_2, n as nat);
            }
            sent += n;
        }
        assert(data@.skip(sent as int) =~= Seq::<u8>::empty());
        assert(plan@ + Seq::<Access>::empty() =~= plan@);
        plan
    }

    fn read_bytes(&self, words: &Vec<u64>) -> (r: Vec<u8>) {
        let mut r: Vec<u8> = Vec::new();
        let mut i: usize = 0;
        while i < words.len()
            invariant
                i <= words@.len(),
                r@ == low_bytes(words@.take(i as int)),
            decreases words@.len() - i,
        {
            r.push(words[i] as u8);
            assert(r@ =~= low_bytes(words@.take(i + 1)));
            i += 1;
        }
        assert(words@.take(i as int) =~= words@);
        r
    }
}

/// Bytes that a device hands back as they are come back as they were.
pub proof fn law_bytes_round_trip(bytes: Seq<u8>)
    ensures
        low_bytes(byte_words(bytes)) == bytes,
{
    assert forall|i: int| 0 <= i < bytes.len() implies low_bytes(byte_words(bytes))[i]
        == bytes[i] by {
        let b = bytes[i];
        assert((b as u64) as u8 == b);
    }
    assert(low_bytes(byte_words(bytes)) =~= bytes);
}

/// A byte goes out as a word of its value, and comes back as the rest of a word by 256.
pub proof fn law_bytes_are_words(bytes: Seq<u8>, words: Seq<u64>, i: int)
    ensures
        byte_words(bytes).len() == bytes.len(),
        0 <= i < bytes.len() ==> byte_words(bytes)[i] == bytes[i],
        low_bytes(words).len() == words.len(),
        0 <= i < words.len() ==> low_bytes(words)[i] == words[i] % 256,
{
    if 0 <= i < words.len() {
        let w = words[i];
        assert(w as u8 == w % 256) by (bit_vector);
    }
}

/// Byte `j` comes back from slot `j` of its line of bytes in the second line. Before that, the
/// bytes of its line went out through the first one: once the bytes of `lines` lines came back, the
/// next line of bytes is stored there.
pub proof fn law_bytes_exchanged(
    bytes: Seq<u8>,
    line_1: usize,
    line_2: usize,
    memory: Map<int, u64>,
    lines: nat,
    j: int,
)
    requires
        line_1 + 16 <= usize::MAX,
        line_2 + 16 <= usize::MAX,
        0 <= j < bytes.len(),
        16 * lines <= j < 16 * lines + 16,
    ensures
        ({
            let plan = bloom_plan(bytes, line_1, line_2);
            let here = line_bytes((bytes.len() - 16 * lines) as nat);
            &&& loaded_slots(plan).len() == bytes.len()
            &&& loaded_slots(plan)[j] == line_2 + j % 16
            &&& 34 * lines + here + 1 <= plan.len()
            &&& memory_after(memory, plan.take((34 * lines + here + 1) as int))[line_1 + j % 16]
                == bytes[j]
        }),
    decreases lines,
{
    let plan = bloom_plan(bytes, line_1, line_2);
    let n = line_bytes(bytes.len());
    let words = byte_words(bytes.take(n as int));
    let write = fenced_stores(line_1, words);
    let read = fenced_loads(line_2, n);
    let rest = bytes.skip(n as int);
    let later = bloom_plan(rest, line_1, line_2);
    let here = line_bytes((bytes.len() - 16 * lines) as nat);
    let after = memory_after(memory, write + read);
    lemma_plans_join(memory, write + read, later);
    lemma_plans_join(memory, write, read);
    law_loads_read(memory_after(memory, write), line_2, n);
    law_stores_write(memory, line_1, words, line_1 + j);
    lemma_bytes_loaded(rest, line_1, line_2);
    assert(loaded_slots(write) + loaded_slots(read) =~= loaded_slots(read));
    assert(loaded_slots(plan) == loaded_slots(read) + loaded_slots(later));
    if lines == 0 {
        assert(j % 16 == j);
        assert(plan.take((n + 1) as int) =~= write);
        assert(loaded_slots(plan)[j] == loaded_slots(read)[j]);
    } else {
        assert(n == 16);
        law_bytes_exchanged(rest, line_1, line_2, after, (lines - 1) as nat, j - 16);
        assert((j - 16) % 16 == j % 16);
        assert((rest.len() - 16 * (lines - 1)) as nat == (bytes.len() - 16 * lines) as nat);
        let cut = (34 * (lines - 1) + here + 1) as int;
        assert(plan.take((34 * lines + here + 1) as int) =~= (write + read) + later.take(cut));
        lemma_plans_join(memory, write + read, later.take(cut));
        assert(loaded_slots(plan)[j] == loaded_slots(later)[j - 16]);
    }
}

proof fn lemma_bytes_loaded(bytes: Seq<u8>, line_1: usize, line_2: usize)
    requires
        line_1 + 16 <= usize::MAX,
        line_2 + 16 <= usize::MAX,
    ensures
        loaded_slots(bloom_plan(bytes, line_1, line_2)).len() == bytes.len(),
    decreases bytes.len(),
{
    if bytes.len() > 0 {
        let none = Map::<int, u64>::empty();
        let n = line_bytes(bytes.len());
        let words = byte_words(bytes.take(n as int));
        let write = fenced_stores(line_1, words);
        let read = fenced_loads(line_2, n);
        lemma_bytes_loaded(bytes.skip(n as int), line_1, line_2);
        lemma_plans_join(none, write + read, bloom_plan(bytes.skip(n as int), line_1, line_2));
        lemma_plans_join(none, write, read);
        law_loads_read(none, line_2, n);
        law_stores_write(none, line_1, words, 0);
    }
}

/// Bytes that go out are fenced off from those that come back.
pub proof fn law_bytes_fenced(bytes: Seq<u8>, line_1: usize, line_2: usize)
    requires
        line_1 % 16 == 0,
        line_2 % 16 == 0,
        line_1 + 16 <= usize::MAX,
        line_2 + 16 <= usize::MAX,
    ensures
        is_fenced(bloom_plan(bytes, line_1, line_2)),
        bytes.len() > 0 ==> bloom_plan(bytes, line_1, line_2).last() == Access::Fence,
    decreases bytes.len(),
{
    if bytes.len() > 0 {
        let n = line_bytes(bytes.len());
        let words = byte_words(bytes.take(n as int));
        let rest = bloom_plan(bytes.skip(n as int), line_1, line_2);
        let write = fenced_stores(line_1, words);
        let read = fenced_loads(line_2, n);
        law_bytes_fenced(bytes.skip(n as int), line_1, line_2);
        lemma_fenced_lines(line_1, words, 0);
        lemma_fenced_lines(line_2, Seq::empty(), n);
        lemma_fenced_join(write, read);
        lemma_fenced_join(write + read, rest);
        if rest.len() == 0 {
            assert(write + read + rest =~= write + read);
        }
        if bytes.skip(n as int).len() > 0 {
            assert(rest.len() > 0);
        }
    }
}

} // verus!
