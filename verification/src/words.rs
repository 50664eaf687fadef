//! Values as the device sees them: a word is zero where there is no value, and odd where there
//! is one.

use vstd::prelude::*;

verus! {

/// The word for `value`. The highest bit of the value is lost.
pub open spec fn encoded(value: u64) -> u64 {
    (value << 1) | 1
}

/// The value in `word`.
pub open spec fn decoded(word: u64) -> u64 {
    word >> 1
}

/// The word for each of `values`.
pub open spec fn all_encoded(values: Seq<u64>) -> Seq<u64> {
    values.map_values(|v: u64| encoded(v))
}

/// The values in those of `words` that hold one.
pub open spec fn all_decoded(words: Seq<u64>) -> Seq<u64>
    decreases words.len(),
{
    if words.len() == 0 {
        Seq::empty()
    } else {
        let before = all_decoded(words.drop_last());
        if words.last() != 0 {
            before.push(decoded(words.last()))
        } else {
            before
        }
    }
}

/// The words in each of `lists`.
pub open spec fn word_views(lists: Seq<Vec<u64>>) -> Seq<Seq<u64>> {
    lists.map_values(|l: Vec<u64>| l@)
}

/// As many zeros as `n`.
pub open spec fn zeros(n: nat) -> Seq<u64> {
    Seq::new(n, |i: int| 0u64)
}

/// `words` with zeros behind them, up to the length `n`.
pub open spec fn padded(words: Seq<u64>, n: nat) -> Seq<u64> {
    if words.len() >= n {
        words
    } else {
        words + zeros((n - words.len()) as nat)
    }
}

/// The words of one frontier: a zero for an empty one.
pub open spec fn frontier_words(frontier: Seq<u64>) -> Seq<u64> {
    if frontier.len() == 0 {
        seq![0u64]
    } else {
        all_encoded(frontier)
    }
}

/// The words of each of `frontiers` in turn.
pub open spec fn all_frontier_words(frontiers: Seq<Seq<u64>>) -> Seq<u64>
    decreases frontiers.len(),
{
    if frontiers.len() == 0 {
        Seq::empty()
    } else {
        all_frontier_words(frontiers.drop_last()) + frontier_words(frontiers.last())
    }
}

/// The words of data: a zero where there is none.
pub open spec fn data_words(data: Seq<u64>) -> Seq<u64> {
    if data.len() == 0 {
        seq![0u64]
    } else {
        all_encoded(data)
    }
}

/// The word for `value`.
pub fn encode(value: u64) -> (r: u64)
    ensures
        r == encoded(value),
{
    (value << 1) | 1u64
}

/// The value in `word`.
pub fn decode(word: u64) -> (r: u64)
    ensures
        r == decoded(word),
{
    word >> 1
}

/// Adds the word for each of `values` to `words`.
pub fn push_encoded(words: &mut Vec<u64>, values: &Vec<u64>)
    ensures
        final(words)@ == old(words)@ + all_encoded(values@),
{
    let ghost start = words@;
    let mut i: usize = 0;
    assert(start + all_encoded(values@.take(0)) =~= start);
    while i < values.len()
        invariant
            i <= values@.len(),
            words@ == start + all_encoded(values@.take(i as int)),
        decreases values@.len() - i,
    {
        words.push(encode(values[i]));
        assert(words@ =~= start + all_encoded(values@.take(i + 1)));
        i += 1;
    }
    assert(values@.take(i as int) =~= values@);
}

/// Adds zeros to `words`, up to the length `n`.
pub fn pad(words: &mut Vec<u64>, n: usize)
    ensures
        final(words)@ == padded(old(words)@, n as nat),
{
    let ghost start = words@;
    assert(start + zeros(0) =~= start);
    while words.len() < n
        invariant
            words@.len() >= start.len(),
            words@.len() > start.len() ==> words@.len() <= n,
            words@ == start + zeros((words@.len() - start.len()) as nat),
        decreases n - words@.len(),
    {
        let ghost before = words@;
        words.push(0);
        assert(words@ =~= start + zeros((words@.len() - start.len()) as nat));
    }
}

/// Adds the values in `words`, from `from` to `to`, to `values`.
pub fn push_decoded(values: &mut Vec<u64>, words: &Vec<u64>, from: usize, to: usize)
    requires
        from <= to <= words@.len(),
    ensures
        final(values)@ == old(values)@ + all_decoded(words@.subrange(from as int, to as int)),
{
    let ghost start = values@;
    let mut i: usize = from;
    assert(words@.subrange(from as int, from as int) =~= Seq::<u64>::empty());
    assert(start + Seq::<u64>::empty() =~= start);
    while i < to
        invariant
            from <= i <= to <= words@.len(),
            values@ == start + all_decoded(words@.subrange(from as int, i as int)),
        decreases to - i,
    {
        let word: u64 = words[i];
        let ghost next = words@.subrange(from as int, i + 1);
        assert(next.drop_last() =~= words@.subrange(from as int, i as int));
        assert(next.last() == word);
        if word != 0 {
            values.push(decode(word));
        }
        assert(values@ =~= start + all_decoded(next));
        i += 1;
    }
}

/// A word holds the value that it was made for, where that has its highest bit clear; and no
/// word made for a value looks like the lack of one.
pub proof fn law_word_round_trip(value: u64)
    ensures
        value < 0x8000_0000_0000_0000 ==> decoded(encoded(value)) == value,
        encoded(value) != 0,
        encoded(value) % 2 == 1,
{
    assert(value < 0x8000_0000_0000_0000 ==> ((value << 1) | 1) >> 1 == value) by (bit_vector);
    assert(((value << 1) | 1) != 0) by (bit_vector);
    assert(((value << 1) | 1) % 2 == 1) by (bit_vector);
}

/// Data survives the way to the device and back, where each value has its highest bit clear:
/// what is read from the words made for it, padded with zeros, are the values themselves.
pub proof fn law_data_round_trip(data: Seq<u64>, n: nat)
    requires
        forall|i: int| 0 <= i < data.len() ==> #[trigger] data[i] < 0x8000_0000_0000_0000,
    ensures
        all_decoded(padded(data_words(data), n)) == data,
{
    if data.len() == 0 {
        assert(padded(data_words(data), n) =~= zeros(padded(data_words(data), n).len()));
        lemma_zeros_decoded(padded(data_words(data), n).len());
        assert(all_decoded(padded(data_words(data), n)) =~= data);
    } else {
        lemma_encoded_decoded(data);
        let words = all_encoded(data);
        if words.len() < n {
            lemma_decoded_then_zeros(words, (n - words.len()) as nat);
        }
    }
}

proof fn lemma_zeros_decoded(n: nat)
    ensures
        all_decoded(zeros(n)) == Seq::<u64>::empty(),
    decreases n,
{
    if n > 0 {
        assert(zeros(n).drop_last() =~= zeros((n - 1) as nat));
        lemma_zeros_decoded((n - 1) as nat);
    }
}

proof fn lemma_decoded_then_zeros(words: Seq<u64>, n: nat)
    ensures
        all_decoded(words + zeros(n)) == all_decoded(words),
    decreases n,
{
    if n == 0 {
        assert(words + zeros(0) =~= words);
    } else {
        assert((words + zeros(n)).drop_last() =~= words + zeros((n - 1) as nat));
        lemma_decoded_then_zeros(words, (n - 1) as nat);
    }
}

proof fn lemma_encoded_decoded(data: Seq<u64>)
    requires
        forall|i: int| 0 <= i < data.len() ==> #[trigger] data[i] < 0x8000_0000_0000_0000,
    ensures
        all_decoded(all_encoded(data)) == data,
    decreases data.len(),
{
    if data.len() > 0 {
        let before = data.drop_last();
        assert forall|i: int| 0 <= i < before.len() implies #[trigger] before[i]
            < 0x8000_0000_0000_0000 by {
            assert(before[i] == data[i]);
        }
        lemma_encoded_decoded(before);
        assert(all_encoded(data).drop_last() =~= all_encoded(before));
        assert(data[data.len() - 1] == data.last());
        law_word_round_trip(data.last());
        assert(all_encoded(data).last() == encoded(data.last()));
        assert(before.push(data.last()) =~= data);
    } else {
        assert(all_decoded(all_encoded(data)) =~= data);
    }
}

/// The word for a value is twice the value and one more, and the value in a word is half of it:
/// of a value, the highest bit is lost.
pub proof fn law_word_arithmetic(value: u64, word: u64)
    ensures
        value < 0x8000_0000_0000_0000 ==> encoded(value) == 2 * value + 1,
        value >= 0x8000_0000_0000_0000 ==> encoded(value) == 2 * (value - 0x8000_0000_0000_0000)
            + 1,
        decoded(word) == word / 2,
{
    assert(value < 0x8000_0000_0000_0000 ==> ((value << 1) | 1) == 2 * value + 1) by (bit_vector);
    assert(value >= 0x8000_0000_0000_0000 ==> ((value << 1) | 1) == 2 * (value
        - 0x8000_0000_0000_0000) + 1) by (bit_vector);
    assert(word >> 1 == word / 2) by (bit_vector);
}

/// Reading words skips those that are zero, and halves the others, in their order.
pub proof fn law_words_read(words: Seq<u64>)
    ensures
        all_decoded(words) == words.filter(|w: u64| w != 0).map_values(|w: u64| w / 2),
    decreases words.len(),
{
    let keep = |w: u64| w != 0;
    let half = |w: u64| w / 2;
    reveal(Seq::filter);
    if words.len() > 0 {
        law_words_read(words.drop_last());
        law_word_arithmetic(0, words.last());
        assert(all_decoded(words) =~= words.filter(keep).map_values(half));
    } else {
        assert(all_decoded(words) =~= words.filter(keep).map_values(half));
    }
}

/// The words of values: one for each, in their order. Where there is no data, there is one word,
/// and it is zero.
pub proof fn law_words_written(values: Seq<u64>)
    requires
        forall|i: int| 0 <= i < values.len() ==> #[trigger] values[i] < 0x8000_0000_0000_0000,
    ensures
        all_encoded(values) == Seq::new(values.len(), |i: int| (2 * values[i] + 1) as u64),
        values.len() > 0 ==> data_words(values) == all_encoded(values),
        values.len() == 0 ==> data_words(values) == seq![0u64],
{
    assert forall|i: int| 0 <= i < values.len() implies #[trigger] all_encoded(values)[i] == (2
        * values[i] + 1) as u64 by {
        law_word_arithmetic(values[i], 0);
    }
    assert(all_encoded(values) =~= Seq::new(values.len(), |i: int| (2 * values[i] + 1) as u64));
}

/// Padding keeps words where they are, and puts zeros behind them.
pub proof fn law_padding(words: Seq<u64>, n: nat)
    ensures
        padded(words, n).len() == (if words.len() < n {
            n
        } else {
            words.len()
        }),
        forall|i: int| 0 <= i < words.len() ==> #[trigger] padded(words, n)[i] == words[i],
        forall|i: int| words.len() <= i < n ==> #[trigger] padded(words, n)[i] == 0,
{
}

/// The words of frontiers follow one another: those of some frontiers and then of others are
/// those of all.
pub proof fn law_frontiers_in_turn(first: Seq<Seq<u64>>, second: Seq<Seq<u64>>)
    ensures
        all_frontier_words(first + second) == all_frontier_words(first) + all_frontier_words(
            second,
        ),
    decreases second.len(),
{
    if second.len() == 0 {
        assert(first + second =~= first);
        assert(all_frontier_words(first) + Seq::<u64>::empty() =~= all_frontier_words(first));
    } else {
        assert((first + second).drop_last() =~= first + second.drop_last());
        law_frontiers_in_turn(first, second.drop_last());
        assert(all_frontier_words(first + second) =~= all_frontier_words(first)
            + all_frontier_words(second));
    }
}

/// A frontier alone takes a word for each of its times; an empty one takes one word, zero.
pub proof fn law_frontier_alone(frontier: Seq<u64>)
    requires
        forall|i: int| 0 <= i < frontier.len() ==> #[trigger] frontier[i] < 0x8000_0000_0000_0000,
    ensures
        frontier.len() == 0 ==> all_frontier_words(seq![frontier]) == seq![0u64],
        frontier.len() > 0 ==> all_frontier_words(seq![frontier]) == Seq::new(
            frontier.len(),
            |i: int| (2 * frontier[i] + 1) as u64,
        ),
{
    reveal_with_fuel(all_frontier_words, 2);
    assert(seq![frontier].drop_last() =~= Seq::<Seq<u64>>::empty());
    law_words_written(frontier);
    assert(all_frontier_words(seq![frontier]) =~= frontier_words(frontier));
}

/// Where no frontier has more than one time, the word of each stands at its index: zero for an
/// empty frontier, and twice the time and one more for another.
pub proof fn law_frontier_at_index(frontiers: Seq<Seq<u64>>, k: int)
    requires
        0 <= k < frontiers.len(),
        forall|i: int| 0 <= i < frontiers.len() ==> (#[trigger] frontiers[i]).len() <= 1,
        frontiers[k].len() == 1 ==> frontiers[k][0] < 0x8000_0000_0000_0000,
    ensures
        all_frontier_words(frontiers).len() == frontiers.len(),
        all_frontier_words(frontiers)[k] == (if frontiers[k].len() == 0 {
            0
        } else {
            2 * frontiers[k][0] + 1
        }),
    decreases frontiers.len(),
{
    let before = frontiers.drop_last();
    let last = frontiers.last();
    assert(frontiers[frontiers.len() - 1] == last);
    assert(frontier_words(last).len() == 1);
    lemma_frontier_count(before);
    if k < before.len() {
        assert forall|i: int| 0 <= i < before.len() implies (#[trigger] before[i]).len() <= 1 by {
            assert(before[i] == frontiers[i]);
        }
        law_frontier_at_index(before, k);
    } else if last.len() == 1 {
        law_word_arithmetic(last[0], 0);
    }
}

/// Frontiers of at most one time take one word each.
pub proof fn lemma_frontier_count(frontiers: Seq<Seq<u64>>)
    requires
        forall|i: int| 0 <= i < frontiers.len() ==> (#[trigger] frontiers[i]).len() <= 1,
    ensures
        all_frontier_words(frontiers).len() == frontiers.len(),
    decreases frontiers.len(),
{
    if frontiers.len() > 0 {
        let before = frontiers.drop_last();
        assert(frontiers[frontiers.len() - 1] == frontiers.last());
        assert forall|i: int| 0 <= i < before.len() implies (#[trigger] before[i]).len() <= 1 by {
            assert(before[i] == frontiers[i]);
        }
        lemma_frontier_count(before);
    }
}

/// Lists of words are taken as they are, in their order; and zeros are zeros.
pub proof fn law_words_as_they_are(lists: Seq<Vec<u64>>, n: nat, k: int)
    ensures
        word_views(lists).len() == lists.len(),
        0 <= k < lists.len() ==> word_views(lists)[k] == lists[k]@,
        zeros(n).len() == n,
        0 <= k < n ==> zeros(n)[k] == 0,
{
}

} // verus!
