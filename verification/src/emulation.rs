//! The answer of a device that filters, worked out on the host.

use vstd::prelude::*;

use crate::words::{all_encoded, data_words, encoded, pad, padded, zeros};

verus! {

/// Whether `word` can stand for a value or for the lack of one.
pub open spec fn is_word(word: u64) -> bool {
    word == 0 || word % 2 == 1
}

/// How many of `words` hold a value.
pub open spec fn valid_count(words: Seq<u64>) -> nat
    decreases words.len(),
{
    if words.len() == 0 {
        0
    } else {
        valid_count(words.drop_last()) + (if words.last() % 2 == 1 {
            1nat
        } else {
            0
        })
    }
}

/// The least word that passes the filter.
pub const FILTER_WORD: u64 = 11;

/// How many of `words` hold a value that passes the filter.
pub open spec fn passing_count(words: Seq<u64>) -> nat
    decreases words.len(),
{
    if words.len() == 0 {
        0
    } else {
        passing_count(words.drop_last()) + (if words.last() % 2 == 1 && words.last()
            >= FILTER_WORD {
            1nat
        } else {
            0
        })
    }
}

/// Reports of `n` nodes, each of which consumed what holds a value and produced what passes.
pub open spec fn emulated_groups(valid: u64, passing: u64, n: nat) -> Seq<u64>
    decreases n,
{
    if n == 0 {
        Seq::empty()
    } else {
        emulated_groups(valid, passing, (n - 1) as nat) + seq![valid, passing, 0, 0]
    }
}

/// The answer to `data`: the data itself, then the reports of the nodes, then zeros.
pub open spec fn emulated(data: Seq<u64>, nodes: nat, length: nat) -> Seq<u64> {
    padded(
        data + emulated_groups(valid_count(data) as u64, passing_count(data) as u64, nodes),
        length,
    )
}

/// Counts are no more than the words counted.
proof fn lemma_counts(words: Seq<u64>)
    ensures
        valid_count(words) <= words.len(),
        passing_count(words) <= valid_count(words),
    decreases words.len(),
{
    if words.len() > 0 {
        lemma_counts(words.drop_last());
    }
}

/// The answer to words `from` to `to` of `words`.
pub fn emulate(words: &Vec<u64>, from: usize, to: usize, nodes: usize, length: usize) -> (r: Vec<u64>)
    requires
        from <= to <= words@.len(),
    ensures
        r@ == emulated(words@.subrange(from as int, to as int), nodes as nat, length as nat),
{
    let ghost data = words@.subrange(from as int, to as int);
    let mut r: Vec<u64> = Vec::new();
    let mut valid: u64 = 0;
    let mut passing: u64 = 0;
    let mut i: usize = from;
    assert(data.take(0) =~= Seq::<u64>::empty());
    while i < to
        invariant
            from <= i <= to <= words@.len(),
            data == words@.subrange(from as int, to as int),
            r@ == data.take(i - from),
            valid == valid_count(data.take(i - from)),
            passing == passing_count(data.take(i - from)),
            passing <= valid <= i - from,
        decreases to - i,
    {
        let word: u64 = words[i];
        let ghost next = data.take(i + 1 - from);
        assert(next.drop_last() =~= data.take(i - from));
        assert(next.last() == word);
        if word % 2 == 1 {
            valid += 1;
            if word >= FILTER_WORD {
                passing += 1;
            }
        }
        r.push(word);
        assert(r@ =~= next);
        i += 1;
    }
    assert(data.take(i - from) =~= data);
    let mut k: usize = 0;
    assert(r@ =~= data + emulated_groups(valid, passing, 0));
    while k < nodes
        invariant
            k <= nodes,
            r@ == data + emulated_groups(valid, passing, k as nat),
        decreases nodes - k,
    {
        r.push(valid);
        r.push(passing);
        r.push(0);
        r.push(0);
        assert(r@ =~= data + emulated_groups(valid, passing, (k + 1) as nat));
        k += 1;
    }
    pad(&mut r, length);
    r
}

/// Reports of the nodes fill four words each.
pub proof fn lemma_groups_len(valid: u64, passing: u64, n: nat)
    ensures
        emulated_groups(valid, passing, n).len() == 4 * n,
    decreases n,
{
    if n > 0 {
        lemma_groups_len(valid, passing, (n - 1) as nat);
    }
}

/// The least value that passes the filter.
pub const FILTER_VALUE: u64 = 5;

/// How many of `values` pass the filter.
pub open spec fn passing_values(values: Seq<u64>) -> nat
    decreases values.len(),
{
    if values.len() == 0 {
        0
    } else {
        passing_values(values.drop_last()) + (if values.last() >= FILTER_VALUE {
            1nat
        } else {
            0
        })
    }
}

/// The words of values are counted as the values are.
proof fn lemma_counts_encoded(data: Seq<u64>)
    requires
        forall|i: int| 0 <= i < data.len() ==> #[trigger] data[i] < 0x8000_0000_0000_0000,
    ensures
        valid_count(all_encoded(data)) == data.len(),
        passing_count(all_encoded(data)) == passing_values(data),
    decreases data.len(),
{
    if data.len() > 0 {
        let before = data.drop_last();
        assert forall|i: int| 0 <= i < before.len() implies #[trigger] before[i]
            < 0x8000_0000_0000_0000 by {
            assert(before[i] == data[i]);
        }
        lemma_counts_encoded(before);
        assert(all_encoded(data).drop_last() =~= all_encoded(before));
        let v = data.last();
        assert(v == data[data.len() - 1]);
        assert(((v << 1) | 1) % 2 == 1 && (((v << 1) | 1) >= 11 <==> v >= 5)) by (bit_vector)
            requires
                v < 0x8000_0000_0000_0000,
        ;
        assert(all_encoded(data).last() == encoded(v));
    }
}

/// Zeros are not counted.
proof fn lemma_counts_zeros(words: Seq<u64>, n: nat)
    ensures
        valid_count(words + zeros(n)) == valid_count(words),
        passing_count(words + zeros(n)) == passing_count(words),
    decreases n,
{
    if n == 0 {
        assert(words + zeros(n) =~= words);
    } else {
        lemma_counts_zeros(words, (n - 1) as nat);
        assert((words + zeros(n)).drop_last() =~= words + zeros((n - 1) as nat));
        assert((words + zeros(n)).last() == 0);
    }
}

/// The words of data, with zeros behind them, are counted as the data is.
pub proof fn lemma_counts_data(data: Seq<u64>, n: nat)
    requires
        forall|i: int| 0 <= i < data.len() ==> #[trigger] data[i] < 0x8000_0000_0000_0000,
    ensures
        valid_count(padded(data_words(data), n)) == data.len(),
        passing_count(padded(data_words(data), n)) == passing_values(data),
{
    let words = data_words(data);
    if data.len() == 0 {
        let none = Seq::<u64>::empty();
        assert(words =~= none + zeros(1));
        lemma_counts_zeros(none, 1);
    } else {
        lemma_counts_encoded(data);
    }
    if words.len() < n {
        lemma_counts_zeros(words, (n - words.len()) as nat);
    }
}

/// No node produces more than it consumed, and none consumed more than there was.
pub proof fn law_emulated_counts(data: Seq<u64>)
    ensures
        passing_count(data) <= valid_count(data) <= data.len(),
{
    lemma_counts(data);
}

/// Words that hold a value are odd ones, and the value passes the filter if it, which is half of
/// the word, is five or more.
pub proof fn law_words_counted(words: Seq<u64>)
    ensures
        valid_count(words) == words.filter(|w: u64| w % 2 == 1).len(),
        passing_count(words) == words.filter(|w: u64| w % 2 == 1 && w / 2 >= 5).len(),
    decreases words.len(),
{
    reveal(Seq::filter);
    if words.len() > 0 {
        law_words_counted(words.drop_last());
    }
}

proof fn lemma_group_words(valid: u64, passing: u64, n: nat, k: int)
    requires
        0 <= k < n,
    ensures
        emulated_groups(valid, passing, n).len() == 4 * n,
        emulated_groups(valid, passing, n)[4 * k] == valid,
        emulated_groups(valid, passing, n)[4 * k + 1] == passing,
        emulated_groups(valid, passing, n)[4 * k + 2] == 0,
        emulated_groups(valid, passing, n)[4 * k + 3] == 0,
    decreases n,
{
    lemma_groups_len(valid, passing, n);
    lemma_groups_len(valid, passing, (n - 1) as nat);
    if k < n - 1 {
        lemma_group_words(valid, passing, (n - 1) as nat, k);
    }
}

/// The answer to data is the data itself; then, for each node, how many words of data hold a
/// value, how many hold one that passes, and two zeros; then zeros.
pub proof fn law_answer_emulated(data: Seq<u64>, nodes: nat, length: nat, i: int)
    requires
        data.len() + 4 * nodes <= length,
        data.len() <= u64::MAX,
    ensures
        emulated(data, nodes, length).len() == length,
        0 <= i < data.len() ==> emulated(data, nodes, length)[i] == data[i],
        0 <= i < nodes ==> {
            let at = data.len() + 4 * i;
            &&& emulated(data, nodes, length)[at] == data.filter(|w: u64| w % 2 == 1).len()
            &&& emulated(data, nodes, length)[at + 1] == data.filter(
                |w: u64| w % 2 == 1 && w / 2 >= 5,
            ).len()
            &&& emulated(data, nodes, length)[at + 2] == 0
            &&& emulated(data, nodes, length)[at + 3] == 0
        },
        0 <= i < length - data.len() - 4 * nodes ==> emulated(data, nodes, length)[data.len() + 4
            * nodes + i] == 0,
{
    law_words_counted(data);
    lemma_counts(data);
    let valid = valid_count(data) as u64;
    let passing = passing_count(data) as u64;
    lemma_groups_len(valid, passing, nodes);
    if 0 <= i < nodes {
        lemma_group_words(valid, passing, nodes, i);
    }
}

} // verus!
