//! The candidates for a match, stated on the bytes of the block alone.
//!
//! At a place of a block, the positions that a match can copy from are those
//! with the same first four bytes that lie no more than `MAX_OFFSET` back.
//! An index that has been told of every earlier position gives exactly
//! these, whatever it has dropped on the way; the lemmas here say why.

use crate::bytes::u32_from_le;
use crate::constants::END_LITERAL_NUM;
use crate::constants::MAP_PREF_SIZE;
use crate::constants::MAX_OFFSET;
use crate::occurrence_map::added_start;
use crate::occurrence_map::best_length;
use crate::occurrence_map::candidate_positions;
use crate::occurrence_map::common_prefix_len;
use crate::occurrence_map::hits_in;
use crate::occurrence_map::key_at;
use crate::occurrence_map::lemma_with_length_is_part;
use crate::occurrence_map::match_length_at;
use crate::occurrence_map::retained;
use crate::occurrence_map::with_length;
use vstd::prelude::*;

verus! {

/// The first position that a match at `index` can reach.
pub open spec fn window_start(index: int) -> int {
    if index > MAX_OFFSET {
        index - MAX_OFFSET
    } else {
        0
    }
}

/// The positions that a match at `index` can copy from, in rising order.
pub open spec fn window_hits(data: Seq<u8>, index: int) -> Seq<usize> {
    hits_in(data, key_at(data, index), window_start(index), index)
}

/// The candidates for a match at `index`, in the order in which they are
/// counted: every position of the window where hidden capacity is preferred,
/// else those that give the longest match.
pub open spec fn candidates(data: Seq<u8>, index: int, prefer_hidden: bool) -> Seq<usize> {
    candidate_positions(data, index, window_hits(data, index), prefer_hidden)
}

/// A sequence of positions rises strictly.
pub open spec fn rising(list: Seq<usize>) -> bool {
    forall|j: int, k: int| 0 <= j < k < list.len() ==> list[j] < list[k]
}

/// The positions of a range are in it, have the key, and rise.
pub proof fn lemma_hits_in_range(data: Seq<u8>, key: u32, lo: int, hi: int)
    requires
        0 <= lo,
        hi <= usize::MAX,
    ensures
        hits_in(data, key, lo, hi).len() <= if hi > lo {
            hi - lo
        } else {
            0
        },
        forall|j: int|
            0 <= j < hits_in(data, key, lo, hi).len() ==> {
                &&& lo <= (#[trigger] hits_in(data, key, lo, hi)[j]) < hi
                &&& key_at(data, hits_in(data, key, lo, hi)[j] as int) == key
            },
        rising(hits_in(data, key, lo, hi)),
    decreases hi - lo,
{
    if hi > lo {
        lemma_hits_in_range(data, key, lo, hi - 1);
    }
}

/// What is kept of two lists in a row is what is kept of each, in a row.
pub proof fn lemma_retained_concat(a: Seq<usize>, b: Seq<usize>, index: int)
    ensures
        retained(a + b, index) == retained(a, index) + retained(b, index),
    decreases b.len(),
{
    if b.len() == 0 {
        assert(a + b =~= a);
        assert(retained(a, index) + retained(b, index) =~= retained(a, index));
    } else {
        lemma_retained_concat(a, b.drop_last(), index);
        assert((a + b).drop_last() =~= a + b.drop_last());
        assert((a + b).last() == b.last());
        if index - b.last() <= MAX_OFFSET {
            assert(retained(a + b, index) =~= retained(a, index) + retained(b, index));
        }
    }
}

/// Nothing that was dropped for one place is missed at a later place.
pub proof fn lemma_retained_twice(list: Seq<usize>, index: int, later: int)
    requires
        index <= later,
    ensures
        retained(retained(list, index), later) == retained(list, later),
    decreases list.len(),
{
    if list.len() > 0 {
        lemma_retained_twice(list.drop_last(), index, later);
        if index - list.last() <= MAX_OFFSET {
            let kept = retained(list.drop_last(), index).push(list.last());
            assert(kept.drop_last() =~= retained(list.drop_last(), index));
            assert(kept.last() == list.last());
        }
    }
}

/// Of the positions of a range, those that a place can reach are the
/// positions of the part of the range that it can reach.
pub proof fn lemma_retained_hits(data: Seq<u8>, key: u32, lo: int, hi: int, index: int)
    requires
        0 <= lo,
        hi <= index,
        hi <= usize::MAX,
    ensures
        retained(hits_in(data, key, lo, hi), index) == hits_in(
            data,
            key,
            if lo >= index - MAX_OFFSET {
                lo
            } else {
                index - MAX_OFFSET
            },
            hi,
        ),
    decreases hi - lo,
{
    if hi > lo {
        lemma_retained_hits(data, key, lo, hi - 1, index);
        let shorter = hits_in(data, key, lo, hi - 1);
        if key_at(data, hi - 1) == key {
            let all = shorter.push((hi - 1) as usize);
            assert(all.drop_last() =~= shorter);
            assert(all.last() == hi - 1);
        }
    }
}

/// The positions of two ranges in a row are the positions of the whole.
pub proof fn lemma_hits_concat(data: Seq<u8>, key: u32, lo: int, mid: int, hi: int)
    requires
        lo <= mid <= hi,
    ensures
        hits_in(data, key, lo, mid) + hits_in(data, key, mid, hi) == hits_in(data, key, lo, hi),
    decreases hi - mid,
{
    if hi > mid {
        lemma_hits_concat(data, key, lo, mid, hi - 1);
        if key_at(data, hi - 1) == key {
            assert(hits_in(data, key, lo, mid) + hits_in(data, key, mid, hi - 1).push(
                (hi - 1) as usize,
            ) =~= (hits_in(data, key, lo, mid) + hits_in(data, key, mid, hi - 1)).push(
                (hi - 1) as usize,
            ));
        }
    } else {
        assert(hits_in(data, key, lo, mid) + hits_in(data, key, mid, hi) =~= hits_in(
            data,
            key,
            lo,
            mid,
        ));
    }
}

/// Whatever is kept of positions below a place is below it.
pub proof fn lemma_retained_below(list: Seq<usize>, index: int, bound: int)
    requires
        forall|j: int| 0 <= j < list.len() ==> #[trigger] list[j] < bound,
    ensures
        forall|j: int|
            0 <= j < retained(list, index).len() ==> #[trigger] retained(list, index)[j] < bound,
    decreases list.len(),
{
    if list.len() > 0 {
        let shorter = list.drop_last();
        assert forall|j: int| 0 <= j < shorter.len() implies #[trigger] shorter[j] < bound by {
            assert(shorter[j] == list[j]);
        }
        lemma_retained_below(shorter, index, bound);
        assert(list.last() == list[list.len() - 1]);
        assert forall|j: int| 0 <= j < retained(list, index).len() implies #[trigger] retained(
            list,
            index,
        )[j] < bound by {
            if j < retained(shorter, index).len() {
                assert(retained(list, index)[j] == retained(shorter, index)[j]);
            }
        }
    }
}

/// Where an index holds, for a place, what the place can reach, and is then
/// told of the positions from the place on, it holds what the place behind
/// them can reach.
pub proof fn lemma_index_moves_on(
    data: Seq<u8>,
    key: u32,
    list: Seq<usize>,
    index: int,
    count: int,
)
    requires
        0 <= index,
        0 <= count,
        index + count <= usize::MAX,
        forall|j: int| 0 <= j < list.len() ==> #[trigger] list[j] < index,
        retained(list, index) == hits_in(data, key, window_start(index), index),
    ensures
        retained(
            list + hits_in(
                data,
                key,
                added_start(index, count),
                index + count,
            ),
            index + count,
        ) == hits_in(data, key, window_start(index + count), index + count),
        forall|j: int|
            0 <= j < (list + hits_in(
                data,
                key,
                added_start(index, count),
                index + count,
            )).len() ==> #[trigger] (list + hits_in(
                data,
                key,
                added_start(index, count),
                index + count,
            ))[j] < index + count,
{
    let later = index + count;
    let start = added_start(index, count);
    let added = hits_in(data, key, start, later);
    lemma_hits_in_range(data, key, start, later);
    lemma_retained_concat(list, added, later);
    lemma_retained_hits(data, key, start, later, later);
    assert(retained(added, later) == added);
    lemma_retained_twice(list, index, later);
    lemma_retained_hits(data, key, window_start(index), index, later);
    if count > MAX_OFFSET {
        lemma_hits_in_range(data, key, start, index);
        assert(retained(list, later) =~= Seq::<usize>::empty());
        assert(retained(list, later) + added =~= added);
    } else {
        lemma_hits_concat(data, key, window_start(later), index, later);
    }
}

/// Of rising positions, those that give one length rise too, and are no more.
pub proof fn lemma_with_length_rising(data: Seq<u8>, index: int, list: Seq<usize>, length: nat)
    requires
        rising(list),
    ensures
        rising(with_length(data, index, list, length)),
        with_length(data, index, list, length).len() <= list.len(),
        forall|j: int|
            0 <= j < with_length(data, index, list, length).len() ==> list.contains(
                #[trigger] with_length(data, index, list, length)[j],
            ),
    decreases list.len(),
{
    if list.len() > 0 {
        let shorter = list.drop_last();
        assert(rising(shorter)) by {
            assert forall|j: int, k: int| 0 <= j < k < shorter.len() implies shorter[j]
                < shorter[k] by {
                assert(shorter[j] == list[j] && shorter[k] == list[k]);
            }
        }
        lemma_with_length_rising(data, index, shorter, length);
        let fewer = with_length(data, index, shorter, length);
        let all = with_length(data, index, list, length);
        assert forall|j: int| 0 <= j < all.len() implies list.contains(#[trigger] all[j]) by {
            if j < fewer.len() {
                assert(shorter.contains(fewer[j]));
                let k = choose|k: int| 0 <= k < shorter.len() && shorter[k] == fewer[j];
                assert(list[k] == all[j]);
            } else {
                assert(list[list.len() - 1] == all[j]);
            }
        }
        assert forall|j: int, k: int| 0 <= j < k < all.len() implies all[j] < all[k] by {
            if k >= fewer.len() {
                assert(shorter.contains(fewer[j]));
                let m = choose|m: int| 0 <= m < shorter.len() && shorter[m] == fewer[j];
                assert(list[m] < list[list.len() - 1]);
            }
        }
    }
}

/// The longest match is given by one of the positions (of a list that is not
/// empty), and by none a longer one.
pub proof fn lemma_best_length_is_reached(data: Seq<u8>, index: int, list: Seq<usize>)
    requires
        list.len() > 0,
    ensures
        with_length(data, index, list, best_length(data, index, list)).len() > 0,
        forall|j: int|
            0 <= j < list.len() ==> match_length_at(data, index, #[trigger] list[j] as int)
                <= best_length(data, index, list),
    decreases list.len(),
{
    let shorter = list.drop_last();
    let last = match_length_at(data, index, list.last() as int);
    if shorter.len() > 0 {
        lemma_best_length_is_reached(data, index, shorter);
        let before = best_length(data, index, shorter);
        assert forall|j: int| 0 <= j < list.len() implies match_length_at(
            data,
            index,
            #[trigger] list[j] as int,
        ) <= best_length(data, index, list) by {
            if j < shorter.len() {
                assert(shorter[j] == list[j]);
            }
        }
        if last < before {
            lemma_with_length_grows(data, index, list, before);
        }
    } else {
        assert(best_length(data, index, shorter) == 0);
    }
}

/// Adding a position to a list takes none away from those of one length.
proof fn lemma_with_length_grows(data: Seq<u8>, index: int, list: Seq<usize>, length: nat)
    requires
        list.len() > 0,
    ensures
        with_length(data, index, list, length).len() >= with_length(
            data,
            index,
            list.drop_last(),
            length,
        ).len(),
{
}

/// What holds of every candidate for a match at `index`: it lies in the
/// window, starts with the same four bytes, and the candidates rise, so that
/// none is counted twice and there are no more than `MAX_OFFSET`.
pub proof fn lemma_candidates(data: Seq<u8>, index: int, prefer_hidden: bool)
    requires
        0 <= index <= usize::MAX,
    ensures
        candidates(data, index, prefer_hidden).len() <= MAX_OFFSET,
        rising(candidates(data, index, prefer_hidden)),
        forall|j: int|
            0 <= j < candidates(data, index, prefer_hidden).len() ==> {
                &&& window_start(index) <= (#[trigger] candidates(data, index, prefer_hidden)[j])
                    < index
                &&& key_at(data, candidates(data, index, prefer_hidden)[j] as int) == key_at(
                    data,
                    index,
                )
            },
        !prefer_hidden ==> forall|j: int|
            0 <= j < candidates(data, index, prefer_hidden).len() ==> match_length_at(
                data,
                index,
                #[trigger] candidates(data, index, prefer_hidden)[j] as int,
            ) == best_length(data, index, window_hits(data, index)),
        window_hits(data, index).len() > 0 ==> candidates(data, index, prefer_hidden).len() > 0,
{
    let window = window_hits(data, index);
    let key = key_at(data, index);
    lemma_hits_in_range(data, key, window_start(index), index);
    if !prefer_hidden {
        let best = best_length(data, index, window);
        lemma_with_length_rising(data, index, window, best);
        lemma_with_length_is_part(data, index, window, best);
        let found = candidates(data, index, prefer_hidden);
        assert forall|j: int| 0 <= j < found.len() implies {
            &&& window_start(index) <= (#[trigger] found[j]) < index
            &&& key_at(data, found[j] as int) == key
        } by {
            assert(window.contains(found[j]));
            let k = choose|k: int| 0 <= k < window.len() && window[k] == found[j];
            assert(window_start(index) <= window[k] < index);
        }
        if window.len() > 0 {
            lemma_best_length_is_reached(data, index, window);
        }
    }
}

/// Two places with the same key start with the same four bytes.
pub proof fn lemma_same_key_same_bytes(data: Seq<u8>, a: int, b: int)
    requires
        0 <= a,
        0 <= b,
        a + MAP_PREF_SIZE <= data.len(),
        b + MAP_PREF_SIZE <= data.len(),
        key_at(data, a) == key_at(data, b),
    ensures
        forall|p: int| a <= p < a + MAP_PREF_SIZE ==> #[trigger] data[p] == data[p - a + b],
{
    let wa = data.subrange(a, a + MAP_PREF_SIZE);
    let wb = data.subrange(b, b + MAP_PREF_SIZE);
    assert(wa[0] == data[a] && wa[1] == data[a + 1] && wa[2] == data[a + 2] && wa[3] == data[a
        + 3]);
    assert(wb[0] == data[b] && wb[1] == data[b + 1] && wb[2] == data[b + 2] && wb[3] == data[b
        + 3]);
    assert(u32_from_le(wa) == wa[0] + 256 * wa[1] + 65536 * wa[2] + 16777216 * wa[3]);
    assert(u32_from_le(wb) == wb[0] + 256 * wb[1] + 65536 * wb[2] + 16777216 * wb[3]);
}

/// Two sequences agree on as many bytes as they have in common at the front.
pub proof fn lemma_common_prefix(a: Seq<u8>, b: Seq<u8>)
    ensures
        common_prefix_len(a, b) <= a.len(),
        common_prefix_len(a, b) <= b.len(),
        forall|t: int| 0 <= t < common_prefix_len(a, b) ==> #[trigger] a[t] == b[t],
    decreases a.len(),
{
    if a.len() > 0 && b.len() > 0 && a[0] == b[0] {
        lemma_common_prefix(a.drop_first(), b.drop_first());
        assert forall|t: int| 0 <= t < common_prefix_len(a, b) implies #[trigger] a[t] == b[t] by {
            if t > 0 {
                assert(a.drop_first()[t - 1] == a[t]);
                assert(b.drop_first()[t - 1] == b[t]);
            }
        }
    }
}

/// A match copies what is there: over its whole length the bytes at the
/// place are those at the position it copies from, and it leaves the last
/// five bytes of the block alone.
pub proof fn lemma_match_is_copy(data: Seq<u8>, index: int, position: int)
    requires
        0 <= position < index,
        index + END_LITERAL_NUM <= data.len(),
        key_at(data, position) == key_at(data, index),
    ensures
        index + match_length_at(data, index, position) + END_LITERAL_NUM <= data.len(),
        forall|p: int|
            index <= p < index + match_length_at(data, index, position) ==> #[trigger] data[p]
                == data[p - index + position],
{
    let here = data.skip(index + MAP_PREF_SIZE);
    let there = data.skip(position + MAP_PREF_SIZE);
    lemma_common_prefix(here, there);
    if index + MAP_PREF_SIZE <= data.len() {
        lemma_same_key_same_bytes(data, position, index);
    }
    assert forall|p: int|
        index <= p < index + match_length_at(data, index, position) implies #[trigger] data[p]
        == data[p - index + position] by {
        let t = p - index;
        if t >= MAP_PREF_SIZE {
            assert(here[t - MAP_PREF_SIZE] == data[index + t]);
            assert(there[t - MAP_PREF_SIZE] == data[position + t]);
        } else {
            assert(data[position + t] == data[(position + t) - position + index]);
        }
    }
}

} // verus!
