//! The index of earlier positions by the four bytes that start there, from
//! which the candidates for a match are drawn.
//!
//! The compressor and the decompressor both build this index over the bytes of
//! a block and must get the same candidates in the same order at every place:
//! the position of the chosen candidate in that order is what carries the
//! hidden digit.

use crate::bytes::read_u32_le;
use crate::bytes::u32_from_le;
use crate::constants::END_LITERAL_NUM;
use crate::constants::MAP_PREF_SIZE;
use crate::constants::MAX_OFFSET;
use crate::matching::candidates;
use crate::matching::lemma_candidates;
use crate::matching::lemma_index_moves_on;
use crate::matching::lemma_retained_below;
use crate::matching::lemma_retained_twice;
use crate::matching::window_start;
use std::collections::HashMap;
use vstd::prelude::*;
use vstd::std_specs::hash::group_hash_axioms;

verus! {

broadcast use group_hash_axioms;

/// The four bytes of `data` from `position` on, as one number.
pub open spec fn key_at(data: Seq<u8>, position: int) -> u32 {
    u32_from_le(data.subrange(position, position + MAP_PREF_SIZE))
}

/// How many bytes `a` and `b` have in common at their fronts.
pub open spec fn common_prefix_len(a: Seq<u8>, b: Seq<u8>) -> nat
    decreases a.len(),
{
    if a.len() == 0 || b.len() == 0 || a[0] != b[0] {
        0
    } else {
        1 + common_prefix_len(a.drop_first(), b.drop_first())
    }
}

/// The length of the match at `index` that copies from `occur_index`, two
/// places with the same first four bytes: four and what the two have in
/// common beyond them, but no more than leaves the last five bytes of the
/// block to the literals.
pub open spec fn match_length_at(data: Seq<u8>, index: int, occur_index: int) -> nat {
    let common = common_prefix_len(
        data.skip(index + MAP_PREF_SIZE),
        data.skip(occur_index + MAP_PREF_SIZE),
    ) + MAP_PREF_SIZE;
    let limit = data.len() - END_LITERAL_NUM - index;
    if common <= limit {
        common as nat
    } else {
        limit as nat
    }
}

/// The positions from `lo` up to `hi`, without `hi`, whose key is `key`, in
/// rising order.
pub open spec fn hits_in(data: Seq<u8>, key: u32, lo: int, hi: int) -> Seq<usize>
    decreases hi - lo,
{
    if hi <= lo {
        Seq::empty()
    } else if key_at(data, hi - 1) == key {
        hits_in(data, key, lo, hi - 1).push((hi - 1) as usize)
    } else {
        hits_in(data, key, lo, hi - 1)
    }
}

/// Of `count` positions from `index` on, where the ones that are indexed
/// start: all of them, or the last `MAX_OFFSET` where there are more.
pub open spec fn added_start(index: int, count: int) -> int {
    if count > MAX_OFFSET {
        index + count - MAX_OFFSET
    } else {
        index
    }
}

/// The positions of `list` that a match at `index` can still reach: those no
/// more than `MAX_OFFSET` before it, in their order.
pub open spec fn retained(list: Seq<usize>, index: int) -> Seq<usize>
    decreases list.len(),
{
    if list.len() == 0 {
        Seq::empty()
    } else if index - list.last() <= MAX_OFFSET {
        retained(list.drop_last(), index).push(list.last())
    } else {
        retained(list.drop_last(), index)
    }
}

/// The greatest length of a match at `index` that copies from one of `list`
/// (0 for an empty list).
pub open spec fn best_length(data: Seq<u8>, index: int, list: Seq<usize>) -> nat
    decreases list.len(),
{
    if list.len() == 0 {
        0
    } else {
        let before = best_length(data, index, list.drop_last());
        let last = match_length_at(data, index, list.last() as int);
        if last > before {
            last
        } else {
            before
        }
    }
}

/// The positions of `list` from which a match at `index` has the length
/// `length`, in their order.
pub open spec fn with_length(data: Seq<u8>, index: int, list: Seq<usize>, length: nat) -> Seq<
    usize,
>
    decreases list.len(),
{
    if list.len() == 0 {
        Seq::empty()
    } else if match_length_at(data, index, list.last() as int) == length {
        with_length(data, index, list.drop_last(), length).push(list.last())
    } else {
        with_length(data, index, list.drop_last(), length)
    }
}

/// The candidates among the positions `window` that a match at `index` can
/// reach: all of them where hidden capacity is preferred, else those that
/// give the longest match.
pub open spec fn candidate_positions(
    data: Seq<u8>,
    index: int,
    window: Seq<usize>,
    prefer_hidden: bool,
) -> Seq<usize> {
    if prefer_hidden {
        window
    } else {
        with_length(data, index, window, best_length(data, index, window))
    }
}

/// The length of the match at `index` that copies from the candidate
/// `position`: its own where hidden capacity is preferred, else the longest
/// that any candidate gives.
pub open spec fn candidate_length(
    data: Seq<u8>,
    index: int,
    window: Seq<usize>,
    prefer_hidden: bool,
    position: int,
) -> nat {
    if prefer_hidden {
        match_length_at(data, index, position)
    } else {
        best_length(data, index, window)
    }
}

/// How many bytes `a` and `b` have in common at their fronts.
pub fn get_common_prefix_len(a: &[u8], b: &[u8]) -> (n: usize)
    ensures
        n == common_prefix_len(a@, b@),
        n <= a@.len(),
        n <= b@.len(),
{
    let mut n: usize = 0;
    assert(a@.skip(0) =~= a@ && b@.skip(0) =~= b@);
    while n < a.len() && n < b.len() && a[n] == b[n]
        invariant
            n <= a@.len(),
            n <= b@.len(),
            common_prefix_len(a@, b@) == n + common_prefix_len(a@.skip(n as int), b@.skip(n as int)),
        decreases a@.len() - n,
    {
        proof {
            assert(a@.skip(n as int).drop_first() =~= a@.skip(n + 1));
            assert(b@.skip(n as int).drop_first() =~= b@.skip(n + 1));
        }
        n += 1;
    }
    n
}

/// The length of the match at `index` that copies from `occur_index`.
pub fn calc_match_length(data: &[u8], index: usize, occur_index: usize) -> (length: usize)
    requires
        index + END_LITERAL_NUM <= data@.len(),
        occur_index + MAP_PREF_SIZE <= data@.len(),
    ensures
        length == match_length_at(data@, index as int, occur_index as int),
        length + index + END_LITERAL_NUM <= data@.len(),
{
    let len = data.len();
    let here = &data[index + MAP_PREF_SIZE..len];
    let there = &data[occur_index + MAP_PREF_SIZE..len];
    assert(here@ =~= data@.skip(index + MAP_PREF_SIZE));
    assert(there@ =~= data@.skip(occur_index + MAP_PREF_SIZE));
    let common = get_common_prefix_len(here, there) + MAP_PREF_SIZE;
    let limit = len - END_LITERAL_NUM - index;
    if common <= limit {
        common
    } else {
        limit
    }
}

/// The key of the position `index`: its four bytes as one number.
fn key_of(data: &[u8], index: usize) -> (key: u32)
    requires
        index + MAP_PREF_SIZE <= data@.len(),
    ensures
        key == key_at(data@, index as int),
{
    let len = data.len();
    let window = &data[index..index + MAP_PREF_SIZE];
    match read_u32_le(window) {
        Some(key) => key,
        None => 0,
    }
}

/// The candidates for a match at one place.
pub struct Occurrences<'a> {
    data: Option<&'a [u8]>,
    occur: Vec<usize>,
    match_length: Option<usize>,
    index: usize,
}

impl<'a> Occurrences<'a> {
    #[verifier::type_invariant]
    spec fn lengths_are_defined(self) -> bool {
        self.match_length is None ==> {
            &&& self.data is Some
            &&& self.index + END_LITERAL_NUM <= self.data->0@.len()
            &&& forall|j: int|
                0 <= j < self.occur@.len() ==> #[trigger] self.occur@[j] + MAP_PREF_SIZE
                    <= self.data->0@.len()
        }
    }

    /// The positions of the candidates, in the order in which they are counted.
    pub closed spec fn positions(&self) -> Seq<usize> {
        self.occur@
    }

    /// The length of the match that copies from the candidate `position`.
    pub closed spec fn length_from(&self, position: usize) -> nat {
        match self.match_length {
            Some(length) => length as nat,
            None => match_length_at(self.data->0@, self.index as int, position as int),
        }
    }

    fn new_with_match_length(occur: Vec<usize>, match_length: usize) -> (found: Self)
        ensures
            found.positions() == occur@,
            forall|position: usize| found.length_from(position) == match_length,
    {
        Self { data: None, occur, match_length: Some(match_length), index: 0 }
    }

    fn new(occur: Vec<usize>, data: &'a [u8], index: usize) -> (found: Self)
        requires
            index + END_LITERAL_NUM <= data@.len(),
            forall|j: int| 0 <= j < occur@.len() ==> #[trigger] occur@[j] + MAP_PREF_SIZE <= data@.len(),
        ensures
            found.positions() == occur@,
            forall|position: usize|
                found.length_from(position) == match_length_at(
                    data@,
                    index as int,
                    position as int,
                ),
    {
        Self { data: Some(data), occur, match_length: None, index }
    }

    fn empty() -> (found: Self)
        ensures
            found.positions() == Seq::<usize>::empty(),
            forall|position: usize| found.length_from(position) == 0,
    {
        Self { data: None, occur: Vec::new(), match_length: Some(0), index: 0 }
    }

    /// How many candidates there are.
    pub fn len(&self) -> (n: usize)
        ensures
            n == self.positions().len(),
    {
        self.occur.len()
    }

    /// The candidate with the number `index`: its position, and the length
    /// of the match that copies from it.
    pub fn choose_occurrence(&self, index: usize) -> (chosen: (usize, usize))
        requires
            index < self.positions().len(),
        ensures
            chosen.0 == self.positions()[index as int],
            chosen.1 == self.length_from(chosen.0),
    {
        proof {
            use_type_invariant(self);
        }
        let occur_index = self.occur[index];
        let match_length = match self.match_length {
            Some(fixed_match_length) => fixed_match_length,
            None => match self.data {
                Some(data) => calc_match_length(data, self.index, occur_index),
                None => 0,
            },
        };
        (occur_index, match_length)
    }

    /// The number of the first candidate at the position `chosen_index`, or
    /// nothing where no candidate is there.
    pub fn get_occurrence_index(&self, chosen_index: usize) -> (number: Option<usize>)
        ensures
            match number {
                Some(j) => j < self.positions().len() && self.positions()[j as int] == chosen_index
                    && forall|k: int| 0 <= k < j ==> self.positions()[k] != chosen_index,
                None => !self.positions().contains(chosen_index),
            },
    {
        let mut j: usize = 0;
        while j < self.occur.len()
            invariant
                j <= self.occur@.len(),
                forall|k: int| 0 <= k < j ==> self.occur@[k] != chosen_index,
            decreases self.occur@.len() - j,
        {
            if self.occur[j] == chosen_index {
                return Some(j);
            }
            j += 1;
        }
        None
    }
}

/// The index of the positions of a block by their first four bytes.
pub struct OccurrenceMap<'a> {
    data: &'a [u8],
    occur: HashMap<u32, Vec<usize>>,
    prefer_hidden: bool,
}

impl<'a> OccurrenceMap<'a> {
    /// The bytes of the block.
    pub closed spec fn data(&self) -> Seq<u8> {
        self.data@
    }

    /// Whether every reachable position is a candidate, or only those that
    /// give the longest match.
    pub closed spec fn prefer_hidden(&self) -> bool {
        self.prefer_hidden
    }

    /// The positions indexed under `key`, oldest first.
    pub closed spec fn entries(&self, key: u32) -> Seq<usize> {
        if self.occur@.contains_key(key) {
            self.occur@[key]@
        } else {
            Seq::empty()
        }
    }

    /// Every position stands under its own key and has four bytes.
    pub closed spec fn well_formed(&self) -> bool {
        forall|key: u32, j: int|
            self.occur@.contains_key(key) && 0 <= j < self.occur@[key]@.len() ==> {
                &&& (#[trigger] self.occur@[key]@[j]) + MAP_PREF_SIZE <= self.data@.len()
                &&& key_at(self.data@, self.occur@[key]@[j] as int) == key
            }
    }

    /// The index is ready for a match at `cursor`: it has been told of every
    /// position before `cursor`, but for those that `cursor` cannot reach, and
    /// of no other.
    pub open spec fn tracks(&self, cursor: int) -> bool {
        &&& self.well_formed()
        &&& 0 <= cursor <= usize::MAX
        &&& forall|key: u32, j: int|
            0 <= j < self.entries(key).len() ==> #[trigger] self.entries(key)[j] < cursor
        &&& forall|key: u32| #[trigger]
            retained(self.entries(key), cursor) == hits_in(
                self.data(),
                key,
                window_start(cursor),
                cursor,
            )
    }

    pub fn new(data: &'a [u8], prefer_hidden: bool) -> (map: Self)
        ensures
            map.well_formed(),
            map.data() == data@,
            map.prefer_hidden() == prefer_hidden,
            forall|key: u32| #[trigger] map.entries(key) == Seq::<usize>::empty(),
            map.tracks(0),
    {
        let len = data.len();
        let map = Self { data, occur: HashMap::new(), prefer_hidden };
        assert forall|key: u32| #[trigger]
            retained(map.entries(key), 0) == hits_in(map.data(), key, window_start(0), 0) by {}
        map
    }

    /// Indexes the `to_advance` positions from `index` on; where there are
    /// more than `MAX_OFFSET`, the last `MAX_OFFSET` of them.
    #[verifier::rlimit(30)]
    pub fn add_occurrences(&mut self, index: usize, to_advance: usize)
        requires
            old(self).well_formed(),
            to_advance > 0 ==> index + to_advance - 1 + MAP_PREF_SIZE <= old(self).data().len(),
        ensures
            final(self).well_formed(),
            final(self).data() == old(self).data(),
            final(self).prefer_hidden() == old(self).prefer_hidden(),
            forall|key: u32| #[trigger]
                final(self).entries(key) == old(self).entries(key) + hits_in(
                    old(self).data(),
                    key,
                    added_start(index as int, to_advance as int),
                    index + to_advance,
                ),
            old(self).tracks(index as int) ==> final(self).tracks(index + to_advance),
    {
        let len = self.data.len();
        let start = if to_advance > MAX_OFFSET {
            index + to_advance - MAX_OFFSET
        } else {
            index
        };
        let end = index + to_advance;
        let mut i = start;
        assert forall|key: u32| #[trigger]
            self.entries(key) == old(self).entries(key) + hits_in(
                self.data@,
                key,
                start as int,
                i as int,
            ) by {
            assert(self.entries(key) + Seq::<usize>::empty() =~= self.entries(key));
        }
        while i < end
            invariant
                start <= i <= end,
                start < end ==> end - 1 + MAP_PREF_SIZE <= self.data@.len(),
                self.well_formed(),
                self.data == old(self).data,
                self.prefer_hidden == old(self).prefer_hidden,
                forall|key: u32| #[trigger]
                    self.entries(key) == old(self).entries(key) + hits_in(
                        self.data@,
                        key,
                        start as int,
                        i as int,
                    ),
            decreases end - i,
        {
            let key = key_of(self.data, i);
            let ghost before = *self;
            let mut list = match self.occur.remove(&key) {
                Some(list) => list,
                None => Vec::new(),
            };
            assert(list@ == before.entries(key));
            list.push(i);
            self.occur.insert(key, list);
            proof {
                assert forall|other: u32| #[trigger]
                    self.entries(other) == old(self).entries(other) + hits_in(
                        self.data@,
                        other,
                        start as int,
                        i + 1,
                    ) by {
                    if other == key {
                        assert(self.entries(other) =~= before.entries(other).push(i));
                        assert(before.entries(other).push(i) =~= old(self).entries(other) + hits_in(
                            self.data@,
                            other,
                            start as int,
                            i as int,
                        ).push(i));
                    } else {
                        assert(self.entries(other) == before.entries(other));
                    }
                }
                assert forall|other: u32, j: int|
                    self.occur@.contains_key(other) && 0 <= j < self.occur@[other]@.len() implies {
                    &&& (#[trigger] self.occur@[other]@[j]) + MAP_PREF_SIZE <= self.data@.len()
                    &&& key_at(self.data@, self.occur@[other]@[j] as int) == other
                } by {
                    if other == key {
                        if j < before.entries(key).len() {
                            assert(self.occur@[other]@[j] == before.entries(key)[j]);
                            if before.occur@.contains_key(key) {
                                assert(before.occur@[key]@[j] == before.entries(key)[j]);
                            }
                        }
                    } else {
                        assert(before.occur@.contains_key(other));
                        assert(self.occur@[other]@[j] == before.occur@[other]@[j]);
                    }
                }
            }
            i += 1;
        }
        proof {
            if old(self).tracks(index as int) {
                assert forall|key: u32| #[trigger]
                    retained(self.entries(key), index + to_advance) == hits_in(
                        self.data(),
                        key,
                        window_start(index + to_advance),
                        index + to_advance,
                    ) by {
                    assert(retained(old(self).entries(key), index as int) == hits_in(
                        self.data(),
                        key,
                        window_start(index as int),
                        index as int,
                    ));
                    lemma_index_moves_on(
                        self.data(),
                        key,
                        old(self).entries(key),
                        index as int,
                        to_advance as int,
                    );
                }
                assert forall|key: u32, j: int| 0 <= j < self.entries(key).len() implies #[trigger]
                    self.entries(key)[j] < index + to_advance by {
                    assert(retained(old(self).entries(key), index as int) == hits_in(
                        self.data(),
                        key,
                        window_start(index as int),
                        index as int,
                    ));
                    lemma_index_moves_on(
                        self.data(),
                        key,
                        old(self).entries(key),
                        index as int,
                        to_advance as int,
                    );
                }
            }
        }
    }

    /// The candidates for a match at `index`. Positions under the key of
    /// `index` that lie more than `MAX_OFFSET` back leave the index for good.
    #[verifier::rlimit(30)]
    pub fn get_occurrences(&mut self, index: usize) -> (found: Occurrences<'a>)
        requires
            old(self).well_formed(),
            index + END_LITERAL_NUM <= old(self).data().len(),
            forall|j: int|
                0 <= j < old(self).entries(key_at(old(self).data(), index as int)).len()
                    ==> #[trigger] old(self).entries(key_at(old(self).data(), index as int))[j]
                    <= index,
        ensures
            final(self).well_formed(),
            final(self).data() == old(self).data(),
            final(self).prefer_hidden() == old(self).prefer_hidden(),
            forall|key: u32| #[trigger]
                final(self).entries(key) == if key == key_at(old(self).data(), index as int) {
                    retained(old(self).entries(key), index as int)
                } else {
                    old(self).entries(key)
                },
            found.positions() == candidate_positions(
                old(self).data(),
                index as int,
                retained(
                    old(self).entries(key_at(old(self).data(), index as int)),
                    index as int,
                ),
                old(self).prefer_hidden(),
            ),
            forall|position: usize|
                found.positions().contains(position) ==> #[trigger] found.length_from(position)
                    == candidate_length(
                    old(self).data(),
                    index as int,
                    retained(
                        old(self).entries(key_at(old(self).data(), index as int)),
                        index as int,
                    ),
                    old(self).prefer_hidden(),
                    position as int,
                ),
            old(self).tracks(index as int) ==> {
                &&& final(self).tracks(index as int)
                &&& found.positions() == candidates(
                    old(self).data(),
                    index as int,
                    old(self).prefer_hidden(),
                )
                &&& forall|position: usize|
                    found.positions().contains(position) ==> #[trigger] found.length_from(position)
                        == match_length_at(old(self).data(), index as int, position as int)
            },
    {
        let data = self.data;
        let key = key_of(data, index);
        let ghost before = *self;
        proof {
            if before.tracks(index as int) {
                assert(retained(before.entries(key), index as int) == hits_in(
                    before.data(),
                    key,
                    window_start(index as int),
                    index as int,
                ));
                lemma_candidates(data@, index as int, self.prefer_hidden);
            }
        }
        let list = match self.occur.remove(&key) {
            Some(list) => list,
            None => {
                let found = Occurrences::empty();
                proof {
                    assert(self.occur@ =~= before.occur@);
                    assert(before.entries(key) =~= Seq::<usize>::empty());
                    assert forall|other: u32| #[trigger]
                        self.entries(other) == before.entries(other) by {}
                    if before.tracks(index as int) {
                        assert(self.well_formed());
                        assert forall|other: u32, j: int|
                            0 <= j < self.entries(other).len() implies #[trigger] self.entries(
                            other,
                        )[j] < index by {
                            assert(self.entries(other)[j] == before.entries(other)[j]);
                        }
                        assert forall|other: u32| #[trigger]
                            retained(self.entries(other), index as int) == hits_in(
                                self.data(),
                                other,
                                window_start(index as int),
                                index as int,
                            ) by {
                            assert(retained(before.entries(other), index as int) == hits_in(
                                self.data(),
                                other,
                                window_start(index as int),
                                index as int,
                            ));
                        }
                        assert(self.tracks(index as int));
                        assert(candidates(data@, index as int, self.prefer_hidden)
                            =~= Seq::<usize>::empty());
                    }
                }
                return found;
            },
        };
        assert(list@ == before.entries(key));
        let kept = retain_reachable(&list, index);
        let ghost window = kept@;
        proof {
            lemma_retained_is_part(list@, index as int);
        }
        let found = if kept.len() == 0 {
            Occurrences::empty()
        } else if self.prefer_hidden {
            let occur = copy_positions(&kept);
            Occurrences::new(occur, data, index)
        } else {
            let max_match_length = longest_match(data, index, &kept);
            let occur = positions_with_length(data, index, &kept, max_match_length);
            proof {
                lemma_with_length_is_part(data@, index as int, window, max_match_length as nat);
            }
            Occurrences::new_with_match_length(occur, max_match_length)
        };
        self.occur.insert(key, kept);
        proof {
            if before.tracks(index as int) {
                lemma_retained_twice(list@, index as int, index as int);
                lemma_retained_below(list@, index as int, index as int);
                assert forall|other: u32| #[trigger]
                    retained(self.entries(other), index as int) == hits_in(
                        self.data(),
                        other,
                        window_start(index as int),
                        index as int,
                    ) by {
                    assert(retained(before.entries(other), index as int) == hits_in(
                        self.data(),
                        other,
                        window_start(index as int),
                        index as int,
                    ));
                    if other != key {
                        assert(self.entries(other) == before.entries(other));
                    }
                }
                assert forall|other: u32, j: int| 0 <= j < self.entries(other).len() implies #[trigger]
                    self.entries(other)[j] < index by {
                    if other != key {
                        assert(self.entries(other) == before.entries(other));
                    }
                }
                assert forall|position: usize|
                    found.positions().contains(position) implies #[trigger] found.length_from(
                    position,
                ) == match_length_at(data@, index as int, position as int) by {
                    if !self.prefer_hidden {
                        let j = choose|j: int|
                            0 <= j < found.positions().len() && found.positions()[j] == position;
                        assert(candidates(data@, index as int, self.prefer_hidden)[j] == position);
                    }
                }
            }
            assert forall|other: u32| #[trigger]
                self.entries(other) == if other == key {
                    retained(before.entries(other), index as int)
                } else {
                    before.entries(other)
                } by {
                if other != key {
                    assert(self.entries(other) == before.entries(other));
                }
            }
            assert forall|other: u32, j: int|
                self.occur@.contains_key(other) && 0 <= j < self.occur@[other]@.len() implies {
                &&& (#[trigger] self.occur@[other]@[j]) + MAP_PREF_SIZE <= self.data@.len()
                &&& key_at(self.data@, self.occur@[other]@[j] as int) == other
            } by {
                if other == key {
                    let k = choose|k: int| 0 <= k < list@.len() && list@[k] == window[j];
                    assert(before.occur@[key]@[k] == window[j]);
                } else {
                    assert(before.occur@.contains_key(other));
                    assert(self.occur@[other]@[j] == before.occur@[other]@[j]);
                }
            }
        }
        found
    }
}

/// Whatever `retained` keeps was in the list.
pub proof fn lemma_retained_is_part(list: Seq<usize>, index: int)
    ensures
        forall|j: int|
            0 <= j < retained(list, index).len() ==> exists|k: int|
                0 <= k < list.len() && list[k] == #[trigger] retained(list, index)[j],
    decreases list.len(),
{
    if list.len() > 0 {
        let shorter = list.drop_last();
        lemma_retained_is_part(shorter, index);
        assert forall|j: int| 0 <= j < retained(list, index).len() implies exists|k: int|
            0 <= k < list.len() && list[k] == #[trigger] retained(list, index)[j] by {
            if j < retained(shorter, index).len() {
                let k = choose|k: int|
                    0 <= k < shorter.len() && shorter[k] == retained(shorter, index)[j];
                assert(list[k] == retained(list, index)[j]);
            } else {
                assert(list[list.len() - 1] == retained(list, index)[j]);
            }
        }
    }
}

/// Whatever `with_length` keeps was in the list and gives that length.
pub proof fn lemma_with_length_is_part(data: Seq<u8>, index: int, list: Seq<usize>, length: nat)
    ensures
        forall|j: int|
            0 <= j < with_length(data, index, list, length).len() ==> {
                &&& match_length_at(
                    data,
                    index,
                    (#[trigger] with_length(data, index, list, length)[j]) as int,
                ) == length
                &&& exists|k: int|
                    0 <= k < list.len() && list[k] == with_length(data, index, list, length)[j]
            },
    decreases list.len(),
{
    if list.len() > 0 {
        let shorter = list.drop_last();
        lemma_with_length_is_part(data, index, shorter, length);
        let all = with_length(data, index, list, length);
        let fewer = with_length(data, index, shorter, length);
        assert forall|j: int| 0 <= j < all.len() implies {
            &&& match_length_at(data, index, (#[trigger] all[j]) as int) == length
            &&& exists|k: int| 0 <= k < list.len() && list[k] == all[j]
        } by {
            if j < fewer.len() {
                let k = choose|k: int| 0 <= k < shorter.len() && shorter[k] == fewer[j];
                assert(list[k] == all[j]);
            } else {
                assert(list[list.len() - 1] == all[j]);
            }
        }
    }
}

/// The positions of `list` that a match at `index` can still reach.
fn retain_reachable(list: &Vec<usize>, index: usize) -> (kept: Vec<usize>)
    requires
        forall|j: int| 0 <= j < list@.len() ==> #[trigger] list@[j] <= index,
    ensures
        kept@ == retained(list@, index as int),
{
    let mut kept: Vec<usize> = Vec::new();
    let mut j: usize = 0;
    assert(list@.take(0) =~= Seq::<usize>::empty());
    while j < list.len()
        invariant
            j <= list@.len(),
            forall|k: int| 0 <= k < list@.len() ==> #[trigger] list@[k] <= index,
            kept@ == retained(list@.take(j as int), index as int),
        decreases list@.len() - j,
    {
        let x = list[j];
        proof {
            assert(list@.take(j + 1).drop_last() =~= list@.take(j as int));
        }
        if index - x <= MAX_OFFSET {
            kept.push(x);
        }
        j += 1;
    }
    assert(list@.take(j as int) =~= list@);
    kept
}

/// A copy of `list`.
fn copy_positions(list: &Vec<usize>) -> (copy: Vec<usize>)
    ensures
        copy@ == list@,
{
    let mut copy: Vec<usize> = Vec::new();
    let mut j: usize = 0;
    while j < list.len()
        invariant
            j <= list@.len(),
            copy@ == list@.take(j as int),
        decreases list@.len() - j,
    {
        copy.push(list[j]);
        assert(list@.take(j + 1) =~= list@.take(j as int).push(list@[j as int]));
        j += 1;
    }
    assert(list@.take(j as int) =~= list@);
    copy
}

/// The greatest length of a match at `index` that copies from one of `list`.
fn longest_match(data: &[u8], index: usize, list: &Vec<usize>) -> (best: usize)
    requires
        index + END_LITERAL_NUM <= data@.len(),
        forall|j: int| 0 <= j < list@.len() ==> #[trigger] list@[j] + MAP_PREF_SIZE <= data@.len(),
    ensures
        best == best_length(data@, index as int, list@),
{
    let mut best: usize = 0;
    let mut j: usize = 0;
    assert(list@.take(0) =~= Seq::<usize>::empty());
    while j < list.len()
        invariant
            j <= list@.len(),
            index + END_LITERAL_NUM <= data@.len(),
            forall|k: int|
                0 <= k < list@.len() ==> #[trigger] list@[k] + MAP_PREF_SIZE <= data@.len(),
            best == best_length(data@, index as int, list@.take(j as int)),
        decreases list@.len() - j,
    {
        let length = calc_match_length(data, index, list[j]);
        proof {
            assert(list@.take(j + 1).drop_last() =~= list@.take(j as int));
        }
        if length > best {
            best = length;
        }
        j += 1;
    }
    assert(list@.take(j as int) =~= list@);
    best
}

/// The positions of `list` from which a match at `index` has the length
/// `length`.
fn positions_with_length(data: &[u8], index: usize, list: &Vec<usize>, length: usize) -> (kept:
    Vec<usize>)
    requires
        index + END_LITERAL_NUM <= data@.len(),
        forall|j: int| 0 <= j < list@.len() ==> #[trigger] list@[j] + MAP_PREF_SIZE <= data@.len(),
    ensures
        kept@ == with_length(data@, index as int, list@, length as nat),
{
    let mut kept: Vec<usize> = Vec::new();
    let mut j: usize = 0;
    assert(list@.take(0) =~= Seq::<usize>::empty());
    while j < list.len()
        invariant
            j <= list@.len(),
            index + END_LITERAL_NUM <= data@.len(),
            forall|k: int|
                0 <= k < list@.len() ==> #[trigger] list@[k] + MAP_PREF_SIZE <= data@.len(),
            kept@ == with_length(data@, index as int, list@.take(j as int), length as nat),
        decreases list@.len() - j,
    {
        let x = list[j];
        proof {
            assert(list@.take(j + 1).drop_last() =~= list@.take(j as int));
        }
        if calc_match_length(data, index, x) == length {
            kept.push(x);
        }
        j += 1;
    }
    assert(list@.take(j as int) =~= list@);
    kept
}

} // verus!
