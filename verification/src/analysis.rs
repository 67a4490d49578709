//! The digits that a block gives away: at each match, which of the
//! candidates for a match at that place was taken.

use crate::constants::END_LITERAL_NUM;
use crate::format::matches_ordered;
use crate::matching::candidates;
use crate::matching::lemma_candidates;
use crate::numeral_coding::Encoder;
use crate::numeral_coding::valid_digits;
use crate::occurrence_map::OccurrenceMap;
use vstd::prelude::*;

verus! {

/// The digit that a match at `at` which copies from `from` stands for: the
/// number of `from` among the candidates, with their count as the bound.
/// There is none where `from` is no candidate, or where the place is so
/// near the end of the block that no match is made there.
pub open spec fn site_digit(data: Seq<u8>, prefer_hidden: bool, at: usize, from: usize) -> Option<
    (u16, u16),
> {
    let found = candidates(data, at as int, prefer_hidden);
    if at + END_LITERAL_NUM <= data.len() && found.contains(from) {
        Some((found.index_of(from) as u16, found.len() as u16))
    } else {
        None
    }
}

/// The digits that the matches of a block stand for, in their order; each
/// match is given by its place and the place that it copies from.
pub open spec fn recovered_digits(
    data: Seq<u8>,
    prefer_hidden: bool,
    matches: Seq<(usize, usize)>,
) -> Seq<(u16, u16)>
    decreases matches.len(),
{
    if matches.len() == 0 {
        Seq::empty()
    } else {
        let before = recovered_digits(data, prefer_hidden, matches.drop_last());
        match site_digit(data, prefer_hidden, matches.last().0, matches.last().1) {
            Some(digit) => before.push(digit),
            None => before,
        }
    }
}

/// Every digit that matches stand for is below its bound.
pub proof fn lemma_recovered_digits_valid(
    data: Seq<u8>,
    prefer_hidden: bool,
    matches: Seq<(usize, usize)>,
)
    ensures
        valid_digits(recovered_digits(data, prefer_hidden, matches)),
    decreases matches.len(),
{
    if matches.len() > 0 {
        lemma_recovered_digits_valid(data, prefer_hidden, matches.drop_last());
        let at = matches.last().0;
        let from = matches.last().1;
        let found = candidates(data, at as int, prefer_hidden);
        lemma_candidates(data, at as int, prefer_hidden);
        if found.contains(from) {
            let j = found.index_of(from);
            assert(0 <= j < found.len());
        }
    }
}

/// Adds to `hidden_data_decoder` the digits that the matches of a block stand
/// for. `data` is the block as decoded.
#[verifier::rlimit(30)]
pub fn analyze_matches(
    data: &[u8],
    matches: &Vec<(usize, usize)>,
    prefer_hidden: bool,
    hidden_data_decoder: &mut Encoder,
)
    requires
        matches_ordered(matches@, data@.len()),
    ensures
        final(hidden_data_decoder)@ == old(hidden_data_decoder)@ + recovered_digits(
            data@,
            prefer_hidden,
            matches@,
        ),
{
    let mut occur = OccurrenceMap::new(data, prefer_hidden);
    let mut last_index: usize = 0;
    let mut j: usize = 0;
    let len = data.len();
    proof {
        assert(matches@.take(0) =~= Seq::<(usize, usize)>::empty());
        assert(hidden_data_decoder@ + Seq::<(u16, u16)>::empty() =~= hidden_data_decoder@);
    }
    while j < matches.len()
        invariant
            j <= matches@.len(),
            len == data@.len(),
            matches_ordered(matches@, data@.len()),
            occur.tracks(last_index as int),
            occur.data() == data@,
            occur.prefer_hidden() == prefer_hidden,
            j > 0 ==> last_index == matches@[j - 1].0,
            j == 0 ==> last_index == 0,
            hidden_data_decoder@ == old(hidden_data_decoder)@ + recovered_digits(
                data@,
                prefer_hidden,
                matches@.take(j as int),
            ),
        decreases matches@.len() - j,
    {
        let (index, match_index) = matches[j];
        proof {
            assert(matches@.take(j + 1).drop_last() =~= matches@.take(j as int));
            assert(matches@.take(j + 1).last() == matches@[j as int]);
            if j > 0 {
                assert(matches@[j - 1].0 <= matches@[j as int].0);
            }
            lemma_candidates(data@, index as int, prefer_hidden);
        }
        occur.add_occurrences(last_index, index - last_index);
        last_index = index;
        if len >= END_LITERAL_NUM && index <= len - END_LITERAL_NUM {
            let occurrences = occur.get_occurrences(index);
            let max_val = occurrences.len();
            let val = occurrences.get_occurrence_index(match_index);
            match val {
                Some(value) => {
                    proof {
                        let found = occurrences.positions();
                        assert(found.contains(match_index));
                        let k = found.index_of(match_index);
                        assert(0 <= k < found.len() && found[k] == match_index);
                        if k < value {
                            assert(found[k] < found[value as int]);
                        }
                        if value < k {
                            assert(found[value as int] < found[k]);
                        }
                    }
                    let ghost before = hidden_data_decoder@;
                    hidden_data_decoder.add_value(value as u16, max_val as u16);
                    proof {
                        assert(hidden_data_decoder@ =~= old(hidden_data_decoder)@
                            + recovered_digits(data@, prefer_hidden, matches@.take(j + 1)));
                    }
                },
                None => {},
            }
        }
        j += 1;
    }
    assert(matches@.take(j as int) =~= matches@);
}

} // verus!
