//! The stream as a whole: what comes out when an input arrives in blocks, and
//! why the block edges do not matter.

use crate::pattern::lemma_leftmost_search_covers;
use crate::pattern::lemma_occurrences_are_leftmost;
use crate::pattern::matches_at;
use crate::pattern::occurrences;
use crate::pattern::occurrences_from;
use crate::scan::all_values;
use crate::scan::carry_of;
use crate::scan::complete_values;
use crate::scan::lemma_carry_preserves_values;
use crate::scan::lemma_safe_cut_bounds;
use crate::scan::values_from;
use crate::scanner::ScanError;
use crate::sink::lines_of;
use crate::value::value_at;
use vstd::prelude::*;

verus! {

/// The blocks put one after the other: the input that they came from.
pub open spec fn joined(blocks: Seq<Seq<u8>>) -> Seq<u8>
    decreases blocks.len(),
{
    if blocks.len() == 0 {
        Seq::empty()
    } else {
        blocks[0] + joined(blocks.skip(1))
    }
}

/// The blocks in which an input arrives when each read takes up to `capacity`
/// bytes: all of them full but, it may be, the last. A reader without
/// capacity reads nothing.
pub open spec fn blocks_of(input: Seq<u8>, capacity: int) -> Seq<Seq<u8>>
    decreases input.len(),
{
    if capacity <= 0 || input.len() == 0 {
        Seq::empty()
    } else {
        let n = if input.len() <= capacity {
            input.len() as int
        } else {
            capacity
        };
        seq![input.take(n)] + blocks_of(input.skip(n), capacity)
    }
}

/// The values that the stream reports when `blocks` are fed to it one by one
/// with `carry` left from before, and the stream is then finished: each
/// window is the carry followed by the block, it gives its complete values
/// and leaves its bytes from the safe cut on as the next carry, and at the end
/// the last carry gives all the values it holds. `None` where a carry would
/// be longer than `max_fragment`.
pub open spec fn stream_values(
    carry: Seq<u8>,
    blocks: Seq<Seq<u8>>,
    marker: Seq<u8>,
    terminator: u8,
    max_fragment: int,
) -> Option<Seq<Seq<u8>>>
    decreases blocks.len(),
{
    if blocks.len() == 0 {
        Some(all_values(carry, marker, terminator))
    } else {
        let window = carry + blocks[0];
        let next = carry_of(window, marker, terminator);
        if next.len() > max_fragment {
            None
        } else {
            match stream_values(next, blocks.skip(1), marker, terminator, max_fragment) {
                Some(rest) => Some(complete_values(window, marker, terminator) + rest),
                None => None,
            }
        }
    }
}

/// The output of the whole pipeline for an input that is read in blocks of up
/// to `capacity` bytes: the values that the stream reports, each as a line,
/// or `MalformedValue` where the stream gives up.
pub open spec fn pipeline_output(
    input: Seq<u8>,
    capacity: int,
    marker: Seq<u8>,
    terminator: u8,
    max_fragment: int,
) -> Result<Seq<u8>, ScanError> {
    match stream_values(
        Seq::empty(),
        blocks_of(input, capacity),
        marker,
        terminator,
        max_fragment,
    ) {
        Some(values) => Ok(lines_of(values)),
        None => Err(ScanError::MalformedValue),
    }
}

/// What a run gave, with the output as a sequence.
pub open spec fn output_view(result: Result<Vec<u8>, ScanError>) -> Result<Seq<u8>, ScanError> {
    match result {
        Ok(out) => Ok(out@),
        Err(e) => Err(e),
    }
}

/// Reading with a capacity loses nothing: the blocks of an input, put one
/// after the other, are the input.
pub proof fn lemma_blocks_of_joined(input: Seq<u8>, capacity: int)
    requires
        capacity > 0,
    ensures
        joined(blocks_of(input, capacity)) == input,
    decreases input.len(),
{
    let blocks = blocks_of(input, capacity);
    if input.len() == 0 {
        assert(joined(blocks) =~= input);
    } else {
        let n = if input.len() <= capacity {
            input.len() as int
        } else {
            capacity
        };
        lemma_blocks_of_joined(input.skip(n), capacity);
        assert(blocks.skip(1) =~= blocks_of(input.skip(n), capacity));
        assert(input.take(n) + input.skip(n) =~= input);
    }
}

/// The values reported do not depend on how the input is cut into blocks:
/// whenever the stream does not give up, it reports the values of the input
/// as a whole, in their order.
pub proof fn lemma_stream_reports_all_values(
    carry: Seq<u8>,
    blocks: Seq<Seq<u8>>,
    marker: Seq<u8>,
    terminator: u8,
    max_fragment: int,
)
    requires
        marker.len() > 0,
    ensures
        stream_values(carry, blocks, marker, terminator, max_fragment) matches Some(values)
            ==> values == all_values(carry + joined(blocks), marker, terminator),
    decreases blocks.len(),
{
    if blocks.len() == 0 {
        assert(carry + joined(blocks) =~= carry);
    } else {
        let window = carry + blocks[0];
        let more = joined(blocks.skip(1));
        let next = carry_of(window, marker, terminator);
        lemma_stream_reports_all_values(next, blocks.skip(1), marker, terminator, max_fragment);
        lemma_carry_preserves_values(window, more, marker, terminator);
        assert(carry + joined(blocks) =~= window + more);
    }
}

/// The stream does not give up on an input that is no longer than what it
/// may carry.
pub proof fn lemma_stream_succeeds_within_limit(
    carry: Seq<u8>,
    blocks: Seq<Seq<u8>>,
    marker: Seq<u8>,
    terminator: u8,
    max_fragment: int,
)
    requires
        marker.len() > 0,
        carry.len() + joined(blocks).len() <= max_fragment,
    ensures
        stream_values(carry, blocks, marker, terminator, max_fragment) is Some,
    decreases blocks.len(),
{
    if blocks.len() > 0 {
        let window = carry + blocks[0];
        let next = carry_of(window, marker, terminator);
        lemma_safe_cut_bounds(window, marker, terminator, 0);
        lemma_stream_succeeds_within_limit(
            next,
            blocks.skip(1),
            marker,
            terminator,
            max_fragment,
        );
    }
}

/// Two ways of cutting the same input into blocks give the same values
/// wherever the stream gives up on neither. In particular, many small blocks
/// give what one block with the whole input gives.
pub proof fn lemma_chunking_does_not_matter(
    first: Seq<Seq<u8>>,
    second: Seq<Seq<u8>>,
    marker: Seq<u8>,
    terminator: u8,
    max_fragment: int,
)
    requires
        marker.len() > 0,
        joined(first) == joined(second),
        stream_values(Seq::empty(), first, marker, terminator, max_fragment) is Some,
        stream_values(Seq::empty(), second, marker, terminator, max_fragment) is Some,
    ensures
        stream_values(Seq::empty(), first, marker, terminator, max_fragment) == stream_values(
            Seq::empty(),
            second,
            marker,
            terminator,
            max_fragment,
        ),
{
    lemma_stream_reports_all_values(Seq::empty(), first, marker, terminator, max_fragment);
    lemma_stream_reports_all_values(Seq::empty(), second, marker, terminator, max_fragment);
    assert(Seq::<u8>::empty() + joined(first) =~= joined(first));
    assert(Seq::<u8>::empty() + joined(second) =~= joined(second));
}

/// The output of the pipeline, where it gives one, is the lines of the values
/// of the input as a whole, whatever the capacity of the reads; and it gives
/// one for every input that is no longer than what the stream may carry.
pub proof fn lemma_pipeline_output(
    input: Seq<u8>,
    capacity: int,
    marker: Seq<u8>,
    terminator: u8,
    max_fragment: int,
)
    requires
        marker.len() > 0,
        capacity > 0,
    ensures
        pipeline_output(input, capacity, marker, terminator, max_fragment) matches Ok(out) ==> out
            == lines_of(all_values(input, marker, terminator)),
        input.len() <= max_fragment ==> pipeline_output(
            input,
            capacity,
            marker,
            terminator,
            max_fragment,
        ) is Ok,
{
    let blocks = blocks_of(input, capacity);
    lemma_blocks_of_joined(input, capacity);
    assert(Seq::<u8>::empty() + input =~= input);
    lemma_stream_reports_all_values(Seq::empty(), blocks, marker, terminator, max_fragment);
    if input.len() <= max_fragment {
        lemma_stream_succeeds_within_limit(Seq::empty(), blocks, marker, terminator, max_fragment);
    }
}

/// The capacity of the reads does not show in the output: read in one block
/// or in many small ones, an input gives the same bytes, wherever the stream
/// gives up on neither reading.
pub proof fn lemma_capacity_does_not_matter(
    input: Seq<u8>,
    first: int,
    second: int,
    marker: Seq<u8>,
    terminator: u8,
    max_fragment: int,
)
    requires
        marker.len() > 0,
        first > 0,
        second > 0,
        pipeline_output(input, first, marker, terminator, max_fragment) is Ok,
        pipeline_output(input, second, marker, terminator, max_fragment) is Ok,
    ensures
        pipeline_output(input, first, marker, terminator, max_fragment) == pipeline_output(
            input,
            second,
            marker,
            terminator,
            max_fragment,
        ),
{
    lemma_pipeline_output(input, first, marker, terminator, max_fragment);
    lemma_pipeline_output(input, second, marker, terminator, max_fragment);
}

/// Two runs over the same input, with the same scanner and the same
/// capacity, give the same: the same bytes, or the same error.
pub proof fn lemma_same_input_same_output(
    first: Result<Vec<u8>, ScanError>,
    second: Result<Vec<u8>, ScanError>,
    input: Seq<u8>,
    capacity: int,
    marker: Seq<u8>,
    terminator: u8,
    max_fragment: int,
)
    requires
        output_view(first) == pipeline_output(input, capacity, marker, terminator, max_fragment),
        output_view(second) == pipeline_output(input, capacity, marker, terminator, max_fragment),
    ensures
        output_view(first) == output_view(second),
{
}

/// An input may be split anywhere, within a marker or within a value: read
/// as the bytes before `split` and then the bytes from `split` on, it gives
/// the values of the whole input, each of them complete, wherever the stream
/// does not give up; and it does not give up where the input is no longer
/// than what it may carry.
pub proof fn lemma_split_anywhere(
    input: Seq<u8>,
    split: int,
    marker: Seq<u8>,
    terminator: u8,
    max_fragment: int,
)
    requires
        marker.len() > 0,
        0 <= split <= input.len(),
    ensures
        stream_values(
            Seq::empty(),
            seq![input.take(split), input.skip(split)],
            marker,
            terminator,
            max_fragment,
        ) matches Some(values) ==> values == all_values(input, marker, terminator),
        input.len() <= max_fragment ==> stream_values(
            Seq::empty(),
            seq![input.take(split), input.skip(split)],
            marker,
            terminator,
            max_fragment,
        ) is Some,
{
    let blocks = seq![input.take(split), input.skip(split)];
    assert(joined(blocks) =~= input) by {
        assert(blocks.skip(1) =~= seq![input.skip(split)]);
        assert(blocks.skip(1).skip(1) =~= Seq::<Seq<u8>>::empty());
        assert(joined(blocks.skip(1).skip(1)) =~= Seq::<u8>::empty());
        assert(joined(blocks.skip(1)) =~= input.skip(split));
        assert(input.take(split) + input.skip(split) =~= input);
    }
    assert(Seq::<u8>::empty() + joined(blocks) =~= input);
    lemma_stream_reports_all_values(Seq::empty(), blocks, marker, terminator, max_fragment);
    if input.len() <= max_fragment {
        lemma_stream_succeeds_within_limit(
            Seq::empty(),
            blocks,
            marker,
            terminator,
            max_fragment,
        );
    }
}

/// The values of a text are the values at its occurrences, one for one: the
/// `i`-th value is the one that follows the `i`-th occurrence of the marker.
pub proof fn lemma_values_follow_occurrences(
    text: Seq<u8>,
    marker: Seq<u8>,
    terminator: u8,
    from: int,
)
    requires
        marker.len() > 0,
        0 <= from,
    ensures
        values_from(text, marker, terminator, from).len() == occurrences_from(
            text,
            marker,
            from,
        ).len(),
        forall|i: int|
            0 <= i < occurrences_from(text, marker, from).len() ==> #[trigger] values_from(
                text,
                marker,
                terminator,
                from,
            )[i] == value_at(
                text,
                terminator,
                occurrences_from(text, marker, from)[i] + marker.len(),
            ),
    decreases text.len() - from,
{
    if from + marker.len() <= text.len() {
        if matches_at(text, marker, from) {
            let next = from + marker.len();
            lemma_values_follow_occurrences(text, marker, terminator, next);
            let occ = occurrences_from(text, marker, from);
            let vals = values_from(text, marker, terminator, from);
            assert forall|i: int| 0 <= i < occ.len() implies #[trigger] vals[i] == value_at(
                text,
                terminator,
                occ[i] + marker.len(),
            ) by {
                if i > 0 {
                    assert(vals[i] == values_from(text, marker, terminator, next)[i - 1]);
                    assert(occ[i] == occurrences_from(text, marker, next)[i - 1]);
                }
            }
        } else {
            lemma_values_follow_occurrences(text, marker, terminator, from + 1);
        }
    }
}

/// Every occurrence is reported once and none is skipped: whenever the
/// stream does not give up, it reports as many values as the input has
/// occurrences of the marker that do not overlap an earlier one, the `i`-th
/// value is the one that follows the `i`-th of them, and every place where
/// the marker stands in the input is covered by one of them.
pub proof fn lemma_each_occurrence_reported_once(
    blocks: Seq<Seq<u8>>,
    marker: Seq<u8>,
    terminator: u8,
    max_fragment: int,
)
    requires
        marker.len() > 0,
    ensures
        stream_values(Seq::empty(), blocks, marker, terminator, max_fragment) matches Some(values)
            ==> {
            let input = joined(blocks);
            let occ = occurrences(input, marker);
            &&& values.len() == occ.len()
            &&& forall|i: int|
                0 <= i < occ.len() ==> #[trigger] values[i] == value_at(
                    input,
                    terminator,
                    occ[i] + marker.len(),
                )
            &&& forall|i: int| 0 <= i < occ.len() ==> matches_at(input, marker, #[trigger] occ[i])
            &&& forall|i: int, j: int|
                0 <= i < j < occ.len() ==> #[trigger] occ[i] + marker.len() <= #[trigger] occ[j]
            &&& forall|p: int|
                #[trigger] matches_at(input, marker, p) ==> exists|i: int|
                    0 <= i < occ.len() && #[trigger] occ[i] <= p < occ[i] + marker.len()
        },
{
    let input = joined(blocks);
    lemma_stream_reports_all_values(Seq::empty(), blocks, marker, terminator, max_fragment);
    assert(Seq::<u8>::empty() + input =~= input);
    lemma_values_follow_occurrences(input, marker, terminator, 0);
    lemma_occurrences_cover(input, marker);
}

/// The occurrences counted in a text are occurrences, they do not overlap,
/// and every place where the pattern stands is covered by one of them.
pub proof fn lemma_occurrences_cover(text: Seq<u8>, pattern: Seq<u8>)
    requires
        pattern.len() > 0,
    ensures
        forall|i: int|
            0 <= i < occurrences(text, pattern).len() ==> matches_at(
                text,
                pattern,
                #[trigger] occurrences(text, pattern)[i],
            ),
        forall|i: int, j: int|
            0 <= i < j < occurrences(text, pattern).len() ==> #[trigger] occurrences(
                text,
                pattern,
            )[i] + pattern.len() <= #[trigger] occurrences(text, pattern)[j],
        forall|p: int|
            #[trigger] matches_at(text, pattern, p) ==> exists|i: int|
                0 <= i < occurrences(text, pattern).len() && #[trigger] occurrences(
                    text,
                    pattern,
                )[i] <= p < occurrences(text, pattern)[i] + pattern.len(),
{
    let occ = occurrences(text, pattern);
    lemma_occurrences_are_leftmost(text, pattern, 0);
    lemma_leftmost_search_covers(text, pattern, occ);
}

} // verus!
