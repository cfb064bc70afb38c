//! The value that follows a marker: the bytes up to the next terminator.

use vstd::prelude::*;
use vstd::slice::slice_subrange;
use vstd::slice::slice_to_vec;

verus! {

/// The index of the first `terminator` in `text` at or after `from`, or the
/// length of `text` where there is none: the index at which a value that
/// starts at `from` ends.
pub open spec fn value_end(text: Seq<u8>, terminator: u8, from: int) -> int
    decreases text.len() - from,
{
    if from < 0 || from >= text.len() {
        text.len() as int
    } else if text[from] == terminator {
        from
    } else {
        value_end(text, terminator, from + 1)
    }
}

/// Whether a value that starts at `from` is closed by a terminator within
/// `text`.
pub open spec fn is_terminated(text: Seq<u8>, terminator: u8, from: int) -> bool {
    value_end(text, terminator, from) < text.len()
}

/// The value that starts at `from`: the bytes up to the first terminator, or
/// up to the end of `text` where no terminator follows.
pub open spec fn value_at(text: Seq<u8>, terminator: u8, from: int) -> Seq<u8> {
    text.subrange(from, value_end(text, terminator, from))
}

/// A value ends at or after its start, at the first terminator there is.
pub proof fn lemma_value_end(text: Seq<u8>, terminator: u8, from: int)
    requires
        0 <= from <= text.len(),
    ensures
        from <= value_end(text, terminator, from) <= text.len(),
        is_terminated(text, terminator, from) ==> text[value_end(text, terminator, from)]
            == terminator,
        forall|j: int| from <= j < value_end(text, terminator, from) ==> text[j] != terminator,
    decreases text.len() - from,
{
    if from < text.len() && text[from] != terminator {
        lemma_value_end(text, terminator, from + 1);
    }
}

/// A value that is closed within `text` stays as it is when more bytes follow
/// `text`.
pub proof fn lemma_value_keeps_when_extended(
    text: Seq<u8>,
    more: Seq<u8>,
    terminator: u8,
    from: int,
)
    requires
        0 <= from <= text.len(),
        is_terminated(text, terminator, from),
    ensures
        value_end(text + more, terminator, from) == value_end(text, terminator, from),
        value_at(text + more, terminator, from) == value_at(text, terminator, from),
    decreases text.len() - from,
{
    let whole = text + more;
    assert(whole[from] == text[from]);
    if text[from] != terminator {
        lemma_value_keeps_when_extended(text, more, terminator, from + 1);
    }
    lemma_value_end(text, terminator, from);
    assert(whole.subrange(from, value_end(text, terminator, from)) =~= text.subrange(
        from,
        value_end(text, terminator, from),
    ));
}

/// A value does not depend on what stands before it: dropping the first
/// `shift` bytes of `text` moves its end by `shift` and leaves its bytes.
pub proof fn lemma_value_shift(text: Seq<u8>, terminator: u8, shift: int, from: int)
    requires
        0 <= shift <= from <= text.len(),
    ensures
        value_end(text.skip(shift), terminator, from - shift) == value_end(text, terminator, from)
            - shift,
        value_at(text.skip(shift), terminator, from - shift) == value_at(text, terminator, from),
    decreases text.len() - from,
{
    let tail = text.skip(shift);
    if from < text.len() {
        assert(tail[from - shift] == text[from]);
        if text[from] != terminator {
            lemma_value_shift(text, terminator, shift, from + 1);
        }
    }
    lemma_value_end(text, terminator, from);
    assert(tail.subrange(from - shift, value_end(text, terminator, from) - shift)
        =~= text.subrange(from, value_end(text, terminator, from)));
}

/// Finds where the value that starts at `from` ends: the index of the first
/// terminator at or after `from`, or the length of `text`.
pub fn find_value_end(text: &[u8], terminator: u8, from: usize) -> (end: usize)
    requires
        from <= text.len(),
    ensures
        end == value_end(text@, terminator, from as int),
        from <= end <= text.len(),
{
    let mut end: usize = from;
    while end < text.len() && text[end] != terminator
        invariant
            from <= end <= text.len(),
            value_end(text@, terminator, from as int) == value_end(text@, terminator, end as int),
        decreases text.len() - end,
    {
        end = end + 1;
    }
    end
}

/// Copies the bytes of `text` from `start` up to `end` into a vector of
/// their own.
pub fn copy_range(text: &[u8], start: usize, end: usize) -> (bytes: Vec<u8>)
    requires
        start <= end <= text.len(),
    ensures
        bytes@ == text@.subrange(start as int, end as int),
{
    slice_to_vec(slice_subrange(text, start, end))
}

} // verus!
