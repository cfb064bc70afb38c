//! The scan of one window: which values are complete in it, and from where on
//! its bytes have to be seen again together with what follows.

use crate::pattern::matches_at;
use crate::value::is_terminated;
use crate::value::lemma_value_keeps_when_extended;
use crate::value::lemma_value_shift;
use crate::value::value_at;
use vstd::prelude::*;

verus! {

/// The values of all occurrences of `marker` that a reader of `text` meets
/// from index `from` on, in the order of the occurrences. A value that no
/// terminator closes runs to the end of `text`.
pub open spec fn values_from(text: Seq<u8>, marker: Seq<u8>, terminator: u8, from: int) -> Seq<
    Seq<u8>,
>
    decreases text.len() - from,
{
    if marker.len() == 0 || from < 0 || from + marker.len() > text.len() {
        Seq::empty()
    } else if matches_at(text, marker, from) {
        seq![value_at(text, terminator, from + marker.len())] + values_from(
            text,
            marker,
            terminator,
            from + marker.len(),
        )
    } else {
        values_from(text, marker, terminator, from + 1)
    }
}

/// The values that a whole text holds: one for each occurrence of `marker`,
/// left to right.
pub open spec fn all_values(text: Seq<u8>, marker: Seq<u8>, terminator: u8) -> Seq<Seq<u8>> {
    values_from(text, marker, terminator, 0)
}

/// Whether the bytes of `window` from `at` on are a beginning of the marker
/// that is shorter than the marker: more bytes may make an occurrence of it.
/// The empty beginning at the very end of the window counts.
pub open spec fn begins_marker(window: Seq<u8>, marker: Seq<u8>, at: int) -> bool {
    &&& 0 <= at <= window.len() < at + marker.len()
    &&& window.skip(at) =~= marker.take(window.len() - at)
}

/// Whether something starts at index `at` of `window` that bytes after the
/// window may still change: an occurrence of the marker whose value no
/// terminator closes yet, or a beginning of the marker that runs into the end
/// of the window (the empty one at the very end counts).
pub open spec fn is_pending(window: Seq<u8>, marker: Seq<u8>, terminator: u8, at: int) -> bool {
    ||| matches_at(window, marker, at) && !is_terminated(window, terminator, at + marker.len())
    ||| begins_marker(window, marker, at)
}

/// The index from which the bytes of `window` are carried on, as a reader
/// who stands at `from` finds it: the first index the reader comes to at
/// which something is pending. What lies before it is settled whatever
/// follows the window.
pub open spec fn safe_cut_from(window: Seq<u8>, marker: Seq<u8>, terminator: u8, from: int) -> int
    decreases window.len() - from,
{
    if marker.len() == 0 || from < 0 || from >= window.len() {
        window.len() as int
    } else if is_pending(window, marker, terminator, from) {
        from
    } else if matches_at(window, marker, from) {
        safe_cut_from(window, marker, terminator, from + marker.len())
    } else {
        safe_cut_from(window, marker, terminator, from + 1)
    }
}

/// The values of the occurrences that a reader who stands at `from` meets
/// before the safe cut: each of them is closed by a terminator within
/// `window`.
pub open spec fn complete_values_from(
    window: Seq<u8>,
    marker: Seq<u8>,
    terminator: u8,
    from: int,
) -> Seq<Seq<u8>>
    decreases window.len() - from,
{
    if marker.len() == 0 || from < 0 || from >= window.len() || is_pending(
        window,
        marker,
        terminator,
        from,
    ) {
        Seq::empty()
    } else if matches_at(window, marker, from) {
        seq![value_at(window, terminator, from + marker.len())] + complete_values_from(
            window,
            marker,
            terminator,
            from + marker.len(),
        )
    } else {
        complete_values_from(window, marker, terminator, from + 1)
    }
}

/// The safe cut of a window: the index from which its bytes are carried into
/// the next window.
pub open spec fn safe_cut(window: Seq<u8>, marker: Seq<u8>, terminator: u8) -> int {
    safe_cut_from(window, marker, terminator, 0)
}

/// The values that a window settles: those of the occurrences before its safe
/// cut.
pub open spec fn complete_values(window: Seq<u8>, marker: Seq<u8>, terminator: u8) -> Seq<
    Seq<u8>,
> {
    complete_values_from(window, marker, terminator, 0)
}

/// The bytes of a window that are carried into the next one.
pub open spec fn carry_of(window: Seq<u8>, marker: Seq<u8>, terminator: u8) -> Seq<u8> {
    window.skip(safe_cut(window, marker, terminator))
}

/// The safe cut lies between the reader's place and the end of the window.
pub proof fn lemma_safe_cut_bounds(window: Seq<u8>, marker: Seq<u8>, terminator: u8, from: int)
    requires
        marker.len() > 0,
        0 <= from <= window.len(),
    ensures
        from <= safe_cut_from(window, marker, terminator, from) <= window.len(),
    decreases window.len() - from,
{
    if from < window.len() && !is_pending(window, marker, terminator, from) {
        if matches_at(window, marker, from) {
            lemma_safe_cut_bounds(window, marker, terminator, from + marker.len());
        } else {
            lemma_safe_cut_bounds(window, marker, terminator, from + 1);
        }
    }
}

/// Something is pending at the safe cut: what is carried on starts with an
/// occurrence of the marker whose value no terminator closes, or it is a
/// beginning of the marker that is shorter than the marker. So a window in
/// which every value is closed carries fewer bytes than the marker has.
pub proof fn lemma_cut_is_pending(window: Seq<u8>, marker: Seq<u8>, terminator: u8, from: int)
    requires
        marker.len() > 0,
        0 <= from <= window.len(),
    ensures
        is_pending(
            window,
            marker,
            terminator,
            safe_cut_from(window, marker, terminator, from),
        ),
    decreases window.len() - from,
{
    if from < window.len() && !is_pending(window, marker, terminator, from) {
        if matches_at(window, marker, from) {
            lemma_cut_is_pending(window, marker, terminator, from + marker.len());
        } else {
            lemma_cut_is_pending(window, marker, terminator, from + 1);
        }
    } else if from == window.len() {
        assert(window.skip(from) =~= marker.take(0));
    }
}

/// A stretch of the window in which the marker does not occur and nothing is
/// pending changes neither the safe cut nor the complete values.
pub proof fn lemma_scan_skips(
    window: Seq<u8>,
    marker: Seq<u8>,
    terminator: u8,
    from: int,
    to: int,
)
    requires
        marker.len() > 0,
        0 <= from <= to <= window.len(),
        forall|q: int|
            from <= q < to ==> !#[trigger] matches_at(window, marker, q) && !is_pending(
                window,
                marker,
                terminator,
                q,
            ),
    ensures
        safe_cut_from(window, marker, terminator, from) == safe_cut_from(
            window,
            marker,
            terminator,
            to,
        ),
        complete_values_from(window, marker, terminator, from) == complete_values_from(
            window,
            marker,
            terminator,
            to,
        ),
    decreases to - from,
{
    if from < to {
        assert(!matches_at(window, marker, from));
        lemma_scan_skips(window, marker, terminator, from + 1, to);
    }
}

/// How the scan passes an occurrence: where the marker occurs at `at` and
/// nowhere between `from` and `at`, a reader at `from` either settles the
/// value of that occurrence and goes on after the marker, or, where no
/// terminator closes the value, cuts at `at`.
pub proof fn lemma_settle_occurrence(
    window: Seq<u8>,
    marker: Seq<u8>,
    terminator: u8,
    from: int,
    at: int,
)
    requires
        marker.len() > 0,
        0 <= from <= at,
        matches_at(window, marker, at),
        forall|q: int| from <= q < at ==> !#[trigger] matches_at(window, marker, q),
    ensures
        is_terminated(window, terminator, at + marker.len()) ==> safe_cut_from(
            window,
            marker,
            terminator,
            from,
        ) == safe_cut_from(window, marker, terminator, at + marker.len()) && complete_values_from(
            window,
            marker,
            terminator,
            from,
        ) == seq![value_at(window, terminator, at + marker.len())] + complete_values_from(
            window,
            marker,
            terminator,
            at + marker.len(),
        ),
        !is_terminated(window, terminator, at + marker.len()) ==> safe_cut_from(
            window,
            marker,
            terminator,
            from,
        ) == at && complete_values_from(window, marker, terminator, from) == Seq::<
            Seq<u8>,
        >::empty(),
{
    assert forall|q: int| from <= q < at implies !#[trigger] matches_at(window, marker, q)
        && !is_pending(window, marker, terminator, q) by {}
    lemma_scan_skips(window, marker, terminator, from, at);
}

/// How the scan ends: where the marker does not occur from `from` on, a
/// reader at `from` settles nothing more and cuts at the first index from
/// which the rest of the window is a beginning of the marker.
pub proof fn lemma_settle_tail(
    window: Seq<u8>,
    marker: Seq<u8>,
    terminator: u8,
    from: int,
    at: int,
)
    requires
        marker.len() > 0,
        0 <= from <= at <= window.len(),
        forall|q: int| from <= q ==> !#[trigger] matches_at(window, marker, q),
        forall|q: int| from <= q < at ==> !#[trigger] begins_marker(window, marker, q),
        begins_marker(window, marker, at),
    ensures
        safe_cut_from(window, marker, terminator, from) == at,
        complete_values_from(window, marker, terminator, from) == Seq::<Seq<u8>>::empty(),
{
    assert forall|q: int| from <= q < at implies !#[trigger] matches_at(window, marker, q)
        && !is_pending(window, marker, terminator, q) by {
        assert(!begins_marker(window, marker, q));
    }
    lemma_scan_skips(window, marker, terminator, from, at);
}

/// A stretch of the text in which the marker does not occur adds no value.
pub proof fn lemma_values_skip(text: Seq<u8>, marker: Seq<u8>, terminator: u8, from: int, to: int)
    requires
        marker.len() > 0,
        0 <= from <= to,
        forall|q: int| from <= q < to ==> !#[trigger] matches_at(text, marker, q),
    ensures
        values_from(text, marker, terminator, from) == values_from(text, marker, terminator, to),
    decreases to - from,
{
    if from < to {
        assert(!matches_at(text, marker, from));
        lemma_values_skip(text, marker, terminator, from + 1, to);
    }
}

/// The values of a text do not depend on what stands before the reader:
/// dropping the first `shift` bytes leaves the values from `from` on.
pub proof fn lemma_values_shift(
    text: Seq<u8>,
    marker: Seq<u8>,
    terminator: u8,
    shift: int,
    from: int,
)
    requires
        marker.len() > 0,
        0 <= shift <= from <= text.len(),
    ensures
        values_from(text.skip(shift), marker, terminator, from - shift) == values_from(
            text,
            marker,
            terminator,
            from,
        ),
    decreases text.len() - from,
{
    let tail = text.skip(shift);
    if from + marker.len() <= text.len() {
        assert(tail.subrange(from - shift, from - shift + marker.len()) =~= text.subrange(
            from,
            from + marker.len(),
        ));
        if matches_at(text, marker, from) {
            lemma_value_shift(text, terminator, shift, from + marker.len());
            lemma_values_shift(text, marker, terminator, shift, from + marker.len());
        } else {
            lemma_values_shift(text, marker, terminator, shift, from + 1);
        }
    }
}

/// What a window settles stays settled: whatever bytes `more` follow the
/// window, the values of the whole from `from` on are the complete values of
/// the window from there, followed by the values of the whole from the safe
/// cut on.
pub proof fn lemma_scan_settles(
    window: Seq<u8>,
    more: Seq<u8>,
    marker: Seq<u8>,
    terminator: u8,
    from: int,
)
    requires
        marker.len() > 0,
        0 <= from <= window.len(),
    ensures
        values_from(window + more, marker, terminator, from) == complete_values_from(
            window,
            marker,
            terminator,
            from,
        ) + values_from(
            window + more,
            marker,
            terminator,
            safe_cut_from(window, marker, terminator, from),
        ),
    decreases window.len() - from,
{
    let whole = window + more;
    let m = marker.len() as int;
    if from < window.len() && !is_pending(window, marker, terminator, from) {
        if matches_at(window, marker, from) {
            assert(whole.subrange(from, from + m) =~= window.subrange(from, from + m));
            lemma_value_keeps_when_extended(window, more, terminator, from + m);
            lemma_scan_settles(window, more, marker, terminator, from + m);
            let rest = values_from(whole, marker, terminator, safe_cut_from(
                window,
                marker,
                terminator,
                from + m,
            ));
            let head = seq![value_at(window, terminator, from + m)];
            let settled = complete_values_from(window, marker, terminator, from + m);
            assert(head + (settled + rest) =~= (head + settled) + rest);
        } else {
            if matches_at(whole, marker, from) {
                if from + m <= window.len() {
                    assert(whole.subrange(from, from + m) =~= window.subrange(from, from + m));
                } else {
                    assert(window.skip(from) =~= whole.subrange(from, from + m).take(
                        window.len() - from,
                    ));
                }
            }
            lemma_scan_settles(window, more, marker, terminator, from + 1);
        }
    } else {
        assert(Seq::<Seq<u8>>::empty() + values_from(whole, marker, terminator, from)
            =~= values_from(whole, marker, terminator, from));
    }
}

/// The values of a window followed by more bytes are the values that the
/// window settles, followed by the values of what the window carries on
/// together with those bytes.
pub proof fn lemma_carry_preserves_values(
    window: Seq<u8>,
    more: Seq<u8>,
    marker: Seq<u8>,
    terminator: u8,
)
    requires
        marker.len() > 0,
    ensures
        all_values(window + more, marker, terminator) == complete_values(
            window,
            marker,
            terminator,
        ) + all_values(carry_of(window, marker, terminator) + more, marker, terminator),
{
    let cut = safe_cut(window, marker, terminator);
    lemma_safe_cut_bounds(window, marker, terminator, 0);
    lemma_scan_settles(window, more, marker, terminator, 0);
    lemma_values_shift(window + more, marker, terminator, cut, cut);
    assert((window + more).skip(cut) =~= window.skip(cut) + more);
}

} // verus!
