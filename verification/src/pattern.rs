//! Exact matching of a marker in a text, and the search that finds every
//! occurrence of it.

use boyer_moore_magiclen::BMByte;
use vstd::prelude::*;

verus! {

/// Whether `pattern` stands in `text` at index `at`.
pub open spec fn matches_at(text: Seq<u8>, pattern: Seq<u8>, at: int) -> bool {
    &&& 0 <= at
    &&& at + pattern.len() <= text.len()
    &&& text.subrange(at, at + pattern.len()) =~= pattern
}

/// The starts of the occurrences of `pattern` that a reader of `text` meets
/// from index `from` on, going left to right and resuming after each
/// occurrence it has met: an occurrence that overlaps an earlier one is not
/// counted. An empty pattern occurs nowhere.
pub open spec fn occurrences_from(text: Seq<u8>, pattern: Seq<u8>, from: int) -> Seq<int>
    decreases text.len() - from,
{
    if pattern.len() == 0 || from < 0 || from + pattern.len() > text.len() {
        Seq::empty()
    } else if matches_at(text, pattern, from) {
        seq![from] + occurrences_from(text, pattern, from + pattern.len())
    } else {
        occurrences_from(text, pattern, from + 1)
    }
}

/// The starts of the occurrences of `pattern` in `text`, left to right,
/// without those that overlap an earlier one.
pub open spec fn occurrences(text: Seq<u8>, pattern: Seq<u8>) -> Seq<int> {
    occurrences_from(text, pattern, 0)
}

/// Where a search that started at `from` goes on before it reports `found[k]`:
/// at `from` for the first report, else right after the occurrence reported
/// before. For `k == found.len()` it is where the search goes on after its
/// last report.
pub open spec fn resume_point(pattern: Seq<u8>, from: int, found: Seq<int>, k: int) -> int {
    if k <= 0 {
        from
    } else {
        found[k - 1] + pattern.len()
    }
}

/// Whether `found` is what a left-to-right search for `pattern` reports in
/// `text` from index `from` on: every index reported is an occurrence, each
/// lies at or after the point where the search resumed and is the first
/// occurrence from there, and no occurrence follows the last report.
#[verifier::opaque]
pub open spec fn is_leftmost_search_from(
    text: Seq<u8>,
    pattern: Seq<u8>,
    from: int,
    found: Seq<int>,
) -> bool {
    &&& forall|k: int| 0 <= k < found.len() ==> matches_at(text, pattern, #[trigger] found[k])
    &&& forall|k: int|
        0 <= k < found.len() ==> resume_point(pattern, from, found, k) <= #[trigger] found[k]
    &&& forall|k: int, p: int|
        #![trigger found[k], matches_at(text, pattern, p)]
        0 <= k < found.len() && resume_point(pattern, from, found, k) <= p < found[k]
            ==> !matches_at(text, pattern, p)
    &&& forall|p: int|
        resume_point(pattern, from, found, found.len() as int) <= p ==> !#[trigger] matches_at(
            text,
            pattern,
            p,
        )
}

/// Whether `found` is what a left-to-right search for `pattern` reports in the
/// whole of `text`.
pub open spec fn is_leftmost_search(text: Seq<u8>, pattern: Seq<u8>, found: Seq<int>) -> bool {
    is_leftmost_search_from(text, pattern, 0, found)
}

/// The indices of `found` as integers.
pub open spec fn as_positions(found: Seq<usize>) -> Seq<int> {
    Seq::new(found.len(), |k: int| found[k] as int)
}

/// The occurrences counted from `from` on are what a left-to-right search
/// from `from` reports: none of them is spurious, none overlaps another, and
/// every occurrence left out overlaps one that is counted or lies before
/// `from`.
pub proof fn lemma_occurrences_are_leftmost(text: Seq<u8>, pattern: Seq<u8>, from: int)
    requires
        pattern.len() > 0,
        0 <= from,
    ensures
        is_leftmost_search_from(text, pattern, from, occurrences_from(text, pattern, from)),
    decreases text.len() - from,
{
    reveal(is_leftmost_search_from);
    let occ = occurrences_from(text, pattern, from);
    if from + pattern.len() > text.len() {
    } else if matches_at(text, pattern, from) {
        let next = from + pattern.len();
        let rest = occurrences_from(text, pattern, next);
        lemma_occurrences_are_leftmost(text, pattern, next);
        assert(occ[0] == from);
        assert forall|k: int| 1 <= k < occ.len() implies #[trigger] occ[k] == rest[k - 1]
            && resume_point(pattern, from, occ, k) == resume_point(pattern, next, rest, k - 1) by {}
        assert(resume_point(pattern, from, occ, occ.len() as int) == resume_point(
            pattern,
            next,
            rest,
            rest.len() as int,
        ));
        assert forall|k: int| 0 <= k < occ.len() implies matches_at(
            text,
            pattern,
            #[trigger] occ[k],
        ) by {
            if k > 0 {
                assert(occ[k] == rest[k - 1]);
            }
        }
        assert forall|k: int| 0 <= k < occ.len() implies resume_point(pattern, from, occ, k)
            <= #[trigger] occ[k] by {
            if k > 0 {
                assert(occ[k] == rest[k - 1]);
            }
        }
        assert forall|k: int, p: int|
            #![trigger occ[k], matches_at(text, pattern, p)]
            0 <= k < occ.len() && resume_point(pattern, from, occ, k) <= p < occ[k]
                implies !matches_at(text, pattern, p) by {
            if k > 0 {
                assert(occ[k] == rest[k - 1]);
            }
        }
    } else {
        let rest = occurrences_from(text, pattern, from + 1);
        lemma_occurrences_are_leftmost(text, pattern, from + 1);
        assert(occ == rest);
        assert forall|k: int| 0 <= k < occ.len() implies resume_point(pattern, from, occ, k)
            <= #[trigger] occ[k] by {
            assert(resume_point(pattern, from + 1, rest, k) <= rest[k]);
        }
        assert forall|k: int, p: int|
            #![trigger occ[k], matches_at(text, pattern, p)]
            0 <= k < occ.len() && resume_point(pattern, from, occ, k) <= p < occ[k]
                implies !matches_at(text, pattern, p) by {
            if p != from {
                assert(resume_point(pattern, from + 1, rest, k) <= p);
            }
        }
        assert forall|p: int|
            resume_point(pattern, from, occ, occ.len() as int) <= p implies !#[trigger] matches_at(
            text,
            pattern,
            p,
        ) by {
            if p != from {
                assert(resume_point(pattern, from + 1, rest, rest.len() as int) <= p);
            }
        }
    }
}

/// What a search says of one of its reports: `found[k]` is an occurrence, it
/// lies at or after the point where the search resumed, and the pattern does
/// not occur between that point and the report.
pub proof fn lemma_search_report(text: Seq<u8>, pattern: Seq<u8>, found: Seq<int>, k: int)
    requires
        is_leftmost_search(text, pattern, found),
        0 <= k < found.len(),
    ensures
        matches_at(text, pattern, found[k]),
        resume_point(pattern, 0, found, k) <= found[k],
        forall|q: int|
            resume_point(pattern, 0, found, k) <= q < found[k] ==> !#[trigger] matches_at(
                text,
                pattern,
                q,
            ),
{
    reveal(is_leftmost_search_from);
    assert(matches_at(text, pattern, found[k]));
}

/// What a search says by ending: the pattern does not occur after the last
/// report.
pub proof fn lemma_search_end(text: Seq<u8>, pattern: Seq<u8>, found: Seq<int>)
    requires
        is_leftmost_search(text, pattern, found),
    ensures
        forall|q: int|
            resume_point(pattern, 0, found, found.len() as int) <= q ==> !#[trigger] matches_at(
                text,
                pattern,
                q,
            ),
{
    reveal(is_leftmost_search_from);
}

/// A left-to-right search reports the occurrences and nothing else: where
/// `found` is the report of a search from the start of `text`, its reports
/// from the `k`-th on are the occurrences counted from any index `from`
/// between the point where the search resumed and that report.
pub proof fn lemma_leftmost_search_is_occurrences(
    text: Seq<u8>,
    pattern: Seq<u8>,
    found: Seq<int>,
    k: int,
    from: int,
)
    requires
        pattern.len() > 0,
        is_leftmost_search(text, pattern, found),
        0 <= k <= found.len(),
        0 <= from,
        resume_point(pattern, 0, found, k) <= from,
        k < found.len() ==> from <= found[k],
    ensures
        occurrences_from(text, pattern, from) == found.skip(k),
    decreases text.len() - from,
{
    if k < found.len() {
        lemma_search_report(text, pattern, found, k);
    } else {
        lemma_search_end(text, pattern, found);
    }
    if from + pattern.len() > text.len() {
        assert(k == found.len());
        assert(found.skip(k) =~= Seq::<int>::empty());
    } else if matches_at(text, pattern, from) {
        assert(k < found.len());
        assert(from == found[k]);
        if k + 1 < found.len() {
            lemma_search_report(text, pattern, found, k + 1);
        }
        lemma_leftmost_search_is_occurrences(text, pattern, found, k + 1, from + pattern.len());
        assert(seq![from] + found.skip(k + 1) =~= found.skip(k));
    } else {
        lemma_leftmost_search_is_occurrences(text, pattern, found, k, from + 1);
    }
}

/// The reports of a search do not overlap: a later report lies at or after
/// the end of an earlier one.
pub proof fn lemma_leftmost_search_ordered(
    text: Seq<u8>,
    pattern: Seq<u8>,
    found: Seq<int>,
    i: int,
    j: int,
)
    requires
        is_leftmost_search(text, pattern, found),
        0 <= i < j < found.len(),
    ensures
        found[i] + pattern.len() <= found[j],
    decreases j - i,
{
    lemma_search_report(text, pattern, found, j);
    if i + 1 < j {
        lemma_leftmost_search_ordered(text, pattern, found, i, j - 1);
    }
}

/// A place `at` where the pattern stands, at or after the point where the
/// search resumed before its `k`-th report, is covered by one of the reports
/// from the `k`-th on; the lemma gives its number.
pub proof fn lemma_leftmost_search_covers_at(
    text: Seq<u8>,
    pattern: Seq<u8>,
    found: Seq<int>,
    at: int,
    k: int,
) -> (i: int)
    requires
        is_leftmost_search(text, pattern, found),
        matches_at(text, pattern, at),
        0 <= k <= found.len(),
        resume_point(pattern, 0, found, k) <= at,
    ensures
        k <= i < found.len(),
        found[i] <= at < found[i] + pattern.len(),
    decreases found.len() - k,
{
    if k == found.len() {
        lemma_search_end(text, pattern, found);
        assert(false);
        k
    } else {
        lemma_search_report(text, pattern, found, k);
        if at < found[k] + pattern.len() {
            k
        } else {
            lemma_leftmost_search_covers_at(text, pattern, found, at, k + 1)
        }
    }
}

/// The reports of a search are occurrences, they do not overlap, and every
/// place where the pattern stands is covered by one of them.
pub proof fn lemma_leftmost_search_covers(text: Seq<u8>, pattern: Seq<u8>, found: Seq<int>)
    requires
        is_leftmost_search(text, pattern, found),
    ensures
        forall|i: int| 0 <= i < found.len() ==> matches_at(text, pattern, #[trigger] found[i]),
        forall|i: int, j: int|
            0 <= i < j < found.len() ==> #[trigger] found[i] + pattern.len() <= #[trigger] found[j],
        forall|at: int|
            #[trigger] matches_at(text, pattern, at) ==> exists|i: int|
                0 <= i < found.len() && #[trigger] found[i] <= at < found[i] + pattern.len(),
{
    assert forall|i: int| 0 <= i < found.len() implies matches_at(
        text,
        pattern,
        #[trigger] found[i],
    ) by {
        lemma_search_report(text, pattern, found, i);
    }
    assert forall|i: int, j: int| 0 <= i < j < found.len() implies #[trigger] found[i]
        + pattern.len() <= #[trigger] found[j] by {
        lemma_leftmost_search_ordered(text, pattern, found, i, j);
    }
    assert forall|at: int| #[trigger] matches_at(text, pattern, at) implies exists|i: int|
        0 <= i < found.len() && #[trigger] found[i] <= at < found[i] + pattern.len() by {
        let i = lemma_leftmost_search_covers_at(text, pattern, found, at, 0);
        assert(0 <= i < found.len() && found[i] <= at < found[i] + pattern.len());
    }
}

/// The searcher of the outside crate, built once for a pattern. Nothing of it
/// is visible but the pattern it was built for.
#[verifier::external_type_specification]
#[verifier::external_body]
pub struct ExBMByte(boyer_moore_magiclen::BMByte);

/// The pattern that a searcher was built for.
pub uninterp spec fn searcher_pattern(searcher: BMByte) -> Seq<u8>;

/// Builds a searcher with `BMByte::from`. The call gives `None` for an empty
/// pattern and for no other; the searcher it gives else keeps a copy of the
/// pattern. Neither is proved here.
#[verifier::external_body]
pub(crate) fn new_searcher(pattern: &Vec<u8>) -> (searcher: Option<BMByte>)
    ensures
        searcher is None <==> pattern@.len() == 0,
        searcher matches Some(s) ==> searcher_pattern(s) == pattern@,
{
    BMByte::from(pattern)
}

/// Searches `text` with `BMByte::find_in`, without a limit on the number of
/// reports. The call gives the starts of the occurrences of the searcher's
/// pattern from left to right, leaving out those that overlap one already
/// reported; this is taken from the crate and not proved here.
#[verifier::external_body]
pub(crate) fn find_all(searcher: &BMByte, text: &Vec<u8>) -> (found: Vec<usize>)
    ensures
        is_leftmost_search(text@, searcher_pattern(*searcher), as_positions(found@)),
{
    searcher.find_in(text, 0)
}

} // verus!
