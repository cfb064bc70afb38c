//! The scanner: finds the values of one window with a searcher built once
//! for the marker, and says which bytes of the window to carry on.

use crate::pattern::as_positions;
use crate::pattern::find_all;
use crate::pattern::is_leftmost_search;
use crate::pattern::lemma_search_end;
use crate::pattern::lemma_search_report;
use crate::pattern::new_searcher;
use crate::pattern::resume_point;
use crate::pattern::searcher_pattern;
use crate::scan::all_values;
use crate::scan::begins_marker;
use crate::scan::carry_of;
use crate::scan::complete_values;
use crate::scan::complete_values_from;
use crate::scan::lemma_settle_occurrence;
use crate::scan::lemma_settle_tail;
use crate::scan::lemma_values_skip;
use crate::scan::safe_cut;
use crate::scan::safe_cut_from;
use crate::scan::values_from;
use crate::value::copy_range;
use crate::value::find_value_end;
use crate::value::value_at;
use boyer_moore_magiclen::BMByte;
use vstd::prelude::*;
use vstd::slice::slice_to_vec;

verus! {

/// Why a scan gives up.
#[derive(Debug, Clone, Copy, PartialEq, Eq, Structural)]
pub enum ScanError {
    /// The bytes that would have to be carried on are more than the scanner
    /// was allowed to keep: a value, or a record, does not end.
    MalformedValue,
}

/// What the scan of one window gives.
#[derive(Debug)]
pub struct Scan {
    /// The values that the window settles, in the order of the input.
    pub values: Vec<Vec<u8>>,
    /// The bytes from the safe cut on, to be put before the next block.
    pub carry: Vec<u8>,
}

/// The byte sequences that a list of values holds.
pub open spec fn byte_views(values: Seq<Vec<u8>>) -> Seq<Seq<u8>> {
    Seq::new(values.len(), |i: int| values[i]@)
}

/// Adding a value to a list adds its bytes to the list's byte sequences, and
/// what is known of the values still to come moves on by one.
proof fn lemma_value_added(
    values: Seq<Vec<u8>>,
    value: Vec<u8>,
    rest: Seq<Seq<u8>>,
    all: Seq<Seq<u8>>,
)
    requires
        byte_views(values) + (seq![value@] + rest) == all,
    ensures
        byte_views(values.push(value)) + rest == all,
{
    assert(byte_views(values.push(value)) =~= byte_views(values) + seq![value@]);
    assert((byte_views(values) + seq![value@]) + rest =~= byte_views(values) + (seq![value@]
        + rest));
}

/// A list of values to which nothing more is added holds all of them.
proof fn lemma_values_done(values: Seq<Vec<u8>>, all: Seq<Seq<u8>>)
    requires
        byte_views(values) + Seq::<Seq<u8>>::empty() == all,
    ensures
        byte_views(values) == all,
{
    assert(byte_views(values) + Seq::<Seq<u8>>::empty() =~= byte_views(values));
}

/// A scanner for one marker and one terminator.
pub struct Scanner {
    marker: Vec<u8>,
    terminator: u8,
    max_fragment: usize,
    searcher: BMByte,
}

impl Scanner {
    #[verifier::type_invariant]
    spec fn well_formed(&self) -> bool {
        &&& self.marker@.len() > 0
        &&& searcher_pattern(self.searcher) == self.marker@
    }

    /// The marker that the scanner looks for. It is never empty.
    pub closed spec fn marker(&self) -> Seq<u8> {
        self.marker@
    }

    /// The byte that ends a value.
    pub closed spec fn terminator(&self) -> u8 {
        self.terminator
    }

    /// The largest number of bytes that the scanner carries on.
    pub closed spec fn max_fragment(&self) -> usize {
        self.max_fragment
    }

    /// Makes a scanner for `marker` and `terminator` that carries on at most
    /// `max_fragment` bytes. There is none for an empty marker.
    pub fn new(marker: &[u8], terminator: u8, max_fragment: usize) -> (scanner: Option<Scanner>)
        ensures
            scanner is None <==> marker@.len() == 0,
            scanner matches Some(s) ==> s.marker() == marker@ && s.terminator() == terminator
                && s.max_fragment() == max_fragment,
    {
        let marker = slice_to_vec(marker);
        match new_searcher(&marker) {
            Some(searcher) => Some(Scanner { marker, terminator, max_fragment, searcher }),
            None => None,
        }
    }

    /// The length of the marker, which is not zero.
    pub fn marker_len(&self) -> (len: usize)
        ensures
            len == self.marker().len(),
            len > 0,
    {
        proof {
            use_type_invariant(self);
        }
        self.marker.len()
    }

    /// Whether the bytes of `window` from `at` on are a beginning of the
    /// marker.
    fn tail_begins_marker(&self, window: &Vec<u8>, at: usize) -> (begins: bool)
        requires
            at <= window.len() < at + self.marker().len(),
        ensures
            begins == begins_marker(window@, self.marker(), at as int),
    {
        let n = window.len();
        let mut i: usize = at;
        while i < n
            invariant
                at <= i <= n,
                n == window.len(),
                n < at + self.marker@.len(),
                forall|j: int| at <= j < i ==> window@[j] == self.marker@[j - at],
            decreases n - i,
        {
            if window[i] != self.marker[i - at] {
                proof {
                    let tail = window@.skip(at as int);
                    let head = self.marker@.take(n - at);
                    assert(tail[i - at] != head[i - at]);
                }
                return false;
            }
            i = i + 1;
        }
        true
    }

    /// The first index from `from` on from which the rest of `window` is a
    /// beginning of the marker.
    fn find_marker_beginning(&self, window: &Vec<u8>, from: usize) -> (at: usize)
        requires
            from <= window.len(),
        ensures
            from <= at <= window.len(),
            begins_marker(window@, self.marker(), at as int),
            forall|q: int| from <= q < at ==> !#[trigger] begins_marker(window@, self.marker(), q),
    {
        proof {
            use_type_invariant(self);
        }
        let n = window.len();
        let m = self.marker.len();
        let mut at: usize = if n - from < m {
            from
        } else {
            n - m + 1
        };
        while at < n
            invariant
                m == self.marker().len(),
                n == window.len(),
                from <= at <= n,
                n < at + m,
                forall|q: int|
                    from <= q < at ==> !#[trigger] begins_marker(window@, self.marker(), q),
            decreases n - at,
        {
            if self.tail_begins_marker(window, at) {
                return at;
            }
            at = at + 1;
        }
        assert(window@.skip(n as int) =~= self.marker().take(0));
        n
    }

    /// The values that `window` settles, and its safe cut.
    fn settle(&self, window: &Vec<u8>) -> (settled: (Vec<Vec<u8>>, usize))
        ensures
            byte_views(settled.0@) == complete_values(window@, self.marker(), self.terminator()),
            settled.1 == safe_cut(window@, self.marker(), self.terminator()),
            settled.1 <= window.len(),
    {
        proof {
            use_type_invariant(self);
        }
        let found = find_all(&self.searcher, window);
        let m = self.marker.len();
        let n = window.len();
        let ghost w = window@;
        let ghost mk = self.marker@;
        let ghost t = self.terminator;
        let ghost pos = as_positions(found@);
        let ghost all = complete_values(w, mk, t);
        let mut values: Vec<Vec<u8>> = Vec::new();
        let mut k: usize = 0;
        let mut resume: usize = 0;
        assert(byte_views(values@) + complete_values_from(w, mk, t, 0) =~= all);
        while k < found.len()
            invariant
                w == window@,
                mk == self.marker@,
                t == self.terminator,
                pos == as_positions(found@),
                m == mk.len(),
                m > 0,
                n == w.len(),
                all == complete_values(w, mk, t),
                is_leftmost_search(w, mk, pos),
                k <= found.len(),
                resume == resume_point(mk, 0, pos, k as int),
                resume <= n,
                safe_cut_from(w, mk, t, resume as int) == safe_cut(w, mk, t),
                byte_views(values@) + complete_values_from(w, mk, t, resume as int) == all,
            decreases found.len() - k,
        {
            let at = found[k];
            proof {
                assert(pos[k as int] == at);
                lemma_search_report(w, mk, pos, k as int);
                lemma_settle_occurrence(w, mk, t, resume as int, at as int);
            }
            let start = at + m;
            let end = find_value_end(window.as_slice(), self.terminator, start);
            if end == n {
                proof {
                    lemma_values_done(values@, all);
                }
                return (values, at);
            }
            let value = copy_range(window.as_slice(), start, end);
            proof {
                lemma_value_added(
                    values@,
                    value,
                    complete_values_from(w, mk, t, start as int),
                    all,
                );
            }
            values.push(value);
            resume = start;
            k = k + 1;
        }
        proof {
            lemma_search_end(w, mk, pos);
        }
        let at = self.find_marker_beginning(window, resume);
        proof {
            lemma_settle_tail(w, mk, t, resume as int, at as int);
            lemma_values_done(values@, all);
        }
        (values, at)
    }

    /// Scans one window that more input may follow. Gives the values that
    /// the window settles, and the bytes from its safe cut on, which the
    /// caller puts before the next block. Where those bytes are more than
    /// the scanner may carry, it gives up with `MalformedValue`.
    pub fn scan(&self, window: &Vec<u8>) -> (result: Result<Scan, ScanError>)
        ensures
            result is Ok <==> carry_of(window@, self.marker(), self.terminator()).len()
                <= self.max_fragment(),
            result matches Ok(scan) ==> byte_views(scan.values@) == complete_values(
                window@,
                self.marker(),
                self.terminator(),
            ) && scan.carry@ == carry_of(window@, self.marker(), self.terminator()),
            result matches Err(e) ==> e == ScanError::MalformedValue,
    {
        let (values, cut) = self.settle(window);
        if window.len() - cut > self.max_fragment {
            return Err(ScanError::MalformedValue);
        }
        let carry = copy_range(window.as_slice(), cut, window.len());
        Ok(Scan { values, carry })
    }

    /// Scans the last window of a stream, which nothing follows. Gives the
    /// values of all occurrences in it; one that no terminator closes runs to
    /// the end of the window.
    pub fn scan_to_end(&self, window: &Vec<u8>) -> (values: Vec<Vec<u8>>)
        ensures
            byte_views(values@) == all_values(window@, self.marker(), self.terminator()),
    {
        proof {
            use_type_invariant(self);
        }
        let found = find_all(&self.searcher, window);
        let m = self.marker.len();
        let n = window.len();
        let ghost w = window@;
        let ghost mk = self.marker@;
        let ghost t = self.terminator;
        let ghost pos = as_positions(found@);
        let ghost all = all_values(w, mk, t);
        let mut values: Vec<Vec<u8>> = Vec::new();
        let mut k: usize = 0;
        let mut resume: usize = 0;
        assert(byte_views(values@) + values_from(w, mk, t, 0) =~= all);
        while k < found.len()
            invariant
                w == window@,
                mk == self.marker@,
                t == self.terminator,
                pos == as_positions(found@),
                m == mk.len(),
                m > 0,
                n == w.len(),
                all == all_values(w, mk, t),
                is_leftmost_search(w, mk, pos),
                k <= found.len(),
                resume == resume_point(mk, 0, pos, k as int),
                resume <= n,
                byte_views(values@) + values_from(w, mk, t, resume as int) == all,
            decreases found.len() - k,
        {
            let at = found[k];
            proof {
                assert(pos[k as int] == at);
                lemma_search_report(w, mk, pos, k as int);
                lemma_values_skip(w, mk, t, resume as int, at as int);
            }
            let start = at + m;
            let end = find_value_end(window.as_slice(), self.terminator, start);
            let value = copy_range(window.as_slice(), start, end);
            proof {
                assert(value@ == value_at(w, t, start as int));
                lemma_value_added(values@, value, values_from(w, mk, t, start as int), all);
            }
            values.push(value);
            resume = start;
            k = k + 1;
        }
        proof {
            lemma_search_end(w, mk, pos);
            lemma_values_skip(w, mk, t, resume as int, n as int);
            lemma_values_done(values@, all);
        }
        values
    }
}

} // verus!
