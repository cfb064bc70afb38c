//! Record boundaries: the bytes that close a line or a record.
//!
//! What follows the last such byte of a buffer is a line that is not
//! complete yet. A caller that works record by record cuts there. The
//! scanner does not: a value may hold such a byte, so it cuts where a marker
//! or a value is still pending.

use vstd::prelude::*;

verus! {

/// The line feed byte, which ends a line.
pub const NEWLINE: u8 = 0x0a;

/// The closing brace byte, which ends a record.
pub const CLOSING_BRACE: u8 = 0x7d;

/// Whether `b` closes a line or a record.
pub open spec fn is_boundary_byte(b: u8) -> bool {
    b == NEWLINE || b == CLOSING_BRACE
}

/// Whether no byte of `s` from index `from` on closes a line or a record.
pub open spec fn no_boundary_from(s: Seq<u8>, from: int) -> bool {
    forall|j: int| from <= j < s.len() ==> !is_boundary_byte(#[trigger] s[j])
}

/// Whether `index` is where the last, incomplete line of `s` starts: one past
/// the last byte that closes a line or a record, or `None` where `s` holds no
/// such byte.
pub open spec fn is_last_incomplete_line(s: Seq<u8>, index: Option<usize>) -> bool {
    match index {
        Some(k) => 0 < k <= s.len() && is_boundary_byte(s[k - 1]) && no_boundary_from(s, k as int),
        None => no_boundary_from(s, 0),
    }
}

/// At most one index is the start of the last incomplete line.
pub proof fn lemma_last_incomplete_line_unique(s: Seq<u8>, a: Option<usize>, b: Option<usize>)
    requires
        is_last_incomplete_line(s, a),
        is_last_incomplete_line(s, b),
    ensures
        a == b,
{
    if let Some(k) = a {
        assert(is_boundary_byte(s[k - 1]));
    }
    if let Some(k) = b {
        assert(is_boundary_byte(s[k - 1]));
    }
}

/// Finds where the last incomplete line of `buffer` starts: one past the last
/// line feed or closing brace, or `None` where the buffer holds neither.
pub fn find_index_of_last_incomplete_line(buffer: &Vec<u8>) -> (index: Option<usize>)
    ensures
        is_last_incomplete_line(buffer@, index),
{
    let mut k: usize = buffer.len();
    while k > 0
        invariant
            k <= buffer.len(),
            no_boundary_from(buffer@, k as int),
        decreases k,
    {
        let b: u8 = buffer[k - 1];
        if b == NEWLINE || b == CLOSING_BRACE {
            return Some(k);
        }
        k = k - 1;
    }
    None
}

} // verus!
