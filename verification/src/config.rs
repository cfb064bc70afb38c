//! The configuration that the extractor is run with where nothing else is
//! asked for: the field is `title`, and a value ends at the next quote.

use crate::scanner::Scanner;
use vstd::prelude::*;

verus! {

/// The quote byte, which ends a value.
pub const QUOTE: u8 = 0x22;

/// The marker of the `title` field: the field's name in quotes, a colon, a
/// space, and the quote that opens the value.
pub const TITLE_MARKER: [u8; 10] = [0x22, 0x74, 0x69, 0x74, 0x6c, 0x65, 0x22, 0x3a, 0x20, 0x22];

/// The key of the `title` field in a JSON document.
pub const TITLE_KEY: &'static str = "title";

/// The number of bytes that one read takes at most: 100 MiB.
pub const BLOCK_CAPACITY: usize = 100 * 1024 * 1024;

/// The number of bytes that are carried from one block to the next at most:
/// as many as a block holds.
pub const MAX_FRAGMENT: usize = BLOCK_CAPACITY;

/// The scanner for the `title` field.
pub fn title_scanner() -> (scanner: Scanner)
    ensures
        scanner.marker() == TITLE_MARKER@,
        scanner.terminator() == QUOTE,
        scanner.max_fragment() == MAX_FRAGMENT,
{
    let marker = TITLE_MARKER;
    Scanner::new(marker.as_slice(), QUOTE, MAX_FRAGMENT).unwrap()
}

} // verus!
