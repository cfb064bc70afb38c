//! The extractor: takes the input block by block, keeps what has to be seen
//! again, and hands out the values as they are settled.

use crate::scan::all_values;
use crate::scan::carry_of;
use crate::scan::complete_values;
use crate::scanner::byte_views;
use crate::scanner::ScanError;
use crate::scanner::Scanner;
use crate::sink::lemma_lines_of_concat;
use crate::sink::lines_of;
use crate::sink::write_values;
use crate::stream::blocks_of;
use crate::stream::lemma_pipeline_output;
use crate::stream::output_view;
use crate::stream::pipeline_output;
use crate::stream::stream_values;
use vstd::prelude::*;
use vstd::slice::slice_subrange;

verus! {

/// The state of one run over a stream: the scanner, and the bytes carried
/// from the blocks seen so far.
pub struct Extractor<'a> {
    scanner: &'a Scanner,
    carry: Vec<u8>,
}

impl<'a> Extractor<'a> {
    #[verifier::type_invariant]
    spec fn within_limit(&self) -> bool {
        self.carry@.len() <= self.scanner.max_fragment()
    }

    /// The scanner that the extractor works with.
    pub closed spec fn scanner(&self) -> Scanner {
        *self.scanner
    }

    /// The bytes carried from the blocks seen so far.
    pub closed spec fn carry(&self) -> Seq<u8> {
        self.carry@
    }

    /// The bytes carried from the blocks seen so far. They are never more
    /// than the scanner may carry.
    pub fn carried(&self) -> (bytes: &Vec<u8>)
        ensures
            bytes@ == self.carry(),
            bytes@.len() <= self.scanner().max_fragment(),
    {
        proof {
            use_type_invariant(self);
        }
        &self.carry
    }

    /// Starts a run: nothing is carried yet.
    pub fn new(scanner: &'a Scanner) -> (extractor: Extractor<'a>)
        ensures
            extractor.scanner() == *scanner,
            extractor.carry() == Seq::<u8>::empty(),
    {
        Extractor { scanner, carry: Vec::new() }
    }

    /// Takes the next block of the input. The window is what was carried
    /// followed by the block; the values that it settles are handed out, and
    /// its bytes from the safe cut on are carried. Where those are more than
    /// the scanner may carry, the extractor gives up with `MalformedValue`
    /// and carries what it carried before.
    pub fn feed(&mut self, block: &[u8]) -> (result: Result<Vec<Vec<u8>>, ScanError>)
        ensures
            final(self).scanner() == old(self).scanner(),
            final(self).carry().len() <= final(self).scanner().max_fragment(),
            ({
                let window = old(self).carry() + block@;
                let scanner = old(self).scanner();
                let carried = carry_of(window, scanner.marker(), scanner.terminator());
                &&& result is Ok <==> carried.len() <= scanner.max_fragment()
                &&& result matches Ok(values) ==> byte_views(values@) == complete_values(
                    window,
                    scanner.marker(),
                    scanner.terminator(),
                ) && final(self).carry() == carried
                &&& result matches Err(e) ==> e == ScanError::MalformedValue && final(self).carry()
                    == old(self).carry()
            }),
    {
        proof {
            use_type_invariant(&*self);
        }
        let mut window: Vec<u8> = Vec::new();
        core::mem::swap(&mut window, &mut self.carry);
        let kept = window.len();
        let ghost before = window@;
        window.extend_from_slice(block);
        assert(window@ =~= before + block@);
        match self.scanner.scan(&window) {
            Ok(scan) => {
                self.carry = scan.carry;
                Ok(scan.values)
            },
            Err(e) => {
                window.truncate(kept);
                assert(window@ =~= before);
                self.carry = window;
                Err(e)
            },
        }
    }

    /// Ends the run: nothing follows what is carried, so all the values in it
    /// are handed out, one that no terminator closes as far as it goes.
    pub fn finish(self) -> (values: Vec<Vec<u8>>)
        ensures
            byte_views(values@) == all_values(
                self.carry(),
                self.scanner().marker(),
                self.scanner().terminator(),
            ),
    {
        self.scanner.scan_to_end(&self.carry)
    }
}

/// Runs the whole pipeline over an input held in memory: reads it in blocks
/// of up to `block_capacity` bytes, feeds them to an extractor, and writes
/// each value as a line. Gives the output, or `MalformedValue` where the
/// extractor gave up. The output does not depend on the capacity.
pub fn extract_lines(scanner: &Scanner, input: &[u8], block_capacity: usize) -> (result: Result<
    Vec<u8>,
    ScanError,
>)
    ensures
        output_view(result) == pipeline_output(
            input@,
            block_capacity as int,
            scanner.marker(),
            scanner.terminator(),
            scanner.max_fragment() as int,
        ),
        block_capacity > 0 ==> (result matches Ok(out) ==> out@ == lines_of(
            all_values(input@, scanner.marker(), scanner.terminator()),
        )),
        input@.len() <= scanner.max_fragment() ==> result is Ok,
{
    // A scanner has a marker that is not empty; its length says so.
    let _marker_len = scanner.marker_len();
    let n = input.len();
    let ghost mk = scanner.marker();
    let ghost t = scanner.terminator();
    let ghost max = scanner.max_fragment() as int;
    let ghost cap = block_capacity as int;
    let ghost total = stream_values(Seq::empty(), blocks_of(input@, cap), mk, t, max);
    proof {
        if block_capacity > 0 {
            lemma_pipeline_output(input@, cap, mk, t, max);
        }
    }
    let mut extractor = Extractor::new(scanner);
    let mut out: Vec<u8> = Vec::new();
    let mut pos: usize = 0;
    let ghost mut emitted: Seq<Seq<u8>> = Seq::empty();
    if block_capacity > 0 {
        assert(input@.skip(0) =~= input@);
        while pos < n
            invariant
                n == input@.len(),
                cap == block_capacity,
                cap > 0,
                mk == scanner.marker(),
                t == scanner.terminator(),
                max == scanner.max_fragment(),
                extractor.scanner() == *scanner,
                total == stream_values(Seq::empty(), blocks_of(input@, cap), mk, t, max),
                input@.len() <= max ==> total is Some,
                pos <= n,
                out@ == lines_of(emitted),
                total == match stream_values(
                    extractor.carry(),
                    blocks_of(input@.skip(pos as int), cap),
                    mk,
                    t,
                    max,
                ) {
                    Some(rest) => Some(emitted + rest),
                    None => None,
                },
            decreases n - pos,
        {
            let end: usize = if n - pos <= block_capacity {
                n
            } else {
                pos + block_capacity
            };
            let block = slice_subrange(input, pos, end);
            let ghost rest_input = input@.skip(pos as int);
            let ghost blocks = blocks_of(rest_input, cap);
            proof {
                assert(block@ =~= rest_input.take(end - pos));
                assert(blocks[0] == block@);
                assert(rest_input.skip(end - pos) =~= input@.skip(end as int));
                assert(blocks.skip(1) =~= blocks_of(input@.skip(end as int), cap));
            }
            match extractor.feed(block) {
                Ok(values) => {
                    write_values(&mut out, &values);
                    proof {
                        let settled = byte_views(values@);
                        lemma_lines_of_concat(emitted, settled);
                        match stream_values(
                            extractor.carry(),
                            blocks_of(input@.skip(end as int), cap),
                            mk,
                            t,
                            max,
                        ) {
                            Some(rest) => {
                                assert(emitted + (settled + rest) =~= (emitted + settled) + rest);
                            },
                            None => {},
                        }
                        emitted = emitted + settled;
                    }
                },
                Err(e) => {
                    return Err(e);
                },
            }
            pos = end;
        }
        assert(input@.skip(n as int) =~= Seq::<u8>::empty());
    }
    let last = extractor.finish();
    write_values(&mut out, &last);
    proof {
        lemma_lines_of_concat(emitted, byte_views(last@));
    }
    Ok(out)
}

} // verus!
