//! The sink: every value becomes one line of the output.

use crate::boundary::NEWLINE;
use crate::scanner::byte_views;
use vstd::prelude::*;

verus! {

/// The output for a list of values: each value followed by one line feed, in
/// the order of the list. Nothing is added, left out or changed.
pub open spec fn lines_of(values: Seq<Seq<u8>>) -> Seq<u8>
    decreases values.len(),
{
    if values.len() == 0 {
        Seq::empty()
    } else {
        lines_of(values.drop_last()) + values.last() + seq![NEWLINE]
    }
}

/// The lines of two lists of values, one after the other, are the lines of
/// the first followed by the lines of the second.
pub proof fn lemma_lines_of_concat(first: Seq<Seq<u8>>, second: Seq<Seq<u8>>)
    ensures
        lines_of(first + second) == lines_of(first) + lines_of(second),
    decreases second.len(),
{
    if second.len() == 0 {
        assert(first + second =~= first);
        assert(lines_of(first) + lines_of(second) =~= lines_of(first));
    } else {
        let whole = first + second;
        assert(whole.drop_last() =~= first + second.drop_last());
        assert(whole.last() == second.last());
        lemma_lines_of_concat(first, second.drop_last());
        assert(lines_of(first) + lines_of(second.drop_last()) + second.last() + seq![NEWLINE]
            =~= lines_of(first) + (lines_of(second.drop_last()) + second.last() + seq![NEWLINE]));
    }
}

/// Appends `value` and a line feed to `out`.
pub fn write_value(out: &mut Vec<u8>, value: &[u8])
    ensures
        final(out)@ == old(out)@ + value@ + seq![NEWLINE],
{
    let ghost before = out@;
    out.extend_from_slice(value);
    assert(out@ =~= before + value@);
    out.push(NEWLINE);
    assert(out@ =~= before + value@ + seq![NEWLINE]);
}

/// Appends each of `values` to `out` as a line, in their order.
pub fn write_values(out: &mut Vec<u8>, values: &Vec<Vec<u8>>)
    ensures
        final(out)@ == old(out)@ + lines_of(byte_views(values@)),
{
    let ghost before = out@;
    let ghost all = byte_views(values@);
    let mut i: usize = 0;
    assert(before + lines_of(all.take(0)) =~= before);
    while i < values.len()
        invariant
            i <= values.len(),
            all == byte_views(values@),
            out@ == before + lines_of(all.take(i as int)),
        decreases values.len() - i,
    {
        write_value(out, values[i].as_slice());
        proof {
            let next = all.take(i + 1);
            assert(next.drop_last() =~= all.take(i as int));
            assert(next.last() == values@[i as int]@);
            assert(before + lines_of(all.take(i as int)) + values@[i as int]@ + seq![NEWLINE]
                =~= before + (lines_of(all.take(i as int)) + values@[i as int]@ + seq![NEWLINE]));
        }
        i = i + 1;
    }
    assert(all.take(values.len() as int) =~= all);
}

} // verus!
