//! Copying the lines that were picked out of the data.

use vstd::prelude::*;

verus! {

/// Every span lies within `data`.
pub open spec fn within(data: Seq<u8>, spans: Seq<(usize, usize)>) -> bool {
    forall|i: int| 0 <= i < spans.len() ==> (#[trigger] spans[i]).0 <= spans[i].1 <= data.len()
}

/// The bytes of the spans, one span after the other.
pub open spec fn rendered(data: Seq<u8>, spans: Seq<(usize, usize)>) -> Seq<u8>
    decreases spans.len(),
{
    if spans.len() == 0 {
        Seq::empty()
    } else {
        rendered(data, spans.drop_last()) + data.subrange(
            spans.last().0 as int,
            spans.last().1 as int,
        )
    }
}

/// Appends to `writer` the bytes of each line, in the order of `lines`.
pub fn write_lines(chunk: &[u8], lines: &[(usize, usize)], writer: &mut Vec<u8>)
    requires
        within(chunk@, lines@),
    ensures
        final(writer)@ == old(writer)@ + rendered(chunk@, lines@),
{
    let mut done: usize = 0;
    while done < lines.len()
        invariant
            done <= lines@.len(),
            within(chunk@, lines@),
            writer@ == old(writer)@ + rendered(chunk@, lines@.take(done as int)),
        decreases lines@.len() - done,
    {
        let (begin, end) = lines[done];
        let ghost front = writer@;
        writer.extend_from_slice(&chunk[begin..end]);
        proof {
            let taken = lines@.take(done + 1);
            assert(taken.drop_last() == lines@.take(done as int));
            assert(taken.last() == lines@[done as int]);
            assert(writer@ == front + chunk@.subrange(begin as int, end as int));
        }
        done += 1;
    }
    assert(lines@.take(done as int) == lines@);
}

} // verus!
