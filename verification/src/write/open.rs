//! Reading back what a file already holds, to write more into it.

use vstd::prelude::*;

use crate::utf16::{decode_le, utf16_text};

verus! {

/// The NUL-terminated strings of `d` whose search is at byte `i`, the
/// current string having started at `start`: a terminator is a zero unit at
/// an even offset, and nothing after the last one counts.
pub open spec fn terminated_strings(d: Seq<u8>, i: int, start: int) -> Seq<Seq<char>>
    decreases d.len() - i,
{
    if i < 0 || start < 0 || start > i || i + 1 >= d.len() {
        Seq::empty()
    } else if d[i] == 0 && d[i + 1] == 0 {
        seq![utf16_text(d.subrange(start, i))] + terminated_strings(d, i + 2, i + 2)
    } else {
        terminated_strings(d, i + 2, start)
    }
}

/// The NUL-terminated UTF-16 strings in `data`, and nothing after the last
/// terminator.
pub fn utf16_array(data: &[u8]) -> (r: Vec<String>)
    ensures
        r@.len() == terminated_strings(data@, 0, 0).len(),
        forall|k: int| 0 <= k < r@.len() ==> (#[trigger] r@[k])@ == terminated_strings(data@, 0, 0)[k],
{
    let mut out: Vec<String> = Vec::new();
    let mut start: usize = 0;
    let mut i: usize = 0;
    let n = data.len();
    let ghost texts = Seq::<Seq<char>>::empty();
    while n - i >= 2
        invariant
            n == data@.len(),
            start <= i,
            i <= n,
            out@.len() == texts.len(),
            forall|k: int| 0 <= k < out@.len() ==> (#[trigger] out@[k])@ == texts[k],
            terminated_strings(data@, 0, 0) == texts + terminated_strings(data@, i as int, start as int),
        decreases n - i,
    {
        if data[i] == 0 && data[i + 1] == 0 {
            let piece = vstd::slice::slice_subrange(data, start, i);
            let s = decode_le(piece);
            proof {
                let old_texts = texts;
                texts = texts.push(s@);
                assert(old_texts + terminated_strings(data@, i as int, start as int)
                    =~= texts + terminated_strings(data@, i + 2, i + 2));
            }
            out.push(s);
            start = i + 2;
        }
        i = i + 2;
    }
    proof {
        assert(terminated_strings(data@, i as int, start as int) =~= Seq::<Seq<char>>::empty());
        assert(texts + Seq::<Seq<char>>::empty() =~= texts);
    }
    out
}

} // verus!
