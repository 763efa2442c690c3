//! Assembling newline-terminated lines from bytes that arrive in pieces.

use vstd::prelude::*;
use crate::i3bar_protocol::{utf8_lossy, utf8_lossy_of};

verus! {

/// Relies on `memchr::memchr`: the index of the first `needle` in `s`.
#[verifier::external_body]
fn find_first(needle: u8, s: &[u8]) -> (r: Option<usize>)
    ensures
        r matches Some(i) ==> i < s@.len() && s@[i as int] == needle && forall|j: int|
            0 <= j < i ==> #[trigger] s@[j] != needle,
        r is None ==> forall|j: int| 0 <= j < s@.len() ==> #[trigger] s@[j] != needle,
{
    memchr::memchr(needle, s)
}

/// The start of a line that is not finished yet.
pub struct LineAssembler {
    next_line: Vec<u8>,
}

impl View for LineAssembler {
    type V = Seq<u8>;

    closed spec fn view(&self) -> Seq<u8> {
        self.next_line@
    }
}

impl LineAssembler {
    pub fn new() -> (r: Self)
        ensures
            r@ == Seq::<u8>::empty(),
    {
        LineAssembler { next_line: Vec::new() }
    }

    /// Reads from the buffered bytes `pending` up to the first newline.
    /// Returns the completed line, without its newline and with invalid
    /// UTF-8 replaced, and the count of bytes used; without a newline every
    /// byte is used and kept for the next call.
    pub fn take_line(&mut self, pending: &[u8]) -> (r: (Option<String>, usize))
        ensures
            match r.0 {
                Some(line) => exists|i: int|
                    0 <= i < pending@.len() && pending@[i] == 0x0au8 && (forall|j: int| 0 <= j < i ==> #[trigger] pending@[j] != 0x0au8)
                        && line@ == utf8_lossy_of(old(self)@ + pending@.take(i)) && r.1 == i + 1 && final(self)@ == Seq::<u8>::empty(),
                None => (forall|j: int| 0 <= j < pending@.len() ==> #[trigger] pending@[j] != 0x0au8) && r.1 == pending@.len()
                    && final(self)@ == old(self)@ + pending@,
            },
    {
        let n = pending.len();
        match find_first(0x0au8, pending) {
            None => {
                let mut more = vstd::slice::slice_to_vec(pending);
                self.next_line.append(&mut more);
                (None, pending.len())
            },
            Some(i) => {
                let mut more = vstd::slice::slice_to_vec(&pending[0..i]);
                self.next_line.append(&mut more);
                let line = utf8_lossy(self.next_line.as_slice());
                self.next_line.clear();
                assert(i < n);
                (Some(line), i + 1)
            },
        }
    }
}

} // verus!
