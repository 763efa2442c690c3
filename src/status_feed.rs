//! The feed of a status command as a whole: the bytes not used yet are kept
//! here and read again in front of the next ones.

use vstd::prelude::*;
use vstd::slice::slice_to_vec;
use crate::block::Block;
use crate::i3bar_protocol::{last_index, last_line_of, opt_blocks_view, protocol_step, taken, utf8_lossy_of, Protocol, ProtocolError, ProtocolView};

verus! {

/// A feed parser with its own buffer of unused bytes.
pub struct StatusFeed {
    protocol: Protocol,
    buf: Vec<u8>,
}

impl View for StatusFeed {
    type V = (ProtocolView, Seq<u8>);

    closed spec fn view(&self) -> (ProtocolView, Seq<u8>) {
        (self.protocol@, self.buf@)
    }
}

/// What receiving `bytes` does to a feed `v`: the kept bytes and the new
/// ones are read together, and what is not used is kept.
pub open spec fn feed_step(v: (ProtocolView, Seq<u8>), bytes: Seq<u8>) -> Result<(ProtocolView, Seq<u8>), ProtocolError> {
    let all = v.1 + bytes;
    match protocol_step(v.0, all) {
        (st, Ok(k)) => Ok((st, all.skip(k as int))),
        (_, Err(e)) => Err(e),
    }
}

/// The state a feed is left in when receiving `bytes` fails.
pub open spec fn failed_state(v: (ProtocolView, Seq<u8>), bytes: Seq<u8>) -> ProtocolView {
    protocol_step(v.0, v.1 + bytes).0
}

impl StatusFeed {
    pub fn new() -> (r: StatusFeed)
        ensures
            r@ == (ProtocolView::Unknown, Seq::<u8>::empty()),
    {
        StatusFeed { protocol: Protocol::Unknown, buf: Vec::new() }
    }

    /// Receives new bytes of the feed. After an error the feed is dead and
    /// the caller is expected to drop it; its state is the one reached
    /// before the read that failed.
    pub fn push_bytes(&mut self, bytes: &[u8]) -> (r: Result<(), ProtocolError>)
        ensures
            match (r, feed_step(old(self)@, bytes@)) {
                (Ok(()), Ok(v)) => final(self)@ == v,
                (Err(e), Err(f)) => e == f && final(self)@.0 == failed_state(old(self)@, bytes@),
                _ => false,
            },
    {
        let mut fresh = slice_to_vec(bytes);
        self.buf.append(&mut fresh);
        match self.protocol.process_new_bytes(self.buf.as_slice()) {
            Ok(rem) => {
                let kept = slice_to_vec(rem);
                self.buf = kept;
                Ok(())
            },
            Err(e) => Err(e),
        }
    }

    /// The block list received since the last call, if any.
    pub fn take_blocks(&mut self) -> (r: Option<Vec<Block>>)
        ensures
            opt_blocks_view(r) == taken(old(self)@.0).0,
            final(self)@ == (taken(old(self)@.0).1, old(self)@.1),
    {
        self.protocol.get_blocks()
    }

    /// Receives new bytes and takes what they completed, as one step.
    pub fn receive(&mut self, bytes: &[u8]) -> (r: Result<Option<Vec<Block>>, ProtocolError>)
        ensures
            match (r, feed_step(old(self)@, bytes@)) {
                (Ok(b), Ok(v)) => opt_blocks_view(b) == taken(v.0).0 && final(self)@ == (taken(v.0).1, v.1),
                (Err(e), Err(f)) => e == f,
                _ => false,
            },
    {
        match self.push_bytes(bytes) {
            Ok(()) => Ok(self.take_blocks()),
            Err(e) => Err(e),
        }
    }

    pub fn supports_clicks(&self) -> (r: bool)
        ensures
            r == match self@.0 {
                ProtocolView::JsonNotStarted { header } => header.click_events,
                ProtocolView::Json { header, .. } => header.click_events,
                _ => false,
            },
    {
        self.protocol.supports_clicks()
    }
}

proof fn lemma_last_index_facts(x: Seq<u8>, c: u8)
    ensures
        last_index(x, c) matches Some(i) ==> 0 <= i < x.len() && x[i] == c && forall|j: int| i < j < x.len() ==> #[trigger] x[j] != c,
        last_index(x, c) is None ==> forall|j: int| 0 <= j < x.len() ==> #[trigger] x[j] != c,
    decreases x.len(),
{
    if x.len() > 0 && x.last() != c {
        let y = x.drop_last();
        lemma_last_index_facts(y, c);
        assert forall|j: int| 0 <= j < y.len() implies y[j] == x[j] by {}
    }
}

proof fn lemma_last_index_concat(x: Seq<u8>, y: Seq<u8>, c: u8)
    ensures
        last_index(x + y, c) == match last_index(y, c) {
            Some(i) => Some(x.len() + i),
            None => last_index(x, c),
        },
    decreases y.len(),
{
    if y.len() == 0 {
        assert(x + y =~= x);
    } else {
        assert((x + y).last() == y.last());
        if y.last() != c {
            assert((x + y).drop_last() =~= x + y.drop_last());
            lemma_last_index_concat(x, y.drop_last(), c);
        }
    }
}

/// Once a feed reads plain text, the way its bytes are cut into chunks does
/// not matter: receiving `a` and then `b` leaves it where receiving `a + b`
/// at once does.
pub proof fn lemma_plain_text_chunks(pending: Option<Seq<char>>, buf: Seq<u8>, a: Seq<u8>, b: Seq<u8>)
    ensures
        ({
            let start = (ProtocolView::PlainText { pending_line: pending }, buf);
            &&& feed_step(start, a) is Ok
            &&& feed_step(feed_step(start, a)->Ok_0, b) == feed_step(start, a + b)
        }),
{
    let nl = 0x0au8;
    let s = buf + a;
    let u = s + b;
    assert(buf + (a + b) =~= u);
    lemma_last_index_facts(s, nl);
    lemma_last_index_facts(b, nl);
    lemma_last_index_concat(s, b, nl);
    match last_index(s, nl) {
        None => {
            assert(s.skip(0) =~= s);
        },
        Some(l) => {
            let rem1 = s.skip(l + 1);
            let pre_s = last_index(s.take(l), nl);
            lemma_last_index_facts(s.take(l), nl);
            let line1 = match pre_s {
                Some(p) => s.subrange(p + 1, l),
                None => s.take(l),
            };
            assert(last_line_of(s) == Some((line1, rem1)));
            assert(s.skip((s.len() - rem1.len()) as int) =~= rem1);
            let t = rem1 + b;
            lemma_last_index_facts(rem1, nl);
            assert(last_index(rem1, nl) is None) by {
                assert forall|j: int| 0 <= j < rem1.len() implies #[trigger] rem1[j] != nl by {
                    assert(rem1[j] == s[l + 1 + j]);
                }
                if last_index(rem1, nl) is Some {
                    let i = last_index(rem1, nl)->0;
                    assert(rem1[i] == nl);
                }
            }
            lemma_last_index_concat(rem1, b, nl);
            match last_index(b, nl) {
                None => {
                    assert(last_line_of(t) is None);
                    assert(t.skip(0) =~= t);
                    assert(u.take(l) =~= s.take(l));
                    assert(u.skip(l + 1) =~= t);
                    if let Some(p) = pre_s {
                        assert(u.subrange(p + 1, l) =~= s.subrange(p + 1, l));
                    }
                    assert(last_line_of(u) == Some((line1, t)));
                    assert(u.skip((u.len() - t.len()) as int) =~= t);
                },
                Some(i) => {
                    let bt = b.take(i);
                    assert(u.take(s.len() + i) =~= s + bt);
                    assert(t.take(rem1.len() + i) =~= rem1 + bt);
                    lemma_last_index_facts(bt, nl);
                    lemma_last_index_concat(s, bt, nl);
                    lemma_last_index_concat(rem1, bt, nl);
                    let rem = b.skip(i + 1);
                    assert(u.skip(s.len() + i + 1) =~= rem);
                    assert(t.skip(rem1.len() + i + 1) =~= rem);
                    match last_index(bt, nl) {
                        Some(p) => {
                            assert(u.subrange(s.len() + p + 1, s.len() + i) =~= b.subrange(p + 1, i));
                            assert(t.subrange(rem1.len() + p + 1, rem1.len() + i) =~= b.subrange(p + 1, i));
                        },
                        None => {
                            assert(u.subrange(l + 1, s.len() + i) =~= rem1 + bt);
                        },
                    }
                    assert(last_line_of(u) == last_line_of(t));
                    assert(u.skip((u.len() - rem.len()) as int) =~= rem);
                    assert(t.skip((t.len() - rem.len()) as int) =~= rem);
                },
            }
        },
    }
}

} // verus!
