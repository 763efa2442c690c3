//! The status feed: plain text lines, or a header followed by a JSON array
//! that never closes and whose elements are complete block lists.

use vstd::prelude::*;
use crate::block::{blocks_view, default_block, opt_view, Block, BlockView, JsonHeader};
use crate::pointer_btn::PointerBtn;
use crate::json::{de_first_json, de_last_json, first_json, is_ascii_ws, last_json, leading_len, trim_ascii_start};
use vstd::slice::slice_to_vec;

verus! {

/// Why a feed cannot be read any further.
#[derive(Debug, Clone, Copy, PartialEq, Eq, Structural)]
pub enum ProtocolError {
    /// The header names a protocol version other than 1.
    UnsupportedProtocolVersion { version: u8 },
    /// The feed breaks the framing or the JSON grammar.
    MalformedProtocol { reason: Malformed },
}

#[derive(Debug, Clone, Copy, PartialEq, Eq, Structural)]
pub enum Malformed {
    /// After the header, the byte `got` stands where `[` should.
    ExpectedBracket { got: u8 },
    /// A list of blocks is not valid JSON, or not a list of blocks.
    InvalidJson,
}

pub uninterp spec fn utf8_lossy_of(b: Seq<u8>) -> Seq<char>;

/// Relies on `String::from_utf8_lossy`: the text of `b`, with each invalid
/// sequence replaced by U+FFFD.
#[verifier::external_body]
pub(crate) fn utf8_lossy(b: &[u8]) -> (r: String)
    ensures
        r@ == utf8_lossy_of(b@),
{
    String::from_utf8_lossy(b).into_owned()
}

/// Relies on `memchr::memrchr`: the index of the last `needle` in `s`.
#[verifier::external_body]
fn find_last(needle: u8, s: &[u8]) -> (r: Option<usize>)
    ensures
        r matches Some(i) ==> i < s@.len() && s@[i as int] == needle && forall|j: int|
            i < j < s@.len() ==> #[trigger] s@[j] != needle,
        r is None ==> forall|j: int| 0 <= j < s@.len() ==> #[trigger] s@[j] != needle,
{
    memchr::memrchr(needle, s)
}

/// The index of the last `b` in `s`.
pub open spec fn last_index(s: Seq<u8>, b: u8) -> Option<int>
    decreases s.len(),
{
    if s.len() == 0 {
        None
    } else if s.last() == b {
        Some(s.len() - 1)
    } else {
        last_index(s.drop_last(), b)
    }
}

proof fn lemma_last_index(s: Seq<u8>, b: u8, r: Option<int>)
    requires
        r matches Some(i) ==> 0 <= i < s.len() && s[i] == b && forall|j: int| i < j < s.len() ==> #[trigger] s[j] != b,
        r is None ==> forall|j: int| 0 <= j < s.len() ==> #[trigger] s[j] != b,
    ensures
        last_index(s, b) == r,
    decreases s.len(),
{
    if s.len() > 0 && s.last() != b {
        let t = s.drop_last();
        assert(s[s.len() - 1] != b);
        if r is None {
            assert forall|j: int| 0 <= j < t.len() implies #[trigger] t[j] != b by {
                assert(t[j] == s[j]);
            }
        } else {
            assert forall|j: int| r->0 < j < t.len() implies #[trigger] t[j] != b by {
                assert(t[j] == s[j]);
            }
        }
        lemma_last_index(t, b, r);
    }
}

/// The last complete line of `s` (without its newline) and what follows
/// its newline; `None` when `s` holds no newline.
pub open spec fn last_line_of(s: Seq<u8>) -> Option<(Seq<u8>, Seq<u8>)> {
    match last_index(s, 0x0au8) {
        None => None,
        Some(l) => {
            let rem = s.skip(l + 1);
            match last_index(s.take(l), 0x0au8) {
                Some(p) => Some((s.subrange(p + 1, l), rem)),
                None => Some((s.take(l), rem)),
            }
        },
    }
}

/// Returns (`last_line`, `remaining`): the last line that a newline ends,
/// and the bytes after that newline.
pub fn last_line(s: &[u8]) -> (r: Option<(&[u8], &[u8])>)
    ensures
        match (r, last_line_of(s@)) {
            (Some((line, rem)), Some((l, m))) => line@ == l && rem@ == m,
            (None, None) => true,
            _ => false,
        },
        r matches Some((line, rem)) ==> rem@.len() <= s@.len(),
{
    let n = s.len();
    let last = find_last(0x0au8, s);
    proof {
        lemma_last_index(s@, 0x0au8, match last {
            Some(i) => Some(i as int),
            None => None,
        });
    }
    match last {
        None => None,
        Some(l) => {
            let rem = &s[l + 1..n];
            let head = &s[0..l];
            let pre = find_last(0x0au8, head);
            proof {
                lemma_last_index(head@, 0x0au8, match pre {
                    Some(i) => Some(i as int),
                    None => None,
                });
                assert(head@ =~= s@.take(l as int));
            }
            match pre {
                Some(p) => Some((&s[p + 1..l], rem)),
                None => Some((head, rem)),
            }
        },
    }
}

/// The state of a feed: nothing read yet, plain text, or the JSON form
/// before and after its opening bracket.
#[derive(Debug)]
pub enum Protocol {
    Unknown,
    PlainText { pending_line: Option<String> },
    JsonNotStarted { header: JsonHeader },
    Json { header: JsonHeader, pending_blocks: Option<Vec<Block>> },
}

pub enum ProtocolView {
    Unknown,
    PlainText { pending_line: Option<Seq<char>> },
    JsonNotStarted { header: JsonHeader },
    Json { header: JsonHeader, pending_blocks: Option<Seq<BlockView>> },
}

pub open spec fn opt_blocks_view(o: Option<Vec<Block>>) -> Option<Seq<BlockView>> {
    match o {
        Some(v) => Some(blocks_view(v)),
        None => None,
    }
}

impl View for Protocol {
    type V = ProtocolView;

    open spec fn view(&self) -> ProtocolView {
        match self {
            Protocol::Unknown => ProtocolView::Unknown,
            Protocol::PlainText { pending_line } => ProtocolView::PlainText {
                pending_line: match pending_line {
                    Some(l) => Some(l@),
                    None => None,
                },
            },
            Protocol::JsonNotStarted { header } => ProtocolView::JsonNotStarted { header: *header },
            Protocol::Json { header, pending_blocks } => ProtocolView::Json {
                header: *header,
                pending_blocks: opt_blocks_view(*pending_blocks),
            },
        }
    }
}

/// The outcome of reading `s`: the state reached, and how many bytes were
/// used or why reading stopped. On an error the state is the one reached
/// before the read that failed: once a header is read, it stays read.
pub type Step = (ProtocolView, Result<nat, ProtocolError>);

pub open spec fn shifted(r: Step, k: nat) -> Step {
    match r.1 {
        Ok(n) => (r.0, Ok(k + n)),
        Err(e) => (r.0, Err(e)),
    }
}

/// Inside the array: every complete block list read replaces the pending
/// one; an unfinished one is left unread.
pub open spec fn json_step(header: JsonHeader, pending: Option<Seq<BlockView>>, s: Seq<u8>) -> Step {
    match last_json::<Vec<Block>>(s, None, 0) {
        Err(_) => (
            ProtocolView::Json { header, pending_blocks: pending },
            Err(ProtocolError::MalformedProtocol { reason: Malformed::InvalidJson }),
        ),
        Ok((found, k)) => (
            ProtocolView::Json { header, pending_blocks: if found is Some { found } else { pending } },
            Ok(k),
        ),
    }
}

/// After the header: whitespace, then the opening `[` of the array.
pub open spec fn not_started_step(header: JsonHeader, s: Seq<u8>) -> Step {
    let k = leading_len(s, |b: u8| is_ascii_ws(b));
    if k >= s.len() {
        (ProtocolView::JsonNotStarted { header }, Ok(s.len()))
    } else if s[k as int] == 0x5bu8 {
        shifted(json_step(header, None, s.skip(k + 1 as int)), k + 1)
    } else {
        (
            ProtocolView::JsonNotStarted { header },
            Err(ProtocolError::MalformedProtocol { reason: Malformed::ExpectedBracket { got: s[k as int] } }),
        )
    }
}

/// Plain text: the last complete line becomes the pending one.
pub open spec fn plain_step(pending: Option<Seq<char>>, s: Seq<u8>) -> Step {
    match last_line_of(s) {
        Some((line, rem)) => (
            ProtocolView::PlainText { pending_line: Some(utf8_lossy_of(line)) },
            Ok((s.len() - rem.len()) as nat),
        ),
        None => (ProtocolView::PlainText { pending_line: pending }, Ok(0)),
    }
}

/// Nothing read yet: a header object of version 1 starts the JSON form,
/// any other version is refused, an unfinished value waits for more bytes,
/// and anything else is plain text.
pub open spec fn unknown_step(s: Seq<u8>) -> Step {
    match first_json::<JsonHeader>(s) {
        Ok((Some(h), k)) => if h.version == 1 {
            shifted(not_started_step(h, s.skip(k as int)), k)
        } else {
            (ProtocolView::Unknown, Err(ProtocolError::UnsupportedProtocolVersion { version: h.version }))
        },
        Ok((None, _)) => (ProtocolView::Unknown, Ok(0)),
        Err(_) => plain_step(None, s),
    }
}

/// What reading `s` does in state `st`.
pub open spec fn protocol_step(st: ProtocolView, s: Seq<u8>) -> Step {
    match st {
        ProtocolView::Unknown => unknown_step(s),
        ProtocolView::PlainText { pending_line } => plain_step(pending_line, s),
        ProtocolView::JsonNotStarted { header } => not_started_step(header, s),
        ProtocolView::Json { header, pending_blocks } => json_step(header, pending_blocks, s),
    }
}

/// Whether `next` and `r` (the count used, or an error) carry out `step`
/// on `s`.
pub open spec fn step_matches(s: Seq<u8>, next: ProtocolView, r: Result<usize, ProtocolError>, step: Step) -> bool {
    &&& next == step.0
    &&& match (r, step.1) {
        (Ok(k), Ok(k2)) => k == k2 && k <= s.len(),
        (Err(e), Err(f)) => e == f,
        _ => false,
    }
}

fn advance_json(header: JsonHeader, pending: Option<Vec<Block>>, s: &[u8]) -> (r: (Protocol, Result<usize, ProtocolError>))
    ensures
        step_matches(
            s@,
            r.0@,
            r.1,
            json_step(header, opt_blocks_view(pending), s@),
        ),
{
    match de_last_json::<Vec<Block>>(s) {
        Ok((found, rem)) => {
            let k = s.len() - rem.len();
            let pending_blocks = match found {
                Some(b) => Some(b),
                None => pending,
            };
            (Protocol::Json { header, pending_blocks }, Ok(k))
        },
        Err(_) => (
            Protocol::Json { header, pending_blocks: pending },
            Err(ProtocolError::MalformedProtocol { reason: Malformed::InvalidJson }),
        ),
    }
}

fn advance_not_started(header: JsonHeader, s: &[u8]) -> (r: (Protocol, Result<usize, ProtocolError>))
    ensures
        step_matches(s@, r.0@, r.1, not_started_step(header, s@)),
{
    let t = trim_ascii_start(s);
    let ghost k = leading_len(s@, |b: u8| is_ascii_ws(b));
    if t.len() == 0 {
        (Protocol::JsonNotStarted { header }, Ok(s.len()))
    } else if t[0] == 0x5bu8 {
        let k1 = s.len() - t.len() + 1;
        assert(k1 == k + 1);
        assert(t@[0] == s@[k as int]);
        let (next, res) = advance_json(header, None, &s[k1..s.len()]);
        assert(s@.subrange(k1 as int, s@.len() as int) =~= s@.skip(k + 1 as int));
        match res {
            Ok(n) => (next, Ok(k1 + n)),
            Err(e) => (next, Err(e)),
        }
    } else {
        assert(t@[0] == s@[k as int]);
        (
            Protocol::JsonNotStarted { header },
            Err(ProtocolError::MalformedProtocol { reason: Malformed::ExpectedBracket { got: t[0] } }),
        )
    }
}

fn advance_plain(pending: Option<String>, s: &[u8]) -> (r: (Protocol, Result<usize, ProtocolError>))
    ensures
        step_matches(
            s@,
            r.0@,
            r.1,
            plain_step(
                match pending {
                    Some(l) => Some(l@),
                    None => None,
                },
                s@,
            ),
        ),
{
    match last_line(s) {
        Some((line, rem)) => (Protocol::PlainText { pending_line: Some(utf8_lossy(line)) }, Ok(s.len() - rem.len())),
        None => (Protocol::PlainText { pending_line: pending }, Ok(0)),
    }
}

fn advance(st: Protocol, s: &[u8]) -> (r: (Protocol, Result<usize, ProtocolError>))
    ensures
        step_matches(s@, r.0@, r.1, protocol_step(st@, s@)),
{
    match st {
        Protocol::Unknown => match de_first_json::<JsonHeader>(s) {
            Ok((Some(h), rem)) => {
                if h.version == 1 {
                    let k = s.len() - rem.len();
                    let (next, res) = advance_not_started(h, rem);
                    match res {
                        Ok(n) => (next, Ok(k + n)),
                        Err(e) => (next, Err(e)),
                    }
                } else {
                    (Protocol::Unknown, Err(ProtocolError::UnsupportedProtocolVersion { version: h.version }))
                }
            },
            Ok((None, _)) => (Protocol::Unknown, Ok(0)),
            Err(_) => advance_plain(None, s),
        },
        Protocol::PlainText { pending_line } => advance_plain(pending_line, s),
        Protocol::JsonNotStarted { header } => advance_not_started(header, s),
        Protocol::Json { header, pending_blocks } => advance_json(header, pending_blocks, s),
    }
}

/// What taking the pending blocks returns and leaves behind.
pub open spec fn taken(st: ProtocolView) -> (Option<Seq<BlockView>>, ProtocolView) {
    match st {
        ProtocolView::PlainText { pending_line: Some(l) } => (
            Some(seq![default_block(l)]),
            ProtocolView::PlainText { pending_line: None },
        ),
        ProtocolView::Json { header, pending_blocks } => (pending_blocks, ProtocolView::Json { header, pending_blocks: None }),
        _ => (None, st),
    }
}

impl Protocol {
    pub fn new() -> (r: Protocol)
        ensures
            r@ == ProtocolView::Unknown,
    {
        Protocol::Unknown
    }

    /// Extracts new data from `bytes`; returns the bytes not used, which the
    /// next call must receive again in front of the new ones. An error is
    /// final for the feed; the state then is the one reached before the
    /// read that failed (a header read stays read).
    pub fn process_new_bytes<'a>(&mut self, bytes: &'a [u8]) -> (r: Result<&'a [u8], ProtocolError>)
        ensures
            final(self)@ == protocol_step(old(self)@, bytes@).0,
            match (r, protocol_step(old(self)@, bytes@).1) {
                (Ok(rem), Ok(k)) => k <= bytes@.len() && rem@ == bytes@.skip(k as int),
                (Err(e), Err(f)) => e == f,
                _ => false,
            },
    {
        let mut cur = Protocol::Unknown;
        std::mem::swap(self, &mut cur);
        let (next, res) = advance(cur, bytes);
        *self = next;
        match res {
            Ok(k) => Ok(&bytes[k..bytes.len()]),
            Err(e) => Err(e),
        }
    }

    /// The pending block list, if one arrived since the last call.
    pub fn get_blocks(&mut self) -> (r: Option<Vec<Block>>)
        ensures
            opt_blocks_view(r) == taken(old(self)@).0,
            final(self)@ == taken(old(self)@).1,
    {
        let mut cur = Protocol::Unknown;
        std::mem::swap(self, &mut cur);
        match cur {
            Protocol::PlainText { pending_line: Some(l) } => {
                *self = Protocol::PlainText { pending_line: None };
                let blocks = vec![Block::with_text(l)];
                assert(blocks_view(blocks) =~= seq![default_block(l@)]);
                Some(blocks)
            },
            Protocol::Json { header, pending_blocks } => {
                *self = Protocol::Json { header, pending_blocks: None };
                pending_blocks
            },
            other => {
                *self = other;
                None
            },
        }
    }

    /// Whether the header asked for click events; false before a header.
    pub fn supports_clicks(&self) -> (r: bool)
        ensures
            r == match self@ {
                ProtocolView::JsonNotStarted { header } => header.click_events,
                ProtocolView::Json { header, .. } => header.click_events,
                _ => false,
            },
    {
        match self {
            Protocol::JsonNotStarted { header } => header.click_events,
            Protocol::Json { header, .. } => header.click_events,
            _ => false,
        }
    }
}

/// A click event for the status command: the clicked block's name and
/// instance, and the button. Positions are not part of it: they are always
/// zero on the wire.
#[derive(Debug)]
pub struct Event {
    pub name: Option<String>,
    pub instance: Option<String>,
    pub button: PointerBtn,
}

fn clone_opt_string(o: &Option<String>) -> (r: Option<String>)
    ensures
        opt_view(r) == opt_view(*o),
{
    match o {
        Some(s) => Some(s.clone()),
        None => None,
    }
}

impl Event {
    /// The event of a click with `button` on `block`.
    pub fn for_block(block: &Block, button: PointerBtn) -> (r: Event)
        ensures
            opt_view(r.name) == opt_view(block.name),
            opt_view(r.instance) == opt_view(block.instance),
            r.button == button,
    {
        Event { name: clone_opt_string(&block.name), instance: clone_opt_string(&block.instance), button }
    }
}

} // verus!
