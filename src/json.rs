//! Framing of a stream of JSON values and reading of JSON scalars.
//!
//! The JSON grammar itself is serde_json's: every call into it stands behind
//! one wrapper below, whose result is named by a spec function of the bytes.
//! What this module adds is the stream framing of the status feed: the
//! separators between values, and the "latest complete value" rule.

use vstd::prelude::*;
use serde_json::value::RawValue;
use std::collections::BTreeMap;

verus! {

/// What reading one JSON value from the front of a byte string found.
#[derive(Debug, Clone, Copy, PartialEq, Eq, Structural)]
pub enum JsonScan {
    /// A complete, syntactically valid value ends at byte `end`.
    Value { end: usize },
    /// The input ends before a value is complete (or holds only whitespace);
    /// the value, if any, starts at byte `start`.
    Incomplete { start: usize },
    /// The input holds a syntax error.
    Invalid,
}

pub uninterp spec fn json_scan_of(s: Seq<u8>) -> JsonScan;

pub uninterp spec fn json_items_of(s: Seq<u8>) -> Option<Seq<Seq<u8>>>;

pub uninterp spec fn json_fields_of(s: Seq<u8>) -> Option<Seq<(Seq<char>, Seq<u8>)>>;

pub uninterp spec fn json_string_of(s: Seq<u8>) -> Option<Seq<char>>;

pub uninterp spec fn json_u64_of(s: Seq<u8>) -> Option<u64>;

pub uninterp spec fn json_i64_of(s: Seq<u8>) -> Option<i64>;

pub uninterp spec fn json_bool_of(s: Seq<u8>) -> Option<bool>;

pub uninterp spec fn json_null_of(s: Seq<u8>) -> bool;

/// Relies on serde_json's `StreamDeserializer` (skipping the value with
/// `IgnoredAny`): on success `byte_offset` is the end of the value; on an
/// end-of-input error, or when only whitespace is left, it is where the
/// unfinished value starts. Offsets index into `s`, and a value is at least
/// one byte long.
#[verifier::external_body]
pub(crate) fn scan_json(s: &[u8]) -> (r: JsonScan)
    ensures
        r == json_scan_of(s@),
        r matches JsonScan::Value { end } ==> 0 < end <= s@.len(),
        r matches JsonScan::Incomplete { start } ==> start <= s@.len(),
{
    let mut it = serde_json::Deserializer::from_slice(s).into_iter::<serde::de::IgnoredAny>();
    match it.next() {
        Some(Ok(_)) => JsonScan::Value { end: it.byte_offset() },
        Some(Err(e)) if e.is_eof() => JsonScan::Incomplete { start: it.byte_offset() },
        Some(Err(_)) => JsonScan::Invalid,
        None => JsonScan::Incomplete { start: it.byte_offset() },
    }
}

/// Relies on `serde_json::from_slice` into a `Vec` of `RawValue`: the exact
/// text of each element of a JSON array, or `None` when `s` is not one.
#[verifier::external_body]
pub(crate) fn json_items(s: &[u8]) -> (r: Option<Vec<Vec<u8>>>)
    ensures
        r matches Some(v) ==> json_items_of(s@) == Some(v.deep_view()),
        r is None ==> json_items_of(s@) is None,
{
    let items: Vec<&RawValue> = serde_json::from_slice(s).ok()?;
    Some(items.into_iter().map(|v| v.get().as_bytes().to_vec()).collect())
}

/// Relies on `serde_json::from_slice` into a `BTreeMap` of `RawValue`: the
/// members of a JSON object, each key once (a repeated key keeps its last
/// value), with the exact text of its value, or `None` when `s` is not an
/// object.
#[verifier::external_body]
pub(crate) fn json_fields(s: &[u8]) -> (r: Option<Vec<(String, Vec<u8>)>>)
    ensures
        r matches Some(v) ==> json_fields_of(s@) == Some(v.deep_view()),
        r is None ==> json_fields_of(s@) is None,
{
    let fields: BTreeMap<String, &RawValue> = serde_json::from_slice(s).ok()?;
    Some(fields.into_iter().map(|(k, v)| (k, v.get().as_bytes().to_vec())).collect())
}

/// Relies on `serde_json::from_slice::<String>`: the value of a JSON string.
#[verifier::external_body]
pub(crate) fn json_string(s: &[u8]) -> (r: Option<String>)
    ensures
        r matches Some(v) ==> json_string_of(s@) == Some(v@),
        r is None ==> json_string_of(s@) is None,
{
    serde_json::from_slice::<String>(s).ok()
}

/// Relies on `serde_json::from_slice::<u64>`: a JSON integer in `u64`.
#[verifier::external_body]
pub(crate) fn json_u64(s: &[u8]) -> (r: Option<u64>)
    ensures
        r == json_u64_of(s@),
{
    serde_json::from_slice::<u64>(s).ok()
}

/// Relies on `serde_json::from_slice::<i64>`: a JSON integer in `i64`.
#[verifier::external_body]
pub(crate) fn json_i64(s: &[u8]) -> (r: Option<i64>)
    ensures
        r == json_i64_of(s@),
{
    serde_json::from_slice::<i64>(s).ok()
}

/// Relies on `serde_json::from_slice::<bool>`: a JSON `true` or `false`.
#[verifier::external_body]
pub(crate) fn json_bool(s: &[u8]) -> (r: Option<bool>)
    ensures
        r == json_bool_of(s@),
{
    serde_json::from_slice::<bool>(s).ok()
}

/// Relies on `serde_json::from_slice::<()>`: whether `s` is JSON `null`.
#[verifier::external_body]
pub(crate) fn json_null(s: &[u8]) -> (r: bool)
    ensures
        r == json_null_of(s@),
{
    serde_json::from_slice::<()>(s).is_ok()
}

/// A type that can be read from the text of one JSON value.
pub trait FromJson: Sized {
    type Model;

    spec fn model(&self) -> Self::Model;

    /// What the JSON text `raw` reads as, if anything.
    spec fn decodes_to(raw: Seq<u8>) -> Option<Self::Model>;

    fn from_json(raw: &[u8]) -> (r: Option<Self>)
        ensures
            r matches Some(v) ==> Self::decodes_to(raw@) == Some(v.model()),
            r is None ==> Self::decodes_to(raw@) is None,
    ;
}

/// The bytes that may stand between two values of the stream.
pub open spec fn is_separator(b: u8) -> bool {
    b == 0x20u8 || b == 0x2cu8 || b == 0x0au8
}

/// The bytes that `u8::is_ascii_whitespace` accepts.
pub open spec fn is_ascii_ws(b: u8) -> bool {
    b == 0x20u8 || b == 0x09u8 || b == 0x0au8 || b == 0x0cu8 || b == 0x0du8
}

/// The length of the longest prefix of `s` whose bytes all satisfy `p`.
pub open spec fn leading_len(s: Seq<u8>, p: spec_fn(u8) -> bool) -> nat
    decreases s.len(),
{
    if s.len() > 0 && p(s[0]) {
        1 + leading_len(s.skip(1), p)
    } else {
        0
    }
}

pub(crate) proof fn lemma_leading_len(s: Seq<u8>, p: spec_fn(u8) -> bool, i: int)
    requires
        0 <= i <= s.len(),
        forall|j: int| 0 <= j < i ==> p(#[trigger] s[j]),
        i == s.len() || !p(s[i]),
    ensures
        leading_len(s, p) == i,
    decreases i,
{
    if i > 0 {
        let t = s.skip(1);
        assert forall|j: int| 0 <= j < i - 1 implies p(#[trigger] t[j]) by {
            assert(t[j] == s[j + 1]);
        }
        if i < s.len() {
            assert(t[i - 1] == s[i]);
        }
        lemma_leading_len(t, p, i - 1);
    }
}

/// Skips the bytes that satisfy `is_separator`; returns the count skipped.
fn skip_separators(s: &[u8]) -> (r: usize)
    ensures
        r <= s@.len(),
        r == leading_len(s@, |b: u8| is_separator(b)),
{
    let mut i: usize = 0;
    while i < s.len() && (s[i] == 0x20u8 || s[i] == 0x2cu8 || s[i] == 0x0au8)
        invariant
            0 <= i <= s@.len(),
            forall|j: int| 0 <= j < i ==> is_separator(#[trigger] s@[j]),
        decreases s@.len() - i,
    {
        i = i + 1;
    }
    proof {
        lemma_leading_len(s@, |b: u8| is_separator(b), i as int);
    }
    i
}

fn ascii_ws(b: u8) -> (r: bool)
    ensures
        r == is_ascii_ws(b),
{
    b == 0x20u8 || b == 0x09u8 || b == 0x0au8 || b == 0x0cu8 || b == 0x0du8
}

/// A byte slice with its leading ASCII whitespace removed.
pub fn trim_ascii_start(bytes: &[u8]) -> (r: &[u8])
    ensures
        r@ == bytes@.skip(leading_len(bytes@, |b: u8| is_ascii_ws(b)) as int),
        leading_len(bytes@, |b: u8| is_ascii_ws(b)) <= bytes@.len(),
{
    let mut i: usize = 0;
    while i < bytes.len() && ascii_ws(bytes[i])
        invariant
            0 <= i <= bytes@.len(),
            forall|j: int| 0 <= j < i ==> is_ascii_ws(#[trigger] bytes@[j]),
        decreases bytes@.len() - i,
    {
        i = i + 1;
    }
    proof {
        lemma_leading_len(bytes@, |b: u8| is_ascii_ws(b), i as int);
    }
    &bytes[i..bytes.len()]
}

/// A JSON value that is syntactically valid but does not read as the
/// expected type, or a syntax error.
#[derive(Debug, Clone, Copy, PartialEq, Eq, Structural)]
pub struct InvalidJson;

/// The first value of the stream `s`: after leading separators, one value is
/// read; `Ok((None, k))` when it is not complete yet, with the unread part
/// starting at `k`.
pub open spec fn first_json<T: FromJson>(s: Seq<u8>) -> Result<(Option<T::Model>, nat), InvalidJson> {
    let k = leading_len(s, |b: u8| is_separator(b));
    match json_scan_of(s.skip(k as int)) {
        JsonScan::Value { end } => match T::decodes_to(s.subrange(k as int, k + end)) {
            Some(m) => Ok((Some(m), (k + end) as nat)),
            None => Err(InvalidJson),
        },
        JsonScan::Incomplete { start } => Ok((None, (k + start) as nat)),
        JsonScan::Invalid => Err(InvalidJson),
    }
}

/// The last complete value of the stream `s` (or `last` if there is none),
/// with the start of the unread part shifted by `base`.
pub open spec fn last_json<T: FromJson>(s: Seq<u8>, last: Option<T::Model>, base: nat) -> Result<(Option<T::Model>, nat), InvalidJson>
    decreases s.len(),
{
    match first_json::<T>(s) {
        Err(e) => Err(e),
        Ok((None, r)) => Ok((last, base + r)),
        Ok((Some(m), r)) => if 0 < r <= s.len() {
            last_json::<T>(s.skip(r as int), Some(m), base + r)
        } else {
            Ok((Some(m), base + r))
        },
    }
}

/// Reads the first value of the stream; returns it, if complete, and the
/// bytes not used.
pub fn de_first_json<'a, T: FromJson>(s: &'a [u8]) -> (r: Result<(Option<T>, &'a [u8]), InvalidJson>)
    ensures
        match (r, first_json::<T>(s@)) {
            (Ok((v, rem)), Ok((m, k))) => k <= s@.len() && rem@ == s@.skip(k as int) && match v {
                Some(x) => m == Some(x.model()),
                None => m is None,
            },
            (Err(e), Err(f)) => true,
            _ => false,
        },
        r matches Ok((Some(_), rem)) ==> rem@.len() < s@.len(),
{
    let k = skip_separators(s);
    let t = &s[k..s.len()];
    assert(t@ == s@.skip(k as int));
    match scan_json(t) {
        JsonScan::Value { end } => {
            let raw = &s[k..k + end];
            assert(raw@ == s@.subrange(k as int, k + end));
            match T::from_json(raw) {
                Some(v) => Ok((Some(v), &s[k + end..s.len()])),
                None => Err(InvalidJson),
            }
        },
        JsonScan::Incomplete { start } => Ok((None, &s[k + start..s.len()])),
        JsonScan::Invalid => Err(InvalidJson),
    }
}

/// Reads every complete value of the stream and keeps the last; returns it
/// and the bytes not used, which start with an unfinished value if any.
pub fn de_last_json<'a, T: FromJson>(s: &'a [u8]) -> (r: Result<(Option<T>, &'a [u8]), InvalidJson>)
    ensures
        match (r, last_json::<T>(s@, None, 0)) {
            (Ok((v, rem)), Ok((m, k))) => k <= s@.len() && rem@ == s@.skip(k as int) && match v {
                Some(x) => m == Some(x.model()),
                None => m is None,
            },
            (Err(e), Err(f)) => true,
            _ => false,
        },
{
    let mut last: Option<T> = None;
    let mut rest: &'a [u8] = s;
    let ghost mut base: nat = 0;
    loop
        invariant
            base + rest@.len() == s@.len(),
            rest@ == s@.skip(base as int),
            last_json::<T>(s@, None, 0) == last_json::<T>(
                rest@,
                match last {
                    Some(x) => Some(x.model()),
                    None => None,
                },
                base,
            ),
        decreases rest@.len(),
    {
        match de_first_json::<T>(rest) {
            Err(e) => return Err(e),
            Ok((None, rem)) => return Ok((last, rem)),
            Ok((Some(v), rem)) => {
                proof {
                    let k = (rest@.len() - rem@.len()) as nat;
                    assert(rest@.skip(k as int) =~= rem@);
                    assert(s@.skip(base as int).skip(k as int) =~= s@.skip((base + k) as int));
                    base = base + k;
                }
                last = Some(v);
                rest = rem;
            },
        }
    }
}

} // verus!
