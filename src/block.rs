//! The records of the status feed: blocks and the stream header, and how
//! they are read from JSON.

use vstd::prelude::*;
use crate::json::{
    json_bool, json_bool_of, json_fields, json_fields_of, json_i64, json_i64_of, json_items,
    json_items_of, json_null, json_null_of, json_string, json_string_of, json_u64, json_u64_of,
    FromJson,
};

verus! {

broadcast use vstd::string::group_string_axioms;

/// Horizontal alignment of a block's text inside its minimal width.
#[derive(Clone, Copy, Debug, PartialEq, Eq, Structural)]
pub enum Align {
    Right,
    Left,
    Center,
}

impl Default for Align {
    fn default() -> (r: Self)
        ensures
            r == Align::Left,
    {
        Align::Left
    }
}

/// The minimal width of a block: a pixel count, or the width of a text.
#[derive(Clone, Debug)]
pub enum MinWidth {
    Text(String),
    Pixels(u64),
}

pub enum MinWidthView {
    Text(Seq<char>),
    Pixels(u64),
}

impl View for MinWidth {
    type V = MinWidthView;

    open spec fn view(&self) -> MinWidthView {
        match self {
            MinWidth::Text(t) => MinWidthView::Text(t@),
            MinWidth::Pixels(p) => MinWidthView::Pixels(*p),
        }
    }
}

/// One status segment as the status command describes it.
#[derive(Clone, Debug)]
pub struct Block {
    pub full_text: String,
    pub short_text: Option<String>,
    pub color: Option<String>,
    pub background: Option<String>,
    pub min_width: Option<MinWidth>,
    pub align: Align,
    pub name: Option<String>,
    pub instance: Option<String>,
    pub separator: bool,
    pub separator_block_width: u8,
    pub markup: Option<String>,
}

pub struct BlockView {
    pub full_text: Seq<char>,
    pub short_text: Option<Seq<char>>,
    pub color: Option<Seq<char>>,
    pub background: Option<Seq<char>>,
    pub min_width: Option<MinWidthView>,
    pub align: Align,
    pub name: Option<Seq<char>>,
    pub instance: Option<Seq<char>>,
    pub separator: bool,
    pub separator_block_width: u8,
    pub markup: Option<Seq<char>>,
}

pub open spec fn opt_view<T: View>(o: Option<T>) -> Option<T::V> {
    match o {
        Some(v) => Some(v@),
        None => None,
    }
}

impl View for Block {
    type V = BlockView;

    open spec fn view(&self) -> BlockView {
        BlockView {
            full_text: self.full_text@,
            short_text: opt_view(self.short_text),
            color: opt_view(self.color),
            background: opt_view(self.background),
            min_width: opt_view(self.min_width),
            align: self.align,
            name: opt_view(self.name),
            instance: opt_view(self.instance),
            separator: self.separator,
            separator_block_width: self.separator_block_width,
            markup: opt_view(self.markup),
        }
    }
}

pub open spec fn blocks_view(v: Vec<Block>) -> Seq<BlockView> {
    v@.map_values(|b: Block| b@)
}

/// A block with the given text and every other field at its default:
/// left aligned, with a separator and a gap of 9 after it.
pub open spec fn default_block(full_text: Seq<char>) -> BlockView {
    BlockView {
        full_text,
        short_text: None,
        color: None,
        background: None,
        min_width: None,
        align: Align::Left,
        name: None,
        instance: None,
        separator: true,
        separator_block_width: 9,
        markup: None,
    }
}

impl Block {
    pub fn with_text(full_text: String) -> (r: Block)
        ensures
            r@ == default_block(full_text@),
    {
        Block {
            full_text,
            short_text: None,
            color: None,
            background: None,
            min_width: None,
            align: Align::Left,
            name: None,
            instance: None,
            separator: true,
            separator_block_width: 9,
            markup: None,
        }
    }
}

/// The header object that opens the JSON form of the feed.
#[derive(Clone, Copy, Debug, PartialEq, Eq, Structural)]
pub struct JsonHeader {
    pub version: u8,
    pub stop_signal: i32,
    pub cont_signal: i32,
    pub click_events: bool,
}

// ---------------------------------------------------------------------------
// Reading fields

/// An optional string member: `null` reads as absent.
pub open spec fn opt_string_field(raw: Seq<u8>) -> Option<Option<Seq<char>>> {
    if json_null_of(raw) {
        Some(None)
    } else {
        match json_string_of(raw) {
            Some(t) => Some(Some(t)),
            None => None,
        }
    }
}

/// A `min_width` member: `null`, a non-negative integer or a string.
pub open spec fn min_width_field(raw: Seq<u8>) -> Option<Option<MinWidthView>> {
    if json_null_of(raw) {
        Some(None)
    } else {
        match json_u64_of(raw) {
            Some(p) => Some(Some(MinWidthView::Pixels(p))),
            None => match json_string_of(raw) {
                Some(t) => Some(Some(MinWidthView::Text(t))),
                None => None,
            },
        }
    }
}

/// An `align` member: one of the strings `left`, `right`, `center`.
pub open spec fn align_field(raw: Seq<u8>) -> Option<Align> {
    match json_string_of(raw) {
        Some(t) => if t == "left"@ {
            Some(Align::Left)
        } else if t == "right"@ {
            Some(Align::Right)
        } else if t == "center"@ {
            Some(Align::Center)
        } else {
            None
        },
        None => None,
    }
}

/// A `u8` member.
pub open spec fn u8_field(raw: Seq<u8>) -> Option<u8> {
    match json_u64_of(raw) {
        Some(v) => if v <= 255 {
            Some(v as u8)
        } else {
            None
        },
        None => None,
    }
}

/// An `i32` member.
pub open spec fn i32_field(raw: Seq<u8>) -> Option<i32> {
    match json_i64_of(raw) {
        Some(v) => if i32::MIN <= v <= i32::MAX {
            Some(v as i32)
        } else {
            None
        },
        None => None,
    }
}

pub(crate) fn key_is(key: &String, name: &str) -> (r: bool)
    ensures
        r == (key@ == name@),
{
    let n = name.to_string();
    *key == n
}

fn read_opt_string(raw: &[u8]) -> (r: Option<Option<String>>)
    ensures
        r matches Some(v) ==> opt_string_field(raw@) == Some(opt_view(v)),
        r is None ==> opt_string_field(raw@) is None,
{
    if json_null(raw) {
        Some(None)
    } else {
        match json_string(raw) {
            Some(t) => Some(Some(t)),
            None => None,
        }
    }
}

fn read_min_width(raw: &[u8]) -> (r: Option<Option<MinWidth>>)
    ensures
        r matches Some(v) ==> min_width_field(raw@) == Some(opt_view(v)),
        r is None ==> min_width_field(raw@) is None,
{
    if json_null(raw) {
        Some(None)
    } else {
        match json_u64(raw) {
            Some(p) => Some(Some(MinWidth::Pixels(p))),
            None => match json_string(raw) {
                Some(t) => Some(Some(MinWidth::Text(t))),
                None => None,
            },
        }
    }
}

fn read_align(raw: &[u8]) -> (r: Option<Align>)
    ensures
        r == align_field(raw@),
{
    match json_string(raw) {
        Some(t) => if key_is(&t, "left") {
            Some(Align::Left)
        } else if key_is(&t, "right") {
            Some(Align::Right)
        } else if key_is(&t, "center") {
            Some(Align::Center)
        } else {
            None
        },
        None => None,
    }
}

fn read_u8(raw: &[u8]) -> (r: Option<u8>)
    ensures
        r == u8_field(raw@),
{
    match json_u64(raw) {
        Some(v) => if v <= 255 {
            Some(v as u8)
        } else {
            None
        },
        None => None,
    }
}

fn read_i32(raw: &[u8]) -> (r: Option<i32>)
    ensures
        r == i32_field(raw@),
{
    match json_i64(raw) {
        Some(v) => if i32::MIN as i64 <= v && v <= i32::MAX as i64 {
            Some(v as i32)
        } else {
            None
        },
        None => None,
    }
}

/// What one member of a block object does to the block read so far; the
/// flag records that `full_text` was seen. Unknown members are refused.
pub open spec fn apply_block_field(d: (BlockView, bool), key: Seq<char>, raw: Seq<u8>) -> Option<(BlockView, bool)> {
    let b = d.0;
    if key == "full_text"@ {
        match json_string_of(raw) {
            Some(t) => Some((BlockView { full_text: t, ..b }, true)),
            None => None,
        }
    } else if key == "short_text"@ {
        match opt_string_field(raw) {
            Some(v) => Some((BlockView { short_text: v, ..b }, d.1)),
            None => None,
        }
    } else if key == "color"@ {
        match opt_string_field(raw) {
            Some(v) => Some((BlockView { color: v, ..b }, d.1)),
            None => None,
        }
    } else if key == "background"@ {
        match opt_string_field(raw) {
            Some(v) => Some((BlockView { background: v, ..b }, d.1)),
            None => None,
        }
    } else if key == "min_width"@ {
        match min_width_field(raw) {
            Some(v) => Some((BlockView { min_width: v, ..b }, d.1)),
            None => None,
        }
    } else if key == "align"@ {
        match align_field(raw) {
            Some(v) => Some((BlockView { align: v, ..b }, d.1)),
            None => None,
        }
    } else if key == "name"@ {
        match opt_string_field(raw) {
            Some(v) => Some((BlockView { name: v, ..b }, d.1)),
            None => None,
        }
    } else if key == "instance"@ {
        match opt_string_field(raw) {
            Some(v) => Some((BlockView { instance: v, ..b }, d.1)),
            None => None,
        }
    } else if key == "separator"@ {
        match json_bool_of(raw) {
            Some(v) => Some((BlockView { separator: v, ..b }, d.1)),
            None => None,
        }
    } else if key == "separator_block_width"@ {
        match u8_field(raw) {
            Some(v) => Some((BlockView { separator_block_width: v, ..b }, d.1)),
            None => None,
        }
    } else if key == "markup"@ {
        match opt_string_field(raw) {
            Some(v) => Some((BlockView { markup: v, ..b }, d.1)),
            None => None,
        }
    } else {
        None
    }
}

/// The block read from the members `fs`, in order, starting from the default.
pub open spec fn block_fields(fs: Seq<(Seq<char>, Seq<u8>)>) -> Option<(BlockView, bool)>
    decreases fs.len(),
{
    if fs.len() == 0 {
        Some((default_block(Seq::empty()), false))
    } else {
        match block_fields(fs.drop_last()) {
            Some(d) => apply_block_field(d, fs.last().0, fs.last().1),
            None => None,
        }
    }
}

/// The block that the JSON text `raw` describes: an object with a
/// `full_text` member and no member outside the known ones.
pub open spec fn block_of_json(raw: Seq<u8>) -> Option<BlockView> {
    match json_fields_of(raw) {
        Some(fs) => match block_fields(fs) {
            Some((b, true)) => Some(b),
            _ => None,
        },
        None => None,
    }
}

/// The blocks that the JSON texts `items` describe, if each describes one.
pub open spec fn blocks_of_items(items: Seq<Seq<u8>>) -> Option<Seq<BlockView>>
    decreases items.len(),
{
    if items.len() == 0 {
        Some(Seq::empty())
    } else {
        match (blocks_of_items(items.drop_last()), block_of_json(items.last())) {
            (Some(bs), Some(b)) => Some(bs.push(b)),
            _ => None,
        }
    }
}

/// The block list that the JSON text `raw` describes: an array of blocks.
pub open spec fn block_list_of_json(raw: Seq<u8>) -> Option<Seq<BlockView>> {
    match json_items_of(raw) {
        Some(items) => blocks_of_items(items),
        None => None,
    }
}

proof fn lemma_block_fields_stuck(fs: Seq<(Seq<char>, Seq<u8>)>, i: int)
    requires
        0 <= i <= fs.len(),
        block_fields(fs.take(i)) is None,
    ensures
        block_fields(fs) is None,
    decreases fs.len() - i,
{
    if i < fs.len() {
        assert(fs.take(i + 1).drop_last() =~= fs.take(i));
        lemma_block_fields_stuck(fs, i + 1);
    } else {
        assert(fs.take(i) =~= fs);
    }
}

proof fn lemma_blocks_of_items_stuck(items: Seq<Seq<u8>>, i: int)
    requires
        0 <= i <= items.len(),
        blocks_of_items(items.take(i)) is None,
    ensures
        blocks_of_items(items) is None,
    decreases items.len() - i,
{
    if i < items.len() {
        assert(items.take(i + 1).drop_last() =~= items.take(i));
        lemma_blocks_of_items_stuck(items, i + 1);
    } else {
        assert(items.take(i) =~= items);
    }
}

fn apply_block_field_exec(b: Block, seen: bool, key: &String, raw: &[u8]) -> (r: Option<(Block, bool)>)
    ensures
        r matches Some(d) ==> apply_block_field((b@, seen), key@, raw@) == Some((d.0@, d.1)),
        r is None ==> apply_block_field((b@, seen), key@, raw@) is None,
{
    let mut b = b;
    if key_is(key, "full_text") {
        match json_string(raw) {
            Some(t) => {
                b.full_text = t;
                Some((b, true))
            },
            None => None,
        }
    } else if key_is(key, "short_text") {
        match read_opt_string(raw) {
            Some(v) => {
                b.short_text = v;
                Some((b, seen))
            },
            None => None,
        }
    } else if key_is(key, "color") {
        match read_opt_string(raw) {
            Some(v) => {
                b.color = v;
                Some((b, seen))
            },
            None => None,
        }
    } else if key_is(key, "background") {
        match read_opt_string(raw) {
            Some(v) => {
                b.background = v;
                Some((b, seen))
            },
            None => None,
        }
    } else if key_is(key, "min_width") {
        match read_min_width(raw) {
            Some(v) => {
                b.min_width = v;
                Some((b, seen))
            },
            None => None,
        }
    } else if key_is(key, "align") {
        match read_align(raw) {
            Some(v) => {
                b.align = v;
                Some((b, seen))
            },
            None => None,
        }
    } else if key_is(key, "name") {
        match read_opt_string(raw) {
            Some(v) => {
                b.name = v;
                Some((b, seen))
            },
            None => None,
        }
    } else if key_is(key, "instance") {
        match read_opt_string(raw) {
            Some(v) => {
                b.instance = v;
                Some((b, seen))
            },
            None => None,
        }
    } else if key_is(key, "separator") {
        match json_bool(raw) {
            Some(v) => {
                b.separator = v;
                Some((b, seen))
            },
            None => None,
        }
    } else if key_is(key, "separator_block_width") {
        match read_u8(raw) {
            Some(v) => {
                b.separator_block_width = v;
                Some((b, seen))
            },
            None => None,
        }
    } else if key_is(key, "markup") {
        match read_opt_string(raw) {
            Some(v) => {
                b.markup = v;
                Some((b, seen))
            },
            None => None,
        }
    } else {
        None
    }
}

impl Block {
    /// Reads a block from the JSON text of one object.
    pub fn from_json_object(raw: &[u8]) -> (r: Option<Block>)
        ensures
            r matches Some(b) ==> block_of_json(raw@) == Some(b@),
            r is None ==> block_of_json(raw@) is None,
    {
        let fields = match json_fields(raw) {
            Some(f) => f,
            None => return None,
        };
        let ghost fs = fields.deep_view();
        let mut b = Block::with_text(String::new());
        let mut seen = false;
        let mut i: usize = 0;
        while i < fields.len()
            invariant
                0 <= i <= fields@.len(),
                fs == fields.deep_view(),
                json_fields_of(raw@) == Some(fs),
                block_fields(fs.take(i as int)) == Some((b@, seen)),
            decreases fields@.len() - i,
        {
            assert(fs.take(i as int + 1).drop_last() =~= fs.take(i as int));
            let (key, raw_value) = &fields[i];
            assert(fs.take(i as int + 1).last() == (key@, raw_value@));
            match apply_block_field_exec(b, seen, key, raw_value.as_slice()) {
                Some((nb, ns)) => {
                    b = nb;
                    seen = ns;
                },
                None => {
                    proof {
                        assert(block_fields(fs.take(i as int + 1)) is None);
                        lemma_block_fields_stuck(fs, i as int + 1);
                    }
                    return None;
                },
            }
            i = i + 1;
        }
        assert(fs.take(fields@.len() as int) =~= fs);
        if seen {
            Some(b)
        } else {
            None
        }
    }
}

impl FromJson for Vec<Block> {
    type Model = Seq<BlockView>;

    open spec fn model(&self) -> Seq<BlockView> {
        blocks_view(*self)
    }

    open spec fn decodes_to(raw: Seq<u8>) -> Option<Seq<BlockView>> {
        block_list_of_json(raw)
    }

    fn from_json(raw: &[u8]) -> (r: Option<Vec<Block>>) {
        let items = match json_items(raw) {
            Some(v) => v,
            None => return None,
        };
        let ghost its = items.deep_view();
        let mut blocks: Vec<Block> = Vec::new();
        let mut i: usize = 0;
        while i < items.len()
            invariant
                0 <= i <= items@.len(),
                its == items.deep_view(),
                json_items_of(raw@) == Some(its),
                blocks_of_items(its.take(i as int)) == Some(blocks.model()),
            decreases items@.len() - i,
        {
            assert(its.take(i as int + 1).drop_last() =~= its.take(i as int));
            assert(its.take(i as int + 1).last() == items@[i as int]@);
            match Block::from_json_object(items[i].as_slice()) {
                Some(b) => {
                    let ghost old_blocks = blocks;
                    blocks.push(b);
                    assert(blocks_view(blocks) =~= blocks_view(old_blocks).push(b@));
                },
                None => {
                    proof {
                        assert(blocks_of_items(its.take(i as int + 1)) is None);
                        lemma_blocks_of_items_stuck(its, i as int + 1);
                    }
                    return None;
                },
            }
            i = i + 1;
        }
        assert(its.take(items@.len() as int) =~= its);
        Some(blocks)
    }
}

/// What one member of the header object does to the header read so far;
/// the flag records that `version` was seen. Unknown members are refused.
pub open spec fn apply_header_field(d: (JsonHeader, bool), key: Seq<char>, raw: Seq<u8>) -> Option<(JsonHeader, bool)> {
    let h = d.0;
    if key == "version"@ {
        match u8_field(raw) {
            Some(v) => Some((JsonHeader { version: v, ..h }, true)),
            None => None,
        }
    } else if key == "stop_signal"@ {
        match i32_field(raw) {
            Some(v) => Some((JsonHeader { stop_signal: v, ..h }, d.1)),
            None => None,
        }
    } else if key == "cont_signal"@ {
        match i32_field(raw) {
            Some(v) => Some((JsonHeader { cont_signal: v, ..h }, d.1)),
            None => None,
        }
    } else if key == "click_events"@ {
        match json_bool_of(raw) {
            Some(v) => Some((JsonHeader { click_events: v, ..h }, d.1)),
            None => None,
        }
    } else {
        None
    }
}

pub open spec fn header_fields(fs: Seq<(Seq<char>, Seq<u8>)>) -> Option<(JsonHeader, bool)>
    decreases fs.len(),
{
    if fs.len() == 0 {
        Some((JsonHeader { version: 0, stop_signal: 0, cont_signal: 0, click_events: false }, false))
    } else {
        match header_fields(fs.drop_last()) {
            Some(d) => apply_header_field(d, fs.last().0, fs.last().1),
            None => None,
        }
    }
}

/// The header that the JSON text `raw` describes: an object with a
/// `version` member and no member outside the known ones.
pub open spec fn header_of_json(raw: Seq<u8>) -> Option<JsonHeader> {
    match json_fields_of(raw) {
        Some(fs) => match header_fields(fs) {
            Some((h, true)) => Some(h),
            _ => None,
        },
        None => None,
    }
}

proof fn lemma_header_fields_stuck(fs: Seq<(Seq<char>, Seq<u8>)>, i: int)
    requires
        0 <= i <= fs.len(),
        header_fields(fs.take(i)) is None,
    ensures
        header_fields(fs) is None,
    decreases fs.len() - i,
{
    if i < fs.len() {
        assert(fs.take(i + 1).drop_last() =~= fs.take(i));
        lemma_header_fields_stuck(fs, i + 1);
    } else {
        assert(fs.take(i) =~= fs);
    }
}

fn apply_header_field_exec(h: JsonHeader, seen: bool, key: &String, raw: &[u8]) -> (r: Option<(JsonHeader, bool)>)
    ensures
        r == apply_header_field((h, seen), key@, raw@),
{
    let mut h = h;
    if key_is(key, "version") {
        match read_u8(raw) {
            Some(v) => {
                h.version = v;
                Some((h, true))
            },
            None => None,
        }
    } else if key_is(key, "stop_signal") {
        match read_i32(raw) {
            Some(v) => {
                h.stop_signal = v;
                Some((h, seen))
            },
            None => None,
        }
    } else if key_is(key, "cont_signal") {
        match read_i32(raw) {
            Some(v) => {
                h.cont_signal = v;
                Some((h, seen))
            },
            None => None,
        }
    } else if key_is(key, "click_events") {
        match json_bool(raw) {
            Some(v) => {
                h.click_events = v;
                Some((h, seen))
            },
            None => None,
        }
    } else {
        None
    }
}

impl FromJson for JsonHeader {
    type Model = JsonHeader;

    open spec fn model(&self) -> JsonHeader {
        *self
    }

    open spec fn decodes_to(raw: Seq<u8>) -> Option<JsonHeader> {
        header_of_json(raw)
    }

    fn from_json(raw: &[u8]) -> (r: Option<JsonHeader>) {
        let fields = match json_fields(raw) {
            Some(f) => f,
            None => return None,
        };
        let ghost fs = fields.deep_view();
        let mut h = JsonHeader { version: 0, stop_signal: 0, cont_signal: 0, click_events: false };
        let mut seen = false;
        let mut i: usize = 0;
        while i < fields.len()
            invariant
                0 <= i <= fields@.len(),
                fs == fields.deep_view(),
                json_fields_of(raw@) == Some(fs),
                header_fields(fs.take(i as int)) == Some((h, seen)),
            decreases fields@.len() - i,
        {
            assert(fs.take(i as int + 1).drop_last() =~= fs.take(i as int));
            let (key, raw_value) = &fields[i];
            assert(fs.take(i as int + 1).last() == (key@, raw_value@));
            match apply_header_field_exec(h, seen, key, raw_value.as_slice()) {
                Some((nh, ns)) => {
                    h = nh;
                    seen = ns;
                },
                None => {
                    proof {
                        assert(header_fields(fs.take(i as int + 1)) is None);
                        lemma_header_fields_stuck(fs, i as int + 1);
                    }
                    return None;
                },
            }
            i = i + 1;
        }
        assert(fs.take(fields@.len() as int) =~= fs);
        if seen {
            Some(h)
        } else {
            None
        }
    }
}

/// The bytes that the JSON texts `items` describe, if each is an integer
/// from 0 to 255.
pub open spec fn bytes_of_items(items: Seq<Seq<u8>>) -> Option<Seq<u8>>
    decreases items.len(),
{
    if items.len() == 0 {
        Some(Seq::empty())
    } else {
        match (bytes_of_items(items.drop_last()), u8_field(items.last())) {
            (Some(bs), Some(b)) => Some(bs.push(b)),
            _ => None,
        }
    }
}

proof fn lemma_bytes_of_items_stuck(items: Seq<Seq<u8>>, i: int)
    requires
        0 <= i <= items.len(),
        bytes_of_items(items.take(i)) is None,
    ensures
        bytes_of_items(items) is None,
    decreases items.len() - i,
{
    if i < items.len() {
        assert(items.take(i + 1).drop_last() =~= items.take(i));
        lemma_bytes_of_items_stuck(items, i + 1);
    } else {
        assert(items.take(i) =~= items);
    }
}

impl FromJson for Vec<u8> {
    type Model = Seq<u8>;

    open spec fn model(&self) -> Seq<u8> {
        self@
    }

    open spec fn decodes_to(raw: Seq<u8>) -> Option<Seq<u8>> {
        match json_items_of(raw) {
            Some(items) => bytes_of_items(items),
            None => None,
        }
    }

    fn from_json(raw: &[u8]) -> (r: Option<Vec<u8>>) {
        let items = match json_items(raw) {
            Some(v) => v,
            None => return None,
        };
        let ghost its = items.deep_view();
        let mut out: Vec<u8> = Vec::new();
        let mut i: usize = 0;
        while i < items.len()
            invariant
                0 <= i <= items@.len(),
                its == items.deep_view(),
                json_items_of(raw@) == Some(its),
                bytes_of_items(its.take(i as int)) == Some(out@),
            decreases items@.len() - i,
        {
            assert(its.take(i as int + 1).drop_last() =~= its.take(i as int));
            assert(its.take(i as int + 1).last() == items@[i as int]@);
            match read_u8(items[i].as_slice()) {
                Some(b) => out.push(b),
                None => {
                    proof {
                        assert(bytes_of_items(its.take(i as int + 1)) is None);
                        lemma_bytes_of_items_stuck(its, i as int + 1);
                    }
                    return None;
                },
            }
            i = i + 1;
        }
        assert(its.take(items@.len() as int) =~= its);
        Some(out)
    }
}

} // verus!
