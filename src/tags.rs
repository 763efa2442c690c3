//! Tags (workspaces) of the window manager and what a click on the bar hits.

use vstd::prelude::*;
use crate::button_manager::{region_hit, ButtonManager};

verus! {

#[derive(Debug, Clone, Copy, PartialEq, Eq, Structural)]
pub enum TagState {
    Urgent,
    Focused,
    Active,
    Inactive,
}

/// Bit masks of the focused, urgent and active tags.
#[derive(Debug, Default, Clone, Copy, PartialEq, Eq, Structural)]
pub struct TagsInfo {
    pub focused: u32,
    pub urgent: u32,
    pub active: u32,
}

pub open spec fn has_bit(mask: u32, tag: u32) -> bool {
    (mask >> tag) & 1u32 == 1u32
}

impl TagsInfo {
    /// The state of tag `tag`; urgency wins over focus, focus over activity.
    pub fn get_state(self, tag: usize) -> (r: TagState)
        requires
            tag < 32,
        ensures
            r == if has_bit(self.urgent, tag as u32) {
                TagState::Urgent
            } else if has_bit(self.focused, tag as u32) {
                TagState::Focused
            } else if has_bit(self.active, tag as u32) {
                TagState::Active
            } else {
                TagState::Inactive
            },
    {
        let t = tag as u32;
        if (self.urgent >> t) & 1 == 1 {
            TagState::Urgent
        } else if (self.focused >> t) & 1 == 1 {
            TagState::Focused
        } else if (self.active >> t) & 1 == 1 {
            TagState::Active
        } else {
            TagState::Inactive
        }
    }
}

/// A tag as a window manager reports it.
#[derive(Debug)]
pub struct Tag {
    pub id: u32,
    pub name: String,
    pub is_focused: bool,
    pub is_active: bool,
    pub is_urgent: bool,
}

/// What a click at some `x` on the bar is for.
#[derive(Debug, PartialEq, Eq)]
pub enum ClickTarget<'a, T> {
    /// The tag with this id.
    Tag(u32),
    /// The tags area, between two tags.
    TagsGap,
    /// The block whose hit region holds this payload.
    Block(&'a T),
    Nothing,
}

/// Decides what a click at `x` hits: a tag first, then the span of the
/// tags, then a block.
pub fn click_target<'a, T>(tags: &ButtonManager<u32>, blocks: &'a ButtonManager<T>, x: i128) -> (r: ClickTarget<'a, T>)
    ensures
        r matches ClickTarget::Tag(id) ==> exists|i: int|
            0 <= i < tags@.len() && tags@[i].2 == id && region_hit(tags@[i].0 as int, tags@[i].1 as int, x as int)
                && forall|j: int| 0 <= j < i ==> !region_hit(#[trigger] tags@[j].0 as int, tags@[j].1 as int, x as int),
        r is TagsGap ==> (forall|i: int| 0 <= i < tags@.len() ==> !region_hit(#[trigger] tags@[i].0 as int, tags@[i].1 as int, x as int))
            && (exists|i: int| 0 <= i < tags@.len() && #[trigger] tags@[i].0 <= x) && (exists|i: int|
            0 <= i < tags@.len() && #[trigger] tags@[i].0 as int + tags@[i].1 as int >= x as int),
        r matches ClickTarget::Block(b) ==> (forall|i: int| 0 <= i < tags@.len() ==> !region_hit(#[trigger] tags@[i].0 as int, tags@[i].1 as int, x as int))
            && exists|i: int|
            0 <= i < blocks@.len() && blocks@[i].2 == *b && region_hit(blocks@[i].0 as int, blocks@[i].1 as int, x as int)
                && forall|j: int| 0 <= j < i ==> !region_hit(#[trigger] blocks@[j].0 as int, blocks@[j].1 as int, x as int),
        r is Nothing ==> (forall|i: int| 0 <= i < blocks@.len() ==> !region_hit(#[trigger] blocks@[i].0 as int, blocks@[i].1 as int, x as int))
            && !((exists|i: int| 0 <= i < tags@.len() && #[trigger] tags@[i].0 <= x) && (exists|i: int|
            0 <= i < tags@.len() && #[trigger] tags@[i].0 as int + tags@[i].1 as int >= x as int)),
{
    match tags.click(x) {
        Some(id) => ClickTarget::Tag(*id),
        None => if tags.is_between(x) {
            ClickTarget::TagsGap
        } else {
            match blocks.click(x) {
                Some(b) => ClickTarget::Block(b),
                None => ClickTarget::Nothing,
            }
        },
    }
}

} // verus!
