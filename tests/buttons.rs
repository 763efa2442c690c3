use i3bar_river::button_manager::ButtonManager;
use i3bar_river::tags::{click_target, ClickTarget, TagState, TagsInfo};
use i3bar_river::pointer_btn::PointerBtn;
use i3bar_river::config::OutputOverrides;

#[test]
fn click_mapping_first_region_wins() {
    // coordinates in tenths of a pixel
    let mut b = ButtonManager::new();
    b.push(0, 100, "a");
    b.push(100, 50, "b");
    assert_eq!(b.click(50), Some(&"a"));
    assert_eq!(b.click(100), Some(&"a"));
    assert_eq!(b.click(149), Some(&"b"));
    assert_eq!(b.click(200), None);
    assert_eq!(b.click(-1), None);
    b.clear();
    assert_eq!(b.click(50), None);
}

#[test]
fn is_between_regions() {
    let mut b = ButtonManager::new();
    b.push(0, 10, 1u32);
    b.push(20, 10, 2u32);
    assert!(b.is_between(15));
    assert!(!b.is_between(31));
    assert!(!b.is_between(-1));
}

#[test]
fn click_targets() {
    let mut tags = ButtonManager::new();
    tags.push(0, 10, 1u32);
    tags.push(20, 10, 2u32);
    let mut blocks = ButtonManager::new();
    blocks.push(50, 10, 7usize);
    assert_eq!(click_target(&tags, &blocks, 5), ClickTarget::Tag(1));
    assert_eq!(click_target(&tags, &blocks, 15), ClickTarget::TagsGap);
    assert_eq!(click_target(&tags, &blocks, 55), ClickTarget::Block(&7));
    assert_eq!(click_target(&tags, &blocks, 45), ClickTarget::Nothing);
}

#[test]
fn tag_states() {
    let info = TagsInfo { focused: 0b0010, urgent: 0b0110, active: 0b1001 };
    assert_eq!(info.get_state(0), TagState::Active);
    assert_eq!(info.get_state(1), TagState::Urgent);
    assert_eq!(info.get_state(2), TagState::Urgent);
    assert_eq!(info.get_state(3), TagState::Active);
    assert_eq!(info.get_state(4), TagState::Inactive);
    let info = TagsInfo { focused: 1 << 31, urgent: 0, active: 0 };
    assert_eq!(info.get_state(31), TagState::Focused);
}

#[test]
fn pointer_buttons() {
    assert_eq!(PointerBtn::from(0x110), PointerBtn::Left);
    assert_eq!(PointerBtn::from(0x111), PointerBtn::Right);
    assert_eq!(PointerBtn::from(0x112), PointerBtn::Middle);
    assert_eq!(PointerBtn::from(0x115), PointerBtn::Forward);
    assert_eq!(PointerBtn::from(0x116), PointerBtn::Back);
    assert_eq!(PointerBtn::from(0x113), PointerBtn::Unknown);
    assert_eq!(PointerBtn::WheelUp.protocol_code(), 4);
    assert_eq!(PointerBtn::WheelDown.protocol_code(), 5);
    assert_eq!(PointerBtn::Back.protocol_code(), 8);
    assert_eq!(PointerBtn::Forward.protocol_code(), 9);
    assert_eq!(PointerBtn::default().protocol_code(), 0);
}

#[test]
fn output_enabled_by_default() {
    assert!(OutputOverrides { enable: None }.enabled());
    assert!(!OutputOverrides { enable: Some(false) }.enabled());
}
