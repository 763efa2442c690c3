use i3bar_river::block::{Block, MinWidth};
use i3bar_river::blocks_cache::{BlocksCache, TextMeasurer};
use i3bar_river::button_manager::ButtonManager;
use i3bar_river::layout::{choose_short, render_blocks, Piece};

/// Ten pixels per byte; counts its calls.
struct Mono {
    calls: usize,
}

impl TextMeasurer for Mono {
    type Layout = String;

    fn measure(&mut self, text: &str, _markup: bool) -> (String, u32, u32) {
        self.calls += 1;
        (text.to_string(), 10 * text.len() as u32, 12)
    }
}

fn key(name: &str) -> (Option<String>, Option<String>) {
    (Some(name.to_string()), None)
}

fn block(full: &str, short: Option<&str>, name: Option<&str>) -> Block {
    let mut b = Block::with_text(full.to_string());
    b.short_text = short.map(|s| s.to_string());
    b.name = name.map(|s| s.to_string());
    b
}

#[test]
fn same_shape_update_measures_nothing() {
    let mut m = Mono { calls: 0 };
    let mut cache = BlocksCache::new();
    let make = || {
        let mut a = block("cpu 5%", Some("5%"), Some("cpu"));
        a.min_width = Some(MinWidth::Text("cpu 100%".to_string()));
        vec![a, block("12:00", None, Some("time"))]
    };
    cache.process_new_blocks(&mut m, make());
    assert_eq!(m.calls, 4);
    cache.process_new_blocks(&mut m, make());
    assert_eq!(m.calls, 4);
    let c = cache.get_computed();
    assert_eq!(c[0].min_width, Some(80));
    assert_eq!(c[0].full.width, 80);
    assert_eq!(c[0].full.text_width, 60);
    assert_eq!(c[1].full.width, 50);
    assert_eq!(c[0].full.source, "cpu 5%");
    assert_eq!(c[0].min_text.as_ref().map(|t| t.source.as_str()), Some("cpu 100%"));
}

#[test]
fn changed_text_is_measured_again() {
    let mut m = Mono { calls: 0 };
    let mut cache = BlocksCache::new();
    cache.process_new_blocks(&mut m, vec![block("12:00", Some("12"), None)]);
    assert_eq!(m.calls, 2);
    cache.process_new_blocks(&mut m, vec![block("12:01", Some("12"), None)]);
    assert_eq!(m.calls, 3);
    assert_eq!(cache.get_computed()[0].full.layout, "12:01");
    let mut b = block("12:01", Some("12"), None);
    b.markup = Some("pango".to_string());
    cache.process_new_blocks(&mut m, vec![b]);
    assert_eq!(m.calls, 5);
    cache.process_new_blocks(&mut m, vec![block("a", None, None), block("b", None, None)]);
    assert_eq!(m.calls, 7);
    assert_eq!(cache.get_computed().len(), 2);
}

#[test]
fn pixel_min_width_saturates() {
    let mut m = Mono { calls: 0 };
    let mut cache = BlocksCache::new();
    let mut b = block("a", None, None);
    b.min_width = Some(MinWidth::Pixels(u64::MAX));
    cache.process_new_blocks(&mut m, vec![b]);
    assert_eq!(cache.get_computed()[0].full.width, u32::MAX);
    assert_eq!(m.calls, 1);
}

fn texts_of(layout: &i3bar_river::layout::Layout) -> Vec<(usize, bool, i128, u32)> {
    layout
        .placed
        .iter()
        .filter_map(|p| match p.piece {
            Piece::Text { index, short, .. } => Some((index, short, p.x, p.width)),
            Piece::Gap { .. } => None,
        })
        .collect()
}

#[test]
fn everything_fits_in_full() {
    let mut m = Mono { calls: 0 };
    let mut cache = BlocksCache::new();
    cache.process_new_blocks(&mut m, vec![block("aaaa", Some("a"), Some("x")), block("bb", None, Some("y"))]);
    let mut buttons = ButtonManager::new();
    let l = render_blocks(cache.get_computed(), 0, 100, &mut buttons);
    // 40 + gap 9 + 20 = 69, right aligned at 100
    assert_eq!(texts_of(&l), vec![(0, false, 31, 40), (1, false, 80, 20)]);
    assert!(l.order.is_empty());
    assert_eq!(l.placed.len(), 3);
    assert!(matches!(l.placed[1].piece, Piece::Gap { width: 9, tick: true }));
    assert_eq!(l.placed[1].x, 71);
    assert_eq!(buttons.click(35), Some(&key("x")));
    assert_eq!(buttons.click(75), None);
    assert_eq!(buttons.click(99), Some(&key("y")));
}

#[test]
fn largest_saving_switches_first_and_stops_when_fitting() {
    let mut m = Mono { calls: 0 };
    let mut cache = BlocksCache::new();
    // savings: 30, 60, 10
    cache.process_new_blocks(
        &mut m,
        vec![
            block("aaaa", Some("a"), Some("a")),
            block("bbbbbbb", Some("b"), Some("b")),
            block("cc", Some("c"), Some("c")),
        ],
    );
    let mut buttons = ButtonManager::new();
    // full width 40 + 70 + 20 + 2 * 9 = 148; 100 available
    let l = render_blocks(cache.get_computed(), 0, 100, &mut buttons);
    assert_eq!(l.order, vec![1]);
    assert_eq!(l.short, vec![false, true, false]);
    let l = render_blocks(cache.get_computed(), 40, 100, &mut buttons);
    assert_eq!(l.order, vec![1, 0]);
    let l = render_blocks(cache.get_computed(), 90, 100, &mut buttons);
    assert_eq!(l.order, vec![1, 0, 2]);
    assert_eq!(l.short, vec![true, true, true]);
    // overflow is accepted: the pieces still end at the right edge
    let last = l.placed.last().unwrap();
    assert_eq!(last.x + last.width as i128, 100);
}

#[test]
fn greedy_choice_on_savings() {
    assert_eq!(choose_short(&vec![5, 0, 9, -3, 7], 10), vec![2, 4]);
    assert_eq!(choose_short(&vec![5, 0, 9, -3, 7], 0), Vec::<usize>::new());
    assert_eq!(choose_short(&vec![5, 0, 9, -3, 7], 100), vec![2, 4, 0]);
    assert_eq!(choose_short(&vec![4, 4, 4], 5), vec![0, 1]);
}

#[test]
fn empty_blocks_get_no_region_and_no_gap() {
    let mut m = Mono { calls: 0 };
    let mut cache = BlocksCache::new();
    cache.process_new_blocks(
        &mut m,
        vec![block("aa", None, Some("a")), block("", None, Some("e")), block("bb", None, Some("b"))],
    );
    let mut buttons = ButtonManager::new();
    let l = render_blocks(cache.get_computed(), 0, 100, &mut buttons);
    assert_eq!(l.series.len(), 3);
    assert_eq!(texts_of(&l), vec![(0, false, 51, 20), (2, false, 80, 20)]);
    let gaps = l.placed.iter().filter(|p| matches!(p.piece, Piece::Gap { .. })).count();
    assert_eq!(gaps, 1);
    assert_eq!(buttons.len(), 2);
    assert_eq!(buttons.click(75), None);
    assert_eq!(buttons.click(91), Some(&key("b")));
}

#[test]
fn same_name_blocks_form_one_series() {
    let mut m = Mono { calls: 0 };
    let mut cache = BlocksCache::new();
    let mut a = block("aa", None, Some("s"));
    a.separator_block_width = 0;
    let b = block("bb", None, Some("s"));
    let c = block("cc", None, Some("t"));
    cache.process_new_blocks(&mut m, vec![a, b, c]);
    let mut buttons = ButtonManager::new();
    let l = render_blocks(cache.get_computed(), 0, 200, &mut buttons);
    assert_eq!(l.series, vec![(0, 2), (2, 3)]);
    match (l.placed[0].piece, l.placed[1].piece) {
        (
            Piece::Text { round_left: true, round_right: false, .. },
            Piece::Text { round_left: false, round_right: true, .. },
        ) => {}
        other => panic!("unexpected pieces {:?}", other),
    }
}
