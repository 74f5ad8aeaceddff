use mwgc::color_map::{BlockRange, Color, ColorMap};
use mwgc::memory::Memory;

#[test]
fn color_map_init() {
    let data: Vec<u8> = vec![0; 4];
    let map = ColorMap::new(Memory::new(data));
    assert_eq!(map.dump(), "ColorMap(CCCCCCCCCCCCCCCC)");
}

#[test]
fn color_map_set_and_get_ranges() {
    let data: Vec<u8> = vec![0; 4];
    let mut map = ColorMap::new(Memory::new(data));
    map.set_range(BlockRange { start: 0, end: 2, color: Color::Green });
    assert_eq!(map.dump(), "ColorMap(G.CCCCCCCCCCCCCC)");
    assert_eq!(map.get_range(0), BlockRange { start: 0, end: 2, color: Color::Green });

    map.set_range(BlockRange { start: 2, end: 3, color: Color::Blue });
    assert_eq!(map.get_range(2), BlockRange { start: 2, end: 3, color: Color::Blue });
    assert_eq!(map.get_range(0), BlockRange { start: 0, end: 2, color: Color::Green });
    assert_eq!(map.dump(), "ColorMap(G.BCCCCCCCCCCCCC)");
}

#[test]
fn color_map_get_and_set_each_slot() {
    let mut map = ColorMap::new(Memory::new(vec![0; 2]));
    assert_eq!(map.len(), 8);
    let colors = [Color::Blue, Color::Green, Color::Continue, Color::Check];
    for n in 0..8 {
        map.set(n, colors[n % 4]);
    }
    for n in 0..8 {
        assert_eq!(map.get(n), colors[n % 4]);
    }
    map.set(5, Color::Blue);
    assert_eq!(map.dump(), "ColorMap(BG.CBB.C)");
}

#[test]
fn color_map_get_range_walks_back_to_the_start_of_the_run() {
    let mut map = ColorMap::new(Memory::new(vec![0; 2]));
    map.set_range(BlockRange { start: 1, end: 5, color: Color::Blue });
    assert_eq!(map.get_range(3), BlockRange { start: 1, end: 5, color: Color::Blue });
    assert_eq!(map.get_range(4), BlockRange { start: 1, end: 5, color: Color::Blue });
    assert_eq!(map.get_range(5), BlockRange { start: 5, end: 6, color: Color::Check });
}

#[test]
fn color_map_run_stops_at_the_end_of_the_map() {
    let mut map = ColorMap::new(Memory::new(vec![0; 1]));
    map.set_range(BlockRange { start: 2, end: 4, color: Color::Green });
    assert_eq!(map.get_range(3), BlockRange { start: 2, end: 4, color: Color::Green });
}

#[test]
fn color_map_free_range_marks_every_block() {
    let mut map = ColorMap::new(Memory::new(vec![0; 1]));
    map.set_range(BlockRange { start: 0, end: 4, color: Color::Blue });
    assert_eq!(map.dump(), "ColorMap(B...)");
    map.free_range(BlockRange { start: 1, end: 3, color: Color::Check });
    assert_eq!(map.dump(), "ColorMap(BCC.)");
    assert_eq!(map.get_range(0), BlockRange { start: 0, end: 1, color: Color::Blue });
}

#[test]
fn color_bits_and_opposites() {
    assert_eq!(Color::from_bits(0), Color::Continue);
    assert_eq!(Color::from_bits(1), Color::Blue);
    assert_eq!(Color::from_bits(2), Color::Green);
    assert_eq!(Color::from_bits(3), Color::Check);
    assert_eq!(Color::Green.bits(), 2);
    assert_eq!(Color::Blue.opposite(), Color::Green);
    assert_eq!(Color::Green.opposite(), Color::Blue);
    assert_eq!(Color::Check.opposite(), Color::Check);
    assert_eq!(Color::Continue.opposite(), Color::Continue);
}
