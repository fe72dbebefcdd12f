use raytracer::arena::AtomicArena;
use raytracer::color::Color;
use raytracer::geom::Axis;
use raytracer::reader::CharReader;
use raytracer::render::{pixel_coords, pixel_index};
use raytracer::skybox::{cell_origin, cubemap_cell, Solid};

#[test]
fn color_constructors() {
    assert_eq!(Color::new(7, 8, 9), Color { r: 7, g: 8, b: 9 });
    assert_eq!(Color::white(), Color::new(255, 255, 255));
    assert_eq!(Color::black(), Color::new(0, 0, 0));
    assert_eq!(Color::red(), Color::new(255, 0, 0));
    assert_eq!(Color::green(), Color::new(0, 255, 0));
    assert_eq!(Color::blue(), Color::new(0, 0, 255));
}

#[test]
fn solid_skybox_returns_its_color() {
    let s = Solid(Color::red());
    assert_eq!(s.color(), Color::red());
}

#[test]
fn cubemap_cells_match_the_cross_layout() {
    assert_eq!(cubemap_cell(Axis::X, true), (0, 1));
    assert_eq!(cubemap_cell(Axis::X, false), (2, 1));
    assert_eq!(cubemap_cell(Axis::Y, true), (1, 0));
    assert_eq!(cubemap_cell(Axis::Y, false), (1, 2));
    assert_eq!(cubemap_cell(Axis::Z, true), (3, 1));
    assert_eq!(cubemap_cell(Axis::Z, false), (1, 1));
}

#[test]
fn cell_origin_scales_by_tile_side() {
    assert_eq!(cell_origin((3, 1), 16), (48, 16));
    assert_eq!(cell_origin((0, 2), 100), (0, 200));
}

#[test]
fn pixel_indexing_is_row_major() {
    assert_eq!(pixel_coords(0, 4), (0, 0));
    assert_eq!(pixel_coords(5, 4), (1, 1));
    assert_eq!(pixel_coords(11, 4), (3, 2));
    assert_eq!(pixel_index(1, 1, 4), 5);
    assert_eq!(pixel_index(3, 2, 4), 11);
    for i in 0..24usize {
        let (x, y) = pixel_coords(i, 6);
        assert_eq!(pixel_index(x, y, 6), i);
    }
}

#[test]
fn arena_pushes_and_gets() {
    let mut a: AtomicArena<u32> = AtomicArena::new(4);
    assert_eq!(a.len(), 0);
    assert_eq!(a.push(10), 0);
    assert_eq!(a.push(20), 1);
    assert_eq!(a.len(), 2);
    assert_eq!(a.get(0), Some(&10));
    assert_eq!(a.get(1), Some(&20));
    assert_eq!(a.get(2), None);
}

#[test]
fn char_reader_walks_bytes() {
    let mut r = CharReader::new(vec![0x61, 0x62, 0xe9]);
    assert_eq!(r.next(), Some('a'));
    assert_eq!(r.last, 'a');
    assert_eq!(r.next(), Some('b'));
    assert_eq!(r.next(), Some('\u{e9}'));
    assert_eq!(r.next(), None);
}

#[test]
fn char_reader_reads_all_remaining() {
    let mut r = CharReader::new(vec![0x68, 0x69, 0x21]);
    assert_eq!(r.next(), Some('h'));
    assert_eq!(r.read_all(), vec!['i', '!']);
    assert_eq!(r.next(), None);
}
