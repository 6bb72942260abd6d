use matrix::cell::{Cell, GLYPH_COUNT};
use matrix::color::Rgb;
use matrix::matrix::{FrameCell, Matrix};

#[test]
fn new_cell_is_age_zero_with_alphabet_glyph() {
    let mut rng = rand::thread_rng();
    for _ in 0..50 {
        let c = Cell::new(&mut rng);
        assert_eq!(c.age, 0);
        assert!(c.content < GLYPH_COUNT);
    }
}

#[test]
fn color_is_black_at_age_zero_and_brightens_with_age() {
    let m = Matrix::new(10, 5, 1, 20);
    assert_eq!(m.get_color(0), Rgb { r: 0, g: 0, b: 0 });
    assert_eq!(m.get_color(1), Rgb { r: 106, g: 106, b: 106 });
    assert_eq!(m.get_color(10), Rgb { r: 164, g: 164, b: 164 });
    assert_eq!(m.get_color(20), Rgb { r: 228, g: 228, b: 228 });
}

#[test]
fn render_emits_full_frame_with_blanks_for_empty() {
    let mut m = Matrix::new(6, 4, 1, 3);
    m.update();
    m.update();
    let frame = m.render();
    assert_eq!(frame.len(), 4);
    for y in 0..4 {
        assert_eq!(frame[y].len(), 3);
        for x in 0..3 {
            match (m.get(y, x), &frame[y][x]) {
                (None, FrameCell::Blank) => {}
                (Some(c), FrameCell::Glyph { content, color }) => {
                    assert_eq!(*content, c.content);
                    assert_eq!(color.r, color.g);
                    assert_eq!(color.g, color.b);
                }
                _ => panic!("frame does not match the grid"),
            }
        }
    }
}

#[test]
fn rendered_colors_match_age_formula() {
    let mut m = Matrix::new(4, 3, 1, 3);
    m.update();
    m.update();
    m.update();
    let frame = m.render();
    for y in 0..3 {
        for x in 0..2 {
            if let Some(c) = m.get(y, x) {
                let expected = match c.age {
                    0 => 0u8,
                    a => (100 + 128 * a as u32 / 3) as u8,
                };
                match &frame[y][x] {
                    FrameCell::Glyph { color, .. } => {
                        assert_eq!(color.r, expected);
                        assert_eq!(color.g, expected);
                        assert_eq!(color.b, expected);
                    }
                    FrameCell::Blank => panic!("occupied cell rendered blank"),
                }
            } else {
                assert!(matches!(frame[y][x], FrameCell::Blank));
            }
        }
    }
}
