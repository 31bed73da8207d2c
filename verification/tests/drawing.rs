use dreamer::canvas::{Brush, Layer, Picture};
use dreamer::layout::{deinterleave, to_planes};
use dreamer::raster::{draw_circle, draw_line, LineWalk};

fn lit(buf: &[u8], w: usize) -> Vec<(usize, usize)> {
    let mut out = Vec::new();
    for y in 0..w {
        for x in 0..w {
            if buf[(y * w + x) * 3] != 0 {
                out.push((x, y));
            }
        }
    }
    out
}

fn walk(x0: i32, y0: i32, x1: i32, y1: i32, ties_up: bool) -> Vec<(i32, i32)> {
    let mut walk = LineWalk::new(x0, y0, x1, y1, ties_up);
    let mut out = vec![walk.position()];
    while walk.position() != (x1, y1) {
        walk.step();
        out.push(walk.position());
    }
    out
}

#[test]
fn lines_break_ties_either_way() {
    assert_eq!(walk(1, 1, 5, 3, true), vec![(1, 1), (2, 2), (3, 2), (4, 3), (5, 3)]);
    assert_eq!(walk(1, 1, 5, 3, false), vec![(1, 1), (2, 1), (3, 2), (4, 2), (5, 3)]);
    assert_eq!(walk(6, 2, 3, 7, true), vec![(6, 2), (5, 3), (5, 4), (4, 5), (4, 6), (3, 7)]);
    assert_eq!(walk(2, 2, 2, 2, true), vec![(2, 2)]);
}

#[test]
fn thin_line_lights_its_pixels() {
    let mut buf = vec![0u8; 3 * 8 * 8];
    draw_line(&mut buf, 8, 8, 1, 1, 5, 3, 0, (9, 8, 7));
    assert_eq!(lit(&buf, 8), vec![(1, 1), (2, 2), (3, 2), (4, 3), (5, 3)]);
    assert_eq!(&buf[(8 + 1) * 3..(8 + 1) * 3 + 3], &[9, 8, 7]);
}

#[test]
fn thick_line_is_cut_at_the_edge() {
    let mut buf = vec![0u8; 3 * 4 * 4];
    draw_line(&mut buf, 4, 4, -1, 0, 0, 0, 1, (1, 1, 1));
    assert_eq!(lit(&buf, 4), vec![(0, 0), (1, 0), (0, 1), (1, 1)]);
}

#[test]
fn negative_width_draws_nothing() {
    let mut buf = vec![0u8; 3 * 4 * 4];
    draw_line(&mut buf, 4, 4, 0, 0, 3, 3, -1, (1, 1, 1));
    assert_eq!(lit(&buf, 4), vec![]);
}

#[test]
fn circle_of_radius_two() {
    let mut buf = vec![0u8; 3 * 7 * 7];
    draw_circle(&mut buf, 7, 7, 3, 3, 2, (5, 5, 5));
    let expected = vec![
        (3, 1),
        (2, 2), (3, 2), (4, 2),
        (1, 3), (2, 3), (3, 3), (4, 3), (5, 3),
        (2, 4), (3, 4), (4, 4),
        (3, 5),
    ];
    assert_eq!(lit(&buf, 7), expected);
}

#[test]
fn circle_beyond_the_corner_is_cut() {
    let mut buf = vec![0u8; 3 * 4 * 4];
    draw_circle(&mut buf, 4, 4, -1, -1, 2, (5, 5, 5));
    assert_eq!(lit(&buf, 4), vec![(0, 0)]);
}

#[test]
fn planes_come_one_after_the_other() {
    assert_eq!(to_planes(&[(1, 2, 3), (4, 5, 6)]), vec![1, 4, 2, 5, 3, 6]);
    assert_eq!(deinterleave(&[1, 2, 3, 4, 5, 6], 2), vec![1, 4, 2, 5, 3, 6]);
    assert_eq!(to_planes(&[]), Vec::<u8>::new());
}

#[test]
fn fresh_picture_is_black() {
    let picture = Picture::new(3, 2);
    assert_eq!((picture.width(), picture.height()), (3, 2));
    for y in 0..2 {
        for x in 0..3 {
            assert_eq!(picture.get(x, y), (0, 0, 0));
        }
    }
}

#[test]
fn put_changes_one_pixel() {
    let mut picture = Picture::new(3, 2);
    picture.put(2, 1, (7, 8, 9));
    assert_eq!(picture.get(2, 1), (7, 8, 9));
    assert_eq!(picture.get(1, 1), (0, 0, 0));
    assert_eq!(picture.get(2, 0), (0, 0, 0));
    assert_eq!(
        picture.to_planes(),
        vec![0, 0, 0, 0, 0, 7, 0, 0, 0, 0, 0, 8, 0, 0, 0, 0, 0, 9]
    );
}

#[test]
fn planes_round_trip() {
    let data: Vec<u8> = (0..18).collect();
    let picture = Picture::from_planes(&data, 3, 2);
    assert_eq!(picture.get(0, 0), (0, 6, 12));
    assert_eq!(picture.get(2, 1), (5, 11, 17));
    assert_eq!(picture.to_planes(), data);
}

#[test]
fn layers_are_painted_in_turn() {
    let mut picture = Picture::new(5, 5);
    let rows = vec![(10, 10, 10); 5];
    picture.fill_rows(&rows);
    let dark: Vec<u8> = (0..256).map(|v| (v / 2) as u8).collect();
    picture.paint_all(&[
        Layer::Rect { x0: -3, y0: 1, x1: 1, y1: 1, color: (50, 60, 70) },
        Layer::Disc { cx: 2, cy: 2, r: 1, brush: Brush::Raise((20, 5, 30)) },
        Layer::Disc { cx: 1, cy: 1, r: 0, brush: Brush::Shadow(dark) },
        Layer::Disc {
            cx: 4,
            cy: 4,
            r: 1,
            brush: Brush::Shaded(vec![(1, 1, 1), (2, 2, 2)]),
        },
        Layer::Disc { cx: 9, cy: 9, r: 2, brush: Brush::Solid((255, 0, 0)) },
    ]);
    assert_eq!(picture.get(0, 1), (50, 60, 70));
    assert_eq!(picture.get(1, 1), (25, 25, 70));
    assert_eq!(picture.get(2, 1), (20, 10, 30));
    assert_eq!(picture.get(2, 2), (20, 10, 30));
    assert_eq!(picture.get(4, 4), (1, 1, 1));
    assert_eq!(picture.get(3, 4), (2, 2, 2));
    assert_eq!(picture.get(3, 3), (10, 10, 10));
}

#[test]
fn stacked_lists_paint_like_one() {
    let layers = |c: u8| Layer::Disc { cx: 1, cy: 1, r: 1, brush: Brush::Raise((c, c, c)) };
    let mut once = Picture::new(3, 3);
    once.paint_all(&[layers(4), layers(9), layers(2)]);
    let mut twice = Picture::new(3, 3);
    twice.paint_all(&[layers(4)]);
    twice.paint_all(&[layers(9), layers(2)]);
    assert_eq!(once.to_planes(), twice.to_planes());
    assert_eq!(once.get(1, 1), (9, 9, 9));
}
