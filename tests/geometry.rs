use roguemap::circle::Circle;
use roguemap::dir::Dir;
use roguemap::line::Line;
use roguemap::point::Point;

fn pairs(v: &[Point]) -> Vec<(i32, i32)> {
    v.iter().map(|p| (p.x, p.y)).collect()
}

#[test]
fn point_arithmetic_returns_new_values() {
    let a = Point::new(3, -2);
    let b = Point::new(-5, 7);
    assert_eq!(a.add(&b), Point::new(-2, 5));
    assert_eq!(a.sub(&b), Point::new(8, -9));
    assert_eq!(a, Point::new(3, -2));
    let mut c = Point::new(0, 0);
    c.copy_from(&b);
    assert_eq!(c, b);
    c.set(1, 1);
    assert_eq!((c.x, c.y), (1, 1));
}

#[test]
fn from_num_maps_ring_positions() {
    assert_eq!(Dir::from_num(0), Some(Dir::Left));
    assert_eq!(Dir::from_num(1), Some(Dir::Down));
    assert_eq!(Dir::from_num(2), Some(Dir::Right));
    assert_eq!(Dir::from_num(3), Some(Dir::Up));
    assert_eq!(Dir::from_num(4), None);
    assert_eq!(Dir::from_num(-1), None);
}

#[test]
fn next_and_prev_walk_the_ring() {
    assert_eq!(Dir::Left.next(), Dir::Down);
    assert_eq!(Dir::Down.next(), Dir::Right);
    assert_eq!(Dir::Right.next(), Dir::Up);
    assert_eq!(Dir::Up.next(), Dir::Left);
    for d in [Dir::Left, Dir::Right, Dir::Up, Dir::Down] {
        assert_eq!(d.next().prev(), d);
        assert_eq!(d.prev().next(), d);
    }
}

#[test]
fn direction_vectors_and_degrees() {
    assert_eq!(Dir::Left.xy(), (-1, 0));
    assert_eq!(Dir::Right.xy(), (1, 0));
    assert_eq!(Dir::Up.xy(), (0, -1));
    assert_eq!(Dir::Down.xy(), (0, 1));
    assert_eq!(Dir::Up.vector(), Point::new(0, -1));
    assert_eq!(Dir::Left.deg(), 0);
    assert_eq!(Dir::Up.deg(), 90);
    assert_eq!(Dir::Right.deg(), 180);
    assert_eq!(Dir::Down.deg(), 270);
}

#[test]
fn line_from_origin_to_five_three() {
    let cells = Line::new(Point::new(0, 0), Point::new(5, 3)).to_grid();
    assert_eq!(cells[0], Point::new(0, 0));
    assert_eq!(*cells.last().unwrap(), Point::new(5, 3));
    assert!(cells.len() >= 6);
    assert_eq!(
        pairs(&cells),
        vec![(0, 0), (1, 0), (1, 1), (2, 1), (3, 2), (4, 2), (4, 3), (5, 3)]
    );
}

#[test]
fn line_is_eight_connected_for_many_endpoints() {
    for fx in -4..=4 {
        for fy in -4..=4 {
            for tx in -4..=4 {
                for ty in -4..=4 {
                    let from = Point::new(fx, fy);
                    let to = Point::new(tx, ty);
                    let cells = Line::new(from, to).to_grid();
                    assert_eq!(cells[0], from);
                    assert_eq!(*cells.last().unwrap(), to);
                    let span = (tx - fx).abs().max((ty - fy).abs()) as usize;
                    assert!(cells.len() >= span + 1);
                    for w in cells.windows(2) {
                        assert!((w[1].x - w[0].x).abs() <= 1 && (w[1].y - w[0].y).abs() <= 1);
                        assert_ne!(w[0], w[1]);
                    }
                }
            }
        }
    }
}

#[test]
fn diagonal_line_steps_both_axes_at_once() {
    let cells = Line::new(Point::new(0, 0), Point::new(3, 3)).to_grid();
    assert_eq!(pairs(&cells), vec![(0, 0), (1, 1), (2, 2), (3, 3)]);
}

#[test]
fn line_walks_towards_negative_end() {
    let cells = Line::new(Point::new(2, 2), Point::new(-1, 0)).to_grid();
    assert_eq!(pairs(&cells), vec![(2, 2), (1, 2), (1, 1), (0, 1), (0, 0), (-1, 0)]);
}

#[test]
fn zero_length_line_is_one_point() {
    let cells = Line::new(Point::new(7, -3), Point::new(7, -3)).to_grid();
    assert_eq!(pairs(&cells), vec![(7, -3)]);
}

#[test]
fn circle_border_radius_five() {
    let c = Circle::new(Point::new(10, 10), 50);
    let border = c.grid_border();
    assert_eq!(border.len(), 28);
    for (i, p) in border.iter().enumerate() {
        let dx = (p.x - 10) as f64;
        let dy = (p.y - 10) as f64;
        let dist = (dx * dx + dy * dy).sqrt();
        assert!((dist - 5.0).abs() < 1.5);
        for q in &border[i + 1..] {
            assert_ne!(p, q);
        }
    }
    assert!(border.contains(&Point::new(15, 10)));
    assert!(border.contains(&Point::new(10, 5)));
    assert!(border.contains(&Point::new(14, 13)));
    assert!(border.contains(&Point::new(6, 7)));
}

#[test]
fn circle_border_half_tile_radius() {
    let border = Circle::new(Point::new(0, 0), 95).grid_border();
    assert_eq!(border.len(), 52);
    for p in &border {
        let d = ((p.x * p.x + p.y * p.y) as f64).sqrt();
        assert!(d <= 9.5 && d > 8.5);
    }
}

#[test]
fn degenerate_circle_is_its_center() {
    assert_eq!(pairs(&Circle::new(Point::new(3, 4), 0).grid_border()), vec![(3, 4)]);
    assert_eq!(pairs(&Circle::new(Point::new(3, 4), 5).grid_border()), vec![(3, 4)]);
    assert_eq!(pairs(&Circle::new(Point::new(3, 4), 0).grid_fill()), vec![(3, 4)]);
}

#[test]
fn circle_fill_covers_the_disc() {
    let fill = Circle::new(Point::new(10, 10), 50).grid_fill();
    assert_eq!(fill.len(), 81);
    for y in 0..=20 {
        for x in 0..=20 {
            let inside = (x - 10) * (x - 10) + (y - 10) * (y - 10) <= 25;
            assert_eq!(fill.contains(&Point::new(x, y)), inside);
        }
    }
    assert_eq!(fill[0], Point::new(10, 5));
}

#[test]
fn die_rolls_map_to_directions() {
    assert_eq!(Dir::from_roll(0), Dir::Left);
    assert_eq!(Dir::from_roll(1), Dir::Right);
    assert_eq!(Dir::from_roll(2), Dir::Up);
    assert_eq!(Dir::from_roll(3), Dir::Down);
}
