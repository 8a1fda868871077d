use simple_graph::bitmap::HEADER_SIZE;
use simple_graph::canvas::paint_points;
use simple_graph::graph::{Chart, DisplayPoint, GraphError, Point, Serie};
use simple_graph::Axis;

fn at(x: usize, y: usize) -> DisplayPoint {
    DisplayPoint { x, y }
}

fn diagonal() -> Vec<Point> {
    vec![Point { x: 1, y: 1 }, Point { x: 2, y: 2 }, Point { x: 3, y: 3 }]
}

#[test]
fn a_new_chart_is_all_background() {
    let chart = Chart::new(30, 24, "#ffffff", "#000000").unwrap();
    assert_eq!(chart.width(), 30);
    assert_eq!(chart.height(), 24);
    for y in 0..24 {
        for x in 0..30 {
            assert_eq!(chart.pixel(x, y), 0);
        }
    }
}

#[test]
fn a_chart_keeps_its_colors_and_axes() {
    let mut chart = Chart::new(100, 60, "#ffffff", "#000000").unwrap();
    assert_eq!(chart.background_color(), 0);
    assert_eq!(chart.axis_color(), 1);
    assert_eq!(chart.axis_x(), None);
    assert_eq!(chart.axis_y(), None);
    let points = vec![Point { x: 0, y: 7 }, Point { x: 30, y: 7 }];
    chart.create_bmp_vec(Serie::new(points, "#ff0000").unwrap()).unwrap();
    assert_eq!(chart.axis_x(), Some(Axis::calculate_axis(30, 0, 100)));
    assert_eq!(chart.axis_y(), Some(Axis::calculate_axis(8, 7, 60).rotate()));
    assert_eq!(chart.background_color(), 0);
    assert_eq!(chart.axis_color(), 1);

    let same = Chart::new(100, 60, "#abcdef", "#ABCDEF").unwrap();
    assert_eq!(same.background_color(), 0);
    assert_eq!(same.axis_color(), 0);
}

#[test]
fn points_are_painted_row_by_row() {
    let mut pixels = vec![0u8; 12];
    paint_points(&mut pixels, 4, 3, &vec![at(1, 0), at(3, 2), at(0, 1), at(1, 0)], 7);
    assert_eq!(pixels, vec![0, 7, 0, 0, 7, 0, 0, 0, 0, 0, 0, 7]);
    paint_points(&mut pixels, 4, 3, &vec![], 9);
    assert_eq!(pixels, vec![0, 7, 0, 0, 7, 0, 0, 0, 0, 0, 0, 7]);
    paint_points(&mut pixels, 4, 3, &vec![at(3, 2), at(2, 2)], 1);
    assert_eq!(pixels, vec![0, 7, 0, 0, 7, 0, 0, 0, 0, 0, 1, 1]);
}

#[test]
fn painting_again_changes_nothing() {
    let mut chart = Chart::new(24, 24, "#ffffff", "#000000").unwrap();
    let points = vec![at(0, 0), at(23, 23), at(5, 6), at(5, 6)];
    chart.draw_pixels(points.clone(), 1);
    let once: Vec<u8> = (0..24 * 24).map(|i| chart.pixel(i % 24, i / 24)).collect();
    chart.draw_pixels(points, 1);
    let twice: Vec<u8> = (0..24 * 24).map(|i| chart.pixel(i % 24, i / 24)).collect();
    assert_eq!(once, twice);
    assert_eq!(once.iter().filter(|c| **c == 1).count(), 3);
    assert_eq!(chart.pixel(5, 6), 1);
    assert_eq!(chart.pixel(6, 5), 0);
}

#[test]
fn the_grid_is_dashed_through_every_tick() {
    let chart = Chart::new(24, 26, "#ffffff", "#000000").unwrap();
    let axis_x = Axis::calculate_axis(2, 0, 24);
    let axis_y = Axis::calculate_axis(1, 0, 26).rotate();
    let net = chart.get_minor_net(&axis_x, &axis_y);
    let mut expected: Vec<DisplayPoint> = Vec::new();
    for column in [10, 15] {
        for row in [11, 13, 15, 17, 19, 21] {
            expected.push(at(column, row));
        }
    }
    for column in [11, 13, 15, 17, 19] {
        expected.push(at(column, 10));
    }
    assert_eq!(net, expected);
}

#[test]
fn a_series_is_drawn_end_to_end() {
    let serie = Serie::new(diagonal(), "#0000ff").unwrap();
    let mut chart = Chart::new(100, 100, "#ffffff", "#000000").unwrap();
    let bmp = chart.create_bmp_vec(serie).unwrap();
    assert_eq!(bmp.len(), HEADER_SIZE + 100 * 100);
    assert_eq!(&bmp[0..2], b"BM");
    let pixels = &bmp[HEADER_SIZE..];
    assert!(pixels.iter().all(|index| *index < 3));
    assert_eq!(&bmp[54..66], &[0xff, 0xff, 0xff, 0, 0, 0, 0, 0, 0xff, 0, 0, 0]);
    let pixel = |x: usize, y: usize| pixels[y * 100 + x];

    // the line
    for k in 10..=96 {
        assert_eq!(pixel(k, k), 2);
    }
    assert_eq!(pixel(97, 97), 0);
    assert_eq!(pixel(9, 9), 0);
    // the two axes
    for k in 11..100 {
        assert_eq!(pixel(k, 10), 1);
        assert_eq!(pixel(10, k), 1);
    }
    // arrowheads
    for (along, across) in [(98, 9), (98, 11), (97, 8), (97, 12), (96, 7), (96, 13)] {
        assert_eq!(pixel(along, across), 1);
        assert_eq!(pixel(across, along), 1);
    }
    assert_eq!(pixel(95, 6), 0);
    assert_eq!(pixel(99, 9), 0);
    // tick marks
    assert_eq!(pixel(10, 9), 1);
    assert_eq!(pixel(53, 9), 1);
    assert_eq!(pixel(9, 10), 1);
    assert_eq!(pixel(9, 53), 1);
    assert_eq!(pixel(96, 9), 0);
    // the grid
    assert_eq!(pixel(53, 11), 1);
    assert_eq!(pixel(53, 12), 0);
    assert_eq!(pixel(53, 95), 1);
    assert_eq!(pixel(53, 97), 0);
    assert_eq!(pixel(11, 53), 1);
    assert_eq!(pixel(12, 53), 0);
    assert_eq!(pixel(95, 53), 1);
    assert_eq!(pixel(97, 53), 0);
    // the rest
    assert_eq!(pixel(0, 0), 0);
    assert_eq!(pixel(99, 99), 0);
    assert_eq!(pixel(30, 60), 0);

    assert_eq!(pixels.iter().filter(|index| **index == 2).count(), 87);
    for y in 0..100 {
        for x in 0..100 {
            assert_eq!(chart.pixel(x, y), pixel(x, y));
        }
    }
}

#[test]
fn drawing_is_repeatable() {
    let mut first = Chart::new(100, 100, "#ffffff", "#000000").unwrap();
    let mut second = Chart::new(100, 100, "#ffffff", "#000000").unwrap();
    let a = first.create_bmp_vec(Serie::new(diagonal(), "#0000ff").unwrap()).unwrap();
    let b = second.create_bmp_vec(Serie::new(diagonal(), "#0000ff").unwrap()).unwrap();
    assert_eq!(a, b);
    let again = first.create_bmp_vec(Serie::new(diagonal(), "#0000ff").unwrap()).unwrap();
    assert_eq!(a, again);
}

#[test]
fn a_series_in_the_axis_color_shares_its_index() {
    let serie = Serie::new(diagonal(), "#000000").unwrap();
    let mut chart = Chart::new(100, 100, "#ffffff", "#000000").unwrap();
    let bmp = chart.create_bmp_vec(serie).unwrap();
    assert!(bmp[HEADER_SIZE..].iter().all(|index| *index < 2));
    assert_eq!(bmp[HEADER_SIZE + 50 * 100 + 50], 1);
}

#[test]
fn a_flat_series_lies_on_the_first_row_of_the_plot_area() {
    let serie = Serie::new(vec![Point { x: 1, y: 8 }, Point { x: 5, y: 8 }], "#ff0000").unwrap();
    let mut chart = Chart::new(40, 30, "#ffffff", "#000000").unwrap();
    chart.draw_axes(&serie);
    let points = chart.serie_to_points(&serie);
    assert_eq!(points, vec![at(10, 10), at(36, 10)]);
    let bmp = chart.create_bmp_vec(serie).unwrap();
    let pixels = &bmp[HEADER_SIZE..];
    for x in 10..=36 {
        assert_eq!(pixels[10 * 40 + x], 2);
    }
    assert_eq!(pixels[10 * 40 + 37], 1);
    assert_eq!(pixels.iter().filter(|index| **index == 2).count(), 27);
}

#[test]
fn a_flat_series_at_the_end_of_the_numbers_is_drawn() {
    let points = vec![Point { x: i64::MAX, y: i64::MIN }, Point { x: i64::MAX, y: i64::MAX }];
    let serie = Serie::new(points, "#ff0000").unwrap();
    let mut chart = Chart::new(24, 24, "#ffffff", "#000000").unwrap();
    chart.draw_axes(&serie);
    assert_eq!(chart.serie_to_points(&serie), vec![at(20, 10), at(20, 20)]);
    assert!(chart.create_bmp_vec(serie).is_ok());
}

#[test]
fn points_are_mapped_in_proportion() {
    let points = vec![
        Point { x: 0, y: -50 },
        Point { x: 10, y: 50 },
        Point { x: 5, y: 0 },
        Point { x: 1, y: -49 },
    ];
    let serie = Serie::new(points, "#ff0000").unwrap();
    let mut chart = Chart::new(100, 50, "#ffffff", "#000000").unwrap();
    chart.draw_axes(&serie);
    let mapped = chart.serie_to_points(&serie);
    assert_eq!(mapped, vec![at(10, 10), at(96, 46), at(53, 28), at(19, 10)]);
}

#[test]
fn a_palette_without_a_free_place_refuses_the_series() {
    let mut chart = Chart::new(24, 24, "#000000", "#000001").unwrap();
    for i in 2..256 {
        let color = format!("#{:06x}", i);
        let serie = Serie::new(diagonal(), &color).unwrap();
        let bmp = chart.create_bmp_vec(serie).unwrap();
        assert_eq!(bmp[HEADER_SIZE + 10 * 24 + 10], i as u8);
    }
    let before: Vec<u8> = (0..24 * 24).map(|i| chart.pixel(i % 24, i / 24)).collect();
    let serie = Serie::new(diagonal(), "#ffffff").unwrap();
    assert_eq!(chart.create_bmp_vec(serie).unwrap_err(), GraphError::PaletteFull);
    let after: Vec<u8> = (0..24 * 24).map(|i| chart.pixel(i % 24, i / 24)).collect();
    assert_eq!(before, after);
    let serie = Serie::new(diagonal(), "#000007").unwrap();
    let bmp = chart.create_bmp_vec(serie).unwrap();
    assert_eq!(bmp[HEADER_SIZE + 10 * 24 + 10], 7);
}

#[test]
fn the_smallest_chart_is_drawn() {
    let serie = Serie::new(vec![Point { x: -3, y: 9 }, Point { x: 4, y: -9 }], "#00ff00").unwrap();
    let mut chart = Chart::new(24, 24, "#ffffff", "#000000").unwrap();
    let bmp = chart.create_bmp_vec(serie).unwrap();
    assert_eq!(bmp.len(), HEADER_SIZE + 24 * 24);
    let pixels = &bmp[HEADER_SIZE..];
    assert_eq!(pixels[20 * 24 + 10], 2);
    assert_eq!(pixels[10 * 24 + 20], 2);
    assert_eq!(pixels[15 * 24 + 15], 2);
    assert_eq!(pixels.iter().filter(|index| **index == 2).count(), 11);
}

#[test]
fn a_chart_of_measurements_is_drawn() {
    let measurements = [
        (1000, -74756),
        (2000, -75271),
        (3000, -75674),
        (4000, -74405),
        (5000, -74809),
        (6000, -75324),
        (7000, -75727),
        (8000, -74458),
        (9000, -74862),
        (10000, -75592),
    ];
    let points: Vec<Point> = measurements.iter().map(Point::from).collect();
    let serie = Serie::new(points, "#0000ff").unwrap();
    assert_eq!((serie.min_x(), serie.max_x()), (1000, 10000));
    assert_eq!((serie.min_y(), serie.max_y()), (-75727, -74405));
    let mut chart = Chart::new(740, 480, "#ffffff", "#000000").unwrap();
    let bmp = chart.create_bmp_vec(serie).unwrap();
    assert_eq!(bmp.len(), HEADER_SIZE + 740 * 480);
    let axis_x = chart.axis_x().unwrap();
    let axis_y = chart.axis_y().unwrap();
    assert_eq!((axis_x.tick_interval, axis_x.tick_count), (1000, 9));
    assert_eq!((axis_y.tick_interval, axis_y.tick_count), (200, 7));
    let pixels = &bmp[HEADER_SIZE..];
    for (x, y) in measurements {
        let column = axis_x.pixel(x);
        let row = axis_y.pixel(y);
        assert!(10 <= column && column <= 736);
        assert!(10 <= row && row <= 476);
        assert_eq!(pixels[row * 740 + column], 2);
    }
    assert_eq!(axis_x.pixel(4000), 10 + 242);
    assert_eq!(axis_y.pixel(-74405), 476);
    assert_eq!(pixels[476 * 740 + 252], 2);
    assert_eq!(pixels[478 * 740 + 252], 0);
    assert_eq!(pixels[0], 0);
}
