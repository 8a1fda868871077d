use simple_graph::graph::{Chart, GraphError, Point, Serie};

#[test]
fn not_enough_space_test() {
    let result = Chart::new(10, 15, "#ffffff", "#000000");
    assert_eq!(
        result.unwrap_err().to_string(),
        "There are not enough width and height to form graph with axis."
    );
}

#[test]
fn not_enough_points_test() {
    let v: Vec<Point> = vec![];
    let result = Serie::new(v, "#0000ff");
    assert_eq!(
        result.unwrap_err().to_string(),
        "There are not enough points to display on graph."
    );
}

#[test]
fn one_point_test() {
    let p = vec![Point::from((1, 1))];
    let result = Serie::new(p, "#0000ff");
    assert_eq!(
        result.unwrap_err().to_string(),
        "There are not enough points to display on graph."
    );
}

#[test]
fn two_identical_point_test() {
    let p = vec![Point::from((1, 1)), Point::from((1, 1))];
    let result = Serie::new(p, "#0000ff");
    assert_eq!(
        result.unwrap_err().to_string(),
        "There are only one unique point. Can't construct line."
    );
}

#[test]
fn can_create_array() {
    let p = vec![Point::from((1, 1)), Point::from((2, 2)), Point::from((3, 3))];
    let serie = Serie::new(p, "#0000ff").unwrap();
    let mut chart = Chart::new(100, 100, "#ffffff", "#000000").unwrap();
    let bmp = chart.create_bmp_vec(serie).unwrap();
    for p in bmp {
        println!("{}", p);
    }
}

#[test]
fn errors_are_told_apart() {
    assert_eq!(Serie::new(vec![], "#0000ff").unwrap_err(), GraphError::NotEnoughPoints);
    assert_eq!(
        Serie::new(vec![Point { x: 7, y: -2 }], "#0000ff").unwrap_err(),
        GraphError::NotEnoughPoints
    );
    assert_eq!(
        Serie::new(vec![Point { x: 7, y: -2 }; 5], "#0000ff").unwrap_err(),
        GraphError::NonUniquePoints
    );
    assert_eq!(
        Chart::new(23, 100, "#ffffff", "#000000").unwrap_err(),
        GraphError::NotEnoughSpace
    );
    assert_eq!(
        Chart::new(100, 23, "#ffffff", "#000000").unwrap_err(),
        GraphError::NotEnoughSpace
    );
    assert!(Chart::new(24, 24, "#ffffff", "#000000").is_ok());
}

#[test]
fn every_error_has_its_message() {
    assert_eq!(
        GraphError::NotEnoughPoints.description(),
        "There are not enough points to display on graph."
    );
    assert_eq!(
        GraphError::NotEnoughSpace.description(),
        "There are not enough width and height to form graph with axis."
    );
    assert_eq!(
        GraphError::NonUniquePoints.description(),
        "There are only one unique point. Can't construct line."
    );
    assert_eq!(
        GraphError::PaletteFull.to_string(),
        "There are no free places for a color in palette."
    );
}

#[test]
fn a_point_that_differs_late_is_enough() {
    let mut points = vec![Point { x: 4, y: 4 }; 10];
    points.push(Point { x: 4, y: 5 });
    let serie = Serie::new(points, "#0000ff").unwrap();
    assert_eq!(serie.points.len(), 11);
    assert_eq!((serie.min_x(), serie.max_x()), (4, 4));
    assert_eq!((serie.min_y(), serie.max_y()), (4, 5));
}

#[test]
fn bounds_enclose_every_point() {
    let points = vec![
        Point { x: 3, y: -7 },
        Point { x: -12, y: 40 },
        Point { x: 25, y: 0 },
        Point { x: 0, y: -8 },
        Point { x: i64::MAX, y: i64::MIN },
    ];
    let serie = Serie::new(points.clone(), "#123456").unwrap();
    assert_eq!(serie.min_x(), -12);
    assert_eq!(serie.max_x(), i64::MAX);
    assert_eq!(serie.min_y(), i64::MIN);
    assert_eq!(serie.max_y(), 40);
    assert_eq!(serie.color(), "#123456");
    assert_eq!(serie.points, points);
    for p in &points {
        assert!(serie.min_x() <= p.x && p.x <= serie.max_x());
        assert!(serie.min_y() <= p.y && p.y <= serie.max_y());
    }
}

#[test]
fn a_point_is_made_of_a_pair() {
    let p = Point::from((-3, 9));
    assert_eq!(p, Point { x: -3, y: 9 });
    let q: Point = (5, 6).into();
    assert_eq!((q.x, q.y), (5, 6));
    let pairs = [(1, 2), (3, -4)];
    let points: Vec<Point> = pairs.iter().map(Point::from).collect();
    assert_eq!(points, vec![Point { x: 1, y: 2 }, Point { x: 3, y: -4 }]);
}
