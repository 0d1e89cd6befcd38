use bounding_boxes::boxes::find_boxes;
use bounding_boxes::boxes::convert_lines_to_matrix;
use bounding_boxes::boxes::search_adjacent_points;
use bounding_boxes::boxes::get_non_overlap_boxes;
use bounding_boxes::boxes::BoundingBox;
use bounding_boxes::boxes::Point;

#[test]
fn test_convert_lines_to_matrix1() {
    let input = vec![
        String::from("----"),
        String::from("-**-"),
        String::from("-**-"),
        String::from("----"),
    ];
    let expected1 = vec![
        vec!['-', '-', '-', '-'],
        vec!['-', '*', '*', '-'],
        vec!['-', '*', '*', '-'],
        vec!['-', '-', '-', '-'],
    ];
    assert_eq!(convert_lines_to_matrix(&input), expected1);
}

#[test]
fn test_convert_lines_to_matrix2() {
    let input = vec![String::from("-")];
    let expected1 = vec![vec!['-']];
    assert_eq!(convert_lines_to_matrix(&input), expected1);
}

#[test]
fn test_search_for_adjacent_points() {
    let mut points: Vec<Point> = vec![];
    let row: usize = 1;
    let col: usize = 1;
    let mut matrix = vec![
        vec!['*', '-', '-', '*'],
        vec!['-', '*', '*', '-'],
        vec!['-', '*', '*', '-'],
        vec!['*', '-', '-', '-'],
    ];
    search_adjacent_points(&mut points, row, col, &mut matrix);
    points.sort_by(|a, b| (a.row, a.col).cmp(&(b.row, b.col)));
    let expected = vec![
        Point::new(1, 1),
        Point::new(1, 2),
        Point::new(2, 1),
        Point::new(2, 2),
    ];
    assert_eq!(points, expected);
}

#[test]
fn test_build_bounding_box_from_points() {
    let points1 = vec![
        Point::new(1, 1),
        Point::new(1, 2),
        Point::new(2, 1),
        Point::new(1, 1),
    ];
    let bounding_box = BoundingBox::new_with_points(points1);

    assert_eq!(bounding_box.min_left_point, Point::new(1, 1));
    assert_eq!(bounding_box.max_right_point, Point::new(2, 2));
    assert_eq!(bounding_box.left, 1);
    assert_eq!(bounding_box.top, 2);
    assert_eq!(bounding_box.right, 2);
    assert_eq!(bounding_box.bottom, 1);
    assert_eq!(bounding_box.size, 4);
}

#[test]
fn test_get_non_overlap_boxes() {
    let points1 = vec![Point::new(0, 0), Point::new(0, 1), Point::new(1, 1)];
    let bounding_box1 = BoundingBox::new_with_points(points1);

    let points2 = vec![
        Point::new(1, 4),
        Point::new(1, 5),
        Point::new(2, 5),
        Point::new(2, 6),
        Point::new(2, 7),
        Point::new(3, 7),
        Point::new(3, 8),
        Point::new(3, 9),
    ];
    let bounding_box2 = BoundingBox::new_with_points(points2);

    let points3 = vec![
        Point::new(0, 9),
        Point::new(0, 10),
        Point::new(0, 11),
        Point::new(1, 8),
        Point::new(1, 9),
        Point::new(1, 10),
        Point::new(2, 10),
        Point::new(2, 11),
    ];
    let bounding_box3 = BoundingBox::new_with_points(points3);

    let bounding_boxes = vec![bounding_box1, bounding_box2, bounding_box3];
    let non_overlapping_ids = get_non_overlap_boxes(&bounding_boxes);
    let expected = vec![0];
    assert_eq!(non_overlapping_ids, expected);
}

#[test]
fn test_example_1() {
    let lines = vec![
        String::from("--*--"),
        String::from("***--"),
        String::from("----*"),
    ];

    let results = find_boxes(&lines).unwrap();
    assert_eq!(results.len(), 1);
    assert_eq!(results[0].render(), String::from("(1,1)(2,3)"));
}

#[test]
fn test_example_2() {
    let lines = vec![
        String::from("----"),
        String::from("----"),
        String::from("----"),
    ];
    let results = find_boxes(&lines).unwrap();
    assert_eq!(results.len(), 0);
}

#[test]
fn test_example_3() {
    let lines = vec![
        String::from("**--*"),
        String::from("**--*"),
        String::from("----*"),
        String::from("----*"),
    ];
    let results = find_boxes(&lines).unwrap();
    assert_eq!(results.len(), 2);
    assert_eq!(results[0].render(), String::from("(1,1)(2,2)"));
    assert_eq!(results[1].render(), String::from("(1,5)(4,5)"));
}

#[test]
fn test_example_4() {
    let lines = vec![
        String::from("--*----"),
        String::from("-**----"),
        String::from("**-----"),
        String::from("----***"),
        String::from("----***"),
        String::from("----***"),
    ];

    let results = find_boxes(&lines).unwrap();
    assert_eq!(results.len(), 2);
    assert_eq!(results[0].render(), String::from("(1,1)(3,3)"));
    assert_eq!(results[1].render(), String::from("(4,5)(6,7)"));
}

#[test]
fn test_example_5() {
    let lines = vec![
        String::from("-*---"),
        String::from("**-*-"),
        String::from("--**-"),
    ];

    let results = find_boxes(&lines).unwrap();
    assert_eq!(results.len(), 2);
    assert_eq!(results[0].render(), String::from("(1,1)(2,2)"));
    assert_eq!(results[1].render(), String::from("(2,3)(3,4)"));
}

#[test]
fn test_example_6() {
    let lines = vec![String::from("*-*-"), String::from("-*-*")];

    let results = find_boxes(&lines).unwrap();
    assert_eq!(results.len(), 4);
    assert_eq!(results[0].render(), String::from("(1,1)(1,1)"));
    assert_eq!(results[1].render(), String::from("(1,3)(1,3)"));
    assert_eq!(results[2].render(), String::from("(2,2)(2,2)"));
    assert_eq!(results[3].render(), String::from("(2,4)(2,4)"));
}

#[test]
fn test_example_7() {
    let lines = vec![String::from("-*-"), String::from("---")];
    let results = find_boxes(&lines).unwrap();
    assert_eq!(results.len(), 1);
    assert_eq!(results[0].render(), String::from("(1,2)(1,2)"));
}
