use bounding_boxes::boxes::collect_shapes;
use bounding_boxes::boxes::convert_lines_to_matrix;
use bounding_boxes::boxes::find_boxes;
use bounding_boxes::boxes::get_non_overlap_boxes;
use bounding_boxes::boxes::validate_input;
use bounding_boxes::boxes::BoundingBox;
use bounding_boxes::boxes::InputError;
use bounding_boxes::boxes::Point;
use bounding_boxes::min_bounding_boxes;

#[test]
fn simple_input() {
    let input = "\
----
-**-
-**-
----
";
    assert_eq!(min_bounding_boxes(&input), "(2,2)(3,3)");
}

#[test]
fn validation_is_idempotent_on_accept() {
    let lines = vec![String::from("*-"), String::from("-*")];
    let first = validate_input(&lines);
    let second = validate_input(&lines);
    assert_eq!(first, second);
    assert_eq!(first, Ok(()));
}

#[test]
fn validation_is_idempotent_on_reject() {
    let lines = vec![String::from("*-"), String::from("*")];
    let first = validate_input(&lines);
    let second = validate_input(&lines);
    assert_eq!(first, second);
    assert_eq!(first, Err(InputError::Ragged));
}

#[test]
fn empty_input_is_rejected() {
    let lines: Vec<String> = vec![];
    assert_eq!(validate_input(&lines), Err(InputError::Empty));
    let err = find_boxes(&lines).unwrap_err();
    assert_eq!(err, InputError::Empty);
    assert_eq!(err.message(), "Input cannot be empty");
}

#[test]
fn ragged_input_is_rejected() {
    let lines = vec![String::from("**"), String::from("***")];
    let err = find_boxes(&lines).unwrap_err();
    assert_eq!(err, InputError::Ragged);
    assert_eq!(err.message(), "Lines must be the same length");
}

#[test]
fn bad_symbol_is_rejected() {
    let lines = vec![String::from("*x")];
    let err = find_boxes(&lines).unwrap_err();
    assert_eq!(err, InputError::BadSymbol);
    assert_eq!(err.message(), "Characters must be either '-' or '*'");
}

#[test]
fn shapes_partition_filled_cells() {
    let lines = vec![
        String::from("**--*"),
        String::from("*--**"),
        String::from("---*-"),
    ];
    let mut matrix = convert_lines_to_matrix(&lines);
    let shapes = collect_shapes(&mut matrix);
    let mut all_points: Vec<Point> = vec![];
    for shape in &shapes {
        assert!(!shape.is_empty());
        for p in shape {
            all_points.push(*p);
        }
    }
    let mut filled: Vec<(usize, usize)> = vec![];
    for (r, line) in lines.iter().enumerate() {
        for (c, ch) in line.chars().enumerate() {
            if ch == '*' {
                filled.push((r, c));
            }
        }
    }
    let mut seen: Vec<(usize, usize)> = all_points.iter().map(|p| (p.row, p.col)).collect();
    seen.sort();
    // disjointness: no point appears twice across or within shapes
    for w in seen.windows(2) {
        assert_ne!(w[0], w[1]);
    }
    // union equals exactly the filled cells
    assert_eq!(seen, filled);
}

#[test]
fn bounding_box_is_tight() {
    let points = vec![
        Point::new(4, 7),
        Point::new(2, 9),
        Point::new(3, 8),
        Point::new(2, 7),
    ];
    let b = BoundingBox::new_with_points(points.clone());
    for p in &points {
        assert!(b.bottom <= p.row && p.row <= b.top);
        assert!(b.left <= p.col && p.col <= b.right);
    }
    // each bound is attained, so no smaller rectangle contains all points
    assert!(points.iter().any(|p| p.row == b.bottom));
    assert!(points.iter().any(|p| p.row == b.top));
    assert!(points.iter().any(|p| p.col == b.left));
    assert!(points.iter().any(|p| p.col == b.right));
    assert_eq!(b.size, 9);
}

#[test]
fn overlap_marking_is_symmetric() {
    // box 0 overlaps box 1; neither may stay unmarked
    let a = BoundingBox::new_with_points(vec![Point::new(0, 0), Point::new(2, 2)]);
    let b = BoundingBox::new_with_points(vec![Point::new(1, 1), Point::new(3, 3)]);
    let c = BoundingBox::new_with_points(vec![Point::new(9, 9)]);
    let ids = get_non_overlap_boxes(&vec![a, b, c]);
    assert_eq!(ids, vec![2]);
}

#[test]
fn boundary_touching_counts_as_overlap() {
    // the boxes share exactly one column boundary and one shared row range
    let a = BoundingBox::new_with_points(vec![Point::new(0, 0), Point::new(1, 1)]);
    let b = BoundingBox::new_with_points(vec![Point::new(0, 1), Point::new(1, 2)]);
    let ids = get_non_overlap_boxes(&vec![a, b]);
    assert_eq!(ids, Vec::<usize>::new());
}

#[test]
fn disjoint_columns_never_overlap() {
    let a = BoundingBox::new_with_points(vec![Point::new(0, 0), Point::new(5, 1)]);
    let b = BoundingBox::new_with_points(vec![Point::new(0, 3), Point::new(5, 4)]);
    let ids = get_non_overlap_boxes(&vec![a, b]);
    assert_eq!(ids, vec![0, 1]);
}

#[test]
fn enclosed_shape_without_touching_is_excluded() {
    // a U-shaped cluster and a lone cell inside its bounding box: the
    // boxes share columns and rows though the filled cells never touch
    let lines = vec![
        String::from("*-*-*"),
        String::from("*---*"),
        String::from("*****"),
    ];
    let results = find_boxes(&lines).unwrap();
    assert_eq!(results.len(), 0);
}

#[test]
fn single_cell_grid() {
    let lines = vec![String::from("*")];
    let results = find_boxes(&lines).unwrap();
    assert_eq!(results.len(), 1);
    assert_eq!(results[0].render(), String::from("(1,1)(1,1)"));
    assert_eq!(results[0].size, 1);
}

#[test]
fn render_multi_digit_coordinates() {
    let b = BoundingBox::new_with_points(vec![Point::new(9, 11), Point::new(99, 120)]);
    assert_eq!(b.render(), String::from("(10,12)(100,121)"));
}

#[test]
fn min_bounding_boxes_lists_every_shape() {
    let input = "*-*\n---\n*--\n";
    assert_eq!(min_bounding_boxes(input), "(1,1)(1,1)\n(1,3)(1,3)\n(3,1)(3,1)");
}

#[test]
fn min_bounding_boxes_empty_grid() {
    assert_eq!(min_bounding_boxes(""), "");
}
