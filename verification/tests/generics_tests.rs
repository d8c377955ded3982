use snippets::generics::{f1, largest, largest_basic, Point, PointB};

#[test]
fn largest_basic_finds_the_maximum() {
    let number_list = vec![34, 50, 25, 100, 65];
    assert_eq!(largest_basic(&number_list), 100);
    assert_eq!(largest_basic(&[7]), 7);
    assert_eq!(largest_basic(&[-3, -9, -1]), -1);
}

#[test]
fn largest_works_for_numbers_and_chars() {
    let number_list = vec![34, 50, 25, 100, 65];
    assert_eq!(largest(&number_list), 100);

    let char_list = vec!['y', 'm', 'a', 'q'];
    assert_eq!(largest(&char_list), 'y');

    let unsigned_list: Vec<u64> = vec![102, 34, 6000, 89, 54, 2, 43, 8];
    assert_eq!(largest(&unsigned_list), 6000);
}

#[test]
fn point_exposes_its_first_coordinate() {
    let p = Point { x: 5, y: 10 };
    assert_eq!(*p.x(), 5);
}

#[test]
fn mixup_combines_coordinates_across_points() {
    let p1 = PointB { x: 5, y: 10.4 };
    let p2 = PointB { x: "Hello", y: 'c' };
    let p3 = p1.mixup(p2);
    assert_eq!(p3.x, 5);
    assert_eq!(p3.y, 'c');
}

#[test]
fn placeholder_function_runs() {
    f1();
}
