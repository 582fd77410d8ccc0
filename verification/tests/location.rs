use compiler::location::Location;

#[test]
fn location_new_and_accessors() {
    let loc = Location::new(3, 7);
    assert_eq!(loc.row(), 3);
    assert_eq!(loc.column(), 7);
}

#[test]
fn location_left_undoes_right() {
    let mut loc = Location::new(2, 5);
    loc.go_right();
    assert_eq!(loc.column(), 6);
    loc.go_left();
    assert_eq!(loc, Location::new(2, 5));
}

#[test]
fn location_newline_and_reset() {
    let mut loc = Location::new(4, 9);
    loc.newline();
    assert_eq!(loc, Location::new(5, 1));
    loc.reset();
    assert_eq!(loc, Location::new(1, 1));
}

#[test]
fn location_default_is_zero() {
    let loc = Location::default();
    assert_eq!((loc.row(), loc.column()), (0, 0));
}

#[test]
fn location_visualize() {
    assert_eq!(Location::new(1, 3).visualize("abcd"), "abcd\n  ^");
    assert_eq!(Location::new(1, 1).visualize("x"), "x\n^");
    assert_eq!(Location::new(1, 0).visualize("x"), "x\n^");
}

#[test]
fn location_to_string() {
    assert_eq!(Location::new(2, 15).to_string(), "line 2 column 15");
    assert_eq!(Location::new(0, 0).to_string(), "line 0 column 0");
}
