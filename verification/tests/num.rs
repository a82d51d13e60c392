use knossos::num::add;
use knossos::text::decimal;

#[test]
fn it_adds_numbers() {
    assert_eq!(0, add(0, 0));
    assert_eq!(1, add(2, -1));
    assert_eq!(2, add(1, 1));
    assert_eq!(3, add(6, -3));
}

#[test]
fn it_adds_the_extremes() {
    assert_eq!(0, add(128, -128));
    assert_eq!(usize::MAX, add(usize::MAX - 127, 127));
}

#[test]
fn decimal_texts_are_those_of_the_standard_library() {
    for n in [0usize, 1, 9, 10, 11, 99, 100, 101, 4096, 65535, 1_000_000, usize::MAX] {
        assert_eq!(decimal(n), n.to_string());
    }
}
