use todoscan::text::chars_of;
use todoscan::text::push_decimal;
use todoscan::text::strip_dots;
use todoscan::text::trim;

#[test]
fn decimal_rendering() {
    for n in [0usize, 7, 10, 42, 1000, usize::MAX] {
        let mut s = String::from("#");
        push_decimal(&mut s, n);
        assert_eq!(s, format!("#{}", n));
    }
}

#[test]
fn trimming_and_dots() {
    let t = trim(&chars_of("\u{a0} \t.rs \n"));
    assert_eq!(t.iter().collect::<String>(), ".rs");
    let d = strip_dots(&chars_of("...a.b"));
    assert_eq!(d.iter().collect::<String>(), "a.b");
    assert!(trim(&chars_of("   ")).is_empty());
}
