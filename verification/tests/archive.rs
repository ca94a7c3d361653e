use remedy::archive::impls::reverse::Reverse;

#[test]
fn reverse_hands_back_its_value() {
    let mut r = Reverse::new(String::from("v"));
    assert_eq!(r.get_ref(), "v");
    assert_eq!(r.get_mut(), "v");
    assert_eq!(r.get(), "v");
}
