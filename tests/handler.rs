#[test]
fn f() {}
