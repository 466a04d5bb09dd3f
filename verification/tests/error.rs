use frame_gmix::error::MyError;

#[test]
fn display_and_debug_text() {
    let e = MyError { message: "boom".to_string() };
    assert_eq!(e.display_text(), "MyError: boom");
    assert_eq!(e.debug_text(), "MyError { message: boom }");
}
