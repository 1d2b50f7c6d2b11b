use parasol_runtime::sign::{Sign, Signed, Unsigned};

#[test]
fn signed_resize_config_grows_and_shrinks() {
    assert_eq!(Signed::resize_config(16, 32), (15, 17, true));
    assert_eq!(Signed::resize_config(32, 16), (15, 1, true));
    assert_eq!(Signed::resize_config(8, 8), (7, 1, true));
    assert_eq!(Signed::resize_config(1, 1), (0, 1, true));
}

#[test]
fn unsigned_resize_config_grows_and_shrinks() {
    assert_eq!(Unsigned::resize_config(16, 32), (16, 16, false));
    assert_eq!(Unsigned::resize_config(32, 16), (16, 0, false));
    assert_eq!(Unsigned::resize_config(0, 4), (0, 4, false));
}
