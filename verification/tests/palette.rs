use paintings::utils::Palette;

#[test]
fn colours_are_opaque_and_as_named() {
    assert_eq!(Palette::BEIGE, 0xfffceccb);
    assert_eq!(Palette::DARK_BEIGE, 0xffc9bda3);
    assert_eq!(Palette::DARKER_BEIGE, 0xff968d7a);
    assert_eq!(Palette::RED, 0xffff0000);
    assert_eq!(Palette::BLACK, 0xff000000);
    assert_eq!(Palette::DARK_GRAY, 0xff191919);
    assert_eq!(Palette::GRAY, 0xff333333);
    assert_eq!(Palette::WHITE, 0xffffffff);
    for colour in [
        Palette::BEIGE,
        Palette::DARK_BEIGE,
        Palette::DARKER_BEIGE,
        Palette::RED,
        Palette::BLACK,
        Palette::DARK_GRAY,
        Palette::GRAY,
        Palette::WHITE,
    ] {
        assert_eq!(colour >> 24, 0xff);
    }
}
