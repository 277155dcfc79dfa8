use std::borrow::Cow;

use paintings::image::{optimize_image, optimized_or_message};

const SIGNATURE: [u8; 8] = [0x89, 0x50, 0x4E, 0x47, 0x0D, 0x0A, 0x1A, 0x0A];

/// What the program does with a picture where it recompresses it.
fn recompressed(png_data: &[u8]) -> Result<Cow<'static, [u8]>, &'static str> {
    let mut options = oxipng::Options::from_preset(5);
    options.strip = oxipng::Headers::Safe;
    optimized_or_message(oxipng::optimize_from_memory(png_data, &options))
}

/// A picture of 16 by 16 grey pixels, stored without compression and with a comment.
fn stored_picture() -> Vec<u8> {
    vec![
        137, 80, 78, 71, 13, 10, 26, 10, 0, 0, 0, 13, 73, 72, 68, 82,
        0, 0, 0, 16, 0, 0, 0, 16, 8, 0, 0, 0, 0, 58, 152, 160,
        189, 0, 0, 0, 31, 116, 69, 88, 116, 67, 111, 109, 109, 101, 110, 116,
        0, 109, 97, 100, 101, 32, 98, 121, 32, 104, 97, 110, 100, 32, 102, 111,
        114, 32, 97, 32, 116, 101, 115, 116, 99, 184, 3, 12, 0, 0, 1, 27,
        73, 68, 65, 84, 120, 1, 1, 16, 1, 239, 254, 0, 0, 180, 120, 60,
        0, 180, 120, 60, 0, 180, 120, 60, 0, 180, 120, 60, 0, 180, 120, 60,
        0, 180, 120, 60, 0, 180, 120, 60, 0, 180, 120, 60, 0, 0, 120, 60,
        0, 180, 120, 60, 0, 180, 120, 60, 0, 180, 120, 60, 0, 180, 0, 60,
        0, 180, 120, 60, 0, 180, 120, 60, 0, 180, 120, 60, 0, 180, 120, 0,
        0, 180, 120, 60, 0, 180, 120, 60, 0, 180, 120, 60, 0, 180, 120, 60,
        0, 180, 120, 60, 0, 180, 120, 60, 0, 180, 120, 60, 0, 180, 120, 60,
        0, 0, 120, 60, 0, 180, 120, 60, 0, 180, 120, 60, 0, 180, 120, 60,
        0, 180, 0, 60, 0, 180, 120, 60, 0, 180, 120, 60, 0, 180, 120, 60,
        0, 180, 120, 0, 0, 180, 120, 60, 0, 180, 120, 60, 0, 180, 120, 60,
        0, 180, 120, 60, 0, 180, 120, 60, 0, 180, 120, 60, 0, 180, 120, 60,
        0, 180, 120, 60, 0, 0, 120, 60, 0, 180, 120, 60, 0, 180, 120, 60,
        0, 180, 120, 60, 0, 180, 0, 60, 0, 180, 120, 60, 0, 180, 120, 60,
        0, 180, 120, 60, 0, 180, 120, 0, 0, 180, 120, 60, 0, 180, 120, 60,
        0, 180, 120, 60, 0, 180, 120, 60, 0, 180, 120, 60, 0, 180, 120, 60,
        0, 180, 120, 60, 0, 180, 120, 60, 0, 0, 120, 60, 0, 180, 120, 60,
        0, 180, 120, 60, 0, 180, 120, 60, 0, 180, 0, 60, 0, 180, 120, 60,
        0, 180, 120, 60, 0, 180, 120, 60, 0, 180, 120, 211, 209, 90, 1, 159,
        212, 79, 135, 0, 0, 0, 0, 73, 69, 78, 68, 174, 66, 96, 130,
    ]
}

#[test]
fn a_picture_is_handed_on_as_it_is() {
    let picture = stored_picture();
    let kept = optimize_image(&picture).unwrap();
    assert_eq!(&kept[..], &picture[..]);
    assert!(matches!(kept, Cow::Borrowed(_)));
    assert_eq!(kept.as_ptr(), picture.as_ptr());
}

#[test]
fn no_bytes_are_refused_where_nothing_is_recompressed() {
    assert_eq!(optimize_image(&[]), Ok(Cow::Borrowed(&[][..])));
    assert_eq!(optimize_image(&[1, 2, 3]), Ok(Cow::Borrowed(&[1u8, 2, 3][..])));
    assert_eq!(
        optimize_image(b"GIF89a, and then some more bytes"),
        Ok(Cow::Borrowed(&b"GIF89a, and then some more bytes"[..]))
    );
}

#[test]
fn a_stored_picture_comes_back_shorter() {
    let picture = stored_picture();
    assert_eq!(picture.len(), 383);
    let optimized = recompressed(&picture).unwrap();
    assert!(optimized.len() < picture.len());
    assert_eq!(&optimized[..8], &SIGNATURE);
    assert!(matches!(optimized, Cow::Owned(_)));
}

#[test]
fn bytes_without_the_signature_give_the_message() {
    assert_eq!(recompressed(&[]), Err("Couldn't optimize png"));
    assert_eq!(recompressed(&[1, 2, 3]), Err("Couldn't optimize png"));
    assert_eq!(recompressed(b"GIF89a, and then some more bytes"), Err("Couldn't optimize png"));
    let mut spoiled = stored_picture();
    spoiled[0] = 0x88;
    assert_eq!(recompressed(&spoiled), Err("Couldn't optimize png"));
}

#[test]
fn a_picture_cut_short_gives_the_message() {
    let picture = stored_picture();
    assert_eq!(recompressed(&picture[..8]), Err("Couldn't optimize png"));
    assert_eq!(recompressed(&picture[..40]), Err("Couldn't optimize png"));
}

#[test]
fn every_failure_gives_the_same_message() {
    assert_eq!(optimized_or_message(Err(oxipng::PngError::NotPNG)), Err("Couldn't optimize png"));
    assert_eq!(
        optimized_or_message(Err(oxipng::PngError::TruncatedData)),
        Err("Couldn't optimize png")
    );
    assert_eq!(
        optimized_or_message(Err(oxipng::PngError::Other("no reason".into()))),
        Err("Couldn't optimize png")
    );
}

#[test]
fn the_bytes_of_a_success_are_kept() {
    assert_eq!(optimized_or_message(Ok(vec![1, 2, 3])), Ok(Cow::Owned(vec![1, 2, 3])));
    assert_eq!(optimized_or_message(Ok(Vec::new())), Ok(Cow::Owned(Vec::new())));
    assert!(matches!(optimized_or_message(Ok(vec![7])), Ok(Cow::Owned(_))));
}
