//! The last step before a painting is written: what becomes of its PNG
//! bytes. The recompressor itself is called by the program, which hands
//! its outcome to `optimized_or_message`; a build that does without it
//! hands the bytes on with `optimize_image`.
use std::borrow::Cow;
use vstd::prelude::*;

verus! {

#[verifier::external_type_specification]
#[verifier::external_body]
pub struct ExPngError(oxipng::PngError);

/// What is written for the outcome of the recompressor: the recompressed
/// bytes, or one message for every failure.
pub fn optimized_or_message(outcome: Result<Vec<u8>, oxipng::PngError>) -> (result: Result<
    Cow<'static, [u8]>,
    &'static str,
>)
    ensures
        match (outcome, result) {
            (Ok(optimized), Ok(bytes)) => bytes == Cow::<'static, [u8]>::Owned(optimized),
            (Err(_), Err(message)) => message@ == "Couldn't optimize png"@,
            _ => false,
        },
{
    match outcome {
        Ok(optimized) => Ok(Cow::Owned(optimized)),
        Err(_) => Err("Couldn't optimize png"),
    }
}

/// The picture as it is: the bytes themselves are handed on, not a copy
/// of them, and nothing is refused.
pub fn optimize_image(png_data: &[u8]) -> (result: Result<Cow<'_, [u8]>, &'static str>)
    ensures
        result == Ok::<Cow<'_, [u8]>, &'static str>(Cow::Borrowed(png_data)),
{
    Ok(Cow::Borrowed(png_data))
}

} // verus!
