use vstd::prelude::*;

verus! {

/// What `std::path::Path::extension` gives for a path: the part of its final
/// component after the last dot, if there is one.
pub uninterp spec fn extension_of(path: Seq<char>) -> Option<Seq<char>>;

/// What `str::to_lowercase` gives for a string.
pub uninterp spec fn lower_of(s: Seq<char>) -> Seq<char>;

/// Relies on std::path::Path::extension for the extension of a path's final
/// component; a path without any dot has none. The extension of a path given
/// as `&str` is valid UTF-8, so the lossy conversion keeps it as it is.
#[verifier::external_body]
pub(crate) fn path_extension(path: &str) -> (r: Option<String>)
    ensures
        match r {
            Some(e) => extension_of(path@) == Some(e@),
            None => extension_of(path@) == None::<Seq<char>>,
        },
        !path@.contains('.') ==> r is None,
{
    match std::path::Path::new(path).extension() {
        Some(e) => Some(e.to_string_lossy().into_owned()),
        None => None,
    }
}

/// Relies on str::to_lowercase for the lower-case form of a string.
#[verifier::external_body]
fn lowercase(s: &str) -> (r: String)
    ensures
        r@ == lower_of(s@),
{
    s.to_lowercase()
}

/// The extensions, in lower case, of the supported image formats.
pub open spec fn is_image_ext(e: Seq<char>) -> bool {
    e == "png"@ || e == "jpg"@ || e == "jpeg"@
}

/// A path names a supported image when its extension, in lower case, is one
/// of the supported ones.
pub open spec fn is_image_path(path: Seq<char>) -> bool {
    match extension_of(path) {
        Some(e) => is_image_ext(lower_of(e)),
        None => false,
    }
}

/// Whether a lower-case extension is that of a supported image format.
pub fn is_image_extension(ext: &String) -> (r: bool)
    ensures
        r == is_image_ext(ext@),
{
    let png = "png".to_owned();
    let jpg = "jpg".to_owned();
    let jpeg = "jpeg".to_owned();
    *ext == png || *ext == jpg || *ext == jpeg
}

/// Whether `path` has the extension of a supported image format, matched
/// without regard to case. A path without an extension is not an image.
pub fn is_image(path: &str) -> (r: bool)
    ensures
        r == is_image_path(path@),
        !path@.contains('.') ==> !r,
{
    match path_extension(path) {
        Some(e) => {
            let lower = lowercase(e.as_str());
            is_image_extension(&lower)
        },
        None => false,
    }
}

} // verus!
