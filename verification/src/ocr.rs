//! Text recognition in images is a platform capability (system vision
//! APIs), an external collaborator of this library; this build provides
//! none and says so.

use vstd::prelude::*;

verus! {

/// Report that no text recognition capability is available here.
pub fn recognize_text(_image_path: &str) -> (r: Result<String, String>)
    ensures
        r matches Err(m) && m@ == "OCR is only supported on macOS and Windows"@,
{
    Err(String::from_str("OCR is only supported on macOS and Windows"))
}

} // verus!
