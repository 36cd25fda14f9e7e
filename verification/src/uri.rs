use vstd::prelude::*;

verus! {

#[verifier::external_type_specification]
#[verifier::external_body]
pub struct ExUrl(url::Url);

/// The file-scheme locator for an absolute path.
///
/// Relies on url::Url::from_file_path: on this platform it returns Ok
/// exactly when the path is absolute, that is when it starts with '/'.
#[verifier::external_body]
pub fn file_url(path: &String) -> (r: Option<url::Url>)
    ensures
        r is Some <==> (path@.len() > 0 && path@[0] == '/'),
{
    url::Url::from_file_path(path.as_str()).ok()
}

} // verus!
