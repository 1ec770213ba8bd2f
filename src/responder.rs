use vstd::prelude::*;

verus! {

/// The extension of a path as `std::path::Path::extension` reads it.
pub uninterp spec fn path_extension(path: Seq<char>) -> Option<Seq<char>>;

/// The media type, as text, that the web framework's fixed table gives an extension.
pub uninterp spec fn media_type_of(ext: Seq<char>) -> Option<Seq<char>>;

pub open spec fn opt_string_view(s: Option<String>) -> Option<Seq<char>> {
    match s {
        Some(t) => Some(t@),
        None => None,
    }
}

/// The content type sent with a file: the media type of its extension, if any.
pub open spec fn content_type_of(path: Seq<char>) -> Option<Seq<char>> {
    match path_extension(path) {
        Some(ext) => media_type_of(ext),
        None => None,
    }
}

/// Relies on `std::path::Path::extension`: a function of the path text alone.
#[verifier::external_body]
fn file_extension(path: &str) -> (r: Option<String>)
    ensures
        opt_string_view(r) == path_extension(path@),
{
    std::path::Path::new(path).extension().map(|e| e.to_string_lossy().into_owned())
}

/// Relies on `rocket::http::ContentType::from_extension`, a fixed case-insensitive
/// table, and on the `Display` text of the content type it finds.
#[verifier::external_body]
fn media_type_for(ext: &str) -> (r: Option<String>)
    ensures
        opt_string_view(r) == media_type_of(ext@),
{
    rocket::http::ContentType::from_extension(ext).map(|ct| ct.to_string())
}

/// Picks the content type for an extension that was already split off a path.
pub fn content_type_for_extension(ext: Option<String>) -> (r: Option<String>)
    ensures
        opt_string_view(r) == match opt_string_view(ext) {
            Some(e) => media_type_of(e),
            None => None,
        },
{
    match ext {
        Some(e) => media_type_for(e.as_str()),
        None => None,
    }
}

/// The content type sent with the file at `path`.
pub fn content_type_for_path(path: &str) -> (r: Option<String>)
    ensures
        opt_string_view(r) == content_type_of(path@),
{
    content_type_for_extension(file_extension(path))
}

/// What a static file answers with: its bytes, their length and an optional
/// content type.
pub struct StaticResponse {
    pub body: Vec<u8>,
    pub length: u64,
    pub content_type: Option<String>,
}

/// A file's bytes together with the path it is served from.
#[derive(Clone, Debug)]
pub struct VFResponder(pub Vec<u8>, pub String);

impl VFResponder {
    /// The response for this file: the bytes as body, their length, and the
    /// content type of the path's extension (none where it is unknown).
    pub fn respond_to(&self) -> (r: StaticResponse)
        ensures
            r.body@ == self.0@,
            r.length == self.0@.len(),
            opt_string_view(r.content_type) == content_type_of(self.1@),
    {
        let body = self.0.clone();
        assert(body@ =~= self.0@);
        let length = self.0.len() as u64;
        StaticResponse { body, length, content_type: content_type_for_path(self.1.as_str()) }
    }
}

/// The handler of one file route: it answers with a copy of its responder.
#[derive(Clone, Debug)]
pub struct VecHandler(pub VFResponder);

impl VecHandler {
    pub fn handle(&self) -> (r: VFResponder)
        ensures
            r.0@ == self.0.0@,
            r.1@ == self.0.1@,
    {
        let bytes = self.0.0.clone();
        assert(bytes@ =~= self.0.0@);
        VFResponder(bytes, self.0.1.clone())
    }
}

/// Whether a file is sent with a content type, and which, depends on the
/// extension of its path alone: two paths with one extension get the same
/// content type, and a path without an extension, or with one that the table
/// does not know, gets none.
pub proof fn content_type_depends_on_extension_only(p: Seq<char>, q: Seq<char>)
    requires
        path_extension(p) == path_extension(q),
    ensures
        content_type_of(p) == content_type_of(q),
        path_extension(p) is None ==> content_type_of(p) is None,
        path_extension(p) matches Some(e) && media_type_of(e) is None ==> content_type_of(p) is None,
{
}

} // verus!
