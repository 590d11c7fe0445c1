//! The boundary of a `multipart/form-data` body, from its `Content-Type`.
use vstd::prelude::*;

verus! {

/// What `multer::parse_boundary` gives for a `Content-Type` value: the
/// `boundary` parameter of a `multipart/form-data` media type, or nothing
/// where the value is no such media type or has no boundary.
pub uninterp spec fn boundary_of(content_type: Seq<char>) -> Option<Seq<char>>;

/// Relies on `multer::parse_boundary`: it parses the value as a media type and
/// returns its `boundary` parameter where the type is `multipart/form-data`,
/// and fails otherwise. The outcome depends on the value alone.
#[verifier::external_body]
pub(crate) fn parse_boundary(content_type: &str) -> (r: Option<String>)
    ensures
        match r {
            Some(b) => boundary_of(content_type@) == Some(b@),
            None => boundary_of(content_type@) is None,
        },
{
    multer::parse_boundary(content_type).ok()
}

} // verus!
