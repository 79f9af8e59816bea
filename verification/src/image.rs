//! Where an image comes from, judged by its reference alone.
//!
//! Every test here is a plain substring test; the reference is not parsed.

use vstd::prelude::*;
use crate::text::{contains_text, has_substring};

verus! {

/// An image is from the private registry if its reference holds the
/// registry's pattern.
pub open spec fn private_registry(image: Seq<char>, pattern: Seq<char>) -> bool {
    has_substring(image, pattern)
}

/// An image is from a known hosted registry if its reference holds the host
/// of one.
pub open spec fn hosted_registry(image: Seq<char>) -> bool {
    has_substring(image, "gcr.io"@) || has_substring(image, "quay.io"@) || has_substring(
        image,
        "ghcr.io"@,
    )
}

/// An image is trusted if it is from the private registry or from a known
/// hosted one.
pub open spec fn trusted_image(image: Seq<char>, pattern: Seq<char>) -> bool {
    private_registry(image, pattern) || hosted_registry(image)
}

/// The pattern of the private registry where none is chosen.
pub open spec fn default_registry_pattern() -> Seq<char> {
    "amazonaws.com/"@
}

/// The pattern of the private registry where none is chosen.
pub fn default_pattern() -> (p: &'static str)
    ensures
        p@ == default_registry_pattern(),
{
    "amazonaws.com/"
}

/// Whether an image is from the private registry with the given pattern.
pub fn is_private_registry(image: &str, pattern: &str) -> (r: bool)
    ensures
        r == private_registry(image@, pattern@),
{
    contains_text(image, pattern)
}

/// Whether an image is from the private registry with the default pattern.
pub fn is_ecr_image(image: &str) -> (r: bool)
    ensures
        r == private_registry(image@, default_registry_pattern()),
{
    contains_text(image, default_pattern())
}

/// Whether an image is from a known hosted registry.
pub fn is_hosted_image(image: &str) -> (r: bool)
    ensures
        r == hosted_registry(image@),
{
    contains_text(image, "gcr.io") || contains_text(image, "quay.io") || contains_text(
        image,
        "ghcr.io",
    )
}

/// Whether an image is trusted, the private registry having the given pattern.
pub fn has_trusted_image_for(image: &str, pattern: &str) -> (r: bool)
    ensures
        r == trusted_image(image@, pattern@),
{
    is_private_registry(image, pattern) || is_hosted_image(image)
}

/// Whether an image is trusted, the private registry having the default
/// pattern.
pub fn has_trusted_image(image: &str) -> (r: bool)
    ensures
        r == trusted_image(image@, default_registry_pattern()),
{
    is_ecr_image(image) || is_hosted_image(image)
}

} // verus!
