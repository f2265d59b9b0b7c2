use vstd::prelude::*;

verus! {

/// The errors of resource compilation.
#[derive(Debug)]
pub enum I18nError {
    /// No resource file was found for the designated source locale.
    SourceLocaleNotExists,
    /// A resource file, named by the carried path or dotted key, is not in a
    /// supported format: an unrecognized extension, or a leaf value that is
    /// neither a string nor a non-empty list of strings.
    InvalidSourceFileFormat(String),
}

} // verus!
