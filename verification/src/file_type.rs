//! How a registered file is shown in a document, and the error for a
//! kind that is not known.

use vstd::prelude::*;
use vstd::string::*;
use vstd::std_specs::convert::TryFromSpecImpl;

verus! {

/// What can go wrong while the registry is filled.
#[derive(Clone, Copy, Debug, PartialEq, Eq, Structural)]
pub enum FileSearchProcessorError {
    /// The kind given for an alias is neither `link` nor `image`.
    FileTypeConversionFailed,
}

impl FileSearchProcessorError {
    /// The text shown for the error.
    pub open spec fn message_text(self) -> Seq<char> {
        "Invalid file type"@
    }

    /// The text shown for the error.
    pub fn message(&self) -> (text: String)
        ensures
            text@ == self.message_text(),
    {
        "Invalid file type".to_owned()
    }
}

/// How a reference to a registered file is rendered.
#[derive(Clone, Copy, Debug, PartialEq, Eq, Structural)]
pub enum FileType {
    /// A hyperlink to the file.
    Link,
    /// The file embedded as an image.
    Image,
}

impl FileType {
    /// The kind that `value` names: `image` and `link` are the only names.
    pub open spec fn parsed(value: Seq<char>) -> Result<FileType, FileSearchProcessorError> {
        if value == "image"@ {
            Ok(FileType::Image)
        } else if value == "link"@ {
            Ok(FileType::Link)
        } else {
            Err(FileSearchProcessorError::FileTypeConversionFailed)
        }
    }
}

impl<'a> TryFrom<&'a str> for FileType {
    type Error = FileSearchProcessorError;

    fn try_from(value: &'a str) -> (kind: Result<FileType, FileSearchProcessorError>) {
        if *value == *"image" {
            Ok(FileType::Image)
        } else if *value == *"link" {
            Ok(FileType::Link)
        } else {
            Err(FileSearchProcessorError::FileTypeConversionFailed)
        }
    }
}

impl<'a> TryFromSpecImpl<&'a str> for FileType {
    open spec fn obeys_try_from_spec() -> bool {
        true
    }

    open spec fn try_from_spec(value: &'a str) -> Result<FileType, FileSearchProcessorError> {
        FileType::parsed(value@)
    }
}

} // verus!
