//! What can go wrong, and the words the user gets to see.
use vstd::prelude::*;
use vstd::string::*;

verus! {

/// Every failure ends the whole operation; nothing is retried or resumed.
#[derive(Debug)]
pub enum Error {
    /// A size argument that is no size. Holds the argument.
    Argument { input: String },
    /// A path argument that names no file: none of its segments has a
    /// name. Holds the path.
    PathArgument { path: String },
    /// A host file that was to go into the image cannot be read.
    SourceIo { path: String },
    /// A file or directory cannot be created or written, on the host or in
    /// the image.
    DestinationIo { path: String },
    /// Extraction met a file that is already there, and overwriting was not
    /// asked for.
    Conflict { path: String },
    /// The output of an extraction exists and is not a directory.
    NotADirectory,
    /// The image cannot be formatted or opened with the given parameters.
    Format,
    /// A size that does not fit the image's 32-bit byte range.
    Overflow,
}

impl Error {
    /// The text of the message for each kind of failure.
    pub open spec fn spec_message(self) -> Seq<char> {
        match self {
            Error::Argument { input } =>
                "Unable to parse input, it should be a number optionally followed by a size modifier(G/Gi/M/Mi/K/Ki): "@
                    + input@,
            Error::PathArgument { path } => "The path `"@ + path@ + "` has no file name"@,
            Error::SourceIo { path } => "Unable to read `"@ + path@ + "`"@,
            Error::DestinationIo { path } => "Unable to write `"@ + path@ + "`"@,
            Error::Conflict { path } => "The output path `"@ + path@
                + "` already exists, use `--overwrite` to overwrite it"@,
            Error::NotADirectory => "The output path should be a directory, or not exist"@,
            Error::Format => "Unable to format or open the image"@,
            Error::Overflow => "The size does not fit in 32 bits"@,
        }
    }

    /// The message shown to the user.
    pub fn message(&self) -> (text: String)
        ensures
            text@ == self.spec_message(),
    {
        match self {
            Error::Argument { input } => {
                let head = String::from_str(
                    "Unable to parse input, it should be a number optionally followed by a size modifier(G/Gi/M/Mi/K/Ki): ",
                );
                head.concat(input.as_str())
            },
            Error::PathArgument { path } => {
                String::from_str("The path `").concat(path.as_str()).concat("` has no file name")
            },
            Error::SourceIo { path } => {
                String::from_str("Unable to read `").concat(path.as_str()).concat("`")
            },
            Error::DestinationIo { path } => {
                String::from_str("Unable to write `").concat(path.as_str()).concat("`")
            },
            Error::Conflict { path } => {
                String::from_str("The output path `").concat(path.as_str()).concat(
                    "` already exists, use `--overwrite` to overwrite it",
                )
            },
            Error::NotADirectory => String::from_str(
                "The output path should be a directory, or not exist",
            ),
            Error::Format => String::from_str("Unable to format or open the image"),
            Error::Overflow => String::from_str("The size does not fit in 32 bits"),
        }
    }
}

} // verus!
