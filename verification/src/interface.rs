//! Messages passed from a user interface to the controlling loop.

use vstd::prelude::*;

verus! {

use crate::data::str_eq;

/// The standard library's filesystem path buffer, carried through the
/// messages as an opaque value.
#[verifier::external_type_specification]
#[verifier::external_body]
pub struct ExPathBuf(std::path::PathBuf);

/// Relies on PathBuf's clone producing an equivalent owned path.
pub assume_specification[ <std::path::PathBuf as Clone>::clone ](
    p: &std::path::PathBuf,
) -> std::path::PathBuf;

/// Relies on Path::to_string_lossy: the path's text, with undecodable
/// bytes replaced.
#[verifier::external_body]
fn path_display(content: &std::path::PathBuf) -> String {
    content.to_string_lossy().into_owned()
}

/// A message from the interface to the main loop: a chosen input or
/// output file, a request to process, a shutdown, a configuration reset,
/// or something unrecognized.
#[derive(Clone, PartialEq, Debug)]
pub enum InterfaceMessage {
    /// The user selected a delimited-text input file.
    CSVInputFile(std::path::PathBuf),
    /// The user selected a markup input file.
    XMLInputFile(std::path::PathBuf),
    /// The user selected an output file.
    OutputFile(std::path::PathBuf),
    /// The user asked for the output file to be produced.
    ProcessSum,
    /// The application is closing.
    AppClosing,
    /// The user asked to reselect the configuration preset.
    ConfigReset,
    /// Some other, unidentified message; usually a sender mistake.
    Other(String),
}

impl InterfaceMessage {
    /// Generates a file-based message from a header naming the file's
    /// role and the chosen path; an unrecognized header gives `Other`
    /// with the path's text.
    pub fn file_message_from_header(header: &str, content: std::path::PathBuf)
        -> (r: InterfaceMessage)
        ensures
            header@ == "CSVInputFile"@ ==> r == InterfaceMessage::CSVInputFile(content),
            header@ == "XMLInputFile"@ ==> r == InterfaceMessage::XMLInputFile(content),
            header@ == "OutputFile"@ ==> r == InterfaceMessage::OutputFile(content),
            header@ != "CSVInputFile"@ && header@ != "XMLInputFile"@
                && header@ != "OutputFile"@ ==> r is Other,
    {
        proof {
            reveal_strlit("CSVInputFile");
            reveal_strlit("XMLInputFile");
            reveal_strlit("OutputFile");
            assert("CSVInputFile"@[0] != "XMLInputFile"@[0]);
            assert("CSVInputFile"@.len() != "OutputFile"@.len());
            assert("XMLInputFile"@.len() != "OutputFile"@.len());
        }
        if str_eq(header, "CSVInputFile") {
            InterfaceMessage::CSVInputFile(content)
        } else if str_eq(header, "XMLInputFile") {
            InterfaceMessage::XMLInputFile(content)
        } else if str_eq(header, "OutputFile") {
            InterfaceMessage::OutputFile(content)
        } else {
            InterfaceMessage::Other(path_display(&content))
        }
    }
}

} // verus!
