//! The crate's error type.

use serde_json::Error as JsonError;
use serde_yaml_ng::Error as YamlError;
use vstd::prelude::*;

verus! {

#[verifier::external_type_specification]
#[verifier::external_body]
pub struct ExIoError(std::io::Error);

#[verifier::external_type_specification]
#[verifier::external_body]
pub struct ExYamlError(YamlError);

#[verifier::external_type_specification]
#[verifier::external_body]
pub struct ExJsonError(JsonError);

/// Anything that can go wrong loading a document or talking to a server.
#[derive(Debug)]
#[non_exhaustive]
pub enum Error {
    /// Reading a document from disk failed.
    Io(std::io::Error),
    /// A document could not be parsed as YAML or JSON.
    Yaml(YamlError),
    /// A document did not fit the OpenAPI type surface this crate expects.
    Json(JsonError),
    /// An overlay used a JSONPath target outside the supported subset.
    UnsupportedOverlayTarget(String),
    /// An overlay target segment resolved to something that isn't an object.
    OverlayTargetNotAnObject(String),
    /// An overlay tried to `remove` the document root.
    OverlayRemovesRoot,
    /// The client could not reach the server, or the server rejected the request.
    Http(String),
    /// A resource path was asked for that the document does not declare.
    UnknownResource(String),
}

/// `Result` specialized to this crate's [`Error`].
pub type Result<T> = std::result::Result<T, Error>;

/// The message of an unsupported overlay target.
pub open spec fn unsupported_target_message(target: Seq<char>) -> Seq<char> {
    "unsupported overlay target \""@ + target
        + "\": only \"$\" or simple dot-paths like \"$.components...\" are supported"@
}

/// The message of a target segment that is not an object.
pub open spec fn not_an_object_message(segment: Seq<char>) -> Seq<char> {
    "overlay target segment \""@ + segment + "\" does not resolve to an object"@
}

/// The message of an attempt to remove the document root.
pub open spec fn removes_root_message() -> Seq<char> {
    "overlay cannot remove the document root"@
}

/// The message of an HTTP failure.
pub open spec fn http_message(detail: Seq<char>) -> Seq<char> {
    "http error: "@ + detail
}

/// The message of an unknown resource.
pub open spec fn unknown_resource_message(path: Seq<char>) -> Seq<char> {
    "unknown resource \""@ + path + "\""@
}

impl Error {
    /// The human-readable message of this error.
    pub fn to_string(&self) -> (s: String)
        ensures
            match self {
                Error::Io(e) => exists|m: String|
                    vstd::string::to_string_from_display_ensures::<std::io::Error>(e, m) && s@ == "i/o error: "@
                        + m@,
                Error::Yaml(e) => exists|m: String|
                    vstd::string::to_string_from_display_ensures::<YamlError>(e, m) && s@ == "could not parse document: "@
                        + m@,
                Error::Json(e) => exists|m: String|
                    vstd::string::to_string_from_display_ensures::<JsonError>(e, m) && s@ == "could not read document: "@
                        + m@,
                Error::UnsupportedOverlayTarget(t) => s@ == unsupported_target_message(t@),
                Error::OverlayTargetNotAnObject(seg) => s@ == not_an_object_message(seg@),
                Error::OverlayRemovesRoot => s@ == removes_root_message(),
                Error::Http(d) => s@ == http_message(d@),
                Error::UnknownResource(p) => s@ == unknown_resource_message(p@),
            },
    {
        match self {
            Error::Io(e) => {
                let m = e.to_string();
                let mut s = String::from_str("i/o error: ");
                s.append(m.as_str());
                assert(vstd::string::to_string_from_display_ensures::<std::io::Error>(e, m) && s@ == "i/o error: "@
                    + m@);
                s
            },
            Error::Yaml(e) => {
                let m = e.to_string();
                let mut s = String::from_str("could not parse document: ");
                s.append(m.as_str());
                assert(vstd::string::to_string_from_display_ensures::<YamlError>(e, m) && s@ == "could not parse document: "@
                    + m@);
                s
            },
            Error::Json(e) => {
                let m = e.to_string();
                let mut s = String::from_str("could not read document: ");
                s.append(m.as_str());
                assert(vstd::string::to_string_from_display_ensures::<JsonError>(e, m) && s@ == "could not read document: "@
                    + m@);
                s
            },
            Error::UnsupportedOverlayTarget(t) => {
                let mut s = String::from_str("unsupported overlay target \"");
                s.append(t.as_str());
                s.append("\": only \"$\" or simple dot-paths like \"$.components...\" are supported");
                s
            },
            Error::OverlayTargetNotAnObject(seg) => {
                let mut s = String::from_str("overlay target segment \"");
                s.append(seg.as_str());
                s.append("\" does not resolve to an object");
                s
            },
            Error::OverlayRemovesRoot => String::from_str("overlay cannot remove the document root"),
            Error::Http(d) => {
                let mut s = String::from_str("http error: ");
                s.append(d.as_str());
                s
            },
            Error::UnknownResource(p) => {
                let mut s = String::from_str("unknown resource \"");
                s.append(p.as_str());
                s.append("\"");
                s
            },
        }
    }
}

} // verus!
