//! The library's error type and its rendering as a message.
use vstd::prelude::*;
use crate::text::{decimal, push_decimal};

verus! {

/// Why a version could not be computed.
///
/// Failures reported by the file system or by the directory walk carry the
/// text of the underlying error in `message`.
#[derive(Debug, Clone)]
pub enum I18nVersionError {
    /// The root directory does not exist.
    RootNotFound(String),
    /// Walking the directory tree under `path` failed.
    ScanError { path: String, message: String },
    /// Reading (or locating) the file at `path` failed.
    ReadError { path: String, message: String },
    /// `pattern` is not a valid glob pattern.
    InvalidGlob { pattern: String, message: String },
    /// The file at `path` does not hold valid JSON.
    InvalidJson { path: String, message: String },
    /// The requested hash length is outside `1..=64`.
    InvalidLength(usize),
}

/// The mathematical value of an [`I18nVersionError`].
pub enum I18nVersionErrorView {
    RootNotFound(Seq<char>),
    ScanError { path: Seq<char>, message: Seq<char> },
    ReadError { path: Seq<char>, message: Seq<char> },
    InvalidGlob { pattern: Seq<char>, message: Seq<char> },
    InvalidJson { path: Seq<char>, message: Seq<char> },
    InvalidLength(nat),
}

impl View for I18nVersionError {
    type V = I18nVersionErrorView;

    open spec fn view(&self) -> I18nVersionErrorView {
        match self {
            I18nVersionError::RootNotFound(p) => I18nVersionErrorView::RootNotFound(p@),
            I18nVersionError::ScanError { path, message } => I18nVersionErrorView::ScanError {
                path: path@,
                message: message@,
            },
            I18nVersionError::ReadError { path, message } => I18nVersionErrorView::ReadError {
                path: path@,
                message: message@,
            },
            I18nVersionError::InvalidGlob { pattern, message } => I18nVersionErrorView::InvalidGlob {
                pattern: pattern@,
                message: message@,
            },
            I18nVersionError::InvalidJson { path, message } => I18nVersionErrorView::InvalidJson {
                path: path@,
                message: message@,
            },
            I18nVersionError::InvalidLength(n) => I18nVersionErrorView::InvalidLength(*n as nat),
        }
    }
}

impl I18nVersionErrorView {
    /// The message that describes the error.
    pub open spec fn message(self) -> Seq<char> {
        match self {
            I18nVersionErrorView::RootNotFound(p) => "root path does not exist: "@ + p,
            I18nVersionErrorView::ScanError { path, message } => "failed to scan directory "@
                + path + ": "@ + message,
            I18nVersionErrorView::ReadError { path, message } => "failed to read file "@ + path
                + ": "@ + message,
            I18nVersionErrorView::InvalidGlob { pattern, message } => "invalid glob pattern "@
                + pattern + ": "@ + message,
            I18nVersionErrorView::InvalidJson { path, message } => "invalid JSON in "@ + path
                + ": "@ + message,
            I18nVersionErrorView::InvalidLength(n) => "length must be in [1, 64], got "@ + decimal(
                n,
            ),
        }
    }
}

fn joined(prefix: &str, first: &String, middle: &str, second: &String) -> (s: String)
    ensures
        s@ == prefix@ + first@ + middle@ + second@,
{
    let mut s = String::from_str(prefix);
    s.append(first.as_str());
    s.append(middle);
    s.append(second.as_str());
    s
}

impl I18nVersionError {
    /// The message that describes the error.
    pub fn to_string(&self) -> (s: String)
        ensures
            s@ == self@.message(),
    {
        match self {
            I18nVersionError::RootNotFound(p) => {
                let mut s = String::from_str("root path does not exist: ");
                s.append(p.as_str());
                s
            },
            I18nVersionError::ScanError { path, message } => joined(
                "failed to scan directory ",
                path,
                ": ",
                message,
            ),
            I18nVersionError::ReadError { path, message } => joined(
                "failed to read file ",
                path,
                ": ",
                message,
            ),
            I18nVersionError::InvalidGlob { pattern, message } => joined(
                "invalid glob pattern ",
                pattern,
                ": ",
                message,
            ),
            I18nVersionError::InvalidJson { path, message } => joined(
                "invalid JSON in ",
                path,
                ": ",
                message,
            ),
            I18nVersionError::InvalidLength(n) => {
                let mut s = String::from_str("length must be in [1, 64], got ");
                push_decimal(&mut s, *n);
                s
            },
        }
    }
}

} // verus!
