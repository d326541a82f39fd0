//! Where the vendored DirectX shader compiler lives, and the answer to a
//! lookup once it is known whether the file is there.

use vstd::prelude::*;

verus! {

/// The directories, below the project root, that hold the vendored DXC
/// libraries, outermost first.
pub open spec fn vendored_dxc_dirs() -> Seq<Seq<char>> {
    seq!["third_party"@, "dxc"@, "bin"@, "x64"@]
}

/// A vendored DXC library that is not where it is expected.
#[derive(Debug, PartialEq, Eq)]
pub enum DxcLocateError {
    NotFound { path: String },
}

/// The message for a library missing at `path`.
pub open spec fn not_found_message(path: Seq<char>) -> Seq<char> {
    "Unable to locate vendored DXC library at "@ + path
}

impl DxcLocateError {
    /// Describes the failure in words.
    pub fn message(&self) -> (m: String)
        ensures
            m@ == match self {
                DxcLocateError::NotFound { path } => not_found_message(path@),
            },
    {
        match self {
            DxcLocateError::NotFound { path } => {
                let mut m = String::from_str("Unable to locate vendored DXC library at ");
                m.append(path.as_str());
                m
            },
        }
    }
}

/// The path components, below the project root, of the vendored library
/// called `library_name`: the vendored directories, then the file itself.
pub fn vendored_dxc_components(library_name: &str) -> (parts: Vec<String>)
    ensures
        parts@.len() == 5,
        forall|i: int| 0 <= i < 4 ==> parts@[i]@ == vendored_dxc_dirs()[i],
        parts@[4]@ == library_name@,
{
    let mut parts: Vec<String> = Vec::new();
    parts.push(String::from_str("third_party"));
    parts.push(String::from_str("dxc"));
    parts.push(String::from_str("bin"));
    parts.push(String::from_str("x64"));
    parts.push(String::from_str(library_name));
    parts
}

/// The answer to a lookup of the vendored library at `vendored_path`: the
/// path when a file is there, otherwise a not-found error naming the path.
pub fn find_dxc_library(vendored_path: String, is_file: bool) -> (r: Result<String, DxcLocateError>)
    ensures
        is_file ==> r == Ok::<String, DxcLocateError>(vendored_path),
        !is_file ==> r == Err::<String, DxcLocateError>(DxcLocateError::NotFound { path: vendored_path }),
{
    if is_file {
        Ok(vendored_path)
    } else {
        Err(DxcLocateError::NotFound { path: vendored_path })
    }
}

} // verus!
