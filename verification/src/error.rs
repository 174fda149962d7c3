//! Errors of the executor's public interface.
use vstd::prelude::*;
use vstd::string::*;

verus! {

/// No system with the given handle is present in an executor.
#[derive(Debug, Clone, Copy, PartialEq, Eq, Structural)]
pub struct NoSuchSystem;

impl NoSuchSystem {
    /// The error's message.
    pub fn message(&self) -> (r: String)
        ensures
            r@ == "no such system"@,
    {
        String::from_str("no such system")
    }
}

/// Why a system could not be inserted into an executor.
#[derive(Debug, PartialEq, Eq)]
pub enum CantInsertSystem {
    /// Inserting the system would create a cycle of dependencies.
    CyclicDependency,
    /// A dependency names a handle that no system has; the handle, as written.
    DependencyNotFound(String),
}

/// The text as `{:?}` writes a string: quoted, with special characters escaped.
pub uninterp spec fn debug_text(s: Seq<char>) -> Seq<char>;

/// `<String as Debug>::fmt`, through `format!("{:?}", ..)`: the string quoted and escaped.
#[verifier::external_body]
fn debug_string(s: &String) -> (r: String)
    ensures
        r@ == debug_text(s@),
{
    format!("{:?}", s)
}

impl CantInsertSystem {
    /// The error's message.
    pub fn message(&self) -> (r: String)
        ensures
            r@ == match self {
                CantInsertSystem::CyclicDependency => "inserting the system would create a cycle of dependencies"@,
                CantInsertSystem::DependencyNotFound(handle) => "invalid dependency: no system with handle `"@
                    + debug_text(handle@) + "`"@,
            },
    {
        match self {
            CantInsertSystem::CyclicDependency => String::from_str(
                "inserting the system would create a cycle of dependencies",
            ),
            CantInsertSystem::DependencyNotFound(handle) => {
                let mut r = String::from_str("invalid dependency: no system with handle `");
                let quoted = debug_string(handle);
                r.append(quoted.as_str());
                r.append("`");
                r
            },
        }
    }
}

} // verus!
