//! Where the tools of a development checkout are expected.
use vstd::prelude::*;
use vstd::string::*;

verus! {

/// The path `base` with the relative path `tail` added as its last
/// components.
pub open spec fn joined(base: Seq<char>, tail: Seq<char>) -> Seq<char> {
    if base.len() == 0 || base.last() == '/' {
        base + tail
    } else {
        base + seq!['/'] + tail
    }
}

/// Adds the relative path `tail` to the path `base`.
fn join_path(base: &str, tail: &str) -> (r: String)
    ensures
        r@ == joined(base@, tail@),
{
    let mut path = String::from_str(base);
    let n = base.unicode_len();
    if n > 0 && base.get_char(n - 1) != '/' {
        proof {
            reveal_strlit("/");
        }
        path.append("/");
    }
    path.append(tail);
    path
}

/// Where the tools were found.
pub enum InstallType {
    /// A checked out repository built in place, at the given path.
    DevRepo(String),
}

impl InstallType {
    /// The path of the repository.
    pub open spec fn repo(&self) -> Seq<char> {
        match self {
            InstallType::DevRepo(repo) => repo@,
        }
    }

    /// Where the compiler driver is expected.
    pub fn rmc_rustc(&self) -> (r: String)
        ensures
            r@ == joined(self.repo(), "scripts/rmc-rustc"@),
    {
        match self {
            InstallType::DevRepo(repo) => join_path(repo.as_str(), "scripts/rmc-rustc"),
        }
    }

    /// Where the C library of the model checker's primitives is expected.
    pub fn rmc_lib_c(&self) -> (r: String)
        ensures
            r@ == joined(self.repo(), "library/rmc/rmc_lib.c"@),
    {
        match self {
            InstallType::DevRepo(repo) => join_path(repo.as_str(), "library/rmc/rmc_lib.c"),
        }
    }

    /// Where the script that parses the checker's output is expected.
    pub fn cbmc_json_parser_py(&self) -> (r: String)
        ensures
            r@ == joined(self.repo(), "scripts/cbmc_json_parser.py"@),
    {
        match self {
            InstallType::DevRepo(repo) => join_path(repo.as_str(), "scripts/cbmc_json_parser.py"),
        }
    }
}

} // verus!
