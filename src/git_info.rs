//! What the source-control checkout tells about the current change.
use vstd::prelude::*;
use vstd::string::*;

verus! {

/// The active branch and the configured user name.
pub struct GitInfo {
    branch: String,
    username: String,
}

impl GitInfo {
    /// The branch name.
    pub closed spec fn branch_spec(&self) -> Seq<char> {
        self.branch@
    }

    /// The user name.
    pub closed spec fn username_spec(&self) -> Seq<char> {
        self.username@
    }

    /// Information made of a branch name and a user name.
    pub fn new(branch: String, username: String) -> (r: GitInfo)
        ensures
            r.branch_spec() == branch@,
            r.username_spec() == username@,
    {
        GitInfo { branch, username }
    }
}

/// What a checkout provides to record an entry: the branch that names the
/// entry file and the default author.
pub trait GitInfoProvider {
    fn get_branch(&self) -> &String;

    fn get_username(&self) -> String;
}

impl GitInfoProvider for GitInfo {
    fn get_branch(&self) -> (r: &String)
        ensures
            r@ == self.branch_spec(),
    {
        &self.branch
    }

    fn get_username(&self) -> (r: String)
        ensures
            r@ == self.username_spec(),
    {
        self.username.clone()
    }
}

/// What `str::trim` leaves of a text.
pub uninterp spec fn trimmed_of(s: Seq<char>) -> Seq<char>;

/// Relies on `str::trim`: the text without leading and trailing white space.
#[verifier::external_body]
fn trim(s: &str) -> (r: String)
    ensures
        r@ == trimmed_of(s@),
{
    s.trim().to_string()
}

/// The value a git query gives: its trimmed output when it succeeded,
/// `Unknown` otherwise.
pub fn git_output(success: bool, stdout: &str) -> (r: String)
    ensures
        r@ == (if success {
            trimmed_of(stdout@)
        } else {
            "Unknown"@
        }),
{
    if success {
        trim(stdout)
    } else {
        String::from_str("Unknown")
    }
}

} // verus!
