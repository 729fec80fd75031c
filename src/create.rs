//! Naming and encoding a new pending entry file.
use vstd::prelude::*;
use vstd::string::*;

use crate::entry::Entry;
use crate::error::ChangelogError;
use crate::json::entry_json;

verus! {

/// What `slug::slugify` makes of a text.
pub uninterp spec fn slug_of(s: Seq<char>) -> Seq<char>;

/// The characters a slug is made of: `a-z`, `0-9` and `-`.
pub open spec fn is_slug_char(c: char) -> bool {
    ('a' <= c && c <= 'z') || ('0' <= c && c <= '9') || c == '-'
}

/// Relies on `slug::slugify`: the slug of a text, made of `a-z`, `0-9` and
/// `-`, with no two `-` in a row and none at either end.
#[verifier::external_body]
fn slugify(s: &str) -> (r: String)
    ensures
        r@ == slug_of(s@),
        forall|i: int| 0 <= i < r@.len() ==> is_slug_char(#[trigger] r@[i]),
        forall|i: int| 0 <= i < r@.len() - 1 ==> !(#[trigger] r@[i] == '-' && r@[i + 1] == '-'),
        r@.len() > 0 ==> r@[0] != '-' && r@[r@.len() - 1] != '-',
{
    slug::slugify(s)
}

/// The name of the entry file of a branch: the slug of the branch name with
/// the `.json` extension.
pub open spec fn file_name_of(branch: Seq<char>) -> Seq<char> {
    slug_of(branch) + ".json"@
}

/// The name of the entry file of a branch.
pub fn entry_file_name(branch: &String) -> (r: String)
    ensures
        r@ == file_name_of(branch@),
        forall|i: int|
            0 <= i < r@.len() - 5 ==> is_slug_char(#[trigger] r@[i]),
{
    let mut name = slugify(branch.as_str());
    let ghost slug = name@;
    name.append(".json");
    proof {
        reveal_strlit(".json");
        assert forall|i: int| 0 <= i < name@.len() - 5 implies is_slug_char(#[trigger] name@[i]) by {
            assert(name@[i] == slug[i]);
        }
    }
    name
}

/// A pending entry file: its name in the store and its content.
pub struct EntryFile {
    pub name: String,
    pub content: String,
}

/// The entry file to create for an entry recorded on a branch: named after
/// the branch, holding the entry's JSON text.
pub fn entry_file(entry: &Entry, branch: &String) -> (r: Result<EntryFile, ChangelogError>)
    ensures
        r matches Ok(f) && f.name@ == file_name_of(branch@) && f.content@ == entry_json(entry@),
{
    let name = entry_file_name(branch);
    let content = entry.to_json()?;
    Ok(EntryFile { name, content })
}

} // verus!
