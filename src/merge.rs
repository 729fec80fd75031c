//! Folding pending entries into the release document.
use vstd::prelude::*;
use vstd::string::*;

use crate::date::{resolve_date, ReleaseDate};
use crate::entry::{Entry, EntryModel};
use crate::error::ChangelogError;
use crate::json::parse_entry;
use crate::render::{models, release_text, render_release};
use crate::text::{chars_of, push_char};

verus! {

/// The line under which new release sections are inserted.
pub open spec fn anchor() -> Seq<char> {
    "## [Unreleased]\n"@
}

/// The document created when there is none yet: a title, a short
/// explanation and the anchor line.
pub open spec fn template() -> Seq<char> {
    "# Changelog\n\nAll notable changes to this project will be documented in this file.\n\nThe format is based on [Keep a Changelog](https://keepachangelog.com/en/1.1.0/),\nand this project adheres to [Semantic Versioning](https://semver.org/spec/v2.0.0.html).\n\n## [Unreleased]\n"@
}

/// Whether `pat` occurs in `doc` at `p`.
pub open spec fn occurs_at(doc: Seq<char>, pat: Seq<char>, p: int) -> bool {
    0 <= p && p + pat.len() <= doc.len() && doc.subrange(p, p + pat.len()) == pat
}

/// Whether `p` is the first place where `pat` occurs in `doc`.
pub open spec fn first_at(doc: Seq<char>, pat: Seq<char>, p: int) -> bool {
    occurs_at(doc, pat, p) && forall|q: int| 0 <= q < p ==> !occurs_at(doc, pat, q)
}

/// The document with a release section spliced in after the first anchor
/// line, with one blank line before the section and one after it; the
/// document as it is when it has no anchor line.
pub open spec fn spliced(doc: Seq<char>, section: Seq<char>) -> Seq<char> {
    if exists|p: int| first_at(doc, anchor(), p) {
        let p = choose|p: int| first_at(doc, anchor(), p);
        let e = p + anchor().len();
        doc.subrange(0, e) + "\n"@ + section + "\n"@ + doc.subrange(e, doc.len() as int)
    } else {
        doc
    }
}

/// The standard document for a new changelog.
pub fn base_changelog() -> (r: String)
    ensures
        r@ == template(),
{
    String::from_str(
        "# Changelog\n\nAll notable changes to this project will be documented in this file.\n\nThe format is based on [Keep a Changelog](https://keepachangelog.com/en/1.1.0/),\nand this project adheres to [Semantic Versioning](https://semver.org/spec/v2.0.0.html).\n\n## [Unreleased]\n",
    )
}

fn append_range(s: &mut String, cs: &Vec<char>, from: usize, to: usize)
    requires
        from <= to <= cs@.len(),
    ensures
        final(s)@ == old(s)@ + cs@.subrange(from as int, to as int),
{
    let ghost start = s@;
    let mut i = from;
    while i < to
        invariant
            from <= i <= to,
            to <= cs@.len(),
            s@ == start + cs@.subrange(from as int, i as int),
        decreases to - i,
    {
        push_char(s, cs[i]);
        assert(cs@.subrange(from as int, i + 1) == cs@.subrange(from as int, i as int).push(
            cs@[i as int],
        ));
        i = i + 1;
    }
}

fn occurs_at_exec(d: &Vec<char>, a: &Vec<char>, p: usize) -> (r: bool)
    requires
        p + a@.len() <= d@.len(),
    ensures
        r == occurs_at(d@, a@, p as int),
{
    let n = d.len();
    let mut k: usize = 0;
    while k < a.len()
        invariant
            n == d@.len(),
            p + a@.len() <= d@.len(),
            k <= a@.len(),
            forall|t: int| 0 <= t < k ==> d@[p + t] == a@[t],
        decreases a@.len() - k,
    {
        if d[p + k] != a[k] {
            assert(d@.subrange(p as int, p + a@.len())[k as int] != a@[k as int]);
            return false;
        }
        k = k + 1;
    }
    assert(d@.subrange(p as int, p + a@.len()) =~= a@);
    true
}

/// Splices a release section into a document after its anchor line.
pub fn insert_release(document: &str, section: &str) -> (r: String)
    ensures
        r@ == spliced(document@, section@),
{
    let d = chars_of(document);
    let a = chars_of("## [Unreleased]\n");
    let n = d.len();
    let m = a.len();
    let mut p: usize = 0;
    while p < n && n - p >= m
        invariant
            d@ == document@,
            a@ == anchor(),
            n == d@.len(),
            m == a@.len(),
            forall|q: int| 0 <= q < p ==> !occurs_at(d@, a@, q),
        decreases n - p,
    {
        if occurs_at_exec(&d, &a, p) {
            let e = p + m;
            assert(first_at(d@, a@, p as int));
            let ghost c = choose|c: int| first_at(d@, a@, c);
            assert(c == p) by {
                if c < p {
                } else if c > p {
                    assert(!occurs_at(d@, a@, p as int));
                }
            }
            let mut r = String::new();
            append_range(&mut r, &d, 0, e);
            r.append("\n");
            r.append(section);
            r.append("\n");
            append_range(&mut r, &d, e, n);
            return r;
        }
        p = p + 1;
    }
    proof {
        reveal_strlit("## [Unreleased]\n");
    }
    assert(p >= n || n - p < m);
    assert forall|q: int| !first_at(d@, a@, q) by {
        if q >= p {
            assert(q + m > n);
        }
    }
    let mut r = String::new();
    append_range(&mut r, &d, 0, n);
    assert(d@.subrange(0, n as int) == d@);
    r
}

/// The new document: the release section spliced into the existing
/// document, or into the standard one when there is none yet.
pub fn merge_document(document: &Option<String>, section: &str) -> (r: String)
    ensures
        r@ == spliced(
            match document {
                Some(d) => d@,
                None => template(),
            },
            section@,
        ),
{
    match document {
        Some(d) => insert_release(d.as_str(), section),
        None => {
            let base = base_changelog();
            insert_release(base.as_str(), section)
        },
    }
}

/// Whether every text is an entry file.
pub open spec fn all_parse(files: Seq<Seq<char>>) -> bool {
    forall|i: int| 0 <= i < files.len() ==> #[trigger] parse_entry(files[i]) is Some
}

/// The entries that the files hold.
pub open spec fn parsed(files: Seq<Seq<char>>) -> Seq<EntryModel> {
    Seq::new(files.len(), |i: int| parse_entry(files[i])->0)
}

/// The texts of a sequence of strings.
pub open spec fn texts(v: Seq<String>) -> Seq<Seq<char>> {
    v.map_values(|s: String| s@)
}

/// Reads every pending entry file; one that is not an entry fails the
/// whole read.
pub fn parse_entries(files: &Vec<String>) -> (r: Result<Vec<Entry>, ChangelogError>)
    ensures
        match r {
            Ok(v) => all_parse(texts(files@)) && models(v@) == parsed(texts(files@)),
            Err(x) => !all_parse(texts(files@)) && x == ChangelogError::ParseError,
        },
{
    let mut v: Vec<Entry> = Vec::new();
    let mut i: usize = 0;
    while i < files.len()
        invariant
            i <= files@.len(),
            v@.len() == i,
            forall|k: int| 0 <= k < i ==> #[trigger] parse_entry(files@[k]@) is Some,
            forall|k: int| 0 <= k < i ==> v@[k]@ == #[trigger] parse_entry(files@[k]@)->0,
        decreases files@.len() - i,
    {
        match Entry::from_json(&files[i]) {
            Ok(e) => {
                v.push(e);
            },
            Err(x) => {
                assert(parse_entry(texts(files@)[i as int]) is None);
                return Err(x);
            },
        }
        i = i + 1;
    }
    assert(models(v@) =~= parsed(texts(files@)));
    Ok(v)
}

/// What the pending entry files give for a release of `version` on `date`:
/// a parse failure, nothing to do when no entry is pending, or the release
/// section to splice in.
pub open spec fn pending_outcome(files: Seq<Seq<char>>, version: Seq<char>, date: ReleaseDate) -> Result<
    Option<Seq<char>>,
    ChangelogError,
> {
    if !all_parse(files) {
        Err(ChangelogError::ParseError)
    } else if files.len() == 0 {
        Ok(None)
    } else {
        Ok(Some(release_text(parsed(files), version, date)))
    }
}

/// The release section for the pending entry files, dated `date`; `None`
/// when nothing is pending.
pub fn release_section(files: &Vec<String>, version: &str, date: &ReleaseDate) -> (r: Result<
    Option<String>,
    ChangelogError,
>)
    requires
        date.wf(),
    ensures
        match (r, pending_outcome(texts(files@), version@, *date)) {
            (Ok(Some(t)), Ok(Some(u))) => t@ == u,
            (Ok(None), Ok(None)) => true,
            (Err(x), Err(y)) => x == y,
            _ => false,
        },
{
    let entries = parse_entries(files)?;
    if entries.len() == 0 {
        return Ok(None);
    }
    Ok(Some(render_release(&entries, version, date)))
}

/// The release section for the pending entry files, dated `date` or today
/// when no date is given; `None` when nothing is pending.
pub fn pending_release(files: &Vec<String>, version: &String, date: &Option<ReleaseDate>) -> (r:
    Result<Option<String>, ChangelogError>)
    requires
        date matches Some(d) ==> d.wf(),
    ensures
        exists|d: ReleaseDate|
            d.wf() && (date matches Some(g) ==> d == g) && match (
                r,
                #[trigger] pending_outcome(texts(files@), version@, d),
            ) {
                (Ok(Some(t)), Ok(Some(u))) => t@ == u,
                (Ok(None), Ok(None)) => true,
                (Err(x), Err(y)) => x == y,
                _ => false,
            },
{
    let d = resolve_date(date);
    release_section(files, version.as_str(), &d)
}

/// With no pending entry, a merge has nothing to do: the document is left
/// as it is, whatever the version and the date.
pub proof fn lemma_empty_merge_is_noop(version: Seq<char>, date: ReleaseDate)
    ensures
        pending_outcome(Seq::empty(), version, date) == Ok::<Option<Seq<char>>, ChangelogError>(
            None,
        ),
{
}

} // verus!
