//! Deciding whether a published release is newer than the running version.
use vstd::prelude::*;

use crate::text::chars_of;

verus! {

/// A published release: its tag and the page it can be downloaded from.
pub struct Release {
    pub tag_name: String,
    pub html_url: String,
}

/// Whether a text matches `^\d+\.\d+\.\d+$` as the `regex` crate reads it.
pub uninterp spec fn semver_shaped(v: Seq<char>) -> bool;

/// Relies on `regex::Regex::is_match` with the pattern `^\d+\.\d+\.\d+$`,
/// which `regex::Regex::new` accepts: whether the whole text is three runs of
/// decimal digits joined by dots.
#[verifier::external_body]
fn is_valid_semver_version(version: &str) -> (r: bool)
    ensures
        r == semver_shaped(version@),
{
    regex::Regex::new(r"^\d+\.\d+\.\d+$").unwrap().is_match(version)
}

/// The pieces of a text between its dots, empty pieces included.
pub open spec fn split_dots(s: Seq<char>) -> Seq<Seq<char>>
    decreases s.len(),
{
    if s.len() == 0 {
        seq![Seq::empty()]
    } else {
        let r = split_dots(s.drop_last());
        if s.last() == '.' {
            r.push(Seq::empty())
        } else {
            r.update(r.len() - 1, r.last().push(s.last()))
        }
    }
}

/// Whether a character is an ASCII decimal digit.
pub open spec fn is_digit(c: char) -> bool {
    '0' <= c && c <= '9'
}

/// The value of a run of ASCII digits.
pub open spec fn digits_value(t: Seq<char>) -> nat
    decreases t.len(),
{
    if t.len() == 0 {
        0
    } else {
        10 * digits_value(t.drop_last()) + (t.last() as u32 - 48) as nat
    }
}

/// The number that a version component gives as a `u32`: a non-empty run of
/// ASCII digits whose value fits.
pub open spec fn component_value(t: Seq<char>) -> Option<nat> {
    if t.len() > 0 && (forall|i: int| 0 <= i < t.len() ==> is_digit(#[trigger] t[i]))
        && digits_value(t) <= u32::MAX {
        Some(digits_value(t))
    } else {
        None
    }
}

/// A release is newer when both versions have the `x.y.z` shape and at some
/// place the running version's component is smaller than the release's.
pub open spec fn newer(tag: Seq<char>, current: Seq<char>) -> bool {
    let c = split_dots(current);
    let l = split_dots(tag);
    semver_shaped(current) && semver_shaped(tag) && exists|i: int|
        0 <= i < c.len() && i < l.len() && #[trigger] component_value(c[i]) is Some
            && component_value(l[i]) is Some && component_value(c[i])->0 < component_value(
            l[i],
        )->0
}

/// The views of a list of character vectors.
pub open spec fn views(v: Seq<Vec<char>>) -> Seq<Seq<char>> {
    v.map_values(|x: Vec<char>| x@)
}

fn split_dots_exec(s: &str) -> (r: Vec<Vec<char>>)
    ensures
        views(r@) == split_dots(s@),
{
    let cs = chars_of(s);
    let mut done: Vec<Vec<char>> = Vec::new();
    let mut current: Vec<char> = Vec::new();
    let mut i: usize = 0;
    while i < cs.len()
        invariant
            cs@ == s@,
            i <= cs@.len(),
            split_dots(s@.subrange(0, i as int)) == views(done@).push(current@),
        decreases cs@.len() - i,
    {
        let ghost before = s@.subrange(0, i as int);
        assert(s@.subrange(0, i + 1).drop_last() == before);
        if cs[i] == '.' {
            let ghost old_done = done@;
            done.push(current);
            current = Vec::new();
            assert(views(done@) =~= views(old_done).push(views(done@).last()));
            assert(split_dots(s@.subrange(0, i + 1)) =~= views(done@).push(current@));
        } else {
            current.push(cs[i]);
            assert(split_dots(s@.subrange(0, i + 1)) =~= views(done@).push(current@));
        }
        i = i + 1;
    }
    assert(s@.subrange(0, i as int) == s@);
    let ghost old_done = done@;
    done.push(current);
    assert(views(done@) =~= views(old_done).push(views(done@).last()));
    done
}

proof fn lemma_digits_value_grows(t: Seq<char>, k: int)
    requires
        0 <= k <= t.len(),
        forall|i: int| 0 <= i < t.len() ==> is_digit(#[trigger] t[i]),
    ensures
        digits_value(t.subrange(0, k)) <= digits_value(t),
    decreases t.len() - k,
{
    if k < t.len() {
        let p = t.subrange(0, k + 1);
        assert(p.drop_last() == t.subrange(0, k));
        assert(is_digit(p.last()));
        lemma_digits_value_grows(t, k + 1);
    } else {
        assert(t.subrange(0, k) == t);
    }
}

fn component_value_exec(t: &Vec<char>) -> (r: Option<u32>)
    ensures
        match component_value(t@) {
            Some(v) => r == Some(v as u32),
            None => r is None,
        },
{
    let n = t.len();
    if n == 0 {
        return None;
    }
    let mut k: usize = 0;
    while k < n
        invariant
            n == t@.len(),
            k <= n,
            forall|i: int| 0 <= i < k ==> is_digit(#[trigger] t@[i]),
        decreases n - k,
    {
        if !('0' <= t[k] && t[k] <= '9') {
            return None;
        }
        k = k + 1;
    }
    let mut value: u32 = 0;
    let mut i: usize = 0;
    while i < n
        invariant
            n == t@.len(),
            i <= n,
            forall|j: int| 0 <= j < n ==> is_digit(#[trigger] t@[j]),
            value == digits_value(t@.subrange(0, i as int)),
        decreases n - i,
    {
        let d = t[i] as u32 - 48;
        assert(t@.subrange(0, i + 1).drop_last() == t@.subrange(0, i as int));
        if value > (u32::MAX - d) / 10 {
            proof {
                lemma_digits_value_grows(t@, i + 1);
            }
            return None;
        }
        value = value * 10 + d;
        i = i + 1;
    }
    assert(t@.subrange(0, n as int) == t@);
    Some(value)
}

/// Whether `release` is newer than the running `current_version`.
pub fn is_newer_release(release: &Release, current_version: &str) -> (r: bool)
    ensures
        r == newer(release.tag_name@, current_version@),
{
    if !is_valid_semver_version(current_version) {
        return false;
    }
    if !is_valid_semver_version(release.tag_name.as_str()) {
        return false;
    }
    let c = split_dots_exec(current_version);
    let l = split_dots_exec(release.tag_name.as_str());
    let mut i: usize = 0;
    while i < c.len() && i < l.len()
        invariant
            semver_shaped(current_version@),
            semver_shaped(release.tag_name@),
            views(c@) == split_dots(current_version@),
            views(l@) == split_dots(release.tag_name@),
            i <= c@.len(),
            forall|j: int|
                0 <= j < i ==> !(#[trigger] component_value(views(c@)[j]) is Some
                    && component_value(views(l@)[j]) is Some && component_value(
                    views(c@)[j],
                )->0 < component_value(views(l@)[j])->0),
        decreases c@.len() - i,
    {
        assert(views(c@)[i as int] == c@[i as int]@);
        assert(views(l@)[i as int] == l@[i as int]@);
        match (component_value_exec(&c[i]), component_value_exec(&l[i])) {
            (Some(a), Some(b)) => {
                if a < b {
                    assert(component_value(split_dots(current_version@)[i as int]) is Some);
                    return true;
                }
            },
            _ => {},
        }
        i = i + 1;
    }
    false
}

} // verus!
