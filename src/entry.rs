//! The entry model: categories, entries, their ordering and the builder.
use vstd::prelude::*;
use vstd::string::*;

use std::cmp::Ordering;

use crate::error::{ChangelogError, RequiredField};
use crate::text::{chars_of, str_equal};

verus! {

/// The category of a change. The declaration order is the order in which
/// categories are rendered.
#[derive(Clone, Copy, Debug, PartialEq, Eq, Structural, Hash)]
pub enum EntryType {
    Added,
    Changed,
    Fixed,
    Removed,
    Deprecated,
    Security,
    Technical,
}

/// Position of a category in the declaration order.
pub open spec fn ordinal(c: EntryType) -> nat {
    match c {
        EntryType::Added => 0,
        EntryType::Changed => 1,
        EntryType::Fixed => 2,
        EntryType::Removed => 3,
        EntryType::Deprecated => 4,
        EntryType::Security => 5,
        EntryType::Technical => 6,
    }
}

/// The upper-case token that names a category on the command line.
pub open spec fn token_of(c: EntryType) -> Seq<char> {
    match c {
        EntryType::Added => "ADDED"@,
        EntryType::Changed => "CHANGED"@,
        EntryType::Fixed => "FIXED"@,
        EntryType::Removed => "REMOVED"@,
        EntryType::Deprecated => "DEPRECATED"@,
        EntryType::Security => "SECURITY"@,
        EntryType::Technical => "TECHNICAL"@,
    }
}

/// The display name of a category, its identifier in title case.
pub open spec fn name_of(c: EntryType) -> Seq<char> {
    match c {
        EntryType::Added => "Added"@,
        EntryType::Changed => "Changed"@,
        EntryType::Fixed => "Fixed"@,
        EntryType::Removed => "Removed"@,
        EntryType::Deprecated => "Deprecated"@,
        EntryType::Security => "Security"@,
        EntryType::Technical => "Technical"@,
    }
}

impl EntryType {
    /// Parses the upper-case token of a category (`"ADDED"`, ...).
    pub fn from_str(s: &str) -> (r: Result<EntryType, ()>)
        ensures
            match r {
                Ok(c) => token_of(c) == s@,
                Err(_) => forall|c: EntryType| token_of(c) != s@,
            },
    {
        if str_equal(s, "ADDED") {
            Ok(EntryType::Added)
        } else if str_equal(s, "CHANGED") {
            Ok(EntryType::Changed)
        } else if str_equal(s, "FIXED") {
            Ok(EntryType::Fixed)
        } else if str_equal(s, "REMOVED") {
            Ok(EntryType::Removed)
        } else if str_equal(s, "DEPRECATED") {
            Ok(EntryType::Deprecated)
        } else if str_equal(s, "SECURITY") {
            Ok(EntryType::Security)
        } else if str_equal(s, "TECHNICAL") {
            Ok(EntryType::Technical)
        } else {
            Err(())
        }
    }
}


/// A change record as a mathematical value.
pub struct EntryModel {
    pub author: Seq<char>,
    pub title: Seq<char>,
    pub description: Option<Seq<char>>,
    pub category: EntryType,
    pub is_breaking_change: bool,
    pub issue: Seq<char>,
}

/// One recorded change awaiting release.
#[derive(Debug, PartialEq, Eq)]
pub struct Entry {
    pub author: String,
    pub title: String,
    pub description: Option<String>,
    pub category: EntryType,
    pub is_breaking_change: bool,
    pub issue: String,
}

/// The characters of an optional string.
pub open spec fn opt_view(o: Option<String>) -> Option<Seq<char>> {
    match o {
        Some(s) => Some(s@),
        None => None,
    }
}

impl View for Entry {
    type V = EntryModel;

    open spec fn view(&self) -> EntryModel {
        EntryModel {
            author: self.author@,
            title: self.title@,
            description: opt_view(self.description),
            category: self.category,
            is_breaking_change: self.is_breaking_change,
            issue: self.issue@,
        }
    }
}

/// The marker put in front of the title of a breaking change.
pub open spec fn breaking_prefix(breaking: bool) -> Seq<char> {
    if breaking {
        "**BREAKING CHANGE** "@
    } else {
        Seq::empty()
    }
}

/// The indented continuation line that carries a description, if any.
pub open spec fn description_suffix(d: Option<Seq<char>>) -> Seq<char> {
    match d {
        Some(text) => "\n  "@ + text,
        None => Seq::empty(),
    }
}

/// The Markdown list item of an entry:
/// `- [<prefix><title>](<issue>)`, the description line, then a newline.
pub open spec fn markdown_of(e: EntryModel) -> Seq<char> {
    "- ["@ + breaking_prefix(e.is_breaking_change) + e.title + "]("@ + e.issue + ")"@
        + description_suffix(e.description) + "\n"@
}

impl EntryType {
    /// The display name of the category (`Added`, `Changed`, ...).
    pub fn to_string(&self) -> (r: String)
        ensures
            r@ == name_of(*self),
    {
        match self {
            EntryType::Added => String::from_str("Added"),
            EntryType::Changed => String::from_str("Changed"),
            EntryType::Fixed => String::from_str("Fixed"),
            EntryType::Removed => String::from_str("Removed"),
            EntryType::Deprecated => String::from_str("Deprecated"),
            EntryType::Security => String::from_str("Security"),
            EntryType::Technical => String::from_str("Technical"),
        }
    }
}

impl Entry {
    /// A builder with no field set.
    pub fn builder() -> (r: EntryBuilder)
        ensures
            r@ == EntryBuilder::empty_spec(),
    {
        EntryBuilder {
            author: None,
            title: None,
            description: None,
            category: None,
            is_breaking_change: None,
            issue: None,
        }
    }

    /// The Markdown list item of this entry.
    pub fn to_markdown(&self) -> (r: String)
        ensures
            r@ == markdown_of(self@),
    {
        let mut r = String::from_str("- [");
        if self.is_breaking_change {
            r.append("**BREAKING CHANGE** ");
        }
        r.append(self.title.as_str());
        r.append("](");
        r.append(self.issue.as_str());
        r.append(")");
        match &self.description {
            Some(d) => {
                r.append("\n  ");
                r.append(d.as_str());
            },
            None => {},
        }
        r.append("\n");
        r
    }
}

/// Lexicographic order of texts by code point, as `str` orders them.
pub open spec fn text_less(a: Seq<char>, b: Seq<char>) -> bool
    decreases a.len(),
{
    if a.len() == 0 {
        b.len() > 0
    } else if b.len() == 0 {
        false
    } else if a[0] != b[0] {
        (a[0] as u32) < (b[0] as u32)
    } else {
        text_less(a.drop_first(), b.drop_first())
    }
}

/// The rendering order of entries: breaking changes first, then titles in
/// ascending order.
pub open spec fn entry_less(a: EntryModel, b: EntryModel) -> bool {
    (a.is_breaking_change && !b.is_breaking_change) || (a.is_breaking_change
        == b.is_breaking_change && text_less(a.title, b.title))
}

proof fn lemma_text_less_step(a: Seq<char>, b: Seq<char>, i: int)
    requires
        0 <= i < a.len(),
        i < b.len(),
        a[i] == b[i],
    ensures
        text_less(a.skip(i), b.skip(i)) == text_less(a.skip(i + 1), b.skip(i + 1)),
{
    assert(a.skip(i).drop_first() == a.skip(i + 1));
    assert(b.skip(i).drop_first() == b.skip(i + 1));
}

/// Compares two texts in the order of `text_less`.
pub fn compare_text(a: &str, b: &str) -> (r: Ordering)
    ensures
        (r == Ordering::Less) == text_less(a@, b@),
        (r == Ordering::Greater) == text_less(b@, a@),
{
    let ca = chars_of(a);
    let cb = chars_of(b);
    let n = ca.len();
    let m = cb.len();
    let mut i: usize = 0;
    assert(a@.skip(0) == a@);
    assert(b@.skip(0) == b@);
    while i < n && i < m
        invariant
            ca@ == a@,
            cb@ == b@,
            n == a@.len(),
            m == b@.len(),
            i <= n,
            i <= m,
            text_less(a@, b@) == text_less(a@.skip(i as int), b@.skip(i as int)),
            text_less(b@, a@) == text_less(b@.skip(i as int), a@.skip(i as int)),
        decreases n - i,
    {
        let x = ca[i];
        let y = cb[i];
        if x != y {
            assert(a@.skip(i as int)[0] == x);
            assert(b@.skip(i as int)[0] == y);
            if (x as u32) < (y as u32) {
                return Ordering::Less;
            } else {
                proof {
                    if !((y as u32) < (x as u32)) {
                        lemma_code_order(x, y);
                    }
                }
                return Ordering::Greater;
            }
        }
        proof {
            lemma_text_less_step(a@, b@, i as int);
            lemma_text_less_step(b@, a@, i as int);
        }
        i = i + 1;
    }
    if i < m {
        Ordering::Less
    } else if i < n {
        Ordering::Greater
    } else {
        Ordering::Equal
    }
}

impl Entry {
    /// Compares two entries in rendering order: breaking changes first, then
    /// ascending title.
    pub fn cmp(&self, other: &Entry) -> (r: Ordering)
        ensures
            (r == Ordering::Less) == entry_less(self@, other@),
            (r == Ordering::Greater) == entry_less(other@, self@),
    {
        if self.is_breaking_change && !other.is_breaking_change {
            Ordering::Less
        } else if !self.is_breaking_change && other.is_breaking_change {
            Ordering::Greater
        } else {
            compare_text(self.title.as_str(), other.title.as_str())
        }
    }

    /// Whether this entry is rendered before `other` in the same category.
    pub fn precedes(&self, other: &Entry) -> (r: bool)
        ensures
            r == entry_less(self@, other@),
    {
        match self.cmp(other) {
            Ordering::Less => true,
            _ => false,
        }
    }
}

/// Accumulates the fields of an entry before the required ones are checked.
#[derive(Debug)]
pub struct EntryBuilder {
    pub author: Option<String>,
    pub title: Option<String>,
    pub description: Option<String>,
    pub category: Option<EntryType>,
    pub is_breaking_change: Option<bool>,
    pub issue: Option<String>,
}

/// The fields gathered by a builder so far.
pub struct BuilderModel {
    pub author: Option<Seq<char>>,
    pub title: Option<Seq<char>>,
    pub description: Option<Seq<char>>,
    pub category: Option<EntryType>,
    pub is_breaking_change: Option<bool>,
    pub issue: Option<Seq<char>>,
}

impl View for EntryBuilder {
    type V = BuilderModel;

    open spec fn view(&self) -> BuilderModel {
        BuilderModel {
            author: opt_view(self.author),
            title: opt_view(self.title),
            description: opt_view(self.description),
            category: self.category,
            is_breaking_change: self.is_breaking_change,
            issue: opt_view(self.issue),
        }
    }
}

/// Whether an optional string is absent or holds no character.
pub open spec fn is_missing(o: Option<Seq<char>>) -> bool {
    match o {
        Some(s) => s.len() == 0,
        None => true,
    }
}

/// What building from the gathered fields gives: the first required field
/// that is missing (author, then title, then issue), or the entry, with
/// `Changed` and `false` where category and breaking-change flag were not set.
pub open spec fn build_result(b: BuilderModel) -> Result<EntryModel, ChangelogError> {
    if is_missing(b.author) {
        Err(ChangelogError::MissingField(RequiredField::Author))
    } else if is_missing(b.title) {
        Err(ChangelogError::MissingField(RequiredField::Title))
    } else if is_missing(b.issue) {
        Err(ChangelogError::MissingField(RequiredField::Issue))
    } else {
        Ok(
            EntryModel {
                author: b.author.unwrap(),
                title: b.title.unwrap(),
                description: b.description,
                category: b.category.unwrap_or(EntryType::Changed),
                is_breaking_change: b.is_breaking_change.unwrap_or(false),
                issue: b.issue.unwrap(),
            },
        )
    }
}

/// The builder's steps: each sets one field, `build` checks the required ones.
pub trait Builder: Sized {
    fn author(self, author: String) -> Self;

    fn title(self, title: String) -> Self;

    fn description(self, description: Option<String>) -> Self;

    fn category(self, entry_type: EntryType) -> Self;

    fn is_breaking_change(self, is_breaking_change: Option<bool>) -> Self;

    fn issue(self, issue: String) -> Self;

    fn build(self) -> Result<Entry, ChangelogError>;
}

fn is_missing_exec(o: &Option<String>) -> (r: bool)
    ensures
        r == is_missing(opt_view(*o)),
{
    match o {
        Some(s) => s.as_str().is_empty(),
        None => true,
    }
}

impl Builder for EntryBuilder {
    fn author(self, author: String) -> (r: Self)
        ensures
            r@ == (BuilderModel { author: Some(author@), ..self@ }),
    {
        EntryBuilder { author: Some(author), ..self }
    }

    fn title(self, title: String) -> (r: Self)
        ensures
            r@ == (BuilderModel { title: Some(title@), ..self@ }),
    {
        EntryBuilder { title: Some(title), ..self }
    }

    fn description(self, description: Option<String>) -> (r: Self)
        ensures
            r@ == (BuilderModel { description: opt_view(description), ..self@ }),
    {
        EntryBuilder { description, ..self }
    }

    fn category(self, entry_type: EntryType) -> (r: Self)
        ensures
            r@ == (BuilderModel { category: Some(entry_type), ..self@ }),
    {
        EntryBuilder { category: Some(entry_type), ..self }
    }

    fn is_breaking_change(self, is_breaking_change: Option<bool>) -> (r: Self)
        ensures
            r@ == (BuilderModel { is_breaking_change, ..self@ }),
    {
        EntryBuilder { is_breaking_change, ..self }
    }

    fn issue(self, issue: String) -> (r: Self)
        ensures
            r@ == (BuilderModel { issue: Some(issue@), ..self@ }),
    {
        EntryBuilder { issue: Some(issue), ..self }
    }

    fn build(self) -> (r: Result<Entry, ChangelogError>)
        ensures
            match (r, build_result(self@)) {
                (Ok(e), Ok(m)) => e@ == m,
                (Err(x), Err(y)) => x == y,
                _ => false,
            },
    {
        if is_missing_exec(&self.author) {
            return Err(ChangelogError::MissingField(RequiredField::Author));
        }
        if is_missing_exec(&self.title) {
            return Err(ChangelogError::MissingField(RequiredField::Title));
        }
        if is_missing_exec(&self.issue) {
            return Err(ChangelogError::MissingField(RequiredField::Issue));
        }
        let EntryBuilder { author, title, description, category, is_breaking_change, issue } =
            self;
        match (author, title, issue) {
            (Some(author), Some(title), Some(issue)) => Ok(
                Entry {
                    author,
                    title,
                    description,
                    category: category.unwrap_or(EntryType::Changed),
                    is_breaking_change: is_breaking_change.unwrap_or(false),
                    issue,
                },
            ),
            _ => Err(ChangelogError::MissingField(RequiredField::Author)),
        }
    }
}

impl EntryBuilder {
    /// The fields of a builder with none set.
    pub open spec fn empty_spec() -> BuilderModel {
        BuilderModel {
            author: None,
            title: None,
            description: None,
            category: None,
            is_breaking_change: None,
            issue: None,
        }
    }
}


/// No text precedes itself.
pub proof fn lemma_text_less_irreflexive(a: Seq<char>)
    ensures
        !text_less(a, a),
    decreases a.len(),
{
    if a.len() > 0 {
        lemma_text_less_irreflexive(a.drop_first());
    }
}

/// The order of texts is transitive.
pub proof fn lemma_text_less_transitive(a: Seq<char>, b: Seq<char>, c: Seq<char>)
    requires
        text_less(a, b),
        text_less(b, c),
    ensures
        text_less(a, c),
    decreases a.len(),
{
    if a.len() > 0 && a[0] == b[0] && b[0] == c[0] {
        lemma_text_less_transitive(a.drop_first(), b.drop_first(), c.drop_first());
    }
}

/// Two texts that neither precede the other are equal.
pub proof fn lemma_text_less_total(a: Seq<char>, b: Seq<char>)
    requires
        !text_less(a, b),
        !text_less(b, a),
    ensures
        a == b,
    decreases a.len(),
{
    if a.len() > 0 && b.len() > 0 {
        lemma_code_order(a[0], b[0]);
        lemma_text_less_total(a.drop_first(), b.drop_first());
        assert(a == seq![a[0]] + a.drop_first());
        assert(b == seq![b[0]] + b.drop_first());
    } else {
        assert(a.len() == 0 && b.len() == 0);
        assert(a == b);
    }
}

proof fn lemma_code_order(c: char, d: char)
    requires
        !((c as u32) < (d as u32)),
        !((d as u32) < (c as u32)),
    ensures
        c == d,
{
}

/// No entry precedes itself.
pub proof fn lemma_entry_less_irreflexive(a: EntryModel)
    ensures
        !entry_less(a, a),
{
    lemma_text_less_irreflexive(a.title);
}

/// The rendering order of entries is transitive.
pub proof fn lemma_entry_less_transitive(a: EntryModel, b: EntryModel, c: EntryModel)
    requires
        entry_less(a, b),
        entry_less(b, c),
    ensures
        entry_less(a, c),
{
    if a.is_breaking_change == b.is_breaking_change && b.is_breaking_change
        == c.is_breaking_change {
        lemma_text_less_transitive(a.title, b.title, c.title);
    }
}

} // verus!
