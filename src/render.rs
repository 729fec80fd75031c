//! Grouping, ordering and rendering of pending entries as a release section.
use vstd::prelude::*;
use vstd::string::*;

use crate::date::{append_date, date_text, resolve_date, ReleaseDate};
use crate::error::ChangelogError;
use crate::entry::{
    entry_less, lemma_entry_less_irreflexive, lemma_entry_less_transitive, lemma_text_less_total,
    markdown_of, name_of, ordinal, Entry, EntryModel, EntryType,
};

verus! {

/// The models of a sequence of entries.
pub open spec fn models(v: Seq<Entry>) -> Seq<EntryModel> {
    v.map_values(|e: Entry| e@)
}

/// Inserts `x` into `s` before the first element that `x` precedes, that is
/// after every element it does not precede.
pub open spec fn insert_sorted(s: Seq<EntryModel>, x: EntryModel) -> Seq<EntryModel>
    decreases s.len(),
{
    if s.len() == 0 {
        seq![x]
    } else if entry_less(x, s[0]) {
        seq![x] + s
    } else {
        seq![s[0]] + insert_sorted(s.drop_first(), x)
    }
}

/// The entries of category `c`, sorted stably in rendering order: each entry
/// in turn is inserted after all earlier ones that it does not precede.
pub open spec fn sorted_group(s: Seq<EntryModel>, c: EntryType) -> Seq<EntryModel>
    decreases s.len(),
{
    if s.len() == 0 {
        Seq::empty()
    } else if s.last().category == c {
        insert_sorted(sorted_group(s.drop_last(), c), s.last())
    } else {
        sorted_group(s.drop_last(), c)
    }
}

/// The Markdown lines of a sequence of entries, concatenated.
pub open spec fn lines_of(s: Seq<EntryModel>) -> Seq<char>
    decreases s.len(),
{
    if s.len() == 0 {
        Seq::empty()
    } else {
        lines_of(s.drop_last()) + markdown_of(s.last())
    }
}

/// The category at a position of the declaration order.
pub open spec fn category_at(k: int) -> EntryType {
    if k <= 0 {
        EntryType::Added
    } else if k == 1 {
        EntryType::Changed
    } else if k == 2 {
        EntryType::Fixed
    } else if k == 3 {
        EntryType::Removed
    } else if k == 4 {
        EntryType::Deprecated
    } else if k == 5 {
        EntryType::Security
    } else {
        EntryType::Technical
    }
}

/// The number of categories.
pub const CATEGORY_COUNT: usize = 7;

/// The section of one category: a blank line, its heading, a blank line and
/// its entries; nothing when the category has no entry.
pub open spec fn section(s: Seq<EntryModel>, c: EntryType) -> Seq<char> {
    if sorted_group(s, c).len() == 0 {
        Seq::empty()
    } else {
        "\n### "@ + name_of(c) + "\n\n"@ + lines_of(sorted_group(s, c))
    }
}

/// The sections of the first `k` categories, in declaration order.
pub open spec fn sections_upto(s: Seq<EntryModel>, k: nat) -> Seq<char>
    decreases k,
{
    if k == 0 {
        Seq::empty()
    } else {
        sections_upto(s, (k - 1) as nat) + section(s, category_at(k - 1))
    }
}

/// The heading line of a release: `## [<version>] - <date>`.
pub open spec fn release_header(version: Seq<char>, date: ReleaseDate) -> Seq<char> {
    "## ["@ + version + "] - "@ + date_text(date) + "\n"@
}

/// The release section for pending entries; empty when nothing is pending.
pub open spec fn release_text(s: Seq<EntryModel>, version: Seq<char>, date: ReleaseDate) -> Seq<
    char,
> {
    if s.len() == 0 {
        Seq::empty()
    } else {
        release_header(version, date) + sections_upto(s, CATEGORY_COUNT as nat)
    }
}

/// The position of the first element of `s` that `x` precedes, or the length.
pub open spec fn insert_position(s: Seq<EntryModel>, x: EntryModel, p: int) -> bool {
    &&& 0 <= p <= s.len()
    &&& forall|j: int| 0 <= j < p ==> !entry_less(x, #[trigger] s[j])
    &&& p < s.len() ==> entry_less(x, s[p])
}

proof fn lemma_insert_at(s: Seq<EntryModel>, x: EntryModel, p: int)
    requires
        insert_position(s, x, p),
    ensures
        insert_sorted(s, x) == s.subrange(0, p) + seq![x] + s.subrange(p, s.len() as int),
    decreases s.len(),
{
    if s.len() == 0 {
        assert(insert_sorted(s, x) == seq![x]);
        assert(s.subrange(0, p) + seq![x] + s.subrange(p, s.len() as int) =~= seq![x]);
    } else if p == 0 {
        assert(s.subrange(0, p) + seq![x] + s.subrange(p, s.len() as int) =~= seq![x] + s);
    } else {
        let t = s.drop_first();
        assert forall|j: int| 0 <= j < p - 1 implies !entry_less(x, #[trigger] t[j]) by {
            assert(t[j] == s[j + 1]);
        }
        if p - 1 < t.len() {
            assert(t[p - 1] == s[p]);
        }
        lemma_insert_at(t, x, p - 1);
        assert(s.subrange(0, p) + seq![x] + s.subrange(p, s.len() as int) =~= seq![s[0]] + (
        t.subrange(0, p - 1) + seq![x] + t.subrange(p - 1, t.len() as int)));
    }
}

/// The category at a position of the declaration order.
pub fn category_at_exec(k: usize) -> (r: EntryType)
    requires
        k < CATEGORY_COUNT,
    ensures
        r == category_at(k as int),
{
    if k == 0 {
        EntryType::Added
    } else if k == 1 {
        EntryType::Changed
    } else if k == 2 {
        EntryType::Fixed
    } else if k == 3 {
        EntryType::Removed
    } else if k == 4 {
        EntryType::Deprecated
    } else if k == 5 {
        EntryType::Security
    } else {
        EntryType::Technical
    }
}

/// The entries at the given positions.
pub open spec fn picked(entries: Seq<Entry>, idx: Seq<usize>) -> Seq<EntryModel> {
    Seq::new(idx.len(), |j: int| entries[idx[j] as int]@)
}

/// The positions of the entries of category `c`, in rendering order.
pub fn group_positions(entries: &Vec<Entry>, c: EntryType) -> (r: Vec<usize>)
    ensures
        forall|j: int| 0 <= j < r@.len() ==> r@[j] < entries@.len(),
        picked(entries@, r@) == sorted_group(models(entries@), c),
{
    let mut r: Vec<usize> = Vec::new();
    let n = entries.len();
    let mut i: usize = 0;
    while i < n
        invariant
            n == entries@.len(),
            i <= n,
            forall|j: int| 0 <= j < r@.len() ==> r@[j] < n,
            picked(entries@, r@) == sorted_group(models(entries@).subrange(0, i as int), c),
        decreases n - i,
    {
        let ghost before = models(entries@).subrange(0, i as int);
        let ghost after = models(entries@).subrange(0, i + 1);
        assert(after.drop_last() == before);
        assert(after.last() == entries@[i as int]@);
        if entries[i].category == c {
            let x = &entries[i];
            let mut p: usize = 0;
            while p < r.len() && !x.precedes(&entries[r[p]])
                invariant
                    n == entries@.len(),
                    0 <= p <= r@.len(),
                    forall|j: int| 0 <= j < r@.len() ==> r@[j] < n,
                    i < n,
                    x == entries@[i as int],
                    forall|j: int|
                        0 <= j < p ==> !entry_less(x@, #[trigger] picked(entries@, r@)[j]),
                decreases r@.len() - p,
            {
                p = p + 1;
            }
            let ghost old_r = r@;
            proof {
                lemma_insert_at(picked(entries@, old_r), x@, p as int);
            }
            r.insert(p, i);
            assert(picked(entries@, r@) =~= picked(entries@, old_r).subrange(0, p as int) + seq![
                x@,
            ] + picked(entries@, old_r).subrange(p as int, old_r.len() as int));
        }
        i = i + 1;
    }
    assert(models(entries@).subrange(0, n as int) == models(entries@));
    r
}

/// Renders the release section of the given entries for a version and a
/// date; an empty text when there is no entry.
pub fn render_release(entries: &Vec<Entry>, version: &str, date: &ReleaseDate) -> (r: String)
    requires
        date.wf(),
    ensures
        r@ == release_text(models(entries@), version@, *date),
{
    if entries.len() == 0 {
        return String::new();
    }
    let ghost s = models(entries@);
    let mut r = String::from_str("## [");
    r.append(version);
    r.append("] - ");
    append_date(&mut r, date);
    r.append("\n");
    let mut k: usize = 0;
    while k < CATEGORY_COUNT
        invariant
            k <= CATEGORY_COUNT,
            s == models(entries@),
            r@ == release_header(version@, *date) + sections_upto(s, k as nat),
        decreases CATEGORY_COUNT - k,
    {
        let c = category_at_exec(k);
        let group = group_positions(entries, c);
        let ghost g = sorted_group(s, c);
        let ghost before = r@;
        if group.len() > 0 {
            r.append("\n### ");
            let name = c.to_string();
            r.append(name.as_str());
            r.append("\n\n");
            let ghost head = r@;
            let mut j: usize = 0;
            while j < group.len()
                invariant
                    j <= group@.len(),
                    forall|t: int| 0 <= t < group@.len() ==> group@[t] < entries@.len(),
                    picked(entries@, group@) == g,
                    r@ == head + lines_of(g.subrange(0, j as int)),
                decreases group@.len() - j,
            {
                let line = entries[group[j]].to_markdown();
                r.append(line.as_str());
                assert(g.subrange(0, j + 1).drop_last() == g.subrange(0, j as int));
                assert(g[j as int] == entries@[group@[j as int] as int]@);
                j = j + 1;
            }
            assert(g.subrange(0, j as int) == g);
        }
        assert(r@ == before + section(s, c));
        k = k + 1;
    }
    r
}


/// The release section of the given entries for a version, dated `date`, or
/// today when no date is given; an empty text when there is no entry.
pub fn entries_to_string(entries: Vec<Entry>, version: &String, date: &Option<ReleaseDate>) -> (r:
    Result<String, ChangelogError>)
    requires
        date matches Some(d) ==> d.wf(),
    ensures
        r matches Ok(t) && exists|d: ReleaseDate|
            d.wf() && (date matches Some(g) ==> d == g) && t@ == #[trigger] release_text(
                models(entries@),
                version@,
                d,
            ),
{
    let d = resolve_date(date);
    Ok(render_release(&entries, version.as_str(), &d))
}

/// Whether no element of `s` precedes an earlier one.
pub open spec fn is_sorted(s: Seq<EntryModel>) -> bool {
    forall|i: int, j: int| 0 <= i < j < s.len() ==> !entry_less(#[trigger] s[j], #[trigger] s[i])
}

proof fn lemma_insert_contents(s: Seq<EntryModel>, x: EntryModel)
    ensures
        insert_sorted(s, x).len() == s.len() + 1,
        forall|y: EntryModel| #[trigger]
            insert_sorted(s, x).contains(y) <==> (s.contains(y) || y == x),
    decreases s.len(),
{
    let r = insert_sorted(s, x);
    if s.len() == 0 {
        assert(r[0] == x);
    } else if entry_less(x, s[0]) {
        assert forall|y: EntryModel| r.contains(y) <==> (s.contains(y) || y == x) by {
            if s.contains(y) {
                let k = choose|k: int| 0 <= k < s.len() && s[k] == y;
                assert(r[k + 1] == y);
            }
            if r.contains(y) {
                let k = choose|k: int| 0 <= k < r.len() && r[k] == y;
                if k > 0 {
                    assert(s[k - 1] == y);
                }
            }
            if y == x {
                assert(r[0] == x);
            }
        }
    } else {
        let t = s.drop_first();
        lemma_insert_contents(t, x);
        assert forall|y: EntryModel| r.contains(y) <==> (s.contains(y) || y == x) by {
            if r.contains(y) {
                let k = choose|k: int| 0 <= k < r.len() && r[k] == y;
                if k == 0 {
                    assert(s[0] == y);
                } else {
                    assert(insert_sorted(t, x)[k - 1] == y);
                    assert(insert_sorted(t, x).contains(y));
                    if t.contains(y) {
                        let m = choose|m: int| 0 <= m < t.len() && t[m] == y;
                        assert(s[m + 1] == y);
                    }
                }
            }
            if s.contains(y) {
                let k = choose|k: int| 0 <= k < s.len() && s[k] == y;
                if k == 0 {
                    assert(r[0] == y);
                } else {
                    assert(t[k - 1] == y);
                    assert(insert_sorted(t, x).contains(y));
                    let m = choose|m: int|
                        0 <= m < insert_sorted(t, x).len() && insert_sorted(t, x)[m] == y;
                    assert(r[m + 1] == y);
                }
            }
            if y == x {
                assert(insert_sorted(t, x).contains(x));
                let m = choose|m: int|
                    0 <= m < insert_sorted(t, x).len() && insert_sorted(t, x)[m] == x;
                assert(r[m + 1] == x);
            }
        }
    }
}

proof fn lemma_insert_keeps_sorted(s: Seq<EntryModel>, x: EntryModel)
    requires
        is_sorted(s),
    ensures
        is_sorted(insert_sorted(s, x)),
    decreases s.len(),
{
    let r = insert_sorted(s, x);
    lemma_insert_contents(s, x);
    if s.len() == 0 {
    } else if entry_less(x, s[0]) {
        assert forall|i: int, j: int| 0 <= i < j < r.len() implies !entry_less(
            #[trigger] r[j],
            #[trigger] r[i],
        ) by {
            if i == 0 {
                if entry_less(r[j], x) {
                    lemma_entry_less_transitive(s[j - 1], x, s[0]);
                    lemma_entry_less_irreflexive(s[0]);
                }
            } else {
                assert(r[j] == s[j - 1] && r[i] == s[i - 1]);
            }
        }
    } else {
        let t = s.drop_first();
        assert(is_sorted(t)) by {
            assert forall|i: int, j: int| 0 <= i < j < t.len() implies !entry_less(
                #[trigger] t[j],
                #[trigger] t[i],
            ) by {
                assert(t[j] == s[j + 1] && t[i] == s[i + 1]);
            }
        }
        lemma_insert_keeps_sorted(t, x);
        lemma_insert_contents(t, x);
        let u = insert_sorted(t, x);
        assert forall|i: int, j: int| 0 <= i < j < r.len() implies !entry_less(
            #[trigger] r[j],
            #[trigger] r[i],
        ) by {
            assert(r[j] == u[j - 1]);
            if i == 0 {
                assert(u.contains(u[j - 1]));
                if t.contains(u[j - 1]) {
                    let m = choose|m: int| 0 <= m < t.len() && t[m] == u[j - 1];
                    assert(s[m + 1] == u[j - 1]);
                }
            } else {
                assert(r[i] == u[i - 1]);
            }
        }
    }
}

/// The rendered group of a category holds exactly the entries of that
/// category, sorted in rendering order.
pub proof fn lemma_group_contents(s: Seq<EntryModel>, c: EntryType)
    ensures
        is_sorted(sorted_group(s, c)),
        forall|y: EntryModel| #[trigger]
            sorted_group(s, c).contains(y) <==> (s.contains(y) && y.category == c),
    decreases s.len(),
{
    if s.len() > 0 {
        let t = s.drop_last();
        lemma_group_contents(t, c);
        if s.last().category == c {
            lemma_insert_keeps_sorted(sorted_group(t, c), s.last());
            lemma_insert_contents(sorted_group(t, c), s.last());
        }
        assert forall|y: EntryModel| #[trigger]
            sorted_group(s, c).contains(y) <==> (s.contains(y) && y.category == c) by {
            if t.contains(y) {
                let k = choose|k: int| 0 <= k < t.len() && t[k] == y;
                assert(s[k] == y);
            }
            if s.contains(y) {
                let k = choose|k: int| 0 <= k < s.len() && s[k] == y;
                if k < t.len() {
                    assert(t[k] == y);
                }
            }
        }
    }
}

/// Within a category, a breaking change is rendered before a change that is
/// not breaking, whatever their titles: both appear in the group of the
/// category, and every place of the first comes before every place of the
/// second.
pub proof fn lemma_breaking_first(s: Seq<EntryModel>, a: EntryModel, b: EntryModel)
    requires
        s.contains(a),
        s.contains(b),
        a.category == b.category,
        a.is_breaking_change,
        !b.is_breaking_change,
    ensures
        sorted_group(s, a.category).contains(a),
        sorted_group(s, a.category).contains(b),
        forall|p: int, q: int|
            0 <= p < sorted_group(s, a.category).len() && 0 <= q < sorted_group(
                s,
                a.category,
            ).len() && #[trigger] sorted_group(s, a.category)[p] == a && #[trigger] sorted_group(
                s,
                a.category,
            )[q] == b ==> p < q,
{
    lemma_group_contents(s, a.category);
}

/// The categories that have entries, among the first `k` of the declaration
/// order, in that order.
pub open spec fn present_upto(s: Seq<EntryModel>, k: nat) -> Seq<EntryType>
    decreases k,
{
    if k == 0 {
        Seq::empty()
    } else if sorted_group(s, category_at(k - 1)).len() > 0 {
        present_upto(s, (k - 1) as nat).push(category_at(k - 1))
    } else {
        present_upto(s, (k - 1) as nat)
    }
}

/// The heading and the lines of each category of `cs`, in the order of `cs`.
pub open spec fn headed_sections(s: Seq<EntryModel>, cs: Seq<EntryType>) -> Seq<char>
    decreases cs.len(),
{
    if cs.len() == 0 {
        Seq::empty()
    } else {
        headed_sections(s, cs.drop_last()) + "\n### "@ + name_of(cs.last()) + "\n\n"@ + lines_of(
            sorted_group(s, cs.last()),
        )
    }
}

proof fn lemma_present_upto(s: Seq<EntryModel>, k: nat)
    requires
        k <= CATEGORY_COUNT,
    ensures
        sections_upto(s, k) == headed_sections(s, present_upto(s, k)),
        forall|i: int, j: int|
            0 <= i < j < present_upto(s, k).len() ==> ordinal(#[trigger] present_upto(s, k)[i])
                < ordinal(#[trigger] present_upto(s, k)[j]),
        forall|i: int| 0 <= i < present_upto(s, k).len() ==> ordinal(#[trigger] present_upto(s, k)[i]) < k,
        forall|c: EntryType| #[trigger]
            present_upto(s, k).contains(c) <==> (ordinal(c) < k && sorted_group(s, c).len() > 0),
    decreases k,
{
    if k > 0 {
        let j = (k - 1) as nat;
        lemma_present_upto(s, j);
        let c = category_at(j as int);
        assert(ordinal(c) == j);
        let p = present_upto(s, j);
        if sorted_group(s, c).len() > 0 {
            assert(present_upto(s, k).drop_last() == p);
            assert forall|d: EntryType| #[trigger]
                present_upto(s, k).contains(d) <==> (ordinal(d) < k && sorted_group(s, d).len()
                    > 0) by {
                if ordinal(d) == j {
                    assert(d == c);
                    assert(present_upto(s, k)[p.len() as int] == d);
                }
                if present_upto(s, k).contains(d) {
                    let m = choose|m: int|
                        0 <= m < present_upto(s, k).len() && present_upto(s, k)[m] == d;
                    if m < p.len() {
                        assert(p[m] == d);
                    }
                }
                if p.contains(d) {
                    let m = choose|m: int| 0 <= m < p.len() && p[m] == d;
                    assert(present_upto(s, k)[m] == d);
                }
            }
        } else {
            assert(present_upto(s, k) == p);
            assert forall|d: EntryType| #[trigger]
                present_upto(s, k).contains(d) <==> (ordinal(d) < k && sorted_group(s, d).len()
                    > 0) by {
                if ordinal(d) == j {
                    assert(d == c);
                }
            }
        }
    }
}

/// Category headings are rendered in the declaration order of categories,
/// each category with entries once, none without: the release text is the
/// header followed by the heading and lines of each present category, the
/// present categories come in strictly increasing declaration order, and a
/// category is present exactly when some entry has it.
pub proof fn lemma_category_order(s: Seq<EntryModel>, version: Seq<char>, date: ReleaseDate)
    requires
        s.len() > 0,
    ensures
        release_text(s, version, date) == release_header(version, date) + headed_sections(
            s,
            present_upto(s, CATEGORY_COUNT as nat),
        ),
        forall|i: int, j: int|
            0 <= i < j < present_upto(s, CATEGORY_COUNT as nat).len() ==> ordinal(
                #[trigger] present_upto(s, CATEGORY_COUNT as nat)[i],
            ) < ordinal(#[trigger] present_upto(s, CATEGORY_COUNT as nat)[j]),
        forall|c: EntryType| #[trigger]
            present_upto(s, CATEGORY_COUNT as nat).contains(c) <==> exists|e: EntryModel|
                #[trigger] s.contains(e) && e.category == c,
{
    lemma_present_upto(s, CATEGORY_COUNT as nat);
    assert forall|c: EntryType| #[trigger]
        present_upto(s, CATEGORY_COUNT as nat).contains(c) <==> exists|e: EntryModel|
            #[trigger] s.contains(e) && e.category == c by {
        lemma_group_contents(s, c);
        let g = sorted_group(s, c);
        if g.len() > 0 {
            assert(g.contains(g[0]));
        }
        if exists|e: EntryModel| #[trigger] s.contains(e) && e.category == c {
            let e = choose|e: EntryModel| #[trigger] s.contains(e) && e.category == c;
            assert(g.contains(e));
        }
    }
}

proof fn lemma_insert_multiset(t: Seq<EntryModel>, x: EntryModel)
    ensures
        insert_sorted(t, x).to_multiset() == t.to_multiset().insert(x),
    decreases t.len(),
{
    broadcast use vstd::seq_lib::group_to_multiset_ensures;

    if t.len() == 0 {
        assert(insert_sorted(t, x) == t.insert(0, x));
    } else if entry_less(x, t[0]) {
        assert(insert_sorted(t, x) == t.insert(0, x));
    } else {
        let rest = t.drop_first();
        lemma_insert_multiset(rest, x);
        let u = insert_sorted(rest, x);
        assert(insert_sorted(t, x) == u.insert(0, t[0]));
        assert(t == rest.insert(0, t[0]));
        assert(u.insert(0, t[0]).to_multiset() == u.to_multiset().insert(t[0]));
        assert(rest.insert(0, t[0]).to_multiset() == rest.to_multiset().insert(t[0]));
        assert(t.to_multiset().insert(x) =~= rest.to_multiset().insert(x).insert(t[0]));
    }
}

proof fn lemma_group_multiset(s: Seq<EntryModel>, c: EntryType)
    ensures
        forall|y: EntryModel| #[trigger]
            sorted_group(s, c).to_multiset().count(y) == if y.category == c {
                s.to_multiset().count(y)
            } else {
                0
            },
    decreases s.len(),
{
    broadcast use vstd::seq_lib::group_to_multiset_ensures;
    broadcast use vstd::multiset::group_multiset_axioms;

    if s.len() == 0 {
        assert(sorted_group(s, c) == Seq::<EntryModel>::empty());
    } else {
        let t = s.drop_last();
        let x = s.last();
        lemma_group_multiset(t, c);
        assert(s == t.push(x));
        if x.category == c {
            lemma_insert_multiset(sorted_group(t, c), x);
        }
    }
}

/// Whether entries of one category that tie in the rendering order are equal.
pub open spec fn ties_are_equal(s: Seq<EntryModel>) -> bool {
    forall|x: EntryModel, y: EntryModel|
        #[trigger] s.contains(x) && #[trigger] s.contains(y) && x.category == y.category
            && x.is_breaking_change == y.is_breaking_change && x.title == y.title ==> x == y
}

proof fn lemma_sorted_unique(a: Seq<EntryModel>, b: Seq<EntryModel>)
    requires
        is_sorted(a),
        is_sorted(b),
        a.to_multiset() == b.to_multiset(),
        forall|x: EntryModel, y: EntryModel|
            #[trigger] a.contains(x) && #[trigger] a.contains(y) && !entry_less(x, y)
                && !entry_less(y, x) ==> x == y,
    ensures
        a == b,
    decreases a.len(),
{
    broadcast use vstd::seq_lib::group_to_multiset_ensures;

    assert(a.len() == a.to_multiset().len());
    assert(b.len() == b.to_multiset().len());
    if a.len() > 0 {
        assert(a.to_multiset().count(a[0]) > 0) by {
            assert(a.contains(a[0]));
        }
        assert(b.contains(a[0]));
        let k = choose|k: int| 0 <= k < b.len() && b[k] == a[0];
        assert(b.to_multiset().count(b[0]) > 0) by {
            assert(b.contains(b[0]));
        }
        assert(a.contains(b[0]));
        let m = choose|m: int| 0 <= m < a.len() && a[m] == b[0];
        if k > 0 {
            assert(!entry_less(b[k], b[0]));
        }
        if m > 0 {
            assert(!entry_less(a[m], a[0]));
        }
        if k == 0 || m == 0 {
        } else {
            assert(a[0] == b[0]);
        }
        let a1 = a.drop_first();
        let b1 = b.drop_first();
        assert(a.remove(0) == a1);
        assert(b.remove(0) == b1);
        assert(a1.to_multiset() == b1.to_multiset());
        assert(is_sorted(a1)) by {
            assert forall|i: int, j: int| 0 <= i < j < a1.len() implies !entry_less(
                #[trigger] a1[j],
                #[trigger] a1[i],
            ) by {
                assert(a1[j] == a[j + 1] && a1[i] == a[i + 1]);
            }
        }
        assert(is_sorted(b1)) by {
            assert forall|i: int, j: int| 0 <= i < j < b1.len() implies !entry_less(
                #[trigger] b1[j],
                #[trigger] b1[i],
            ) by {
                assert(b1[j] == b[j + 1] && b1[i] == b[i + 1]);
            }
        }
        assert forall|x: EntryModel, y: EntryModel|
            #[trigger] a1.contains(x) && #[trigger] a1.contains(y) && !entry_less(x, y)
                && !entry_less(y, x) implies x == y by {
            if a1.contains(x) && a1.contains(y) {
                let i = choose|i: int| 0 <= i < a1.len() && a1[i] == x;
                let j = choose|j: int| 0 <= j < a1.len() && a1[j] == y;
                assert(a[i + 1] == x && a[j + 1] == y);
                assert(a.contains(x) && a.contains(y));
            }
        }
        lemma_sorted_unique(a1, b1);
        assert(a == seq![a[0]] + a1);
        assert(b == seq![b[0]] + b1);
    } else {
        assert(b.len() == 0);
        assert(a =~= b);
    }
}

proof fn lemma_sections_agree(s1: Seq<EntryModel>, s2: Seq<EntryModel>, k: nat)
    requires
        forall|c: EntryType| #[trigger] sorted_group(s1, c) == sorted_group(s2, c),
    ensures
        sections_upto(s1, k) == sections_upto(s2, k),
    decreases k,
{
    if k > 0 {
        lemma_sections_agree(s1, s2, (k - 1) as nat);
        assert(sorted_group(s1, category_at(k - 1)) == sorted_group(s2, category_at(k - 1)));
    }
}

/// The release text depends on which entries are pending, not on the order
/// in which the store lists them: two listings of the same entries render
/// byte for byte the same, provided no two different entries of one
/// category share both their breaking-change flag and their title (such
/// entries keep their listing order).
pub proof fn lemma_render_order_independent(
    s1: Seq<EntryModel>,
    s2: Seq<EntryModel>,
    version: Seq<char>,
    date: ReleaseDate,
)
    requires
        s1.to_multiset() == s2.to_multiset(),
        ties_are_equal(s1),
    ensures
        release_text(s1, version, date) == release_text(s2, version, date),
{
    broadcast use vstd::seq_lib::group_to_multiset_ensures;

    assert(s1.len() == s1.to_multiset().len());
    assert(s2.len() == s2.to_multiset().len());
    assert forall|c: EntryType| #[trigger] sorted_group(s1, c) == sorted_group(s2, c) by {
        let g1 = sorted_group(s1, c);
        let g2 = sorted_group(s2, c);
        lemma_group_contents(s1, c);
        lemma_group_contents(s2, c);
        lemma_group_multiset(s1, c);
        lemma_group_multiset(s2, c);
        assert(g1.to_multiset() =~= g2.to_multiset());
        assert forall|x: EntryModel, y: EntryModel|
            #[trigger] g1.contains(x) && #[trigger] g1.contains(y) && !entry_less(x, y)
                && !entry_less(y, x) implies x == y by {
            if g1.contains(x) && g1.contains(y) && !entry_less(x, y) && !entry_less(y, x) {
                assert(x.is_breaking_change == y.is_breaking_change);
                lemma_text_less_total(x.title, y.title);
                assert(s1.contains(x) && s1.contains(y));
            }
        }
        lemma_sorted_unique(g1, g2);
    }
    lemma_sections_agree(s1, s2, CATEGORY_COUNT as nat);
}

} // verus!
