//! The entry file format: an entry as a pretty-printed JSON object with the
//! keys `author, title, description, type, isBreakingChange, issue`, indented
//! by four spaces.
use vstd::prelude::*;
use vstd::string::*;

use crate::entry::{name_of, opt_view, Entry, EntryModel, EntryType};
use crate::error::ChangelogError;
use crate::text::{chars_of, digit_char, push_char, str_equal};

verus! {

/// A lower-case hexadecimal digit.
pub open spec fn hex_digit(d: nat) -> char {
    if d < 10 {
        digit_char(d)
    } else {
        ((87 + d) as u8) as char
    }
}

/// How one character is written inside a JSON string: quote and backslash
/// escaped, control characters by their short escape or as `\u00XX`.
pub open spec fn escape_char(c: char) -> Seq<char> {
    if c == '"' {
        seq!['\\', '"']
    } else if c == '\\' {
        seq!['\\', '\\']
    } else if c == '\n' {
        seq!['\\', 'n']
    } else if c == '\r' {
        seq!['\\', 'r']
    } else if c == '\t' {
        seq!['\\', 't']
    } else if c == '\x08' {
        seq!['\\', 'b']
    } else if c == '\x0c' {
        seq!['\\', 'f']
    } else if (c as u32) < 0x20 {
        seq!['\\', 'u', '0', '0', hex_digit((c as u32 / 16) as nat), hex_digit((c as u32 % 16) as nat)]
    } else {
        seq![c]
    }
}

/// The escaped characters of a text.
pub open spec fn escaped(x: Seq<char>) -> Seq<char>
    decreases x.len(),
{
    if x.len() == 0 {
        Seq::empty()
    } else {
        escaped(x.drop_last()) + escape_char(x.last())
    }
}

/// A text as a JSON string literal.
#[verifier::opaque]
pub open spec fn quoted(x: Seq<char>) -> Seq<char> {
    seq!['"'] + escaped(x) + seq!['"']
}

/// The JSON value of an optional description.
pub open spec fn description_json(d: Option<Seq<char>>) -> Seq<char> {
    match d {
        Some(t) => quoted(t),
        None => "null"@,
    }
}

/// The JSON value of a flag.
pub open spec fn bool_json(b: bool) -> Seq<char> {
    if b {
        "true"@
    } else {
        "false"@
    }
}

/// One member of an entry object on its own line, indented by four spaces.
#[verifier::opaque]
pub open spec fn member_json(key: Seq<char>, value: Seq<char>) -> Seq<char> {
    "\n    "@ + quoted(key) + ": "@ + value
}

/// The text of an entry file.
#[verifier::opaque]
pub open spec fn entry_json(e: EntryModel) -> Seq<char> {
    "{"@ + member_json("author"@, quoted(e.author)) + ","@ + member_json("title"@, quoted(e.title))
        + ","@ + member_json("description"@, description_json(e.description)) + ","@
        + member_json("type"@, quoted(name_of(e.category))) + ","@ + member_json(
        "isBreakingChange"@,
        bool_json(e.is_breaking_change),
    ) + ","@ + member_json("issue"@, quoted(e.issue)) + "\n}"@
}

fn hex(d: u32) -> (c: char)
    requires
        d < 16,
    ensures
        c == hex_digit(d as nat),
{
    if d < 10 {
        (48u8 + d as u8) as char
    } else {
        (87u8 + d as u8) as char
    }
}

/// Appends the escaped form of one character.
fn append_escaped_char(s: &mut String, c: char)
    ensures
        final(s)@ == old(s)@ + escape_char(c),
{
    let ghost start = s@;
    if c == '"' || c == '\\' {
        push_char(s, '\\');
        push_char(s, c);
    } else if c == '\n' {
        s.append("\\n");
        proof { reveal_strlit("\\n"); }
    } else if c == '\r' {
        s.append("\\r");
        proof { reveal_strlit("\\r"); }
    } else if c == '\t' {
        s.append("\\t");
        proof { reveal_strlit("\\t"); }
    } else if c == '\x08' {
        s.append("\\b");
        proof { reveal_strlit("\\b"); }
    } else if c == '\x0c' {
        s.append("\\f");
        proof { reveal_strlit("\\f"); }
    } else if (c as u32) < 0x20 {
        s.append("\\u00");
        proof { reveal_strlit("\\u00"); }
        push_char(s, hex(c as u32 / 16));
        push_char(s, hex(c as u32 % 16));
    } else {
        push_char(s, c);
    }
    assert(s@ =~= start + escape_char(c));
}

/// Appends a text as a JSON string literal.
fn append_quoted(s: &mut String, x: &str)
    ensures
        final(s)@ == old(s)@ + quoted(x@),
{
    reveal(quoted);
    let ghost start = s@;
    let cs = chars_of(x);
    push_char(s, '"');
    let mut i: usize = 0;
    while i < cs.len()
        invariant
            cs@ == x@,
            i <= cs@.len(),
            s@ == start + seq!['"'] + escaped(x@.subrange(0, i as int)),
        decreases cs@.len() - i,
    {
        append_escaped_char(s, cs[i]);
        assert(x@.subrange(0, i + 1).drop_last() == x@.subrange(0, i as int));
        i = i + 1;
    }
    assert(x@.subrange(0, i as int) == x@);
    push_char(s, '"');
}

/// A text as a JSON string literal.
fn quoted_string(x: &str) -> (r: String)
    ensures
        r@ == quoted(x@),
{
    let mut r = String::new();
    append_quoted(&mut r, x);
    r
}

/// One member line: indentation, key, colon and value.
fn member_string(key: &str, value: &str) -> (r: String)
    ensures
        r@ == member_json(key@, value@),
{
    reveal(member_json);
    let mut r = String::from_str("\n    ");
    let k = quoted_string(key);
    r.append(k.as_str());
    r.append(": ");
    r.append(value);
    r
}

impl Entry {
    /// The entry file text of this entry.
    pub fn to_json(&self) -> (r: Result<String, ChangelogError>)
        ensures
            r matches Ok(t) && t@ == entry_json(self@),
    {
        reveal(entry_json);
        let mut s = String::from_str("{");
        let v = quoted_string(self.author.as_str());
        s.append(member_string("author", v.as_str()).as_str());
        s.append(",");
        let v = quoted_string(self.title.as_str());
        s.append(member_string("title", v.as_str()).as_str());
        s.append(",");
        let v = match &self.description {
            Some(d) => quoted_string(d.as_str()),
            None => String::from_str("null"),
        };
        s.append(member_string("description", v.as_str()).as_str());
        s.append(",");
        let name = self.category.to_string();
        let v = quoted_string(name.as_str());
        s.append(member_string("type", v.as_str()).as_str());
        s.append(",");
        let v = if self.is_breaking_change {
            String::from_str("true")
        } else {
            String::from_str("false")
        };
        s.append(member_string("isBreakingChange", v.as_str()).as_str());
        s.append(",");
        let v = quoted_string(self.issue.as_str());
        s.append(member_string("issue", v.as_str()).as_str());
        s.append("\n}");
        Ok(s)
    }
}


/// JSON whitespace.
pub open spec fn is_ws(c: char) -> bool {
    c == ' ' || c == '\t' || c == '\n' || c == '\r'
}

/// The first position from `i` on that holds no whitespace.
pub open spec fn skip_ws(s: Seq<char>, i: int) -> int
    decreases s.len() - i,
{
    if 0 <= i < s.len() && is_ws(s[i]) {
        skip_ws(s, i + 1)
    } else {
        i
    }
}

/// The value of a hexadecimal digit, either case.
pub open spec fn hex_value(c: char) -> Option<nat> {
    let v = c as u32;
    if 48 <= v <= 57 {
        Some((v - 48) as nat)
    } else if 97 <= v <= 102 {
        Some((v - 87) as nat)
    } else if 65 <= v <= 70 {
        Some((v - 55) as nat)
    } else {
        None
    }
}

/// The value of the four hexadecimal digits at `i`.
pub open spec fn hex4(s: Seq<char>, i: int) -> Option<nat> {
    if 0 <= i && i + 4 <= s.len() && hex_value(s[i]) is Some && hex_value(s[i + 1]) is Some
        && hex_value(s[i + 2]) is Some && hex_value(s[i + 3]) is Some {
        Some(
            hex_value(s[i])->0 * 4096 + hex_value(s[i + 1])->0 * 256 + hex_value(s[i + 2])->0 * 16
                + hex_value(s[i + 3])->0,
        )
    } else {
        None
    }
}

/// Whether a number is the code point of a character.
pub open spec fn is_scalar(v: nat) -> bool {
    v < 0xD800 || (0xE000 <= v && v <= 0x10FFFF)
}

/// The code point of a character.
pub open spec fn code(c: char) -> nat {
    c as u32 as nat
}

proof fn lemma_code_injective(c: char, d: char)
    requires
        code(c) == code(d),
    ensures
        c == d,
{
    assert(c as u32 == d as u32);
}

/// The character with a code point.
pub open spec fn char_of(v: nat) -> char {
    choose|c: char| #[trigger] code(c) == v
}

/// The four hexadecimal digits of a `\u` escape at `i`: the character and
/// the position after the digits. A high surrogate must be followed by a
/// `\u` escape of a low surrogate, and the pair stands for one character.
pub open spec fn unicode_escape(s: Seq<char>, i: int) -> Option<(char, int)> {
    match hex4(s, i) {
        None => None,
        Some(v) => if 0xD800 <= v < 0xDC00 {
            if i + 5 < s.len() && s[i + 4] == '\\' && s[i + 5] == 'u' {
                match hex4(s, i + 6) {
                    Some(w) => if 0xDC00 <= w < 0xE000 {
                        Some(
                            (
                                char_of((0x10000 + (v - 0xD800) * 0x400 + (w - 0xDC00)) as nat),
                                i + 10,
                            ),
                        )
                    } else {
                        None
                    },
                    None => None,
                }
            } else {
                None
            }
        } else if is_scalar(v) {
            Some((char_of(v), i + 4))
        } else {
            None
        },
    }
}

/// An escape sequence whose backslash stands just before `i`: the character
/// it stands for and the position after it.
pub open spec fn unescape(s: Seq<char>, i: int) -> Option<(char, int)> {
    if !(0 <= i < s.len()) {
        None
    } else if s[i] == '"' || s[i] == '\\' || s[i] == '/' {
        Some((s[i], i + 1))
    } else if s[i] == 'b' {
        Some(('\x08', i + 1))
    } else if s[i] == 'f' {
        Some(('\x0c', i + 1))
    } else if s[i] == 'n' {
        Some(('\n', i + 1))
    } else if s[i] == 'r' {
        Some(('\r', i + 1))
    } else if s[i] == 't' {
        Some(('\t', i + 1))
    } else if s[i] == 'u' {
        unicode_escape(s, i + 1)
    } else {
        None
    }
}

/// The rest of a string literal from `i`, `acc` being what was read before:
/// the text and the position after the closing quote.
pub open spec fn string_rest(s: Seq<char>, i: int, acc: Seq<char>) -> Option<(Seq<char>, int)>
    decreases s.len() - i,
{
    if !(0 <= i < s.len()) {
        None
    } else if s[i] == '"' {
        Some((acc, i + 1))
    } else if s[i] == '\\' {
        match unescape(s, i + 1) {
            Some((c, j)) => if i < j <= s.len() {
                string_rest(s, j, acc.push(c))
            } else {
                None
            },
            None => None,
        }
    } else if (s[i] as u32) < 0x20 {
        None
    } else {
        string_rest(s, i + 1, acc.push(s[i]))
    }
}

/// The string literal at `i`: its text and the position after it.
pub open spec fn parse_string(s: Seq<char>, i: int) -> Option<(Seq<char>, int)> {
    if 0 <= i < s.len() && s[i] == '"' {
        string_rest(s, i + 1, Seq::empty())
    } else {
        None
    }
}

/// Whether `lit` stands at `i`.
pub open spec fn lit_at(s: Seq<char>, i: int, lit: Seq<char>) -> bool {
    0 <= i && i + lit.len() <= s.len() && s.subrange(i, i + lit.len()) == lit
}

/// The members of an entry object read so far.
pub struct JsonFields {
    pub author: Option<Seq<char>>,
    pub title: Option<Seq<char>>,
    pub description: Option<Option<Seq<char>>>,
    pub category: Option<EntryType>,
    pub is_breaking_change: Option<bool>,
    pub issue: Option<Seq<char>>,
}

/// No member read yet.
pub open spec fn no_fields() -> JsonFields {
    JsonFields {
        author: None,
        title: None,
        description: None,
        category: None,
        is_breaking_change: None,
        issue: None,
    }
}

/// The category whose display name is `t`.
pub open spec fn category_named(t: Seq<char>) -> Option<EntryType> {
    if t == name_of(EntryType::Added) {
        Some(EntryType::Added)
    } else if t == name_of(EntryType::Changed) {
        Some(EntryType::Changed)
    } else if t == name_of(EntryType::Fixed) {
        Some(EntryType::Fixed)
    } else if t == name_of(EntryType::Removed) {
        Some(EntryType::Removed)
    } else if t == name_of(EntryType::Deprecated) {
        Some(EntryType::Deprecated)
    } else if t == name_of(EntryType::Security) {
        Some(EntryType::Security)
    } else if t == name_of(EntryType::Technical) {
        Some(EntryType::Technical)
    } else {
        None
    }
}

/// What a scan through a JSON value expects next.
#[derive(Clone, Copy, PartialEq, Eq, Structural)]
pub enum Expect {
    /// A value.
    Value,
    /// A value or the `]` of an empty array.
    ValueOrClose,
    /// A member key and its colon.
    Key,
    /// A member key or the `}` of an empty object.
    KeyOrClose,
    /// A comma or the bracket that closes the innermost open container.
    Next,
}

/// Whether a character is an ASCII digit.
pub open spec fn is_digit(c: char) -> bool {
    '0' <= c && c <= '9'
}

/// The first position from `i` on that holds no ASCII digit.
pub open spec fn digits_end(s: Seq<char>, i: int) -> int
    decreases s.len() - i,
{
    if 0 <= i < s.len() && is_digit(s[i]) {
        digits_end(s, i + 1)
    } else {
        i
    }
}

/// The position after the fraction and exponent of a number whose integer
/// part ends at `b`.
pub open spec fn number_tail(s: Seq<char>, b: int) -> Option<int> {
    let c = if 0 <= b < s.len() && s[b] == '.' {
        if b + 1 < s.len() && is_digit(s[b + 1]) {
            digits_end(s, b + 2)
        } else {
            -1
        }
    } else {
        b
    };
    if c < 0 {
        None
    } else if c < s.len() && (s[c] == 'e' || s[c] == 'E') {
        let d = if c + 1 < s.len() && (s[c + 1] == '+' || s[c + 1] == '-') {
            c + 2
        } else {
            c + 1
        };
        if d < s.len() && is_digit(s[d]) {
            Some(digits_end(s, d + 1))
        } else {
            None
        }
    } else {
        Some(c)
    }
}

/// The position after the JSON number at `i`.
pub open spec fn number_end(s: Seq<char>, i: int) -> Option<int> {
    let a = if 0 <= i < s.len() && s[i] == '-' {
        i + 1
    } else {
        i
    };
    if 0 <= a < s.len() && s[a] == '0' {
        number_tail(s, a + 1)
    } else if 0 <= a < s.len() && is_digit(s[a]) {
        number_tail(s, digits_end(s, a + 1))
    } else {
        None
    }
}

/// One step of a scan at `j`, with the kinds of the open containers (`true`
/// for an array): the containers, what comes next and the position after
/// the token read.
pub open spec fn scan_step(s: Seq<char>, j: int, open: Seq<bool>, ex: Expect) -> Option<
    (Seq<bool>, Expect, int),
> {
    if !(0 <= j < s.len()) {
        None
    } else if ex == Expect::Value || ex == Expect::ValueOrClose {
        if ex == Expect::ValueOrClose && s[j] == ']' {
            if open.len() == 0 {
                None
            } else {
                Some((open.drop_last(), Expect::Next, j + 1))
            }
        } else if s[j] == '[' {
            Some((open.push(true), Expect::ValueOrClose, j + 1))
        } else if s[j] == '{' {
            Some((open.push(false), Expect::KeyOrClose, j + 1))
        } else if s[j] == '"' {
            match parse_string(s, j) {
                Some((_, k)) => Some((open, Expect::Next, k)),
                None => None,
            }
        } else if lit_at(s, j, "true"@) || lit_at(s, j, "null"@) {
            Some((open, Expect::Next, j + 4))
        } else if lit_at(s, j, "false"@) {
            Some((open, Expect::Next, j + 5))
        } else {
            match number_end(s, j) {
                Some(k) => Some((open, Expect::Next, k)),
                None => None,
            }
        }
    } else if ex == Expect::Key || ex == Expect::KeyOrClose {
        if ex == Expect::KeyOrClose && s[j] == '}' {
            if open.len() == 0 {
                None
            } else {
                Some((open.drop_last(), Expect::Next, j + 1))
            }
        } else {
            match parse_string(s, j) {
                Some((_, k)) => {
                    let c = skip_ws(s, k);
                    if 0 <= c < s.len() && s[c] == ':' {
                        Some((open, Expect::Value, c + 1))
                    } else {
                        None
                    }
                },
                None => None,
            }
        }
    } else if open.len() == 0 {
        None
    } else if s[j] == ',' {
        Some((open, if open.last() { Expect::Value } else { Expect::Key }, j + 1))
    } else if (s[j] == ']' && open.last()) || (s[j] == '}' && !open.last()) {
        Some((open.drop_last(), Expect::Next, j + 1))
    } else {
        None
    }
}

/// The scan of a JSON value from `i` on: the position after the value once
/// every container is closed.
pub open spec fn scan(s: Seq<char>, i: int, open: Seq<bool>, ex: Expect) -> Option<int>
    decreases s.len() - i,
{
    match scan_step(s, skip_ws(s, i), open, ex) {
        None => None,
        Some((o, e, k)) => if e == Expect::Next && o.len() == 0 {
            Some(k)
        } else if i < k <= s.len() {
            scan(s, k, o, e)
        } else {
            None
        },
    }
}

/// The position after the JSON value at `i`, of any kind.
pub open spec fn skip_value(s: Seq<char>, i: int) -> Option<int> {
    scan(s, i, Seq::empty(), Expect::Value)
}

/// The value at `i` of the member named `key`, recorded into `f`, and the
/// position after it. A repeated key is refused; the value of an unknown
/// key is skipped.
#[verifier::opaque]
pub open spec fn member(s: Seq<char>, i: int, key: Seq<char>, f: JsonFields) -> Option<
    (JsonFields, int),
> {
    if key == "author"@ {
        if f.author is Some {
            None
        } else {
            match parse_string(s, i) {
                Some((v, j)) => Some((JsonFields { author: Some(v), ..f }, j)),
                None => None,
            }
        }
    } else if key == "title"@ {
        if f.title is Some {
            None
        } else {
            match parse_string(s, i) {
                Some((v, j)) => Some((JsonFields { title: Some(v), ..f }, j)),
                None => None,
            }
        }
    } else if key == "issue"@ {
        if f.issue is Some {
            None
        } else {
            match parse_string(s, i) {
                Some((v, j)) => Some((JsonFields { issue: Some(v), ..f }, j)),
                None => None,
            }
        }
    } else if key == "description"@ {
        if f.description is Some {
            None
        } else if lit_at(s, i, "null"@) {
            Some((JsonFields { description: Some(None), ..f }, i + 4))
        } else {
            match parse_string(s, i) {
                Some((v, j)) => Some((JsonFields { description: Some(Some(v)), ..f }, j)),
                None => None,
            }
        }
    } else if key == "type"@ {
        if f.category is Some {
            None
        } else {
            match parse_string(s, i) {
                Some((v, j)) => match category_named(v) {
                    Some(c) => Some((JsonFields { category: Some(c), ..f }, j)),
                    None => None,
                },
                None => None,
            }
        }
    } else if key == "isBreakingChange"@ {
        if f.is_breaking_change is Some {
            None
        } else if lit_at(s, i, "true"@) {
            Some((JsonFields { is_breaking_change: Some(true), ..f }, i + 4))
        } else if lit_at(s, i, "false"@) {
            Some((JsonFields { is_breaking_change: Some(false), ..f }, i + 5))
        } else {
            None
        }
    } else {
        match skip_value(s, i) {
            Some(j) => Some((f, j)),
            None => None,
        }
    }
}

/// The members of an object from `i` on, up to and with its closing brace:
/// the fields they give and the position after the brace.
pub open spec fn members(s: Seq<char>, i: int, f: JsonFields) -> Option<(JsonFields, int)>
    decreases s.len() - i,
{
    match parse_string(s, i) {
        None => None,
        Some((key, j)) => {
            let j1 = skip_ws(s, j);
            if !(0 <= j1 < s.len() && s[j1] == ':') {
                None
            } else {
                match member(s, skip_ws(s, j1 + 1), key, f) {
                    None => None,
                    Some((g, k)) => {
                        let k1 = skip_ws(s, k);
                        if 0 <= k1 < s.len() && s[k1] == '}' {
                            Some((g, k1 + 1))
                        } else if 0 <= k1 < s.len() && s[k1] == ',' {
                            let n = skip_ws(s, k1 + 1);
                            if i < n <= s.len() {
                                members(s, n, g)
                            } else {
                                None
                            }
                        } else {
                            None
                        }
                    },
                }
            }
        },
    }
}

/// The entry that an entry file holds, if it is one JSON object with the
/// members of an entry, `description` optional.
pub open spec fn parse_entry(s: Seq<char>) -> Option<EntryModel> {
    let i = skip_ws(s, 0);
    if !(0 <= i < s.len() && s[i] == '{') {
        None
    } else {
        match members(s, skip_ws(s, i + 1), no_fields()) {
            Some((f, k)) => if skip_ws(s, k) == s.len() && f.author is Some && f.title is Some
                && f.category is Some && f.is_breaking_change is Some && f.issue is Some {
                Some(
                    EntryModel {
                        author: f.author->0,
                        title: f.title->0,
                        description: match f.description {
                            Some(d) => d,
                            None => None,
                        },
                        category: f.category->0,
                        is_breaking_change: f.is_breaking_change->0,
                        issue: f.issue->0,
                    },
                )
            } else {
                None
            },
            None => None,
        }
    }
}

/// Relies on `char::from_u32`: the character with that code point, or `None`
/// when the value is no Unicode scalar value.
#[verifier::external_body]
fn char_from_u32(v: u32) -> (r: Option<char>)
    ensures
        match r {
            Some(c) => is_scalar(v as nat) && code(c) == v,
            None => !is_scalar(v as nat),
        },
{
    char::from_u32(v)
}

fn is_ws_exec(c: char) -> (r: bool)
    ensures
        r == is_ws(c),
{
    c == ' ' || c == '\t' || c == '\n' || c == '\r'
}

fn skip_ws_exec(cs: &Vec<char>, i: usize) -> (r: usize)
    requires
        i <= cs@.len(),
    ensures
        r == skip_ws(cs@, i as int),
        i <= r <= cs@.len(),
{
    let mut p = i;
    while p < cs.len() && is_ws_exec(cs[p])
        invariant
            i <= p <= cs@.len(),
            skip_ws(cs@, i as int) == skip_ws(cs@, p as int),
        decreases cs@.len() - p,
    {
        p = p + 1;
    }
    p
}

fn hex_value_exec(c: char) -> (r: Option<u32>)
    ensures
        match hex_value(c) {
            Some(v) => r == Some(v as u32) && v < 16,
            None => r is None,
        },
{
    let v = c as u32;
    if 48 <= v && v <= 57 {
        Some(v - 48)
    } else if 97 <= v && v <= 102 {
        Some(v - 87)
    } else if 65 <= v && v <= 70 {
        Some(v - 55)
    } else {
        None
    }
}

fn hex4_exec(cs: &Vec<char>, i: usize) -> (r: Option<u32>)
    ensures
        match hex4(cs@, i as int) {
            Some(v) => r == Some(v as u32) && v < 0x10000,
            None => r is None,
        },
{
    if i > cs.len() || cs.len() - i < 4 {
        return None;
    }
    match (
        hex_value_exec(cs[i]),
        hex_value_exec(cs[i + 1]),
        hex_value_exec(cs[i + 2]),
        hex_value_exec(cs[i + 3]),
    ) {
        (Some(a), Some(b), Some(c), Some(d)) => Some(a * 4096 + b * 256 + c * 16 + d),
        _ => None,
    }
}

fn lit_at_exec(cs: &Vec<char>, i: usize, lit: &str) -> (r: bool)
    ensures
        r == lit_at(cs@, i as int, lit@),
{
    let l = chars_of(lit);
    let n = cs.len();
    if i > n || n - i < l.len() {
        return false;
    }
    let mut k: usize = 0;
    while k < l.len()
        invariant
            n == cs@.len(),
            l@ == lit@,
            i + l@.len() <= cs@.len(),
            k <= l@.len(),
            forall|t: int| 0 <= t < k ==> cs@[i + t] == l@[t],
        decreases l@.len() - k,
    {
        if cs[i + k] != l[k] {
            assert(cs@.subrange(i as int, i + l@.len())[k as int] != lit@[k as int]);
            return false;
        }
        k = k + 1;
    }
    assert(cs@.subrange(i as int, i + l@.len()) =~= lit@);
    true
}

fn unicode_escape_exec(cs: &Vec<char>, i: usize) -> (r: Option<(char, usize)>)
    requires
        i <= cs@.len(),
    ensures
        match unicode_escape(cs@, i as int) {
            Some((c, j)) => r == Some((c, j as usize)) && j <= cs@.len(),
            None => r is None,
        },
{
    let n = cs.len();
    match hex4_exec(cs, i) {
        None => None,
        Some(v) => if 0xD800 <= v && v < 0xDC00 {
            if n - i > 5 && cs[i + 4] == '\\' && cs[i + 5] == 'u' {
                match hex4_exec(cs, i + 6) {
                    Some(w) => if 0xDC00 <= w && w < 0xE000 {
                        assert((v - 0xD800) * 0x400 <= 0x3FF * 0x400) by (nonlinear_arith)
                            requires
                                v - 0xD800 <= 0x3FF,
                        ;
                        let u = 0x10000 + (v - 0xD800) * 0x400 + (w - 0xDC00);
                        match char_from_u32(u) {
                            Some(d) => {
                                proof {
                                    lemma_code_injective(d, char_of(u as nat));
                                }
                                Some((d, i + 10))
                            },
                            None => None,
                        }
                    } else {
                        None
                    },
                    None => None,
                }
            } else {
                None
            }
        } else {
            match char_from_u32(v) {
                Some(d) => {
                    proof {
                        lemma_code_injective(d, char_of(v as nat));
                    }
                    Some((d, i + 4))
                },
                None => None,
            }
        },
    }
}

fn unescape_exec(cs: &Vec<char>, i: usize) -> (r: Option<(char, usize)>)
    requires
        i <= cs@.len(),
    ensures
        match unescape(cs@, i as int) {
            Some((c, j)) => r == Some((c, j as usize)) && j <= cs@.len(),
            None => r is None,
        },
{
    if i >= cs.len() {
        return None;
    }
    let c = cs[i];
    if c == '"' || c == '\\' || c == '/' {
        Some((c, i + 1))
    } else if c == 'b' {
        Some(('\x08', i + 1))
    } else if c == 'f' {
        Some(('\x0c', i + 1))
    } else if c == 'n' {
        Some(('\n', i + 1))
    } else if c == 'r' {
        Some(('\r', i + 1))
    } else if c == 't' {
        Some(('\t', i + 1))
    } else if c == 'u' {
        unicode_escape_exec(cs, i + 1)
    } else {
        None
    }
}

fn parse_string_exec(cs: &Vec<char>, i: usize) -> (r: Option<(String, usize)>)
    requires
        i <= cs@.len(),
    ensures
        match parse_string(cs@, i as int) {
            Some((v, j)) => r matches Some((t, k)) && t@ == v && k == j && i < k <= cs@.len(),
            None => r is None,
        },
{
    if i >= cs.len() || cs[i] != '"' {
        return None;
    }
    let mut acc = String::new();
    let mut p = i + 1;
    loop
        invariant
            i < p <= cs@.len(),
            parse_string(cs@, i as int) == string_rest(cs@, p as int, acc@),
        decreases cs@.len() - p,
    {
        if p >= cs.len() {
            return None;
        }
        let c = cs[p];
        if c == '"' {
            return Some((acc, p + 1));
        } else if c == '\\' {
            match unescape_exec(cs, p + 1) {
                Some((d, j)) => {
                    if p < j && j <= cs.len() {
                        push_char(&mut acc, d);
                        p = j;
                    } else {
                        return None;
                    }
                },
                None => {
                    return None;
                },
            }
        } else if (c as u32) < 0x20 {
            return None;
        } else {
            push_char(&mut acc, c);
            p = p + 1;
        }
    }
}

/// The members of an entry object read so far.
struct Fields {
    author: Option<String>,
    title: Option<String>,
    description: Option<Option<String>>,
    category: Option<EntryType>,
    is_breaking_change: Option<bool>,
    issue: Option<String>,
}

spec fn opt_opt_view(o: Option<Option<String>>) -> Option<Option<Seq<char>>> {
    match o {
        Some(Some(s)) => Some(Some(s@)),
        Some(None) => Some(None),
        None => None,
    }
}

impl View for Fields {
    type V = JsonFields;

    closed spec fn view(&self) -> JsonFields {
        JsonFields {
            author: opt_view(self.author),
            title: opt_view(self.title),
            description: opt_opt_view(self.description),
            category: self.category,
            is_breaking_change: self.is_breaking_change,
            issue: opt_view(self.issue),
        }
    }
}

fn category_named_exec(t: &str) -> (r: Option<EntryType>)
    ensures
        r == category_named(t@),
{
    if str_equal(t, "Added") {
        Some(EntryType::Added)
    } else if str_equal(t, "Changed") {
        Some(EntryType::Changed)
    } else if str_equal(t, "Fixed") {
        Some(EntryType::Fixed)
    } else if str_equal(t, "Removed") {
        Some(EntryType::Removed)
    } else if str_equal(t, "Deprecated") {
        Some(EntryType::Deprecated)
    } else if str_equal(t, "Security") {
        Some(EntryType::Security)
    } else if str_equal(t, "Technical") {
        Some(EntryType::Technical)
    } else {
        None
    }
}

fn is_digit_exec(c: char) -> (r: bool)
    ensures
        r == is_digit(c),
{
    '0' <= c && c <= '9'
}

fn digits_end_exec(cs: &Vec<char>, i: usize) -> (r: usize)
    requires
        i <= cs@.len(),
    ensures
        r == digits_end(cs@, i as int),
        i <= r <= cs@.len(),
{
    let mut p = i;
    while p < cs.len() && is_digit_exec(cs[p])
        invariant
            i <= p <= cs@.len(),
            digits_end(cs@, i as int) == digits_end(cs@, p as int),
        decreases cs@.len() - p,
    {
        p = p + 1;
    }
    p
}

fn number_tail_exec(cs: &Vec<char>, b: usize) -> (r: Option<usize>)
    requires
        b <= cs@.len(),
    ensures
        match number_tail(cs@, b as int) {
            Some(k) => r == Some(k as usize) && b <= k <= cs@.len(),
            None => r is None,
        },
{
    let n = cs.len();
    let c = if b < n && cs[b] == '.' {
        if b + 1 < n && is_digit_exec(cs[b + 1]) {
            digits_end_exec(cs, b + 2)
        } else {
            return None;
        }
    } else {
        b
    };
    if c < n && (cs[c] == 'e' || cs[c] == 'E') {
        let d = if c + 1 < n && (cs[c + 1] == '+' || cs[c + 1] == '-') {
            c + 2
        } else {
            c + 1
        };
        if d < n && is_digit_exec(cs[d]) {
            Some(digits_end_exec(cs, d + 1))
        } else {
            None
        }
    } else {
        Some(c)
    }
}

fn number_end_exec(cs: &Vec<char>, i: usize) -> (r: Option<usize>)
    requires
        i <= cs@.len(),
    ensures
        match number_end(cs@, i as int) {
            Some(k) => r == Some(k as usize) && i < k <= cs@.len(),
            None => r is None,
        },
{
    let n = cs.len();
    let a = if i < n && cs[i] == '-' {
        i + 1
    } else {
        i
    };
    if a < n && cs[a] == '0' {
        number_tail_exec(cs, a + 1)
    } else if a < n && is_digit_exec(cs[a]) {
        let b = digits_end_exec(cs, a + 1);
        number_tail_exec(cs, b)
    } else {
        None
    }
}

fn scan_step_exec(cs: &Vec<char>, j: usize, open: &mut Vec<bool>, ex: Expect) -> (r: Option<
    (Expect, usize),
>)
    requires
        j <= cs@.len(),
    ensures
        match scan_step(cs@, j as int, old(open)@, ex) {
            Some((o, e, k)) => r == Some((e, k as usize)) && final(open)@ == o && j < k <= cs@.len(),
            None => r is None,
        },
{
    let n = cs.len();
    proof {
        reveal_strlit("true");
        reveal_strlit("false");
        reveal_strlit("null");
    }
    if j >= n {
        return None;
    }
    let c = cs[j];
    if ex == Expect::Value || ex == Expect::ValueOrClose {
        if ex == Expect::ValueOrClose && c == ']' {
            if open.len() == 0 {
                return None;
            }
            open.pop();
            Some((Expect::Next, j + 1))
        } else if c == '[' {
            open.push(true);
            Some((Expect::ValueOrClose, j + 1))
        } else if c == '{' {
            open.push(false);
            Some((Expect::KeyOrClose, j + 1))
        } else if c == '"' {
            match parse_string_exec(cs, j) {
                Some((_, k)) => Some((Expect::Next, k)),
                None => None,
            }
        } else if lit_at_exec(cs, j, "true") || lit_at_exec(cs, j, "null") {
            Some((Expect::Next, j + 4))
        } else if lit_at_exec(cs, j, "false") {
            Some((Expect::Next, j + 5))
        } else {
            match number_end_exec(cs, j) {
                Some(k) => Some((Expect::Next, k)),
                None => None,
            }
        }
    } else if ex == Expect::Key || ex == Expect::KeyOrClose {
        if ex == Expect::KeyOrClose && c == '}' {
            if open.len() == 0 {
                return None;
            }
            open.pop();
            Some((Expect::Next, j + 1))
        } else {
            match parse_string_exec(cs, j) {
                Some((_, k)) => {
                    let colon = skip_ws_exec(cs, k);
                    if colon < n && cs[colon] == ':' {
                        Some((Expect::Value, colon + 1))
                    } else {
                        None
                    }
                },
                None => None,
            }
        }
    } else if open.len() == 0 {
        None
    } else {
        let array = open[open.len() - 1];
        if c == ',' {
            Some((
                if array {
                    Expect::Value
                } else {
                    Expect::Key
                },
                j + 1,
            ))
        } else if (c == ']' && array) || (c == '}' && !array) {
            open.pop();
            Some((Expect::Next, j + 1))
        } else {
            None
        }
    }
}

fn skip_value_exec(cs: &Vec<char>, i: usize) -> (r: Option<usize>)
    requires
        i <= cs@.len(),
    ensures
        match skip_value(cs@, i as int) {
            Some(k) => r == Some(k as usize) && i < k <= cs@.len(),
            None => r is None,
        },
{
    let n = cs.len();
    let mut open: Vec<bool> = Vec::new();
    let mut ex = Expect::Value;
    let mut p = i;
    loop
        invariant
            n == cs@.len(),
            i <= p <= cs@.len(),
            skip_value(cs@, i as int) == scan(cs@, p as int, open@, ex),
        decreases cs@.len() - p,
    {
        let j = skip_ws_exec(cs, p);
        let step = scan_step_exec(cs, j, &mut open, ex);
        match step {
            None => {
                return None;
            },
            Some((e, k)) => {
                if e == Expect::Next && open.len() == 0 {
                    return Some(k);
                } else if p < k && k <= cs.len() {
                    p = k;
                    ex = e;
                } else {
                    return None;
                }
            },
        }
    }
}

fn member_exec(cs: &Vec<char>, i: usize, key: &str, f: Fields) -> (r: Option<(Fields, usize)>)
    requires
        i <= cs@.len(),
    ensures
        match member(cs@, i as int, key@, f@) {
            Some((g, j)) => r matches Some((h, k)) && h@ == g && k == j && k <= cs@.len(),
            None => r is None,
        },
{
    reveal(member);
    let n = cs.len();
    proof {
        reveal_strlit("null");
        reveal_strlit("true");
        reveal_strlit("false");
    }
    if str_equal(key, "author") {
        if f.author.is_some() {
            return None;
        }
        match parse_string_exec(cs, i) {
            Some((v, j)) => Some((Fields { author: Some(v), ..f }, j)),
            None => None,
        }
    } else if str_equal(key, "title") {
        if f.title.is_some() {
            return None;
        }
        match parse_string_exec(cs, i) {
            Some((v, j)) => Some((Fields { title: Some(v), ..f }, j)),
            None => None,
        }
    } else if str_equal(key, "issue") {
        if f.issue.is_some() {
            return None;
        }
        match parse_string_exec(cs, i) {
            Some((v, j)) => Some((Fields { issue: Some(v), ..f }, j)),
            None => None,
        }
    } else if str_equal(key, "description") {
        if f.description.is_some() {
            return None;
        }
        if lit_at_exec(cs, i, "null") {
            return Some((Fields { description: Some(None), ..f }, i + 4));
        }
        match parse_string_exec(cs, i) {
            Some((v, j)) => Some((Fields { description: Some(Some(v)), ..f }, j)),
            None => None,
        }
    } else if str_equal(key, "type") {
        if f.category.is_some() {
            return None;
        }
        match parse_string_exec(cs, i) {
            Some((v, j)) => match category_named_exec(v.as_str()) {
                Some(c) => Some((Fields { category: Some(c), ..f }, j)),
                None => None,
            },
            None => None,
        }
    } else if str_equal(key, "isBreakingChange") {
        if f.is_breaking_change.is_some() {
            return None;
        }
        if lit_at_exec(cs, i, "true") {
            Some((Fields { is_breaking_change: Some(true), ..f }, i + 4))
        } else if lit_at_exec(cs, i, "false") {
            Some((Fields { is_breaking_change: Some(false), ..f }, i + 5))
        } else {
            None
        }
    } else {
        match skip_value_exec(cs, i) {
            Some(j) => Some((f, j)),
            None => None,
        }
    }
}

fn members_exec(cs: &Vec<char>, i: usize, f: Fields) -> (r: Option<(Fields, usize)>)
    requires
        i <= cs@.len(),
    ensures
        match members(cs@, i as int, f@) {
            Some((g, j)) => r matches Some((h, k)) && h@ == g && k == j && k <= cs@.len(),
            None => r is None,
        },
{
    let mut p = i;
    let mut cur = f;
    loop
        invariant
            p <= cs@.len(),
            members(cs@, i as int, f@) == members(cs@, p as int, cur@),
        decreases cs@.len() - p,
    {
        let (key, j) = match parse_string_exec(cs, p) {
            Some(x) => x,
            None => {
                return None;
            },
        };
        let j1 = skip_ws_exec(cs, j);
        if !(j1 < cs.len() && cs[j1] == ':') {
            return None;
        }
        let v = skip_ws_exec(cs, j1 + 1);
        let (g, k) = match member_exec(cs, v, key.as_str(), cur) {
            Some(x) => x,
            None => {
                return None;
            },
        };
        let k1 = skip_ws_exec(cs, k);
        if k1 < cs.len() && cs[k1] == '}' {
            return Some((g, k1 + 1));
        } else if k1 < cs.len() && cs[k1] == ',' {
            let n = skip_ws_exec(cs, k1 + 1);
            if p < n && n <= cs.len() {
                p = n;
                cur = g;
            } else {
                return None;
            }
        } else {
            return None;
        }
    }
}

impl Entry {
    /// Reads an entry file: one JSON object with the members of an entry,
    /// in any order and with any whitespace; `description` may be absent or
    /// null.
    pub fn from_json(json: &String) -> (r: Result<Entry, ChangelogError>)
        ensures
            match parse_entry(json@) {
                Some(m) => r matches Ok(e) && e@ == m,
                None => r == Err::<Entry, ChangelogError>(ChangelogError::ParseError),
            },
    {
        let cs = chars_of(json.as_str());
        let i = skip_ws_exec(&cs, 0);
        if !(i < cs.len() && cs[i] == '{') {
            return Err(ChangelogError::ParseError);
        }
        let start = skip_ws_exec(&cs, i + 1);
        let empty = Fields {
            author: None,
            title: None,
            description: None,
            category: None,
            is_breaking_change: None,
            issue: None,
        };
        let (f, k) = match members_exec(&cs, start, empty) {
            Some(x) => x,
            None => {
                return Err(ChangelogError::ParseError);
            },
        };
        if skip_ws_exec(&cs, k) != cs.len() {
            return Err(ChangelogError::ParseError);
        }
        match f {
            Fields {
                author: Some(author),
                title: Some(title),
                description,
                category: Some(category),
                is_breaking_change: Some(is_breaking_change),
                issue: Some(issue),
            } => Ok(
                Entry {
                    author,
                    title,
                    description: match description {
                        Some(d) => d,
                        None => None,
                    },
                    category,
                    is_breaking_change,
                    issue,
                },
            ),
            _ => Err(ChangelogError::ParseError),
        }
    }
}

proof fn lemma_quoted_shape(x: Seq<char>)
    ensures
        quoted(x).len() >= 2,
        quoted(x)[0] == '"',
{
    reveal(quoted);
}

proof fn lemma_lit_split(s: Seq<char>, p: int, a: Seq<char>, b: Seq<char>)
    requires
        lit_at(s, p, a + b),
    ensures
        lit_at(s, p, a),
        lit_at(s, p + a.len(), b),
{
    let t = s.subrange(p, p + a.len() + b.len());
    assert(t == a + b);
    assert forall|k: int| 0 <= k < a.len() implies #[trigger] s.subrange(p, p + a.len())[k]
        == a[k] by {
        assert(t[k] == (a + b)[k]);
    }
    assert(s.subrange(p, p + a.len()) =~= a);
    assert forall|k: int| 0 <= k < b.len() implies #[trigger] s.subrange(
        p + a.len(),
        p + a.len() + b.len(),
    )[k] == b[k] by {
        assert(t[a.len() + k] == (a + b)[a.len() + k]);
    }
    assert(s.subrange(p + a.len(), p + a.len() + b.len()) =~= b);
}

proof fn lemma_lit_char(s: Seq<char>, p: int, a: Seq<char>, k: int)
    requires
        lit_at(s, p, a),
        0 <= k < a.len(),
    ensures
        s[p + k] == a[k],
{
    assert(s.subrange(p, p + a.len())[k] == s[p + k]);
}

proof fn lemma_escaped_split(a: Seq<char>, b: Seq<char>)
    ensures
        escaped(a + b) == escaped(a) + escaped(b),
    decreases b.len(),
{
    if b.len() == 0 {
        assert(a + b =~= a);
        assert(escaped(a) + escaped(b) =~= escaped(a));
    } else {
        lemma_escaped_split(a, b.drop_last());
        assert((a + b).drop_last() =~= a + b.drop_last());
        assert((a + b).last() == b.last());
    }
}

proof fn lemma_hex_digit(d: nat)
    requires
        d < 16,
    ensures
        hex_value(hex_digit(d)) == Some(d),
{
}

/// Reading the escaped form of one character gives that character.
proof fn lemma_unescape_char(s: Seq<char>, pos: int, acc: Seq<char>, c: char)
    requires
        lit_at(s, pos, escape_char(c)),
    ensures
        string_rest(s, pos, acc) == string_rest(s, pos + escape_char(c).len(), acc.push(c)),
{
    let e = escape_char(c);
    assert forall|k: int| 0 <= k < e.len() implies s[pos + k] == e[k] by {
        lemma_lit_char(s, pos, e, k);
    }
    if c == '"' || c == '\\' || c == '\n' || c == '\r' || c == '\t' || c == '\x08' || c == '\x0c' {
        assert(s[pos] == '\\');
        assert(unescape(s, pos + 1) == Some((c, pos + 2)));
    } else if (c as u32) < 0x20 {
        let v = code(c);
        lemma_hex_digit(v / 16);
        lemma_hex_digit(v % 16);
        assert(hex_value('0') == Some(0nat));
        assert(s[pos + 2] == '0' && s[pos + 3] == '0');
        assert(s[pos + 4] == hex_digit(v / 16) && s[pos + 5] == hex_digit(v % 16));
        assert(hex4(s, pos + 2) == Some(v));
        assert(code(char_of(v)) == v);
        lemma_code_injective(char_of(v), c);
        assert(unicode_escape(s, pos + 2) == Some((c, pos + 6)));
        assert(unescape(s, pos + 1) == Some((c, pos + 6)));
    } else {
        assert(e == seq![c]);
        lemma_lit_char(s, pos, e, 0);
    }
}

proof fn lemma_string_rest(s: Seq<char>, q: int, x: Seq<char>, k: int)
    requires
        0 <= k <= x.len(),
        lit_at(s, q, escaped(x.subrange(k, x.len() as int)) + seq!['"']),
    ensures
        string_rest(s, q, x.subrange(0, k)) == Some(
            (x, q + escaped(x.subrange(k, x.len() as int)).len() + 1),
        ),
    decreases x.len() - k,
{
    let rest = x.subrange(k, x.len() as int);
    if k == x.len() {
        assert(rest =~= Seq::<char>::empty());
        assert(escaped(rest) =~= Seq::<char>::empty());
        lemma_lit_char(s, q, escaped(rest) + seq!['"'], 0);
        assert(x.subrange(0, k) =~= x);
    } else {
        let c = x[k];
        let tail = x.subrange(k + 1, x.len() as int);
        assert(rest =~= seq![c] + tail);
        lemma_escaped_split(seq![c], tail);
        assert(seq![c].drop_last() =~= Seq::<char>::empty());
        assert(escaped(Seq::<char>::empty()) == Seq::<char>::empty());
        assert(escaped(seq![c]) =~= escape_char(c));
        assert(escaped(rest) + seq!['"'] =~= escape_char(c) + (escaped(tail) + seq!['"']));
        lemma_lit_split(s, q, escape_char(c), escaped(tail) + seq!['"']);
        lemma_unescape_char(s, q, x.subrange(0, k), c);
        assert(x.subrange(0, k).push(c) =~= x.subrange(0, k + 1));
        lemma_string_rest(s, q + escape_char(c).len(), x, k + 1);
    }
}

/// A string literal written by this format reads back as its text.
proof fn lemma_parse_quoted(s: Seq<char>, p: int, x: Seq<char>)
    requires
        lit_at(s, p, quoted(x)),
    ensures
        parse_string(s, p) == Some((x, p + quoted(x).len())),
{
    reveal(quoted);
    lemma_lit_char(s, p, quoted(x), 0);
    assert(quoted(x) =~= seq!['"'] + (escaped(x) + seq!['"']));
    lemma_lit_split(s, p, seq!['"'], escaped(x) + seq!['"']);
    assert(x.subrange(0, x.len() as int) =~= x);
    assert(x.subrange(0, 0) =~= Seq::<char>::empty());
    lemma_string_rest(s, p + 1, x, 0);
}

proof fn lemma_not_ws_at(s: Seq<char>, p: int, t: Seq<char>)
    requires
        lit_at(s, p, t),
        t.len() > 0,
        !is_ws(t[0]),
    ensures
        skip_ws(s, p) == p,
{
    lemma_lit_char(s, p, t, 0);
}

proof fn lemma_indent(s: Seq<char>, p: int, next: Seq<char>)
    requires
        lit_at(s, p, "\n    "@),
        lit_at(s, p + 5, next),
        next.len() > 0,
        !is_ws(next[0]),
    ensures
        skip_ws(s, p) == p + 5,
{
    reveal_strlit("\n    ");
    let w = "\n    "@;
    lemma_lit_char(s, p, w, 0);
    lemma_lit_char(s, p, w, 1);
    lemma_lit_char(s, p, w, 2);
    lemma_lit_char(s, p, w, 3);
    lemma_lit_char(s, p, w, 4);
    lemma_not_ws_at(s, p + 5, next);
    assert(skip_ws(s, p + 4) == p + 5);
    assert(skip_ws(s, p + 3) == p + 5);
    assert(skip_ws(s, p + 2) == p + 5);
    assert(skip_ws(s, p + 1) == p + 5);
}

/// The key of a member at `p`, its colon and the position of its value.
proof fn lemma_member_head(s: Seq<char>, p: int, key: Seq<char>, value: Seq<char>)
    requires
        lit_at(s, p, quoted(key)),
        lit_at(s, p + quoted(key).len(), ": "@),
        lit_at(s, p + quoted(key).len() + 2, value),
        value.len() > 0,
        !is_ws(value[0]),
    ensures
        parse_string(s, p) == Some((key, p + quoted(key).len())),
        skip_ws(s, p + quoted(key).len()) == p + quoted(key).len(),
        s[p + quoted(key).len()] == ':',
        skip_ws(s, p + quoted(key).len() + 1) == p + quoted(key).len() + 2,
{
    reveal_strlit(": ");
    lemma_parse_quoted(s, p, key);
    let j = p + quoted(key).len();
    lemma_lit_char(s, j, ": "@, 0);
    lemma_lit_char(s, j, ": "@, 1);
    lemma_not_ws_at(s, j + 2, value);
}

/// A member followed by a comma and the next member.
proof fn lemma_members_next(
    s: Seq<char>,
    p: int,
    key: Seq<char>,
    value: Seq<char>,
    next_key: Seq<char>,
    f: JsonFields,
    g: JsonFields,
)
    requires
        lit_at(s, p, quoted(key)),
        lit_at(s, p + quoted(key).len(), ": "@),
        lit_at(s, p + quoted(key).len() + 2, value),
        value.len() > 0,
        !is_ws(value[0]),
        member(s, p + quoted(key).len() + 2, key, f) == Some(
            (g, p + quoted(key).len() + 2 + value.len()),
        ),
        lit_at(s, p + quoted(key).len() + 2 + value.len(), ","@),
        lit_at(s, p + quoted(key).len() + 2 + value.len() + 1, "\n    "@),
        lit_at(s, p + quoted(key).len() + 2 + value.len() + 6, quoted(next_key)),
    ensures
        members(s, p, f) == members(s, p + quoted(key).len() + 2 + value.len() + 6, g),
{
    reveal_strlit(",");
    lemma_member_head(s, p, key, value);
    let k = p + quoted(key).len() + 2 + value.len();
    lemma_lit_char(s, k, ","@, 0);
    lemma_quoted_shape(next_key);
    lemma_lit_char(s, k + 6, quoted(next_key), 0);
    lemma_indent(s, k + 1, quoted(next_key));
}

/// The last member, followed by the closing line.
proof fn lemma_members_last(
    s: Seq<char>,
    p: int,
    key: Seq<char>,
    value: Seq<char>,
    f: JsonFields,
    g: JsonFields,
)
    requires
        lit_at(s, p, quoted(key)),
        lit_at(s, p + quoted(key).len(), ": "@),
        lit_at(s, p + quoted(key).len() + 2, value),
        value.len() > 0,
        !is_ws(value[0]),
        member(s, p + quoted(key).len() + 2, key, f) == Some(
            (g, p + quoted(key).len() + 2 + value.len()),
        ),
        lit_at(s, p + quoted(key).len() + 2 + value.len(), "\n}"@),
    ensures
        members(s, p, f) == Some((g, p + quoted(key).len() + 2 + value.len() + 2)),
{
    reveal_strlit("\n}");
    lemma_member_head(s, p, key, value);
    let k = p + quoted(key).len() + 2 + value.len();
    lemma_lit_char(s, k, "\n}"@, 0);
    lemma_lit_char(s, k, "\n}"@, 1);
    assert(skip_ws(s, k + 1) == k + 1);
    assert(skip_ws(s, k) == k + 1);
}

/// The parts of a member line at `q`.
proof fn lemma_member_parts(s: Seq<char>, q: int, key: Seq<char>, value: Seq<char>)
    requires
        lit_at(s, q, member_json(key, value)),
    ensures
        lit_at(s, q, "\n    "@),
        lit_at(s, q + 5, quoted(key)),
        lit_at(s, q + 5 + quoted(key).len(), ": "@),
        lit_at(s, q + 5 + quoted(key).len() + 2, value),
        member_json(key, value).len() == 5 + quoted(key).len() + 2 + value.len(),
{
    reveal(member_json);
    reveal_strlit("\n    ");
    reveal_strlit(": ");
    let a = "\n    "@ + quoted(key);
    lemma_lit_split(s, q, a + ": "@, value);
    lemma_lit_split(s, q, a, ": "@);
    lemma_lit_split(s, q, "\n    "@, quoted(key));
}

proof fn lemma_names_distinct()
    ensures
        forall|c: EntryType| #[trigger] category_named(name_of(c)) == Some(c),
{
    reveal_strlit("Added");
    reveal_strlit("Changed");
    reveal_strlit("Fixed");
    reveal_strlit("Removed");
    reveal_strlit("Deprecated");
    reveal_strlit("Security");
    reveal_strlit("Technical");
    assert("Added"@[0] == 'A');
    assert("Changed"@[0] == 'C');
    assert("Fixed"@[0] == 'F');
    assert("Removed"@[0] == 'R');
    assert("Deprecated"@[0] == 'D');
    assert("Security"@[0] == 'S');
    assert("Technical"@[0] == 'T');
}

proof fn lemma_keys_distinct()
    ensures
        "author"@ != "title"@,
        "author"@ != "issue"@,
        "author"@ != "description"@,
        "author"@ != "type"@,
        "author"@ != "isBreakingChange"@,
        "title"@ != "issue"@,
        "title"@ != "description"@,
        "title"@ != "type"@,
        "title"@ != "isBreakingChange"@,
        "issue"@ != "description"@,
        "issue"@ != "type"@,
        "issue"@ != "isBreakingChange"@,
        "description"@ != "type"@,
        "description"@ != "isBreakingChange"@,
        "type"@ != "isBreakingChange"@,
{
    reveal_strlit("author");
    reveal_strlit("title");
    reveal_strlit("issue");
    reveal_strlit("description");
    reveal_strlit("type");
    reveal_strlit("isBreakingChange");
    assert("author"@[0] != "title"@[0]);
    assert("author"@[0] != "issue"@[0]);
    assert("author"@[0] != "description"@[0]);
    assert("author"@[0] != "type"@[0]);
    assert("author"@[0] != "isBreakingChange"@[0]);
    assert("title"@[0] != "issue"@[0]);
    assert("title"@[0] != "description"@[0]);
    assert("title"@[1] != "type"@[1]);
    assert("title"@[0] != "isBreakingChange"@[0]);
    assert("issue"@.len() != "isBreakingChange"@.len());
    assert("issue"@[0] != "description"@[0]);
    assert("issue"@[0] != "type"@[0]);
    assert("description"@[0] != "type"@[0]);
    assert("description"@[0] != "isBreakingChange"@[0]);
    assert("type"@[0] != "isBreakingChange"@[0]);
}

proof fn lemma_member_author(s: Seq<char>, v: int, x: Seq<char>, f: JsonFields)
    requires
        lit_at(s, v, quoted(x)),
        f.author is None,
    ensures
        member(s, v, "author"@, f) == Some(
            (JsonFields { author: Some(x), ..f }, v + quoted(x).len()),
        ),
{
    reveal(member);
    lemma_parse_quoted(s, v, x);
}

proof fn lemma_member_title(s: Seq<char>, v: int, x: Seq<char>, f: JsonFields)
    requires
        lit_at(s, v, quoted(x)),
        f.title is None,
    ensures
        member(s, v, "title"@, f) == Some(
            (JsonFields { title: Some(x), ..f }, v + quoted(x).len()),
        ),
{
    reveal(member);
    lemma_keys_distinct();
    lemma_parse_quoted(s, v, x);
}

proof fn lemma_member_issue(s: Seq<char>, v: int, x: Seq<char>, f: JsonFields)
    requires
        lit_at(s, v, quoted(x)),
        f.issue is None,
    ensures
        member(s, v, "issue"@, f) == Some(
            (JsonFields { issue: Some(x), ..f }, v + quoted(x).len()),
        ),
{
    reveal(member);
    lemma_keys_distinct();
    lemma_parse_quoted(s, v, x);
}

proof fn lemma_member_description(s: Seq<char>, v: int, d: Option<Seq<char>>, f: JsonFields)
    requires
        lit_at(s, v, description_json(d)),
        f.description is None,
    ensures
        member(s, v, "description"@, f) == Some(
            (JsonFields { description: Some(d), ..f }, v + description_json(d).len()),
        ),
{
    reveal(member);
    reveal_strlit("null");
    lemma_keys_distinct();
    match d {
        Some(x) => {
            lemma_parse_quoted(s, v, x);
            lemma_quoted_shape(x);
            lemma_lit_char(s, v, quoted(x), 0);
            if lit_at(s, v, "null"@) {
                lemma_lit_char(s, v, "null"@, 0);
            }
        },
        None => {},
    }
}

proof fn lemma_member_type(s: Seq<char>, v: int, c: EntryType, f: JsonFields)
    requires
        lit_at(s, v, quoted(name_of(c))),
        f.category is None,
    ensures
        member(s, v, "type"@, f) == Some(
            (JsonFields { category: Some(c), ..f }, v + quoted(name_of(c)).len()),
        ),
{
    reveal(member);
    lemma_keys_distinct();
    lemma_names_distinct();
    lemma_parse_quoted(s, v, name_of(c));
}

proof fn lemma_member_breaking(s: Seq<char>, v: int, b: bool, f: JsonFields)
    requires
        lit_at(s, v, bool_json(b)),
        f.is_breaking_change is None,
    ensures
        member(s, v, "isBreakingChange"@, f) == Some(
            (JsonFields { is_breaking_change: Some(b), ..f }, v + bool_json(b).len()),
        ),
{
    reveal(member);
    reveal_strlit("true");
    reveal_strlit("false");
    lemma_keys_distinct();
    if !b {
        lemma_lit_char(s, v, "false"@, 0);
        if lit_at(s, v, "true"@) {
            lemma_lit_char(s, v, "true"@, 0);
        }
    }
}

/// The key of the `i`-th member of an entry object, counted from 0.
spec fn key_at(i: int) -> Seq<char> {
    if i == 0 {
        "author"@
    } else if i == 1 {
        "title"@
    } else if i == 2 {
        "description"@
    } else if i == 3 {
        "type"@
    } else if i == 4 {
        "isBreakingChange"@
    } else {
        "issue"@
    }
}

/// The value text of the `i`-th member of the object written for `e`.
spec fn value_at(e: EntryModel, i: int) -> Seq<char> {
    if i == 0 {
        quoted(e.author)
    } else if i == 1 {
        quoted(e.title)
    } else if i == 2 {
        description_json(e.description)
    } else if i == 3 {
        quoted(name_of(e.category))
    } else if i == 4 {
        bool_json(e.is_breaking_change)
    } else {
        quoted(e.issue)
    }
}

/// Where the `i`-th member line of the object written for `e` starts.
spec fn start_of(e: EntryModel, i: nat) -> int
    decreases i,
{
    if i == 0 {
        1
    } else {
        start_of(e, (i - 1) as nat) + member_json(key_at(i - 1), value_at(e, i - 1)).len() + 1
    }
}

proof fn lemma_layout(e: EntryModel)
    ensures
        forall|i: nat|
            i < 6 ==> lit_at(
                entry_json(e),
                #[trigger] start_of(e, i),
                member_json(key_at(i as int), value_at(e, i as int)),
            ),
        forall|i: nat|
            i < 5 ==> lit_at(
                entry_json(e),
                #[trigger] start_of(e, i) + member_json(key_at(i as int), value_at(e, i as int)).len(),
                ","@,
            ),
        lit_at(entry_json(e), start_of(e, 5) + member_json(key_at(5), value_at(e, 5)).len(), "\n}"@),
        entry_json(e).len() == start_of(e, 5) + member_json(key_at(5), value_at(e, 5)).len() + 2,
        lit_at(entry_json(e), 0, "{"@),
{
    reveal(entry_json);
    reveal_strlit("{");
    reveal_strlit(",");
    reveal_strlit("\n}");
    let m1 = member_json("author"@, value_at(e, 0));
    let m2 = member_json("title"@, value_at(e, 1));
    let m3 = member_json("description"@, value_at(e, 2));
    let m4 = member_json("type"@, value_at(e, 3));
    let m5 = member_json("isBreakingChange"@, value_at(e, 4));
    let m6 = member_json("issue"@, value_at(e, 5));
    let x1 = "{"@ + m1;
    let x2 = x1 + ","@;
    let x3 = x2 + m2;
    let x4 = x3 + ","@;
    let x5 = x4 + m3;
    let x6 = x5 + ","@;
    let x7 = x6 + m4;
    let x8 = x7 + ","@;
    let x9 = x8 + m5;
    let x10 = x9 + ","@;
    let x11 = x10 + m6;
    let s = x11 + "\n}"@;
    assert(s == entry_json(e));
    assert(lit_at(s, 0, s)) by {
        assert(s.subrange(0, s.len() as int) =~= s);
    }
    lemma_lit_split(s, 0, x11, "\n}"@);
    lemma_lit_split(s, 0, x10, m6);
    lemma_lit_split(s, 0, x9, ","@);
    lemma_lit_split(s, 0, x8, m5);
    lemma_lit_split(s, 0, x7, ","@);
    lemma_lit_split(s, 0, x6, m4);
    lemma_lit_split(s, 0, x5, ","@);
    lemma_lit_split(s, 0, x4, m3);
    lemma_lit_split(s, 0, x3, ","@);
    lemma_lit_split(s, 0, x2, m2);
    lemma_lit_split(s, 0, x1, ","@);
    lemma_lit_split(s, 0, "{"@, m1);
    reveal_with_fuel(start_of, 7);
    assert(start_of(e, 0) == x1.len() - m1.len());
    assert(start_of(e, 1) == x3.len() - m2.len());
    assert(start_of(e, 2) == x5.len() - m3.len());
    assert(start_of(e, 3) == x7.len() - m4.len());
    assert(start_of(e, 4) == x9.len() - m5.len());
    assert(start_of(e, 5) == x11.len() - m6.len());
}

proof fn lemma_value_shape(e: EntryModel, i: int)
    ensures
        value_at(e, i).len() > 0,
        !is_ws(value_at(e, i)[0]),
{
    reveal_strlit("null");
    reveal_strlit("true");
    reveal_strlit("false");
    lemma_quoted_shape(e.author);
    lemma_quoted_shape(e.title);
    lemma_quoted_shape(e.issue);
    lemma_quoted_shape(name_of(e.category));
    match e.description {
        Some(d) => lemma_quoted_shape(d),
        None => {},
    }
}

proof fn lemma_fields_before(e: EntryModel, i: nat)
    requires
        i <= 6,
    ensures
        (fields_before(e, i).author is None) == (i <= 0),
        (fields_before(e, i).title is None) == (i <= 1),
        (fields_before(e, i).description is None) == (i <= 2),
        (fields_before(e, i).category is None) == (i <= 3),
        (fields_before(e, i).is_breaking_change is None) == (i <= 4),
        (fields_before(e, i).issue is None) == (i <= 5),
    decreases i,
{
    if i > 0 {
        lemma_fields_before(e, (i - 1) as nat);
    }
}

/// The members from the `i`-th on read into the fields of the earlier ones.
proof fn lemma_members_from(e: EntryModel, i: nat, f: JsonFields)
    requires
        i < 6,
        f == fields_before(e, i),
    ensures
        members(entry_json(e), start_of(e, i) + 5, f) == Some(
            (
                fields_before(e, 6),
                start_of(e, 5) + member_json(key_at(5), value_at(e, 5)).len() + 2,
            ),
        ),
    decreases 6 - i,
{
    let s = entry_json(e);
    let key = key_at(i as int);
    let value = value_at(e, i as int);
    let q = start_of(e, i);
    lemma_layout(e);
    lemma_member_parts(s, q, key, value);
    let v = q + 5 + quoted(key).len() + 2;
    lemma_value_shape(e, i as int);
    lemma_fields_before(e, i);
    if i == 0 {
        lemma_member_author(s, v, e.author, f);
    } else if i == 1 {
        lemma_member_title(s, v, e.title, f);
    } else if i == 2 {
        lemma_member_description(s, v, e.description, f);
    } else if i == 3 {
        lemma_member_type(s, v, e.category, f);
    } else if i == 4 {
        lemma_member_breaking(s, v, e.is_breaking_change, f);
    } else {
        lemma_member_issue(s, v, e.issue, f);
    }
    assert(fields_before(e, i + 1) == fields_after(e, i as int, f));
    if i < 5 {
        let n = (i + 1) as nat;
        lemma_member_parts(s, start_of(e, n), key_at(n as int), value_at(e, n as int));
        lemma_members_next(s, q + 5, key, value, key_at(n as int), f, fields_before(e, n));
        lemma_members_from(e, n, fields_before(e, n));
    } else {
        lemma_members_last(s, q + 5, key, value, f, fields_before(e, 6));
    }
}

/// The fields recorded after reading the `i`-th member of the object of `e`.
spec fn fields_after(e: EntryModel, i: int, f: JsonFields) -> JsonFields {
    if i == 0 {
        JsonFields { author: Some(e.author), ..f }
    } else if i == 1 {
        JsonFields { title: Some(e.title), ..f }
    } else if i == 2 {
        JsonFields { description: Some(e.description), ..f }
    } else if i == 3 {
        JsonFields { category: Some(e.category), ..f }
    } else if i == 4 {
        JsonFields { is_breaking_change: Some(e.is_breaking_change), ..f }
    } else {
        JsonFields { issue: Some(e.issue), ..f }
    }
}

/// The fields recorded before the `i`-th member of the object of `e`.
spec fn fields_before(e: EntryModel, i: nat) -> JsonFields
    decreases i,
{
    if i == 0 {
        no_fields()
    } else {
        fields_after(e, i - 1, fields_before(e, (i - 1) as nat))
    }
}

/// Reading the text of an entry file written for an entry gives back that
/// entry, for every entry.
pub proof fn lemma_json_round_trip(e: EntryModel)
    ensures
        parse_entry(entry_json(e)) == Some(e),
{
    let s = entry_json(e);
    lemma_layout(e);
    lemma_member_parts(s, start_of(e, 0), key_at(0), value_at(e, 0));
    reveal_strlit("{");
    lemma_lit_char(s, 0, "{"@, 0);
    lemma_quoted_shape("author"@);
    assert(start_of(e, 0) == 1);
    lemma_indent(s, 1, quoted("author"@));
    lemma_members_from(e, 0, no_fields());
    reveal_with_fuel(fields_before, 7);
    assert(skip_ws(s, s.len() as int) == s.len());
}

} // verus!
