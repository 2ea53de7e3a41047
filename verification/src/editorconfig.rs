//! Style configuration files: reading one, and cascading those of the
//! directories above a file.
//!
//! A configuration file has lines. A line that starts with `[` opens a
//! section, which runs to the next such line; what stands before the first
//! section is the top. A line that holds `=` and does not start with `#` or
//! `;` is an entry: a key, ` = `, and a value.

use crate::text::{lines, push_char, split_lines, str_eq, views};
use vstd::prelude::*;
use vstd::string::*;

verus! {

/// The settings that a configuration gives for a file.
#[derive(Debug, Clone, Copy, PartialEq, Eq, Structural)]
pub struct EditorConfigSettings {
    /// The number of spaces of one unit of indentation, where it is set.
    pub indent_size: Option<usize>,
}

/// A configuration: that of one file, or several of them combined.
#[derive(Debug, Clone, PartialEq, Eq)]
pub struct EditorConfig {
    /// Whether no configuration of a directory further up is to be read.
    pub root: bool,
    /// The sections, each with the pattern of the files that it is for.
    pub blocks: Vec<(String, EditorConfigSettings)>,
}

/// The model of a configuration.
pub ghost struct Config {
    pub root: bool,
    pub blocks: Seq<(Seq<char>, EditorConfigSettings)>,
}

/// The models of sections.
pub open spec fn blocks_of(blocks: Seq<(String, EditorConfigSettings)>) -> Seq<
    (Seq<char>, EditorConfigSettings),
> {
    Seq::new(blocks.len(), |i: int| (blocks[i].0@, blocks[i].1))
}

impl View for EditorConfig {
    type V = Config;

    open spec fn view(&self) -> Config {
        Config { root: self.root, blocks: blocks_of(self.blocks@) }
    }
}

/// Whether `c` is a decimal digit.
pub open spec fn is_digit(c: char) -> bool {
    '0' <= c <= '9'
}

/// Whether `s` holds decimal digits only.
pub open spec fn all_digits(s: Seq<char>) -> bool {
    forall|i: int| 0 <= i < s.len() ==> is_digit(#[trigger] s[i])
}

/// The number that the decimal digits `s` write.
pub open spec fn digits_value(s: Seq<char>) -> nat
    decreases s.len(),
{
    if s.len() == 0 {
        0
    } else {
        digits_value(s.drop_last()) * 10 + (s.last() as u32 - '0' as u32) as nat
    }
}

/// `s` without a plus sign in front.
pub open spec fn unsigned(s: Seq<char>) -> Seq<char> {
    if s.len() > 0 && s[0] == '+' {
        s.skip(1)
    } else {
        s
    }
}

/// The number that `s` writes, as `str::parse::<usize>` reads it: an
/// optional plus sign and then one decimal digit or more, which write a
/// number that a `usize` can hold.
pub open spec fn number(s: Seq<char>) -> Option<usize> {
    let digits = unsigned(s);
    if digits.len() > 0 && all_digits(digits) && digits_value(digits) <= usize::MAX {
        Some(digits_value(digits) as usize)
    } else {
        None
    }
}

/// More digits never write a smaller number.
pub proof fn lemma_digits_value_grows(s: Seq<char>, k: int)
    requires
        0 <= k <= s.len(),
        all_digits(s),
    ensures
        digits_value(s.take(k)) <= digits_value(s),
    decreases s.len() - k,
{
    if k < s.len() {
        lemma_digits_value_grows(s, k + 1);
        assert(s.take(k + 1).drop_last() =~= s.take(k));
        assert(is_digit(s[k]));
    } else {
        assert(s.take(k) =~= s);
    }
}

/// The characters of `s`.
pub fn to_chars(s: &str) -> (out: Vec<char>)
    ensures
        out@ == s@,
{
    let mut out: Vec<char> = Vec::new();
    for c in it: s.chars()
        invariant
            it.seq() == s@,
            out@ == s@.take(it.index() as int),
    {
        out.push(c);
        proof {
            assert(out@ =~= s@.take(it.index() + 1));
        }
    }
    proof {
        assert(s@.take(s@.len() as int) =~= s@);
    }
    out
}

/// The characters of `chars` from `from` up to `to`, as a string.
pub fn from_chars(chars: &Vec<char>, from: usize, to: usize) -> (out: String)
    requires
        from <= to <= chars@.len(),
    ensures
        out@ == chars@.subrange(from as int, to as int),
{
    let mut out = String::new();
    let mut i: usize = from;
    while i < to
        invariant
            from <= i <= to <= chars@.len(),
            out@ == chars@.subrange(from as int, i as int),
        decreases to - i,
    {
        push_char(&mut out, chars[i]);
        i = i + 1;
        proof {
            assert(out@ =~= chars@.subrange(from as int, i as int));
        }
    }
    out
}

/// The number that `s` writes.
pub fn parse_number(s: &str) -> (out: Option<usize>)
    ensures
        out == number(s@),
{
    let chars = to_chars(s);
    let first: usize = if chars.len() > 0 && chars[0] == '+' {
        1
    } else {
        0
    };
    let ghost digits = unsigned(s@);
    proof {
        assert(digits =~= chars@.skip(first as int));
    }
    if first == chars.len() {
        return None;
    }
    let mut value: usize = 0;
    let mut i: usize = first;
    while i < chars.len()
        invariant
            first <= i <= chars@.len(),
            digits == chars@.skip(first as int),
            digits == unsigned(s@),
            all_digits(digits.take(i - first)),
            value == digits_value(digits.take(i - first)),
        decreases chars@.len() - i,
    {
        let c = chars[i];
        let ghost done = digits.take(i - first);
        let ghost more = digits.take(i - first + 1);
        proof {
            assert(digits[i - first] == c);
            assert(more.drop_last() =~= done);
            assert(more.last() == c);
        }
        if !('0' <= c && c <= '9') {
            proof {
                assert(!is_digit(digits[i - first]));
            }
            return None;
        }
        let d = (c as u32 - '0' as u32) as usize;
        proof {
            assert(all_digits(more)) by {
                assert forall|j: int| 0 <= j < more.len() implies is_digit(#[trigger] more[j]) by {
                    if j < done.len() {
                        assert(more[j] == done[j]);
                    }
                }
            }
        }
        if value > (usize::MAX - d) / 10 {
            proof {
                assert(digits_value(more) > usize::MAX);
                if all_digits(digits) {
                    lemma_digits_value_grows(digits, i - first + 1);
                }
            }
            return None;
        }
        value = value * 10 + d;
        i = i + 1;
    }
    proof {
        assert(digits.take(i - first) =~= digits);
    }
    Some(value)
}

/// Whether ` = `, which parts a key from its value, stands at `i` in `s`.
pub open spec fn separator_at(s: Seq<char>, i: int) -> bool {
    0 <= i && i + 3 <= s.len() && s[i] == ' ' && s[i + 1] == '=' && s[i + 2] == ' '
}

/// The first position of ` = ` in `s`, or `s.len()` when there is none.
pub open spec fn first_separator(s: Seq<char>) -> int
    decreases s.len(),
{
    if s.len() == 0 || separator_at(s, 0) {
        0
    } else {
        1 + first_separator(s.drop_first())
    }
}

/// `first_separator` is a position of `s` or its length, no ` = ` stands
/// before it, and one stands at it when it is a position.
pub proof fn lemma_first_separator(s: Seq<char>)
    ensures
        0 <= first_separator(s) <= s.len(),
        forall|j: int| 0 <= j < first_separator(s) ==> !separator_at(s, j),
        first_separator(s) < s.len() ==> separator_at(s, first_separator(s)),
    decreases s.len(),
{
    if s.len() == 0 || separator_at(s, 0) {
    } else {
        let t = s.drop_first();
        lemma_first_separator(t);
        assert forall|j: int| 0 <= j < first_separator(s) implies !separator_at(s, j) by {
            if j > 0 {
                assert(!separator_at(t, j - 1));
                if j + 3 <= s.len() {
                    assert(t[j - 1] == s[j] && t[j] == s[j + 1] && t[j + 1] == s[j + 2]);
                }
            }
        }
        let f = first_separator(t);
        if f < t.len() {
            assert(separator_at(t, f));
            assert(t[f] == s[f + 1] && t[f + 1] == s[f + 2] && t[f + 2] == s[f + 3]);
        }
    }
}

/// A position with no ` = ` before it, and ` = ` at it or the end of `s`
/// there, is `first_separator(s)`.
pub proof fn lemma_first_separator_is(s: Seq<char>, k: int)
    requires
        0 <= k <= s.len(),
        forall|j: int| 0 <= j < k ==> !separator_at(s, j),
        k < s.len() ==> separator_at(s, k),
    ensures
        first_separator(s) == k,
{
    lemma_first_separator(s);
}

/// Whether `line` is an entry: it holds `=` and is no comment.
pub open spec fn is_entry(line: Seq<char>) -> bool {
    !(line.len() > 0 && (line[0] == '#' || line[0] == ';')) && line.contains('=')
}

/// The key and the value of an entry: what stands before the first ` = `,
/// and what stands after it up to the next one. `None` where no ` = `
/// stands in `line`.
pub open spec fn entry(line: Seq<char>) -> Option<(Seq<char>, Seq<char>)> {
    let k = first_separator(line);
    if k >= line.len() {
        None
    } else {
        let rest = line.skip(k + 3);
        Some((line.take(k), rest.take(first_separator(rest))))
    }
}

/// The keys and values of the entries among `ls`, in order. `None` where
/// one of the entries has no ` = `.
pub open spec fn entries(ls: Seq<Seq<char>>) -> Option<Seq<(Seq<char>, Seq<char>)>>
    decreases ls.len(),
{
    if ls.len() == 0 {
        Some(Seq::empty())
    } else {
        match entries(ls.drop_last()) {
            None => None,
            Some(front) => if is_entry(ls.last()) {
                match entry(ls.last()) {
                    None => None,
                    Some(pair) => Some(front.push(pair)),
                }
            } else {
                Some(front)
            },
        }
    }
}

/// The value of `key`: that of the last of `pairs` with this key.
pub open spec fn lookup(pairs: Seq<(Seq<char>, Seq<char>)>, key: Seq<char>) -> Option<Seq<char>>
    decreases pairs.len(),
{
    if pairs.len() == 0 {
        None
    } else if pairs.last().0 == key {
        Some(pairs.last().1)
    } else {
        lookup(pairs.drop_last(), key)
    }
}

/// The models of keys and values.
pub open spec fn pairs_of(pairs: Seq<(String, String)>) -> Seq<(Seq<char>, Seq<char>)> {
    Seq::new(pairs.len(), |i: int| (pairs[i].0@, pairs[i].1@))
}

/// The settings that `pairs` hold.
pub open spec fn settings_of(pairs: Seq<(Seq<char>, Seq<char>)>) -> EditorConfigSettings {
    EditorConfigSettings {
        indent_size: match lookup(pairs, "indent_size"@) {
            Some(value) => number(value),
            None => None,
        },
    }
}

/// The first position of ` = ` in `chars` at or after `from`, or the length
/// of `chars` when there is none.
fn find_separator(chars: &Vec<char>, from: usize) -> (at: usize)
    requires
        from <= chars@.len(),
    ensures
        from <= at <= chars@.len(),
        at - from == first_separator(chars@.skip(from as int)),
{
    let ghost rest = chars@.skip(from as int);
    let mut i: usize = from;
    while i < chars.len()
        invariant
            from <= i <= chars@.len(),
            rest == chars@.skip(from as int),
            forall|j: int| 0 <= j < i - from ==> !separator_at(rest, j),
        decreases chars@.len() - i,
    {
        if chars.len() - i >= 3 && chars[i] == ' ' && chars[i + 1] == '=' && chars[i + 2] == ' ' {
            proof {
                assert(separator_at(rest, i - from));
                lemma_first_separator_is(rest, i - from);
            }
            return i;
        }
        proof {
            if i - from + 3 <= rest.len() {
                assert(rest[i - from] == chars@[i as int]);
                assert(rest[i - from + 1] == chars@[i + 1]);
                assert(rest[i - from + 2] == chars@[i + 2]);
            }
        }
        i = i + 1;
    }
    proof {
        lemma_first_separator_is(rest, rest.len() as int);
    }
    i
}

/// Whether `c` stands in `chars`.
fn holds(chars: &Vec<char>, c: char) -> (r: bool)
    ensures
        r == chars@.contains(c),
{
    let mut i: usize = 0;
    while i < chars.len()
        invariant
            i <= chars@.len(),
            forall|j: int| 0 <= j < i ==> chars@[j] != c,
        decreases chars@.len() - i,
    {
        if chars[i] == c {
            return true;
        }
        i = i + 1;
    }
    false
}

/// The keys and values of the entries among the lines `from` up to `to` of
/// `content`.
///
/// They are kept as pairs in the order of the lines, and `find` takes the
/// last pair of a key: vstd specifies a hash map only for keys whose hashing
/// it models, and strings are not among them.
pub fn parse_key_value(content: &Vec<String>, from: usize, to: usize) -> (out: Option<
    Vec<(String, String)>,
>)
    requires
        from <= to <= content@.len(),
    ensures
        match out {
            Some(pairs) => entries(views(content@).subrange(from as int, to as int)) == Some(
                pairs_of(pairs@),
            ),
            None => entries(views(content@).subrange(from as int, to as int)) is None,
        },
{
    let ghost ls = views(content@).subrange(from as int, to as int);
    let mut pairs: Vec<(String, String)> = Vec::new();
    let mut i: usize = from;
    proof {
        assert(pairs_of(pairs@) =~= Seq::empty());
        assert(ls.take(0) =~= Seq::<Seq<char>>::empty());
    }
    while i < to
        invariant
            from <= i <= to <= content@.len(),
            ls == views(content@).subrange(from as int, to as int),
            entries(ls.take(i - from)) == Some(pairs_of(pairs@)),
        decreases to - i,
    {
        let chars = to_chars(content[i].as_str());
        let ghost line = chars@;
        let ghost upto = ls.take(i - from + 1);
        proof {
            assert(upto.drop_last() =~= ls.take(i - from));
            assert(upto.last() == line);
        }
        let comment = chars.len() > 0 && (chars[0] == '#' || chars[0] == ';');
        if !comment && holds(&chars, '=') {
            let at = find_separator(&chars, 0);
            proof {
                assert(line.skip(0) =~= line);
                lemma_first_separator(line);
            }
            if at >= chars.len() {
                proof {
                    assert(entries(upto) is None);
                    lemma_entries_none_stays(ls, i - from + 1);
                }
                return None;
            }
            let end = find_separator(&chars, at + 3);
            let key = from_chars(&chars, 0, at);
            let value = from_chars(&chars, at + 3, end);
            let ghost before = pairs@;
            proof {
                let rest = line.skip(at + 3);
                assert(line.take(at as int) =~= line.subrange(0, at as int));
                assert(rest.take(end - (at + 3)) =~= line.subrange(at + 3, end as int));
            }
            pairs.push((key, value));
            proof {
                assert(pairs_of(pairs@) =~= pairs_of(before).push(entry(line)->0));
            }
        }
        i = i + 1;
    }
    proof {
        assert(ls.take(to - from) =~= ls);
    }
    Some(pairs)
}

/// Once entries are missing their ` = `, more lines do not mend it.
pub proof fn lemma_entries_none_stays(ls: Seq<Seq<char>>, k: int)
    requires
        0 <= k <= ls.len(),
        entries(ls.take(k)) is None,
    ensures
        entries(ls) is None,
    decreases ls.len() - k,
{
    if k < ls.len() {
        assert(ls.take(k + 1).drop_last() =~= ls.take(k));
        lemma_entries_none_stays(ls, k + 1);
    } else {
        assert(ls.take(k) =~= ls);
    }
}

/// The value of `key` among `pairs`.
pub fn find<'a>(pairs: &'a Vec<(String, String)>, key: &str) -> (out: Option<&'a String>)
    ensures
        match out {
            Some(value) => lookup(pairs_of(pairs@), key@) == Some(value@),
            None => lookup(pairs_of(pairs@), key@) is None,
        },
{
    let ghost all = pairs_of(pairs@);
    let mut i: usize = pairs.len();
    proof {
        assert(all.take(i as int) =~= all);
    }
    while i > 0
        invariant
            i <= pairs@.len(),
            all == pairs_of(pairs@),
            lookup(all, key@) == lookup(all.take(i as int), key@),
        decreases i,
    {
        i = i - 1;
        proof {
            assert(all.take(i + 1).drop_last() =~= all.take(i as int));
            assert(all.take(i + 1).last() == all[i as int]);
        }
        if str_eq(pairs[i].0.as_str(), key) {
            return Some(&pairs[i].1);
        }
    }
    None
}

impl Default for EditorConfig {
    fn default() -> (r: EditorConfig)
        ensures
            r@ == (Config { root: false, blocks: Seq::empty() }),
    {
        let r = EditorConfig { root: false, blocks: Vec::new() };
        proof {
            assert(r@.blocks =~= Seq::empty());
        }
        r
    }
}

impl Default for EditorConfigSettings {
    fn default() -> (r: EditorConfigSettings)
        ensures
            r == EditorConfigSettings::unset(),
    {
        EditorConfigSettings { indent_size: None }
    }
}

impl EditorConfigSettings {
    /// The settings that set nothing.
    pub open spec fn unset() -> EditorConfigSettings {
        EditorConfigSettings { indent_size: None }
    }

    /// `first` overlaid by `second`: what `second` sets, and else what
    /// `first` sets.
    pub open spec fn combine_spec(
        first: EditorConfigSettings,
        second: EditorConfigSettings,
    ) -> EditorConfigSettings {
        EditorConfigSettings {
            indent_size: if second.indent_size is Some {
                second.indent_size
            } else {
                first.indent_size
            },
        }
    }

    /// `first` overlaid by `second`.
    pub fn combine(first: &EditorConfigSettings, second: &EditorConfigSettings) -> (out:
        EditorConfigSettings)
        ensures
            out == EditorConfigSettings::combine_spec(*first, *second),
    {
        EditorConfigSettings {
            indent_size: match second.indent_size {
                Some(size) => Some(size),
                None => first.indent_size,
            },
        }
    }

    /// The settings that the keys and values `pairs` hold.
    pub fn of(pairs: &Vec<(String, String)>) -> (out: EditorConfigSettings)
        ensures
            out == settings_of(pairs_of(pairs@)),
    {
        EditorConfigSettings {
            indent_size: match find(pairs, "indent_size") {
                Some(value) => parse_number(value.as_str()),
                None => None,
            },
        }
    }
}

impl From<Vec<(String, String)>> for EditorConfigSettings {
    fn from(pairs: Vec<(String, String)>) -> (out: EditorConfigSettings) {
        EditorConfigSettings::of(&pairs)
    }
}

impl vstd::std_specs::convert::FromSpecImpl<Vec<(String, String)>> for EditorConfigSettings {
    open spec fn obeys_from_spec() -> bool {
        true
    }

    open spec fn from_spec(pairs: Vec<(String, String)>) -> EditorConfigSettings {
        settings_of(pairs_of(pairs@))
    }
}

/// Whether `line` opens a section.
pub open spec fn is_header(line: Seq<char>) -> bool {
    line.len() > 0 && line[0] == '['
}

/// The pattern that the header `line` names: what stands between its first
/// character and a closing bracket at its end. `None` where it does not end
/// with one.
pub open spec fn criteria(line: Seq<char>) -> Option<Seq<char>> {
    if line.len() >= 2 && line.last() == ']' {
        Some(line.subrange(1, line.len() - 1))
    } else {
        None
    }
}

/// The position of the last header among `ls`, or `-1` when there is none.
pub open spec fn last_header(ls: Seq<Seq<char>>) -> int
    decreases ls.len(),
{
    if ls.len() == 0 {
        -1
    } else if is_header(ls.last()) {
        ls.len() - 1
    } else {
        last_header(ls.drop_last())
    }
}

/// A header that no header follows is the last one; and where there is no
/// header, there is no last one.
pub proof fn lemma_last_header_is(ls: Seq<Seq<char>>, k: int)
    requires
        -1 <= k < ls.len(),
        k >= 0 ==> is_header(ls[k]),
        forall|j: int| k < j < ls.len() ==> !is_header(#[trigger] ls[j]),
    ensures
        last_header(ls) == k,
    decreases ls.len(),
{
    if ls.len() > 0 && k < ls.len() - 1 {
        assert(!is_header(ls[ls.len() - 1]));
        let front = ls.drop_last();
        assert forall|j: int| k < j < front.len() implies !is_header(#[trigger] front[j]) by {
            assert(front[j] == ls[j]);
        }
        lemma_last_header_is(front, k);
    }
}

/// The section that the lines `block` write, the first of which is its
/// header: its pattern and its settings. `None` where the header does not
/// end with a closing bracket or an entry has no ` = `.
pub open spec fn section(block: Seq<Seq<char>>) -> Option<(Seq<char>, EditorConfigSettings)> {
    match (criteria(block[0]), entries(block)) {
        (Some(pattern), Some(pairs)) => Some((pattern, settings_of(pairs))),
        _ => None,
    }
}

/// The configuration that the lines `ls` write. Its sections stand in
/// reverse: the last one of the file first. `None` where a header does not
/// end with a closing bracket or an entry has no ` = `.
pub open spec fn config_of(ls: Seq<Seq<char>>) -> Option<Config>
    decreases ls.len(),
{
    let k = last_header(ls);
    if 0 <= k < ls.len() {
        match (section(ls.skip(k)), config_of(ls.take(k))) {
            (Some(block), Some(above)) => Some(
                Config { root: above.root, blocks: seq![block] + above.blocks },
            ),
            _ => None,
        }
    } else {
        match entries(ls) {
            Some(top) => Some(
                Config { root: lookup(top, "root"@) == Some("true"@), blocks: Seq::empty() },
            ),
            None => None,
        }
    }
}

/// `config` with the sections `done` in front of its own.
pub open spec fn with_blocks(
    done: Seq<(Seq<char>, EditorConfigSettings)>,
    config: Option<Config>,
) -> Option<Config> {
    match config {
        Some(c) => Some(Config { root: c.root, blocks: done + c.blocks }),
        None => None,
    }
}

/// The configuration that `content` writes.
///
/// There is none where a line that opens a section does not end with `]`,
/// or where a line that holds `=` and is no comment does not hold ` = `.
pub fn parse(content: &str) -> (out: Option<EditorConfig>)
    ensures
        match out {
            Some(config) => config_of(lines(content@)) == Some(config@),
            None => config_of(lines(content@)) is None,
        },
{
    let ls = split_lines(content);
    let ghost all = views(ls@);
    let mut blocks: Vec<(String, EditorConfigSettings)> = Vec::new();
    let mut end: usize = ls.len();
    let mut i: usize = ls.len();
    proof {
        assert(all.take(end as int) =~= all);
        assert(blocks_of(blocks@) =~= Seq::empty());
        assert(with_blocks(blocks_of(blocks@), config_of(all)) == config_of(all)) by {
            if let Some(c) = config_of(all) {
                assert(Seq::<(Seq<char>, EditorConfigSettings)>::empty() + c.blocks =~= c.blocks);
            }
        }
    }
    while i > 0
        invariant
            i <= end <= ls@.len(),
            all == views(ls@),
            all == lines(content@),
            forall|j: int| i <= j < end ==> !is_header(#[trigger] all[j]),
            config_of(all) == with_blocks(blocks_of(blocks@), config_of(all.take(end as int))),
        decreases i,
    {
        i = i - 1;
        let chars = to_chars(ls[i].as_str());
        proof {
            assert(all[i as int] == chars@);
        }
        if chars.len() > 0 && chars[0] == '[' {
            let ghost upto = all.take(end as int);
            proof {
                assert forall|j: int| i < j < upto.len() implies !is_header(#[trigger] upto[j]) by {
                    assert(upto[j] == all[j]);
                }
                lemma_last_header_is(upto, i as int);
                assert(upto.skip(i as int) =~= all.subrange(i as int, end as int));
                assert(upto.take(i as int) =~= all.take(i as int));
                assert(upto.skip(i as int)[0] == chars@);
            }
            if !(chars.len() >= 2 && chars[chars.len() - 1] == ']') {
                return None;
            }
            let pattern = from_chars(&chars, 1, chars.len() - 1);
            let settings = match parse_key_value(&ls, i, end) {
                Some(pairs) => EditorConfigSettings::of(&pairs),
                None => {
                    return None;
                },
            };
            let ghost before = blocks_of(blocks@);
            let ghost block = (pattern@, settings);
            blocks.push((pattern, settings));
            end = i;
            proof {
                assert(blocks_of(blocks@) =~= before.push(block));
                if let Some(above) = config_of(all.take(i as int)) {
                    assert(before + (seq![block] + above.blocks) =~= before.push(block)
                        + above.blocks);
                }
            }
        }
    }
    let top = match parse_key_value(&ls, 0, end) {
        Some(pairs) => pairs,
        None => {
            proof {
                assert(all.take(end as int) =~= all.subrange(0, end as int));
                lemma_last_header_is(all.take(end as int), -1);
            }
            return None;
        },
    };
    let root = match find(&top, "root") {
        Some(value) => str_eq(value.as_str(), "true"),
        None => false,
    };
    proof {
        let upto = all.take(end as int);
        assert(upto =~= all.subrange(0, end as int));
        lemma_last_header_is(upto, -1);
        let above = config_of(upto)->0;
        assert(blocks_of(blocks@) + above.blocks =~= blocks_of(blocks@));
    }
    Some(EditorConfig { root, blocks })
}

/// The sections of `second` and then those of `first`.
pub open spec fn combine_spec(first: Config, second: Config) -> Config {
    Config { root: second.root, blocks: second.blocks + first.blocks }
}

/// The settings that the sections `blocks` give together: each overlays
/// those before it.
pub open spec fn resolved(blocks: Seq<(Seq<char>, EditorConfigSettings)>) -> EditorConfigSettings
    decreases blocks.len(),
{
    if blocks.len() == 0 {
        EditorConfigSettings::unset()
    } else {
        EditorConfigSettings::combine_spec(resolved(blocks.drop_last()), blocks.last().1)
    }
}

/// The configurations of a chain of directories, each combined with all
/// that stand before it in `found`, and the first one with `previous`: the
/// first `n` of them.
pub open spec fn cascaded(previous: Config, found: Seq<Config>, n: int) -> Seq<Config>
    decreases n,
{
    if n <= 0 {
        Seq::empty()
    } else {
        let before = cascaded(previous, found, n - 1);
        before.push(
            combine_spec(
                if n == 1 {
                    previous
                } else {
                    before.last()
                },
                found[n - 1],
            ),
        )
    }
}

/// The models of configurations.
pub open spec fn configs_of(configs: Seq<EditorConfig>) -> Seq<Config> {
    Seq::new(configs.len(), |i: int| configs[i]@)
}

impl EditorConfig {
    /// The configuration of a directory, `second`, combined with that of
    /// the directories above it, `first`.
    pub fn combine(first: &EditorConfig, second: &EditorConfig) -> (out: EditorConfig)
        ensures
            out@ == combine_spec(first@, second@),
    {
        let mut blocks: Vec<(String, EditorConfigSettings)> = Vec::new();
        let ghost front = blocks_of(second.blocks@);
        let ghost back = blocks_of(first.blocks@);
        let mut i: usize = 0;
        while i < second.blocks.len()
            invariant
                i <= second.blocks@.len(),
                front == blocks_of(second.blocks@),
                blocks_of(blocks@) == front.take(i as int),
            decreases second.blocks@.len() - i,
        {
            let ghost before = blocks_of(blocks@);
            blocks.push((second.blocks[i].0.clone(), second.blocks[i].1));
            proof {
                assert(blocks_of(blocks@) =~= before.push(front[i as int]));
                assert(front.take(i + 1) =~= front.take(i as int).push(front[i as int]));
            }
            i = i + 1;
        }
        let mut j: usize = 0;
        proof {
            assert(front.take(i as int) =~= front);
            assert(blocks_of(blocks@) =~= front + back.take(0));
        }
        while j < first.blocks.len()
            invariant
                j <= first.blocks@.len(),
                back == blocks_of(first.blocks@),
                blocks_of(blocks@) == front + back.take(j as int),
            decreases first.blocks@.len() - j,
        {
            let ghost before = blocks_of(blocks@);
            blocks.push((first.blocks[j].0.clone(), first.blocks[j].1));
            proof {
                assert(blocks_of(blocks@) =~= before.push(back[j as int]));
                assert(front + back.take(j + 1) =~= (front + back.take(j as int)).push(
                    back[j as int],
                ));
            }
            j = j + 1;
        }
        proof {
            assert(back.take(j as int) =~= back);
        }
        EditorConfig { root: second.root, blocks }
    }

    /// The settings that this configuration gives: those of all its
    /// sections, each overlaying those before it.
    pub fn resolve(&self) -> (out: EditorConfigSettings)
        ensures
            out == resolved(self@.blocks),
    {
        let ghost all = self@.blocks;
        let mut out = EditorConfigSettings::default();
        let mut i: usize = 0;
        proof {
            assert(all.take(0) =~= Seq::empty());
        }
        while i < self.blocks.len()
            invariant
                i <= self.blocks@.len(),
                all == blocks_of(self.blocks@),
                out == resolved(all.take(i as int)),
            decreases self.blocks@.len() - i,
        {
            proof {
                assert(all.take(i + 1).drop_last() =~= all.take(i as int));
                assert(all.take(i + 1).last() == all[i as int]);
            }
            out = EditorConfigSettings::combine(&out, &self.blocks[i].1);
            i = i + 1;
        }
        proof {
            assert(all.take(i as int) =~= all);
        }
        out
    }
}

/// Whether the walk up the directories ends at a directory: its
/// configuration was known already, or the file that was read there says
/// that it is the root.
pub open spec fn walk_ends(cached: bool, found: Option<EditorConfig>) -> bool {
    cached || (found matches Some(config) && config.root)
}

/// Whether the walk up the directories ends at a directory. `cached` says
/// that its configuration was known already; `found` is what its file
/// holds, if it has one.
pub fn stops_walk(cached: bool, found: &Option<EditorConfig>) -> (r: bool)
    ensures
        r == walk_ends(cached, *found),
{
    if cached {
        true
    } else {
        match found {
            Some(config) => config.root,
            None => false,
        }
    }
}

/// The configuration that a cascade starts from: the one that was known
/// already, or else the one that sets nothing.
pub open spec fn cascade_start(cached: Option<&EditorConfig>) -> Config {
    match cached {
        Some(config) => config@,
        None => Config { root: false, blocks: Seq::empty() },
    }
}

/// The models of what was found in a chain of directories, taken from the
/// far end: the directory furthest up first.
pub open spec fn found_from_far_end(found: Seq<Option<EditorConfig>>) -> Seq<Config> {
    Seq::new(found.len(), |i: int| found[found.len() - 1 - i]->0@)
}

/// The configurations of a chain of directories, the one furthest up
/// first. `found` holds what each directory's file holds, the nearest
/// directory first; `cached` is the configuration of what lies above the
/// chain, where it is known.
///
/// There are none where one of the directories had no file.
pub fn cascade_found(cached: Option<&EditorConfig>, found: &Vec<Option<EditorConfig>>) -> (out:
    Option<Vec<EditorConfig>>)
    ensures
        out is None <==> exists|i: int| 0 <= i < found@.len() && (#[trigger] found@[i]) is None,
        out matches Some(configs) ==> configs_of(configs@) == cascaded(
            cascade_start(cached),
            found_from_far_end(found@),
            found@.len() as int,
        ),
{
    let empty = EditorConfig::default();
    let mut out: Vec<EditorConfig> = Vec::new();
    let ghost start = cascade_start(cached);
    let ghost all = found_from_far_end(found@);
    let n = found.len();
    let mut i: usize = 0;
    proof {
        assert(configs_of(out@) =~= cascaded(start, all, 0));
    }
    while i < n
        invariant
            i <= n,
            n == found@.len(),
            start == cascade_start(cached),
            empty@ == (Config { root: false, blocks: Seq::empty() }),
            all == found_from_far_end(found@),
            out@.len() == i,
            forall|j: int| n - i <= j < n ==> (#[trigger] found@[j]) is Some,
            configs_of(out@) == cascaded(start, all, i as int),
        decreases n - i,
    {
        let ghost before = configs_of(out@);
        let at = n - 1 - i;
        let combined = match &found[at] {
            None => {
                return None;
            },
            Some(current) => {
                if i == 0 {
                    match cached {
                        Some(previous) => EditorConfig::combine(previous, current),
                        None => EditorConfig::combine(&empty, current),
                    }
                } else {
                    EditorConfig::combine(&out[i - 1], current)
                }
            },
        };
        proof {
            assert(all[i as int] == found@[at as int]->0@);
            if i > 0 {
                assert(before.last() == out@[i - 1]@);
            }
        }
        out.push(combined);
        proof {
            assert(configs_of(out@) =~= before.push(combined@));
        }
        i = i + 1;
    }
    Some(out)
}

} // verus!
