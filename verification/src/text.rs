//! Text as sequences of characters: lines, joining, indentation and widths.
//!
//! Every function here is stated over `Seq<char>`, the view of `str` and
//! `String`. A line is what `str::lines` yields: the text between line feeds,
//! without the line feed and without a carriage return that stands directly
//! before it; a last line that no line feed ends is kept as it is.

use vstd::prelude::*;
use vstd::string::*;
use vstd::utf8::*;

verus! {

/// The position of the first line feed in `s`, or `s.len()` when there is none.
pub open spec fn first_newline(s: Seq<char>) -> int
    decreases s.len(),
{
    if s.len() == 0 || s[0] == '\n' {
        0
    } else {
        1 + first_newline(s.drop_first())
    }
}

/// `l` without a final carriage return.
pub open spec fn strip_cr(l: Seq<char>) -> Seq<char> {
    if l.len() > 0 && l.last() == '\r' {
        l.drop_last()
    } else {
        l
    }
}

/// The lines of `s`.
pub open spec fn lines(s: Seq<char>) -> Seq<Seq<char>>
    decreases s.len(),
{
    if s.len() == 0 {
        Seq::empty()
    } else {
        let k = first_newline(s);
        if 0 <= k < s.len() {
            seq![strip_cr(s.take(k))] + lines(s.skip(k + 1))
        } else {
            seq![s]
        }
    }
}

/// The items of `parts` with `sep` between each two neighbours.
pub open spec fn join(parts: Seq<Seq<char>>, sep: Seq<char>) -> Seq<char>
    decreases parts.len(),
{
    if parts.len() == 0 {
        Seq::empty()
    } else if parts.len() == 1 {
        parts[0]
    } else {
        join(parts.drop_last(), sep) + sep + parts.last()
    }
}

/// `n` spaces.
pub open spec fn spaces(n: nat) -> Seq<char> {
    Seq::new(n, |i: int| ' ')
}

/// Each of `ls` with `unit` in front.
pub open spec fn prefix_each(ls: Seq<Seq<char>>, unit: Seq<char>) -> Seq<Seq<char>> {
    Seq::new(ls.len(), |i: int| unit + ls[i])
}

/// `s` with `unit` in front of each of its lines, the lines joined by single
/// line feeds.
pub open spec fn indent_text(s: Seq<char>, unit: Seq<char>) -> Seq<char> {
    join(prefix_each(lines(s), unit), seq!['\n'])
}

/// The width of a line: the length of its UTF-8 encoding.
pub open spec fn width(l: Seq<char>) -> nat {
    encode_utf8(l).len()
}

/// Whether some line of `s` is wider than `max`.
pub open spec fn exceeds(s: Seq<char>, max: nat) -> bool {
    exists|i: int| 0 <= i < lines(s).len() && width(#[trigger] lines(s)[i]) > max
}

/// The views of a vector of strings.
pub open spec fn views(v: Seq<String>) -> Seq<Seq<char>> {
    Seq::new(v.len(), |i: int| v[i]@)
}

/// `first_newline` is a position of `s` or its length, no line feed stands
/// before it, and one stands at it when it is a position.
pub proof fn lemma_first_newline(s: Seq<char>)
    ensures
        0 <= first_newline(s) <= s.len(),
        forall|j: int| 0 <= j < first_newline(s) ==> s[j] != '\n',
        first_newline(s) < s.len() ==> s[first_newline(s)] == '\n',
    decreases s.len(),
{
    if s.len() == 0 || s[0] == '\n' {
    } else {
        let t = s.drop_first();
        lemma_first_newline(t);
        assert forall|j: int| 0 <= j < first_newline(s) implies s[j] != '\n' by {
            if j > 0 {
                assert(s[j] == t[j - 1]);
            }
        }
        if first_newline(s) < s.len() {
            assert(s[first_newline(s)] == t[first_newline(t)]);
        }
    }
}

/// A position with no line feed before it, and a line feed at it or the end
/// of `s` there, is `first_newline(s)`.
pub proof fn lemma_first_newline_is(s: Seq<char>, k: int)
    requires
        0 <= k <= s.len(),
        forall|j: int| 0 <= j < k ==> s[j] != '\n',
        k < s.len() ==> s[k] == '\n',
    ensures
        first_newline(s) == k,
{
    lemma_first_newline(s);
    let f = first_newline(s);
    if f < k {
        assert(s[f] == '\n');
    } else if k < f {
        assert(s[k] == '\n');
    }
}

/// Appends `c` to `s` by a call of `String::push`.
///
/// Verus takes the contract on trust: afterwards `s` holds what it held
/// before and, after that, `c`.
#[verifier::external_body]
pub(crate) fn push_char(s: &mut String, c: char)
    ensures
        final(s)@ == old(s)@.push(c),
{
    s.push(c);
}

/// The lines of `s`, each as a string of its own.
pub fn split_lines(s: &str) -> (out: Vec<String>)
    ensures
        views(out@) == lines(s@),
{
    let mut out: Vec<String> = Vec::new();
    let mut cur = String::new();
    let mut pending_cr = false;
    let ghost mut start: int = 0;
    proof {
        assert(s@.skip(0) =~= s@);
        assert(views(out@) =~= Seq::<Seq<char>>::empty());
    }
    for c in it: s.chars()
        invariant
            it.seq() == s@,
            0 <= start <= it.index(),
            lines(s@) == views(out@) + lines(s@.skip(start)),
            s@.subrange(start, it.index() as int) == cur@ + (if pending_cr {
                seq!['\r']
            } else {
                Seq::<char>::empty()
            }),
            forall|j: int| start <= j < it.index() ==> s@[j] != '\n',
            !pending_cr && cur@.len() > 0 ==> cur@.last() != '\r',
    {
        let ghost i = it.index() as int;
        let ghost rest = s@.skip(start);
        assert(s@[i] == c);
        if c == '\n' {
            proof {
                assert forall|j: int| 0 <= j < i - start implies rest[j] != '\n' by {
                    assert(rest[j] == s@[start + j]);
                }
                assert(rest[i - start] == '\n');
                lemma_first_newline_is(rest, i - start);
                assert(rest.take(i - start) =~= s@.subrange(start, i));
                assert(rest.skip(i - start + 1) =~= s@.skip(i + 1));
                let line = s@.subrange(start, i);
                if pending_cr {
                    assert(line.last() == '\r');
                    assert(line.drop_last() =~= cur@);
                } else {
                    assert(line =~= cur@);
                }
                assert(strip_cr(line) == cur@);
                assert(lines(rest) == seq![cur@] + lines(s@.skip(i + 1)));
            }
            let ghost before = out@;
            let ghost done = cur@;
            out.push(cur);
            cur = String::new();
            pending_cr = false;
            proof {
                start = i + 1;
                assert(s@.subrange(start, i + 1) =~= Seq::<char>::empty());
                assert(views(out@) =~= views(before) + seq![done]);
                assert(views(out@) + lines(s@.skip(start)) =~= views(before) + (seq![done]
                    + lines(s@.skip(start))));
            }
        } else {
            if pending_cr {
                push_char(&mut cur, '\r');
            }
            if c == '\r' {
                pending_cr = true;
            } else {
                pending_cr = false;
                push_char(&mut cur, c);
            }
            proof {
                assert(s@.subrange(start, i + 1) =~= s@.subrange(start, i).push(c));
            }
        }
    }
    if pending_cr {
        push_char(&mut cur, '\r');
    }
    proof {
        let rest = s@.skip(start);
        assert(rest =~= s@.subrange(start, s@.len() as int));
        assert(rest =~= cur@);
        if rest.len() > 0 {
            assert forall|j: int| 0 <= j < rest.len() implies rest[j] != '\n' by {
                assert(rest[j] == s@[start + j]);
            }
            lemma_first_newline_is(rest, rest.len() as int);
        }
    }
    let ghost before = out@;
    if !cur.as_str().is_empty() {
        out.push(cur);
        proof {
            assert(views(out@) =~= views(before) + seq![s@.skip(start)]);
        }
    }
    out
}

/// The width of `s`.
pub fn byte_len(s: &str) -> (n: usize)
    ensures
        n == width(s@),
{
    s.as_bytes().len()
}

/// Whether `a` and `b` hold the same characters.
pub fn str_eq(a: &str, b: &str) -> (r: bool)
    ensures
        r == (a@ == b@),
{
    let x = a.as_bytes();
    let y = b.as_bytes();
    proof {
        encode_utf8_decode_utf8(a@);
        encode_utf8_decode_utf8(b@);
    }
    if x.len() != y.len() {
        return false;
    }
    let mut i: usize = 0;
    while i < x.len()
        invariant
            i <= x@.len(),
            x@.len() == y@.len(),
            x@ == encode_utf8(a@),
            y@ == encode_utf8(b@),
            forall|j: int| 0 <= j < i ==> x@[j] == y@[j],
        decreases x@.len() - i,
    {
        if x[i] != y[i] {
            return false;
        }
        i = i + 1;
    }
    proof {
        assert(x@ =~= y@);
    }
    true
}

/// Whether `s` ends with `suffix`.
pub fn ends_with(s: &str, suffix: &str) -> (r: bool)
    ensures
        r == suffix@.is_suffix_of(s@),
{
    let n = s.unicode_len();
    let m = suffix.unicode_len();
    if m > n {
        return false;
    }
    str_eq(s.substring_char(n - m, n), suffix)
}

/// Whether some line of `s` is wider than `max`.
pub fn exceeds_width(s: &str, max: usize) -> (r: bool)
    ensures
        r == exceeds(s@, max as nat),
{
    let ls = split_lines(s);
    let mut i: usize = 0;
    while i < ls.len()
        invariant
            i <= ls@.len(),
            views(ls@) == lines(s@),
            forall|j: int| 0 <= j < i ==> width(#[trigger] lines(s@)[j]) <= max,
        decreases ls@.len() - i,
    {
        assert(views(ls@)[i as int] == ls@[i as int]@);
        if byte_len(ls[i].as_str()) > max {
            return true;
        }
        i = i + 1;
    }
    false
}

/// `n` spaces, the unit of indentation.
pub fn indent_unit(n: usize) -> (unit: String)
    ensures
        unit@ == spaces(n as nat),
{
    let mut unit = String::new();
    let mut i: usize = 0;
    while i < n
        invariant
            i <= n,
            unit@ == spaces(i as nat),
        decreases n - i,
    {
        push_char(&mut unit, ' ');
        i = i + 1;
        proof {
            assert(unit@ =~= spaces(i as nat));
        }
    }
    unit
}

/// `content` with `unit` in front of each of its lines.
pub fn indent(content: &str, unit: &str) -> (out: String)
    ensures
        out@ == indent_text(content@, unit@),
{
    let ls = split_lines(content);
    let mut out = String::new();
    let ghost parts = prefix_each(lines(content@), unit@);
    let ghost sep = seq!['\n'];
    let mut i: usize = 0;
    while i < ls.len()
        invariant
            i <= ls@.len(),
            views(ls@) == lines(content@),
            parts == prefix_each(lines(content@), unit@),
            sep == seq!['\n'],
            out@ == join(parts.take(i as int), sep),
        decreases ls@.len() - i,
    {
        let ghost before = out@;
        if i > 0 {
            push_char(&mut out, '\n');
        }
        out.append(unit);
        out.append(ls[i].as_str());
        proof {
            let done = parts.take(i + 1);
            assert(views(ls@)[i as int] == ls@[i as int]@);
            assert(done.drop_last() =~= parts.take(i as int));
            assert(done.last() == unit@ + ls@[i as int]@);
            if i > 0 {
                assert(out@ =~= before + sep + (unit@ + ls@[i as int]@));
            } else {
                assert(out@ =~= unit@ + ls@[i as int]@);
            }
        }
        i = i + 1;
    }
    proof {
        assert(parts.take(i as int) =~= parts);
    }
    out
}

/// Whether `c` is white space, as `char::is_whitespace` has it: the code
/// points that Unicode marks `White_Space`.
pub open spec fn is_whitespace(c: char) -> bool {
    let v = c as u32;
    ||| 0x09 <= v <= 0x0D
    ||| v == 0x20
    ||| v == 0x85
    ||| v == 0xA0
    ||| v == 0x1680
    ||| 0x2000 <= v <= 0x200A
    ||| v == 0x2028
    ||| v == 0x2029
    ||| v == 0x202F
    ||| v == 0x205F
    ||| v == 0x3000
}

/// Whether `c` is white space.
pub fn is_white_space(c: char) -> (r: bool)
    ensures
        r == is_whitespace(c),
{
    let v = c as u32;
    (0x09 <= v && v <= 0x0D) || v == 0x20 || v == 0x85 || v == 0xA0 || v == 0x1680 || (0x2000 <= v
        && v <= 0x200A) || v == 0x2028 || v == 0x2029 || v == 0x202F || v == 0x205F || v == 0x3000
}

/// Whether `s` holds white space only.
pub open spec fn all_whitespace(s: Seq<char>) -> bool {
    forall|i: int| 0 <= i < s.len() ==> is_whitespace(#[trigger] s[i])
}

/// The characters of `s` that are not white space, in order.
pub open spec fn visible(s: Seq<char>) -> Seq<char>
    decreases s.len(),
{
    if s.len() == 0 {
        Seq::empty()
    } else if is_whitespace(s.last()) {
        visible(s.drop_last())
    } else {
        visible(s.drop_last()).push(s.last())
    }
}

/// The visible characters of a concatenation are those of its parts.
pub proof fn lemma_visible_add(a: Seq<char>, b: Seq<char>)
    ensures
        visible(a + b) == visible(a) + visible(b),
    decreases b.len(),
{
    if b.len() == 0 {
        assert(a + b =~= a);
        assert(visible(a) + visible(b) =~= visible(a));
    } else {
        lemma_visible_add(a, b.drop_last());
        assert((a + b).drop_last() =~= a + b.drop_last());
        assert((a + b).last() == b.last());
        if !is_whitespace(b.last()) {
            assert(visible(a + b) =~= visible(a) + visible(b));
        }
    }
}

/// White space has no visible characters.
pub proof fn lemma_visible_whitespace(s: Seq<char>)
    requires
        all_whitespace(s),
    ensures
        visible(s) == Seq::<char>::empty(),
    decreases s.len(),
{
    if s.len() > 0 {
        assert(is_whitespace(s[s.len() - 1]));
        lemma_visible_whitespace(s.drop_last());
    }
}

/// Joining with white space between the parts shows what the parts show.
pub proof fn lemma_visible_join(ms: Seq<Seq<char>>, ls: Seq<Seq<char>>, sep: Seq<char>)
    requires
        ms.len() == ls.len(),
        forall|i: int| 0 <= i < ls.len() ==> visible(#[trigger] ms[i]) == visible(ls[i]),
        all_whitespace(sep),
    ensures
        visible(join(ms, sep)) == visible(join(ls, Seq::empty())),
    decreases ls.len(),
{
    let none = Seq::<char>::empty();
    if ls.len() == 0 {
    } else if ls.len() == 1 {
        assert(visible(ms[0]) == visible(ls[0]));
    } else {
        lemma_visible_join(ms.drop_last(), ls.drop_last(), sep);
        lemma_visible_whitespace(sep);
        lemma_visible_add(join(ms.drop_last(), sep), sep);
        lemma_visible_add(join(ms.drop_last(), sep) + sep, ms.last());
        lemma_visible_add(join(ls.drop_last(), none), none);
        lemma_visible_add(join(ls.drop_last(), none) + none, ls.last());
        assert(visible(ms[ms.len() - 1]) == visible(ls[ls.len() - 1]));
        assert(visible(join(ms.drop_last(), sep)) + visible(sep) =~= visible(
            join(ms.drop_last(), sep),
        ));
    }
}

/// Joining with one more part in front.
pub proof fn lemma_join_front(first: Seq<char>, rest: Seq<Seq<char>>, sep: Seq<char>)
    ensures
        join(seq![first] + rest, sep) == if rest.len() == 0 {
            first
        } else {
            first + sep + join(rest, sep)
        },
    decreases rest.len(),
{
    let all = seq![first] + rest;
    if rest.len() == 0 {
        assert(all =~= seq![first]);
    } else {
        assert(all.drop_last() =~= seq![first] + rest.drop_last());
        assert(all.last() == rest.last());
        lemma_join_front(first, rest.drop_last(), sep);
        assert(join(all, sep) =~= first + sep + join(rest, sep));
    }
}

/// The lines of a text show what the text shows: splitting drops line feeds
/// and carriage returns only.
pub proof fn lemma_visible_lines(s: Seq<char>)
    ensures
        visible(join(lines(s), Seq::empty())) == visible(s),
    decreases s.len(),
{
    let none = Seq::<char>::empty();
    if s.len() == 0 {
    } else {
        let k = first_newline(s);
        lemma_first_newline(s);
        if 0 <= k < s.len() {
            let head = s.take(k);
            let tail = s.skip(k + 1);
            lemma_visible_lines(tail);
            lemma_join_front(strip_cr(head), lines(tail), none);
            assert(s =~= head + seq!['\n'] + tail);
            lemma_visible_add(head, seq!['\n']);
            lemma_visible_add(head + seq!['\n'], tail);
            assert(all_whitespace(seq!['\n']));
            lemma_visible_whitespace(seq!['\n']);
            assert(visible(strip_cr(head)) == visible(head));
            assert(visible(head) + visible(seq!['\n']) =~= visible(head));
            if lines(tail).len() == 0 {
                assert(tail.len() == 0);
                assert(visible(head) + visible(tail) =~= visible(head));
            } else {
                lemma_visible_add(strip_cr(head), none);
                lemma_visible_add(strip_cr(head) + none, join(lines(tail), none));
                assert(visible(strip_cr(head)) + visible(none) =~= visible(strip_cr(head)));
            }
        }
    }
}

/// Indenting by white space changes white space only.
pub proof fn lemma_visible_indent(s: Seq<char>, unit: Seq<char>)
    requires
        all_whitespace(unit),
    ensures
        visible(indent_text(s, unit)) == visible(s),
{
    let ls = lines(s);
    let ms = prefix_each(ls, unit);
    assert forall|i: int| 0 <= i < ls.len() implies visible(#[trigger] ms[i]) == visible(
        ls[i],
    ) by {
        lemma_visible_add(unit, ls[i]);
        lemma_visible_whitespace(unit);
        assert(visible(unit) + visible(ls[i]) =~= visible(ls[i]));
    }
    assert(all_whitespace(seq!['\n']));
    lemma_visible_join(ms, ls, seq!['\n']);
    lemma_visible_lines(s);
}

/// Whether no line feed stands in `l`.
pub open spec fn one_line(l: Seq<char>) -> bool {
    forall|j: int| 0 <= j < l.len() ==> l[j] != '\n'
}

/// The `i`-th line of a text whose lines were `ls` before they were joined
/// by line feeds: a carriage return at the end of a line that a line feed
/// now follows is no longer part of it.
pub open spec fn rejoined_line(ls: Seq<Seq<char>>, i: int) -> Seq<char> {
    if i + 1 < ls.len() {
        strip_cr(ls[i])
    } else {
        ls[i]
    }
}

/// No line holds a line feed.
pub proof fn lemma_lines_are_lines(s: Seq<char>)
    ensures
        forall|i: int| 0 <= i < lines(s).len() ==> one_line(#[trigger] lines(s)[i]),
    decreases s.len(),
{
    if s.len() > 0 {
        let k = first_newline(s);
        lemma_first_newline(s);
        if 0 <= k < s.len() {
            let head = strip_cr(s.take(k));
            let tail = lines(s.skip(k + 1));
            lemma_lines_are_lines(s.skip(k + 1));
            assert(one_line(head)) by {
                assert forall|j: int| 0 <= j < head.len() implies head[j] != '\n' by {
                    assert(head[j] == s[j]);
                }
            }
            assert forall|i: int| 0 <= i < lines(s).len() implies one_line(
                #[trigger] lines(s)[i],
            ) by {
                if i > 0 {
                    assert(lines(s)[i] == tail[i - 1]);
                }
            }
        }
    }
}

/// Splitting what was joined by line feeds gives the parts back, where each
/// part is one line and the last one is not empty.
pub proof fn lemma_lines_of_join(ms: Seq<Seq<char>>)
    requires
        ms.len() >= 1,
        forall|i: int| 0 <= i < ms.len() ==> one_line(#[trigger] ms[i]),
        ms.last().len() > 0,
    ensures
        lines(join(ms, seq!['\n'])).len() == ms.len(),
        forall|i: int|
            0 <= i < ms.len() ==> #[trigger] lines(join(ms, seq!['\n']))[i] == rejoined_line(
                ms,
                i,
            ),
    decreases ms.len(),
{
    let sep = seq!['\n'];
    let first = ms[0];
    let rest = ms.drop_first();
    assert(ms =~= seq![first] + rest);
    lemma_join_front(first, rest, sep);
    assert(one_line(first));
    if rest.len() == 0 {
        lemma_first_newline_is(first, first.len() as int);
    } else {
        let tail = join(rest, sep);
        let all = first + sep + tail;
        assert forall|i: int| 0 <= i < rest.len() implies one_line(#[trigger] rest[i]) by {
            assert(rest[i] == ms[i + 1]);
        }
        assert(rest.last() == ms.last());
        lemma_lines_of_join(rest);
        assert(all[first.len() as int] == '\n');
        assert forall|j: int| 0 <= j < first.len() implies all[j] != '\n' by {
            assert(all[j] == first[j]);
        }
        lemma_first_newline_is(all, first.len() as int);
        assert(all.take(first.len() as int) =~= first);
        assert(all.skip(first.len() as int + 1) =~= tail);
        assert forall|i: int| 0 <= i < ms.len() implies #[trigger] lines(all)[i] == rejoined_line(
            ms,
            i,
        ) by {
            if i > 0 {
                assert(lines(all)[i] == lines(tail)[i - 1]);
                assert(rejoined_line(rest, i - 1) == rejoined_line(ms, i));
            }
        }
    }
}

/// Indenting by `n` spaces, `n` not zero, keeps the number of lines and puts
/// exactly `n` spaces in front of each line.
pub proof fn lemma_indent_lines(s: Seq<char>, n: nat)
    requires
        n >= 1,
    ensures
        lines(indent_text(s, spaces(n))).len() == lines(s).len(),
        forall|i: int|
            0 <= i < lines(s).len() ==> #[trigger] lines(indent_text(s, spaces(n)))[i] == spaces(n)
                + rejoined_line(lines(s), i),
{
    let unit = spaces(n);
    let ls = lines(s);
    let ms = prefix_each(ls, unit);
    if ls.len() > 0 {
        lemma_lines_are_lines(s);
        assert forall|i: int| 0 <= i < ms.len() implies one_line(#[trigger] ms[i]) by {
            assert(one_line(ls[i]));
            assert forall|j: int| 0 <= j < ms[i].len() implies ms[i][j] != '\n' by {
                if j >= n {
                    assert(ms[i][j] == ls[i][j - n]);
                }
            }
        }
        lemma_lines_of_join(ms);
        assert forall|i: int| 0 <= i < ls.len() implies #[trigger] lines(
            indent_text(s, unit),
        )[i] == unit + rejoined_line(ls, i) by {
            if i + 1 < ls.len() {
                let l = ls[i];
                if l.len() > 0 && l.last() == '\r' {
                    assert((unit + l).drop_last() =~= unit + l.drop_last());
                } else if l.len() == 0 {
                    assert(unit + l =~= unit);
                    assert(unit.last() == ' ');
                }
            }
        }
    }
}

/// `s` without the line feeds at its end.
pub open spec fn trim_line_feeds(s: Seq<char>) -> Seq<char>
    decreases s.len(),
{
    if s.len() > 0 && s.last() == '\n' {
        trim_line_feeds(s.drop_last())
    } else {
        s
    }
}

/// Whether `s` ends in a line feed and not in two.
pub open spec fn ends_in_one_line_feed(s: Seq<char>) -> bool {
    &&& s.len() >= 1
    &&& s[s.len() - 1] == '\n'
    &&& s.len() >= 2 ==> s[s.len() - 2] != '\n'
}

/// Where only line feeds stand from `k` on in `s`, and none directly before
/// `k`, the first `k` characters are `s` without the line feeds at its end.
pub proof fn lemma_trim_line_feeds_is(s: Seq<char>, k: int)
    requires
        0 <= k <= s.len(),
        k > 0 ==> s[k - 1] != '\n',
        forall|j: int| k <= j < s.len() ==> s[j] == '\n',
    ensures
        trim_line_feeds(s) == s.take(k),
    decreases s.len() - k,
{
    if k < s.len() {
        let front = s.drop_last();
        assert(s[s.len() - 1] == '\n');
        assert forall|j: int| k <= j < front.len() implies front[j] == '\n' by {
            assert(front[j] == s[j]);
        }
        if k > 0 {
            assert(front[k - 1] == s[k - 1]);
        }
        lemma_trim_line_feeds_is(front, k);
        assert(front.take(k) =~= s.take(k));
    } else {
        assert(s.take(k) =~= s);
    }
}

/// Taking the line feeds from the end takes white space only, and what is
/// left ends in no line feed; with one line feed added it ends in one and
/// not in two.
pub proof fn lemma_trim_line_feeds(s: Seq<char>)
    ensures
        visible(trim_line_feeds(s)) == visible(s),
        trim_line_feeds(s).len() > 0 ==> trim_line_feeds(s).last() != '\n',
        ends_in_one_line_feed(trim_line_feeds(s) + seq!['\n']),
    decreases s.len(),
{
    let t = trim_line_feeds(s);
    if s.len() > 0 && s.last() == '\n' {
        lemma_trim_line_feeds(s.drop_last());
    }
    let whole = t + seq!['\n'];
    assert(whole[whole.len() - 1] == '\n');
    if whole.len() >= 2 {
        assert(whole[whole.len() - 2] == t.last());
    }
}

/// `s` without the line feeds at its end.
pub fn trim_end_line_feeds(s: &str) -> (out: &str)
    ensures
        out@ == trim_line_feeds(s@),
{
    let n = s.unicode_len();
    let mut keep: usize = 0;
    let mut i: usize = 0;
    for c in it: s.chars()
        invariant
            it.seq() == s@,
            n == s@.len(),
            i == it.index(),
            keep <= i <= n,
            keep > 0 ==> s@[keep - 1] != '\n',
            forall|j: int| keep <= j < i ==> s@[j] == '\n',
    {
        assert(s@[i as int] == c);
        i = i + 1;
        if c != '\n' {
            keep = i;
        }
    }
    proof {
        lemma_trim_line_feeds_is(s@, keep as int);
        assert(s@.take(keep as int) =~= s@.subrange(0, keep as int));
    }
    s.substring_char(0, keep)
}

/// Whether no carriage return stands in `l`.
pub open spec fn no_carriage_return(l: Seq<char>) -> bool {
    forall|j: int| 0 <= j < l.len() ==> l[j] != '\r'
}

/// Whether `ls` is one line or more, each without line feed and carriage
/// return.
pub open spec fn plain_lines(ls: Seq<Seq<char>>) -> bool {
    &&& ls.len() >= 1
    &&& forall|i: int|
        0 <= i < ls.len() ==> one_line(#[trigger] ls[i]) && no_carriage_return(ls[i])
}

/// The lines of a text that follows a line feed are lines of the whole: the
/// lines of two texts, the first of which is empty or ends in a line feed,
/// are the lines of the first and then the lines of the second.
pub proof fn lemma_lines_after_line_feed(u: Seq<char>, v: Seq<char>)
    requires
        u.len() == 0 || u.last() == '\n',
    ensures
        lines(u + v) == lines(u) + lines(v),
    decreases u.len(),
{
    if u.len() == 0 {
        assert(u + v =~= v);
        assert(lines(u) + lines(v) =~= lines(v));
    } else {
        let k = first_newline(u);
        lemma_first_newline(u);
        assert(k < u.len()) by {
            if k >= u.len() {
                assert(u[u.len() - 1] != '\n');
            }
        }
        let all = u + v;
        assert forall|j: int| 0 <= j < k implies all[j] != '\n' by {
            assert(all[j] == u[j]);
        }
        assert(all[k] == u[k]);
        lemma_first_newline_is(all, k);
        assert(all.take(k) =~= u.take(k));
        assert(all.skip(k + 1) =~= u.skip(k + 1) + v);
        let rest = u.skip(k + 1);
        if rest.len() > 0 {
            assert(rest.last() == u.last());
        }
        lemma_lines_after_line_feed(rest, v);
        assert(lines(all) =~= lines(u) + lines(v));
    }
}

/// Lines that are joined by line feeds and ended by one are the lines of
/// what they make.
pub proof fn lemma_lines_of_ended_join(ls: Seq<Seq<char>>)
    requires
        plain_lines(ls),
    ensures
        lines(join(ls, seq!['\n']) + seq!['\n']) == ls,
    decreases ls.len(),
{
    let sep = seq!['\n'];
    let first = ls[0];
    let rest = ls.drop_first();
    assert(ls =~= seq![first] + rest);
    lemma_join_front(first, rest, sep);
    assert(one_line(first) && no_carriage_return(first));
    let text = join(ls, sep) + sep;
    let tail = if rest.len() == 0 {
        Seq::<char>::empty()
    } else {
        join(rest, sep) + sep
    };
    assert(text =~= first + sep + tail);
    assert forall|j: int| 0 <= j < first.len() implies text[j] != '\n' by {
        assert(text[j] == first[j]);
    }
    assert(text[first.len() as int] == '\n');
    lemma_first_newline_is(text, first.len() as int);
    assert(text.take(first.len() as int) =~= first);
    assert(text.skip(first.len() as int + 1) =~= tail);
    assert(strip_cr(first) == first) by {
        if first.len() > 0 {
            assert(first[first.len() - 1] != '\r');
        }
    }
    if rest.len() > 0 {
        assert forall|i: int| 0 <= i < rest.len() implies one_line(#[trigger] rest[i])
            && no_carriage_return(rest[i]) by {
            assert(rest[i] == ls[i + 1]);
        }
        lemma_lines_of_ended_join(rest);
        assert(lines(tail) == rest);
    } else {
        assert(lines(tail) =~= rest);
    }
    assert(lines(text) == seq![strip_cr(text.take(first.len() as int))] + lines(
        text.skip(first.len() as int + 1),
    ));
    assert(lines(text) =~= ls);
}

/// Joining two runs of parts, neither of them empty.
pub proof fn lemma_join_runs(a: Seq<Seq<char>>, b: Seq<Seq<char>>, sep: Seq<char>)
    requires
        a.len() >= 1,
        b.len() >= 1,
    ensures
        join(a + b, sep) == join(a, sep) + sep + join(b, sep),
    decreases b.len(),
{
    let all = a + b;
    assert(all.drop_last() =~= a + b.drop_last());
    assert(all.last() == b.last());
    if b.len() == 1 {
        assert(a + b.drop_last() =~= a);
    } else {
        lemma_join_runs(a, b.drop_last(), sep);
        assert(join(all, sep) =~= join(a, sep) + sep + join(b, sep));
    }
}

/// Putting a unit in front of each part of two runs.
pub proof fn lemma_prefix_each_runs(a: Seq<Seq<char>>, b: Seq<Seq<char>>, unit: Seq<char>)
    ensures
        prefix_each(a + b, unit) == prefix_each(a, unit) + prefix_each(b, unit),
{
    assert(prefix_each(a + b, unit) =~= prefix_each(a, unit) + prefix_each(b, unit));
}

/// Spaces in front of lines keep them plain, and more spaces in front of
/// them add up.
pub proof fn lemma_prefix_each_spaces(ls: Seq<Seq<char>>, k: nat, n: nat)
    ensures
        prefix_each(prefix_each(ls, spaces(k)), spaces(n)) == prefix_each(ls, spaces(k + n)),
        plain_lines(ls) ==> plain_lines(prefix_each(ls, spaces(n))),
        forall|i: int|
            0 <= i < ls.len() && n >= 1 ==> (#[trigger] prefix_each(ls, spaces(n))[i]).len() >= 1,
{
    assert forall|i: int| 0 <= i < ls.len() implies #[trigger] prefix_each(
        prefix_each(ls, spaces(k)),
        spaces(n),
    )[i] == prefix_each(ls, spaces(k + n))[i] by {
        assert(spaces(n) + (spaces(k) + ls[i]) =~= spaces(k + n) + ls[i]);
    }
    assert(prefix_each(prefix_each(ls, spaces(k)), spaces(n)) =~= prefix_each(ls, spaces(k + n)));
    if plain_lines(ls) {
        let ps = prefix_each(ls, spaces(n));
        assert forall|i: int| 0 <= i < ps.len() implies one_line(#[trigger] ps[i])
            && no_carriage_return(ps[i]) by {
            assert(one_line(ls[i]) && no_carriage_return(ls[i]));
            assert forall|j: int| 0 <= j < ps[i].len() implies ps[i][j] != '\n' && ps[i][j]
                != '\r' by {
                if j >= n {
                    assert(ps[i][j] == ls[i][j - n]);
                }
            }
        }
    }
}

/// What is joined of parts the first of which is not empty is not empty.
pub proof fn lemma_join_not_empty(ls: Seq<Seq<char>>, sep: Seq<char>)
    requires
        ls.len() >= 1,
        ls[0].len() >= 1,
    ensures
        join(ls, sep).len() >= 1,
    decreases ls.len(),
{
    if ls.len() > 1 {
        lemma_join_not_empty(ls.drop_last(), sep);
    }
}

/// The lines of a text that is not empty are not none.
pub proof fn lemma_lines_not_none(s: Seq<char>)
    requires
        s.len() >= 1,
    ensures
        lines(s).len() >= 1,
{
}

/// Indenting keeps whole lines whole: where plain lines stand in a text
/// between two line feeds, with text after them, they stand in the indented
/// text between two line feeds too, each with the spaces in front of it,
/// and with text after them. What stands before and after them there is
/// what is returned.
pub proof fn lemma_indent_block(a: Seq<char>, ls: Seq<Seq<char>>, b: Seq<char>, n: nat) -> (around:
    (Seq<char>, Seq<char>))
    requires
        plain_lines(ls),
        b.len() >= 1,
        n >= 1,
    ensures
        indent_text(a + seq!['\n'] + join(ls, seq!['\n']) + seq!['\n'] + b, spaces(n))
            == around.0 + seq!['\n'] + join(prefix_each(ls, spaces(n)), seq!['\n']) + seq![
            '\n',
        ] + around.1,
        around.1.len() >= 1,
{
    let sep = seq!['\n'];
    let unit = spaces(n);
    let p = a + sep;
    let q = join(ls, sep) + sep;
    let x = a + sep + join(ls, sep) + sep + b;
    assert(x =~= p + (q + b));
    lemma_lines_after_line_feed(p, q + b);
    lemma_lines_after_line_feed(q, b);
    lemma_lines_of_ended_join(ls);
    lemma_lines_not_none(p);
    lemma_lines_not_none(b);
    let la = lines(p);
    let lb = lines(b);
    assert(lines(x) == la + (ls + lb));
    lemma_prefix_each_runs(la, ls + lb, unit);
    lemma_prefix_each_runs(ls, lb, unit);
    let pa = prefix_each(la, unit);
    let pl = prefix_each(ls, unit);
    let pb = prefix_each(lb, unit);
    lemma_join_runs(pa, pl + pb, sep);
    lemma_join_runs(pl, pb, sep);
    assert(pb[0].len() >= 1) by {
        assert(pb[0] == unit + lb[0]);
    }
    lemma_join_not_empty(pb, sep);
    assert(indent_text(x, unit) =~= join(pa, sep) + sep + join(pl, sep) + sep + join(pb, sep));
    (join(pa, sep), join(pb, sep))
}

/// The first line of a text starts with what the text starts with, as far
/// as that is plain. What follows it in that line is what is returned.
pub proof fn lemma_first_line(h: Seq<char>, b: Seq<char>) -> (c: Seq<char>)
    requires
        h.len() >= 1,
        one_line(h),
        no_carriage_return(h),
    ensures
        lines(h + b).len() >= 1,
        lines(h + b)[0] == h + c,
{
    let y = h + b;
    let k = first_newline(y);
    lemma_first_newline(y);
    assert(k >= h.len()) by {
        if k < h.len() {
            assert(y[k] == h[k]);
        }
    }
    if k < y.len() {
        let line = y.take(k);
        let more = b.take(k - h.len());
        assert(line =~= h + more);
        if line.len() > 0 && line.last() == '\r' {
            assert(more.len() > 0) by {
                if more.len() == 0 {
                    assert(line.last() == h[h.len() - 1]);
                }
            }
            assert(line.drop_last() =~= h + more.drop_last());
            more.drop_last()
        } else {
            more
        }
    } else {
        b
    }
}

/// Indenting keeps the start of a line at the start of a line: where a
/// plain text stands in a text directly after a line feed, it stands in the
/// indented text directly after a line feed too, with the spaces in front
/// of it. What stands before and after it there is what is returned.
pub proof fn lemma_indent_head(a: Seq<char>, h: Seq<char>, b: Seq<char>, n: nat) -> (around: (
    Seq<char>,
    Seq<char>,
))
    requires
        h.len() >= 1,
        one_line(h),
        no_carriage_return(h),
        n >= 1,
    ensures
        indent_text(a + seq!['\n'] + h + b, spaces(n)) == around.0 + seq!['\n'] + (spaces(n) + h)
            + around.1,
{
    let sep = seq!['\n'];
    let unit = spaces(n);
    let p = a + sep;
    let y = h + b;
    let x = a + sep + h + b;
    assert(x =~= p + y);
    lemma_lines_after_line_feed(p, y);
    lemma_lines_not_none(p);
    let c = lemma_first_line(h, b);
    let la = lines(p);
    let ly = lines(y);
    let rest = ly.drop_first();
    assert(ly =~= seq![h + c] + rest);
    lemma_prefix_each_runs(la, ly, unit);
    let pa = prefix_each(la, unit);
    let py = prefix_each(ly, unit);
    let first = unit + (h + c);
    let prest = prefix_each(rest, unit);
    assert(py =~= seq![first] + prest);
    lemma_join_runs(pa, py, sep);
    lemma_join_front(first, prest, sep);
    let tail = if prest.len() == 0 {
        c
    } else {
        c + sep + join(prest, sep)
    };
    assert(join(py, sep) =~= (unit + h) + tail);
    assert(indent_text(x, unit) =~= join(pa, sep) + sep + (unit + h) + tail);
    (join(pa, sep), tail)
}

/// Taking the line feeds from the end of a text and adding one keeps what
/// the text starts with, as far as that does not end in a line feed. What
/// follows it then is what is returned: it starts as what followed it
/// before, or is the one line feed.
pub proof fn lemma_trim_keeps(p: Seq<char>, b: Seq<char>) -> (z: Seq<char>)
    requires
        p.len() >= 1,
        p.last() != '\n',
    ensures
        trim_line_feeds(p + b) + seq!['\n'] == p + z,
        z.len() >= 1,
        b.len() >= 1 ==> z[0] == b[0],
        b.len() == 0 ==> z == seq!['\n'],
    decreases b.len(),
{
    let all = p + b;
    if b.len() == 0 {
        assert(all =~= p);
        seq!['\n']
    } else if b.last() == '\n' {
        assert(all.last() == '\n');
        assert(all.drop_last() =~= p + b.drop_last());
        let z = lemma_trim_keeps(p, b.drop_last());
        if b.len() >= 2 {
            assert(b.drop_last()[0] == b[0]);
        }
        z
    } else {
        assert(all.last() == b.last());
        assert(all + seq!['\n'] =~= p + (b + seq!['\n']));
        let z = b + seq!['\n'];
        assert(z[0] == b[0]);
        z
    }
}

/// No line of a text without carriage return holds one, and none holds a
/// line feed.
pub proof fn lemma_lines_are_plain(s: Seq<char>)
    requires
        s.len() >= 1,
        no_carriage_return(s),
    ensures
        plain_lines(lines(s)),
    decreases s.len(),
{
    lemma_lines_are_lines(s);
    let k = first_newline(s);
    lemma_first_newline(s);
    if 0 <= k < s.len() {
        let head = strip_cr(s.take(k));
        let rest = s.skip(k + 1);
        assert(no_carriage_return(head)) by {
            assert forall|j: int| 0 <= j < head.len() implies head[j] != '\r' by {
                assert(head[j] == s[j]);
            }
        }
        assert(no_carriage_return(rest)) by {
            assert forall|j: int| 0 <= j < rest.len() implies rest[j] != '\r' by {
                assert(rest[j] == s[k + 1 + j]);
            }
        }
        if rest.len() >= 1 {
            lemma_lines_are_plain(rest);
        }
        let tail = lines(rest);
        assert forall|i: int| 0 <= i < lines(s).len() implies no_carriage_return(
            #[trigger] lines(s)[i],
        ) by {
            if i > 0 {
                assert(lines(s)[i] == tail[i - 1]);
            }
        }
    }
}

/// What is joined ends as its last part ends, where that is not empty.
pub proof fn lemma_join_last(ls: Seq<Seq<char>>, sep: Seq<char>)
    requires
        ls.len() >= 1,
        ls.last().len() >= 1,
    ensures
        join(ls, sep).len() >= 1,
        join(ls, sep).last() == ls.last().last(),
{
}

/// `a`, a line feed, the lines `ls` joined by line feeds, a line feed, and
/// `z`.
pub open spec fn between_line_feeds(a: Seq<char>, ls: Seq<Seq<char>>, z: Seq<char>) -> Seq<char> {
    a + seq!['\n'] + join(ls, seq!['\n']) + seq!['\n'] + z
}

/// `a`, a line feed, `h`, and `z`.
pub open spec fn after_line_feed(a: Seq<char>, h: Seq<char>, z: Seq<char>) -> Seq<char> {
    a + seq!['\n'] + h + z
}

/// Whether the lines `ls` are lines of `w` that follow each other: they
/// stand in it between two line feeds.
pub open spec fn stands_as_lines(w: Seq<char>, ls: Seq<Seq<char>>) -> bool {
    exists|a: Seq<char>, z: Seq<char>| w == #[trigger] between_line_feeds(a, ls, z)
}

/// Whether a line of `w` starts with `h`: it stands in it directly after a
/// line feed.
pub open spec fn starts_a_line(w: Seq<char>, h: Seq<char>) -> bool {
    exists|a: Seq<char>, z: Seq<char>| w == #[trigger] after_line_feed(a, h, z)
}

} // verus!
