//! Characters and runs of characters: the vocabulary in which the file
//! format is stated.

use vstd::prelude::*;
use vstd::slice::slice_subrange;
use vstd::std_specs::iter::IteratorSpec;

verus! {

/// `String::push`: the string grows by the one character, at its end.
pub assume_specification[ String::push ](s: &mut String, c: char)
    ensures
        final(s)@ == old(s)@.push(c),
;

/// Whether `c` is white space: the characters that Unicode gives the
/// property `White_Space`.
pub open spec fn is_space(c: char) -> bool {
    let n = c as u32;
    ||| 0x09 <= n <= 0x0D
    ||| n == 0x20
    ||| n == 0x85
    ||| n == 0xA0
    ||| n == 0x1680
    ||| 0x2000 <= n <= 0x200A
    ||| n == 0x2028
    ||| n == 0x2029
    ||| n == 0x202F
    ||| n == 0x205F
    ||| n == 0x3000
}

/// Tells whether `c` is white space.
pub fn is_whitespace(c: char) -> (b: bool)
    ensures
        b == is_space(c),
{
    let n: u32 = c as u32;
    (0x09 <= n && n <= 0x0D) || n == 0x20 || n == 0x85 || n == 0xA0 || n == 0x1680 || (0x2000 <= n
        && n <= 0x200A) || n == 0x2028 || n == 0x2029 || n == 0x202F || n == 0x205F || n == 0x3000
}

/// A set of characters that a scan runs over.
#[derive(Clone, Copy, Debug)]
pub enum CharClass {
    /// White space.
    Space,
    /// Everything but white space.
    Solid,
    /// Everything but the one character.
    Except(char),
}

impl CharClass {
    /// Whether `c` belongs to the class.
    pub open spec fn has(self, c: char) -> bool {
        match self {
            CharClass::Space => is_space(c),
            CharClass::Solid => !is_space(c),
            CharClass::Except(stop) => c != stop,
        }
    }

    /// Tells whether `c` belongs to the class.
    pub fn holds(self, c: char) -> (b: bool)
        ensures
            b == self.has(c),
    {
        match self {
            CharClass::Space => is_whitespace(c),
            CharClass::Solid => !is_whitespace(c),
            CharClass::Except(stop) => c != stop,
        }
    }
}

/// The length of the longest prefix of `s` made of characters of `class`.
pub open spec fn prefix_len(s: Seq<char>, class: CharClass) -> nat
    decreases s.len(),
{
    if s.len() > 0 && class.has(s[0]) {
        1 + prefix_len(s.drop_first(), class)
    } else {
        0
    }
}

/// The length of the longest suffix of `s` made of characters of `class`.
pub open spec fn suffix_len(s: Seq<char>, class: CharClass) -> nat
    decreases s.len(),
{
    if s.len() > 0 && class.has(s.last()) {
        1 + suffix_len(s.drop_last(), class)
    } else {
        0
    }
}

/// Whether every character of `s` belongs to `class`.
pub open spec fn all_in(s: Seq<char>, class: CharClass) -> bool {
    forall|i: int| 0 <= i < s.len() ==> class.has(#[trigger] s[i])
}

/// `s` without the white space at its start.
pub open spec fn trim_start(s: Seq<char>) -> Seq<char> {
    s.skip(prefix_len(s, CharClass::Space) as int)
}

/// `s` without the white space at its end.
pub open spec fn trim_end(s: Seq<char>) -> Seq<char> {
    s.take(s.len() - suffix_len(s, CharClass::Space))
}

/// `s` without the white space at either end.
pub open spec fn trim(s: Seq<char>) -> Seq<char> {
    trim_end(trim_start(s))
}

/// The text in which each of `lines` is followed by a line feed.
pub open spec fn unlines(lines: Seq<Seq<char>>) -> Seq<char>
    decreases lines.len(),
{
    if lines.len() == 0 {
        Seq::empty()
    } else {
        unlines(lines.drop_last()) + lines.last() + seq!['\n']
    }
}

/// The lines of `text`: the stretches between its line feeds. A line feed
/// at the very end starts no further line.
pub open spec fn split_lines(text: Seq<char>) -> Seq<Seq<char>>
    decreases text.len(),
{
    if text.len() == 0 {
        Seq::empty()
    } else {
        let n = prefix_len(text, CharClass::Except('\n')) as int;
        if n < text.len() {
            seq![text.take(n)] + split_lines(text.skip(n + 1))
        } else {
            seq![text]
        }
    }
}

/// The lines of two lists, one list after the other, give the text of the
/// first followed by the text of the second.
pub proof fn lemma_unlines_concat(first: Seq<Seq<char>>, second: Seq<Seq<char>>)
    ensures
        unlines(first + second) == unlines(first) + unlines(second),
    decreases second.len(),
{
    if second.len() == 0 {
        assert(first + second == first);
    } else {
        lemma_unlines_concat(first, second.drop_last());
        assert((first + second).drop_last() == first + second.drop_last());
    }
}

/// A single line gives that line and a line feed.
pub proof fn lemma_unlines_one(line: Seq<char>)
    ensures
        unlines(seq![line]) == line + seq!['\n'],
{
    assert(seq![line].drop_last() == Seq::<Seq<char>>::empty());
    assert(unlines(Seq::<Seq<char>>::empty()) == Seq::<char>::empty());
}

/// A text that ends with a line feed, or holds nothing, can be split on
/// its own: the lines of what follows it come after its lines.
pub proof fn lemma_split_lines_concat(first: Seq<char>, second: Seq<char>)
    requires
        first.len() == 0 || first.last() == '\n',
    ensures
        split_lines(first + second) == split_lines(first) + split_lines(second),
    decreases first.len(),
{
    if first.len() == 0 {
        assert(first + second == second);
    } else {
        let feed = CharClass::Except('\n');
        let n = prefix_len(first, feed) as int;
        lemma_prefix_len(first, feed);
        if n == first.len() {
            assert(first.take(n)[n - 1] == first.last());
        }
        let whole = first + second;
        assert forall|i: int| 0 <= i < n implies feed.has(#[trigger] whole[i]) by {
            assert(whole[i] == first.take(n)[i]);
        }
        lemma_prefix_len_is(whole, feed, n);
        let rest = first.skip(n + 1);
        if rest.len() > 0 {
            assert(rest.last() == first.last());
        }
        lemma_split_lines_concat(rest, second);
        assert(whole.take(n) == first.take(n));
        assert(whole.skip(n + 1) == rest + second);
    }
}

/// A line without a line feed, followed by one, is a text of that one line.
pub proof fn lemma_split_lines_one(line: Seq<char>)
    requires
        all_in(line, CharClass::Except('\n')),
    ensures
        split_lines(line + seq!['\n']) == seq![line],
{
    let text = line + seq!['\n'];
    let n = line.len() as int;
    assert forall|i: int| 0 <= i < n implies CharClass::Except('\n').has(#[trigger] text[i]) by {
        assert(text[i] == line[i]);
    }
    lemma_prefix_len_is(text, CharClass::Except('\n'), n);
    assert(text.take(n) == line);
    assert(text.skip(n + 1) == Seq::<char>::empty());
    assert(split_lines(Seq::<char>::empty()) == Seq::<Seq<char>>::empty());
}

/// Splitting undoes joining: the text of lines that hold no line feed has
/// those lines.
pub proof fn lemma_split_unlines(lines: Seq<Seq<char>>)
    requires
        forall|i: int| 0 <= i < lines.len() ==> all_in(#[trigger] lines[i], CharClass::Except('\n')),
    ensures
        split_lines(unlines(lines)) == lines,
    decreases lines.len(),
{
    if lines.len() > 0 {
        let front = lines.drop_last();
        lemma_split_unlines(front);
        lemma_unlines_ends(front);
        lemma_split_lines_concat(unlines(front), lines.last() + seq!['\n']);
        lemma_split_lines_one(lines.last());
        assert(unlines(lines) == unlines(front) + (lines.last() + seq!['\n']));
        assert(front + seq![lines.last()] == lines);
    }
}

/// The text of lines holds nothing, or ends with a line feed.
pub proof fn lemma_unlines_ends(lines: Seq<Seq<char>>)
    ensures
        unlines(lines).len() == 0 || unlines(lines).last() == '\n',
{
}

/// No line of a text holds a line feed.
pub proof fn lemma_split_lines_no_feed(text: Seq<char>)
    ensures
        forall|i: int|
            0 <= i < split_lines(text).len() ==> all_in(
                #[trigger] split_lines(text)[i],
                CharClass::Except('\n'),
            ),
    decreases text.len(),
{
    if text.len() > 0 {
        let feed = CharClass::Except('\n');
        let n = prefix_len(text, feed) as int;
        lemma_prefix_len(text, feed);
        if n < text.len() {
            lemma_split_lines_no_feed(text.skip(n + 1));
            let rest = split_lines(text.skip(n + 1));
            assert forall|i: int| 0 <= i < split_lines(text).len() implies all_in(
                #[trigger] split_lines(text)[i],
                feed,
            ) by {
                if i > 0 {
                    assert(split_lines(text)[i] == rest[i - 1]);
                }
            }
        } else {
            assert(text.take(n) == text);
        }
    }
}

/// A prefix run ends inside `s` or at its end, holds only characters of the
/// class, and is followed by none of them.
pub proof fn lemma_prefix_len(s: Seq<char>, class: CharClass)
    ensures
        prefix_len(s, class) <= s.len(),
        all_in(s.take(prefix_len(s, class) as int), class),
        prefix_len(s, class) < s.len() ==> !class.has(s[prefix_len(s, class) as int]),
    decreases s.len(),
{
    if s.len() > 0 && class.has(s[0]) {
        let rest = s.drop_first();
        lemma_prefix_len(rest, class);
        let n = prefix_len(rest, class) as int;
        assert forall|i: int| 0 <= i < n + 1 implies class.has(#[trigger] s.take(n + 1)[i]) by {
            if i > 0 {
                assert(s.take(n + 1)[i] == rest.take(n)[i - 1]);
            }
        }
        if n < rest.len() {
            assert(s[n + 1] == rest[n]);
        }
    }
}

/// The one position that ends a run of `class` at the start of `s` is the
/// length of that run.
pub proof fn lemma_prefix_len_is(s: Seq<char>, class: CharClass, k: int)
    requires
        0 <= k <= s.len(),
        forall|i: int| 0 <= i < k ==> class.has(#[trigger] s[i]),
        k < s.len() ==> !class.has(s[k]),
    ensures
        prefix_len(s, class) == k,
    decreases k,
{
    if k > 0 {
        let rest = s.drop_first();
        assert forall|i: int| 0 <= i < k - 1 implies class.has(#[trigger] rest[i]) by {
            assert(rest[i] == s[i + 1]);
        }
        if k - 1 < rest.len() {
            assert(rest[k - 1] == s[k]);
        }
        lemma_prefix_len_is(rest, class, k - 1);
    }
}

/// A suffix run starts inside `s` or at its start, holds only characters of
/// the class, and is preceded by none of them.
pub proof fn lemma_suffix_len(s: Seq<char>, class: CharClass)
    ensures
        suffix_len(s, class) <= s.len(),
        all_in(s.skip(s.len() - suffix_len(s, class)), class),
        suffix_len(s, class) < s.len() ==> !class.has(s[s.len() - suffix_len(s, class) - 1]),
    decreases s.len(),
{
    if s.len() > 0 && class.has(s.last()) {
        let rest = s.drop_last();
        lemma_suffix_len(rest, class);
        let n = suffix_len(rest, class) as int;
        let from = s.len() - (n + 1);
        assert forall|i: int| 0 <= i < n + 1 implies class.has(#[trigger] s.skip(from)[i]) by {
            if i < n {
                assert(s.skip(from)[i] == rest.skip(rest.len() - n)[i]);
            }
        }
        if n < rest.len() {
            assert(s[from - 1] == rest[rest.len() - n - 1]);
        }
    }
}

/// The one position that starts a run of `class` at the end of `s` leaves
/// the length of that run behind it.
pub proof fn lemma_suffix_len_is(s: Seq<char>, class: CharClass, k: int)
    requires
        0 <= k <= s.len(),
        forall|i: int| s.len() - k <= i < s.len() ==> class.has(#[trigger] s[i]),
        k < s.len() ==> !class.has(s[s.len() - k - 1]),
    ensures
        suffix_len(s, class) == k,
    decreases k,
{
    if k > 0 {
        let rest = s.drop_last();
        assert forall|i: int| rest.len() - (k - 1) <= i < rest.len() implies class.has(
            #[trigger] rest[i],
        ) by {
            assert(rest[i] == s[i]);
        }
        if k - 1 < rest.len() {
            assert(rest[rest.len() - (k - 1) - 1] == s[s.len() - k - 1]);
        }
        lemma_suffix_len_is(rest, class, k - 1);
    }
}

/// Counts the characters of `class` at the start of `s`.
pub fn leading(s: &[char], class: CharClass) -> (n: usize)
    ensures
        n == prefix_len(s@, class),
        n <= s.len(),
{
    let mut n: usize = 0;
    while n < s.len() && class.holds(s[n])
        invariant
            n <= s.len(),
            forall|i: int| 0 <= i < n ==> class.has(#[trigger] s@[i]),
        decreases s.len() - n,
    {
        n += 1;
    }
    proof {
        lemma_prefix_len_is(s@, class, n as int);
    }
    n
}

/// Counts the characters of `class` at the end of `s`.
pub fn trailing(s: &[char], class: CharClass) -> (n: usize)
    ensures
        n == suffix_len(s@, class),
        n <= s.len(),
{
    let mut n: usize = 0;
    while n < s.len() && class.holds(s[s.len() - n - 1])
        invariant
            n <= s.len(),
            forall|i: int| s.len() - n <= i < s.len() ==> class.has(#[trigger] s@[i]),
        decreases s.len() - n,
    {
        n += 1;
    }
    proof {
        lemma_suffix_len_is(s@, class, n as int);
    }
    n
}

/// The part of `s` that follows its leading white space.
pub fn skip_spaces(s: &[char]) -> (out: &[char])
    ensures
        out@ == trim_start(s@),
{
    let from = leading(s, CharClass::Space);
    slice_subrange(s, from, s.len())
}

/// The part of `s` between its leading and its trailing white space.
pub fn trimmed(s: &[char]) -> (out: &[char])
    ensures
        out@ == trim(s@),
{
    let rest = skip_spaces(s);
    let cut = trailing(rest, CharClass::Space);
    slice_subrange(rest, 0, rest.len() - cut)
}

/// The characters of `text`, one by one.
pub fn chars_of(text: &str) -> (out: Vec<char>)
    ensures
        out@ == text@,
{
    let mut out: Vec<char> = Vec::new();
    for c in it: text.chars()
        invariant
            it.seq() == text@,
            out@ == it.seq().take(it.index() as int),
    {
        out.push(c);
    }
    out
}

/// Tells whether two texts hold the same characters.
pub fn same_text(a: &str, b: &str) -> (same: bool)
    ensures
        same == (a@ == b@),
{
    let mut other = b.chars();
    for c in it: a.chars()
        invariant
            it.seq() == a@,
            other.obeys_prophetic_iter_laws(),
            it.index() <= b@.len(),
            other.remaining() == b@.skip(it.index() as int),
            a@.take(it.index() as int) == b@.take(it.index() as int),
    {
        let ghost i = it.index() as int;
        match other.next() {
            Some(d) => {
                if c != d {
                    assert(a@[i] != b@[i]);
                    return false;
                }
                assert(b@.skip(i).drop_first() == b@.skip(i + 1));
                assert(a@.take(i + 1) == a@.take(i).push(c));
                assert(b@.take(i + 1) == b@.take(i).push(d));
            },
            None => {
                assert(a@.len() > b@.len());
                return false;
            },
        }
    }
    let last = other.next();
    assert(a@.take(a@.len() as int) == a@);
    if last.is_none() {
        assert(b@.take(a@.len() as int) == b@);
    }
    last.is_none()
}

/// A string made of the characters of `chars`.
pub fn string_of(chars: &[char]) -> (out: String)
    ensures
        out@ == chars@,
{
    let mut out = String::new();
    let mut i: usize = 0;
    while i < chars.len()
        invariant
            i <= chars.len(),
            out@ == chars@.take(i as int),
        decreases chars.len() - i,
    {
        out.push(chars[i]);
        i += 1;
    }
    out
}

} // verus!
