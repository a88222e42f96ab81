//! Text as sequences of characters: character classes, runs, joining, trimming, ASCII case and
//! searching.

use vstd::prelude::*;

verus! {

// ---------------------------------------------------------------------------
// Characters
// ---------------------------------------------------------------------------

/// The characters with the Unicode property `White_Space`.
pub open spec fn is_whitespace(c: char) -> bool {
    ||| '\u{9}' <= c <= '\u{d}'
    ||| c == ' '
    ||| c == '\u{85}'
    ||| c == '\u{a0}'
    ||| c == '\u{1680}'
    ||| '\u{2000}' <= c <= '\u{200a}'
    ||| c == '\u{2028}'
    ||| c == '\u{2029}'
    ||| c == '\u{202f}'
    ||| c == '\u{205f}'
    ||| c == '\u{3000}'
}

/// Whether `c` is white space.
pub fn whitespace(c: char) -> (found: bool)
    ensures
        found == is_whitespace(c),
{
    ('\u{9}' <= c && c <= '\u{d}') || c == ' ' || c == '\u{85}' || c == '\u{a0}' || c == '\u{1680}'
        || ('\u{2000}' <= c && c <= '\u{200a}') || c == '\u{2028}' || c == '\u{2029}' || c
        == '\u{202f}' || c == '\u{205f}' || c == '\u{3000}'
}

pub open spec fn is_digit(c: char) -> bool {
    '0' <= c <= '9'
}

pub fn digit(c: char) -> (found: bool)
    ensures
        found == is_digit(c),
{
    '0' <= c && c <= '9'
}

pub open spec fn is_ascii_alphanumeric(c: char) -> bool {
    is_digit(c) || 'a' <= c <= 'z' || 'A' <= c <= 'Z'
}

pub fn ascii_alphanumeric(c: char) -> (found: bool)
    ensures
        found == is_ascii_alphanumeric(c),
{
    digit(c) || ('a' <= c && c <= 'z') || ('A' <= c && c <= 'Z')
}

/// Whether Unicode counts a character above the ASCII range as alphabetic or numeric.
pub uninterp spec fn unicode_alphanumeric(c: char) -> bool;

/// Alphabetic or numeric: the ASCII letters and digits, and above them what Unicode says,
/// which never counts white space.
pub open spec fn is_letter_or_number(c: char) -> bool {
    if c <= '\u{7f}' {
        is_ascii_alphanumeric(c)
    } else {
        !is_whitespace(c) && unicode_alphanumeric(c)
    }
}

/// `char::is_alphanumeric` of the standard library. Claimed: in the ASCII range it accepts
/// exactly letters and digits; above it the answer depends on the character alone, and no
/// white space is accepted. The Unicode tables themselves are not written out.
pub assume_specification[ char::is_alphanumeric ](c: char) -> (found: bool)
    ensures
        c <= '\u{7f}' ==> found == is_ascii_alphanumeric(c),
        c > '\u{7f}' ==> found == (!is_whitespace(c) && unicode_alphanumeric(c)),
;

/// `String::push` of the standard library. Claimed: the character is put at the end of the
/// text and the rest stays.
pub assume_specification[ String::push ](text: &mut String, character: char)
    ensures
        final(text)@ == old(text)@.push(character),
;

// ---------------------------------------------------------------------------
// Between strings and characters
// ---------------------------------------------------------------------------

/// The characters of a string.
pub fn chars_of(text: &str) -> (chars: Vec<char>)
    ensures
        chars@ == text@,
{
    let mut chars: Vec<char> = Vec::new();
    for character in it: text.chars()
        invariant
            it.seq() == text@,
            chars@ == text@.take(it.index()),
    {
        assert(text@.take(it.index() + 1) == text@.take(it.index()).push(character));
        chars.push(character);
    }
    assert(text@.take(text@.len() as int) == text@);
    chars
}

/// The string of the given characters.
pub fn string_of(chars: &Vec<char>) -> (text: String)
    ensures
        text@ == chars@,
{
    let mut text = String::new();
    let mut i: usize = 0;
    while i < chars.len()
        invariant
            i <= chars.len(),
            text@ == chars@.take(i as int),
        decreases chars.len() - i,
    {
        assert(chars@.take(i + 1) == chars@.take(i as int).push(chars@[i as int]));
        text.push(chars[i]);
        i += 1;
    }
    assert(chars@.take(chars@.len() as int) == chars@);
    text
}

/// Several texts at once.
pub open spec fn texts(list: Seq<Vec<char>>) -> Seq<Seq<char>> {
    Seq::new(list.len(), |i: int| list[i]@)
}

/// Several strings at once.
pub open spec fn strings(list: Seq<String>) -> Seq<Seq<char>> {
    Seq::new(list.len(), |i: int| list[i]@)
}

/// Part of a text.
pub fn slice_of(chars: &Vec<char>, start: usize, end: usize) -> (part: Vec<char>)
    requires
        start <= end <= chars@.len(),
    ensures
        part@ == chars@.subrange(start as int, end as int),
{
    let mut part: Vec<char> = Vec::new();
    let mut i: usize = start;
    while i < end
        invariant
            start <= i <= end <= chars@.len(),
            part@ == chars@.subrange(start as int, i as int),
        decreases end - i,
    {
        assert(chars@.subrange(start as int, i + 1) == chars@.subrange(start as int, i as int).push(
            chars@[i as int],
        ));
        part.push(chars[i]);
        i += 1;
    }
    part
}

/// Puts `more` behind `chars`.
pub fn extend(chars: &mut Vec<char>, more: &Vec<char>)
    ensures
        final(chars)@ == old(chars)@ + more@,
{
    let mut i: usize = 0;
    while i < more.len()
        invariant
            i <= more.len(),
            chars@ == old(chars)@ + more@.take(i as int),
        decreases more.len() - i,
    {
        assert(more@.take(i + 1) == more@.take(i as int).push(more@[i as int]));
        chars.push(more[i]);
        i += 1;
    }
    assert(more@.take(more@.len() as int) == more@);
}

/// Puts the characters of `text` behind `chars`.
pub fn append_text(chars: &mut Vec<char>, text: &str)
    ensures
        final(chars)@ == old(chars)@ + text@,
{
    let more = chars_of(text);
    extend(chars, &more);
}

/// Whether two texts are the same.
pub fn same(left: &Vec<char>, right: &Vec<char>) -> (equal: bool)
    ensures
        equal == (left@ == right@),
{
    if left.len() != right.len() {
        return false;
    }
    let mut i: usize = 0;
    while i < left.len()
        invariant
            i <= left.len(),
            left.len() == right.len(),
            forall|j: int| 0 <= j < i ==> left@[j] == right@[j],
        decreases left.len() - i,
    {
        if left[i] != right[i] {
            return false;
        }
        i += 1;
    }
    assert(left@ =~= right@);
    true
}

/// Whether a text is the given string.
pub fn same_as(left: &Vec<char>, right: &str) -> (equal: bool)
    ensures
        equal == (left@ == right@),
{
    let right = chars_of(right);
    same(left, &right)
}

/// Whether two strings are the same.
pub fn same_strings(left: &str, right: &str) -> (equal: bool)
    ensures
        equal == (left@ == right@),
{
    let left = chars_of(left);
    same_as(&left, right)
}

// ---------------------------------------------------------------------------
// Runs of characters of one class
// ---------------------------------------------------------------------------

/// A class of characters by which a text is taken apart.
#[derive(Clone, Copy)]
pub enum CharClass {
    /// Letters and numbers.
    Alphanumeric,
    /// Everything but white space.
    Visible,
}

impl CharClass {
    pub open spec fn holds(self, c: char) -> bool {
        match self {
            CharClass::Alphanumeric => is_letter_or_number(c),
            CharClass::Visible => !is_whitespace(c),
        }
    }

    /// Whether `c` belongs to the class.
    pub fn has(self, c: char) -> (found: bool)
        ensures
            found == self.holds(c),
    {
        match self {
            CharClass::Alphanumeric => c.is_alphanumeric(),
            CharClass::Visible => !whitespace(c),
        }
    }
}

/// How many characters at the start of `s` belong to `class`.
pub open spec fn run_len(s: Seq<char>, class: CharClass) -> nat
    decreases s.len(),
{
    if s.len() == 0 || !class.holds(s[0]) {
        0
    } else {
        1 + run_len(s.drop_first(), class)
    }
}

/// The run at the start of a text lies within it and is as long as it can be.
pub proof fn lemma_run_len(s: Seq<char>, class: CharClass)
    ensures
        run_len(s, class) <= s.len(),
        forall|i: int| 0 <= i < run_len(s, class) ==> class.holds(#[trigger] s[i]),
        run_len(s, class) < s.len() ==> !class.holds(s[run_len(s, class) as int]),
    decreases s.len(),
{
    if s.len() > 0 && class.holds(s[0]) {
        lemma_run_len(s.drop_first(), class);
        assert forall|i: int| 0 <= i < run_len(s, class) implies class.holds(#[trigger] s[i]) by {
            if i > 0 {
                assert(s.drop_first()[i - 1] == s[i]);
            }
        }
    }
}

/// The longest stretches of `s` made of characters of `class`, in order.
pub open spec fn runs(s: Seq<char>, class: CharClass) -> Seq<Seq<char>>
    decreases s.len(),
{
    if s.len() == 0 {
        seq![]
    } else if !class.holds(s[0]) {
        runs(s.drop_first(), class)
    } else {
        proof {
            lemma_run_len(s, class);
        }
        let n = run_len(s, class) as int;
        seq![s.take(n)] + runs(s.skip(n), class)
    }
}

/// The words of `s`: what white space separates.
pub open spec fn words(s: Seq<char>) -> Seq<Seq<char>> {
    runs(s, CharClass::Visible)
}

/// Takes a text apart into its runs of `class`.
pub fn split_runs(chars: &Vec<char>, class: CharClass) -> (list: Vec<Vec<char>>)
    ensures
        texts(list@) == runs(chars@, class),
{
    let mut list: Vec<Vec<char>> = Vec::new();
    let mut i: usize = 0;
    assert(chars@.skip(0) == chars@);
    while i < chars.len()
        invariant
            i <= chars.len(),
            runs(chars@, class) == texts(list@) + runs(chars@.skip(i as int), class),
        decreases chars.len() - i,
    {
        let ghost rest = chars@.skip(i as int);
        assert(rest[0] == chars@[i as int]);
        if !class.has(chars[i]) {
            assert(rest.drop_first() == chars@.skip(i + 1));
            i += 1;
        } else {
            let start: usize = i;
            while i < chars.len() && class.has(chars[i])
                invariant
                    start <= i <= chars.len(),
                    rest == chars@.skip(start as int),
                    run_len(rest, class) == (i - start) + run_len(chars@.skip(i as int), class),
                decreases chars.len() - i,
            {
                assert(chars@.skip(i as int).drop_first() == chars@.skip(i + 1));
                i += 1;
            }
            assert(run_len(rest, class) == i - start);
            let word = slice_of(chars, start, i);
            let ghost before = texts(list@);
            list.push(word);
            assert(rest.take(i - start) == word@);
            assert(rest.skip(i - start) == chars@.skip(i as int));
            assert(texts(list@) =~= before.push(word@));
            assert(before + (seq![word@] + runs(chars@.skip(i as int), class)) =~= before.push(
                word@,
            ) + runs(chars@.skip(i as int), class));
        }
    }
    assert(chars@.skip(i as int) =~= seq![]);
    list
}

/// Takes a text apart into its words.
pub fn split_words(text: &str) -> (list: Vec<Vec<char>>)
    ensures
        texts(list@) == words(text@),
{
    let chars = chars_of(text);
    split_runs(&chars, CharClass::Visible)
}

/// The parts one behind the other, with `separator` between two neighbours.
pub open spec fn joined(parts: Seq<Seq<char>>, separator: Seq<char>) -> Seq<char>
    decreases parts.len(),
{
    if parts.len() == 0 {
        seq![]
    } else if parts.len() == 1 {
        parts[0]
    } else {
        joined(parts.drop_last(), separator) + separator + parts.last()
    }
}

/// One space.
pub open spec fn space() -> Seq<char> {
    seq![' ']
}

/// The first `count` parts, joined by single spaces.
pub fn join_first(parts: &Vec<Vec<char>>, count: usize) -> (whole: Vec<char>)
    requires
        count <= parts@.len(),
    ensures
        whole@ == joined(texts(parts@).take(count as int), space()),
{
    let mut whole: Vec<char> = Vec::new();
    let mut i: usize = 0;
    while i < count
        invariant
            i <= count <= parts@.len(),
            whole@ == joined(texts(parts@).take(i as int), space()),
        decreases count - i,
    {
        let ghost before = whole@;
        if i > 0 {
            whole.push(' ');
        }
        extend(&mut whole, &parts[i]);
        let ghost next = texts(parts@).take(i + 1);
        assert(next.drop_last() == texts(parts@).take(i as int));
        assert(next.last() == parts@[i as int]@);
        if i > 0 {
            assert(whole@ =~= before + space() + next.last());
        } else {
            assert(whole@ =~= next[0]);
        }
        i += 1;
    }
    whole
}

/// All parts, joined by single spaces.
pub fn join(parts: &Vec<Vec<char>>) -> (whole: Vec<char>)
    ensures
        whole@ == joined(texts(parts@), space()),
{
    let whole = join_first(parts, parts.len());
    assert(texts(parts@).take(parts@.len() as int) == texts(parts@));
    whole
}

proof fn lemma_joined_front(parts: Seq<Seq<char>>, separator: Seq<char>)
    requires
        parts.len() >= 2,
    ensures
        joined(parts, separator) == parts[0] + separator + joined(parts.drop_first(), separator),
    decreases parts.len(),
{
    let tail = parts.drop_first();
    if parts.len() == 2 {
        assert(joined(parts.drop_last(), separator) == parts[0]);
        assert(joined(tail, separator) == parts[1]);
    } else {
        lemma_joined_front(parts.drop_last(), separator);
        assert(parts.drop_last().drop_first() == tail.drop_last());
        assert(joined(tail, separator) == joined(tail.drop_last(), separator) + separator
            + tail.last());
        assert(joined(parts, separator) =~= parts[0] + separator + joined(tail, separator));
    }
}

proof fn lemma_run_len_exact(word: Seq<char>, rest: Seq<char>, class: CharClass)
    requires
        forall|i: int| 0 <= i < word.len() ==> class.holds(#[trigger] word[i]),
        rest.len() > 0 ==> !class.holds(rest[0]),
    ensures
        run_len(word + rest, class) == word.len(),
    decreases word.len(),
{
    if word.len() == 0 {
        assert(word + rest =~= rest);
    } else {
        let tail = word.drop_first();
        assert forall|i: int| 0 <= i < tail.len() implies class.holds(#[trigger] tail[i]) by {
            assert(tail[i] == word[i + 1]);
        }
        lemma_run_len_exact(tail, rest, class);
        assert((word + rest).drop_first() =~= tail + rest);
        assert((word + rest)[0] == word[0]);
    }
}

/// A part is a run of a class when it is not empty and holds nothing else.
pub open spec fn is_run(part: Seq<char>, class: CharClass) -> bool {
    part.len() > 0 && forall|i: int| 0 <= i < part.len() ==> class.holds(#[trigger] part[i])
}

/// Taking apart what was joined by spaces gives the parts back.
pub proof fn lemma_runs_of_joined(parts: Seq<Seq<char>>, class: CharClass)
    requires
        !class.holds(' '),
        forall|i: int| 0 <= i < parts.len() ==> is_run(#[trigger] parts[i], class),
    ensures
        runs(joined(parts, space()), class) == parts,
    decreases parts.len(),
{
    if parts.len() == 0 {
    } else if parts.len() == 1 {
        assert(is_run(parts[0], class));
        lemma_run_len_exact(parts[0], seq![], class);
        assert(parts[0] + seq![] =~= parts[0]);
        assert(parts[0].take(parts[0].len() as int) =~= parts[0]);
        assert(parts[0].skip(parts[0].len() as int) =~= seq![]);
        assert(class.holds(parts[0][0]));
        assert(runs(seq![], class) =~= seq![]);
        assert(runs(parts[0], class) =~= seq![parts[0]]);
        assert(runs(parts[0], class) =~= parts);
    } else {
        let first = parts[0];
        let tail = parts.drop_first();
        assert(is_run(first, class));
        assert(class.holds(first[0]));
        assert forall|i: int| 0 <= i < tail.len() implies is_run(#[trigger] tail[i], class) by {
            assert(tail[i] == parts[i + 1]);
        }
        lemma_runs_of_joined(tail, class);
        lemma_joined_front(parts, space());
        let whole = joined(parts, space());
        let rest = space() + joined(tail, space());
        assert(whole =~= first + rest);
        lemma_run_len_exact(first, rest, class);
        assert(whole[0] == first[0]);
        assert(whole.take(first.len() as int) =~= first);
        assert(whole.skip(first.len() as int) =~= rest);
        assert(rest.drop_first() =~= joined(tail, space()));
        assert(runs(rest, class) == tail);
        assert(runs(whole, class) =~= seq![first] + tail);
        assert(seq![first] + tail =~= parts);
    }
}

/// Every part that a text is taken apart into is a run of the class.
pub proof fn lemma_runs_are_runs(s: Seq<char>, class: CharClass)
    ensures
        forall|i: int| 0 <= i < runs(s, class).len() ==> is_run(#[trigger] runs(s, class)[i], class),
    decreases s.len(),
{
    if s.len() == 0 {
        assert(runs(s, class).len() == 0);
    } else if !class.holds(s[0]) {
        lemma_runs_are_runs(s.drop_first(), class);
        assert(runs(s, class) == runs(s.drop_first(), class));
    } else {
        lemma_run_len(s, class);
        let n = run_len(s, class) as int;
        lemma_runs_are_runs(s.skip(n), class);
        let rest = runs(s.skip(n), class);
        assert forall|i: int| 0 <= i < runs(s, class).len() implies is_run(
            #[trigger] runs(s, class)[i],
            class,
        ) by {
            if i == 0 {
                assert forall|j: int| 0 <= j < n implies class.holds(#[trigger] s.take(n)[j]) by {
                    assert(s.take(n)[j] == s[j]);
                }
            } else {
                assert(runs(s, class)[i] == rest[i - 1]);
            }
        }
    }
}

/// Two texts with a character between them that is not of the class are taken apart one after the
/// other.
pub proof fn lemma_runs_of_two(
    left: Seq<char>,
    separator: char,
    right: Seq<char>,
    class: CharClass,
)
    requires
        !class.holds(separator),
    ensures
        runs(left.push(separator) + right, class) == runs(left, class) + runs(right, class),
    decreases left.len(),
{
    let rest = seq![separator] + right;
    let whole = left.push(separator) + right;
    assert(whole =~= left + rest);
    assert(rest.drop_first() =~= right);
    if left.len() == 0 {
        assert(whole =~= rest);
        assert(runs(left, class) + runs(right, class) =~= runs(right, class));
    } else if !class.holds(left[0]) {
        lemma_runs_of_two(left.drop_first(), separator, right, class);
        assert(whole.drop_first() =~= left.drop_first().push(separator) + right);
    } else {
        lemma_run_len(left, class);
        let n = run_len(left, class) as int;
        let word = left.take(n);
        let after = left.skip(n).push(separator) + right;
        assert(whole =~= word + after);
        assert(after[0] == if n < left.len() {
            left[n]
        } else {
            separator
        });
        assert forall|i: int| 0 <= i < word.len() implies class.holds(#[trigger] word[i]) by {
            assert(word[i] == left[i]);
        }
        lemma_run_len_exact(word, after, class);
        lemma_runs_of_two(left.skip(n), separator, right, class);
        assert(whole.take(n) =~= word);
        assert(whole.skip(n) =~= after);
        assert(seq![word] + (runs(left.skip(n), class) + runs(right, class)) =~= seq![word] + runs(
            left.skip(n),
            class,
        ) + runs(right, class));
    }
}

/// Joining the parts of two texts is joining each and then both.
pub proof fn lemma_joined_two(left: Seq<Seq<char>>, right: Seq<Seq<char>>, separator: Seq<char>)
    requires
        left.len() > 0,
        right.len() > 0,
    ensures
        joined(left + right, separator) == joined(left, separator) + separator + joined(
            right,
            separator,
        ),
    decreases right.len(),
{
    let whole = left + right;
    assert(whole.last() == right.last());
    if right.len() == 1 {
        assert(whole.drop_last() =~= left);
    } else {
        lemma_joined_two(left, right.drop_last(), separator);
        assert(whole.drop_last() =~= left + right.drop_last());
        assert(joined(whole, separator) =~= joined(left, separator) + separator + (joined(
            right.drop_last(),
            separator,
        ) + separator + right.last()));
    }
}

// ---------------------------------------------------------------------------
// Trimming
// ---------------------------------------------------------------------------

/// What is cut off at both ends of a text.
#[derive(Clone, Copy)]
pub enum Trim {
    /// White space.
    Space,
    /// Everything but digits and the point.
    ToNumber,
    /// Everything but ASCII letters and digits.
    ToUnit,
}

impl Trim {
    pub open spec fn cuts(self, c: char) -> bool {
        match self {
            Trim::Space => is_whitespace(c),
            Trim::ToNumber => !is_digit(c) && c != '.',
            Trim::ToUnit => !is_ascii_alphanumeric(c),
        }
    }

    fn cut(self, c: char) -> (found: bool)
        ensures
            found == self.cuts(c),
    {
        match self {
            Trim::Space => whitespace(c),
            Trim::ToNumber => !digit(c) && c != '.',
            Trim::ToUnit => !ascii_alphanumeric(c),
        }
    }
}

/// `s` without the characters that `trim` cuts off at its two ends.
pub open spec fn trimmed(s: Seq<char>, trim: Trim) -> Seq<char>
    decreases s.len(),
{
    if s.len() == 0 {
        s
    } else if trim.cuts(s[0]) {
        trimmed(s.drop_first(), trim)
    } else if trim.cuts(s.last()) {
        trimmed(s.drop_last(), trim)
    } else {
        s
    }
}

pub proof fn lemma_trimmed_is_shorter(s: Seq<char>, trim: Trim)
    ensures
        trimmed(s, trim).len() <= s.len(),
    decreases s.len(),
{
    if s.len() > 0 {
        lemma_trimmed_is_shorter(s.drop_first(), trim);
        lemma_trimmed_is_shorter(s.drop_last(), trim);
    }
}

/// Cuts off both ends of a text.
pub fn trim_chars(chars: &Vec<char>, trim: Trim) -> (part: Vec<char>)
    ensures
        part@ == trimmed(chars@, trim),
{
    let mut start: usize = 0;
    let mut end: usize = chars.len();
    assert(chars@.subrange(0, chars@.len() as int) == chars@);
    while start < end && trim.cut(chars[start])
        invariant
            start <= end == chars@.len(),
            trimmed(chars@, trim) == trimmed(chars@.subrange(start as int, end as int), trim),
        decreases end - start,
    {
        assert(chars@.subrange(start as int, end as int).drop_first() == chars@.subrange(
            start + 1,
            end as int,
        ));
        start += 1;
    }
    while start < end && trim.cut(chars[end - 1])
        invariant
            start <= end <= chars@.len(),
            start < end ==> !trim.cuts(chars@[start as int]),
            trimmed(chars@, trim) == trimmed(chars@.subrange(start as int, end as int), trim),
        decreases end - start,
    {
        assert(chars@.subrange(start as int, end as int).drop_last() == chars@.subrange(
            start as int,
            end - 1,
        ));
        end -= 1;
    }
    slice_of(chars, start, end)
}

// ---------------------------------------------------------------------------
// ASCII case
// ---------------------------------------------------------------------------

pub open spec fn lower_char(c: char) -> char {
    if 'A' <= c <= 'Z' {
        (c as u32 + 32) as char
    } else {
        c
    }
}

/// `s` with its ASCII capitals made small.
pub open spec fn lowered(s: Seq<char>) -> Seq<char> {
    Seq::new(s.len(), |i: int| lower_char(s[i]))
}

/// Several texts with their ASCII capitals made small.
pub open spec fn lowered_parts(parts: Seq<Seq<char>>) -> Seq<Seq<char>> {
    Seq::new(parts.len(), |i: int| lowered(parts[i]))
}

proof fn lemma_lower_char(c: char, class: CharClass)
    ensures
        class.holds(lower_char(c)) == class.holds(c),
{
    if 'A' <= c <= 'Z' {
        assert('a' <= lower_char(c) <= 'z');
    }
}

proof fn lemma_run_len_of_lowered(s: Seq<char>, class: CharClass)
    ensures
        run_len(lowered(s), class) == run_len(s, class),
    decreases s.len(),
{
    if s.len() > 0 {
        lemma_lower_char(s[0], class);
        lemma_run_len_of_lowered(s.drop_first(), class);
        assert(lowered(s).drop_first() =~= lowered(s.drop_first()));
    }
}

/// Capitals make no difference to where a text is taken apart.
pub proof fn lemma_runs_of_lowered(s: Seq<char>, class: CharClass)
    ensures
        runs(lowered(s), class) == lowered_parts(runs(s, class)),
    decreases s.len(),
{
    if s.len() == 0 {
        assert(runs(lowered(s), class) =~= lowered_parts(runs(s, class)));
    } else {
        lemma_lower_char(s[0], class);
        assert(lowered(s)[0] == lower_char(s[0]));
        if !class.holds(s[0]) {
            lemma_runs_of_lowered(s.drop_first(), class);
            assert(lowered(s).drop_first() =~= lowered(s.drop_first()));
        } else {
            lemma_run_len(s, class);
            lemma_run_len_of_lowered(s, class);
            let n = run_len(s, class) as int;
            lemma_runs_of_lowered(s.skip(n), class);
            assert(lowered(s).skip(n) =~= lowered(s.skip(n)));
            assert(lowered(s).take(n) =~= lowered(s.take(n)));
            assert(runs(lowered(s), class) =~= lowered_parts(runs(s, class)));
        }
    }
}

/// Making small and joining can be done in either order.
pub proof fn lemma_joined_lowered(parts: Seq<Seq<char>>)
    ensures
        joined(lowered_parts(parts), space()) == lowered(joined(parts, space())),
    decreases parts.len(),
{
    let small = lowered_parts(parts);
    if parts.len() == 0 {
        assert(joined(small, space()) =~= lowered(joined(parts, space())));
    } else if parts.len() > 1 {
        lemma_joined_lowered(parts.drop_last());
        assert(small.drop_last() =~= lowered_parts(parts.drop_last()));
        assert(small.last() == lowered(parts.last()));
        assert(joined(small, space()) =~= lowered(joined(parts, space())));
    }
}

fn lower(c: char) -> (small: char)
    ensures
        small == lower_char(c),
{
    if 'A' <= c && c <= 'Z' {
        (c as u8 + 32) as char
    } else {
        c
    }
}

/// Makes ASCII capitals small.
pub fn lower_chars(chars: &Vec<char>) -> (small: Vec<char>)
    ensures
        small@ == lowered(chars@),
{
    let mut small: Vec<char> = Vec::new();
    let mut i: usize = 0;
    while i < chars.len()
        invariant
            i <= chars.len(),
            small@ == lowered(chars@).take(i as int),
        decreases chars.len() - i,
    {
        assert(lowered(chars@).take(i + 1) == lowered(chars@).take(i as int).push(
            lower_char(chars@[i as int]),
        ));
        small.push(lower(chars[i]));
        i += 1;
    }
    assert(lowered(chars@).take(chars@.len() as int) == lowered(chars@));
    small
}

/// Whether two texts differ at most in ASCII case.
pub fn same_ignoring_case(left: &Vec<char>, right: &Vec<char>) -> (equal: bool)
    ensures
        equal == (lowered(left@) == lowered(right@)),
{
    let left = lower_chars(left);
    let right = lower_chars(right);
    same(&left, &right)
}

// ---------------------------------------------------------------------------
// Searching
// ---------------------------------------------------------------------------

/// `part` stands in `s` at position `i`.
pub open spec fn occurs_at(s: Seq<char>, part: Seq<char>, i: int) -> bool {
    0 <= i && i + part.len() <= s.len() && s.subrange(i, i + part.len()) == part
}

/// `part` stands somewhere in `s`.
pub open spec fn contains(s: Seq<char>, part: Seq<char>) -> bool {
    exists|i: int| occurs_at(s, part, i)
}

fn stands_at(chars: &Vec<char>, part: &Vec<char>, at: usize) -> (found: bool)
    ensures
        found == occurs_at(chars@, part@, at as int),
{
    if chars.len() < part.len() || chars.len() - part.len() < at {
        return false;
    }
    let mut i: usize = 0;
    while i < part.len()
        invariant
            i <= part.len(),
            at + part.len() <= chars.len(),
            forall|j: int| 0 <= j < i ==> chars@[at + j] == part@[j],
        decreases part.len() - i,
    {
        if chars[at + i] != part[i] {
            assert(chars@.subrange(at as int, at + part@.len())[i as int] == chars@[at + i]);
            return false;
        }
        i += 1;
    }
    assert(chars@.subrange(at as int, at + part@.len()) =~= part@);
    true
}

/// The first position from `from` on at which `part` stands.
pub fn find_from(chars: &Vec<char>, part: &Vec<char>, from: usize) -> (place: Option<usize>)
    ensures
        match place {
            Some(i) => from <= i && occurs_at(chars@, part@, i as int) && forall|j: int|
                from <= j < i ==> !occurs_at(chars@, part@, j),
            None => forall|j: int| from <= j ==> !occurs_at(chars@, part@, j),
        },
{
    let mut i: usize = from;
    while i <= chars.len()
        invariant
            from <= i,
            i <= chars.len() + 1 || i == from,
            forall|j: int| from <= j < i ==> !occurs_at(chars@, part@, j),
        decreases chars.len() + 1 - i,
    {
        if stands_at(chars, part, i) {
            return Some(i);
        }
        if i == chars.len() {
            return None;
        }
        i += 1;
    }
    None
}

/// Whether `part` stands somewhere in the text.
pub fn holds_part(chars: &Vec<char>, part: &str) -> (found: bool)
    ensures
        found == contains(chars@, part@),
{
    let part = chars_of(part);
    let place = find_from(chars, &part, 0);
    assert(place is Some ==> occurs_at(chars@, part@, place->0 as int));
    place.is_some()
}

/// Whether the text begins with `part`.
pub fn begins_with(chars: &Vec<char>, part: &str) -> (found: bool)
    ensures
        found == part@.is_prefix_of(chars@),
{
    let part = chars_of(part);
    let found = stands_at(chars, &part, 0);
    assert(found ==> part@ =~= chars@.subrange(0, part@.len() as int));
    assert(part@.is_prefix_of(chars@) ==> chars@.subrange(0, part@.len() as int) =~= part@);
    found
}

// ---------------------------------------------------------------------------
// Laws
// ---------------------------------------------------------------------------

/// White space are the characters that Unicode lists as such, by their code points; in the ASCII
/// range the space and the five controls from the tab to the carriage return.
pub proof fn white_space_is_what_unicode_lists(c: char)
    ensures
        is_whitespace(c) <==> {
            let code = c as int;
            ||| 9 <= code <= 13
            ||| code == 32
            ||| code == 0x85
            ||| code == 0xa0
            ||| code == 0x1680
            ||| 0x2000 <= code <= 0x200a
            ||| code == 0x2028
            ||| code == 0x2029
            ||| code == 0x202f
            ||| code == 0x205f
            ||| code == 0x3000
        },
{
}

/// In the ASCII range letters and numbers are those of the English alphabet and the decimal
/// digits; nowhere are they white space.
pub proof fn letters_and_numbers_of_ascii(c: char)
    ensures
        c as int <= 127 ==> (is_letter_or_number(c) <==> 48 <= c as int <= 57 || 65 <= c as int
            <= 90 || 97 <= c as int <= 122),
        c as int > 127 ==> (is_letter_or_number(c) <==> unicode_alphanumeric(c) && !is_whitespace(
            c,
        )),
        is_digit(c) <==> 48 <= c as int <= 57,
        is_letter_or_number(c) ==> !is_whitespace(c),
{
}

/// Making a text small replaces each of the letters from `A` to `Z` by the one of the same place
/// from `a` to `z`, and leaves everything else as it is.
pub proof fn capitals_are_made_small_one_by_one(s: Seq<char>, i: int)
    requires
        0 <= i < s.len(),
    ensures
        lowered(s).len() == s.len(),
        lowered(s)[i] as int == if 65 <= s[i] as int <= 90 {
            s[i] as int + 32
        } else {
            s[i] as int
        },
{
}

/// A text without a character of the class has no parts.
pub proof fn lemma_runs_of_a_gap(gap: Seq<char>, class: CharClass)
    requires
        forall|i: int| 0 <= i < gap.len() ==> !class.holds(#[trigger] gap[i]),
    ensures
        runs(gap, class) == Seq::<Seq<char>>::empty(),
    decreases gap.len(),
{
    if gap.len() > 0 {
        let rest = gap.drop_first();
        assert forall|i: int| 0 <= i < rest.len() implies !class.holds(#[trigger] rest[i]) by {
            assert(rest[i] == gap[i + 1]);
        }
        lemma_runs_of_a_gap(rest, class);
    }
}

proof fn lemma_runs_behind_a_gap(gap: Seq<char>, rest: Seq<char>, class: CharClass)
    requires
        forall|i: int| 0 <= i < gap.len() ==> !class.holds(#[trigger] gap[i]),
    ensures
        runs(gap + rest, class) == runs(rest, class),
    decreases gap.len(),
{
    if gap.len() == 0 {
        assert(gap + rest =~= rest);
    } else {
        let tail = gap.drop_first();
        assert forall|i: int| 0 <= i < tail.len() implies !class.holds(#[trigger] tail[i]) by {
            assert(tail[i] == gap[i + 1]);
        }
        lemma_runs_behind_a_gap(tail, rest, class);
        assert((gap + rest).drop_first() =~= tail + rest);
        assert((gap + rest)[0] == gap[0]);
    }
}

/// What follows a gap up to the next one is a part, whole and as it stands, before those of the
/// rest.
pub proof fn lemma_runs_from_the_front(
    gap: Seq<char>,
    part: Seq<char>,
    rest: Seq<char>,
    class: CharClass,
)
    requires
        forall|i: int| 0 <= i < gap.len() ==> !class.holds(#[trigger] gap[i]),
        part.len() > 0,
        forall|i: int| 0 <= i < part.len() ==> class.holds(#[trigger] part[i]),
        rest.len() > 0 ==> !class.holds(rest[0]),
    ensures
        runs(gap + part + rest, class) == seq![part] + runs(rest, class),
{
    lemma_runs_behind_a_gap(gap, part + rest, class);
    assert(gap + part + rest =~= gap + (part + rest));
    lemma_run_len_exact(part, rest, class);
    let whole = part + rest;
    assert(whole[0] == part[0]);
    assert(class.holds(part[0]));
    assert(whole.take(part.len() as int) =~= part);
    assert(whole.skip(part.len() as int) =~= rest);
}

/// The words of a text are what white space separates: a text of white space has none, and a
/// stretch without white space, with nothing but white space before it and white space or nothing
/// behind it, is the first word, followed by the words of the rest.
pub proof fn words_are_what_white_space_separates(gap: Seq<char>, word: Seq<char>, rest: Seq<char>)
    requires
        forall|i: int| 0 <= i < gap.len() ==> is_whitespace(#[trigger] gap[i]),
        word.len() > 0,
        forall|i: int| 0 <= i < word.len() ==> !is_whitespace(#[trigger] word[i]),
        rest.len() > 0 ==> is_whitespace(rest[0]),
    ensures
        words(gap) == Seq::<Seq<char>>::empty(),
        words(gap + word + rest) == seq![word] + words(rest),
{
    let class = CharClass::Visible;
    assert forall|i: int| 0 <= i < gap.len() implies !class.holds(#[trigger] gap[i]) by {
        assert(is_whitespace(gap[i]));
    }
    assert forall|i: int| 0 <= i < word.len() implies class.holds(#[trigger] word[i]) by {
        assert(!is_whitespace(word[i]));
    }
    lemma_runs_of_a_gap(gap, class);
    lemma_runs_from_the_front(gap, word, rest, class);
}

/// Joining puts the separator between every two neighbouring parts and nowhere else.
pub proof fn joining_puts_separators_between_parts(
    parts: Seq<Seq<char>>,
    last: Seq<char>,
    separator: Seq<char>,
)
    ensures
        joined(Seq::<Seq<char>>::empty(), separator) == Seq::<char>::empty(),
        joined(seq![last], separator) == last,
        parts.len() > 0 ==> joined(parts.push(last), separator) == joined(parts, separator)
            + separator + last,
{
    assert(parts.push(last).drop_last() =~= parts);
}

/// Cutting off takes away all that is to be cut at either end, and nothing in between.
pub proof fn trimming_cuts_off_the_ends(
    left: Seq<char>,
    core: Seq<char>,
    right: Seq<char>,
    trim: Trim,
)
    requires
        forall|i: int| 0 <= i < left.len() ==> trim.cuts(#[trigger] left[i]),
        forall|i: int| 0 <= i < right.len() ==> trim.cuts(#[trigger] right[i]),
        core.len() > 0 ==> !trim.cuts(core[0]) && !trim.cuts(core.last()),
    ensures
        trimmed(left + core + right, trim) == core,
    decreases left.len() + right.len(),
{
    let whole = left + core + right;
    if left.len() > 0 {
        let tail = left.drop_first();
        assert forall|i: int| 0 <= i < tail.len() implies trim.cuts(#[trigger] tail[i]) by {
            assert(tail[i] == left[i + 1]);
        }
        trimming_cuts_off_the_ends(tail, core, right, trim);
        assert(whole[0] == left[0]);
        assert(whole.drop_first() =~= tail + core + right);
    } else if right.len() > 0 {
        assert(whole =~= core + right);
        if core.len() > 0 {
            let front = right.drop_last();
            assert forall|i: int| 0 <= i < front.len() implies trim.cuts(#[trigger] front[i]) by {
                assert(front[i] == right[i]);
            }
            trimming_cuts_off_the_ends(left, core, front, trim);
            assert(whole[0] == core[0]);
            assert(whole.last() == right.last());
            assert(trim.cuts(right[right.len() - 1]));
            assert(whole.drop_last() =~= left + core + front);
        } else {
            let tail = right.drop_first();
            assert forall|i: int| 0 <= i < tail.len() implies trim.cuts(#[trigger] tail[i]) by {
                assert(tail[i] == right[i + 1]);
            }
            trimming_cuts_off_the_ends(left, core, tail, trim);
            assert(whole[0] == right[0]);
            assert(whole.drop_first() =~= left + core + tail);
            assert(core =~= Seq::empty());
        }
    } else {
        assert(whole =~= core);
    }
}

/// What is cut off: white space; or all but the decimal digits and the point; or all but the ASCII
/// letters and digits.
pub proof fn trimming_goes_by_code_points(c: char)
    ensures
        Trim::Space.cuts(c) <==> is_whitespace(c),
        Trim::ToNumber.cuts(c) <==> !(48 <= c as int <= 57) && c as int != 46,
        Trim::ToUnit.cuts(c) <==> !(48 <= c as int <= 57) && !(65 <= c as int <= 90) && !(97
            <= c as int <= 122),
{
}

/// A part stands in a text exactly where the text is something, the part, and something.
pub proof fn parts_stand_within_texts(s: Seq<char>, part: Seq<char>)
    ensures
        contains(s, part) <==> exists|left: Seq<char>, right: Seq<char>|
            s == #[trigger] (left + part + right),
{
    if contains(s, part) {
        let i = choose|i: int| occurs_at(s, part, i);
        let left = s.take(i);
        let right = s.skip(i + part.len());
        assert(s =~= left + part + right);
    }
    if exists|left: Seq<char>, right: Seq<char>| s == #[trigger] (left + part + right) {
        let (left, right) = choose|left: Seq<char>, right: Seq<char>|
            s == #[trigger] (left + part + right);
        assert(s.subrange(left.len() as int, (left.len() + part.len()) as int) =~= part);
        assert(occurs_at(s, part, left.len() as int));
    }
}

/// Lists of texts are seen whole, text by text.
pub proof fn lists_of_texts_are_seen_whole(list: Seq<Vec<char>>, others: Seq<String>, i: int)
    ensures
        texts(list).len() == list.len(),
        strings(others).len() == others.len(),
        0 <= i < list.len() ==> texts(list)[i] == list[i]@,
        0 <= i < others.len() ==> strings(others)[i] == others[i]@,
{
}

} // verus!
