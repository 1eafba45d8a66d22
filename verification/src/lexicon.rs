//! Character classes and token shapes of the matrix language.
//!
//! Everything here speaks of a text as a sequence of characters and of
//! positions in it. A token is described by where it ends when read from a
//! given position: `None` when no token of that shape starts there.

use vstd::prelude::*;
use vstd::std_specs::iter::IteratorSpec;

verus! {

/// The classes of characters from which tokens are built.
#[derive(Clone, Copy, Debug, PartialEq, Eq)]
pub enum CharClass {
    /// The decimal digits `0` to `9`.
    Digit,
    /// What may follow the first character of a name: an ASCII letter, a
    /// decimal digit or an underscore.
    NameChar,
    /// White space inside a line: space, tab and carriage return.
    Blank,
    /// Everything but the line feed, which ends a line.
    InLine,
    /// White space of any kind: that of a line, and the line feed.
    Space,
}

/// One of the ten decimal digits.
pub open spec fn is_digit(c: char) -> bool {
    '0' <= c && c <= '9'
}

/// An ASCII letter, small or capital.
pub open spec fn is_letter(c: char) -> bool {
    ('a' <= c && c <= 'z') || ('A' <= c && c <= 'Z')
}

/// A name starts with an ASCII letter or an underscore, never with a digit.
pub open spec fn is_name_start(c: char) -> bool {
    is_letter(c) || c == '_'
}

/// What a name may hold behind its first character.
pub open spec fn is_name_char(c: char) -> bool {
    is_name_start(c) || is_digit(c)
}

/// White space inside a line: space, tab or carriage return.
pub open spec fn is_blank(c: char) -> bool {
    c == ' ' || c == '\t' || c == '\r'
}

impl CharClass {
    /// The characters of the class.
    pub open spec fn contains(self, c: char) -> bool {
        match self {
            CharClass::Digit => is_digit(c),
            CharClass::NameChar => is_name_char(c),
            CharClass::Blank => is_blank(c),
            CharClass::InLine => c != '\n',
            CharClass::Space => is_blank(c) || c == '\n',
        }
    }

    /// Tells whether `c` belongs to the class.
    pub fn holds(self, c: char) -> (r: bool)
        ensures
            r == self.contains(c),
    {
        match self {
            CharClass::Digit => '0' <= c && c <= '9',
            CharClass::NameChar => ('a' <= c && c <= 'z') || ('A' <= c && c <= 'Z') || c == '_' || (
            '0' <= c && c <= '9'),
            CharClass::Blank => c == ' ' || c == '\t' || c == '\r',
            CharClass::InLine => c != '\n',
            CharClass::Space => c == ' ' || c == '\t' || c == '\r' || c == '\n',
        }
    }
}

/// The end of the longest run of characters of `class` that starts at `i`:
/// `i` itself where the character at `i` is of another class or `i` is no
/// position of `s`.
pub open spec fn run_end(s: Seq<char>, i: int, class: CharClass) -> int
    decreases s.len() - i,
{
    if 0 <= i < s.len() && class.contains(s[i]) {
        run_end(s, i + 1, class)
    } else {
        i
    }
}

/// A run ends inside the text, covers characters of its class only, and
/// stops at a character of another class or at the end of the text.
pub proof fn lemma_run_end(s: Seq<char>, i: int, class: CharClass)
    requires
        0 <= i <= s.len(),
    ensures
        i <= run_end(s, i, class) <= s.len(),
        forall|k: int| i <= k < run_end(s, i, class) ==> class.contains(#[trigger] s[k]),
        run_end(s, i, class) < s.len() ==> !class.contains(s[run_end(s, i, class)]),
    decreases s.len() - i,
{
    if i < s.len() && class.contains(s[i]) {
        lemma_run_end(s, i + 1, class);
    }
}

/// Text put in front moves a run and changes nothing else of it.
pub proof fn lemma_run_end_shift(front: Seq<char>, s: Seq<char>, i: int, class: CharClass)
    requires
        0 <= i,
    ensures
        run_end(front + s, front.len() + i, class) == front.len() + run_end(s, i, class),
    decreases s.len() - i,
{
    let whole = front + s;
    if i < s.len() {
        assert(whole[front.len() + i] == s[i]);
        if class.contains(s[i]) {
            lemma_run_end_shift(front, s, i + 1, class);
        }
    }
}

/// Text put behind leaves a run that ends before it as it is, and a run
/// that reaches it goes on into it.
pub proof fn lemma_run_end_extend(s: Seq<char>, back: Seq<char>, i: int, class: CharClass)
    requires
        0 <= i <= s.len(),
    ensures
        run_end(s, i, class) < s.len() ==> run_end(s + back, i, class) == run_end(s, i, class),
        run_end(s, i, class) >= s.len() ==> run_end(s + back, i, class) == s.len() + run_end(
            back,
            0,
            class,
        ),
    decreases s.len() - i,
{
    let whole = s + back;
    if i < s.len() {
        assert(whole[i] == s[i]);
        if class.contains(s[i]) {
            lemma_run_end_extend(s, back, i + 1, class);
        }
    } else {
        assert(whole =~= s + back);
        lemma_run_end_shift(s, back, 0, class);
    }
}

/// Where the number that starts at `i` ends: an optional minus sign, one or
/// more digits and, where a dot and a digit follow, that dot with the digits
/// behind it. There is no exponent.
pub open spec fn number_end(s: Seq<char>, i: int) -> Option<int> {
    let first = if 0 <= i < s.len() && s[i] == '-' {
        i + 1
    } else {
        i
    };
    let whole = run_end(s, first, CharClass::Digit);
    if whole == first {
        None
    } else if 0 <= whole && whole + 1 < s.len() && s[whole] == '.' && is_digit(s[whole + 1]) {
        Some(run_end(s, whole + 1, CharClass::Digit))
    } else {
        Some(whole)
    }
}

/// Where the name that starts at `i` ends.
pub open spec fn name_end(s: Seq<char>, i: int) -> Option<int> {
    if 0 <= i < s.len() && is_name_start(s[i]) {
        Some(run_end(s, i + 1, CharClass::NameChar))
    } else {
        None
    }
}

/// The whole of `t` is one number.
pub open spec fn is_number(t: Seq<char>) -> bool {
    number_end(t, 0) == Some(t.len() as int)
}

/// The whole of `t` is one name.
pub open spec fn is_name(t: Seq<char>) -> bool {
    name_end(t, 0) == Some(t.len() as int)
}

/// A number is not empty and ends inside the text.
pub proof fn lemma_number_end(s: Seq<char>, i: int)
    requires
        0 <= i <= s.len(),
        number_end(s, i) is Some,
    ensures
        i < number_end(s, i)->0 <= s.len(),
{
    let first = if i < s.len() && s[i] == '-' {
        i + 1
    } else {
        i
    };
    lemma_run_end(s, first, CharClass::Digit);
    let whole = run_end(s, first, CharClass::Digit);
    if whole + 1 < s.len() {
        lemma_run_end(s, whole + 1, CharClass::Digit);
    }
}

/// A name is not empty and ends inside the text.
pub proof fn lemma_name_end(s: Seq<char>, i: int)
    requires
        0 <= i <= s.len(),
        name_end(s, i) is Some,
    ensures
        i < name_end(s, i)->0 <= s.len(),
{
    lemma_run_end(s, i + 1, CharClass::NameChar);
}

/// A run ends at `end` where every character from `i` up to `end` is of
/// the class and the character at `end`, if there is one, is not.
pub proof fn lemma_run_end_is(s: Seq<char>, i: int, end: int, class: CharClass)
    requires
        0 <= i <= end <= s.len(),
        forall|k: int| i <= k < end ==> class.contains(#[trigger] s[k]),
        end < s.len() ==> !class.contains(s[end]),
    ensures
        run_end(s, i, class) == end,
    decreases end - i,
{
    if i < end {
        lemma_run_end_is(s, i + 1, end, class);
    }
}

/// A run read inside a piece of the text is the run read in the text, cut
/// where the piece ends.
pub proof fn lemma_run_end_within(s: Seq<char>, from: int, to: int, k: int, class: CharClass)
    requires
        0 <= from <= from + k <= to <= s.len(),
    ensures
        run_end(s.subrange(from, to), k, class) == if run_end(s, from + k, class) < to {
            run_end(s, from + k, class) - from
        } else {
            to - from
        },
    decreases to - from - k,
{
    let piece = s.subrange(from, to);
    lemma_run_end(s, from + k, class);
    if from + k < to {
        assert(piece[k] == s[from + k]);
        if class.contains(s[from + k]) {
            lemma_run_end_within(s, from, to, k + 1, class);
        }
    }
}

/// What is read as a number is a number.
pub proof fn lemma_token_is_number(s: Seq<char>, i: int)
    requires
        number_end(s, i) is Some,
    ensures
        is_number(s.subrange(i, number_end(s, i)->0)),
{
    if 0 <= i <= s.len() {
        lemma_number_end(s, i);
    }
    let end = number_end(s, i)->0;
    let t = s.subrange(i, end);
    assert(t[0] == s[i]);
    let sign = if s[i] == '-' {
        1int
    } else {
        0int
    };
    lemma_run_end(s, i + sign, CharClass::Digit);
    let whole = run_end(s, i + sign, CharClass::Digit);
    if whole + 1 < s.len() && s[whole] == '.' && is_digit(s[whole + 1]) {
        lemma_run_end(s, whole + 1, CharClass::Digit);
        lemma_run_end_within(s, i, end, sign, CharClass::Digit);
        assert(t[whole - i] == s[whole]);
        assert(t[whole - i + 1] == s[whole + 1]);
        lemma_run_end_within(s, i, end, whole - i + 1, CharClass::Digit);
    } else {
        lemma_run_end_within(s, i, end, sign, CharClass::Digit);
    }
}

/// What is read as a name is a name.
pub proof fn lemma_token_is_name(s: Seq<char>, i: int)
    requires
        name_end(s, i) is Some,
    ensures
        is_name(s.subrange(i, name_end(s, i)->0)),
{
    lemma_name_end(s, i);
    let end = name_end(s, i)->0;
    let t = s.subrange(i, end);
    assert(t[0] == s[i]);
    lemma_run_end_within(s, i, end, 1, CharClass::NameChar);
}

/// An optional position moved to the right by `by`.
pub open spec fn moved(end: Option<int>, by: int) -> Option<int> {
    match end {
        Some(end) => Some(end + by),
        None => None,
    }
}

/// Text put in front moves a number and changes nothing else of it.
pub proof fn lemma_number_end_shift(front: Seq<char>, s: Seq<char>, i: int)
    requires
        0 <= i,
    ensures
        number_end(front + s, front.len() + i) == moved(number_end(s, i), front.len() as int),
{
    let whole_text = front + s;
    let by = front.len() as int;
    if i < s.len() {
        assert(whole_text[by + i] == s[i]);
    }
    let first = if i < s.len() && s[i] == '-' {
        i + 1
    } else {
        i
    };
    lemma_run_end_shift(front, s, first, CharClass::Digit);
    let whole = run_end(s, first, CharClass::Digit);
    if whole != first {
        if first <= s.len() {
            lemma_run_end(s, first, CharClass::Digit);
        }
        if whole + 1 < s.len() {
            assert(whole_text[by + whole] == s[whole]);
            assert(whole_text[by + whole + 1] == s[whole + 1]);
        }
        lemma_run_end_shift(front, s, whole + 1, CharClass::Digit);
    }
}

/// Text put in front moves a name and changes nothing else of it.
pub proof fn lemma_name_end_shift(front: Seq<char>, s: Seq<char>, i: int)
    requires
        0 <= i,
    ensures
        name_end(front + s, front.len() + i) == moved(name_end(s, i), front.len() as int),
{
    let whole_text = front + s;
    if i < s.len() {
        assert(whole_text[front.len() + i] == s[i]);
    }
    lemma_run_end_shift(front, s, i + 1, CharClass::NameChar);
}

/// What a number is made of: it is not empty, starts with a minus sign or
/// a digit, and holds nothing but minus signs, digits and dots.
pub proof fn lemma_number_chars(t: Seq<char>)
    requires
        is_number(t),
    ensures
        t.len() > 0,
        t[0] == '-' || is_digit(t[0]),
        forall|k: int| 0 <= k < t.len() ==> (#[trigger] t[k]) == '-' || is_digit(t[k]) || t[k] == '.',
{
    let first = if t.len() > 0 && t[0] == '-' {
        1int
    } else {
        0int
    };
    if first <= t.len() {
        lemma_run_end(t, first, CharClass::Digit);
    }
    let whole = run_end(t, first, CharClass::Digit);
    if whole + 1 < t.len() {
        lemma_run_end(t, whole + 1, CharClass::Digit);
    }
}

/// What a name is made of: it is not empty, starts with a letter or an
/// underscore, and holds nothing but letters, digits and underscores.
pub proof fn lemma_name_chars(t: Seq<char>)
    requires
        is_name(t),
    ensures
        t.len() > 0,
        is_name_start(t[0]),
        forall|k: int| 0 <= k < t.len() ==> is_name_char(#[trigger] t[k]),
{
    lemma_run_end(t, 1, CharClass::NameChar);
}

/// A number is read whole where what follows it starts with neither a
/// digit nor a dot.
pub proof fn lemma_number_then(t: Seq<char>, back: Seq<char>)
    requires
        is_number(t),
        back.len() > 0 ==> !is_digit(back[0]) && back[0] != '.',
    ensures
        number_end(t + back, 0) == Some(t.len() as int),
{
    let s = t + back;
    lemma_number_chars(t);
    assert(s[0] == t[0]);
    let first = if t[0] == '-' {
        1int
    } else {
        0int
    };
    lemma_run_end(t, first, CharClass::Digit);
    lemma_run_end_extend(t, back, first, CharClass::Digit);
    let whole = run_end(t, first, CharClass::Digit);
    if back.len() > 0 {
        assert(s[t.len() as int] == back[0]);
    }
    assert(run_end(back, 0, CharClass::Digit) == 0);
    if whole < t.len() {
        assert(s[whole] == t[whole]);
        assert(s[whole + 1] == t[whole + 1]);
        lemma_run_end_extend(t, back, whole + 1, CharClass::Digit);
    }
}

/// A name is read whole where what follows it starts with no character of
/// a name.
pub proof fn lemma_name_then(t: Seq<char>, back: Seq<char>)
    requires
        is_name(t),
        back.len() > 0 ==> !is_name_char(back[0]),
    ensures
        name_end(t + back, 0) == Some(t.len() as int),
{
    let s = t + back;
    lemma_name_chars(t);
    assert(s[0] == t[0]);
    lemma_run_end_extend(t, back, 1, CharClass::NameChar);
    assert(run_end(back, 0, CharClass::NameChar) == 0);
}

/// Reads the longest run of characters of `class` from `start` and returns
/// where it ends.
pub fn scan_run(s: &Vec<char>, start: usize, class: CharClass) -> (end: usize)
    ensures
        end == run_end(s@, start as int, class),
{
    let mut i: usize = start;
    while i < s.len() && class.holds(s[i])
        invariant
            run_end(s@, start as int, class) == run_end(s@, i as int, class),
        decreases s.len() - i,
    {
        i += 1;
    }
    i
}

/// Reads a number from `start`: where it ends, or `None` where no number
/// starts there.
pub fn scan_number(s: &Vec<char>, start: usize) -> (end: Option<usize>)
    ensures
        end is Some <==> number_end(s@, start as int) is Some,
        end is Some ==> end->0 == number_end(s@, start as int)->0,
{
    let first: usize = if start < s.len() && s[start] == '-' {
        start + 1
    } else {
        start
    };
    let whole: usize = scan_run(s, first, CharClass::Digit);
    if whole == first {
        None
    } else {
        proof {
            lemma_run_end(s@, first as int, CharClass::Digit);
        }
        if whole < s.len() - 1 && s[whole] == '.' && CharClass::Digit.holds(s[whole + 1]) {
            Some(scan_run(s, whole + 1, CharClass::Digit))
        } else {
            Some(whole)
        }
    }
}

/// Reads a name from `start`: where it ends, or `None` where no name starts
/// there.
pub fn scan_name(s: &Vec<char>, start: usize) -> (end: Option<usize>)
    ensures
        end is Some <==> name_end(s@, start as int) is Some,
        end is Some ==> end->0 == name_end(s@, start as int)->0,
{
    if start < s.len() && (('a' <= s[start] && s[start] <= 'z') || ('A' <= s[start] && s[start]
        <= 'Z') || s[start] == '_') {
        Some(scan_run(s, start + 1, CharClass::NameChar))
    } else {
        None
    }
}

/// The texts of a list, each as its sequence of characters.
pub open spec fn texts(items: Seq<String>) -> Seq<Seq<char>> {
    Seq::new(items.len(), |i: int| items[i]@)
}

/// Taken on trust of `String::push` of the standard library, which is not
/// verified here: it appends the character to the end of the text and
/// leaves the characters before it as they were.
pub assume_specification[ String::push ](text: &mut String, ch: char)
    ensures
        final(text)@ == old(text)@.push(ch),
;

/// The characters of `s` from `from` up to `to`, as a text.
pub fn text_of(s: &Vec<char>, from: usize, to: usize) -> (r: String)
    requires
        from <= to <= s.len(),
    ensures
        r@ == s@.subrange(from as int, to as int),
{
    let mut out = String::new();
    let mut i: usize = from;
    while i < to
        invariant
            from <= i <= to <= s.len(),
            out@ == s@.subrange(from as int, i as int),
        decreases to - i,
    {
        out.push(s[i]);
        assert(s@.subrange(from as int, i + 1) =~= s@.subrange(from as int, i as int).push(
            s@[i as int],
        ));
        i += 1;
    }
    out
}

/// The characters of `text`, in order.
pub fn chars_of(text: &str) -> (r: Vec<char>)
    ensures
        r@ == text@,
{
    let mut out: Vec<char> = Vec::new();
    let mut it = text.chars();
    loop
        invariant
            out@ + it.remaining() == text@,
            it.obeys_prophetic_iter_laws(),
            it.decrease() is Some,
        ensures
            out@ == text@,
        decreases it.decrease()->0,
    {
        match it.next() {
            Some(c) => {
                out.push(c);
                assert(out@ + it.remaining() =~= text@);
            },
            None => {
                assert(out@ + it.remaining() =~= out@);
                break;
            },
        }
    }
    out
}

} // verus!
