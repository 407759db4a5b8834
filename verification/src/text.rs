//! Strings as sequences of characters: the conversions that the rest of the
//! library builds on.

use vstd::prelude::*;

verus! {

/// `String::push` of std appends the one character to the end of the string.
pub assume_specification[ String::push ](s: &mut String, ch: char)
    ensures
        final(s)@ == old(s)@.push(ch),
;

/// The characters of a string, in order.
pub fn chars_of(s: &str) -> (r: Vec<char>)
    ensures
        r@ == s@,
{
    let n = s.unicode_len();
    let mut out: Vec<char> = Vec::new();
    let mut i: usize = 0;
    while i < n
        invariant
            n == s@.len(),
            i <= n,
            out@ == s@.take(i as int),
        decreases n - i,
    {
        out.push(s.get_char(i));
        i = i + 1;
        proof {
            assert(out@ =~= s@.take(i as int));
        }
    }
    proof {
        assert(s@.take(n as int) =~= s@);
    }
    out
}

/// The string that holds the given characters, in order.
pub fn string_of(chars: &Vec<char>) -> (r: String)
    ensures
        r@ == chars@,
{
    let mut out = String::new();
    let mut i: usize = 0;
    while i < chars.len()
        invariant
            i <= chars.len(),
            out@ == chars@.take(i as int),
        decreases chars.len() - i,
    {
        out.push(chars[i]);
        i = i + 1;
        proof {
            assert(out@ =~= chars@.take(i as int));
        }
    }
    proof {
        assert(chars@.take(chars.len() as int) =~= chars@);
    }
    out
}

/// The texts that a sequence of strings holds.
pub open spec fn views(v: Seq<String>) -> Seq<Seq<char>> {
    v.map_values(|s: String| s@)
}

/// Where `x` first stands in `s`; the length of `s` where it does not occur.
pub open spec fn position_of<A>(s: Seq<A>, x: A) -> int
    decreases s.len(),
{
    if s.len() == 0 {
        0
    } else if s[0] == x {
        0
    } else {
        1 + position_of(s.skip(1), x)
    }
}

/// `position_of` is the first place at which `x` stands.
pub proof fn lemma_position_of<A>(s: Seq<A>, x: A, i: int)
    requires
        0 <= i <= s.len(),
        forall|k: int| 0 <= k < i ==> s[k] != x,
        i < s.len() ==> s[i] == x,
    ensures
        position_of(s, x) == i,
    decreases s.len(),
{
    if s.len() > 0 && i > 0 {
        assert(s[0] != x);
        let rest = s.skip(1);
        assert forall|k: int| 0 <= k < i - 1 implies rest[k] != x by {
            assert(rest[k] == s[k + 1]);
        }
        lemma_position_of(rest, x, i - 1);
    }
}

/// White space as Unicode defines it: the characters with the property
/// `White_Space`.
pub open spec fn is_whitespace(c: char) -> bool {
    ||| ('\u{9}' <= c && c <= '\u{d}')
    ||| c == ' '
    ||| c == '\u{85}'
    ||| c == '\u{a0}'
    ||| c == '\u{1680}'
    ||| ('\u{2000}' <= c && c <= '\u{200a}')
    ||| c == '\u{2028}'
    ||| c == '\u{2029}'
    ||| c == '\u{202f}'
    ||| c == '\u{205f}'
    ||| c == '\u{3000}'
}

/// Tells whether a character is white space.
pub fn char_is_whitespace(c: char) -> (r: bool)
    ensures
        r == is_whitespace(c),
{
    ('\u{9}' <= c && c <= '\u{d}') || c == ' ' || c == '\u{85}' || c == '\u{a0}' || c
        == '\u{1680}' || ('\u{2000}' <= c && c <= '\u{200a}') || c == '\u{2028}' || c
        == '\u{2029}' || c == '\u{202f}' || c == '\u{205f}' || c == '\u{3000}'
}

/// The characters of `chars` from `from` up to `to`, as a string.
pub fn substring(chars: &Vec<char>, from: usize, to: usize) -> (r: String)
    requires
        from <= to <= chars.len(),
    ensures
        r@ == chars@.subrange(from as int, to as int),
{
    let mut out = String::new();
    let mut i: usize = from;
    while i < to
        invariant
            from <= i <= to <= chars.len(),
            out@ == chars@.subrange(from as int, i as int),
        decreases to - i,
    {
        out.push(chars[i]);
        i = i + 1;
        proof {
            assert(out@ =~= chars@.subrange(from as int, i as int));
        }
    }
    out
}

/// Where `x` first stands in `chars`; the length where it does not occur.
pub fn find_char(chars: &Vec<char>, x: char) -> (i: usize)
    ensures
        i == position_of(chars@, x),
        i <= chars.len(),
{
    let mut i: usize = 0;
    while i < chars.len() && chars[i] != x
        invariant
            i <= chars.len(),
            forall|k: int| 0 <= k < i ==> chars@[k] != x,
        decreases chars.len() - i,
    {
        i = i + 1;
    }
    proof {
        lemma_position_of(chars@, x, i as int);
    }
    i
}

/// Appends the characters to `out`.
pub fn push_chars(out: &mut Vec<char>, s: &Vec<char>)
    ensures
        final(out)@ == old(out)@ + s@,
{
    let ghost head = out@;
    let mut i: usize = 0;
    while i < s.len()
        invariant
            i <= s.len(),
            out@ == head + s@.take(i as int),
        decreases s.len() - i,
    {
        out.push(s[i]);
        i = i + 1;
        proof {
            assert(out@ =~= head + s@.take(i as int));
        }
    }
    proof {
        assert(s@.take(s.len() as int) =~= s@);
    }
}

/// Appends the text to `out`.
pub fn push_str(out: &mut Vec<char>, s: &str)
    ensures
        final(out)@ == old(out)@ + s@,
{
    let chars = chars_of(s);
    push_chars(out, &chars);
}

/// The parts of a text between the separators: a text without the separator
/// is one part, and each separator ends a part, an empty one too.
pub open spec fn split(s: Seq<char>, sep: char) -> Seq<Seq<char>>
    decreases s.len(),
{
    let at = position_of(s, sep);
    if 0 <= at < s.len() {
        seq![s.take(at)] + split(s.skip(at + 1), sep)
    } else {
        seq![s]
    }
}

/// Splits the characters at each separator.
pub fn split_chars(chars: &Vec<char>, sep: char) -> (r: Vec<String>)
    ensures
        views(r@) == split(chars@, sep),
{
    let mut out: Vec<String> = Vec::new();
    let mut start: usize = 0;
    let mut i: usize = 0;
    proof {
        assert(chars@.skip(0) =~= chars@);
        assert(views(out@) =~= Seq::<Seq<char>>::empty());
    }
    while i < chars.len()
        invariant
            start <= i <= chars.len(),
            forall|k: int| start <= k < i ==> chars@[k] != sep,
            split(chars@, sep) == views(out@) + split(chars@.skip(start as int), sep),
        decreases chars.len() - i,
    {
        if chars[i] == sep {
            let part = substring(chars, start, i);
            let ghost rest = chars@.skip(start as int);
            let ghost before = views(out@);
            proof {
                assert forall|k: int| 0 <= k < i - start implies rest[k] != sep by {
                    assert(rest[k] == chars@[start + k]);
                }
                assert(rest[i - start] == sep);
                lemma_position_of(rest, sep, i - start);
                assert(rest.take(i - start) =~= chars@.subrange(start as int, i as int));
                assert(rest.skip(i - start + 1) =~= chars@.skip(i + 1));
            }
            out.push(part);
            proof {
                assert(views(out@) =~= before + seq![rest.take(i - start)]);
                assert(split(chars@, sep) =~= views(out@) + split(chars@.skip(i + 1), sep));
            }
            start = i + 1;
        }
        i = i + 1;
    }
    let ghost rest = chars@.skip(start as int);
    let ghost before = views(out@);
    proof {
        assert forall|k: int| 0 <= k < rest.len() implies rest[k] != sep by {
            assert(rest[k] == chars@[start + k]);
        }
        lemma_position_of(rest, sep, rest.len() as int);
        assert(rest =~= chars@.subrange(start as int, chars.len() as int));
    }
    out.push(substring(chars, start, chars.len()));
    proof {
        assert(views(out@) =~= before + seq![rest]);
    }
    out
}

/// An upper-case letter or a digit.
pub open spec fn is_upper_or_digit(c: char) -> bool {
    ('A' <= c && c <= 'Z') || ('0' <= c && c <= '9')
}

/// At `at` the text holds the word.
pub open spec fn text_at(s: Seq<char>, at: int, word: Seq<char>) -> bool {
    0 <= at && at + word.len() <= s.len() && s.subrange(at, at + word.len()) == word
}

/// Tells whether the characters hold the word at `at`.
pub fn has_text_at(chars: &Vec<char>, at: usize, word: &str) -> (r: bool)
    ensures
        r == text_at(chars@, at as int, word@),
{
    let want = chars_of(word);
    if at > chars.len() || want.len() > chars.len() - at {
        return false;
    }
    let mut k: usize = 0;
    while k < want.len()
        invariant
            k <= want.len(),
            at + want.len() <= chars.len(),
            want@ == word@,
            forall|j: int| 0 <= j < k ==> chars@[at + j] == want@[j],
        decreases want.len() - k,
    {
        if chars[at + k] != want[k] {
            proof {
                assert(chars@.subrange(at as int, at + want.len())[k as int] == chars@[at + k]);
            }
            return false;
        }
        k = k + 1;
    }
    proof {
        assert(chars@.subrange(at as int, at + want.len()) =~= want@);
    }
    true
}

/// The text holds the word somewhere.
pub open spec fn contains_text(s: Seq<char>, word: Seq<char>) -> bool {
    exists|at: int| text_at(s, at, word)
}

/// Tells whether the characters hold the word somewhere.
pub fn has_text(chars: &Vec<char>, word: &str) -> (r: bool)
    ensures
        r == contains_text(chars@, word@),
{
    let mut at: usize = 0;
    while at < chars.len()
        invariant
            at <= chars.len(),
            forall|k: int| 0 <= k < at ==> !text_at(chars@, k, word@),
        decreases chars.len() - at,
    {
        if has_text_at(chars, at, word) {
            return true;
        }
        at = at + 1;
    }
    if has_text_at(chars, at, word) {
        return true;
    }
    proof {
        assert forall|k: int| !text_at(chars@, k, word@) by {
            if 0 <= k <= chars.len() {
            }
        }
    }
    false
}

} // verus!
