//! Strings as sequences of characters.

use vstd::prelude::*;

verus! {

/// The characters of a string, in order.
///
/// Trusted: `str::chars` followed by `Iterator::collect`; the result holds
/// the characters of `s`, which are its view, one for one.
#[verifier::external_body]
pub(crate) fn chars_of(s: &str) -> (chars: Vec<char>)
    ensures
        chars@ == s@,
{
    s.chars().collect()
}

/// The string made of the given characters, in order.
///
/// Trusted: `String::from_iter` over the characters; the view of the result
/// is the sequence it was made from.
#[verifier::external_body]
pub(crate) fn string_of(chars: &Vec<char>) -> (s: String)
    ensures
        s@ == chars@,
{
    String::from_iter(chars.iter())
}

/// Whether Unicode gives the character the property `White_Space`.
pub uninterp spec fn unicode_whitespace(c: char) -> bool;

/// Trusted: `char::is_whitespace`, which depends on the character alone.
#[verifier::external_body]
pub(crate) fn is_whitespace(c: char) -> (b: bool)
    ensures
        b == unicode_whitespace(c),
{
    c.is_whitespace()
}

/// Whether Unicode gives the character the property `Alphabetic`.
pub uninterp spec fn unicode_alphabetic(c: char) -> bool;

/// Trusted: `char::is_alphabetic`, which depends on the character alone.
#[verifier::external_body]
pub(crate) fn is_alphabetic(c: char) -> (b: bool)
    ensures
        b == unicode_alphabetic(c),
{
    c.is_alphabetic()
}

/// Whether Unicode gives the character the property `Alphabetic` or makes
/// it a number.
pub uninterp spec fn unicode_alphanumeric(c: char) -> bool;

/// Trusted: `char::is_alphanumeric`, which depends on the character alone.
#[verifier::external_body]
pub(crate) fn is_alphanumeric(c: char) -> (b: bool)
    ensures
        b == unicode_alphanumeric(c),
{
    c.is_alphanumeric()
}

/// Whether Unicode gives the character the property `Uppercase`.
pub uninterp spec fn unicode_uppercase(c: char) -> bool;

/// Trusted: `char::is_uppercase`, which depends on the character alone.
#[verifier::external_body]
pub(crate) fn is_uppercase(c: char) -> (b: bool)
    ensures
        b == unicode_uppercase(c),
{
    c.is_uppercase()
}

/// Every character of `text` is white space.
pub open spec fn all_whitespace(text: Seq<char>) -> bool {
    forall|i: int| 0 <= i < text.len() ==> unicode_whitespace(#[trigger] text[i])
}

/// Whether a string holds nothing but white space.
pub fn is_blank(text: &str) -> (b: bool)
    ensures
        b == all_whitespace(text@),
{
    let chars = chars_of(text);
    let mut i: usize = 0;
    while i < chars.len()
        invariant
            i <= chars@.len(),
            chars@ == text@,
            forall|j: int| 0 <= j < i ==> unicode_whitespace(#[trigger] text@[j]),
        decreases chars@.len() - i,
    {
        if !is_whitespace(chars[i]) {
            return false;
        }
        i += 1;
    }
    true
}

/// The digit of value `d` in base 62: `0` to `9`, then `a` to `z`, then `A`
/// to `Z`.
pub open spec fn digit62(d: int) -> char {
    if d < 10 {
        (48 + d) as char
    } else if d < 36 {
        (97 + d - 10) as char
    } else {
        (65 + d - 36) as char
    }
}

/// The number `n` written in base 62, most significant digit first.
pub open spec fn base62(n: nat) -> Seq<char>
    decreases n,
{
    if n < 62 {
        seq![digit62(n as int)]
    } else {
        base62(n / 62).push(digit62((n % 62) as int))
    }
}

fn digit62_of(d: u8) -> (c: char)
    requires
        d < 62,
    ensures
        c == digit62(d as int),
{
    if d < 10 {
        (48 + d) as char
    } else if d < 36 {
        (97 + d - 10) as char
    } else {
        (65 + d - 36) as char
    }
}

/// Writes a number in base 62.
pub fn to_base62(n: u64) -> (s: String)
    ensures
        s@ == base62(n as nat),
{
    let mut digits: Vec<char> = Vec::new();
    let mut rest: u64 = n;
    // The digits come out least significant first.
    while rest >= 62
        invariant
            base62(n as nat) == base62(rest as nat) + digits@.reverse(),
        decreases rest,
    {
        let d = (rest % 62) as u8;
        let ghost before = digits@;
        digits.push(digit62_of(d));
        proof {
            assert(digits@.reverse() =~= seq![digit62(d as int)] + before.reverse());
            assert(base62(rest as nat) == base62((rest / 62) as nat).push(digit62(d as int)));
            assert(base62((rest / 62) as nat).push(digit62(d as int)) + before.reverse()
                =~= base62((rest / 62) as nat) + digits@.reverse());
        }
        rest = rest / 62;
    }
    let ghost before = digits@;
    digits.push(digit62_of(rest as u8));
    proof {
        assert(digits@.reverse() =~= seq![digit62(rest as int)] + before.reverse());
    }
    let mut out: Vec<char> = Vec::new();
    let mut i: usize = digits.len();
    while i > 0
        invariant
            i <= digits@.len(),
            out@ == digits@.reverse().subrange(0, digits@.len() - i),
        decreases i,
    {
        i -= 1;
        out.push(digits[i]);
        assert(out@ =~= digits@.reverse().subrange(0, digits@.len() - i));
    }
    assert(out@ =~= digits@.reverse());
    string_of(&out)
}

/// The number `n` written in decimal.
pub open spec fn decimal(n: nat) -> Seq<char>
    decreases n,
{
    if n < 10 {
        seq![digit62(n as int)]
    } else {
        decimal(n / 10).push(digit62((n % 10) as int))
    }
}

/// Writes a number in decimal.
pub fn to_decimal(n: usize) -> (s: String)
    ensures
        s@ == decimal(n as nat),
{
    let mut digits: Vec<char> = Vec::new();
    let mut rest: usize = n;
    // The digits come out least significant first.
    while rest >= 10
        invariant
            decimal(n as nat) == decimal(rest as nat) + digits@.reverse(),
        decreases rest,
    {
        let d = (rest % 10) as u8;
        let ghost before = digits@;
        digits.push(digit62_of(d));
        proof {
            assert(digits@.reverse() =~= seq![digit62(d as int)] + before.reverse());
            assert(decimal(rest as nat) == decimal((rest / 10) as nat).push(digit62(d as int)));
            assert(decimal((rest / 10) as nat).push(digit62(d as int)) + before.reverse()
                =~= decimal((rest / 10) as nat) + digits@.reverse());
        }
        rest = rest / 10;
    }
    let ghost before = digits@;
    digits.push(digit62_of(rest as u8));
    proof {
        assert(digits@.reverse() =~= seq![digit62(rest as int)] + before.reverse());
    }
    let mut out: Vec<char> = Vec::new();
    let mut i: usize = digits.len();
    while i > 0
        invariant
            i <= digits@.len(),
            out@ == digits@.reverse().subrange(0, digits@.len() - i),
        decreases i,
    {
        i -= 1;
        out.push(digits[i]);
        assert(out@ =~= digits@.reverse().subrange(0, digits@.len() - i));
    }
    assert(out@ =~= digits@.reverse());
    string_of(&out)
}

/// The first position from `from` on that holds no white space, or the end.
pub open spec fn skip_space(text: Seq<char>, from: int) -> int
    decreases text.len() - from,
{
    if 0 <= from < text.len() && unicode_whitespace(text[from]) {
        skip_space(text, from + 1)
    } else {
        from
    }
}

/// The first position from `from` on that holds white space, or the end.
pub open spec fn skip_word(text: Seq<char>, from: int) -> int
    decreases text.len() - from,
{
    if 0 <= from < text.len() && !unicode_whitespace(text[from]) {
        skip_word(text, from + 1)
    } else {
        from
    }
}

/// The position after the last character before `to` that is no white
/// space, but no less than `from`.
pub open spec fn trim_end(text: Seq<char>, from: int, to: int) -> int
    decreases to,
{
    if from < to && 0 < to <= text.len() && unicode_whitespace(text[to - 1]) {
        trim_end(text, from, to - 1)
    } else {
        to
    }
}

/// A text without the white space at its start and at its end.
pub open spec fn trimmed(text: Seq<char>) -> Seq<char> {
    text.subrange(
        skip_space(text, 0),
        trim_end(text, skip_space(text, 0), text.len() as int),
    )
}

/// The words of a text from `from` on: what stands between runs of white
/// space.
pub open spec fn words_from(text: Seq<char>, from: int) -> Seq<Seq<char>>
    decreases text.len() - from,
{
    let start = skip_space(text, from);
    let end = skip_word(text, start);
    if from < 0 || from >= text.len() || start >= text.len() || end <= from || end
        > text.len() || start < from {
        Seq::empty()
    } else {
        seq![text.subrange(start, end)] + words_from(text, end)
    }
}

/// Where white space ends and where a word ends lie no earlier than where
/// the search began, and no later than the end.
pub proof fn lemma_skips(text: Seq<char>, from: int)
    requires
        0 <= from <= text.len(),
    ensures
        from <= skip_space(text, from) <= text.len(),
        from <= skip_word(text, from) <= text.len(),
        skip_space(text, from) < text.len() ==> !unicode_whitespace(
            text[skip_space(text, from)],
        ),
        from < text.len() && !unicode_whitespace(text[from]) ==> skip_word(text, from) > from,
    decreases text.len() - from,
{
    if from < text.len() {
        lemma_skips(text, from + 1);
    }
}

/// The position after the white space that starts at `from`, before `to`.
pub(crate) fn skip_space_in(chars: &Vec<char>, from: usize, to: usize) -> (r: usize)
    requires
        from <= to <= chars@.len(),
    ensures
        from <= r <= to,
        r == skip_space(chars@.subrange(0, to as int), from as int),
{
    let ghost text = chars@.subrange(0, to as int);
    let mut a: usize = from;
    while a < to && is_whitespace(chars[a])
        invariant
            from <= a <= to <= chars@.len(),
            text == chars@.subrange(0, to as int),
            skip_space(text, from as int) == skip_space(text, a as int),
        decreases to - a,
    {
        assert(text[a as int] == chars@[a as int]);
        a += 1;
    }
    proof {
        if a < to {
            assert(text[a as int] == chars@[a as int]);
        }
    }
    a
}

/// The position after the word that starts at `from`, before `to`.
pub(crate) fn skip_word_in(chars: &Vec<char>, from: usize, to: usize) -> (r: usize)
    requires
        from <= to <= chars@.len(),
    ensures
        from <= r <= to,
        r == skip_word(chars@.subrange(0, to as int), from as int),
{
    let ghost text = chars@.subrange(0, to as int);
    let mut a: usize = from;
    while a < to && !is_whitespace(chars[a])
        invariant
            from <= a <= to <= chars@.len(),
            text == chars@.subrange(0, to as int),
            skip_word(text, from as int) == skip_word(text, a as int),
        decreases to - a,
    {
        assert(text[a as int] == chars@[a as int]);
        a += 1;
    }
    proof {
        if a < to {
            assert(text[a as int] == chars@[a as int]);
        }
    }
    a
}

/// A copy of the characters from `from` up to `to`.
pub(crate) fn slice_of(chars: &Vec<char>, from: usize, to: usize) -> (r: Vec<char>)
    requires
        from <= to <= chars@.len(),
    ensures
        r@ == chars@.subrange(from as int, to as int),
{
    let mut r: Vec<char> = Vec::new();
    let mut i: usize = from;
    while i < to
        invariant
            from <= i <= to <= chars@.len(),
            r@ == chars@.subrange(from as int, i as int),
        decreases to - i,
    {
        r.push(chars[i]);
        assert(r@ =~= chars@.subrange(from as int, i + 1));
        i += 1;
    }
    r
}

/// Removes the white space at the start and at the end of a text.
pub fn trim(text: &Vec<char>) -> (r: Vec<char>)
    ensures
        r@ == trimmed(text@),
{
    let len = text.len();
    assert(text@.subrange(0, len as int) =~= text@);
    let start = skip_space_in(text, 0, len);
    let mut end: usize = len;
    while start < end && is_whitespace(text[end - 1])
        invariant
            start <= end <= len == text@.len(),
            trim_end(text@, start as int, len as int) == trim_end(text@, start as int, end as int),
        decreases end,
    {
        end -= 1;
    }
    slice_of(text, start, end)
}

/// Splits a text into its words.
pub fn split_words(text: &Vec<char>) -> (words: Vec<Vec<char>>)
    ensures
        words@.len() == words_from(text@, 0).len(),
        forall|i: int| 0 <= i < words@.len() ==> (#[trigger] words@[i])@ == words_from(text@, 0)[i],
{
    let len = text.len();
    let mut words: Vec<Vec<char>> = Vec::new();
    let mut pos: usize = 0;
    let ghost all = words_from(text@, 0);
    let ghost done: Seq<Seq<char>> = Seq::empty();
    assert(text@.subrange(0, len as int) =~= text@);
    assert(all =~= done + words_from(text@, 0));
    loop
        invariant
            pos <= len == text@.len(),
            text@.subrange(0, len as int) == text@,
            all == words_from(text@, 0),
            all == done + words_from(text@, pos as int),
            words@.len() == done.len(),
            forall|i: int| 0 <= i < words@.len() ==> (#[trigger] words@[i])@ == done[i],
        ensures
            words@.len() == all.len(),
            forall|i: int| 0 <= i < words@.len() ==> (#[trigger] words@[i])@ == all[i],
        decreases len - pos,
    {
        let start = skip_space_in(text, pos, len);
        if start >= len {
            assert(words_from(text@, pos as int) =~= Seq::<Seq<char>>::empty());
            assert(all =~= done);
            break ;
        }
        let end = skip_word_in(text, start, len);
        proof {
            lemma_skips(text@, pos as int);
            lemma_skips(text@, start as int);
            assert(end > start);
        }
        let word = slice_of(text, start, end);
        words.push(word);
        proof {
            let rest = words_from(text@, end as int);
            assert(words_from(text@, pos as int) == seq![text@.subrange(start as int, end as int)]
                + rest);
            let next = done.push(text@.subrange(start as int, end as int));
            assert(all =~= next + rest);
            done = next;
        }
        pos = end;
    }
    words
}

} // verus!
