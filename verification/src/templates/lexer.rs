//! The lexer of the template language.

use crate::errors::DjangoRustError;
use crate::templates::parser::{pairs_view, strings_view, PairModel};
use crate::text::{
    chars_of, is_alphabetic, is_alphanumeric, is_uppercase, is_whitespace, skip_space, skip_word,
    slice_of, split_words, string_of, trim, trimmed, unicode_alphabetic, unicode_alphanumeric,
    unicode_uppercase, unicode_whitespace, words_from,
};
use vstd::prelude::*;
use vstd::string::*;

verus! {

/// Where a scan of markup stands: between tags, inside a tag, or inside an
/// attribute value that the given quote character opened.
#[derive(Clone, Copy, Debug, PartialEq, Eq, Structural)]
pub enum ScanState {
    OutsideTag,
    InsideTag,
    InsideAttrValue(char),
}

/// The last position at or before `j` that holds no white space, or `0`.
pub open spec fn skip_back(chars: Seq<char>, j: int) -> int
    decreases j,
{
    if j > 0 && j < chars.len() && unicode_whitespace(chars[j]) {
        skip_back(chars, j - 1)
    } else {
        j
    }
}

/// Whether the quote at `i` opens an attribute value: the last character
/// before it that is no white space is `=`.
pub open spec fn opens_value(chars: Seq<char>, i: int) -> bool {
    i > 0 && chars[skip_back(chars, i - 1)] == '='
}

/// Where the scan stands after the character at `i`, if it stood in `state`
/// before it.
pub open spec fn scan_step(state: ScanState, chars: Seq<char>, i: int) -> ScanState {
    let ch = chars[i];
    match state {
        ScanState::OutsideTag => if ch == '<' && i + 1 < chars.len() && (unicode_alphabetic(
            chars[i + 1],
        ) || chars[i + 1] == '/') {
            ScanState::InsideTag
        } else {
            state
        },
        ScanState::InsideTag => if ch == '>' {
            ScanState::OutsideTag
        } else if (ch == '"' || ch == '\'') && opens_value(chars, i) {
            ScanState::InsideAttrValue(ch)
        } else {
            state
        },
        ScanState::InsideAttrValue(quote) => if ch == quote {
            ScanState::InsideTag
        } else {
            state
        },
    }
}

/// Where the scan stands after the first `n` characters.
pub open spec fn state_after(chars: Seq<char>, n: nat) -> ScanState
    decreases n,
{
    if n == 0 {
        ScanState::OutsideTag
    } else {
        scan_step(state_after(chars, (n - 1) as nat), chars, n - 1)
    }
}

/// The position from `j` on where a template tag ends: that of the first
/// `%}`, or of the last character where there is none.
pub open spec fn tag_end(chars: Seq<char>, j: int) -> int
    decreases chars.len() - j,
{
    if 0 <= j && j + 1 < chars.len() && !(chars[j] == '%' && chars[j + 1] == '}') {
        tag_end(chars, j + 1)
    } else {
        j
    }
}

/// The first word of a text: what stands between the white space at its
/// start and the next white space. Empty where the text holds no word.
pub open spec fn first_word(text: Seq<char>) -> Seq<char> {
    text.subrange(skip_space(text, 0), skip_word(text, skip_space(text, 0)))
}

/// Whether a tag name is that of a block tag, which must not stand inside an
/// attribute value.
pub open spec fn is_block_tag(name: Seq<char>) -> bool {
    name == "if"@ || name == "elif"@ || name == "else"@ || name == "endif"@ || name == "for"@
        || name == "endfor"@
}

/// The name of the template tag that starts at `i`, where the scan stands
/// inside an attribute value there and `{%` follows.
pub open spec fn tag_name_at(chars: Seq<char>, i: int) -> Seq<char> {
    first_word(chars.subrange(i + 2, tag_end(chars, i + 2)))
}

/// Whether a block tag starts at `i` inside an attribute value.
pub open spec fn offends_at(chars: Seq<char>, i: int) -> bool {
    &&& 0 <= i && i + 1 < chars.len()
    &&& state_after(chars, i as nat) is InsideAttrValue
    &&& chars[i] != state_after(chars, i as nat)->InsideAttrValue_0
    &&& chars[i] == '{'
    &&& chars[i + 1] == '%'
    &&& is_block_tag(tag_name_at(chars, i))
}

/// What the error for a block tag inside an attribute value says.
pub open spec fn block_tag_message(name: Seq<char>) -> Seq<char> {
    "Template error: '{% "@ + name
        + " %}' block tag found inside an HTML attribute value. Block tags cannot be used inside attribute values because they insert DOM comment anchors that browsers discard in attribute context, causing VDOM path index mismatches.\n\nUse an inline conditional instead:\n  class=\"base {{ 'extra' if condition else '' }}\"\n\nSee: https://github.com/djust-org/djust/issues/388"@
}

/// The first word of the characters from `from` up to `to`.
fn first_word_of(chars: &Vec<char>, from: usize, to: usize) -> (word: Vec<char>)
    requires
        from <= to <= chars@.len(),
    ensures
        word@ == first_word(chars@.subrange(from as int, to as int)),
{
    let ghost text = chars@.subrange(from as int, to as int);
    let mut a: usize = from;
    while a < to && is_whitespace(chars[a])
        invariant
            from <= a <= to <= chars@.len(),
            text == chars@.subrange(from as int, to as int),
            skip_space(text, 0) == skip_space(text, a - from),
        decreases to - a,
    {
        assert(text[a - from] == chars@[a as int]);
        a += 1;
    }
    proof {
        if a < to {
            assert(text[a - from] == chars@[a as int]);
        }
    }
    let mut b: usize = a;
    let mut word: Vec<char> = Vec::new();
    while b < to && !is_whitespace(chars[b])
        invariant
            from <= a <= b <= to <= chars@.len(),
            text == chars@.subrange(from as int, to as int),
            skip_word(text, a - from) == skip_word(text, b - from),
            word@ == text.subrange(a - from, b - from),
        decreases to - b,
    {
        assert(text[b - from] == chars@[b as int]);
        word.push(chars[b]);
        assert(word@ =~= text.subrange(a - from, b + 1 - from));
        b += 1;
    }
    proof {
        if b < to {
            assert(text[b - from] == chars@[b as int]);
        }
    }
    word
}

/// Whether the characters spell the given word.
fn spells(word: &Vec<char>, wanted: &str) -> (b: bool)
    ensures
        b == (word@ == wanted@),
{
    let other = chars_of(wanted);
    if word.len() != other.len() {
        return false;
    }
    let mut i: usize = 0;
    while i < word.len()
        invariant
            i <= word@.len(),
            word@.len() == other@.len(),
            other@ == wanted@,
            forall|j: int| 0 <= j < i ==> word@[j] == other@[j],
        decreases word@.len() - i,
    {
        if word[i] != other[i] {
            return false;
        }
        i += 1;
    }
    assert(word@ =~= other@);
    true
}

/// The error for the block tag `name` inside an attribute value.
fn block_tag_error(name: &Vec<char>) -> (e: DjangoRustError)
    ensures
        e is TemplateError,
        e.message() == block_tag_message(name@),
{
    let mut message = String::from_str("Template error: '{% ");
    message.append(string_of(name).as_str());
    message.append(
        " %}' block tag found inside an HTML attribute value. Block tags cannot be used inside attribute values because they insert DOM comment anchors that browsers discard in attribute context, causing VDOM path index mismatches.\n\nUse an inline conditional instead:\n  class=\"base {{ 'extra' if condition else '' }}\"\n\nSee: https://github.com/djust-org/djust/issues/388",
    );
    DjangoRustError::TemplateError(message)
}

/// Validates that the block tags `{% if %}`, `{% elif %}`, `{% else %}`,
/// `{% endif %}`, `{% for %}` and `{% endfor %}` do not appear inside HTML
/// attribute values (between quote characters).
///
/// Inside an attribute value a block tag would put a comment anchor where a
/// browser cannot place one, and the paths of later patches would no longer
/// lead to the nodes they were made for. The error names the first such tag.
pub fn validate_no_block_tags_in_attrs(source: &str) -> (r: Result<(), DjangoRustError>)
    ensures
        match r {
            Ok(_) => forall|i: int| !offends_at(source@, i),
            Err(e) => exists|i: int|
                {
                    &&& #[trigger] offends_at(source@, i)
                    &&& forall|j: int| 0 <= j < i ==> !offends_at(source@, j)
                    &&& e is TemplateError
                    &&& e.message() == block_tag_message(tag_name_at(source@, i))
                },
        },
{
    let chars = chars_of(source);
    let len = chars.len();
    let mut state = ScanState::OutsideTag;
    let mut i: usize = 0;
    while i < len
        invariant
            i <= len == chars@.len(),
            chars@ == source@,
            state == state_after(chars@, i as nat),
            forall|j: int| 0 <= j < i ==> !offends_at(chars@, j),
        decreases len - i,
    {
        let ch = chars[i];
        match state {
            ScanState::OutsideTag => {
                if ch == '<' && i + 1 < len {
                    let next = chars[i + 1];
                    // Tags start with a letter or a slash, not with `<!` or a space.
                    if is_alphabetic(next) || next == '/' {
                        state = ScanState::InsideTag;
                    }
                }
            },
            ScanState::InsideTag => {
                if ch == '>' {
                    state = ScanState::OutsideTag;
                } else if (ch == '"' || ch == '\'') && i > 0 {
                    // A quote opens a value only after `=`, white space apart.
                    let mut j: usize = i - 1;
                    while j > 0 && is_whitespace(chars[j])
                        invariant
                            j < i <= chars@.len(),
                            skip_back(chars@, i - 1) == skip_back(chars@, j as int),
                        decreases j,
                    {
                        j -= 1;
                    }
                    if chars[j] == '=' {
                        state = ScanState::InsideAttrValue(ch);
                    }
                }
            },
            ScanState::InsideAttrValue(quote) => {
                if ch == quote {
                    state = ScanState::InsideTag;
                } else if ch == '{' && i + 1 < len && chars[i + 1] == '%' {
                    let tag_start = i + 2;
                    let mut j: usize = tag_start;
                    while j < len && j + 1 < len && !(chars[j] == '%' && chars[j + 1] == '}')
                        invariant
                            tag_start <= j <= len == chars@.len(),
                            tag_end(chars@, tag_start as int) == tag_end(chars@, j as int),
                        decreases len - j,
                    {
                        j += 1;
                    }
                    let tag_name = first_word_of(&chars, tag_start, j);
                    if spells(&tag_name, "if") || spells(&tag_name, "elif") || spells(
                        &tag_name,
                        "else",
                    ) || spells(&tag_name, "endif") || spells(&tag_name, "for") || spells(
                        &tag_name,
                        "endfor",
                    ) {
                        assert(offends_at(chars@, i as int));
                        return Err(block_tag_error(&tag_name));
                    }
                }
            },
        }
        assert(!offends_at(chars@, i as int));
        i += 1;
    }
    assert forall|i: int| !offends_at(source@, i) by {
        if 0 <= i && i + 1 < chars@.len() {
        }
    }
    Ok(())
}

/// What a token is, as plain mathematical data.
pub enum TokenModel {
    Text(Seq<char>),
    Variable(Seq<char>),
    Tag(Seq<char>, Seq<Seq<char>>),
    Comment,
    JsxComponent {
        name: Seq<char>,
        props: Seq<PairModel>,
        children: Seq<TokenModel>,
        self_closing: bool,
    },
}

/// A token of the template language.
#[derive(Debug, PartialEq)]
pub enum Token {
    /// Literal text.
    Text(String),
    /// `{{ var }}`.
    Variable(String),
    /// `{% tag args %}`.
    Tag(String, Vec<String>),
    /// `{# comment #}`.
    Comment,
    /// `<Button prop="value">children</Button>`.
    JsxComponent {
        name: String,
        props: Vec<(String, String)>,
        children: Vec<Token>,
        self_closing: bool,
    },
}

/// The model of a token.
pub open spec fn token_view(token: Token) -> TokenModel
    decreases token,
{
    match token {
        Token::Text(text) => TokenModel::Text(text@),
        Token::Variable(name) => TokenModel::Variable(name@),
        Token::Tag(name, args) => TokenModel::Tag(name@, strings_view(args@)),
        Token::Comment => TokenModel::Comment,
        Token::JsxComponent { name, props, children, self_closing } => TokenModel::JsxComponent {
            name: name@,
            props: pairs_view(props@),
            children: Seq::new(
                children@.len(),
                |i: int|
                    if 0 <= i < children@.len() {
                        token_view(children@[i])
                    } else {
                        arbitrary()
                    },
            ),
            self_closing,
        },
    }
}

impl View for Token {
    type V = TokenModel;

    open spec fn view(&self) -> TokenModel {
        token_view(*self)
    }
}

/// The models of a sequence of tokens.
pub open spec fn tokens_view(tokens: Seq<Token>) -> Seq<TokenModel> {
    Seq::new(tokens.len(), |i: int| tokens[i]@)
}

/// The classes of characters that the lexer skips over or collects.
#[derive(Clone, Copy, Debug, PartialEq, Eq, Structural)]
pub enum CharClass {
    /// Letters, digits and `_`: the name of a component.
    Name,
    /// A space, a line feed or a tab.
    Blank,
    /// Anything but `=` and white space: the name of a property.
    PropName,
    /// A space or `=`.
    SpaceOrEquals,
    /// Anything but the given character.
    Not(char),
    /// Anything but `>` and white space: the name of a closing tag.
    TagName,
}

/// Whether a character belongs to a class.
pub open spec fn in_class(c: char, class: CharClass) -> bool {
    match class {
        CharClass::Name => unicode_alphanumeric(c) || c == '_',
        CharClass::Blank => c == ' ' || c == '\n' || c == '\t',
        CharClass::PropName => c != '=' && !unicode_whitespace(c),
        CharClass::SpaceOrEquals => c == ' ' || c == '=',
        CharClass::Not(other) => c != other,
        CharClass::TagName => c != '>' && !unicode_whitespace(c),
    }
}

/// The first position from `from` on whose character is not of the class,
/// or the end.
pub open spec fn skip_class(chars: Seq<char>, from: int, class: CharClass) -> int
    decreases chars.len() - from,
{
    if 0 <= from < chars.len() && in_class(chars[from], class) {
        skip_class(chars, from + 1, class)
    } else {
        from
    }
}

/// The position of the first pair `a`, `b` of characters from `from` on, or
/// the length where there is none.
pub open spec fn find_pair(chars: Seq<char>, from: int, a: char, b: char) -> int
    decreases chars.len() - from,
{
    if from < 0 || from >= chars.len() {
        chars.len() as int
    } else if from + 1 < chars.len() && chars[from] == a && chars[from + 1] == b {
        from
    } else {
        find_pair(chars, from + 1, a, b)
    }
}

/// The position of the `}` that closes the brace opened before `from`, where
/// `depth` braces are open at `from`; the length where none closes it.
pub open spec fn brace_end(chars: Seq<char>, from: int, depth: nat) -> int
    decreases chars.len() - from,
{
    if from < 0 || from >= chars.len() {
        chars.len() as int
    } else if chars[from] == '{' {
        brace_end(chars, from + 1, depth + 1)
    } else if chars[from] == '}' {
        if depth <= 1 {
            from
        } else {
            brace_end(chars, from + 1, (depth - 1) as nat)
        }
    } else {
        brace_end(chars, from + 1, depth)
    }
}

/// The position after `at`, but no further than the end.
pub open spec fn step_over(chars: Seq<char>, at: int) -> int {
    if at < chars.len() {
        at + 1
    } else {
        at
    }
}

/// Where the value of a property ends and where the lexer goes on after it.
/// A value stands between quotes, or between braces, which may hold braces;
/// anything else is no value.
pub open spec fn prop_value_span(chars: Seq<char>, at: int) -> (int, int, int) {
    if 0 <= at < chars.len() && (chars[at] == '"' || chars[at] == '\'') {
        let end = skip_class(chars, at + 1, CharClass::Not(chars[at]));
        (at + 1, end, step_over(chars, end))
    } else if 0 <= at < chars.len() && chars[at] == '{' {
        let end = brace_end(chars, at + 1, 1);
        (at + 1, end, step_over(chars, end))
    } else {
        (at, at, at)
    }
}

/// The properties of a component from `from` on, and where they end: at `/`,
/// at `>` or at the end. A property starts with a letter; other characters
/// are passed over.
pub open spec fn props_from(chars: Seq<char>, from: int) -> (Seq<PairModel>, int)
    decreases chars.len() - from,
{
    if from < 0 || from >= chars.len() || chars[from] == '/' || chars[from] == '>' {
        (Seq::empty(), from)
    } else if unicode_alphabetic(chars[from]) {
        let name_end = skip_class(chars, from, CharClass::PropName);
        let value_at = skip_class(chars, name_end, CharClass::SpaceOrEquals);
        let (value_start, value_end, after) = prop_value_span(chars, value_at);
        let next = skip_class(chars, after, CharClass::Blank);
        if next <= from || next > chars.len() || value_start > value_end || name_end < from
            || value_start < 0 || value_end > chars.len() {
            (Seq::empty(), from)
        } else {
            let (rest, end) = props_from(chars, next);
            (
                seq![(chars.subrange(from, name_end), chars.subrange(value_start, value_end))]
                    + rest,
                end,
            )
        }
    } else {
        props_from(chars, from + 1)
    }
}

/// Whether the closing tag of the component `name` starts at `at`.
pub open spec fn closes_at(chars: Seq<char>, at: int, name: Seq<char>) -> bool {
    &&& 0 <= at && at + 1 < chars.len()
    &&& chars[at] == '<'
    &&& chars[at + 1] == '/'
    &&& chars.subrange(at + 2, skip_class(chars, at + 2, CharClass::TagName)) == name
}

/// The position from `from` on where the closing tag of the component `name`
/// starts, or the length where it is never closed.
pub open spec fn find_close(chars: Seq<char>, from: int, name: Seq<char>) -> int
    decreases chars.len() - from,
{
    if from < 0 || from >= chars.len() {
        chars.len() as int
    } else if closes_at(chars, from, name) {
        from
    } else {
        find_close(chars, from + 1, name)
    }
}

/// The component that starts at `start`, just after its `<`, and where the
/// lexer goes on after it.
///
/// The name is made of letters, digits and `_`. The properties follow. A `/`
/// after them makes the component self-closing, and the character after the
/// `/` is passed over. Otherwise the text up to the closing tag of the same
/// name, trimmed, is the one child, if there is any text; a component that
/// is never closed has no child and runs to the end.
pub open spec fn jsx_at(chars: Seq<char>, start: int) -> (TokenModel, int) {
    let name_end = skip_class(chars, start, CharClass::Name);
    let name = chars.subrange(start, name_end);
    let (props, end) = props_from(chars, skip_class(chars, name_end, CharClass::Blank));
    if 0 <= end < chars.len() && chars[end] == '/' {
        (
            TokenModel::JsxComponent { name, props, children: Seq::empty(), self_closing: true },
            step_over(chars, end + 1),
        )
    } else {
        let body = step_over(chars, end);
        let close = find_close(chars, body, name);
        if close >= chars.len() || close < body {
            (
                TokenModel::JsxComponent {
                    name,
                    props,
                    children: Seq::empty(),
                    self_closing: false,
                },
                chars.len() as int,
            )
        } else {
            (
                TokenModel::JsxComponent {
                    name,
                    props,
                    children: if close > body {
                        seq![TokenModel::Text(trimmed(chars.subrange(body, close)))]
                    } else {
                        Seq::empty()
                    },
                    self_closing: false,
                },
                step_over(chars, skip_class(chars, close + 2, CharClass::Not('>'))),
            )
        }
    }
}

/// The text collected so far as a token, if there is any.
pub open spec fn flush(current: Seq<char>) -> Seq<TokenModel> {
    if current.len() > 0 {
        seq![TokenModel::Text(current)]
    } else {
        Seq::empty()
    }
}

/// The tag token for what stands between `{%` and `%}`: its first word is
/// the name, the other words are the arguments. Nothing where there is no
/// word.
pub open spec fn tag_tokens(content: Seq<char>) -> Seq<TokenModel> {
    let words = words_from(content, 0);
    if words.len() > 0 {
        seq![TokenModel::Tag(words[0], words.subrange(1, words.len() as int))]
    } else {
        Seq::empty()
    }
}

/// The tokens of the characters from `pos` on, where `current` is the text
/// collected before `pos`.
///
/// `{{ ... }}` gives a variable, `{% ... %}` a tag, `{# ... #}` a comment,
/// and `<` before an uppercase letter starts a component; everything else is
/// text. A variable, a tag or a comment that is never closed swallows the
/// rest of the input.
pub open spec fn lex_from(chars: Seq<char>, pos: int, current: Seq<char>) -> Seq<TokenModel>
    decreases chars.len() - pos,
{
    if pos < 0 || pos >= chars.len() {
        flush(current)
    } else if chars[pos] == '<' && pos + 1 < chars.len() && unicode_uppercase(chars[pos + 1]) {
        let (token, next) = jsx_at(chars, pos + 1);
        flush(current) + seq![token] + (if pos < next <= chars.len() {
            lex_from(chars, next, Seq::empty())
        } else {
            Seq::empty()
        })
    } else if chars[pos] == '{' && pos + 1 < chars.len() && (chars[pos + 1] == '{' || chars[pos
        + 1] == '%' || chars[pos + 1] == '#') {
        let kind = chars[pos + 1];
        let close = find_pair(
            chars,
            pos + 2,
            if kind == '{' {
                '}'
            } else {
                kind
            },
            '}',
        );
        if close + 2 > chars.len() || close < pos + 2 {
            flush(current)
        } else {
            flush(current) + (if kind == '{' {
                seq![TokenModel::Variable(trimmed(chars.subrange(pos + 2, close)))]
            } else if kind == '%' {
                tag_tokens(chars.subrange(pos + 2, close))
            } else {
                seq![TokenModel::Comment]
            }) + lex_from(chars, close + 2, Seq::empty())
        }
    } else {
        lex_from(chars, pos + 1, current.push(chars[pos]))
    }
}

/// The tokens of a template.
pub open spec fn tokenize_spec(source: Seq<char>) -> Seq<TokenModel> {
    lex_from(source, 0, Seq::empty())
}

/// Whether a character belongs to a class.
fn is_in_class(c: char, class: CharClass) -> (b: bool)
    ensures
        b == in_class(c, class),
{
    match class {
        CharClass::Name => is_alphanumeric(c) || c == '_',
        CharClass::Blank => c == ' ' || c == '\n' || c == '\t',
        CharClass::PropName => c != '=' && !is_whitespace(c),
        CharClass::SpaceOrEquals => c == ' ' || c == '=',
        CharClass::Not(other) => c != other,
        CharClass::TagName => c != '>' && !is_whitespace(c),
    }
}

/// The first position from `from` on whose character is not of the class.
fn skip(chars: &Vec<char>, from: usize, class: CharClass) -> (r: usize)
    requires
        from <= chars@.len(),
    ensures
        from <= r <= chars@.len(),
        r == skip_class(chars@, from as int, class),
{
    let mut pos: usize = from;
    while pos < chars.len() && is_in_class(chars[pos], class)
        invariant
            from <= pos <= chars@.len(),
            skip_class(chars@, from as int, class) == skip_class(chars@, pos as int, class),
        decreases chars@.len() - pos,
    {
        pos += 1;
    }
    pos
}

/// The position after `at`, but no further than the end.
fn step(chars: &Vec<char>, at: usize) -> (r: usize)
    requires
        at <= chars@.len(),
    ensures
        at <= r <= chars@.len(),
        r == step_over(chars@, at as int),
{
    if at < chars.len() {
        at + 1
    } else {
        at
    }
}

/// The position of the first pair `a`, `b` from `from` on.
fn find(chars: &Vec<char>, from: usize, a: char, b: char) -> (r: usize)
    requires
        from <= chars@.len(),
    ensures
        from <= r <= chars@.len(),
        r == find_pair(chars@, from as int, a, b),
        r < chars@.len() ==> r + 1 < chars@.len(),
{
    let len = chars.len();
    let mut pos: usize = from;
    while pos < len
        invariant
            from <= pos <= len == chars@.len(),
            find_pair(chars@, from as int, a, b) == find_pair(chars@, pos as int, a, b),
        decreases len - pos,
    {
        if pos + 1 < len && chars[pos] == a && chars[pos + 1] == b {
            return pos;
        }
        pos += 1;
    }
    len
}

/// The position of the `}` that closes the brace opened before `from`.
fn find_brace_end(chars: &Vec<char>, from: usize) -> (r: usize)
    requires
        1 <= from <= chars@.len(),
    ensures
        from <= r <= chars@.len(),
        r == brace_end(chars@, from as int, 1),
{
    let len = chars.len();
    let mut pos: usize = from;
    let mut depth: usize = 1;
    while pos < len
        invariant
            1 <= from <= pos <= len == chars@.len(),
            1 <= depth <= 1 + (pos - from),
            brace_end(chars@, from as int, 1) == brace_end(chars@, pos as int, depth as nat),
        decreases len - pos,
    {
        if chars[pos] == '{' {
            depth += 1;
        } else if chars[pos] == '}' {
            if depth <= 1 {
                return pos;
            }
            depth -= 1;
        }
        pos += 1;
    }
    len
}

/// The string made of the characters from `from` up to `to`.
fn text_of(chars: &Vec<char>, from: usize, to: usize) -> (s: String)
    requires
        from <= to <= chars@.len(),
    ensures
        s@ == chars@.subrange(from as int, to as int),
{
    string_of(&slice_of(chars, from, to))
}

/// The properties of a component from `from` on, and where they end.
fn parse_props(chars: &Vec<char>, from: usize) -> (r: (Vec<(String, String)>, usize))
    requires
        from <= chars@.len(),
    ensures
        from <= r.1 <= chars@.len(),
        (pairs_view(r.0@), r.1 as int) == props_from(chars@, from as int),
{
    let len = chars.len();
    let mut props: Vec<(String, String)> = Vec::new();
    let mut pos: usize = from;
    let ghost all = props_from(chars@, from as int);
    assert(pairs_view(props@) + all.0 =~= all.0);
    loop
        invariant
            from <= pos <= len == chars@.len(),
            all == props_from(chars@, from as int),
            all.0 == pairs_view(props@) + props_from(chars@, pos as int).0,
            all.1 == props_from(chars@, pos as int).1,
        ensures
            from <= pos <= len,
            (pairs_view(props@), pos as int) == all,
        decreases len - pos,
    {
        if pos >= len || chars[pos] == '/' || chars[pos] == '>' {
            assert(pairs_view(props@) + Seq::<PairModel>::empty() =~= pairs_view(props@));
            break ;
        }
        if is_alphabetic(chars[pos]) {
            let name_end = skip(chars, pos, CharClass::PropName);
            let value_at = skip(chars, name_end, CharClass::SpaceOrEquals);
            let (value_start, value_end, after) = if value_at < len && (chars[value_at] == '"'
                || chars[value_at] == '\'') {
                let end = skip(chars, value_at + 1, CharClass::Not(chars[value_at]));
                (value_at + 1, end, step(chars, end))
            } else if value_at < len && chars[value_at] == '{' {
                let end = find_brace_end(chars, value_at + 1);
                (value_at + 1, end, step(chars, end))
            } else {
                (value_at, value_at, value_at)
            };
            let next = skip(chars, after, CharClass::Blank);
            proof {
                // A property name starts with a letter, so it is not empty.
                assert(unicode_alphabetic(chars@[pos as int]));
            }
            if next <= pos {
                // The first character of a name is no `=` and no white space
                // where it is a letter; otherwise nothing more is read.
                assert(pairs_view(props@) + Seq::<PairModel>::empty() =~= pairs_view(props@));
                break ;
            }
            let ghost before = pairs_view(props@);
            let name = text_of(chars, pos, name_end);
            let value = text_of(chars, value_start, value_end);
            props.push((name, value));
            proof {
                let pair = (
                    chars@.subrange(pos as int, name_end as int),
                    chars@.subrange(value_start as int, value_end as int),
                );
                assert(pairs_view(props@) =~= before.push(pair));
                let rest = props_from(chars@, next as int);
                assert(props_from(chars@, pos as int).0 == seq![pair] + rest.0);
                assert(all.0 =~= pairs_view(props@) + rest.0);
            }
            pos = next;
        } else {
            pos += 1;
        }
    }
    (props, pos)
}

/// Whether the characters from `from` up to `to` spell `name`.
fn same_chars(chars: &Vec<char>, from: usize, to: usize, name: &Vec<char>) -> (b: bool)
    requires
        from <= to <= chars@.len(),
    ensures
        b == (chars@.subrange(from as int, to as int) == name@),
{
    let ghost part = chars@.subrange(from as int, to as int);
    if to - from != name.len() {
        return false;
    }
    let mut i: usize = 0;
    while i < name.len()
        invariant
            i <= name@.len(),
            from <= to <= chars@.len(),
            to - from == name@.len(),
            part == chars@.subrange(from as int, to as int),
            forall|j: int| 0 <= j < i ==> part[j] == name@[j],
        decreases name@.len() - i,
    {
        assert(part[i as int] == chars@[from + i]);
        if chars[from + i] != name[i] {
            return false;
        }
        i += 1;
    }
    assert(part =~= name@);
    true
}

/// The position from `from` on where the closing tag of `name` starts.
fn find_closing_tag(chars: &Vec<char>, from: usize, name: &Vec<char>) -> (r: usize)
    requires
        from <= chars@.len(),
    ensures
        from <= r <= chars@.len(),
        r == find_close(chars@, from as int, name@),
        r < chars@.len() ==> r + 2 <= chars@.len(),
{
    let len = chars.len();
    let mut pos: usize = from;
    while pos < len
        invariant
            from <= pos <= len == chars@.len(),
            find_close(chars@, from as int, name@) == find_close(chars@, pos as int, name@),
        decreases len - pos,
    {
        if chars[pos] == '<' && pos + 1 < len && chars[pos + 1] == '/' {
            let tag_end = skip(chars, pos + 2, CharClass::TagName);
            if same_chars(chars, pos + 2, tag_end, name) {
                return pos;
            }
        }
        pos += 1;
    }
    len
}

/// Reads the component that starts at `start`, just after its `<`, and
/// returns it with the position at which the lexer goes on.
pub fn parse_jsx_component(chars: &Vec<char>, start: usize) -> (r: (Token, usize))
    requires
        start <= chars@.len(),
    ensures
        start <= r.1 <= chars@.len(),
        (r.0@, r.1 as int) == jsx_at(chars@, start as int),
{
    let len = chars.len();
    let name_end = skip(chars, start, CharClass::Name);
    let name_chars = slice_of(chars, start, name_end);
    let name = string_of(&name_chars);
    let after_name = skip(chars, name_end, CharClass::Blank);
    let (props, end) = parse_props(chars, after_name);
    if end < len && chars[end] == '/' {
        let next = step(chars, end + 1);
        let token = Token::JsxComponent {
            name,
            props,
            children: Vec::new(),
            self_closing: true,
        };
        assert(token@->children =~= Seq::<TokenModel>::empty());
        return (token, next);
    }
    let body = step(chars, end);
    let close = find_closing_tag(chars, body, &name_chars);
    if close >= len {
        let token = Token::JsxComponent {
            name,
            props,
            children: Vec::new(),
            self_closing: false,
        };
        assert(token@->children =~= Seq::<TokenModel>::empty());
        return (token, len);
    }
    let mut children: Vec<Token> = Vec::new();
    if close > body {
        let child_text = slice_of(chars, body, close);
        let child = Token::Text(string_of(&trim(&child_text)));
        assert(child@ == TokenModel::Text(trimmed(chars@.subrange(body as int, close as int))));
        children.push(child);
        assert(children@[0]@ == TokenModel::Text(
            trimmed(chars@.subrange(body as int, close as int)),
        ));
    }
    let closing_end = skip(chars, close + 2, CharClass::Not('>'));
    let next = step(chars, closing_end);
    let token = Token::JsxComponent { name, props, children, self_closing: false };
    proof {
        if close > body {
            assert(token@->children.len() == 1);
            assert(token@->children[0] == children@[0]@);
            assert(token@->children =~= seq![
                TokenModel::Text(trimmed(chars@.subrange(body as int, close as int))),
            ]);
        } else {
            assert(token@->children =~= Seq::<TokenModel>::empty());
        }
    }
    (token, next)
}

/// Adds the text collected so far to the tokens, if there is any.
fn flush_text(tokens: &mut Vec<Token>, current: &mut Vec<char>)
    ensures
        tokens_view(final(tokens)@) == tokens_view(old(tokens)@) + flush(old(current)@),
        final(current)@.len() == 0,
{
    if current.len() > 0 {
        let text = string_of(current);
        tokens.push(Token::Text(text));
        current.clear();
        assert(tokens_view(tokens@) =~= tokens_view(old(tokens)@) + flush(old(current)@));
    } else {
        assert(tokens_view(tokens@) =~= tokens_view(old(tokens)@) + flush(old(current)@));
    }
}

/// The strings made of lists of characters.
fn strings_of(words: &Vec<Vec<char>>, from: usize) -> (r: Vec<String>)
    requires
        from <= words@.len(),
    ensures
        r@.len() == words@.len() - from,
        forall|i: int| 0 <= i < r@.len() ==> (#[trigger] r@[i])@ == words@[from + i]@,
{
    let mut r: Vec<String> = Vec::new();
    let mut i: usize = from;
    while i < words.len()
        invariant
            from <= i <= words@.len(),
            r@.len() == i - from,
            forall|j: int| 0 <= j < r@.len() ==> (#[trigger] r@[j])@ == words@[from + j]@,
        decreases words@.len() - i,
    {
        r.push(string_of(&words[i]));
        i += 1;
    }
    r
}

/// Splits a template into tokens.
pub fn tokenize(source: &str) -> (r: Result<Vec<Token>, DjangoRustError>)
    ensures
        r is Ok,
        tokens_view(r->Ok_0@) == tokenize_spec(source@),
{
    let chars = chars_of(source);
    let len = chars.len();
    let mut tokens: Vec<Token> = Vec::new();
    let mut current: Vec<char> = Vec::new();
    let mut pos: usize = 0;
    let ghost all = tokenize_spec(source@);
    assert(current@ =~= Seq::<char>::empty());
    assert(tokens_view(tokens@) + all =~= all);
    while pos < len
        invariant
            pos <= len == chars@.len(),
            chars@ == source@,
            all == tokenize_spec(source@),
            all == tokens_view(tokens@) + lex_from(chars@, pos as int, current@),
        decreases len - pos,
    {
        let ch = chars[pos];
        let ghost before = tokens_view(tokens@);
        let ghost text = current@;
        if ch == '<' && pos + 1 < len && is_uppercase(chars[pos + 1]) {
            flush_text(&mut tokens, &mut current);
            let (token, next) = parse_jsx_component(&chars, pos + 1);
            tokens.push(token);
            proof {
                assert(current@ =~= Seq::<char>::empty());
                assert(tokens_view(tokens@) =~= before + flush(text) + seq![token@]);
                assert(all =~= tokens_view(tokens@) + lex_from(chars@, next as int, current@));
            }
            pos = next;
        } else if ch == '{' && pos + 1 < len && (chars[pos + 1] == '{' || chars[pos + 1] == '%'
            || chars[pos + 1] == '#') {
            let kind = chars[pos + 1];
            let closer = if kind == '{' {
                '}'
            } else {
                kind
            };
            flush_text(&mut tokens, &mut current);
            let close = find(&chars, pos + 2, closer, '}');
            if close >= len {
                // What is opened and never closed swallows the rest.
                proof {
                    assert(current@ =~= Seq::<char>::empty());
                    assert(lex_from(chars@, len as int, current@) =~= Seq::<TokenModel>::empty());
                    assert(all =~= tokens_view(tokens@) + lex_from(chars@, len as int, current@));
                }
                pos = len;
            } else {
                let ghost flushed = tokens_view(tokens@);
                let content = slice_of(&chars, pos + 2, close);
                if kind == '{' {
                    tokens.push(Token::Variable(string_of(&trim(&content))));
                    assert(tokens_view(tokens@) =~= flushed + seq![
                        TokenModel::Variable(trimmed(content@)),
                    ]);
                } else if kind == '%' {
                    let parts = split_words(&content);
                    if parts.len() > 0 {
                        let name = string_of(&parts[0]);
                        let args = strings_of(&parts, 1);
                        let token = Token::Tag(name, args);
                        proof {
                            let words = words_from(content@, 0);
                            assert(strings_view(args@) =~= words.subrange(1, words.len() as int));
                        }
                        tokens.push(token);
                        assert(tokens_view(tokens@) =~= flushed + tag_tokens(content@));
                    } else {
                        assert(tokens_view(tokens@) =~= flushed + tag_tokens(content@));
                    }
                } else {
                    tokens.push(Token::Comment);
                    assert(tokens_view(tokens@) =~= flushed + seq![TokenModel::Comment]);
                }
                proof {
                    assert(current@ =~= Seq::<char>::empty());
                    assert(all =~= tokens_view(tokens@) + lex_from(
                        chars@,
                        close + 2,
                        current@,
                    ));
                }
                pos = close + 2;
            }
        } else {
            current.push(ch);
            pos += 1;
        }
    }
    flush_text(&mut tokens, &mut current);
    Ok(tokens)
}

} // verus!
