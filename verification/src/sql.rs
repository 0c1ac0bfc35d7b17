//! The little SQL that the transport writes and its far end reads: quoting
//! with a doubled delimiter, the verb a statement opens with, and the words
//! and signs a statement is made of.

use vstd::prelude::*;

use crate::text::{
    alphanumeric, ascii_alphanumeric, ascii_upper, characters, is_alphanumeric, is_white_space,
    law_asciis_letters_and_digits, same, to_ascii_upper, unicode_alphanumeric, white_space,
};

verus! {

/// A character within quotes: itself, or the delimiter twice.
pub open spec fn doubled(c: char, delimiter: char) -> Seq<char> {
    if c == delimiter {
        seq![delimiter, delimiter]
    } else {
        seq![c]
    }
}

/// A text between delimiters, every delimiter in it doubled.
pub open spec fn quoted(text: Seq<char>, delimiter: char) -> Seq<char> {
    seq![delimiter] + text.map_values(|c: char| doubled(c, delimiter)).flatten() + seq![delimiter]
}

/// The text that opens between delimiters, each doubled delimiter in it
/// undoubled, and what follows the delimiter that ends it.
pub open spec fn unquoted(text: Seq<char>, delimiter: char) -> Option<(Seq<char>, Seq<char>)> {
    if text.len() > 0 && text[0] == delimiter {
        unquoted_inside(text.skip(1), delimiter)
    } else {
        None
    }
}

/// The same, once the opening delimiter has been read.
pub open spec fn unquoted_inside(text: Seq<char>, delimiter: char) -> Option<
    (Seq<char>, Seq<char>),
>
    decreases text.len(),
{
    if text.len() == 0 {
        None
    } else if text[0] != delimiter {
        beginning(text[0], unquoted_inside(text.skip(1), delimiter))
    } else if text.len() > 1 && text[1] == delimiter {
        beginning(delimiter, unquoted_inside(text.skip(2), delimiter))
    } else {
        Some((seq![], text.skip(1)))
    }
}

/// What was unquoted, with `c` before it.
pub open spec fn beginning(c: char, unquoted: Option<(Seq<char>, Seq<char>)>) -> Option<
    (Seq<char>, Seq<char>),
> {
    match unquoted {
        Some((text, rest)) => Some((seq![c] + text, rest)),
        None => None,
    }
}

/// How many of the characters that a text opens with are such as `of` says.
pub open spec fn run(text: Seq<char>, of: spec_fn(char) -> bool) -> nat
    decreases text.len(),
{
    if text.len() > 0 && of(text[0]) {
        1 + run(text.skip(1), of)
    } else {
        0
    }
}

/// White space.
pub open spec fn spaces() -> spec_fn(char) -> bool {
    |c: char| white_space(c)
}

/// What a bare identifier is made of.
pub open spec fn name_characters() -> spec_fn(char) -> bool {
    |c: char| alphanumeric(c) || c == '_' || c == '.'
}

/// What a verb is made of.
pub open spec fn word_characters() -> spec_fn(char) -> bool {
    |c: char| ascii_alphanumeric(c) || c == '_'
}

/// What follows the white space that a text opens with.
pub open spec fn trimmed(text: Seq<char>) -> Seq<char> {
    text.skip(run(text, spaces()) as int)
}

/// The characters in upper case.
pub open spec fn upper(text: Seq<char>) -> Seq<char> {
    text.map_values(|c: char| ascii_upper(c))
}

/// The word that a statement opens with, in upper case.
pub open spec fn verb_of(statement: Seq<char>) -> Seq<char> {
    let text = trimmed(statement);
    upper(text.take(run(text, word_characters()) as int))
}

/// What follows `word`, which is in upper case and which the text opens with
/// in any case, as a word of its own and after any white space.
pub open spec fn past_word(text: Seq<char>, word: Seq<char>) -> Option<Seq<char>> {
    let text = trimmed(text);
    if word.len() <= text.len() && upper(text.take(word.len() as int)) == word && (word.len()
        == text.len() || !name_characters()(text[word.len() as int])) {
        Some(text.skip(word.len() as int))
    } else {
        None
    }
}

/// What follows `sign`, which the text opens with after any white space.
pub open spec fn past_sign(text: Seq<char>, sign: char) -> Option<Seq<char>> {
    let text = trimmed(text);
    if text.len() > 0 && text[0] == sign {
        Some(text.skip(1))
    } else {
        None
    }
}

/// The statement that inserts `value` as one column of one row, the table and
/// the column as they are quoted.
pub open spec fn inserting(
    table: Seq<char>,
    column: Seq<char>,
    value: Seq<char>,
) -> Seq<char> {
    "INSERT INTO "@ + quoted(table, '"') + " ("@ + quoted(column, '"') + ") VALUES ("@ + quoted(
        value,
        '\'',
    ) + ")"@
}

/// `text` between delimiters, every delimiter in it doubled.
pub fn quote(text: &str, delimiter: char) -> (literal: String)
    ensures
        literal@ == quoted(text@, delimiter),
{
    let chars = characters(text);
    let ghost each = text@.map_values(|c: char| doubled(c, delimiter));
    let mut literal = String::new();
    literal.push(delimiter);
    let mut at: usize = 0;
    assert(each.take(0).flatten() == Seq::<char>::empty());
    while at < chars.len()
        invariant
            chars@ == text@,
            each == text@.map_values(|c: char| doubled(c, delimiter)),
            at <= chars@.len(),
            literal@ == seq![delimiter] + each.take(at as int).flatten(),
        decreases chars@.len() - at,
    {
        let c: char = chars[at];
        if c == delimiter {
            literal.push(delimiter);
        }
        literal.push(c);
        proof {
            each.take(at as int).lemma_flatten_push(each[at as int]);
            assert(each.take(at + 1) == each.take(at as int).push(each[at as int]));
            assert(each[at as int] == doubled(c, delimiter));
        }
        at = at + 1;
    }
    assert(each.take(at as int) == each);
    literal.push(delimiter);
    literal
}

/// The text that opens at `at` between delimiters, each doubled delimiter in
/// it undoubled, and where what follows it begins.
pub(crate) fn unquote_prefix(chars: &[char], at: usize, delimiter: char) -> (text: Option<
    (String, usize),
>)
    requires
        at <= chars@.len(),
    ensures
        match unquoted(chars@.skip(at as int), delimiter) {
            Some((t, rest)) => text matches Some(u) && u.0@ == t && at <= u.1 <= chars@.len()
                && chars@.skip(u.1 as int) == rest,
            None => text is None,
        },
{
    if at >= chars.len() || chars[at] != delimiter {
        return None;
    }
    let ghost inside = chars@.skip(at as int).skip(1);
    let mut text = String::new();
    let mut to: usize = at + 1;
    assert(inside == chars@.skip(to as int));
    loop
        invariant
            at < to <= chars@.len(),
            unquoted(chars@.skip(at as int), delimiter) == unquoted_inside(inside, delimiter),
            unquoted_inside(inside, delimiter) == match unquoted_inside(
                chars@.skip(to as int),
                delimiter,
            ) {
                Some((t, rest)) => Some((text@ + t, rest)),
                None => None,
            },
        decreases chars@.len() - to,
    {
        if to == chars.len() {
            return None;
        }
        let c: char = chars[to];
        let ghost before = text@;
        let ghost here = chars@.skip(to as int);
        if c != delimiter {
            text.push(c);
            to = to + 1;
            assert(here.skip(1) == chars@.skip(to as int));
        } else if to + 1 < chars.len() && chars[to + 1] == delimiter {
            text.push(delimiter);
            to = to + 2;
            assert(here.skip(2) == chars@.skip(to as int));
        } else {
            assert(before + Seq::<char>::empty() == before);
            assert(here.skip(1) == chars@.skip(to + 1));
            return Some((text, to + 1));
        }
        proof {
            if let Some((t, _)) = unquoted_inside(chars@.skip(to as int), delimiter) {
                assert(before + (seq![c] + t) == text@ + t);
            }
        }
    }
}

/// Where the white space that opens at `at` ends.
pub(crate) fn skip_space(chars: &[char], at: usize) -> (to: usize)
    requires
        at <= chars@.len(),
    ensures
        at <= to <= chars@.len(),
        chars@.skip(to as int) == trimmed(chars@.skip(at as int)),
{
    let ghost here = chars@.skip(at as int);
    let mut to: usize = at;
    assert(here.skip(0) == here);
    while to < chars.len() && is_white_space(chars[to])
        invariant
            at <= to <= chars@.len(),
            here == chars@.skip(at as int),
            run(here, spaces()) == to - at + run(chars@.skip(to as int), spaces()),
        decreases chars@.len() - to,
    {
        assert(chars@.skip(to as int).skip(1) == chars@.skip(to + 1));
        to = to + 1;
    }
    assert(here.skip(to - at) == chars@.skip(to as int));
    to
}

/// Where the bare identifier that opens at `at` ends.
pub(crate) fn skip_name(chars: &[char], at: usize) -> (to: usize)
    requires
        at <= chars@.len(),
    ensures
        at <= to <= chars@.len(),
        to - at == run(chars@.skip(at as int), name_characters()),
{
    let mut to: usize = at;
    while to < chars.len() && is_name_character(chars[to])
        invariant
            at <= to <= chars@.len(),
            run(chars@.skip(at as int), name_characters()) == to - at + run(
                chars@.skip(to as int),
                name_characters(),
            ),
        decreases chars@.len() - to,
    {
        assert(chars@.skip(to as int).skip(1) == chars@.skip(to + 1));
        to = to + 1;
    }
    to
}

/// Whether a bare identifier may hold `c`.
fn is_name_character(c: char) -> (is: bool)
    ensures
        is == name_characters()(c),
{
    is_alphanumeric(c) || c == '_' || c == '.'
}

/// Where what follows `word` begins, which is in upper case and which opens
/// at `at` in any case, as a word of its own and after any white space.
pub(crate) fn skip_word(chars: &[char], at: usize, word: &str) -> (to: Option<usize>)
    requires
        at <= chars@.len(),
    ensures
        match past_word(chars@.skip(at as int), word@) {
            Some(rest) => to matches Some(t) && at <= t <= chars@.len() && chars@.skip(t as int)
                == rest,
            None => to is None,
        },
{
    let from: usize = skip_space(chars, at);
    let letters = characters(word);
    if letters.len() > chars.len() - from {
        return None;
    }
    let ghost text = chars@.skip(from as int);
    let to: usize = from + letters.len();
    let mut found = String::new();
    let mut next: usize = from;
    while next < to
        invariant
            from <= next <= to <= chars@.len(),
            found@ == upper(chars@.subrange(from as int, next as int)),
        decreases to - next,
    {
        found.push(to_ascii_upper(chars[next]));
        next = next + 1;
        assert(found@ == upper(chars@.subrange(from as int, next as int)));
    }
    assert(chars@.subrange(from as int, to as int) == text.take(word@.len() as int));
    assert(text.skip(word@.len() as int) == chars@.skip(to as int));
    if !same(found.as_str(), word) || (to < chars.len() && is_name_character(chars[to])) {
        return None;
    }
    Some(to)
}

/// Where what follows `sign` begins, which opens at `at` after any white
/// space.
pub(crate) fn skip_sign(chars: &[char], at: usize, sign: char) -> (to: Option<usize>)
    requires
        at <= chars@.len(),
    ensures
        match past_sign(chars@.skip(at as int), sign) {
            Some(rest) => to matches Some(t) && at <= t <= chars@.len() && chars@.skip(t as int)
                == rest,
            None => to is None,
        },
{
    let from: usize = skip_space(chars, at);
    if from < chars.len() && chars[from] == sign {
        assert(chars@.skip(from as int).skip(1) == chars@.skip(from + 1));
        Some(from + 1)
    } else {
        None
    }
}

/// The word that `statement` opens with, in upper case.
#[must_use]
pub fn verb(statement: &str) -> (verb: String)
    ensures
        verb@ == verb_of(statement@),
{
    let chars = characters(statement);
    assert(chars@.skip(0) == chars@);
    let from: usize = skip_space(chars.as_slice(), 0);
    let ghost text = chars@.skip(from as int);
    let mut verb = String::new();
    let mut to: usize = from;
    while to < chars.len() && is_word_character(chars[to])
        invariant
            from <= to <= chars@.len(),
            text == chars@.skip(from as int),
            run(text, word_characters()) == to - from + run(
                chars@.skip(to as int),
                word_characters(),
            ),
            verb@ == upper(text.take(to - from)),
        decreases chars@.len() - to,
    {
        assert(chars@.skip(to as int).skip(1) == chars@.skip(to + 1));
        verb.push(to_ascii_upper(chars[to]));
        to = to + 1;
        assert(verb@ == upper(text.take(to - from)));
    }
    verb
}

/// Whether a verb may hold `c`.
fn is_word_character(c: char) -> (is: bool)
    ensures
        is == word_characters()(c),
{
    ('a' <= c && c <= 'z') || ('A' <= c && c <= 'Z') || ('0' <= c && c <= '9') || c == '_'
}

/// A text that does not open with white space is trimmed as it is.
pub proof fn lemma_trimmed_solid(text: Seq<char>)
    requires
        text.len() == 0 || !white_space(text[0]),
    ensures
        trimmed(text) == text,
{
    assert(text.skip(0) == text);
}

/// A space before a text is trimmed with whatever white space follows it.
pub proof fn lemma_trimmed_space(text: Seq<char>)
    ensures
        trimmed(seq![' '] + text) == trimmed(text),
{
    let spaced = seq![' '] + text;
    assert(spaced.skip(1) == text);
    let length = run(text, spaces()) as int;
    assert(run(spaced, spaces()) == 1 + length);
    lemma_run_within(text, spaces());
    assert(spaced.skip(1 + length) == text.skip(length));
}

/// A run is no longer than the text that it opens.
proof fn lemma_run_within(text: Seq<char>, of: spec_fn(char) -> bool)
    ensures
        run(text, of) <= text.len(),
    decreases text.len(),
{
    if text.len() > 0 && of(text[0]) {
        lemma_run_within(text.skip(1), of);
    }
}

/// A run is as long as what it is made of, where what follows is not such.
pub proof fn lemma_run_whole(text: Seq<char>, of: spec_fn(char) -> bool, rest: Seq<char>)
    requires
        forall|i: int| 0 <= i < text.len() ==> of(#[trigger] text[i]),
        rest.len() == 0 || !of(rest[0]),
    ensures
        run(text + rest, of) == text.len(),
    decreases text.len(),
{
    let whole = text + rest;
    if text.len() > 0 {
        assert(of(text[0]));
        let others = text.skip(1);
        assert forall|i: int| 0 <= i < others.len() implies of(#[trigger] others[i]) by {
            assert(others[i] == text[i + 1]);
        }
        lemma_run_whole(others, of, rest);
        assert(whole.skip(1) == others + rest);
    } else {
        assert(whole == rest);
    }
}

/// A word in upper case is read where nothing but another part follows.
pub proof fn lemma_past_word(word: Seq<char>, rest: Seq<char>)
    requires
        word.len() > 0,
        forall|i: int| 0 <= i < word.len() ==> 'A' <= #[trigger] word[i] <= 'Z',
        rest.len() == 0 || !name_characters()(rest[0]),
    ensures
        past_word(word + rest, word) == Some(rest),
        past_word(seq![' '] + (word + rest), word) == Some(rest),
{
    let text = word + rest;
    assert('A' <= word[0] <= 'Z');
    lemma_trimmed_solid(text);
    lemma_trimmed_space(text);
    assert(text.take(word.len() as int) == word);
    assert(text.skip(word.len() as int) == rest);
    assert(upper(word) == word);
}

/// The characters of a text as they stand within quotes.
spec fn inside(text: Seq<char>, delimiter: char) -> Seq<char> {
    text.map_values(|c: char| doubled(c, delimiter)).flatten()
}

/// One character after another stands within quotes.
proof fn lemma_inside_first(text: Seq<char>, delimiter: char)
    requires
        text.len() > 0,
    ensures
        inside(text, delimiter) == doubled(text[0], delimiter) + inside(text.skip(1), delimiter),
{
    let each = text.map_values(|c: char| doubled(c, delimiter));
    assert(each.drop_first() == text.skip(1).map_values(|c: char| doubled(c, delimiter)));
}

/// What stands within quotes and the delimiter behind it unquote.
proof fn lemma_inside_unquotes(text: Seq<char>, delimiter: char, rest: Seq<char>)
    requires
        rest.len() == 0 || rest[0] != delimiter,
    ensures
        unquoted_inside(inside(text, delimiter) + seq![delimiter] + rest, delimiter) == Some(
            (text, rest),
        ),
    decreases text.len(),
{
    let whole = inside(text, delimiter) + seq![delimiter] + rest;
    if text.len() == 0 {
        assert(whole.skip(1) == rest);
        assert(text == Seq::<char>::empty());
    } else {
        let others = text.skip(1);
        let tail = inside(others, delimiter) + seq![delimiter] + rest;
        lemma_inside_first(text, delimiter);
        lemma_inside_unquotes(others, delimiter, rest);
        if text[0] == delimiter {
            assert(whole.skip(2) == tail);
        } else {
            assert(whole.skip(1) == tail);
        }
        assert(seq![text[0]] + others == text);
    }
}

/// What unquotes stood within quotes, with the delimiter behind it.
proof fn lemma_unquoted_was_inside(whole: Seq<char>, delimiter: char)
    ensures
        unquoted_inside(whole, delimiter) matches Some((text, rest)) ==> {
            &&& whole == inside(text, delimiter) + seq![delimiter] + rest
            &&& rest.len() == 0 || rest[0] != delimiter
        },
    decreases whole.len(),
{
    if whole.len() == 0 {
    } else if whole[0] != delimiter || (whole.len() > 1 && whole[1] == delimiter) {
        let read: int = if whole[0] != delimiter {
            1
        } else {
            2
        };
        let tail = whole.skip(read);
        lemma_unquoted_was_inside(tail, delimiter);
        if let Some((others, rest)) = unquoted_inside(tail, delimiter) {
            let text = seq![whole[0]] + others;
            assert(text.skip(1) == others);
            lemma_inside_first(text, delimiter);
            assert(whole == doubled(whole[0], delimiter) + tail);
            assert(whole == inside(text, delimiter) + seq![delimiter] + rest);
        }
    } else {
        assert(inside(seq![], delimiter) == Seq::<char>::empty());
        assert(whole == seq![delimiter] + whole.skip(1));
        assert(whole == inside(seq![], delimiter) + seq![delimiter] + whole.skip(1));
    }
}

/// What is quoted unquotes as the text it was, wherever no further delimiter
/// follows it.
pub proof fn law_quoted_unquotes(text: Seq<char>, delimiter: char, rest: Seq<char>)
    requires
        rest.len() == 0 || rest[0] != delimiter,
    ensures
        unquoted(quoted(text, delimiter) + rest, delimiter) == Some((text, rest)),
{
    let whole = quoted(text, delimiter) + rest;
    assert(whole.skip(1) == inside(text, delimiter) + seq![delimiter] + rest);
    lemma_inside_unquotes(text, delimiter, rest);
}

/// What unquotes was a quoted text, with what follows it.
pub proof fn law_unquoted_was_quoted(whole: Seq<char>, delimiter: char)
    ensures
        unquoted(whole, delimiter) matches Some((text, rest)) ==> {
            &&& whole == quoted(text, delimiter) + rest
            &&& rest.len() == 0 || rest[0] != delimiter
        },
{
    if whole.len() > 0 && whole[0] == delimiter {
        lemma_unquoted_was_inside(whole.skip(1), delimiter);
        assert(whole == seq![delimiter] + whole.skip(1));
        if let Some((text, rest)) = unquoted(whole, delimiter) {
            assert(whole == quoted(text, delimiter) + rest);
        }
    }
}

/// What stands within quotes has no NUL where the text has none.
proof fn lemma_inside_has_no_nul(text: Seq<char>, delimiter: char)
    requires
        delimiter != '\0',
        !text.contains('\0'),
    ensures
        !inside(text, delimiter).contains('\0'),
    decreases text.len(),
{
    if text.len() > 0 {
        let others = text.skip(1);
        assert(text.contains(text[0]));
        assert forall|i: int| 0 <= i < others.len() implies others[i] != '\0' by {
            assert(text.contains(text[i + 1]));
        }
        lemma_inside_first(text, delimiter);
        lemma_inside_has_no_nul(others, delimiter);
        assert forall|i: int| 0 <= i < inside(text, delimiter).len() implies inside(
            text,
            delimiter,
        )[i] != '\0' by {
            let first = doubled(text[0], delimiter);
            if i >= first.len() {
                assert(inside(others, delimiter).contains(
                    inside(others, delimiter)[i - first.len()],
                ));
            }
        }
    }
}

/// What is quoted has no NUL where the text has none.
proof fn lemma_quoted_has_no_nul(text: Seq<char>, delimiter: char)
    requires
        delimiter != '\0',
        !text.contains('\0'),
    ensures
        !quoted(text, delimiter).contains('\0'),
{
    lemma_inside_has_no_nul(text, delimiter);
    let middle = inside(text, delimiter);
    let whole = quoted(text, delimiter);
    assert(whole == seq![delimiter] + middle + seq![delimiter]);
    assert forall|i: int| 0 <= i < whole.len() implies whole[i] != '\0' by {
        if 0 < i < whole.len() - 1 {
            assert(middle.contains(middle[i - 1]));
        }
    }
}

/// Two texts without a NUL have none when they are joined.
pub proof fn lemma_joined_has_no_nul(left: Seq<char>, right: Seq<char>)
    requires
        !left.contains('\0'),
        !right.contains('\0'),
    ensures
        !(left + right).contains('\0'),
{
    let whole = left + right;
    assert forall|i: int| 0 <= i < whole.len() implies whole[i] != '\0' by {
        if i < left.len() {
            assert(left.contains(left[i]));
        } else {
            assert(right.contains(right[i - left.len()]));
        }
    }
}

/// A statement that inserts what has no NUL has none itself, so it can go on
/// the wire as it is.
pub proof fn lemma_inserting_has_no_nul(table: Seq<char>, column: Seq<char>, value: Seq<char>)
    requires
        !table.contains('\0'),
        !column.contains('\0'),
        !value.contains('\0'),
    ensures
        !inserting(table, column, value).contains('\0'),
{
    lemma_quoted_has_no_nul(table, '"');
    lemma_quoted_has_no_nul(column, '"');
    lemma_quoted_has_no_nul(value, '\'');
    reveal_strlit("INSERT INTO ");
    reveal_strlit(" (");
    reveal_strlit(") VALUES (");
    reveal_strlit(")");
    let upto_table = "INSERT INTO "@ + quoted(table, '"');
    let upto_column = upto_table + " ("@ + quoted(column, '"');
    let upto_value = upto_column + ") VALUES ("@ + quoted(value, '\'');
    lemma_joined_has_no_nul("INSERT INTO "@, quoted(table, '"'));
    lemma_joined_has_no_nul(upto_table, " ("@);
    lemma_joined_has_no_nul(upto_table + " ("@, quoted(column, '"'));
    lemma_joined_has_no_nul(upto_column, ") VALUES ("@);
    lemma_joined_has_no_nul(upto_column + ") VALUES ("@, quoted(value, '\''));
    lemma_joined_has_no_nul(upto_value, ")"@);
}

/// Nothing is quoted as two delimiters, and each further character comes in
/// before the last of them, twice where it is the delimiter and once where it
/// is not.
pub proof fn law_quoting_doubles_the_delimiter(text: Seq<char>, c: char, delimiter: char)
    ensures
        quoted(seq![], delimiter) == seq![delimiter, delimiter],
        quoted(text.push(c), delimiter) == quoted(text, delimiter).drop_last() + (if c
            == delimiter {
            seq![delimiter, delimiter]
        } else {
            seq![c]
        }) + seq![delimiter],
{
    let each = text.map_values(|c: char| doubled(c, delimiter));
    assert(text.push(c).map_values(|c: char| doubled(c, delimiter)) == each.push(
        doubled(c, delimiter),
    ));
    each.lemma_flatten_push(doubled(c, delimiter));
    assert(quoted(text, delimiter).drop_last() == seq![delimiter] + each.flatten());
    assert(quoted(seq![], delimiter) == seq![delimiter, delimiter]);
}

/// A text without the delimiter stands between two of them as it is.
pub proof fn law_a_plain_text_is_quoted_as_it_is(text: Seq<char>, delimiter: char)
    requires
        !text.contains(delimiter),
    ensures
        quoted(text, delimiter) == seq![delimiter] + text + seq![delimiter],
    decreases text.len(),
{
    if text.len() == 0 {
        assert(quoted(text, delimiter) == seq![delimiter] + text + seq![delimiter]);
    } else {
        let shorter = text.drop_last();
        assert forall|i: int| 0 <= i < shorter.len() implies shorter[i] != delimiter by {
            assert(text.contains(text[i]));
        }
        assert(text.contains(text.last()));
        law_a_plain_text_is_quoted_as_it_is(shorter, delimiter);
        law_quoting_doubles_the_delimiter(shorter, text.last(), delimiter);
        assert(shorter.push(text.last()) == text);
        assert(quoted(text, delimiter) == seq![delimiter] + text + seq![delimiter]);
    }
}

/// White space and nothing else.
pub open spec fn blank(text: Seq<char>) -> bool {
    forall|i: int| 0 <= i < text.len() ==> white_space(#[trigger] text[i])
}

/// A run is made of what it is said to be, and ends where something else
/// comes.
pub proof fn lemma_run_is_such(text: Seq<char>, of: spec_fn(char) -> bool)
    ensures
        run(text, of) <= text.len(),
        forall|i: int| 0 <= i < run(text, of) ==> of(#[trigger] text[i]),
        run(text, of) < text.len() ==> !of(text[run(text, of) as int]),
    decreases text.len(),
{
    if text.len() > 0 && of(text[0]) {
        let others = text.skip(1);
        lemma_run_is_such(others, of);
        assert forall|i: int| 0 <= i < run(text, of) implies of(#[trigger] text[i]) by {
            if i > 0 {
                assert(others[i - 1] == text[i]);
            }
        }
        if run(text, of) < text.len() {
            assert(others[run(others, of) as int] == text[run(text, of) as int]);
        }
    }
}

/// White space before a text is trimmed with whatever white space follows it.
pub proof fn lemma_trimmed_blank(gap: Seq<char>, text: Seq<char>)
    requires
        blank(gap),
    ensures
        trimmed(gap + text) == trimmed(text),
    decreases gap.len(),
{
    if gap.len() == 0 {
        assert(gap + text == text);
    } else {
        let others = gap.skip(1);
        assert(white_space(gap[0]));
        assert forall|i: int| 0 <= i < others.len() implies white_space(#[trigger] others[i]) by {
            assert(others[i] == gap[i + 1]);
        }
        lemma_trimmed_blank(others, text);
        let whole = gap + text;
        assert(whole.skip(1) == others + text);
        assert(whole[0] == gap[0]);
        let length = run(others + text, spaces()) as int;
        lemma_run_within(others + text, spaces());
        assert(run(whole, spaces()) == 1 + length);
        assert(whole.skip(1 + length) == (others + text).skip(length));
    }
}

/// What is trimmed off a text is white space, and what is left does not open
/// with any.
pub proof fn law_trimming_takes_white_space_off(text: Seq<char>)
    ensures
        trimmed(text).len() == 0 || !white_space(trimmed(text)[0]),
        exists|gap: Seq<char>| blank(gap) && text == #[trigger] (gap + trimmed(text)),
{
    let length = run(text, spaces()) as int;
    let gap = text.take(length);
    lemma_run_is_such(text, spaces());
    assert forall|i: int| 0 <= i < gap.len() implies white_space(#[trigger] gap[i]) by {
        assert(spaces()(text[i]));
    }
    assert(text == gap + trimmed(text));
    if trimmed(text).len() > 0 {
        assert(trimmed(text)[0] == text[length]);
    }
}

/// Whether a text is white space, a sign, and `rest`.
pub open spec fn sign_then(text: Seq<char>, sign: char, rest: Seq<char>) -> bool {
    exists|gap: Seq<char>| blank(gap) && text == #[trigger] (gap + (seq![sign] + rest))
}

/// A sign is read exactly where it comes next after any white space, and what
/// is left is what follows it.
pub proof fn law_a_sign_is_read_where_it_comes(text: Seq<char>, sign: char, rest: Seq<char>)
    requires
        !white_space(sign),
    ensures
        past_sign(text, sign) == Some(rest) <==> sign_then(text, sign, rest),
{
    let behind = seq![sign] + rest;
    if sign_then(text, sign, rest) {
        let gap = choose|gap: Seq<char>| blank(gap) && text == #[trigger] (gap + behind);
        lemma_trimmed_blank(gap, behind);
        lemma_trimmed_solid(behind);
        assert(behind.skip(1) == rest);
    }
    if past_sign(text, sign) == Some(rest) {
        law_trimming_takes_white_space_off(text);
        let left = trimmed(text);
        let gap = choose|gap: Seq<char>| blank(gap) && text == #[trigger] (gap + left);
        assert(left == behind);
        assert(text == gap + behind);
    }
}

/// Whether a text is white space, a word that is `word` in upper case, and
/// `rest`, with which the word does not go on.
pub open spec fn word_then(text: Seq<char>, word: Seq<char>, rest: Seq<char>) -> bool {
    exists|gap: Seq<char>, spelled: Seq<char>|
        blank(gap) && upper(spelled) == word && text == #[trigger] (gap + (spelled + rest)) && (
        rest.len() == 0 || !name_characters()(rest[0]))
}

/// A word is read exactly where it comes next after any white space, in any
/// case and as a word of its own, and what is left is what follows it.
pub proof fn law_a_word_is_read_where_it_comes(
    text: Seq<char>,
    word: Seq<char>,
    rest: Seq<char>,
)
    requires
        word.len() > 0,
        forall|i: int| 0 <= i < word.len() ==> 'A' <= #[trigger] word[i] <= 'Z',
    ensures
        past_word(text, word) == Some(rest) <==> word_then(text, word, rest),
{
    let length = word.len() as int;
    if word_then(text, word, rest) {
        let (gap, spelled) = choose|gap: Seq<char>, spelled: Seq<char>|
            blank(gap) && upper(spelled) == word && text == #[trigger] (gap + (spelled + rest)) && (
            rest.len() == 0 || !name_characters()(rest[0]));
        let behind = spelled + rest;
        assert(upper(spelled)[0] == word[0]);
        lemma_upper_letter(spelled[0]);
        lemma_trimmed_blank(gap, behind);
        assert(behind[0] == spelled[0]);
        lemma_trimmed_solid(behind);
        assert(behind.take(length) == spelled);
        assert(behind.skip(length) == rest);
    }
    if past_word(text, word) == Some(rest) {
        law_trimming_takes_white_space_off(text);
        let left = trimmed(text);
        let gap = choose|gap: Seq<char>| blank(gap) && text == #[trigger] (gap + left);
        let spelled = left.take(length);
        assert(left == spelled + rest);
        assert(text == gap + (spelled + rest));
        if rest.len() > 0 {
            assert(rest[0] == left[length]);
        }
    }
}

/// What is a letter in upper case is no white space.
proof fn lemma_upper_letter(c: char)
    requires
        'A' <= ascii_upper(c) <= 'Z',
    ensures
        !white_space(c),
{
}

/// The verb is the first word behind any white space, in upper case: letters,
/// digits and underscores of ASCII, up to the first character that is none.
pub proof fn law_the_verb_is_the_first_word(
    gap: Seq<char>,
    word: Seq<char>,
    rest: Seq<char>,
)
    requires
        blank(gap),
        forall|i: int|
            0 <= i < word.len() ==> ('a' <= #[trigger] word[i] <= 'z' || 'A' <= word[i] <= 'Z' || '0'
                <= word[i] <= '9' || word[i] == '_'),
        rest.len() == 0 || !('a' <= rest[0] <= 'z' || 'A' <= rest[0] <= 'Z' || '0' <= rest[0] <= '9'
            || rest[0] == '_'),
        word.len() > 0 || rest.len() == 0 || !white_space(rest[0]),
    ensures
        verb_of(gap + (word + rest)).len() == word.len(),
        forall|i: int|
            0 <= i < word.len() ==> #[trigger] verb_of(gap + (word + rest))[i] == ascii_upper(
                word[i],
            ),
{
    let behind = word + rest;
    lemma_trimmed_blank(gap, behind);
    if word.len() > 0 {
        assert(behind[0] == word[0]);
    }
    lemma_trimmed_solid(behind);
    assert forall|i: int| 0 <= i < word.len() implies word_characters()(#[trigger] word[i]) by {}
    lemma_run_whole(word, word_characters(), rest);
    assert(behind.take(word.len() as int) == word);
}

/// A bare name is made of letters and digits, underscores and dots; of ASCII
/// of nothing else.
pub proof fn law_what_a_bare_name_is_made_of(c: char)
    ensures
        (c as u32) < 0x80 ==> (name_characters()(c)
            <==> "0123456789ABCDEFGHIJKLMNOPQRSTUVWXYZabcdefghijklmnopqrstuvwxyz"@.contains(c) || c
            == '_' || c == '.'),
        (c as u32) >= 0x80 ==> (name_characters()(c) <==> unicode_alphanumeric(c)),
{
    if (c as u32) < 0x80 {
        law_asciis_letters_and_digits(c);
    }
}

} // verus!
