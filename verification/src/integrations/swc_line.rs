//! Reading one line of an SWC file: what kind of line it is, the words of an
//! entry, and the whole numbers among them.

use std::str::FromStr;
use vstd::prelude::*;
use vstd::string::{StrSliceExecFns, StringExecFns};

verus! {

/// What is wrong with an SWC file, in words.
#[derive(Clone, Debug)]
pub struct ParseError(pub String);

/// The pieces of `text` between the occurrences of `separator`. There is one
/// piece more than there are separators, and a piece may be empty.
pub open spec fn split_on(text: Seq<char>, separator: char) -> Seq<Seq<char>>
    decreases text.len(),
{
    if text.len() == 0 {
        seq![Seq::empty()]
    } else {
        let before = split_on(text.drop_last(), separator);
        if text.last() == separator {
            before.push(Seq::empty())
        } else {
            before.update(before.len() - 1, before.last().push(text.last()))
        }
    }
}

/// The pieces put together again, with `separator` between each two.
pub open spec fn join_with(pieces: Seq<Seq<char>>, separator: char) -> Seq<char>
    decreases pieces.len(),
{
    if pieces.len() == 0 {
        Seq::empty()
    } else if pieces.len() == 1 {
        pieces[0]
    } else {
        join_with(pieces.drop_last(), separator).push(separator) + pieces.last()
    }
}

/// Splitting loses nothing and leaves no separator behind: the pieces are
/// free of the separator, there is at least one, and joined they give the
/// text back.
pub proof fn lemma_split_on(text: Seq<char>, separator: char)
    ensures
        split_on(text, separator).len() > 0,
        forall|k: int, i: int|
            0 <= k < split_on(text, separator).len() && 0 <= i < split_on(text, separator)[k].len()
                ==> #[trigger] split_on(text, separator)[k][i] != separator,
        join_with(split_on(text, separator), separator) == text,
    decreases text.len(),
{
    if text.len() > 0 {
        let shorter = text.drop_last();
        let before = split_on(shorter, separator);
        let after = split_on(text, separator);
        lemma_split_on(shorter, separator);
        if text.last() == separator {
            assert(after.drop_last() == before);
            assert(join_with(after, separator) == text);
        } else {
            let grown = before.last().push(text.last());
            if before.len() == 1 {
                assert(join_with(after, separator) == text);
            } else {
                let head = join_with(before.drop_last(), separator).push(separator);
                assert(after.drop_last() == before.drop_last());
                assert(join_with(after, separator) == head + grown);
                assert(shorter == head + before.last());
                assert(head + grown == (head + before.last()).push(text.last()));
                assert(text == shorter.push(text.last()));
            }
        }
    }
}

/// The texts of a list of strings.
pub open spec fn texts(words: Seq<String>) -> Seq<Seq<char>> {
    words.map_values(|word: String| word@)
}

/// The words of a line: its pieces between single spaces. Two spaces in a row
/// have an empty word between them.
pub fn words(line: &str) -> (found: Vec<String>)
    ensures
        texts(found@) == split_on(line@, ' '),
{
    let length: usize = line.unicode_len();
    let mut found: Vec<String> = Vec::new();
    let mut start: usize = 0;
    let mut i: usize = 0;
    proof {
        assert(line@.take(0).len() == 0);
        assert(line@.subrange(0, 0) == Seq::<char>::empty());
        assert(texts(found@) == Seq::<Seq<char>>::empty());
        assert(texts(found@).push(line@.subrange(0, 0)) == seq![Seq::<char>::empty()]);
    }
    while i < length
        invariant
            length == line@.len(),
            start <= i <= length,
            split_on(line@.take(i as int), ' ') == texts(found@).push(
                line@.subrange(start as int, i as int),
            ),
        decreases length - i,
    {
        let ghost seen = line@.take(i as int);
        let ghost longer = line@.take(i + 1);
        proof {
            assert(longer.drop_last() == seen);
            assert(longer.last() == line@[i as int]);
        }
        if line.get_char(i) == ' ' {
            let word = line.substring_char(start, i).to_owned();
            proof {
                assert(texts(found@.push(word)) == texts(found@).push(word@));
            }
            found.push(word);
            start = i + 1;
            proof {
                assert(line@.subrange(start as int, i + 1) == Seq::<char>::empty());
            }
        } else {
            proof {
                assert(line@.subrange(start as int, i + 1) == line@.subrange(
                    start as int,
                    i as int,
                ).push(line@[i as int]));
                let before = split_on(seen, ' ');
                assert(before.update(before.len() - 1, before.last().push(longer.last()))
                    == texts(found@).push(line@.subrange(start as int, i + 1)));
            }
        }
        i += 1;
    }
    let word = line.substring_char(start, length).to_owned();
    proof {
        assert(line@.take(length as int) == line@);
        assert(texts(found@.push(word)) == texts(found@).push(word@));
    }
    found.push(word);
    found
}

/// Whether a line holds no entry: an empty line, or a comment, which starts with `#`.
pub open spec fn is_skipped(line: Seq<char>) -> bool {
    line.len() == 0 || line[0] == '#'
}

/// The complaint about a line that is no entry and is not skipped either.
pub open spec fn wrong_word_count() -> Seq<char> {
    "Incorrect SWC line: too few words"@
}

/// Frames a line. An empty line and a comment hold nothing. Any other line
/// is an entry, and an entry has seven words; a line of fewer or more is
/// refused.
pub fn fields(line: &str) -> (framed: Result<Option<Vec<String>>, ParseError>)
    ensures
        match framed {
            Ok(None) => is_skipped(line@),
            Ok(Some(found)) => {
                &&& !is_skipped(line@)
                &&& found@.len() == 7
                &&& texts(found@) == split_on(line@, ' ')
            },
            Err(error) => {
                &&& !is_skipped(line@)
                &&& split_on(line@, ' ').len() != 7
                &&& error.0@ == wrong_word_count()
            },
        },
{
    if line.unicode_len() == 0 {
        return Ok(None);
    }
    if line.get_char(0) == '#' {
        return Ok(None);
    }
    let found = words(line);
    if found.len() == 7 {
        Ok(Some(found))
    } else {
        Err(ParseError("Incorrect SWC line: too few words".to_owned()))
    }
}

/// The number that a row of decimal digits spells.
pub open spec fn digits_value(digits: Seq<char>) -> nat
    decreases digits.len(),
{
    if digits.len() == 0 {
        0
    } else {
        10 * digits_value(digits.drop_last()) + (digits.last() as u32 - '0' as u32) as nat
    }
}

/// One decimal digit or more, and nothing else.
pub open spec fn is_digits(text: Seq<char>) -> bool {
    &&& text.len() > 0
    &&& forall|i: int| 0 <= i < text.len() ==> '0' <= #[trigger] text[i] <= '9'
}

/// The whole number that `text` spells: decimal digits, with `+` or `-` in
/// front of them if `signed`, with `+` at most if not. `None` where `text`
/// is not of that form.
pub open spec fn decimal(text: Seq<char>, signed: bool) -> Option<int> {
    if text.len() > 0 && text[0] == '-' {
        if signed && is_digits(text.skip(1)) {
            Some(-(digits_value(text.skip(1)) as int))
        } else {
            None
        }
    } else if text.len() > 0 && text[0] == '+' {
        if is_digits(text.skip(1)) {
            Some(digits_value(text.skip(1)) as int)
        } else {
            None
        }
    } else if is_digits(text) {
        Some(digits_value(text) as int)
    } else {
        None
    }
}

/// The words in which `i32::from_str` refuses `text`.
pub uninterp spec fn i32_complaint(text: Seq<char>) -> Seq<char>;

/// The words in which `u8::from_str` refuses `text`.
pub uninterp spec fn u8_complaint(text: Seq<char>) -> Seq<char>;

/// Calls `i32::from_str` of the standard library and puts its error into
/// words with `to_string`. Believed, not proved: the call succeeds exactly on
/// decimal digits with an optional sign that spell a number from `i32::MIN`
/// to `i32::MAX`, and then returns that number; the words of a refusal
/// depend on the text alone.
#[verifier::external_body]
fn i32_from_str(text: &str) -> (parsed: Result<i32, String>)
    ensures
        match parsed {
            Ok(value) => decimal(text@, true) == Some(value as int),
            Err(complaint) => {
                &&& !(decimal(text@, true) matches Some(value) && i32::MIN <= value <= i32::MAX)
                &&& complaint@ == i32_complaint(text@)
            },
        },
{
    match i32::from_str(text) {
        Ok(value) => Ok(value),
        Err(error) => Err(error.to_string()),
    }
}

/// Calls `u8::from_str` of the standard library and puts its error into
/// words with `to_string`. Believed, not proved: the call succeeds exactly on
/// decimal digits with an optional `+` that spell a number up to `u8::MAX`,
/// and then returns that number; the words of a refusal depend on the text
/// alone.
#[verifier::external_body]
fn u8_from_str(text: &str) -> (parsed: Result<u8, String>)
    ensures
        match parsed {
            Ok(value) => decimal(text@, false) == Some(value as int),
            Err(complaint) => {
                &&& !(decimal(text@, false) matches Some(value) && value <= u8::MAX)
                &&& complaint@ == u8_complaint(text@)
            },
        },
{
    match u8::from_str(text) {
        Ok(value) => Ok(value),
        Err(error) => Err(error.to_string()),
    }
}

/// What a complaint about the column `context` reads: the column's name, a
/// colon and a space, and the complaint.
pub open spec fn in_context(context: Seq<char>, complaint: Seq<char>) -> Seq<char> {
    context + ": "@ + complaint
}

/// The error for a column that could not be read: it names the column and
/// repeats the complaint.
pub fn complain(context: &str, complaint: &str) -> (error: ParseError)
    ensures
        error.0@ == in_context(context@, complaint@),
{
    ParseError(context.to_owned().concat(": ").concat(complaint))
}

/// Reads a column that holds a whole number, such as an identifier: decimal
/// digits, with a sign in front of them or without one. Spaces, letters, an
/// empty column and a number beyond the range of `i32` are refused, under
/// the column's name.
pub fn parse_i32(text: &str, context: &str) -> (parsed: Result<i32, ParseError>)
    ensures
        match parsed {
            Ok(value) => decimal(text@, true) == Some(value as int),
            Err(error) => {
                &&& !(decimal(text@, true) matches Some(value) && i32::MIN <= value <= i32::MAX)
                &&& error.0@ == in_context(context@, i32_complaint(text@))
            },
        },
{
    match i32_from_str(text) {
        Ok(value) => Ok(value),
        Err(complaint) => Err(complain(context, complaint.as_str())),
    }
}

/// Reads a column that holds a type code: decimal digits, with `+` in front
/// of them or without. Anything else, and a number above 255, is refused,
/// under the column's name.
pub fn parse_u8(text: &str, context: &str) -> (parsed: Result<u8, ParseError>)
    ensures
        match parsed {
            Ok(value) => decimal(text@, false) == Some(value as int),
            Err(error) => {
                &&& !(decimal(text@, false) matches Some(value) && value <= u8::MAX)
                &&& error.0@ == in_context(context@, u8_complaint(text@))
            },
        },
{
    match u8_from_str(text) {
        Ok(value) => Ok(value),
        Err(complaint) => Err(complain(context, complaint.as_str())),
    }
}

} // verus!
