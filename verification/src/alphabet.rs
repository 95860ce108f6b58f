//! The characters the cipher works on: which of them are letters, which
//! letters are symbols of the grid, and how a text is reduced to its letters.

use vstd::prelude::*;
use vstd::seq_lib::lemma_seq_contains_after_push;

verus! {

/// The letter that completes a lone letter to a digraph and that splits a
/// doubled letter.
pub const FILLER: char = 'x';

/// A lowercase Latin letter.
pub open spec fn is_letter(c: char) -> bool {
    'a' <= c <= 'z'
}

/// One of the 25 symbols of the grid: a lowercase Latin letter other than 'j'.
pub open spec fn is_symbol(c: char) -> bool {
    is_letter(c) && c != 'j'
}

/// The lowercase letter that a character spells, for the 26 Latin letters
/// in either case; `None` for every other character.
pub open spec fn letter_of(c: char) -> Option<char> {
    if 'a' <= c <= 'z' {
        Some(c)
    } else if 'A' <= c <= 'Z' {
        Some((c as int + 32) as char)
    } else {
        None
    }
}

/// The symbol that stands for a letter in the grid: 'i' for 'j', and the
/// letter itself otherwise.
pub open spec fn merged(c: char) -> char {
    if c == 'j' {
        'i'
    } else {
        c
    }
}

/// The 25 symbols in their canonical order.
pub open spec fn alphabet() -> Seq<char> {
    "abcdefghiklmnopqrstuvwxyz"@
}

/// The letters of a text, lowercased and in order; every character that is
/// not a Latin letter is dropped.
pub open spec fn letters(text: Seq<char>) -> Seq<char> {
    text.filter_map(|c: char| letter_of(c))
}

/// Computes [`letter_of`].
pub fn lowercase_letter(c: char) -> (letter: Option<char>)
    ensures
        letter == letter_of(c),
{
    if 'a' <= c && c <= 'z' {
        Some(c)
    } else if 'A' <= c && c <= 'Z' {
        Some(((c as u8) + 32) as char)
    } else {
        None
    }
}

/// Computes [`merged`].
pub fn merge(c: char) -> (symbol: char)
    ensures
        symbol == merged(c),
{
    if c == 'j' {
        'i'
    } else {
        c
    }
}

/// Collects the letters of a text, see [`letters`].
pub fn letters_of(text: &str) -> (found: Vec<char>)
    ensures
        found@ == letters(text@),
{
    let mut found: Vec<char> = Vec::new();
    for c in it: text.chars()
        invariant
            it.seq() == text@,
            found@ == letters(text@.take(it.index() as int)),
    {
        proof {
            text@.lemma_filter_map_take_succ(|c: char| letter_of(c), it.index() as int);
        }
        match lowercase_letter(c) {
            Some(letter) => found.push(letter),
            None => {},
        }
    }
    assert(text@.take(text@.len() as int) == text@);
    found
}

/// Whether a character occurs in a string.
pub fn occurs_in(text: &str, c: char) -> (found: bool)
    ensures
        found == text@.contains(c),
{
    let mut found = false;
    for d in it: text.chars()
        invariant
            it.seq() == text@,
            found == text@.take(it.index() as int).contains(c),
    {
        proof {
            let seen = text@.take(it.index() as int);
            assert(text@.take(it.index() + 1) == seen.push(d));
            lemma_seq_contains_after_push(seen, d, c);
        }
        if d == c {
            found = true;
        }
    }
    assert(text@.take(text@.len() as int) == text@);
    found
}

/// Every character of `letters(text)` is a lowercase letter.
pub proof fn lemma_letters_are_letters(text: Seq<char>)
    ensures
        forall|i: int| 0 <= i < letters(text).len() ==> is_letter(#[trigger] letters(text)[i]),
{
    assert forall|i: int| 0 <= i < letters(text).len() implies is_letter(
        #[trigger] letters(text)[i],
    ) by {
        let letter = letters(text)[i];
        assert(letters(text).contains(letter));
        text.lemma_filter_map_contains(|c: char| letter_of(c), letter);
    }
}

/// A text of lowercase letters is its own sequence of letters.
pub proof fn lemma_letters_of_lowercase(text: Seq<char>)
    requires
        forall|i: int| 0 <= i < text.len() ==> is_letter(#[trigger] text[i]),
    ensures
        letters(text) == text,
    decreases text.len(),
{
    if text.len() > 0 {
        lemma_letters_of_lowercase(text.drop_last());
        assert(text.drop_last().push(text.last()) == text);
    }
}

/// What the canonical alphabet holds: the 25 symbols, each once.
pub proof fn lemma_alphabet()
    ensures
        alphabet().len() == 25,
        alphabet().no_duplicates(),
        forall|c: char| #[trigger] alphabet().contains(c) <==> is_symbol(c),
{
    reveal_strlit("abcdefghiklmnopqrstuvwxyz");
    let a = alphabet();
    assert forall|c: char| is_symbol(c) implies #[trigger] a.contains(c) by {
        let offset: int = c as int - 'a' as int;
        let i: int = if offset <= 8 { offset } else { offset - 1 };
        assert(a[i] == c);
    }
}

} // verus!
