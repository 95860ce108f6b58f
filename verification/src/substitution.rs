//! The substitution rule: what a digraph is replaced by, in either
//! direction, under a key; and why the two directions undo each other.

use vstd::prelude::*;
use crate::alphabet::{
    is_letter, is_symbol, lemma_letters_are_letters, lemma_letters_of_lowercase, letters, merged,
};
use crate::digraph::{
    digraphs, is_paired, lemma_digraphs_of_letters, lemma_digraphs_of_paired,
    lemma_digraphs_of_spelled, lemma_spelled_digraphs, pair_at, spelled, Bigram,
};
use crate::keyword::{
    cell, is_cell, is_key, lemma_cell, lemma_position_in, lemma_same_cell, position_in,
};

verus! {

/// Where two cells move to when each goes `step` cells along the line that
/// the two share. Two cells of one column move down their column, two cells
/// of one row move right along their row, both with wraparound. Two cells
/// that share neither move to the other two corners of their rectangle:
/// each keeps its column and takes the row of the other.
pub open spec fn moved(a: (int, int), b: (int, int), step: int) -> ((int, int), (int, int)) {
    if a.1 == b.1 {
        (((a.0 + step) % 5, a.1), ((b.0 + step) % 5, b.1))
    } else if a.0 == b.0 {
        ((a.0, (a.1 + step) % 5), (b.0, (b.1 + step) % 5))
    } else {
        ((b.0, a.1), (a.0, b.1))
    }
}

/// The digraph that replaces a digraph: its two letters are looked up in
/// the grid, the two cells are moved, and the symbols at the cells they
/// reach are read off.
pub open spec fn substituted(key: Seq<char>, pair: Bigram, step: int) -> Bigram {
    let (a, b) = moved(position_in(key, pair.0), position_in(key, pair.1), step);
    (cell(key, a.0, a.1), cell(key, b.0, b.1))
}

/// A sequence of digraphs, each replaced.
pub open spec fn substituted_digraphs(key: Seq<char>, pairs: Seq<Bigram>, step: int) -> Seq<
    Bigram,
> {
    pairs.map_values(|pair: Bigram| substituted(key, pair, step))
}

/// The text that replaces a text: the letters of the text are cut into
/// digraphs, each digraph is replaced, and the results are spelled out.
pub open spec fn substituted_text(key: Seq<char>, text: Seq<char>, step: int) -> Seq<char> {
    spelled(substituted_digraphs(key, digraphs(letters(text)), step))
}

/// The digraph that a digraph is encrypted to: one cell down or to the
/// right, or across the rectangle.
pub open spec fn encrypted_digraph(key: Seq<char>, pair: Bigram) -> Bigram {
    substituted(key, pair, 1)
}

/// The digraph that a digraph is decrypted to: one cell up or to the left,
/// which is four cells down or to the right, or across the rectangle.
pub open spec fn decrypted_digraph(key: Seq<char>, pair: Bigram) -> Bigram {
    substituted(key, pair, 4)
}

/// The ciphertext of a plaintext under a key.
pub open spec fn encrypted_text(key: Seq<char>, plaintext: Seq<char>) -> Seq<char> {
    substituted_text(key, plaintext, 1)
}

/// The plaintext of a ciphertext under a key.
pub open spec fn decrypted_text(key: Seq<char>, ciphertext: Seq<char>) -> Seq<char> {
    substituted_text(key, ciphertext, 4)
}

/// Both letters of a digraph, each with 'j' read as 'i'.
pub open spec fn merged_digraph(pair: Bigram) -> Bigram {
    (merged(pair.0), merged(pair.1))
}

/// A sequence of digraphs, in each of them 'j' read as 'i'.
pub open spec fn merged_digraphs(pairs: Seq<Bigram>) -> Seq<Bigram> {
    pairs.map_values(|pair: Bigram| merged_digraph(pair))
}

/// A step along a line of five cells, with wraparound.
proof fn lemma_wrapped(at: int, step: int)
    requires
        0 <= at < 5,
        0 <= step < 5,
    ensures
        (at + step) % 5 == if at + step < 5 {
            at + step
        } else {
            at + step - 5
        },
{
}

/// Moved cells are cells; they coincide exactly if the cells they came from
/// do; and a second move brings them back when the two steps add up to a
/// full turn.
pub proof fn lemma_moved(a: (int, int), b: (int, int), there: int, back: int)
    requires
        is_cell(a),
        is_cell(b),
        1 <= there < 5,
        there + back == 5,
    ensures
        is_cell(moved(a, b, there).0),
        is_cell(moved(a, b, there).1),
        moved(a, b, there).0 == moved(a, b, there).1 <==> a == b,
        moved(moved(a, b, there).0, moved(a, b, there).1, back) == (a, b),
{
    let (c, d) = moved(a, b, there);
    lemma_wrapped(a.0, there);
    lemma_wrapped(a.1, there);
    lemma_wrapped(b.0, there);
    lemma_wrapped(b.1, there);
    lemma_wrapped(c.0, back);
    lemma_wrapped(c.1, back);
    lemma_wrapped(d.0, back);
    lemma_wrapped(d.1, back);
}

/// What replaces a digraph of letters is made of symbols. Its two symbols
/// are the same exactly if the two letters are, once 'j' is read as 'i'.
/// And a second substitution brings the letters back, with 'j' read as 'i',
/// when the two steps add up to a full turn.
pub proof fn lemma_substituted(key: Seq<char>, pair: Bigram, there: int, back: int)
    requires
        is_key(key),
        is_letter(pair.0),
        is_letter(pair.1),
        1 <= there < 5,
        there + back == 5,
    ensures
        is_symbol(substituted(key, pair, there).0),
        is_symbol(substituted(key, pair, there).1),
        substituted(key, pair, there).0 == substituted(key, pair, there).1 <==> merged(pair.0)
            == merged(pair.1),
        substituted(key, substituted(key, pair, there), back) == merged_digraph(pair),
{
    let a = position_in(key, pair.0);
    let b = position_in(key, pair.1);
    let (c, d) = moved(a, b, there);
    lemma_position_in(key, pair.0);
    lemma_position_in(key, pair.1);
    lemma_same_cell(key, pair.0, pair.1);
    lemma_moved(a, b, there, back);
    lemma_cell(key, c.0, c.1);
    lemma_cell(key, d.0, d.1);
}

/// Encryption and decryption undo each other on every digraph of letters,
/// up to the reading of 'j' as 'i'.
pub proof fn lemma_digraph_round_trip(key: Seq<char>, pair: Bigram)
    requires
        is_key(key),
        is_letter(pair.0),
        is_letter(pair.1),
    ensures
        decrypted_digraph(key, encrypted_digraph(key, pair)) == merged_digraph(pair),
        encrypted_digraph(key, decrypted_digraph(key, pair)) == merged_digraph(pair),
{
    lemma_substituted(key, pair, 1, 4);
    lemma_substituted(key, pair, 4, 1);
}

/// A substituted text is made of symbols, two for each digraph of the text
/// it was made from.
pub proof fn lemma_substituted_text_is_symbols(key: Seq<char>, text: Seq<char>, step: int)
    requires
        is_key(key),
        1 <= step < 5,
    ensures
        substituted_text(key, text, step).len() == 2 * digraphs(letters(text)).len(),
        forall|i: int|
            0 <= i < substituted_text(key, text, step).len() ==> is_symbol(
                #[trigger] substituted_text(key, text, step)[i],
            ),
{
    let pairs = digraphs(letters(text));
    let replaced = substituted_digraphs(key, pairs, step);
    lemma_letters_are_letters(text);
    lemma_digraphs_of_letters(letters(text));
    assert forall|i: int| 0 <= i < spelled(replaced).len() implies is_symbol(
        #[trigger] spelled(replaced)[i],
    ) by {
        lemma_substituted(key, pairs[i / 2], step, 5 - step);
    }
}

/// A text that was substituted and is substituted again comes back as its
/// digraphs spell it, with 'j' read as 'i', when the two steps add up to a
/// full turn and no digraph of the text pairs a symbol with itself.
proof fn lemma_substituted_text(key: Seq<char>, text: Seq<char>, there: int, back: int)
    requires
        is_key(key),
        1 <= there < 5,
        there + back == 5,
        forall|k: int|
            0 <= k < digraphs(letters(text)).len() ==> merged(
                (#[trigger] digraphs(letters(text))[k]).0,
            ) != merged(digraphs(letters(text))[k].1),
    ensures
        substituted_text(key, substituted_text(key, text, there), back) == spelled(
            merged_digraphs(digraphs(letters(text))),
        ),
{
    let pairs = digraphs(letters(text));
    let replaced = substituted_digraphs(key, pairs, there);
    let between = spelled(replaced);
    lemma_letters_are_letters(text);
    lemma_digraphs_of_letters(letters(text));
    assert forall|k: int| 0 <= k < replaced.len() implies {
        &&& (#[trigger] replaced[k]).0 != replaced[k].1
        &&& substituted(key, replaced[k], back) == merged_digraph(pairs[k])
    } by {
        lemma_substituted(key, pairs[k], there, back);
    }
    lemma_substituted_text_is_symbols(key, text, there);
    lemma_letters_of_lowercase(between);
    lemma_digraphs_of_spelled(replaced);
    assert(substituted_digraphs(key, replaced, back) == merged_digraphs(pairs));
}

/// Decryption undoes encryption, and encryption decryption, up to what
/// segmentation and merging did to the text: where no digraph of a text
/// pairs a symbol with itself, encrypting the text and decrypting the
/// result, or the other way round, spells out the digraphs of the text,
/// with 'j' read as 'i'.
pub proof fn lemma_decrypt_inverts_encrypt(key: Seq<char>, text: Seq<char>)
    requires
        is_key(key),
        forall|k: int|
            0 <= k < digraphs(letters(text)).len() ==> merged(
                (#[trigger] digraphs(letters(text))[k]).0,
            ) != merged(digraphs(letters(text))[k].1),
    ensures
        decrypted_text(key, encrypted_text(key, text)) == spelled(
            merged_digraphs(digraphs(letters(text))),
        ),
        encrypted_text(key, decrypted_text(key, text)) == spelled(
            merged_digraphs(digraphs(letters(text))),
        ),
{
    lemma_substituted_text(key, text, 1, 4);
    lemma_substituted_text(key, text, 4, 1);
}

/// The round trip: a text of symbols that falls into digraphs as it stands
/// is what decryption gives back from its ciphertext, and what encryption
/// gives back from its plaintext.
pub proof fn lemma_round_trip(key: Seq<char>, text: Seq<char>)
    requires
        is_key(key),
        forall|i: int| 0 <= i < text.len() ==> is_symbol(#[trigger] text[i]),
        is_paired(text),
    ensures
        decrypted_text(key, encrypted_text(key, text)) == text,
        encrypted_text(key, decrypted_text(key, text)) == text,
{
    lemma_letters_of_lowercase(text);
    lemma_digraphs_of_paired(text);
    let pairs = digraphs(text);
    assert forall|k: int| 0 <= k < pairs.len() implies merged((#[trigger] pairs[k]).0) != merged(
        pairs[k].1,
    ) && merged_digraph(pairs[k]) == pairs[k] by {
        assert(pairs[k] == pair_at(text, k));
        assert(pair_at(text, k).0 != pair_at(text, k).1);
        assert(is_symbol(text[2 * k]) && is_symbol(text[2 * k + 1]));
    }
    lemma_decrypt_inverts_encrypt(key, text);
    assert(merged_digraphs(pairs) == pairs);
    lemma_spelled_digraphs(text);
}

/// The cipher reads 'j' as 'i': 'j' is looked up where 'i' is, and a
/// digraph is replaced by what replaces the digraph of its merged letters.
pub proof fn lemma_j_is_read_as_i(key: Seq<char>, pair: Bigram, step: int)
    requires
        is_key(key),
    ensures
        position_in(key, 'j') == position_in(key, 'i'),
        position_in(key, merged(pair.0)) == position_in(key, pair.0),
        position_in(key, merged(pair.1)) == position_in(key, pair.1),
        substituted(key, merged_digraph(pair), step) == substituted(key, pair, step),
{
    assert(!key.contains('j'));
}

/// Two texts whose digraphs are the same once 'j' is read as 'i' have the
/// same ciphertext and the same plaintext.
pub proof fn lemma_texts_alike_up_to_j(key: Seq<char>, one: Seq<char>, other: Seq<char>)
    requires
        is_key(key),
        merged_digraphs(digraphs(letters(one))) == merged_digraphs(digraphs(letters(other))),
    ensures
        encrypted_text(key, one) == encrypted_text(key, other),
        decrypted_text(key, one) == decrypted_text(key, other),
{
    lemma_substituted_merged_digraphs(key, digraphs(letters(one)), 1);
    lemma_substituted_merged_digraphs(key, digraphs(letters(other)), 1);
    lemma_substituted_merged_digraphs(key, digraphs(letters(one)), 4);
    lemma_substituted_merged_digraphs(key, digraphs(letters(other)), 4);
}

/// A sequence of digraphs is replaced by what replaces the sequence of its
/// merged digraphs.
proof fn lemma_substituted_merged_digraphs(key: Seq<char>, pairs: Seq<Bigram>, step: int)
    requires
        is_key(key),
    ensures
        substituted_digraphs(key, merged_digraphs(pairs), step) == substituted_digraphs(
            key,
            pairs,
            step,
        ),
{
    assert forall|k: int| 0 <= k < pairs.len() implies substituted(
        key,
        merged_digraph(#[trigger] pairs[k]),
        step,
    ) == substituted(key, pairs[k], step) by {
        lemma_j_is_read_as_i(key, pairs[k], step);
    }
}

} // verus!
