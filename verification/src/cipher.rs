//! The cipher itself: a grid under a keyword, and the encryption and
//! decryption of texts with it.

use vstd::prelude::*;
use vstd::pervasive::unreached;
use crate::alphabet::{letters, letters_of};
use crate::digraph::{digraphs, lemma_spelled_push, segment, spelled, Bigram};
use crate::keyword::{
    cell, is_cell, is_grid_of, is_key, key_of, lemma_cell, position_in, Keyword, Matrix,
};
use crate::substitution::{decrypted_text, encrypted_text, substituted, substituted_digraphs};

verus! {

/// A place in the grid: the row, then the column.
pub type Position = (usize, usize);

/// A cipher: a way to encrypt a text and to decrypt it again.
pub trait Cipher {
    /// The ciphertext of a plaintext.
    spec fn encrypted(&self, plaintext: Seq<char>) -> Seq<char>;

    /// The plaintext of a ciphertext.
    spec fn decrypted(&self, ciphertext: Seq<char>) -> Seq<char>;

    /// Encrypts a plaintext.
    fn encrypt(&self, plaintext: &str) -> (ciphertext: String)
        ensures
            ciphertext@ == self.encrypted(plaintext@),
    ;

    /// Decrypts a ciphertext.
    fn decrypt(&self, ciphertext: &str) -> (plaintext: String)
        ensures
            plaintext@ == self.decrypted(ciphertext@),
    ;
}

/// The Playfair cipher under one keyword. Its view is the key: the 25
/// symbols in the order of the keyword.
pub struct Playfair {
    keyword: Keyword,
    matrix: Matrix,
}

impl View for Playfair {
    type V = Seq<char>;

    closed spec fn view(&self) -> Seq<char> {
        self.keyword@
    }
}

impl Cipher for Playfair {
    open spec fn encrypted(&self, plaintext: Seq<char>) -> Seq<char> {
        encrypted_text(self@, plaintext)
    }

    open spec fn decrypted(&self, ciphertext: Seq<char>) -> Seq<char> {
        decrypted_text(self@, ciphertext)
    }

    fn encrypt(&self, plaintext: &str) -> (ciphertext: String)
        ensures
            ciphertext@.len() == 2 * digraphs(letters(plaintext@)).len(),
    {
        let mut buffer = String::new();
        let bigrams: Vec<Bigram> = Playfair::bigramify(plaintext);
        for i in 0..bigrams.len()
            invariant
                buffer@ == spelled(substituted_digraphs(self@, bigrams@.take(i as int), 1)),
        {
            let bigram = bigrams[i];
            let a_pos: Position = self.get_position_in_matrix(&bigram.0);
            let b_pos: Position = self.get_position_in_matrix(&bigram.1);
            proof {
                use_type_invariant(self);
                let done = bigrams@.take(i as int);
                assert(bigrams@.take(i + 1) == done.push(bigram));
                assert(substituted_digraphs(self@, done.push(bigram), 1) == substituted_digraphs(
                    self@,
                    done,
                    1,
                ).push(substituted(self@, bigram, 1)));
                lemma_spelled_push(
                    substituted_digraphs(self@, done, 1),
                    substituted(self@, bigram, 1),
                );
            }
            if a_pos.1 == b_pos.1 {
                // One column: each symbol gives way to the one below it.
                buffer.push(self.matrix[(a_pos.0 + 1) % 5][a_pos.1]);
                buffer.push(self.matrix[(b_pos.0 + 1) % 5][b_pos.1]);
            } else if a_pos.0 == b_pos.0 {
                // One row: each symbol gives way to the one on its right.
                buffer.push(self.matrix[a_pos.0][(a_pos.1 + 1) % 5]);
                buffer.push(self.matrix[b_pos.0][(b_pos.1 + 1) % 5]);
            } else {
                // A rectangle: each symbol gives way to the one in its own
                // column and in the row of the other.
                buffer.push(self.matrix[b_pos.0][a_pos.1]);
                buffer.push(self.matrix[a_pos.0][b_pos.1]);
            }
        }
        assert(bigrams@.take(bigrams@.len() as int) == bigrams@);
        buffer
    }

    fn decrypt(&self, ciphertext: &str) -> (plaintext: String)
        ensures
            plaintext@.len() == 2 * digraphs(letters(ciphertext@)).len(),
    {
        let mut buffer = String::new();
        let bigrams: Vec<Bigram> = Playfair::bigramify(ciphertext);
        for i in 0..bigrams.len()
            invariant
                buffer@ == spelled(substituted_digraphs(self@, bigrams@.take(i as int), 4)),
        {
            let bigram = bigrams[i];
            let a_pos: Position = self.get_position_in_matrix(&bigram.0);
            let b_pos: Position = self.get_position_in_matrix(&bigram.1);
            proof {
                use_type_invariant(self);
                let done = bigrams@.take(i as int);
                assert(bigrams@.take(i + 1) == done.push(bigram));
                assert(substituted_digraphs(self@, done.push(bigram), 4) == substituted_digraphs(
                    self@,
                    done,
                    4,
                ).push(substituted(self@, bigram, 4)));
                lemma_spelled_push(
                    substituted_digraphs(self@, done, 4),
                    substituted(self@, bigram, 4),
                );
            }
            if a_pos.1 == b_pos.1 {
                // One column: each symbol gives way to the one above it.
                buffer.push(self.matrix[(a_pos.0 + 4) % 5][a_pos.1]);
                buffer.push(self.matrix[(b_pos.0 + 4) % 5][b_pos.1]);
            } else if a_pos.0 == b_pos.0 {
                // One row: each symbol gives way to the one on its left.
                buffer.push(self.matrix[a_pos.0][(a_pos.1 + 4) % 5]);
                buffer.push(self.matrix[b_pos.0][(b_pos.1 + 4) % 5]);
            } else {
                // A rectangle: the same exchange as in encryption.
                buffer.push(self.matrix[b_pos.0][a_pos.1]);
                buffer.push(self.matrix[a_pos.0][b_pos.1]);
            }
        }
        assert(bigrams@.take(bigrams@.len() as int) == bigrams@);
        buffer
    }
}

impl Playfair {
    #[verifier::type_invariant]
    spec fn grid_is_laid_out(&self) -> bool {
        is_key(self.keyword@) && is_grid_of(self.matrix, self.keyword@)
    }

    /// Makes the cipher for a seed: derives the keyword and lays out the
    /// grid.
    pub fn new(kw: &str) -> (cipher: Self)
        ensures
            cipher@ == key_of(kw@),
            is_key(cipher@),
    {
        let keyword = Keyword::new(kw);
        let matrix = keyword.to_matrix();
        Self { keyword, matrix }
    }

    /// Cuts a text into the digraphs that the cipher substitutes: the
    /// letters of the text, lowercased, paired from the left, with a filler
    /// after a letter that is followed by itself or by nothing.
    pub fn bigramify(input: &str) -> (bigrams: Vec<Bigram>)
        ensures
            bigrams@ == digraphs(letters(input@)),
    {
        let input = letters_of(input);
        segment(&input)
    }

    /// The first cell that holds a character, rows first.
    fn find(&self, c: char) -> (found: Option<Position>)
        ensures
            match found {
                Some(at) => is_cell((at.0 as int, at.1 as int)) && cell(
                    self@,
                    at.0 as int,
                    at.1 as int,
                ) == c,
                None => forall|row: int, column: int|
                    is_cell((row, column)) ==> #[trigger] cell(self@, row, column) != c,
            },
    {
        proof {
            use_type_invariant(self);
        }
        for idx in 0..5usize
            invariant
                is_grid_of(self.matrix, self@),
                forall|row: int, column: int|
                    0 <= row < idx && 0 <= column < 5 ==> #[trigger] cell(self@, row, column) != c,
        {
            for jdx in 0..5usize
                invariant
                    idx < 5,
                    is_grid_of(self.matrix, self@),
                    forall|row: int, column: int|
                        0 <= row < idx && 0 <= column < 5 ==> #[trigger] cell(self@, row, column)
                            != c,
                    forall|column: int|
                        0 <= column < jdx ==> #[trigger] cell(self@, idx as int, column) != c,
            {
                if self.matrix[idx][jdx] == c {
                    return Some((idx, jdx));
                }
            }
        }
        None
    }

    /// Looks a character up in the grid. A symbol is found at its cell, and
    /// every other character where 'i' is, so 'j' and 'i' share a cell.
    pub fn get_position_in_matrix(&self, to_search: &char) -> (position: Position)
        ensures
            (position.0 as int, position.1 as int) == position_in(self@, *to_search),
            position.0 < 5,
            position.1 < 5,
            is_key(self@),
    {
        proof {
            use_type_invariant(self);
        }
        match self.find(*to_search) {
            Some(at) => {
                proof {
                    lemma_cell(self@, at.0 as int, at.1 as int);
                }
                at
            },
            None => {
                proof {
                    lemma_absent(self@, *to_search);
                }
                match self.find('i') {
                    Some(at) => {
                        proof {
                            lemma_cell(self@, at.0 as int, at.1 as int);
                        }
                        at
                    },
                    None => {
                        proof {
                            lemma_absent(self@, 'i');
                        }
                        unreached()
                    },
                }
            },
        }
    }

    /// The keyword: the 25 symbols in the order of the key.
    pub fn keyword(&self) -> (symbols: &str)
        ensures
            symbols@ == self@,
            is_key(self@),
    {
        self.keyword.as_str()
    }

    /// Replaces the key by the one that a new seed gives. Nothing of the
    /// old key is kept.
    pub fn update_keyword(&mut self, kw: &str)
        ensures
            final(self)@ == key_of(kw@),
            is_key(final(self)@),
    {
        *self = Playfair::new(kw);
    }
}

/// A character that no cell of the grid holds is not in the key.
proof fn lemma_absent(key: Seq<char>, c: char)
    requires
        is_key(key),
        forall|row: int, column: int|
            is_cell((row, column)) ==> #[trigger] cell(key, row, column) != c,
    ensures
        !key.contains(c),
{
    if key.contains(c) {
        let n = choose|n: int| 0 <= n < key.len() && key[n] == c;
        assert(cell(key, n % 5, n / 5) == c);
    }
}

/// Re-keying leaves nothing behind: a cipher that was given a new key by a
/// seed encrypts and decrypts every text as a cipher made from that seed
/// does.
pub proof fn lemma_rekeyed_is_fresh(
    rekeyed: Playfair,
    fresh: Playfair,
    seed: Seq<char>,
    text: Seq<char>,
)
    requires
        rekeyed@ == key_of(seed),
        fresh@ == key_of(seed),
    ensures
        rekeyed.encrypted(text) == fresh.encrypted(text),
        rekeyed.decrypted(text) == fresh.decrypted(text),
{
}

} // verus!
