//! The key schedule: how a seed is turned into an ordering of the 25
//! symbols, and how that ordering is laid out as a 5×5 grid.

use vstd::prelude::*;
use vstd::seq_lib::lemma_seq_contains_after_push;
use crate::alphabet::{
    alphabet, is_letter, is_symbol, lemma_alphabet, lemma_letters_are_letters,
    lemma_letters_of_lowercase, letter_of, letters, lowercase_letter, merge, merged, occurs_in,
};

verus! {

/// The grid: `matrix[row][column]`.
pub type Matrix = [[char; 5]; 5];

/// The symbols of a sequence in the order of their first occurrence, each
/// kept once.
pub open spec fn distinct(s: Seq<char>) -> Seq<char>
    decreases s.len(),
{
    if s.len() == 0 {
        s
    } else {
        let before = distinct(s.drop_last());
        if before.contains(s.last()) {
            before
        } else {
            before.push(s.last())
        }
    }
}

/// The symbols that a seed contributes to the key: its letters, lowercased,
/// with every 'j' replaced by 'i'.
pub open spec fn seed_symbols(seed: Seq<char>) -> Seq<char> {
    letters(seed).map_values(|c: char| merged(c))
}

/// The key that a seed gives: the seed's symbols followed by the canonical
/// alphabet, each symbol kept at its first occurrence only.
pub open spec fn key_of(seed: Seq<char>) -> Seq<char> {
    distinct(seed_symbols(seed) + alphabet())
}

/// A key holds each of the 25 symbols exactly once, and nothing else.
pub open spec fn is_key(key: Seq<char>) -> bool {
    &&& key.len() == 25
    &&& key.no_duplicates()
    &&& forall|c: char| #[trigger] key.contains(c) <==> is_symbol(c)
}

/// The symbol of the grid at a row and a column. The grid is filled column
/// by column: the symbol at index `n` of the key stands in row `n % 5` and
/// column `n / 5`.
pub open spec fn cell(key: Seq<char>, row: int, column: int) -> char {
    key[column * 5 + row]
}

/// A place in the grid: a row and a column, each from 0 to 4.
pub open spec fn is_cell(at: (int, int)) -> bool {
    0 <= at.0 < 5 && 0 <= at.1 < 5
}

/// Whether a matrix is the grid of a key.
pub open spec fn is_grid_of(matrix: Matrix, key: Seq<char>) -> bool {
    forall|row: int, column: int|
        is_cell((row, column)) ==> #[trigger] matrix[row][column] == cell(key, row, column)
}

/// The index in the key at which a character is looked up: its own, where
/// the key holds it, and that of 'i' for every other character. So 'j' is
/// found where 'i' is.
pub open spec fn index_in(key: Seq<char>, c: char) -> int {
    if key.contains(c) {
        key.index_of(c)
    } else {
        key.index_of('i')
    }
}

/// The row and the column at which a character is looked up in the grid.
pub open spec fn position_in(key: Seq<char>, c: char) -> (int, int) {
    (index_in(key, c) % 5, index_in(key, c) / 5)
}

/// What `distinct` keeps: every symbol of the sequence, and none twice.
pub proof fn lemma_distinct(s: Seq<char>)
    ensures
        distinct(s).no_duplicates(),
        forall|c: char| #[trigger] distinct(s).contains(c) <==> s.contains(c),
    decreases s.len(),
{
    if s.len() > 0 {
        let front = s.drop_last();
        let before = distinct(front);
        lemma_distinct(front);
        assert(s == front.push(s.last()));
        assert forall|c: char| #[trigger] distinct(s).contains(c) <==> s.contains(c) by {
            lemma_seq_contains_after_push(front, s.last(), c);
            lemma_seq_contains_after_push(before, s.last(), c);
        }
    }
}

/// One more symbol at the end is kept exactly if it has not occurred before.
pub proof fn lemma_distinct_push(s: Seq<char>, c: char)
    ensures
        distinct(s.push(c)) == if distinct(s).contains(c) {
            distinct(s)
        } else {
            distinct(s).push(c)
        },
{
    assert(s.push(c).drop_last() == s);
}

/// A sequence without duplicates is kept as it is.
pub proof fn lemma_distinct_of_distinct(s: Seq<char>)
    requires
        s.no_duplicates(),
    ensures
        distinct(s) == s,
    decreases s.len(),
{
    if s.len() > 0 {
        let front = s.drop_last();
        lemma_distinct_of_distinct(front);
        assert(!front.contains(s.last()));
        assert(front.push(s.last()) == s);
    }
}

/// Symbols that have all occurred before add nothing.
pub proof fn lemma_distinct_of_known(s: Seq<char>, known: Seq<char>)
    requires
        forall|i: int| 0 <= i < known.len() ==> s.contains(#[trigger] known[i]),
    ensures
        distinct(s + known) == distinct(s),
    decreases known.len(),
{
    if known.len() == 0 {
        assert(s + known == s);
    } else {
        let front = known.drop_last();
        lemma_distinct_of_known(s, front);
        lemma_distinct(s);
        assert(s.contains(known.last()));
        assert((s + known).drop_last() == s + front);
    }
}

/// Every seed gives a key: each of the 25 symbols exactly once.
pub proof fn lemma_key_of_is_key(seed: Seq<char>)
    ensures
        is_key(key_of(seed)),
{
    let own = seed_symbols(seed);
    let source = own + alphabet();
    let key = distinct(source);
    lemma_alphabet();
    lemma_distinct(source);
    lemma_letters_are_letters(seed);
    assert forall|c: char| #[trigger] key.contains(c) <==> is_symbol(c) by {
        assert(key.contains(c) <==> source.contains(c));
        if source.contains(c) {
            let k = choose|k: int| 0 <= k < source.len() && source[k] == c;
            if k < own.len() {
                assert(c == merged(letters(seed)[k]));
            } else {
                assert(alphabet()[k - own.len()] == c);
                assert(alphabet().contains(c));
            }
        }
        if is_symbol(c) {
            assert(alphabet().contains(c));
            let k = choose|k: int| 0 <= k < alphabet().len() && alphabet()[k] == c;
            assert(source[own.len() + k] == c);
        }
    }
    assert(key.to_set() =~= alphabet().to_set());
    key.unique_seq_to_set();
    alphabet().unique_seq_to_set();
}

/// A key is the key that it gives as a seed.
pub proof fn lemma_key_of_key(key: Seq<char>)
    requires
        is_key(key),
    ensures
        key_of(key) == key,
{
    lemma_alphabet();
    assert forall|i: int| 0 <= i < key.len() implies is_symbol(#[trigger] key[i]) by {
        assert(key.contains(key[i]));
    }
    lemma_letters_of_lowercase(key);
    assert(seed_symbols(key) == key);
    assert forall|i: int| 0 <= i < alphabet().len() implies key.contains(
        #[trigger] alphabet()[i],
    ) by {
        assert(alphabet().contains(alphabet()[i]));
    }
    lemma_distinct_of_known(key, alphabet());
    lemma_distinct_of_distinct(key);
}

/// In a key, every character is looked up at one index, and that index
/// holds the character itself if it is a symbol, and 'i' if it is not.
pub proof fn lemma_index_in(key: Seq<char>, c: char)
    requires
        is_key(key),
    ensures
        0 <= index_in(key, c) < 25,
        key[index_in(key, c)] == (if is_symbol(c) {
            c
        } else {
            'i'
        }),
        forall|n: int|
            0 <= n < 25 && #[trigger] key[n] == key[index_in(key, c)] ==> n == index_in(key, c),
{
    assert(key.contains('i'));
}

/// Every cell of the grid holds a symbol, and that symbol is looked up at
/// this cell.
pub proof fn lemma_cell(key: Seq<char>, row: int, column: int)
    requires
        is_key(key),
        is_cell((row, column)),
    ensures
        is_symbol(cell(key, row, column)),
        position_in(key, cell(key, row, column)) == (row, column),
{
    let n = column * 5 + row;
    assert(key.contains(key[n]));
    lemma_index_in(key, key[n]);
}

/// Every letter is looked up at a cell of the grid, and that cell holds the
/// letter, with 'j' read as 'i'.
pub proof fn lemma_position_in(key: Seq<char>, c: char)
    requires
        is_key(key),
    ensures
        is_cell(position_in(key, c)),
        is_letter(c) ==> cell(key, position_in(key, c).0, position_in(key, c).1) == merged(c),
{
    lemma_index_in(key, c);
}

/// Two letters are looked up at the same cell exactly if they are the same
/// symbol once 'j' is read as 'i'.
pub proof fn lemma_same_cell(key: Seq<char>, a: char, b: char)
    requires
        is_key(key),
        is_letter(a),
        is_letter(b),
    ensures
        position_in(key, a) == position_in(key, b) <==> merged(a) == merged(b),
{
    lemma_index_in(key, a);
    lemma_index_in(key, b);
}

/// The grid of a key holds each symbol exactly once: in the cell at which
/// the symbol is looked up, and in no other.
pub proof fn lemma_grid_holds_each_symbol_once(key: Seq<char>, symbol: char)
    requires
        is_key(key),
        is_symbol(symbol),
    ensures
        is_cell(position_in(key, symbol)),
        forall|row: int, column: int|
            is_cell((row, column)) ==> (#[trigger] cell(key, row, column) == symbol <==> (
                row,
                column,
            ) == position_in(key, symbol)),
{
    lemma_position_in(key, symbol);
    assert forall|row: int, column: int| is_cell((row, column)) && #[trigger] cell(
        key,
        row,
        column,
    ) == symbol implies (row, column) == position_in(key, symbol) by {
        lemma_cell(key, row, column);
    }
}

/// A keyword: the 25 symbols in the order that a seed gives them.
#[derive(Debug)]
pub struct Keyword(String);

impl PartialEq for Keyword {
    fn eq(&self, other: &Self) -> (equal: bool) {
        self.0 == other.0
    }
}

impl vstd::std_specs::cmp::PartialEqSpecImpl for Keyword {
    open spec fn obeys_eq_spec() -> bool {
        true
    }

    open spec fn eq_spec(&self, other: &Self) -> bool {
        self@ == other@
    }
}

impl View for Keyword {
    type V = Seq<char>;

    closed spec fn view(&self) -> Seq<char> {
        self.0@
    }
}

impl Keyword {
    #[verifier::type_invariant]
    spec fn holds_a_key(&self) -> bool {
        is_key(self.0@)
    }

    /// Derives the keyword from a seed. Every seed gives one: a seed
    /// without letters gives the canonical alphabet.
    pub fn new(initial: &str) -> (keyword: Self)
        ensures
            keyword@ == key_of(initial@),
            is_key(keyword@),
    {
        let mut buffer = String::new();
        for c in it: initial.chars()
            invariant
                it.seq() == initial@,
                buffer@ == distinct(seed_symbols(initial@.take(it.index() as int))),
        {
            proof {
                let seen = initial@.take(it.index() as int);
                initial@.lemma_filter_map_take_succ(|c: char| letter_of(c), it.index() as int);
                if let Some(letter) = letter_of(c) {
                    let longer = initial@.take(it.index() + 1);
                    assert(seed_symbols(longer) == seed_symbols(seen).push(merged(letter)));
                    lemma_distinct_push(seed_symbols(seen), merged(letter));
                }
            }
            match lowercase_letter(c) {
                Some(letter) => {
                    let symbol = merge(letter);
                    if !occurs_in(buffer.as_str(), symbol) {
                        buffer.push(symbol);
                    }
                },
                None => {},
            }
        }
        assert(initial@.take(initial@.len() as int) == initial@);
        let rest = "abcdefghiklmnopqrstuvwxyz";
        for c in it: rest.chars()
            invariant
                it.seq() == alphabet(),
                buffer@ == distinct(seed_symbols(initial@) + alphabet().take(it.index() as int)),
        {
            proof {
                let seen = seed_symbols(initial@) + alphabet().take(it.index() as int);
                assert(seed_symbols(initial@) + alphabet().take(it.index() + 1) == seen.push(c));
                lemma_distinct_push(seen, c);
            }
            if !occurs_in(buffer.as_str(), c) {
                buffer.push(c);
            }
        }
        proof {
            assert(alphabet().take(alphabet().len() as int) == alphabet());
            lemma_key_of_is_key(initial@);
        }
        Keyword(buffer)
    }

    /// The keyword as a string of 25 characters.
    pub fn as_str(&self) -> (symbols: &str)
        ensures
            symbols@ == self@,
            is_key(self@),
    {
        proof {
            use_type_invariant(self);
        }
        self.0.as_str()
    }

    /// Lays the keyword out as the grid, column by column.
    pub fn to_matrix(&self) -> (matrix: Matrix)
        ensures
            is_grid_of(matrix, self@),
            is_key(self@),
    {
        proof {
            use_type_invariant(self);
        }
        let mut matrix: Matrix = [['\0'; 5]; 5];
        let mut n: usize = 0;
        for c in it: self.0.as_str().chars()
            invariant
                it.seq() == self.0@,
                self.0@.len() == 25,
                n == it.index(),
                forall|k: int| 0 <= k < n ==> #[trigger] matrix[k % 5][k / 5] == self.0@[k],
        {
            matrix[n % 5][n / 5] = c;
            n += 1;
        }
        assert forall|row: int, column: int| is_cell((row, column)) implies
            #[trigger] matrix[row][column] == cell(self@, row, column) by {
            let k = column * 5 + row;
            assert(k % 5 == row && k / 5 == column);
        }
        matrix
    }
}

} // verus!
