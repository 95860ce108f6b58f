use playfair::alphabet::{letters_of, lowercase_letter, merge, occurs_in, FILLER};
use playfair::Keyword;

#[test]
fn test_keyword_no_dups() {
    let initial = "abcdefg";
    let kw = Keyword::new(initial);

    assert_eq!(kw.as_str().len(), 25);
    assert_eq!(kw.as_str(), "abcdefghiklmnopqrstuvwxyz");
}

#[test]
fn test_keyword_with_dups() {
    let initial = "aabbccddee";
    let kw = Keyword::new(initial);

    assert_eq!(kw.as_str().len(), 25);
    assert_eq!(kw.as_str(), "abcdefghiklmnopqrstuvwxyz");
}

#[test]
fn test_keyword_wiki_example() {
    let initial = "playfair example";
    let kw = Keyword::new(initial);

    assert_eq!(kw.as_str().len(), 25);
    assert_eq!(kw.as_str(), "playfirexmbcdghknoqstuvwz");
}

#[test]
fn test_keyword_weird_input() {
    let initial = "play!!!fa123ir ex^&*ample";
    let kw = Keyword::new(initial);

    assert_eq!(kw.as_str().len(), 25);
    assert_eq!(kw.as_str(), "playfirexmbcdghknoqstuvwz");
}

#[test]
fn test_keyword_one_letter_input() {
    let initial = "iiiiiiiiiiiiiiiiiiiiiiiiiiiiiiiiiiiiiiiiiiiiiiiiiiiiiiiiii";
    let kw = Keyword::new(initial);

    assert_eq!(kw.as_str().len(), 25);
    assert_eq!(kw.as_str(), "iabcdefghklmnopqrstuvwxyz");
}

#[test]
fn test_matrix_generation() {
    let initial = "playfair example";
    let kw = Keyword::new(initial);

    assert_eq!(kw.as_str().len(), 25);
    assert_eq!(kw.as_str(), "playfirexmbcdghknoqstuvwz");

    let mx = kw.to_matrix();
    assert_eq!(
        mx,
        [
            ['p', 'i', 'b', 'k', 't'],
            ['l', 'r', 'c', 'n', 'u'],
            ['a', 'e', 'd', 'o', 'v'],
            ['y', 'x', 'g', 'q', 'w'],
            ['f', 'm', 'h', 's', 'z']
        ]
    );
}

#[test]
fn test_keyword_empty_seed_is_the_alphabet() {
    assert_eq!(Keyword::new("").as_str(), "abcdefghiklmnopqrstuvwxyz");
}

#[test]
fn test_keyword_seed_without_letters_is_the_alphabet() {
    assert_eq!(Keyword::new("123 !! ?").as_str(), "abcdefghiklmnopqrstuvwxyz");
    assert_eq!(Keyword::new("\u{e9}\u{df}\u{3b1}").as_str(), "abcdefghiklmnopqrstuvwxyz");
}

#[test]
fn test_keyword_reads_j_as_i() {
    assert_eq!(Keyword::new("jab").as_str(), "iabcdefghklmnopqrstuvwxyz");
    assert_eq!(Keyword::new("Jumping Jack").as_str(), "iumpngackbdefhloqrstvwxyz");
}

#[test]
fn test_keyword_ignores_case() {
    assert_eq!(Keyword::new("PlayFair EXAMPLE").as_str(), "playfirexmbcdghknoqstuvwz");
}

#[test]
fn test_keyword_full_alphabet_seed() {
    assert_eq!(
        Keyword::new("zyxwvutsrqponmlkjihgfedcba").as_str(),
        "zyxwvutsrqponmlkihgfedcba"
    );
}

#[test]
fn test_keyword_holds_each_symbol_once() {
    let seeds = [
        "",
        "playfair example",
        "nonsense",
        "jjjj",
        "The quick brown fox jumps over the lazy dog",
        "zzz aaa 42",
    ];
    for seed in seeds {
        let kw = Keyword::new(seed);
        let symbols: Vec<char> = kw.as_str().chars().collect();
        assert_eq!(symbols.len(), 25);
        for symbol in "abcdefghiklmnopqrstuvwxyz".chars() {
            assert_eq!(symbols.iter().filter(|c| **c == symbol).count(), 1);
        }
    }
}

#[test]
fn test_keyword_of_a_keyword_is_the_keyword() {
    for seed in ["", "playfair example", "nonsense", "Jumping Jack", "zebra"] {
        let kw = Keyword::new(seed);
        assert_eq!(Keyword::new(kw.as_str()), kw);
    }
}

#[test]
fn test_matrix_is_filled_column_by_column() {
    let kw = Keyword::new("");
    let mx = kw.to_matrix();
    let symbols: Vec<char> = kw.as_str().chars().collect();
    for n in 0..25 {
        assert_eq!(mx[n % 5][n / 5], symbols[n]);
    }
    assert_eq!(mx[0], ['a', 'f', 'l', 'q', 'v']);
    assert_eq!(mx[4], ['e', 'k', 'p', 'u', 'z']);
}

#[test]
fn test_matrix_holds_each_symbol_once() {
    let mx = Keyword::new("nonsense").to_matrix();
    for symbol in "abcdefghiklmnopqrstuvwxyz".chars() {
        let mut count = 0;
        for row in mx.iter() {
            for c in row.iter() {
                if *c == symbol {
                    count += 1;
                }
            }
        }
        assert_eq!(count, 1);
    }
}

#[test]
fn test_keyword_equality() {
    assert!(Keyword::new("playfair") == Keyword::new("PLAY fair"));
    assert!(Keyword::new("playfair") != Keyword::new("nonsense"));
    assert_eq!(Keyword::new("jam"), Keyword::new("iam"));
}

#[test]
fn test_keyword_debug() {
    assert_eq!(
        format!("{:?}", Keyword::new("")),
        "Keyword(\"abcdefghiklmnopqrstuvwxyz\")"
    );
}

#[test]
fn test_lowercase_letter() {
    assert_eq!(lowercase_letter('a'), Some('a'));
    assert_eq!(lowercase_letter('z'), Some('z'));
    assert_eq!(lowercase_letter('j'), Some('j'));
    assert_eq!(lowercase_letter('A'), Some('a'));
    assert_eq!(lowercase_letter('Q'), Some('q'));
    assert_eq!(lowercase_letter('Z'), Some('z'));
    assert_eq!(lowercase_letter('@'), None);
    assert_eq!(lowercase_letter('['), None);
    assert_eq!(lowercase_letter('`'), None);
    assert_eq!(lowercase_letter('{'), None);
    assert_eq!(lowercase_letter('7'), None);
    assert_eq!(lowercase_letter(' '), None);
    assert_eq!(lowercase_letter('\u{e9}'), None);
    assert_eq!(lowercase_letter('\u{212a}'), None);
}

#[test]
fn test_merge() {
    assert_eq!(merge('j'), 'i');
    assert_eq!(merge('i'), 'i');
    assert_eq!(merge('k'), 'k');
    assert_eq!(merge('a'), 'a');
}

#[test]
fn test_letters_of() {
    assert_eq!(
        letters_of("Hello, World! 123"),
        vec!['h', 'e', 'l', 'l', 'o', 'w', 'o', 'r', 'l', 'd']
    );
    assert_eq!(letters_of("Jij"), vec!['j', 'i', 'j']);
    assert_eq!(letters_of(""), Vec::<char>::new());
    assert_eq!(letters_of("42 + 7 = 49"), Vec::<char>::new());
    assert_eq!(letters_of("na\u{ef}ve"), vec!['n', 'a', 'v', 'e']);
}

#[test]
fn test_occurs_in() {
    assert!(occurs_in("playfair", 'y'));
    assert!(!occurs_in("playfair", 'z'));
    assert!(!occurs_in("", 'a'));
    assert!(occurs_in("a", 'a'));
}

#[test]
fn test_filler() {
    assert_eq!(FILLER, 'x');
}
