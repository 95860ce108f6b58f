use playfair::{Cipher, Playfair};

#[test]
fn test_playfair_wiki() {
    let kw = "playfair example";
    let pf = Playfair::new(kw);

    let enc = pf.encrypt("hide the gold in the tree stump");
    assert_eq!(enc, "bmodzbxdnabekudmuixmmouvif");

    let dec = pf.decrypt(enc.as_str());
    assert_eq!(dec, "hidethegoldinthetrexestump");
}

#[test]
fn test_is_and_js_included() {
    let kw = "playfair";
    let pf = Playfair::new(kw);

    let plaintext = "JaneIsAName";
    let encrypt = pf.encrypt(plaintext);

    assert_eq!(encrypt, "bpuncnpqfhku");

    let decrypt = pf.decrypt(encrypt.as_str());
    assert_eq!(decrypt, "ianeisanamex");
}

#[test]
fn playfair_tests_test_updating_keyword() {
    let kw = "nonsense";
    let mut pf = Playfair::new(kw);

    let enc_1 = pf.encrypt("hide the gold in the tree stump");

    // Now change the keyword
    pf.update_keyword("playfair example");

    let enc_2 = pf.encrypt("hide the gold in the tree stump");

    // First, we are pretty sure that the two cipher texts should differ
    assert_ne!(enc_1, enc_2);

    // We also know what the output should be for the second one from the first test
    assert_eq!(enc_2, "bmodzbxdnabekudmuixmmouvif");
}

#[test]
fn test_encrypt_under_another_key() {
    let pf = Playfair::new("nonsense");
    assert_eq!(
        pf.encrypt("hide the gold in the tree stump"),
        "ikfsplafeickeplnutsyaeuphu"
    );
}

#[test]
fn test_encrypt_empty_text() {
    let pf = Playfair::new("playfair example");
    assert_eq!(pf.encrypt(""), "");
    assert_eq!(pf.decrypt(""), "");
    assert_eq!(pf.encrypt("1234 !?"), "");
    assert_eq!(pf.decrypt(" \n\t"), "");
}

#[test]
fn test_encrypt_two_symbols_of_one_column() {
    let pf = Playfair::new("playfair example");
    assert_eq!(pf.encrypt("pl"), "la");
    assert_eq!(pf.decrypt("la"), "pl");
    // The last row wraps to the first.
    assert_eq!(pf.encrypt("fp"), "pl");
    assert_eq!(pf.decrypt("pl"), "fp");
    assert_eq!(pf.decrypt("fp"), "yf");
}

#[test]
fn test_encrypt_two_symbols_of_one_row() {
    let pf = Playfair::new("playfair example");
    assert_eq!(pf.encrypt("de"), "od");
    assert_eq!(pf.decrypt("od"), "de");
    assert_eq!(pf.encrypt("pi"), "ib");
    assert_eq!(pf.decrypt("ib"), "pi");
    // The last column wraps to the first.
    assert_eq!(pf.encrypt("tp"), "pi");
    assert_eq!(pf.decrypt("pi"), "tp");
    assert_eq!(pf.decrypt("tp"), "kt");
}

#[test]
fn test_encrypt_rectangle() {
    let pf = Playfair::new("playfair example");
    assert_eq!(pf.encrypt("hi"), "bm");
    assert_eq!(pf.decrypt("hi"), "bm");
    assert_eq!(pf.decrypt("bm"), "hi");
    assert_eq!(pf.encrypt("az"), "fv");
    assert_eq!(pf.encrypt("fv"), "az");
    assert_eq!(pf.encrypt("zp"), "tf");
}

#[test]
fn test_encrypt_one_symbol_twice() {
    let pf = Playfair::new("playfair example");
    // 'i' and 'j' share a cell; both give way to the symbol below it.
    assert_eq!(pf.encrypt("ij"), "rr");
    assert_eq!(pf.encrypt("ji"), "rr");
    assert_eq!(pf.decrypt("ij"), "mm");
    assert_eq!(pf.encrypt("xx"), "mmmm");
    assert_eq!(pf.decrypt("xx"), "eeee");
}

#[test]
fn test_encrypt_single_letter() {
    let pf = Playfair::new("playfair example");
    assert_eq!(pf.encrypt("a"), "ye");
    assert_eq!(pf.decrypt("ye"), "ax");
}

#[test]
fn test_encrypt_doubled_letters() {
    let pf = Playfair::new("playfair example");
    assert_eq!(pf.encrypt("aaa"), "yeyeye");
    assert_eq!(pf.encrypt("aabbcc"), "yepdcdgr");
    assert_eq!(pf.decrypt("yepdcdgr"), "axabbccx");
    assert_eq!(pf.encrypt("Hello, World!"), "dmyranvqcrge");
    assert_eq!(pf.decrypt("dmyranvqcrge"), "helxloworldx");
}

#[test]
fn test_encrypt_sample_sentence() {
    let pf = Playfair::new("playfair example");
    let enc = pf.encrypt("Lorem ipsum dolor sit amet.");
    assert_eq!(enc, "anexirfkzrovanmnbpfeiv");
    assert_eq!(pf.decrypt(&enc), "loremipsumdolorsitamet");
}

#[test]
fn test_encrypt_under_the_plain_alphabet() {
    let pf = Playfair::new("");
    let enc = pf.encrypt("attackatdawn");
    assert_eq!(enc, "dqqdehdqebxm");
    assert_eq!(pf.decrypt(&enc), "attackatdawn");
}

#[test]
fn test_encrypt_ignores_case_and_other_characters() {
    let pf = Playfair::new("playfair example");
    assert_eq!(
        pf.encrypt("HIDE THE GOLD, in the tree-stump!"),
        pf.encrypt("hidethegoldinthetreestump")
    );
    assert_eq!(pf.decrypt("BM OD"), pf.decrypt("bmod"));
}

#[test]
fn test_encrypt_reads_j_as_i() {
    let pf = Playfair::new("playfair");
    assert_eq!(pf.encrypt("jane"), pf.encrypt("iane"));
    assert_eq!(pf.encrypt("major"), pf.encrypt("maior"));
    assert_eq!(pf.decrypt("jane"), pf.decrypt("iane"));
    assert_eq!(
        Playfair::new("jungle").encrypt("banjo"),
        Playfair::new("iungle").encrypt("banio")
    );
}

#[test]
fn test_ciphertext_length_is_twice_the_number_of_digraphs() {
    let pf = Playfair::new("playfair example");
    for text in ["", "a", "ab", "abc", "aab", "aaa", "hello world", "xx"] {
        let pairs = Playfair::bigramify(text).len();
        assert_eq!(pf.encrypt(text).chars().count(), 2 * pairs);
        assert_eq!(pf.decrypt(text).chars().count(), 2 * pairs);
    }
}

#[test]
fn test_round_trip() {
    let seeds = ["playfair example", "", "nonsense", "Jumping Jack"];
    let texts = [
        "",
        "ab",
        "abba",
        "hidethegoldinthetrexestump",
        "attackatdawn",
        "loremipsumdolorsitamet",
        "thequickbrownfoxiumpsoverthelazydogs",
    ];
    for seed in seeds {
        let pf = Playfair::new(seed);
        for text in texts {
            assert_eq!(pf.decrypt(&pf.encrypt(text)), text);
            assert_eq!(pf.encrypt(&pf.decrypt(text)), text);
        }
    }
}

#[test]
fn test_round_trip_spells_the_digraphs() {
    let pf = Playfair::new("monarchy");
    let enc = pf.encrypt("Instruments, jolly!");
    assert_eq!(pf.decrypt(&enc), "instrumentsiolly");
}
