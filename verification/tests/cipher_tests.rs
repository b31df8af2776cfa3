use enigma_cipher::caesar::CaesarCipher;
use enigma_cipher::cipher::Cipher;
use enigma_cipher::polyalphabetic::PolyalphabeticCipher;

const ALPHABET: &str = "ABCDEFGHIJKLMNOPQRSTUVWXYZ";

#[test]
fn test_change_index() {
    let cipher = Cipher::new("ABCDEFGHIJKLMNOPQRSTUVWXYZ", "input.txt", "output.txt");

    assert_eq!(cipher.change_index(26, 0, 1), 1);
    assert_eq!(cipher.change_index(26, 25, 1), 0);
    assert_eq!(cipher.change_index(26, 10, 5), 15);
    assert_eq!(cipher.change_index(26, 10, 16), 0);

    assert_eq!(cipher.change_index(26, 5, -1), 4);
    assert_eq!(cipher.change_index(26, 5, -25), 6);
}

#[test]
fn change_index_takes_sums_beyond_32_bits() {
    let cipher = Cipher::new(ALPHABET, "input.txt", "output.txt");
    assert_eq!(cipher.change_index(26, i32::MAX, i32::MAX), 4294967294usize % 26);
    assert_eq!(cipher.change_index(26, i32::MIN, i32::MIN), 4);
    assert_eq!(cipher.change_index(-26, 5, -25), 6);
    assert_eq!(cipher.change_index(1, 7, 9), 0);
}

#[test]
fn new_cipher_holds_no_text() {
    let cipher = Cipher::new(ALPHABET, "in.txt", "out.txt");
    assert_eq!(cipher.alphabet, ALPHABET);
    assert_eq!(cipher.input_file, "in.txt");
    assert_eq!(cipher.output_file, "out.txt");
    assert_eq!(cipher.plain_text, "");
    assert_eq!(cipher.encrypted_text, "");
}

#[test]
fn clean_text_keeps_symbols_of_the_alphabet() {
    let mut cipher = Cipher::new(ALPHABET, "input.txt", "output.txt");
    cipher.plain_text = "Hello, World! HELLO WORLD 123".to_string();
    cipher.clean_text();
    assert_eq!(cipher.plain_text, "HWHELLOWORLD");
    assert_eq!(cipher.encrypted_text, "");

    cipher.plain_text = String::new();
    cipher.clean_text();
    assert_eq!(cipher.plain_text, "");
}

#[test]
fn clean_text_with_empty_alphabet_keeps_nothing() {
    let mut cipher = Cipher::new("", "input.txt", "output.txt");
    cipher.plain_text = "HELLO".to_string();
    cipher.clean_text();
    assert_eq!(cipher.plain_text, "");
}

#[test]
fn test_caesar_cipher_encrypt() {
    let input_content = "HELLO";

    let mut cipher = CaesarCipher::new("ABCDEFGHIJKLMNOPQRSTUVWXYZ", "input.txt", "output.txt", 3);
    cipher.base.plain_text = input_content.to_string();
    cipher.encrypt().expect("Encryption failed");

    let encrypted_content = cipher.base.encrypted_text.clone();
    let expected_encrypted_content = "KHOOR";
    assert_eq!(encrypted_content.trim(), expected_encrypted_content);
}

#[test]
fn caesar_shift_by_minus_25_is_shift_by_1() {
    let text = "THEQUICKBROWNFOXJUMPSOVERTHELAZYDOG";
    let mut back = CaesarCipher::new(ALPHABET, "input.txt", "output.txt", -25);
    back.base.plain_text = text.to_string();
    back.encrypt().unwrap();
    let mut forth = CaesarCipher::new(ALPHABET, "input.txt", "output.txt", 1);
    forth.base.plain_text = text.to_string();
    forth.encrypt().unwrap();
    assert_eq!(back.base.encrypted_text, forth.base.encrypted_text);
    assert_eq!(forth.base.encrypted_text, "UIFRVJDLCSPXOGPYKVNQTPWFSUIFMBAZEPH");
}

#[test]
fn caesar_cleans_before_it_shifts() {
    let mut cipher = CaesarCipher::new(ALPHABET, "input.txt", "output.txt", 3);
    cipher.base.plain_text = "hello, HELLO!\n".to_string();
    cipher.encrypt().unwrap();
    assert_eq!(cipher.base.plain_text, "HELLO");
    assert_eq!(cipher.base.encrypted_text, "KHOOR");
}

#[test]
fn caesar_replaces_the_encrypted_text() {
    let mut cipher = CaesarCipher::new(ALPHABET, "input.txt", "output.txt", 3);
    cipher.base.plain_text = "HELLO".to_string();
    cipher.encrypt().unwrap();
    cipher.base.plain_text = "XYZ".to_string();
    cipher.encrypt().unwrap();
    assert_eq!(cipher.base.encrypted_text, "ABC");
}

#[test]
fn caesar_takes_extreme_shifts() {
    let mut cipher = CaesarCipher::new(ALPHABET, "input.txt", "output.txt", i32::MAX);
    cipher.base.plain_text = "AZ".to_string();
    cipher.encrypt().unwrap();
    // 2147483647 = 26 * 82595524 + 23
    assert_eq!(cipher.base.encrypted_text, "XW");

    let mut cipher = CaesarCipher::new(ALPHABET, "input.txt", "output.txt", i32::MIN);
    cipher.base.plain_text = "AZ".to_string();
    cipher.encrypt().unwrap();
    // -2147483648 = 26 * -82595525 + 2
    assert_eq!(cipher.base.encrypted_text, "CB");
}

#[test]
fn caesar_encrypt_char_shifts_one_symbol() {
    let cipher = CaesarCipher::new(ALPHABET, "input.txt", "output.txt", 0);
    assert_eq!(cipher.encrypt_char(ALPHABET, 'H', 3), 'K');
    assert_eq!(cipher.encrypt_char(ALPHABET, 'Z', 1), 'A');
    assert_eq!(cipher.encrypt_char(ALPHABET, 'A', -1), 'Z');
    assert_eq!(cipher.encrypt_char("XYZ", 'Y', 5), 'X');
}

#[test]
fn test_polyalphabetic_cipher_encrypt() {
    let alphabet = "ABCDEFGHIJKLMNOPQRSTUVWXYZ";
    let keyword = "CAT";

    let input_content = "ILOVEYOU";

    let mut cipher =
        PolyalphabeticCipher::new(alphabet, "input.txt", "output.txt", keyword, false);
    cipher.base.plain_text = input_content.to_string();
    cipher.encrypt().expect("Encryption failed");

    let encrypted_content = cipher.base.encrypted_text.clone();
    let expected_encrypted_content = "LMIYFSRV";
    assert_eq!(encrypted_content.trim(), expected_encrypted_content);
}

#[test]
fn polyalphabetic_key_counts_places_from_one() {
    let cipher = PolyalphabeticCipher::new(ALPHABET, "input.txt", "output.txt", "CAT", false);
    assert_eq!(cipher.key, vec![3, 1, 20]);
    assert!(!cipher.decrypt);
}

#[test]
fn polyalphabetic_decrypt_gives_the_text_back() {
    let mut cipher = PolyalphabeticCipher::new(ALPHABET, "input.txt", "output.txt", "CAT", true);
    cipher.base.plain_text = "LMIYFSRV".to_string();
    cipher.encrypt().unwrap();
    assert_eq!(cipher.base.encrypted_text, "ILOVEYOU");
}

#[test]
fn polyalphabetic_accepts_keywords_of_the_alphabet_only() {
    assert!(PolyalphabeticCipher::accepts(ALPHABET, "CAT"));
    assert!(PolyalphabeticCipher::accepts(ALPHABET, ""));
    assert!(!PolyalphabeticCipher::accepts(ALPHABET, "cat"));
    assert!(!PolyalphabeticCipher::accepts(ALPHABET, "CA T"));
}

#[test]
fn polyalphabetic_without_key_encrypts_an_empty_text() {
    let mut cipher = PolyalphabeticCipher::new(ALPHABET, "input.txt", "output.txt", "", false);
    cipher.base.plain_text = "1234 ...".to_string();
    cipher.encrypt().unwrap();
    assert_eq!(cipher.base.plain_text, "");
    assert_eq!(cipher.base.encrypted_text, "");
}

#[test]
fn polyalphabetic_encrypt_char_uses_the_key_round_its_end() {
    let cipher = PolyalphabeticCipher::new(ALPHABET, "input.txt", "output.txt", "CAT", false);
    let key = vec![3, 1, 20];
    assert_eq!(cipher.encrypt_char(ALPHABET, 'I', &key, 0, 1), 'L');
    assert_eq!(cipher.encrypt_char(ALPHABET, 'V', &key, 3, 1), 'Y');
    assert_eq!(cipher.encrypt_char(ALPHABET, 'O', &key, 2, 1), 'I');
    assert_eq!(cipher.encrypt_char(ALPHABET, 'L', &key, 0, -1), 'I');
}
