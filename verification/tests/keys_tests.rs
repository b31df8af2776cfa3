use enigma_cipher::enigma::EnigmaMachine;
use enigma_cipher::error::CipherError;
use enigma_cipher::error::KeyStream;
use enigma_cipher::number::read_number;
use enigma_cipher::number::write_number;
use enigma_cipher::plugboard::find_pair;
use enigma_cipher::plugboard::plug_in;
use enigma_cipher::plugboard::read_pair;
use enigma_cipher::plugboard::to_upper;
use enigma_cipher::reflector::pair_symbols;
use enigma_cipher::rotor_bank::assemble_rotors;
use enigma_cipher::setup::is_generate;
use enigma_cipher::symbol_map::SymbolMap;
use enigma_cipher::text::to_chars;
use enigma_cipher::text::to_text;

const ALPHABET: &str = "ABCDEFGHIJKLMNOPQRSTUVWXYZ";

fn lines(items: &[&str]) -> Vec<String> {
    items.iter().map(|s| s.to_string()).collect()
}

#[test]
fn plugboard_rejects_reuse() {
    let r = EnigmaMachine::set_plugboard(&lines(&["A-B", "A-C"]));
    assert_eq!(r.err(), Some(CipherError::DuplicateKey));
}

#[test]
fn plugboard_rejects_a_symbol_that_is_wired_to() {
    let r = EnigmaMachine::set_plugboard(&lines(&["A-B", "C-B"]));
    assert_eq!(r.err(), Some(CipherError::DuplicateValue));
    let r = EnigmaMachine::set_plugboard(&lines(&["A-B", "C-A"]));
    assert_eq!(r.err(), Some(CipherError::DuplicateValue));
    let r = EnigmaMachine::set_plugboard(&lines(&["A-B", "B-C"]));
    assert_eq!(r.err(), Some(CipherError::DuplicateKey));
    let r = EnigmaMachine::set_plugboard(&lines(&["A-B", "a-b"]));
    assert_eq!(r.err(), Some(CipherError::DuplicateKey));
}

#[test]
fn plugboard_rejects_malformed_lines() {
    for bad in ["AB", "", "A-", "-B", " - ", "A -   ", "\t-B"] {
        let r = EnigmaMachine::set_plugboard(&lines(&["C-D", bad]));
        assert_eq!(
            r.err(),
            Some(CipherError::Format(KeyStream::Plugboard)),
            "line {:?}",
            bad
        );
    }
    let r = EnigmaMachine::set_plugboard(&lines(&["A-B", "", "A-C"]));
    assert_eq!(r.err(), Some(CipherError::Format(KeyStream::Plugboard)));
    let r = EnigmaMachine::set_plugboard(&lines(&["A-B", "A-C", ""]));
    assert_eq!(r.err(), Some(CipherError::DuplicateKey));
}

#[test]
fn plugboard_wires_both_directions() {
    let board = EnigmaMachine::set_plugboard(&lines(&["A - B", "c-d", "  E\t-\tf  ", "G-G"])).unwrap();
    assert_eq!(board.len(), 7);
    assert_eq!(board.get('A'), Some('B'));
    assert_eq!(board.get('B'), Some('A'));
    assert_eq!(board.get('C'), Some('D'));
    assert_eq!(board.get('D'), Some('C'));
    assert_eq!(board.get('E'), Some('F'));
    assert_eq!(board.get('F'), Some('E'));
    assert_eq!(board.get('G'), Some('G'));
    assert_eq!(board.get('c'), None);
    assert_eq!(board.apply('H'), 'H');

    let empty = EnigmaMachine::set_plugboard(&vec![]).unwrap();
    assert_eq!(empty.len(), 0);
}

#[test]
fn read_pair_takes_the_first_symbol_of_each_side() {
    assert_eq!(read_pair("A-B"), Some(('A', 'B')));
    assert_eq!(read_pair("a - b"), Some(('A', 'B')));
    assert_eq!(read_pair("  xyz  -  uvw  "), Some(('X', 'U')));
    assert_eq!(read_pair("A--"), Some(('A', '-')));
    assert_eq!(read_pair("A-B-C"), Some(('A', 'B')));
    assert_eq!(read_pair("1-2"), Some(('1', '2')));
    assert_eq!(read_pair("\u{a0}A\u{2003}-\u{3000}B"), Some(('A', 'B')));
    assert_eq!(read_pair("ä-ö"), Some(('ä', 'ö')));
    assert_eq!(read_pair("--"), None);
    assert_eq!(read_pair("A B"), None);
}

#[test]
fn find_pair_skips_what_is_marked() {
    let line: Vec<char> = "xA-yB".chars().collect();
    assert_eq!(
        find_pair(&line, &vec![false, false, false, false, false]),
        Some(('X', 'Y'))
    );
    assert_eq!(
        find_pair(&line, &vec![true, false, false, true, false]),
        Some(('A', 'B'))
    );
    assert_eq!(find_pair(&line, &vec![true, true, false, false, false]), None);
    assert_eq!(find_pair(&line, &vec![false, false, false, true, true]), None);
    // the separator is found whether it is marked or not
    assert_eq!(
        find_pair(&line, &vec![false, false, true, false, false]),
        Some(('X', 'Y'))
    );
    assert_eq!(find_pair(&vec![], &vec![]), None);
}

#[test]
fn plug_in_refuses_and_leaves_the_board() {
    let mut board = SymbolMap::new();
    assert_eq!(plug_in(&mut board, ('A', 'B')), Ok(()));
    assert_eq!(board.entries(), vec![('A', 'B'), ('B', 'A')]);
    assert_eq!(plug_in(&mut board, ('A', 'C')), Err(CipherError::DuplicateKey));
    assert_eq!(plug_in(&mut board, ('C', 'B')), Err(CipherError::DuplicateValue));
    assert_eq!(board.entries(), vec![('A', 'B'), ('B', 'A')]);
    assert_eq!(plug_in(&mut board, ('C', 'C')), Ok(()));
    assert_eq!(board.entries(), vec![('A', 'B'), ('B', 'A'), ('C', 'C')]);
}

#[test]
fn to_upper_changes_ascii_letters_only() {
    assert_eq!(to_upper('a'), 'A');
    assert_eq!(to_upper('z'), 'Z');
    assert_eq!(to_upper('m'), 'M');
    assert_eq!(to_upper('A'), 'A');
    assert_eq!(to_upper('`'), '`');
    assert_eq!(to_upper('{'), '{');
    assert_eq!(to_upper('1'), '1');
    assert_eq!(to_upper('ä'), 'ä');
    for c in ['a', 'Q', 'é', '-', ' ', 'ß'] {
        assert_eq!(to_upper(c), c.to_ascii_uppercase());
    }
}

#[test]
fn symbol_map_replaces_and_counts() {
    let mut map = SymbolMap::new();
    assert_eq!(map.len(), 0);
    assert!(!map.contains_key('A'));
    map.insert('A', 'B');
    map.insert('C', 'D');
    map.insert('A', 'E');
    assert_eq!(map.len(), 2);
    assert_eq!(map.get('A'), Some('E'));
    assert_eq!(map.get('C'), Some('D'));
    assert_eq!(map.get('B'), None);
    assert!(map.contains_key('C'));
    assert!(map.contains_value('E'));
    assert!(!map.contains_value('B'));
    assert_eq!(map.apply('A'), 'E');
    assert_eq!(map.apply('Z'), 'Z');
    assert_eq!(map.entries(), vec![('A', 'E'), ('C', 'D')]);

    let again = SymbolMap::from_pairs(&vec![('A', 'B'), ('C', 'D'), ('A', 'E')]);
    assert_eq!(again.entries(), map.entries());
}

#[test]
fn pair_symbols_pairs_the_halves() {
    let wires = pair_symbols(&vec!['A', 'B', 'C', 'D']);
    assert_eq!(wires.len(), 4);
    assert_eq!(wires.get('A'), Some('C'));
    assert_eq!(wires.get('C'), Some('A'));
    assert_eq!(wires.get('B'), Some('D'));
    assert_eq!(wires.get('D'), Some('B'));

    let odd = pair_symbols(&vec!['A', 'B', 'C', 'D', 'E']);
    assert_eq!(odd.len(), 4);
    assert_eq!(odd.get('A'), Some('C'));
    assert_eq!(odd.get('B'), Some('D'));
    assert_eq!(odd.get('E'), None);

    assert_eq!(pair_symbols(&vec!['A']).len(), 0);
    assert_eq!(pair_symbols(&vec![]).len(), 0);
}

#[test]
fn created_reflector_is_written_with_its_keys_in_order() {
    let (wires, line) = EnigmaMachine::create_reflector("AB").unwrap();
    assert_eq!(wires.get('A'), Some('B'));
    assert_eq!(wires.get('B'), Some('A'));
    assert_eq!(line, "{\"A\":\"B\",\"B\":\"A\"}");
}

#[test]
fn created_reflector_is_read_back() {
    let (wires, line) = EnigmaMachine::create_reflector(ALPHABET).unwrap();
    let loaded = EnigmaMachine::load_reflector(&vec![line]).unwrap();
    assert_eq!(loaded.len(), 26);
    for c in ALPHABET.chars() {
        assert_eq!(loaded.get(c), wires.get(c));
    }
}

#[test]
fn created_reflectors_are_shuffled() {
    let (first, _) = EnigmaMachine::create_reflector(ALPHABET).unwrap();
    let mut differs = false;
    for _ in 0..20 {
        let (next, _) = EnigmaMachine::create_reflector(ALPHABET).unwrap();
        if ALPHABET.chars().any(|c| next.get(c) != first.get(c)) {
            differs = true;
        }
    }
    assert!(differs);
}

#[test]
fn created_reflector_of_an_odd_alphabet_leaves_one_symbol_out() {
    let (wires, _) = EnigmaMachine::create_reflector("ABCDE").unwrap();
    assert_eq!(wires.len(), 4);
    let unpaired: Vec<char> = "ABCDE".chars().filter(|c| !wires.contains_key(*c)).collect();
    assert_eq!(unpaired.len(), 1);
    assert_eq!(wires.apply(unpaired[0]), unpaired[0]);
}

#[test]
fn load_reflector_reads_the_first_line() {
    let wires =
        EnigmaMachine::load_reflector(&lines(&["{\"A\":\"B\", \"B\":\"A\", \"C\":\"C\"}", "not read"])).unwrap();
    assert_eq!(wires.len(), 3);
    assert_eq!(wires.get('A'), Some('B'));
    assert_eq!(wires.get('B'), Some('A'));
    assert_eq!(wires.get('C'), Some('C'));

    let wires = EnigmaMachine::load_reflector(&lines(&["{\"A\":\"B\",\"A\":\"C\"}"])).unwrap();
    assert_eq!(wires.len(), 1);
    assert_eq!(wires.get('A'), Some('C'));

    let wires = EnigmaMachine::load_reflector(&lines(&["{}"])).unwrap();
    assert_eq!(wires.len(), 0);
}

#[test]
fn load_reflector_rejects_what_is_no_mapping() {
    assert_eq!(
        EnigmaMachine::load_reflector(&vec![]).err(),
        Some(CipherError::Format(KeyStream::Reflector))
    );
    for bad in ["", "[]", "{\"A\":\"BC\"}", "{\"AB\":\"C\"}", "{\"A\":1}", "{\"A\":\"B\"", "null"] {
        assert_eq!(
            EnigmaMachine::load_reflector(&lines(&[bad])).err(),
            Some(CipherError::Format(KeyStream::Reflector)),
            "{:?}",
            bad
        );
    }
}

#[test]
fn set_reflector_goes_by_the_flag() {
    let (wires, line) = EnigmaMachine::set_reflector("m", "AB", &vec![]).unwrap();
    assert_eq!(wires.get('A'), Some('B'));
    assert_eq!(line, Some("{\"A\":\"B\",\"B\":\"A\"}".to_string()));

    let stored = lines(&["{\"A\":\"A\"}"]);
    for flag in ["M", "", "mm", "load"] {
        let (wires, line) = EnigmaMachine::set_reflector(flag, "AB", &stored).unwrap();
        assert_eq!(wires.get('A'), Some('A'));
        assert_eq!(wires.len(), 1);
        assert_eq!(line, None);
    }
    assert_eq!(
        EnigmaMachine::set_reflector("M", "AB", &vec![]).err(),
        Some(CipherError::Format(KeyStream::Reflector))
    );
}

#[test]
fn flag_m_asks_for_fresh_keys() {
    assert!(is_generate("m"));
    assert!(!is_generate("M"));
    assert!(!is_generate(""));
    assert!(!is_generate("mm"));
    assert!(!is_generate(" m"));
}

#[test]
fn load_rotors_reads_wirings_and_cursors() {
    let (rotors, checks) = EnigmaMachine::load_rotors(
        "ABCD",
        2,
        &lines(&["[3,1,2]", "[ 2, 2 ]"]),
        &lines(&["2", "+1"]),
    )
    .unwrap();
    assert_eq!(rotors.len(), 2);
    assert_eq!(rotors[0].order, vec![3, 1, 2]);
    assert_eq!(rotors[0].cursor, 2);
    assert_eq!(rotors[1].order, vec![2, 2]);
    assert_eq!(rotors[1].cursor, 1);
    assert_eq!(checks.len(), 2);
    assert!(checks[0].wiring.fits_alphabet);
    assert!(checks[0].wiring.distinct);
    assert!(checks[0].same_length);
    assert!(!checks[1].wiring.fits_alphabet);
    assert!(!checks[1].wiring.distinct);
    assert!(!checks[1].same_length);
}

#[test]
fn load_rotors_rejects_a_wrong_count() {
    let wirings = lines(&["[1,2,3]", "[1,2,3]"]);
    let cursor_lines = lines(&["0", "0"]);
    assert_eq!(
        EnigmaMachine::load_rotors("ABCD", 3, &wirings, &cursor_lines).err(),
        Some(CipherError::CountMismatch)
    );
    assert_eq!(
        EnigmaMachine::load_rotors("ABCD", 1, &wirings, &cursor_lines).err(),
        Some(CipherError::CountMismatch)
    );
    assert_eq!(
        EnigmaMachine::load_rotors("ABCD", 2, &wirings, &lines(&["0"])).err(),
        Some(CipherError::CountMismatch)
    );
    assert_eq!(
        EnigmaMachine::load_rotors("ABCD", 2, &wirings, &lines(&["0", "0", "0"])).err(),
        Some(CipherError::CountMismatch)
    );
}

#[test]
fn load_rotors_rejects_a_cursor_outside_the_wiring() {
    let wirings = lines(&["[1,2,3]", "[1,2,3]"]);
    assert_eq!(
        EnigmaMachine::load_rotors("ABCD", 2, &wirings, &lines(&["0", "3"])).err(),
        Some(CipherError::InvalidCursor)
    );
    assert_eq!(
        EnigmaMachine::load_rotors("ABCD", 2, &lines(&["[1,2,3]", "[]"]), &lines(&["0", "0"])).err(),
        Some(CipherError::InvalidCursor)
    );
    assert!(EnigmaMachine::load_rotors("ABCD", 2, &wirings, &lines(&["0", "2"])).is_ok());
}

#[test]
fn load_rotors_rejects_what_it_cannot_read() {
    let wirings = lines(&["[1,2,3]", "[1,2,3]"]);
    let cursor_lines = lines(&["0", "0"]);
    for bad in ["", "1,2,3", "[1,2,3", "[1,-2,3]", "[1,2.5,3]", "{\"a\":1}", "[\"1\"]"] {
        assert_eq!(
            EnigmaMachine::load_rotors("ABCD", 2, &lines(&["[1,2,3]", bad]), &cursor_lines).err(),
            Some(CipherError::Format(KeyStream::Wirings)),
            "wiring {:?}",
            bad
        );
    }
    for bad in ["", " 1", "1 ", "-1", "+", "one", "1.0", "99999999999999999999999999"] {
        assert_eq!(
            EnigmaMachine::load_rotors("ABCD", 2, &wirings, &lines(&["0", bad])).err(),
            Some(CipherError::Format(KeyStream::Cursors)),
            "cursor {:?}",
            bad
        );
    }
    assert_eq!(
        EnigmaMachine::load_rotors("ABCD", 0, &vec![], &vec![]).err(),
        Some(CipherError::Format(KeyStream::Wirings))
    );
    // what cannot be read comes before a wrong count, wirings before cursors
    assert_eq!(
        EnigmaMachine::load_rotors("ABCD", 5, &wirings, &lines(&["0", "x"])).err(),
        Some(CipherError::Format(KeyStream::Cursors))
    );
    assert_eq!(
        EnigmaMachine::load_rotors("ABCD", 5, &lines(&["[1]", "x"]), &lines(&["0", "x"])).err(),
        Some(CipherError::Format(KeyStream::Wirings))
    );
}

#[test]
fn assemble_rotors_checks_count_then_cursors() {
    let wirings = vec![vec![1, 2, 3], vec![3, 2, 1]];
    let (rotors, checks) = assemble_rotors("ABCD", 2, &wirings, &vec![1, 2]).unwrap();
    assert_eq!(rotors[0].order, vec![1, 2, 3]);
    assert_eq!(rotors[1].cursor, 2);
    assert!(checks[1].wiring.fits_alphabet && checks[1].wiring.distinct && checks[1].same_length);
    assert_eq!(
        assemble_rotors("ABCD", 2, &wirings, &vec![1, 3]).err(),
        Some(CipherError::InvalidCursor)
    );
    assert_eq!(
        assemble_rotors("ABCD", 3, &wirings, &vec![9, 9]).err(),
        Some(CipherError::CountMismatch)
    );
    let (rotors, checks) = assemble_rotors("ABCD", 0, &vec![], &vec![]).unwrap();
    assert!(rotors.is_empty() && checks.is_empty());
}

#[test]
fn generated_rotors_are_persisted_as_they_are() {
    let (rotors, wirings, cursor_lines) = EnigmaMachine::generate_rotors(ALPHABET, 5).unwrap();
    assert_eq!(rotors.len(), 5);
    for i in 0..5 {
        let mut sorted = rotors[i].order.clone();
        sorted.sort();
        assert_eq!(sorted, (1..26).collect::<Vec<usize>>());
        assert!(rotors[i].cursor < 25);
        let written: Vec<String> = rotors[i].order.iter().map(|n| n.to_string()).collect();
        assert_eq!(wirings[i], format!("[{}]", written.join(",")));
        assert_eq!(cursor_lines[i], rotors[i].cursor.to_string());
    }
    let (loaded, checks) = EnigmaMachine::load_rotors(ALPHABET, 5, &wirings, &cursor_lines).unwrap();
    for i in 0..5 {
        assert_eq!(loaded[i].order, rotors[i].order);
        assert_eq!(loaded[i].cursor, rotors[i].cursor);
        assert!(checks[i].wiring.fits_alphabet && checks[i].wiring.distinct && checks[i].same_length);
    }
    let (none, w, c) = EnigmaMachine::generate_rotors("A", 0).unwrap();
    assert!(none.is_empty() && w.is_empty() && c.is_empty());
}

#[test]
fn set_rotors_goes_by_the_flag() {
    let stored_wirings = lines(&["[1,2,3]"]);
    let stored_cursors = lines(&["1"]);
    let set = EnigmaMachine::set_rotors("ABCD", 1, &stored_wirings, &stored_cursors, "M").unwrap();
    assert_eq!(set.rotors[0].order, vec![1, 2, 3]);
    assert_eq!(set.rotors[0].cursor, 1);
    assert!(set.lines.is_none());
    assert_eq!(set.checks.len(), 1);

    let set = EnigmaMachine::set_rotors("ABCD", 2, &stored_wirings, &stored_cursors, "m").unwrap();
    assert_eq!(set.rotors.len(), 2);
    assert!(set.checks.is_empty());
    let (wirings, cursor_lines) = set.lines.unwrap();
    assert_eq!(wirings.len(), 2);
    assert_eq!(cursor_lines.len(), 2);
}

#[test]
fn numbers_are_read_as_plain_decimals() {
    assert_eq!(read_number("0"), Some(0));
    assert_eq!(read_number("7"), Some(7));
    assert_eq!(read_number("+7"), Some(7));
    assert_eq!(read_number("007"), Some(7));
    assert_eq!(read_number("1234567890"), Some(1234567890));
    assert_eq!(read_number(&usize::MAX.to_string()), Some(usize::MAX));
    assert_eq!(read_number(&format!("{}0", usize::MAX)), None);
    assert_eq!(read_number(&format!("{}", usize::MAX as u128 + 1)), None);
    for bad in ["", "+", "-", "-7", "++7", "7+", " 7", "7 ", "7a", "٧", "0x7"] {
        assert_eq!(read_number(bad), None, "{:?}", bad);
    }
}

#[test]
fn numbers_are_written_without_leading_zeros() {
    assert_eq!(write_number(0), "0");
    assert_eq!(write_number(7), "7");
    assert_eq!(write_number(10), "10");
    assert_eq!(write_number(1234567890), "1234567890");
    assert_eq!(write_number(usize::MAX), usize::MAX.to_string());
    for n in [0usize, 9, 10, 99, 100, 101, 65535, usize::MAX] {
        assert_eq!(read_number(&write_number(n)), Some(n));
        assert_eq!(n.to_string().parse::<usize>().ok(), read_number(&n.to_string()));
    }
}

#[test]
fn texts_and_characters_convert_both_ways() {
    assert_eq!(to_chars("HÉLLO"), vec!['H', 'É', 'L', 'L', 'O']);
    assert_eq!(to_chars(""), Vec::<char>::new());
    assert_eq!(to_text(&vec!['H', 'É', 'L', 'L', 'O']), "HÉLLO");
    assert_eq!(to_text(&vec![]), "");
}
