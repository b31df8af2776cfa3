use enigma_cipher::error::CipherError;
use enigma_cipher::rotor::Rotor;

const ALPHABET: &str = "ABCDEFGHIJKLMNOPQRSTUVWXYZ";

#[test]
fn test_rotor_generate_order() {
    let mut rotor = Rotor::new(vec![], 0);
    rotor.order = rotor.generate_order("ABCDEFGHIJKLMNOPQRSTUVWXYZ").unwrap();
    assert_eq!(rotor.order.len(), 25);
    assert!(rotor.order.iter().all(|&x| x >= 1 && x <= 25));
}

#[test]
fn test_rotor_generate_cursor() {
    let mut rotor = Rotor::new(vec![], 0);
    rotor.order = rotor.generate_order("ABCDEFGHIJKLMNOPQRSTUVWXYZ").unwrap();
    rotor.cursor = rotor.generate_cursor();
    assert!(rotor.cursor < rotor.order.len());
}

#[test]
fn test_rotor_step() {
    let mut rotor = Rotor::new(vec![1, 2, 3, 4, 5], 0);
    rotor.step();
    assert_eq!(rotor.cursor, 1);
    rotor.step();
    assert_eq!(rotor.cursor, 2);
}

#[test]
fn rotor_step_returns_to_zero_behind_the_last_place() {
    let mut rotor = Rotor::new(vec![1, 2, 3, 4, 5], 3);
    rotor.step();
    assert_eq!(rotor.cursor, 4);
    rotor.step();
    assert_eq!(rotor.cursor, 0);
    assert_eq!(rotor.order, vec![1, 2, 3, 4, 5]);

    let mut single = Rotor::new(vec![7], 0);
    single.step();
    assert_eq!(single.cursor, 0);
}

#[test]
fn generated_order_holds_each_offset_once() {
    let rotor = Rotor::new(vec![], 0);
    let mut order = rotor.generate_order(ALPHABET).unwrap();
    order.sort();
    assert_eq!(order, (1..26).collect::<Vec<usize>>());
}

#[test]
fn generated_orders_are_shuffled() {
    let rotor = Rotor::new(vec![], 0);
    let plain: Vec<usize> = (1..26).collect();
    let mut shuffled = false;
    for _ in 0..20 {
        if rotor.generate_order(ALPHABET).unwrap() != plain {
            shuffled = true;
        }
    }
    assert!(shuffled);
}

#[test]
fn generated_order_for_short_alphabets() {
    let rotor = Rotor::new(vec![], 0);
    assert_eq!(rotor.generate_order("").unwrap(), Vec::<usize>::new());
    assert_eq!(rotor.generate_order("A").unwrap(), Vec::<usize>::new());
    assert_eq!(rotor.generate_order("AB").unwrap(), vec![1]);
}

#[test]
fn generated_cursor_of_a_single_offset_is_zero() {
    let rotor = Rotor::new(vec![9], 0);
    for _ in 0..10 {
        assert_eq!(rotor.generate_cursor(), 0);
    }
}

#[test]
fn set_order_keeps_the_wiring_and_reports() {
    let rotor = Rotor::new(vec![], 0);

    let good: Vec<usize> = (1..26).rev().collect();
    let (order, check) = rotor.set_order(ALPHABET, &good).unwrap();
    assert_eq!(order, good);
    assert!(check.fits_alphabet);
    assert!(check.distinct);

    let short = vec![1, 2, 3];
    let (order, check) = rotor.set_order(ALPHABET, &short).unwrap();
    assert_eq!(order, short);
    assert!(!check.fits_alphabet);
    assert!(check.distinct);

    let mut repeated: Vec<usize> = (1..26).collect();
    repeated[24] = 1;
    let (order, check) = rotor.set_order(ALPHABET, &repeated).unwrap();
    assert_eq!(order, repeated);
    assert!(check.fits_alphabet);
    assert!(!check.distinct);

    let (order, check) = rotor.set_order("", &vec![]).unwrap();
    assert_eq!(order, Vec::<usize>::new());
    assert!(!check.fits_alphabet);
    assert!(check.distinct);
}

#[test]
fn set_cursor_takes_positions_in_the_wiring_only() {
    let rotor = Rotor::new(vec![1, 2, 3, 4, 5], 0);
    assert_eq!(rotor.set_cursor(0), Ok(0));
    assert_eq!(rotor.set_cursor(4), Ok(4));
    assert_eq!(rotor.set_cursor(5), Err(CipherError::InvalidCursor));
    assert_eq!(rotor.set_cursor(usize::MAX), Err(CipherError::InvalidCursor));

    let empty = Rotor::new(vec![], 0);
    assert_eq!(empty.set_cursor(0), Err(CipherError::InvalidCursor));
}
