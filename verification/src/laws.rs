//! What holds of the ciphers whatever their inputs: encrypting twice gives
//! the text back, the machine gives no symbol for itself, and the rotors
//! step like the digits of a counter.

use vstd::prelude::*;
use vstd::arithmetic::div_mod::lemma_add_mod_noop;
use vstd::arithmetic::div_mod::lemma_add_mod_noop_right;
use vstd::arithmetic::div_mod::lemma_fundamental_div_mod;
use vstd::arithmetic::div_mod::lemma_fundamental_div_mod_converse;
use vstd::arithmetic::div_mod::lemma_mod_equivalence;
use vstd::arithmetic::div_mod::lemma_small_mod;
use crate::alphabet::lemma_index_of_symbol;
use crate::alphabet::shift_symbol;
use crate::alphabet::within;
use crate::alphabet::wrap_index;
use crate::caesar::shift_text;
use crate::enigma::advance;
use crate::enigma::advance_by;
use crate::enigma::closed_over;
use crate::enigma::encode_symbol;
use crate::enigma::encode_text;
use crate::enigma::pass;
use crate::enigma::step_from;
use crate::plugboard::is_symmetric;
use crate::polyalphabetic::key_text;
use crate::reflector::generated_reflector;
use crate::reflector::lemma_generated_reflector;
use crate::rotor::RotorView;
use crate::symbol_map::apply_map;

verus! {

/// `wires` swaps the symbols of `alphabet` among themselves: each symbol
/// goes to a symbol of the alphabet, and from there back.
pub open spec fn swaps_within(wires: Map<char, char>, alphabet: Seq<char>) -> bool {
    forall|i: int|
        0 <= i < alphabet.len() ==> alphabet.contains(#[trigger] apply_map(wires, alphabet[i]))
            && apply_map(wires, apply_map(wires, alphabet[i])) == alphabet[i]
}

/// The sum of the offsets under the cursors of `rotors`.
pub open spec fn total_offset(rotors: Seq<RotorView>) -> int
    decreases rotors.len(),
{
    if rotors.len() == 0 {
        0
    } else {
        total_offset(rotors.drop_last()) + rotors.last().offset()
    }
}

/// A shifted symbol is a symbol of the alphabet, and it stands where the
/// shift leads.
pub proof fn lemma_shift_within(alphabet: Seq<char>, c: char, shift: int)
    requires
        alphabet.contains(c),
    ensures
        alphabet.contains(shift_symbol(alphabet, c, shift)),
        0 <= alphabet.index_of_first(c).unwrap() < alphabet.len(),
        0 <= wrap_index(alphabet.len() as int, alphabet.index_of_first(c).unwrap(), shift)
            < alphabet.len(),
{
    alphabet.index_of_first_ensures(c);
    let index = wrap_index(alphabet.len() as int, alphabet.index_of_first(c).unwrap(), shift);
    assert(0 <= index < alphabet.len());
    assert(alphabet[index] == shift_symbol(alphabet, c, shift));
}

/// Shifts that differ by a multiple of the alphabet's length lead to the
/// same symbol.
pub proof fn lemma_shift_congruent(alphabet: Seq<char>, c: char, a: int, b: int)
    requires
        alphabet.contains(c),
        (a - b) % (alphabet.len() as int) == 0,
    ensures
        shift_symbol(alphabet, c, a) == shift_symbol(alphabet, c, b),
{
    let len = alphabet.len() as int;
    let index = alphabet.index_of_first(c).unwrap();
    lemma_mod_equivalence(index + a, index + b, len);
}

/// Shifting a text of symbols of the alphabet by numbers of places that
/// differ by a multiple of the alphabet's length gives the same text.
pub proof fn lemma_shift_text_congruent(alphabet: Seq<char>, text: Seq<char>, a: int, b: int)
    requires
        within(text, alphabet),
        (a - b) % (alphabet.len() as int) == 0,
    ensures
        shift_text(alphabet, text, a) == shift_text(alphabet, text, b),
{
    assert forall|i: int| 0 <= i < text.len() implies shift_text(alphabet, text, a)[i]
        == shift_text(alphabet, text, b)[i] by {
        lemma_shift_congruent(alphabet, text[i], a, b);
    }
    assert(shift_text(alphabet, text, a) =~= shift_text(alphabet, text, b));
}

/// In an alphabet without repeated symbols, a shift by `a` and then by
/// `b` is a shift by their sum.
pub proof fn lemma_shift_add(alphabet: Seq<char>, c: char, a: int, b: int)
    requires
        alphabet.no_duplicates(),
        alphabet.contains(c),
    ensures
        shift_symbol(alphabet, shift_symbol(alphabet, c, a), b) == shift_symbol(alphabet, c, a + b),
{
    let len = alphabet.len() as int;
    let index = alphabet.index_of_first(c).unwrap();
    lemma_shift_within(alphabet, c, a);
    let middle = wrap_index(len, index, a);
    lemma_index_of_symbol(alphabet, middle);
    assert((middle + b) % len == (index + a + b) % len) by {
        lemma_add_mod_noop(index + a, b, len);
        lemma_add_mod_noop(middle, b, len);
        lemma_small_mod(middle as nat, len as nat);
    }
}

/// A shift by nothing leaves a symbol as it is.
pub proof fn lemma_shift_zero(alphabet: Seq<char>, c: char)
    requires
        alphabet.contains(c),
    ensures
        shift_symbol(alphabet, c, 0) == c,
{
    alphabet.index_of_first_ensures(c);
    let index = alphabet.index_of_first(c).unwrap();
    lemma_small_mod(index as nat, alphabet.len());
}

/// In an alphabet without repeated symbols, shifting a text of its symbols
/// by some number of places and then back by as many gives the text back.
pub proof fn lemma_shift_text_back(alphabet: Seq<char>, text: Seq<char>, shift: int)
    requires
        alphabet.no_duplicates(),
        within(text, alphabet),
    ensures
        within(shift_text(alphabet, text, shift), alphabet),
        shift_text(alphabet, shift_text(alphabet, text, shift), -shift) == text,
{
    let there = shift_text(alphabet, text, shift);
    let back = shift_text(alphabet, there, -shift);
    assert forall|i: int| 0 <= i < text.len() implies alphabet.contains(#[trigger] there[i])
        && back[i] == text[i] by {
        lemma_shift_within(alphabet, text[i], shift);
        lemma_shift_add(alphabet, text[i], shift, -shift);
        lemma_shift_zero(alphabet, text[i]);
    }
    assert(back =~= text);
}

/// In an alphabet without repeated symbols, moving a text of its symbols
/// by a key and then back by the same key gives the text back.
pub proof fn lemma_key_text_back(alphabet: Seq<char>, text: Seq<char>, key: Seq<i32>)
    requires
        alphabet.no_duplicates(),
        within(text, alphabet),
        key.len() > 0,
    ensures
        within(key_text(alphabet, text, key, 1), alphabet),
        key_text(alphabet, key_text(alphabet, text, key, 1), key, -1) == text,
{
    let there = key_text(alphabet, text, key, 1);
    let back = key_text(alphabet, there, key, -1);
    assert forall|i: int| 0 <= i < text.len() implies alphabet.contains(#[trigger] there[i])
        && back[i] == text[i] by {
        let entry = key[i % (key.len() as int)];
        lemma_shift_within(alphabet, text[i], entry * 1);
        lemma_shift_add(alphabet, text[i], entry * 1, entry * -1);
        lemma_shift_zero(alphabet, text[i]);
    }
    assert(back =~= text);
}

/// In an alphabet without repeated symbols, a pass through the rotors is
/// one shift by the sum of their offsets.
pub proof fn lemma_pass_total(alphabet: Seq<char>, rotors: Seq<RotorView>, c: char, sign: int)
    requires
        alphabet.no_duplicates(),
        alphabet.contains(c),
    ensures
        pass(alphabet, rotors, c, sign) == shift_symbol(alphabet, c, sign * total_offset(rotors)),
    decreases rotors.len(),
{
    if rotors.len() == 0 {
        lemma_shift_zero(alphabet, c);
    } else {
        lemma_pass_total(alphabet, rotors.drop_last(), c, sign);
        lemma_shift_add(
            alphabet,
            c,
            sign * total_offset(rotors.drop_last()),
            sign * rotors.last().offset(),
        );
        assert(sign * total_offset(rotors) == sign * total_offset(rotors.drop_last()) + sign
            * rotors.last().offset()) by (nonlinear_arith)
            requires
                total_offset(rotors) == total_offset(rotors.drop_last()) + rotors.last().offset(),
        ;
    }
}

/// With the rotors as they stand, the machine gives back the symbol that
/// it is given the symbol for: encoding is its own inverse.
pub proof fn lemma_encode_twice(
    alphabet: Seq<char>,
    rotors: Seq<RotorView>,
    reflector: Map<char, char>,
    plugboard: Map<char, char>,
    c: char,
)
    requires
        alphabet.no_duplicates(),
        swaps_within(reflector, alphabet),
        swaps_within(plugboard, alphabet),
        alphabet.contains(c),
    ensures
        alphabet.contains(encode_symbol(alphabet, rotors, reflector, plugboard, c)),
        encode_symbol(
            alphabet,
            rotors,
            reflector,
            plugboard,
            encode_symbol(alphabet, rotors, reflector, plugboard, c),
        ) == c,
{
    let total = total_offset(rotors);
    let plugged = apply_map(plugboard, c);
    lemma_swap(plugboard, alphabet, c);
    let forward = pass(alphabet, rotors, plugged, 1);
    lemma_pass_total(alphabet, rotors, plugged, 1);
    lemma_shift_within(alphabet, plugged, total);
    let reflected = apply_map(reflector, forward);
    lemma_swap(reflector, alphabet, forward);
    let back = pass(alphabet, rotors, reflected, -1);
    lemma_pass_total(alphabet, rotors, reflected, -1);
    lemma_shift_within(alphabet, reflected, -total);
    let out = apply_map(plugboard, back);
    lemma_swap(plugboard, alphabet, back);
    assert(out == encode_symbol(alphabet, rotors, reflector, plugboard, c));

    assert(apply_map(plugboard, out) == back);
    lemma_pass_total(alphabet, rotors, back, 1);
    lemma_shift_add(alphabet, reflected, -total, total);
    lemma_shift_zero(alphabet, reflected);
    assert(pass(alphabet, rotors, back, 1) == reflected);
    assert(apply_map(reflector, reflected) == forward);
    lemma_pass_total(alphabet, rotors, forward, -1);
    lemma_shift_add(alphabet, plugged, total, -total);
    lemma_shift_zero(alphabet, plugged);
    assert(pass(alphabet, rotors, forward, -1) == plugged);
}

/// With a reflector that sends no symbol of the alphabet to itself, the
/// machine never gives a symbol for itself.
pub proof fn lemma_never_itself(
    alphabet: Seq<char>,
    rotors: Seq<RotorView>,
    reflector: Map<char, char>,
    plugboard: Map<char, char>,
    c: char,
)
    requires
        alphabet.no_duplicates(),
        swaps_within(reflector, alphabet),
        swaps_within(plugboard, alphabet),
        forall|i: int| 0 <= i < alphabet.len() ==> #[trigger] apply_map(reflector, alphabet[i])
            != alphabet[i],
        alphabet.contains(c),
    ensures
        encode_symbol(alphabet, rotors, reflector, plugboard, c) != c,
{
    let total = total_offset(rotors);
    let plugged = apply_map(plugboard, c);
    lemma_swap(plugboard, alphabet, c);
    let forward = pass(alphabet, rotors, plugged, 1);
    lemma_pass_total(alphabet, rotors, plugged, 1);
    lemma_shift_within(alphabet, plugged, total);
    let reflected = apply_map(reflector, forward);
    lemma_swap(reflector, alphabet, forward);
    let back = pass(alphabet, rotors, reflected, -1);
    lemma_pass_total(alphabet, rotors, reflected, -1);
    lemma_shift_within(alphabet, reflected, -total);
    lemma_swap(plugboard, alphabet, back);
    if apply_map(plugboard, back) == c {
        assert(back == plugged);
        lemma_shift_add(alphabet, reflected, -total, total);
        lemma_shift_zero(alphabet, reflected);
        assert(reflected == forward);
        let i = alphabet.index_of(forward);
        assert(apply_map(reflector, alphabet[i]) != alphabet[i]);
    }
}

/// What `swaps_within` says of one symbol of the alphabet.
proof fn lemma_swap(wires: Map<char, char>, alphabet: Seq<char>, c: char)
    requires
        swaps_within(wires, alphabet),
        alphabet.contains(c),
    ensures
        alphabet.contains(apply_map(wires, c)),
        apply_map(wires, apply_map(wires, c)) == c,
{
    let i = alphabet.index_of(c);
    assert(alphabet[i] == c);
    assert(alphabet.contains(apply_map(wires, alphabet[i])));
}

/// Encrypting what the machine encrypted, from the same starting state,
/// gives the text back: for an alphabet without repeated symbols, a
/// reflector and a plugboard that swap its symbols among themselves, any
/// rotors, and any text of symbols of the alphabet.
pub proof fn lemma_round_trip(
    alphabet: Seq<char>,
    rotors: Seq<RotorView>,
    reflector: Map<char, char>,
    plugboard: Map<char, char>,
    text: Seq<char>,
)
    requires
        alphabet.no_duplicates(),
        swaps_within(reflector, alphabet),
        swaps_within(plugboard, alphabet),
        within(text, alphabet),
    ensures
        within(encode_text(alphabet, rotors, reflector, plugboard, text), alphabet),
        encode_text(
            alphabet,
            rotors,
            reflector,
            plugboard,
            encode_text(alphabet, rotors, reflector, plugboard, text),
        ) == text,
{
    let once = encode_text(alphabet, rotors, reflector, plugboard, text);
    let twice = encode_text(alphabet, rotors, reflector, plugboard, once);
    assert forall|k: int| 0 <= k < text.len() implies alphabet.contains(#[trigger] once[k])
        && twice[k] == text[k] by {
        lemma_encode_twice(alphabet, advance_by(rotors, k as nat), reflector, plugboard, text[k]);
    }
    assert(twice =~= text);
}

/// A plugboard as the library builds it, if it leads from the alphabet
/// into the alphabet, swaps the alphabet's symbols among themselves.
pub proof fn lemma_plugboard_swaps(board: Map<char, char>, alphabet: Seq<char>)
    requires
        is_symmetric(board),
        closed_over(board, alphabet),
    ensures
        swaps_within(board, alphabet),
{
}

/// A reflector generated for an alphabet without repeated symbols swaps
/// the alphabet's symbols among themselves.
pub proof fn lemma_reflector_swaps(wires: Map<char, char>, alphabet: Seq<char>)
    requires
        alphabet.no_duplicates(),
        generated_reflector(alphabet, wires),
    ensures
        swaps_within(wires, alphabet),
        closed_over(wires, alphabet),
{
    lemma_generated_reflector(alphabet, wires);
    assert forall|i: int| 0 <= i < alphabet.len() implies alphabet.contains(
        #[trigger] apply_map(wires, alphabet[i]),
    ) && apply_map(wires, apply_map(wires, alphabet[i])) == alphabet[i] by {
        let c = alphabet[i];
        if wires.contains_key(c) {
            assert(wires.contains_key(wires[c]));
        }
    }
}

/// Three rotors whose wirings have `m` offsets each, every cursor
/// pointing into its wiring.
pub open spec fn three_rotors(rotors: Seq<RotorView>, m: nat) -> bool {
    &&& rotors.len() == 3
    &&& m > 0
    &&& forall|i: int|
        0 <= i < 3 ==> (#[trigger] rotors[i]).order.len() == m && rotors[i].cursor < m
}

/// The three rotors `rotors` with their cursors at `first`, `second` and
/// `third`.
pub open spec fn with_cursors(rotors: Seq<RotorView>, first: nat, second: nat, third: nat) -> Seq<
    RotorView,
> {
    seq![
        RotorView { order: rotors[0].order, cursor: first },
        RotorView { order: rotors[1].order, cursor: second },
        RotorView { order: rotors[2].order, cursor: third },
    ]
}

/// Counting on by one in base `m`: the last digit moves on, and the digits
/// before it move on where the last one returns to 0.
proof fn lemma_count_on(k: nat, m: nat)
    requires
        m > 0,
    ensures
        (k + 1) % m == (if k % m == m - 1 {
            0
        } else {
            k % m + 1
        }),
        (k + 1) / m == (if k % m == m - 1 {
            k / m + 1
        } else {
            k / m
        }),
        0 <= k % m < m,
{
    lemma_fundamental_div_mod(k as int, m as int);
    let q = k as int / m as int;
    let r = k as int % m as int;
    assert(k == m * q + r);
    if r == m - 1 {
        assert(k + 1 == (q + 1) * m + 0) by (nonlinear_arith)
            requires
                k == m * q + r,
                r == m - 1,
        ;
        lemma_fundamental_div_mod_converse((k + 1) as int, m as int, q + 1, 0);
    } else {
        assert(k + 1 == q * m + (r + 1)) by (nonlinear_arith)
            requires
                k == m * q + r,
        ;
        lemma_fundamental_div_mod_converse((k + 1) as int, m as int, q, r + 1);
    }
}

/// One step of three rotors: the first moves on, the second where the
/// first returns to 0, the third where the second returns to 0 with it.
pub proof fn lemma_advance_three(rotors: Seq<RotorView>, m: nat)
    requires
        three_rotors(rotors, m),
    ensures
        three_rotors(advance(rotors), m),
        advance(rotors) == with_cursors(
            rotors,
            rotors[0].stepped().cursor,
            if rotors[0].stepped().cursor == 0 {
                rotors[1].stepped().cursor
            } else {
                rotors[1].cursor
            },
            if rotors[0].stepped().cursor == 0 && rotors[1].stepped().cursor == 0 {
                rotors[2].stepped().cursor
            } else {
                rotors[2].cursor
            },
        ),
{
    reveal_with_fuel(step_from, 4);
    lemma_count_on(rotors[0].cursor, m);
    lemma_count_on(rotors[1].cursor, m);
    lemma_count_on(rotors[2].cursor, m);
    assert(rotors[0].order.len() == m);
    assert(rotors[1].order.len() == m);
    assert(rotors[2].order.len() == m);
    let first = rotors.update(0, rotors[0].stepped());
    if first[0].cursor == 0 {
        let second = first.update(1, first[1].stepped());
        if second[1].cursor == 0 {
            let third = second.update(2, second[2].stepped());
            assert(advance(rotors) =~= third);
        } else {
            assert(advance(rotors) =~= second);
        }
    } else {
        assert(advance(rotors) =~= first);
    }
    let after = advance(rotors);
    assert(after =~= with_cursors(
        rotors,
        rotors[0].stepped().cursor,
        if rotors[0].stepped().cursor == 0 {
            rotors[1].stepped().cursor
        } else {
            rotors[1].cursor
        },
        if rotors[0].stepped().cursor == 0 && rotors[1].stepped().cursor == 0 {
            rotors[2].stepped().cursor
        } else {
            rotors[2].cursor
        },
    ));
}

/// A number below twice `m` leaves, divided by `m`, itself or itself less
/// `m`.
proof fn lemma_wrap_once(x: nat, m: nat)
    requires
        m > 0,
        x < 2 * m,
    ensures
        x % m == (if x >= m {
            x - m
        } else {
            x as int
        }),
{
    if x >= m {
        lemma_fundamental_div_mod_converse(x as int, m as int, 1, x - m);
    } else {
        lemma_small_mod(x, m);
    }
}

/// Where three rotors of `m` offsets each stand after `k` steps, the first
/// having started at cursor 0 and `k` being `m * m` at most: the first
/// rotor holds the last digit of `k` in base `m`, the second has stepped as
/// often as the first came back to 0, and the third has stepped once if
/// the second came back to 0 in that time.
pub open spec fn counted(rotors: Seq<RotorView>, m: nat, k: nat) -> Seq<RotorView> {
    with_cursors(
        rotors,
        k % m,
        (rotors[1].cursor + k / m) % m,
        if rotors[1].cursor + k / m >= m {
            rotors[2].stepped().cursor
        } else {
            rotors[2].cursor
        },
    )
}

/// Three rotors step like the digits of a counter: after `k` steps they
/// stand where `counted` says.
pub proof fn lemma_counter(rotors: Seq<RotorView>, m: nat, k: nat)
    requires
        three_rotors(rotors, m),
        rotors[0].cursor == 0,
        k <= m * m,
    ensures
        three_rotors(advance_by(rotors, k), m),
        advance_by(rotors, k) == counted(rotors, m, k),
    decreases k,
{
    let c1 = rotors[1].cursor;
    assert(rotors[1].order.len() == m && rotors[2].order.len() == m && c1 < m);
    if k == 0 {
        lemma_small_mod(0, m);
        lemma_small_mod(c1, m);
        lemma_fundamental_div_mod_converse(0, m as int, 0, 0);
        assert(rotors =~= counted(rotors, m, 0));
    } else {
        let j = (k - 1) as nat;
        let before = advance_by(rotors, j);
        lemma_counter(rotors, m, j);
        lemma_advance_three(before, m);
        let after = advance_by(rotors, k);
        assert(after == advance(before));
        let a = j % m;
        let q = j / m;
        let t = c1 + q;
        lemma_count_on(j, m);
        lemma_count_on(a, m);
        lemma_small_mod(a, m);
        assert(before[0].order.len() == m && before[1].order.len() == m && before[2].order.len()
            == m);
        assert(before[0].stepped().cursor == k % m);
        if a == m - 1 {
            assert(k / m == q + 1);
            assert(q + 1 <= m) by {
                lemma_fundamental_div_mod(k as int, m as int);
                assert(k as int / m as int <= m) by (nonlinear_arith)
                    requires
                        k == m * (k as int / m as int) + k as int % m as int,
                        0 <= k as int % m as int,
                        k <= m * m,
                        m > 0,
                ;
            }
            lemma_add_mod_noop_right(1, t as int, m as int);
            assert(before[1].stepped().cursor == (t + 1) % m);
            lemma_wrap_once(t + 1, m);
            assert(before[2].stepped() == rotors[2].stepped() || t >= m);
        }
        assert(after =~= counted(rotors, m, k));
    }
}

/// The first carry. With three rotors of `m` offsets each and the first
/// at cursor 0, `k` steps with `k` below `m` bring the first rotor to
/// position `k` and leave the others alone; the step that makes `m` brings
/// the first rotor back to 0 and steps the second one, once. The third
/// steps with it only where the second returns to 0.
pub proof fn lemma_first_carry(rotors: Seq<RotorView>, m: nat, k: nat)
    requires
        three_rotors(rotors, m),
        rotors[0].cursor == 0,
        k <= m,
    ensures
        three_rotors(advance_by(rotors, k), m),
        k < m ==> advance_by(rotors, k) == with_cursors(
            rotors,
            k,
            rotors[1].cursor,
            rotors[2].cursor,
        ),
        k == m ==> advance_by(rotors, k) == with_cursors(
            rotors,
            0,
            rotors[1].stepped().cursor,
            if rotors[1].stepped().cursor == 0 {
                rotors[2].stepped().cursor
            } else {
                rotors[2].cursor
            },
        ),
{
    let c1 = rotors[1].cursor;
    assert(rotors[1].order.len() == m && c1 < m);
    assert(m <= m * m) by (nonlinear_arith)
        requires
            m > 0,
    ;
    lemma_counter(rotors, m, k);
    if k < m {
        lemma_small_mod(k, m);
        lemma_fundamental_div_mod_converse(k as int, m as int, 0, k as int);
        lemma_small_mod(c1, m);
    } else {
        lemma_fundamental_div_mod_converse(k as int, m as int, 1, 0);
        lemma_wrap_once(c1 + 1, m);
    }
}

/// The second carry. With three rotors of `m` offsets each and the first
/// at cursor 0, the third rotor steps once at most within `m * m` steps,
/// and after `m * m` steps it has stepped exactly once, the first two
/// rotors standing where they started.
pub proof fn lemma_second_carry(rotors: Seq<RotorView>, m: nat, k: nat)
    requires
        three_rotors(rotors, m),
        rotors[0].cursor == 0,
        k <= m * m,
    ensures
        three_rotors(advance_by(rotors, k), m),
        advance_by(rotors, k)[2] == rotors[2] || advance_by(rotors, k)[2] == rotors[2].stepped(),
        k == m * m ==> advance_by(rotors, k) == with_cursors(
            rotors,
            0,
            rotors[1].cursor,
            rotors[2].stepped().cursor,
        ),
{
    let c1 = rotors[1].cursor;
    assert(rotors[1].order.len() == m && c1 < m);
    lemma_counter(rotors, m, k);
    if k == m * m {
        lemma_fundamental_div_mod_converse(k as int, m as int, m as int, 0);
        lemma_wrap_once(c1 + m, m);
    }
}

} // verus!
