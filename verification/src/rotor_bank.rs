//! The rotors of a machine, loaded from their streams or generated.

use vstd::prelude::*;
use crate::enigma::EnigmaMachine;
use crate::error::CipherError;
use crate::error::KeyStream;
use crate::json::parse_wiring;
use crate::json::print_wiring;
use crate::json::wiring_from_json;
use crate::json::wiring_to_json;
use crate::number::decimal_digits;
use crate::number::parse_number;
use crate::number::read_number;
use crate::number::write_number;
use crate::rotor::offsets;
use crate::rotor::Rotor;
use crate::rotor::RotorView;
use crate::rotor::WiringCheck;

verus! {

/// What the soft checks of one loaded rotor found.
#[derive(Clone, Copy, Debug, PartialEq, Eq, Structural)]
pub struct LoadCheck {
    /// What the check of the wiring against the alphabet found.
    pub wiring: WiringCheck,
    /// The wiring is as long as the first rotor's.
    pub same_length: bool,
}

/// The wirings that the lines of a wiring stream hold, one to a line, if
/// every line is read as a list of numbers.
pub open spec fn parsed_wirings(lines: Seq<Seq<char>>) -> Option<Seq<Seq<usize>>> {
    if forall|i: int| 0 <= i < lines.len() ==> (#[trigger] wiring_from_json(lines[i])) is Some {
        Some(Seq::new(lines.len(), |i: int| wiring_from_json(lines[i]).unwrap()))
    } else {
        None
    }
}

/// The cursors that the lines of a cursor stream hold, one to a line, if
/// every line holds a number.
pub open spec fn parsed_cursors(lines: Seq<Seq<char>>) -> Option<Seq<usize>> {
    if forall|i: int| 0 <= i < lines.len() ==> (#[trigger] parse_number(lines[i])) is Some {
        Some(Seq::new(lines.len(), |i: int| parse_number(lines[i]).unwrap()))
    } else {
        None
    }
}

/// What the soft checks find of wiring `i` among `wirings`.
pub open spec fn load_check(alphabet: Seq<char>, wirings: Seq<Seq<usize>>, i: int) -> LoadCheck {
    LoadCheck {
        wiring: WiringCheck {
            fits_alphabet: wirings[i].len() + 1 == alphabet.len(),
            distinct: wirings[i].no_duplicates(),
        },
        same_length: wirings[i].len() == wirings[0].len(),
    }
}

/// The rotors made of `wirings` and `cursors`, with what the soft checks
/// find of each. There must be `rotor_num` of either, and each cursor must
/// point into its wiring.
pub open spec fn assembled(
    alphabet: Seq<char>,
    rotor_num: nat,
    wirings: Seq<Seq<usize>>,
    cursors: Seq<usize>,
) -> Result<(Seq<RotorView>, Seq<LoadCheck>), CipherError> {
    if wirings.len() != rotor_num || cursors.len() != rotor_num {
        Err(CipherError::CountMismatch)
    } else if exists|i: int| 0 <= i < rotor_num && #[trigger] cursors[i] >= wirings[i].len() {
        Err(CipherError::InvalidCursor)
    } else {
        Ok(
            (
                Seq::new(
                    rotor_num,
                    |i: int| RotorView { order: wirings[i], cursor: cursors[i] as nat },
                ),
                Seq::new(rotor_num, |i: int| load_check(alphabet, wirings, i)),
            ),
        )
    }
}

/// The rotors that a wiring stream and a cursor stream hold. A line that
/// cannot be read, or a wiring stream without a line, is a format error;
/// it comes before any other.
pub open spec fn loaded_rotors(
    alphabet: Seq<char>,
    rotor_num: nat,
    wiring_lines: Seq<Seq<char>>,
    cursor_lines: Seq<Seq<char>>,
) -> Result<(Seq<RotorView>, Seq<LoadCheck>), CipherError> {
    match parsed_wirings(wiring_lines) {
        None => Err(CipherError::Format(KeyStream::Wirings)),
        Some(wirings) => if wirings.len() == 0 {
            Err(CipherError::Format(KeyStream::Wirings))
        } else {
            match parsed_cursors(cursor_lines) {
                None => Err(CipherError::Format(KeyStream::Cursors)),
                Some(cursors) => assembled(alphabet, rotor_num, wirings, cursors),
            }
        },
    }
}

/// `rotor` can be generated for `alphabet`, and the two lines persist it:
/// its wiring is a reordering of the offsets from 1 up to the number of
/// symbols less one, and its cursor points into the wiring.
pub open spec fn generated_rotor(
    alphabet: Seq<char>,
    rotor: RotorView,
    wiring_line: Seq<char>,
    cursor_line: Seq<char>,
) -> bool {
    &&& rotor.order.to_multiset() == offsets(alphabet.len()).to_multiset()
    &&& rotor.wf()
    &&& wiring_to_json(rotor.order) == Some(wiring_line)
    &&& cursor_line == decimal_digits(rotor.cursor)
}

/// Some wiring that can be generated for `alphabet` cannot be written
/// down.
pub open spec fn wiring_unwritable(alphabet: Seq<char>) -> bool {
    exists|order: Seq<usize>| #[trigger]
        order.to_multiset() == offsets(alphabet.len()).to_multiset() && wiring_to_json(
            order,
        ) is None
}

/// Makes the rotors of `wirings` and `cursors`, and checks each wiring
/// softly.
pub fn assemble_rotors(
    alphabet: &str,
    rotor_num: usize,
    wirings: &Vec<Vec<usize>>,
    cursors: &Vec<usize>,
) -> (r: Result<(Vec<Rotor>, Vec<LoadCheck>), CipherError>)
    ensures
        match r {
            Ok((rotors, checks)) => assembled(
                alphabet@,
                rotor_num as nat,
                wirings.deep_view(),
                cursors@,
            ) === Ok((rotors.deep_view(), checks@)),
            Err(e) => assembled(alphabet@, rotor_num as nat, wirings.deep_view(), cursors@) === Err(
                e,
            ),
        },
{
    if wirings.len() != rotor_num || cursors.len() != rotor_num {
        return Err(CipherError::CountMismatch);
    }
    let ghost all = wirings.deep_view();
    let mut rotors: Vec<Rotor> = Vec::new();
    let mut checks: Vec<LoadCheck> = Vec::new();
    let mut i: usize = 0;
    while i < rotor_num
        invariant
            i <= rotor_num,
            wirings.len() == rotor_num,
            cursors.len() == rotor_num,
            all == wirings.deep_view(),
            rotors.len() == i,
            checks.len() == i,
            forall|j: int| 0 <= j < i ==> cursors@[j] < all[j].len(),
            forall|j: int|
                0 <= j < i ==> (#[trigger] rotors@[j])@ == (RotorView {
                    order: all[j],
                    cursor: cursors@[j] as nat,
                }),
            forall|j: int| 0 <= j < i ==> #[trigger] checks@[j] == load_check(alphabet@, all, j),
        decreases rotor_num - i,
    {
        proof {
            assert(all[i as int] == wirings@[i as int]@);
            assert(all[0] == wirings@[0]@);
        }
        let mut rotor = Rotor::new(Vec::new(), 0);
        let (order, wiring) = match rotor.set_order(alphabet, &wirings[i]) {
            Ok(checked) => checked,
            Err(e) => {
                return Err(e);
            },
        };
        rotor.order = order;
        match rotor.set_cursor(cursors[i]) {
            Ok(cursor) => {
                rotor.cursor = cursor;
            },
            Err(e) => {
                return Err(e);
            },
        }
        let same_length = wirings[i].len() == wirings[0].len();
        rotors.push(rotor);
        checks.push(LoadCheck { wiring, same_length });
        i += 1;
    }
    proof {
        let made = assembled(alphabet@, rotor_num as nat, all, cursors@);
        assert(made is Ok);
        assert(rotors.deep_view() =~= made->Ok_0.0);
        assert(checks@ =~= made->Ok_0.1);
    }
    Ok((rotors, checks))
}

impl<'a> EnigmaMachine<'a> {
    /// Reads the rotors that a wiring stream and a cursor stream hold.
    pub fn load_rotors(
        alphabet: &str,
        rotor_num: usize,
        passwords_lines: &Vec<String>,
        rotors_cursor_lines: &Vec<String>,
    ) -> (r: Result<(Vec<Rotor>, Vec<LoadCheck>), CipherError>)
        ensures
            match r {
                Ok((rotors, checks)) => loaded_rotors(
                    alphabet@,
                    rotor_num as nat,
                    passwords_lines.deep_view(),
                    rotors_cursor_lines.deep_view(),
                ) === Ok((rotors.deep_view(), checks@)),
                Err(e) => loaded_rotors(
                    alphabet@,
                    rotor_num as nat,
                    passwords_lines.deep_view(),
                    rotors_cursor_lines.deep_view(),
                ) === Err(e),
            },
    {
        let ghost wiring_lines = passwords_lines.deep_view();
        let ghost cursor_lines = rotors_cursor_lines.deep_view();
        let mut wirings: Vec<Vec<usize>> = Vec::new();
        let mut i: usize = 0;
        while i < passwords_lines.len()
            invariant
                i <= passwords_lines.len(),
                wiring_lines == passwords_lines.deep_view(),
                wirings.len() == i,
                forall|j: int|
                    0 <= j < i ==> #[trigger] wiring_from_json(wiring_lines[j]) == Some(
                        wirings@[j]@,
                    ),
            decreases passwords_lines.len() - i,
        {
            proof {
                assert(wiring_lines[i as int] == passwords_lines@[i as int]@);
            }
            match parse_wiring(passwords_lines[i].as_str()) {
                Ok(order) => {
                    wirings.push(order);
                },
                Err(_) => {
                    proof {
                        assert(wiring_from_json(wiring_lines[i as int]) is None);
                    }
                    return Err(CipherError::Format(KeyStream::Wirings));
                },
            }
            i += 1;
        }
        proof {
            assert(parsed_wirings(wiring_lines) is Some);
            assert forall|j: int| 0 <= j < wirings.len() implies wirings.deep_view()[j]
                == parsed_wirings(wiring_lines).unwrap()[j] by {
                assert(wirings@[j].deep_view() =~= wirings@[j]@);
                assert(wiring_from_json(wiring_lines[j]) == Some(wirings@[j]@));
            }
            assert(wirings.deep_view() =~= parsed_wirings(wiring_lines).unwrap());
        }
        if wirings.len() == 0 {
            return Err(CipherError::Format(KeyStream::Wirings));
        }
        let mut cursors: Vec<usize> = Vec::new();
        let mut k: usize = 0;
        while k < rotors_cursor_lines.len()
            invariant
                k <= rotors_cursor_lines.len(),
                cursor_lines == rotors_cursor_lines.deep_view(),
                wiring_lines == passwords_lines.deep_view(),
                parsed_wirings(wiring_lines) matches Some(all) && all.len() > 0,
                cursors.len() == k,
                forall|j: int|
                    0 <= j < k ==> #[trigger] parse_number(cursor_lines[j]) == Some(cursors@[j]),
            decreases rotors_cursor_lines.len() - k,
        {
            proof {
                assert(cursor_lines[k as int] == rotors_cursor_lines@[k as int]@);
            }
            match read_number(rotors_cursor_lines[k].as_str()) {
                Some(cursor) => {
                    cursors.push(cursor);
                },
                None => {
                    proof {
                        assert(parse_number(cursor_lines[k as int]) is None);
                    }
                    return Err(CipherError::Format(KeyStream::Cursors));
                },
            }
            k += 1;
        }
        proof {
            assert(parsed_cursors(cursor_lines) is Some);
            assert(cursors@ =~= parsed_cursors(cursor_lines).unwrap());
        }
        assemble_rotors(alphabet, rotor_num, &wirings, &cursors)
    }

    /// `rotor_num` fresh rotors for `alphabet`, with the wiring lines and the
    /// cursor lines that persist them. The error says that a wiring could not
    /// be written down.
    pub fn generate_rotors(alphabet: &str, rotor_num: usize) -> (r: Result<
        (Vec<Rotor>, Vec<String>, Vec<String>),
        CipherError,
    >)
        requires
            rotor_num > 0 ==> alphabet@.len() >= 2,
        ensures
            match r {
                Ok((rotors, wiring_lines, cursor_lines)) => {
                    &&& rotors.len() == rotor_num
                    &&& wiring_lines.len() == rotor_num
                    &&& cursor_lines.len() == rotor_num
                    &&& forall|i: int|
                        0 <= i < rotor_num ==> generated_rotor(
                            alphabet@,
                            #[trigger] rotors.deep_view()[i],
                            wiring_lines.deep_view()[i],
                            cursor_lines.deep_view()[i],
                        )
                },
                Err(e) => {
                    &&& e == CipherError::Format(KeyStream::Wirings)
                    &&& wiring_unwritable(alphabet@)
                },
            },
    {
        let mut rotors: Vec<Rotor> = Vec::new();
        let mut wiring_lines: Vec<String> = Vec::new();
        let mut cursor_lines: Vec<String> = Vec::new();
        let mut i: usize = 0;
        while i < rotor_num
            invariant
                i <= rotor_num,
                rotor_num > 0 ==> alphabet@.len() >= 2,
                rotors.len() == i,
                wiring_lines.len() == i,
                cursor_lines.len() == i,
                forall|j: int|
                    0 <= j < i ==> generated_rotor(
                        alphabet@,
                        (#[trigger] rotors@[j])@,
                        wiring_lines@[j]@,
                        cursor_lines@[j]@,
                    ),
            decreases rotor_num - i,
        {
            let mut rotor = Rotor::new(Vec::new(), 0);
            let order = match rotor.generate_order(alphabet) {
                Ok(order) => order,
                Err(e) => {
                    return Err(e);
                },
            };
            rotor.order = order;
            let wiring_line = match print_wiring(&rotor.order) {
                Ok(line) => line,
                Err(_) => {
                    proof {
                        assert(rotor.order@.to_multiset() == offsets(
                            alphabet@.len(),
                        ).to_multiset());
                    }
                    return Err(CipherError::Format(KeyStream::Wirings));
                },
            };
            rotor.cursor = rotor.generate_cursor();
            let cursor_line = write_number(rotor.cursor);
            rotors.push(rotor);
            wiring_lines.push(wiring_line);
            cursor_lines.push(cursor_line);
            i += 1;
        }
        Ok((rotors, wiring_lines, cursor_lines))
    }
}

} // verus!
