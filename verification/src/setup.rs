//! Setting up a machine from key material, loaded or generated.

use vstd::prelude::*;
use crate::alphabet::position;
use crate::cipher::Cipher;
use crate::enigma::EnigmaMachine;
use crate::error::CipherError;
use crate::error::KeyStream;
use crate::json::reflector_to_json;
use crate::plugboard::build_plugboard;
use crate::plugboard::is_symmetric;
use crate::reflector::generated_reflector;
use crate::reflector::loaded_reflector;
use crate::reflector::reflector_unwritable;
use crate::rotor::Rotor;
use crate::rotor::RotorView;
use crate::rotor_bank::generated_rotor;
use crate::rotor_bank::LoadCheck;
use crate::rotor_bank::loaded_rotors;
use crate::rotor_bank::wiring_unwritable;
use crate::symbol_map::apply_map;
use crate::symbol_map::SymbolMap;
use crate::text::to_chars;

verus! {

/// What setting up a machine leaves for its caller beside the machine.
#[derive(Debug)]
pub struct KeyRecord {
    /// The line that persists the reflector, where it was generated.
    pub reflector_line: Option<String>,
    /// The wiring lines and the cursor lines that persist the rotors,
    /// where they were generated.
    pub rotor_lines: Option<(Vec<String>, Vec<String>)>,
    /// What the soft checks found of each rotor, where they were loaded.
    pub checks: Vec<LoadCheck>,
}

/// The rotors of a machine, with what setting them up leaves beside them.
#[derive(Debug)]
pub struct RotorSetup {
    pub rotors: Vec<Rotor>,
    /// The wiring lines and the cursor lines that persist the rotors,
    /// where they were generated.
    pub lines: Option<(Vec<String>, Vec<String>)>,
    /// What the soft checks found of each rotor, where they were loaded.
    pub checks: Vec<LoadCheck>,
}

/// The flag value that asks for fresh key material. Every other value
/// asks for key material to be loaded.
pub open spec fn generates(flag: Seq<char>) -> bool {
    flag =~= seq!['m']
}

/// The reflector `wires` can be set for these inputs, with `line` to
/// persist it: a generated one with its line if the flag asks for it, else
/// the one that the stream holds, without a line.
pub open spec fn reflector_set(
    flag: Seq<char>,
    alphabet: Seq<char>,
    lines: Seq<Seq<char>>,
    wires: Map<char, char>,
    line: Option<Seq<char>>,
) -> bool {
    if generates(flag) {
        generated_reflector(alphabet, wires) && line is Some && reflector_to_json(wires) == line
    } else {
        loaded_reflector(lines) === Ok(wires) && line is None
    }
}

/// Setting the reflector for these inputs can fail with `e`.
pub open spec fn reflector_refused(
    flag: Seq<char>,
    alphabet: Seq<char>,
    lines: Seq<Seq<char>>,
    e: CipherError,
) -> bool {
    if generates(flag) {
        e == CipherError::Format(KeyStream::Reflector) && reflector_unwritable(alphabet)
    } else {
        loaded_reflector(lines) === Err(e)
    }
}

/// Some reflector can be set for these inputs.
pub open spec fn reflector_possible(
    flag: Seq<char>,
    alphabet: Seq<char>,
    lines: Seq<Seq<char>>,
) -> bool {
    exists|wires: Map<char, char>, line: Option<Seq<char>>|
        reflector_set(flag, alphabet, lines, wires, line)
}

/// The rotors `rotors` can be set for these inputs, with `lines` to
/// persist them and `checks` as the findings of the soft checks:
/// generated ones with their wiring lines and cursor lines if the flag
/// asks for it, else those that the streams hold, with the findings.
pub open spec fn rotors_set(
    flag: Seq<char>,
    alphabet: Seq<char>,
    rotor_num: nat,
    wiring_lines: Seq<Seq<char>>,
    cursor_lines: Seq<Seq<char>>,
    rotors: Seq<RotorView>,
    lines: Option<(Seq<Seq<char>>, Seq<Seq<char>>)>,
    checks: Seq<LoadCheck>,
) -> bool {
    if generates(flag) {
        &&& lines is Some
        &&& rotors.len() == rotor_num
        &&& lines->Some_0.0.len() == rotor_num
        &&& lines->Some_0.1.len() == rotor_num
        &&& checks.len() == 0
        &&& forall|i: int|
            0 <= i < rotor_num ==> generated_rotor(
                alphabet,
                #[trigger] rotors[i],
                lines->Some_0.0[i],
                lines->Some_0.1[i],
            )
    } else {
        &&& lines is None
        &&& loaded_rotors(alphabet, rotor_num, wiring_lines, cursor_lines) === Ok((rotors, checks))
    }
}

/// Setting the rotors for these inputs can fail with `e`.
pub open spec fn rotors_refused(
    flag: Seq<char>,
    alphabet: Seq<char>,
    rotor_num: nat,
    wiring_lines: Seq<Seq<char>>,
    cursor_lines: Seq<Seq<char>>,
    e: CipherError,
) -> bool {
    if generates(flag) {
        e == CipherError::Format(KeyStream::Wirings) && wiring_unwritable(alphabet)
    } else {
        loaded_rotors(alphabet, rotor_num, wiring_lines, cursor_lines) === Err(e)
    }
}

/// Some rotors can be set for these inputs.
pub open spec fn rotors_possible(
    flag: Seq<char>,
    alphabet: Seq<char>,
    rotor_num: nat,
    wiring_lines: Seq<Seq<char>>,
    cursor_lines: Seq<Seq<char>>,
) -> bool {
    exists|
        rotors: Seq<RotorView>,
        lines: Option<(Seq<Seq<char>>, Seq<Seq<char>>)>,
        checks: Seq<LoadCheck>,
    |
        rotors_set(flag, alphabet, rotor_num, wiring_lines, cursor_lines, rotors, lines, checks)
}

/// Whether `flag` asks for fresh key material.
pub fn is_generate(flag: &str) -> (b: bool)
    ensures
        b == generates(flag@),
{
    let chars = to_chars(flag);
    chars.len() == 1 && chars[0] == 'm'
}

impl<'a> EnigmaMachine<'a> {
    /// Sets the reflector: a fresh one if `reflector_from` asks for it,
    /// else the one that `reflector_lines` hold.
    pub fn set_reflector(reflector_from: &str, alphabet: &str, reflector_lines: &Vec<String>) -> (r:
        Result<(SymbolMap, Option<String>), CipherError>)
        ensures
            match r {
                Ok((wires, line)) => reflector_set(
                    reflector_from@,
                    alphabet@,
                    reflector_lines.deep_view(),
                    wires@,
                    line.deep_view(),
                ),
                Err(e) => reflector_refused(
                    reflector_from@,
                    alphabet@,
                    reflector_lines.deep_view(),
                    e,
                ),
            },
    {
        if is_generate(reflector_from) {
            match Self::create_reflector(alphabet) {
                Ok((wires, line)) => Ok((wires, Some(line))),
                Err(e) => Err(e),
            }
        } else {
            match Self::load_reflector(reflector_lines) {
                Ok(wires) => Ok((wires, None)),
                Err(e) => Err(e),
            }
        }
    }

    /// Sets the rotors: fresh ones if `rotors_from` asks for it, else
    /// those that the two streams hold.
    pub fn set_rotors(
        alphabet: &str,
        rotor_num: usize,
        passwords_lines: &Vec<String>,
        rotors_cursor_lines: &Vec<String>,
        rotors_from: &str,
    ) -> (r: Result<RotorSetup, CipherError>)
        requires
            generates(rotors_from@) && rotor_num > 0 ==> alphabet@.len() >= 2,
        ensures
            match r {
                Ok(set) => rotors_set(
                    rotors_from@,
                    alphabet@,
                    rotor_num as nat,
                    passwords_lines.deep_view(),
                    rotors_cursor_lines.deep_view(),
                    set.rotors.deep_view(),
                    set.lines.deep_view(),
                    set.checks@,
                ),
                Err(e) => rotors_refused(
                    rotors_from@,
                    alphabet@,
                    rotor_num as nat,
                    passwords_lines.deep_view(),
                    rotors_cursor_lines.deep_view(),
                    e,
                ),
            },
    {
        if is_generate(rotors_from) {
            match Self::generate_rotors(alphabet, rotor_num) {
                Ok((rotors, wiring_lines, cursor_lines)) => Ok(
                    RotorSetup {
                        rotors,
                        lines: Some((wiring_lines, cursor_lines)),
                        checks: Vec::new(),
                    },
                ),
                Err(e) => Err(e),
            }
        } else {
            match Self::load_rotors(alphabet, rotor_num, passwords_lines, rotors_cursor_lines) {
                Ok((rotors, checks)) => Ok(RotorSetup { rotors, lines: None, checks }),
                Err(e) => Err(e),
            }
        }
    }

    /// Sets up a machine over `alphabet` with `rotor_num` rotors: first
    /// the reflector, then the rotors, then the plugboard. The first of
    /// them that fails decides the error, and no machine is made. Beside
    /// the machine stands what was generated and is to be persisted, and
    /// what the soft checks found.
    pub fn new(
        alphabet: &'a str,
        input_file: &'a str,
        output_file: &'a str,
        reflector_lines: &Vec<String>,
        rotor_num: usize,
        passwords_lines: &Vec<String>,
        rotors_cursor_lines: &Vec<String>,
        plugboard_lines: &Vec<String>,
        reflector_from: &str,
        rotors_from: &str,
    ) -> (r: Result<(Self, KeyRecord), CipherError>)
        requires
            generates(rotors_from@) && rotor_num > 0 ==> alphabet@.len() >= 2,
        ensures
            match r {
                Ok((machine, record)) => {
                    &&& machine.base.alphabet == alphabet
                    &&& machine.base.input_file == input_file
                    &&& machine.base.output_file == output_file
                    &&& machine.base.plain_text@ == Seq::<char>::empty()
                    &&& machine.base.encrypted_text@ == Seq::<char>::empty()
                    &&& reflector_set(
                        reflector_from@,
                        alphabet@,
                        reflector_lines.deep_view(),
                        machine.reflector@,
                        record.reflector_line.deep_view(),
                    )
                    &&& rotors_set(
                        rotors_from@,
                        alphabet@,
                        rotor_num as nat,
                        passwords_lines.deep_view(),
                        rotors_cursor_lines.deep_view(),
                        machine.rotors.deep_view(),
                        record.rotor_lines.deep_view(),
                        record.checks@,
                    )
                    &&& build_plugboard(plugboard_lines.deep_view()) === Ok(machine.plugboard@)
                    &&& is_symmetric(machine.plugboard@)
                },
                Err(e) => {
                    ||| reflector_refused(
                        reflector_from@,
                        alphabet@,
                        reflector_lines.deep_view(),
                        e,
                    )
                    ||| {
                        &&& reflector_possible(
                            reflector_from@,
                            alphabet@,
                            reflector_lines.deep_view(),
                        )
                        &&& rotors_refused(
                            rotors_from@,
                            alphabet@,
                            rotor_num as nat,
                            passwords_lines.deep_view(),
                            rotors_cursor_lines.deep_view(),
                            e,
                        )
                    }
                    ||| {
                        &&& reflector_possible(
                            reflector_from@,
                            alphabet@,
                            reflector_lines.deep_view(),
                        )
                        &&& rotors_possible(
                            rotors_from@,
                            alphabet@,
                            rotor_num as nat,
                            passwords_lines.deep_view(),
                            rotors_cursor_lines.deep_view(),
                        )
                        &&& build_plugboard(plugboard_lines.deep_view()) === Err(e)
                    }
                },
            },
    {
        let (reflector, reflector_line) = match Self::set_reflector(
            reflector_from,
            alphabet,
            reflector_lines,
        ) {
            Ok(set) => set,
            Err(e) => {
                return Err(e);
            },
        };
        let set = match Self::set_rotors(
            alphabet,
            rotor_num,
            passwords_lines,
            rotors_cursor_lines,
            rotors_from,
        ) {
            Ok(set) => set,
            Err(e) => {
                return Err(e);
            },
        };
        let plugboard = match Self::set_plugboard(plugboard_lines) {
            Ok(board) => board,
            Err(e) => {
                return Err(e);
            },
        };
        let machine = EnigmaMachine {
            base: Cipher::new(alphabet, input_file, output_file),
            reflector,
            rotors: set.rotors,
            plugboard,
        };
        let record = KeyRecord {
            reflector_line,
            rotor_lines: set.lines,
            checks: set.checks,
        };
        Ok((machine, record))
    }

    /// Whether the machine can encrypt: it has a rotor, each rotor's
    /// cursor points into its wiring, and reflector and plugboard lead
    /// from the alphabet into the alphabet.
    pub fn is_ready(&self) -> (b: bool)
        ensures
            b == self.wf(),
    {
        if self.rotors.len() == 0 {
            return false;
        }
        let mut i: usize = 0;
        while i < self.rotors.len()
            invariant
                i <= self.rotors.len(),
                forall|j: int| 0 <= j < i ==> (#[trigger] self.rotors.deep_view()[j]).wf(),
            decreases self.rotors.len() - i,
        {
            if self.rotors[i].cursor >= self.rotors[i].order.len() {
                proof {
                    assert(!self.rotors.deep_view()[i as int].wf());
                }
                return false;
            }
            i += 1;
        }
        let symbols = to_chars(self.base.alphabet);
        let mut k: usize = 0;
        while k < symbols.len()
            invariant
                k <= symbols.len(),
                symbols@ == self.base.alphabet@,
                forall|j: int|
                    0 <= j < k ==> symbols@.contains(
                        #[trigger] apply_map(self.reflector@, symbols@[j]),
                    ),
                forall|j: int|
                    0 <= j < k ==> symbols@.contains(
                        #[trigger] apply_map(self.plugboard@, symbols@[j]),
                    ),
            decreases symbols.len() - k,
        {
            let reflected = self.reflector.apply(symbols[k]);
            let plugged = self.plugboard.apply(symbols[k]);
            if position(&symbols, reflected).is_none() {
                proof {
                    assert(!symbols@.contains(apply_map(self.reflector@, symbols@[k as int])));
                }
                return false;
            }
            if position(&symbols, plugged).is_none() {
                proof {
                    assert(!symbols@.contains(apply_map(self.plugboard@, symbols@[k as int])));
                }
                return false;
            }
            k += 1;
        }
        true
    }
}

} // verus!
