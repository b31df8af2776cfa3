//! The rotor machine: encoding a symbol, stepping the rotors, encrypting
//! a text.

use vstd::prelude::*;
use crate::alphabet::clean;
use crate::alphabet::shift_symbol;
use crate::alphabet::shifted;
use crate::alphabet::within;
use crate::cipher::Cipher;
use crate::error::CipherError;
use crate::rotor::Rotor;
use crate::rotor::RotorView;
use crate::symbol_map::apply_map;
use crate::symbol_map::SymbolMap;
use crate::text::to_chars;

verus! {

/// `wires` sends every symbol of `alphabet` to a symbol of `alphabet`.
pub open spec fn closed_over(wires: Map<char, char>, alphabet: Seq<char>) -> bool {
    forall|i: int|
        0 <= i < alphabet.len() ==> alphabet.contains(#[trigger] apply_map(wires, alphabet[i]))
}

/// Every rotor's cursor points into its wiring.
pub open spec fn rotors_wf(rotors: Seq<RotorView>) -> bool {
    forall|i: int| 0 <= i < rotors.len() ==> (#[trigger] rotors[i]).wf()
}

/// The symbol that comes out when `c` goes through the rotors in order,
/// each shifting it by the offset under its cursor, taken `sign` times.
pub open spec fn pass(alphabet: Seq<char>, rotors: Seq<RotorView>, c: char, sign: int) -> char
    decreases rotors.len(),
{
    if rotors.len() == 0 {
        c
    } else {
        shift_symbol(
            alphabet,
            pass(alphabet, rotors.drop_last(), c, sign),
            sign * rotors.last().offset(),
        )
    }
}

/// The symbol that the machine gives for `c` with its rotors as they
/// stand: through the plugboard, forward through the rotors, through the
/// reflector, back through the rotors, and through the plugboard again.
pub open spec fn encode_symbol(
    alphabet: Seq<char>,
    rotors: Seq<RotorView>,
    reflector: Map<char, char>,
    plugboard: Map<char, char>,
    c: char,
) -> char {
    let plugged = apply_map(plugboard, c);
    let forward = pass(alphabet, rotors, plugged, 1);
    let reflected = apply_map(reflector, forward);
    let back = pass(alphabet, rotors, reflected, -1);
    apply_map(plugboard, back)
}

/// The rotors after rotor `i` has stepped, and each rotor behind it whose
/// predecessor came back to 0 with it. The last rotor carries no further.
pub open spec fn step_from(rotors: Seq<RotorView>, i: int) -> Seq<RotorView>
    decreases rotors.len() - i,
{
    if 0 <= i < rotors.len() {
        let moved = rotors.update(i, rotors[i].stepped());
        if moved[i].cursor == 0 && i < rotors.len() - 1 {
            step_from(moved, i + 1)
        } else {
            moved
        }
    } else {
        rotors
    }
}

/// The rotors after the step that follows one symbol.
pub open spec fn advance(rotors: Seq<RotorView>) -> Seq<RotorView> {
    step_from(rotors, 0)
}

/// The rotors after `n` steps.
pub open spec fn advance_by(rotors: Seq<RotorView>, n: nat) -> Seq<RotorView>
    decreases n,
{
    if n == 0 {
        rotors
    } else {
        advance(advance_by(rotors, (n - 1) as nat))
    }
}

/// The text that the machine gives for `text`: its symbol at place `k` is
/// the one that the machine gives for the symbol of `text` there, with the
/// rotors `k` steps on from where they started.
pub open spec fn encode_text(
    alphabet: Seq<char>,
    rotors: Seq<RotorView>,
    reflector: Map<char, char>,
    plugboard: Map<char, char>,
    text: Seq<char>,
) -> Seq<char> {
    Seq::new(
        text.len(),
        |k: int|
            encode_symbol(alphabet, advance_by(rotors, k as nat), reflector, plugboard, text[k]),
    )
}

/// A step moves cursors only: it keeps the number of rotors, their
/// wirings, and that each cursor points into its wiring.
pub proof fn lemma_step_keeps_wiring(rotors: Seq<RotorView>, i: int)
    requires
        rotors_wf(rotors),
    ensures
        step_from(rotors, i).len() == rotors.len(),
        rotors_wf(step_from(rotors, i)),
        forall|j: int|
            0 <= j < rotors.len() ==> (#[trigger] step_from(rotors, i)[j]).order == rotors[j].order,
    decreases rotors.len() - i,
{
    if 0 <= i < rotors.len() {
        let moved = rotors.update(i, rotors[i].stepped());
        assert(rotors[i].wf());
        assert(rotors_wf(moved)) by {
            assert forall|j: int| 0 <= j < moved.len() implies (#[trigger] moved[j]).wf() by {
                if j != i {
                    assert(rotors[j].wf());
                }
            }
        }
        if moved[i].cursor == 0 && i < rotors.len() - 1 {
            lemma_step_keeps_wiring(moved, i + 1);
            assert forall|j: int| 0 <= j < rotors.len() implies (#[trigger] step_from(
                rotors,
                i,
            )[j]).order == rotors[j].order by {
                assert(step_from(moved, i + 1)[j].order == moved[j].order);
            }
        }
    }
}

/// Any number of steps keeps the number of rotors, their wirings, and that
/// each cursor points into its wiring.
pub proof fn lemma_advance_keeps_wiring(rotors: Seq<RotorView>, n: nat)
    requires
        rotors_wf(rotors),
    ensures
        advance_by(rotors, n).len() == rotors.len(),
        rotors_wf(advance_by(rotors, n)),
        forall|j: int|
            0 <= j < rotors.len() ==> (#[trigger] advance_by(rotors, n)[j]).order
                == rotors[j].order,
    decreases n,
{
    if n > 0 {
        lemma_advance_keeps_wiring(rotors, (n - 1) as nat);
        lemma_step_keeps_wiring(advance_by(rotors, (n - 1) as nat), 0);
    }
}

/// The rotor machine: an alphabet and the texts, a reflector, the rotors
/// in their order, and a plugboard.
#[derive(Debug)]
pub struct EnigmaMachine<'a> {
    pub base: Cipher<'a>,
    pub reflector: SymbolMap,
    pub rotors: Vec<Rotor>,
    pub plugboard: SymbolMap,
}

impl<'a> EnigmaMachine<'a> {
    /// The machine can encrypt: it has a rotor, each rotor's cursor points
    /// into its wiring, and reflector and plugboard lead from the
    /// alphabet into the alphabet.
    pub open spec fn wf(&self) -> bool {
        &&& self.rotors.len() > 0
        &&& rotors_wf(self.rotors.deep_view())
        &&& closed_over(self.reflector@, self.base.alphabet@)
        &&& closed_over(self.plugboard@, self.base.alphabet@)
    }

    /// The symbol that the reflector gives for `ch`: its partner, or `ch`
    /// itself where the reflector does not hold it.
    pub fn use_reflector(&self, ch: char) -> (r: char)
        ensures
            r == apply_map(self.reflector@, ch),
    {
        self.reflector.apply(ch)
    }

    /// The symbol that the plugboard gives for `ch`: its partner, or `ch`
    /// itself where it is not wired.
    pub fn use_plugboard(&self, ch: char) -> (r: char)
        ensures
            r == apply_map(self.plugboard@, ch),
    {
        self.plugboard.apply(ch)
    }

    /// Sends `ch` through the rotors in order, each shifting it by the
    /// offset under its cursor, taken `sign` times.
    pub fn encipher_and_decipher(&self, ch: char, sign: i32) -> (r: char)
        requires
            rotors_wf(self.rotors.deep_view()),
            self.base.alphabet@.contains(ch),
        ensures
            r == pass(self.base.alphabet@, self.rotors.deep_view(), ch, sign as int),
            self.base.alphabet@.contains(r),
    {
        let symbols = to_chars(self.base.alphabet);
        let mut ch = ch;
        let ghost start = ch;
        let ghost rotors = self.rotors.deep_view();
        let mut i: usize = 0;
        while i < self.rotors.len()
            invariant
                i <= self.rotors.len(),
                rotors == self.rotors.deep_view(),
                rotors_wf(rotors),
                symbols@ == self.base.alphabet@,
                symbols@.contains(ch),
                ch == pass(symbols@, rotors.take(i as int), start, sign as int),
            decreases self.rotors.len() - i,
        {
            let rotor = &self.rotors[i];
            proof {
                assert(rotors[i as int].wf());
                assert(rotors.take(i + 1).drop_last() =~= rotors.take(i as int));
                assert(rotors.take(i + 1).last() == rotors[i as int]);
            }
            let offset: usize = rotor.order[rotor.cursor];
            proof {
                assert(-0x1_0000_0000_0000_0000_0000_0000 <= sign * offset
                    <= 0x1_0000_0000_0000_0000_0000_0000) by (nonlinear_arith)
                    requires
                        -0x8000_0000 <= sign <= 0x7fff_ffff,
                        0 <= offset <= 0xffff_ffff_ffff_ffff,
                ;
            }
            let shift: i128 = (sign as i128) * (offset as i128);
            ch = shifted(&symbols, ch, shift);
            i += 1;
        }
        proof {
            assert(rotors.take(self.rotors.len() as int) =~= rotors);
        }
        ch
    }

    /// Steps rotor `i`, and each rotor behind it whose predecessor came
    /// back to 0 with it.
    pub fn link_and_move_rotors(&mut self, i: usize) -> (r: Result<(), CipherError>)
        requires
            i < old(self).rotors.len(),
            rotors_wf(old(self).rotors.deep_view()),
        ensures
            r is Ok,
            final(self).rotors.deep_view() == step_from(old(self).rotors.deep_view(), i as int),
            rotors_wf(final(self).rotors.deep_view()),
            final(self).rotors.len() == old(self).rotors.len(),
            final(self).base == old(self).base,
            final(self).reflector == old(self).reflector,
            final(self).plugboard == old(self).plugboard,
    {
        let ghost stepped = step_from(self.rotors.deep_view(), i as int);
        let mut at: usize = i;
        let mut carry = true;
        while carry
            invariant
                at < self.rotors.len(),
                self.rotors.len() == old(self).rotors.len(),
                rotors_wf(self.rotors.deep_view()),
                self.base == old(self).base,
                self.reflector == old(self).reflector,
                self.plugboard == old(self).plugboard,
                stepped == step_from(old(self).rotors.deep_view(), i as int),
                carry ==> stepped == step_from(self.rotors.deep_view(), at as int),
                !carry ==> stepped == self.rotors.deep_view(),
            decreases
                    self.rotors.len() - at + (if carry {
                        1int
                    } else {
                        0int
                    }),
        {
            let ghost before = self.rotors.deep_view();
            proof {
                assert(before[at as int].wf());
                assert(self.rotors@[at as int].order.len() == before[at as int].order.len());
                lemma_step_keeps_wiring(before, at as int);
            }
            self.rotors[at].step();
            proof {
                let after = self.rotors.deep_view();
                assert(after == before.update(at as int, before[at as int].stepped()));
                assert forall|j: int| 0 <= j < after.len() implies (#[trigger] after[j]).wf() by {
                    if j != at {
                        assert(before[j].wf());
                    }
                }
            }
            if self.rotors[at].cursor == 0 && at < self.rotors.len() - 1 {
                at += 1;
            } else {
                carry = false;
            }
        }
        Ok(())
    }

    /// Encrypts the plain text. The text is first cleaned of every
    /// character that is no symbol of the alphabet; each symbol left is
    /// sent through the machine, and the rotors step once behind it. What
    /// comes out is appended to the encrypted text.
    pub fn encrypt(&mut self) -> (r: Result<(), CipherError>)
        requires
            old(self).wf(),
        ensures
            r is Ok,
            final(self).wf(),
            final(self).base.plain_text@ == clean(
                old(self).base.plain_text@,
                old(self).base.alphabet@,
            ),
            final(self).base.encrypted_text@ == old(self).base.encrypted_text@ + encode_text(
                old(self).base.alphabet@,
                old(self).rotors.deep_view(),
                old(self).reflector@,
                old(self).plugboard@,
                final(self).base.plain_text@,
            ),
            final(self).rotors.deep_view() == advance_by(
                old(self).rotors.deep_view(),
                final(self).base.plain_text@.len(),
            ),
            final(self).base.alphabet == old(self).base.alphabet,
            final(self).base.input_file == old(self).base.input_file,
            final(self).base.output_file == old(self).base.output_file,
            final(self).reflector == old(self).reflector,
            final(self).plugboard == old(self).plugboard,
    {
        self.base.clean_text();
        let plain_text = to_chars(self.base.plain_text.as_str());
        let ghost alphabet = self.base.alphabet@;
        let ghost reflector = self.reflector@;
        let ghost plugboard = self.plugboard@;
        let ghost start = self.rotors.deep_view();
        let ghost whole = encode_text(alphabet, start, reflector, plugboard, plain_text@);
        let mut k: usize = 0;
        while k < plain_text.len()
            invariant
                k <= plain_text.len(),
                self.wf(),
                within(plain_text@, alphabet),
                alphabet == self.base.alphabet@,
                reflector == self.reflector@,
                plugboard == self.plugboard@,
                plain_text@ == self.base.plain_text@,
                start == old(self).rotors.deep_view(),
                whole == encode_text(alphabet, start, reflector, plugboard, plain_text@),
                self.base.plain_text@ == clean(old(self).base.plain_text@, alphabet),
                self.base.alphabet == old(self).base.alphabet,
                self.base.input_file == old(self).base.input_file,
                self.base.output_file == old(self).base.output_file,
                self.reflector == old(self).reflector,
                self.plugboard == old(self).plugboard,
                self.rotors.deep_view() == advance_by(start, k as nat),
                self.base.encrypted_text@ == old(self).base.encrypted_text@ + whole.take(k as int),
            decreases plain_text.len() - k,
        {
            let c = plain_text[k];
            proof {
                assert(alphabet.contains(plain_text@[k as int]));
                let at = alphabet.index_of(c);
                assert(apply_map(plugboard, alphabet[at]) == apply_map(plugboard, c));
            }
            let mut ch = self.use_plugboard(c);
            ch = self.encipher_and_decipher(ch, 1);
            proof {
                let at = alphabet.index_of(ch);
                assert(apply_map(reflector, alphabet[at]) == apply_map(reflector, ch));
            }
            ch = self.use_reflector(ch);
            ch = self.encipher_and_decipher(ch, -1);
            proof {
                let at = alphabet.index_of(ch);
                assert(apply_map(plugboard, alphabet[at]) == apply_map(plugboard, ch));
            }
            ch = self.use_plugboard(ch);
            proof {
                assert(ch == whole[k as int]);
                assert(whole.take(k + 1) =~= whole.take(k as int).push(ch));
            }
            self.base.encrypted_text.push(ch);
            match self.link_and_move_rotors(0) {
                Ok(()) => {},
                Err(e) => {
                    return Err(e);
                },
            }
            k += 1;
        }
        proof {
            assert(whole.take(plain_text.len() as int) =~= whole);
        }
        Ok(())
    }
}

} // verus!
