//! The shift cipher.

use vstd::prelude::*;
use crate::alphabet::clean;
use crate::alphabet::shift_symbol;
use crate::alphabet::shifted;
use crate::alphabet::within;
use crate::cipher::Cipher;
use crate::error::CipherError;
use crate::text::to_chars;

verus! {

/// The text in which every symbol of `text` is moved on by `shift` places
/// in `alphabet`.
pub open spec fn shift_text(alphabet: Seq<char>, text: Seq<char>, shift: int) -> Seq<char> {
    Seq::new(text.len(), |i: int| shift_symbol(alphabet, text[i], shift))
}

/// The shift cipher: every symbol is moved on by the same number of places
/// in the alphabet.
#[derive(Debug)]
pub struct CaesarCipher<'a> {
    pub base: Cipher<'a>,
    pub shift: i32,
}

impl<'a> CaesarCipher<'a> {
    /// A shift cipher over `alphabet` that moves each symbol on by `shift`
    /// places.
    pub fn new(alphabet: &'a str, input_file: &'a str, output_file: &'a str, shift: i32) -> (c:
        Self)
        ensures
            c.base.alphabet == alphabet,
            c.base.input_file == input_file,
            c.base.output_file == output_file,
            c.base.plain_text@ == Seq::<char>::empty(),
            c.base.encrypted_text@ == Seq::<char>::empty(),
            c.shift == shift,
    {
        CaesarCipher { base: Cipher::new(alphabet, input_file, output_file), shift }
    }

    /// The symbol `shift` places after `ch` in `alphabet`.
    pub fn encrypt_char(&self, alphabet: &str, ch: char, shift: i32) -> (r: char)
        requires
            alphabet@.contains(ch),
        ensures
            r == shift_symbol(alphabet@, ch, shift as int),
            alphabet@.contains(r),
    {
        let symbols = to_chars(alphabet);
        shifted(&symbols, ch, shift as i128)
    }

    /// Encrypts the plain text: it is cleaned of every character that is
    /// no symbol of the alphabet, and each symbol left is moved on by the
    /// cipher's shift. The result replaces the encrypted text.
    pub fn encrypt(&mut self) -> (r: Result<(), CipherError>)
        ensures
            r is Ok,
            final(self).base.plain_text@ == clean(
                old(self).base.plain_text@,
                old(self).base.alphabet@,
            ),
            final(self).base.encrypted_text@ == shift_text(
                old(self).base.alphabet@,
                final(self).base.plain_text@,
                old(self).shift as int,
            ),
            final(self).base.alphabet == old(self).base.alphabet,
            final(self).base.input_file == old(self).base.input_file,
            final(self).base.output_file == old(self).base.output_file,
            final(self).shift == old(self).shift,
    {
        self.base.clean_text();
        let plain_text = to_chars(self.base.plain_text.as_str());
        let ghost whole = shift_text(self.base.alphabet@, plain_text@, self.shift as int);
        let mut encrypted = String::new();
        let mut i: usize = 0;
        while i < plain_text.len()
            invariant
                i <= plain_text.len(),
                within(plain_text@, self.base.alphabet@),
                whole == shift_text(self.base.alphabet@, plain_text@, self.shift as int),
                encrypted@ == whole.take(i as int),
            decreases plain_text.len() - i,
        {
            let ch = self.encrypt_char(self.base.alphabet, plain_text[i], self.shift);
            proof {
                assert(whole.take(i + 1) =~= whole.take(i as int).push(ch));
            }
            encrypted.push(ch);
            i += 1;
        }
        proof {
            assert(whole.take(plain_text.len() as int) =~= whole);
        }
        self.base.encrypted_text = encrypted;
        Ok(())
    }
}

} // verus!
