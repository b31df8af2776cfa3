//! What the three ciphers share: the alphabet and the texts.

use vstd::prelude::*;
use crate::alphabet::clean;
use crate::alphabet::cleaned;
use crate::alphabet::wrap_index;
use crate::text::to_chars;
use crate::text::to_text;

verus! {

/// What every cipher of this crate works on: the alphabet, the names of
/// the files that the text comes from and goes to, the text to encrypt and
/// the text encrypted so far.
#[derive(Debug)]
pub struct Cipher<'a> {
    pub alphabet: &'a str,
    pub input_file: &'a str,
    pub output_file: &'a str,
    pub plain_text: String,
    pub encrypted_text: String,
}

impl<'a> Cipher<'a> {
    /// A cipher over `alphabet` that holds no text yet.
    pub fn new(alphabet: &'a str, input_file: &'a str, output_file: &'a str) -> (c: Self)
        ensures
            c.alphabet == alphabet,
            c.input_file == input_file,
            c.output_file == output_file,
            c.plain_text@ == Seq::<char>::empty(),
            c.encrypted_text@ == Seq::<char>::empty(),
    {
        Cipher {
            alphabet,
            input_file,
            output_file,
            plain_text: String::new(),
            encrypted_text: String::new(),
        }
    }

    /// Takes out of the plain text every character that is no symbol of
    /// the alphabet.
    pub fn clean_text(&mut self)
        ensures
            final(self).plain_text@ == clean(old(self).plain_text@, old(self).alphabet@),
            final(self).alphabet == old(self).alphabet,
            final(self).input_file == old(self).input_file,
            final(self).output_file == old(self).output_file,
            final(self).encrypted_text == old(self).encrypted_text,
    {
        let symbols = to_chars(self.alphabet);
        let text = to_chars(self.plain_text.as_str());
        let kept = cleaned(&text, &symbols);
        self.plain_text = to_text(&kept);
    }

    /// The index `shift` places after `index`, counted round an alphabet
    /// of `alphabet_len` symbols.
    pub fn change_index(&self, alphabet_len: i32, index: i32, shift: i32) -> (r: usize)
        requires
            alphabet_len != 0,
        ensures
            r == wrap_index(alphabet_len as int, index as int, shift as int),
    {
        let sum: i64 = index as i64 + shift as i64;
        match sum.checked_rem_euclid(alphabet_len as i64) {
            Some(r) => r as usize,
            None => 0,
        }
    }
}

} // verus!
