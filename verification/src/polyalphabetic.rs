//! The running-key cipher.

use vstd::prelude::*;
use crate::alphabet::clean;
use crate::alphabet::position;
use crate::alphabet::shift_symbol;
use crate::alphabet::shifted;
use crate::alphabet::within;
use crate::cipher::Cipher;
use crate::error::CipherError;
use crate::text::to_chars;

verus! {

/// The key that `keyword` stands for: for each of its symbols, the place
/// of the symbol in `alphabet`, counted from 1.
pub open spec fn keyword_key(alphabet: Seq<char>, keyword: Seq<char>) -> Seq<i32> {
    Seq::new(keyword.len(), |i: int| (alphabet.index_of_first(keyword[i]).unwrap() + 1) as i32)
}

/// `keyword` can be a key over `alphabet`: each of its symbols is one of
/// the alphabet, at a place that a key can hold.
pub open spec fn is_keyword(alphabet: Seq<char>, keyword: Seq<char>) -> bool {
    forall|i: int|
        0 <= i < keyword.len() ==> alphabet.contains(#[trigger] keyword[i])
            && alphabet.index_of_first(keyword[i]).unwrap() < i32::MAX
}

/// The text in which the symbol of `text` at place `i` is moved on in
/// `alphabet` by the key's entry at place `i`, counted round the key's
/// end, taken `sign` times.
pub open spec fn key_text(alphabet: Seq<char>, text: Seq<char>, key: Seq<i32>, sign: int) -> Seq<
    char,
>
    recommends
        key.len() > 0,
{
    Seq::new(
        text.len(),
        |i: int| shift_symbol(alphabet, text[i], key[i % (key.len() as int)] * sign),
    )
}

/// The running-key cipher: the symbols of a keyword, repeated, say by how
/// many places each symbol of the text is moved.
#[derive(Debug)]
pub struct PolyalphabeticCipher<'a> {
    pub base: Cipher<'a>,
    pub key: Vec<i32>,
    pub decrypt: bool,
}

impl<'a> PolyalphabeticCipher<'a> {
    /// Whether `keyword` can be a key over `alphabet`.
    pub fn accepts(alphabet: &str, keyword: &str) -> (b: bool)
        ensures
            b == is_keyword(alphabet@, keyword@),
    {
        let symbols = to_chars(alphabet);
        let letters = to_chars(keyword);
        let mut i: usize = 0;
        while i < letters.len()
            invariant
                i <= letters.len(),
                symbols@ == alphabet@,
                letters@ == keyword@,
                forall|j: int|
                    0 <= j < i ==> symbols@.contains(#[trigger] letters@[j])
                        && symbols@.index_of_first(letters@[j]).unwrap() < i32::MAX,
            decreases letters.len() - i,
        {
            match position(&symbols, letters[i]) {
                Some(place) => {
                    if place >= i32::MAX as usize {
                        return false;
                    }
                },
                None => {
                    return false;
                },
            }
            i += 1;
        }
        true
    }

    /// A running-key cipher over `alphabet` with the key that `keyword`
    /// stands for, set to decrypt or to encrypt.
    pub fn new(
        alphabet: &'a str,
        input_file: &'a str,
        output_file: &'a str,
        keyword: &str,
        decrypt: bool,
    ) -> (c: Self)
        requires
            is_keyword(alphabet@, keyword@),
        ensures
            c.base.alphabet == alphabet,
            c.base.input_file == input_file,
            c.base.output_file == output_file,
            c.base.plain_text@ == Seq::<char>::empty(),
            c.base.encrypted_text@ == Seq::<char>::empty(),
            c.key@ == keyword_key(alphabet@, keyword@),
            c.decrypt == decrypt,
    {
        let symbols = to_chars(alphabet);
        let letters = to_chars(keyword);
        let mut key: Vec<i32> = Vec::new();
        let mut i: usize = 0;
        while i < letters.len()
            invariant
                i <= letters.len(),
                symbols@ == alphabet@,
                letters@ == keyword@,
                is_keyword(alphabet@, keyword@),
                key@ == keyword_key(alphabet@, keyword@).take(i as int),
            decreases letters.len() - i,
        {
            proof {
                assert(alphabet@.contains(keyword@[i as int]));
                assert(keyword_key(alphabet@, keyword@).take(i + 1) =~= keyword_key(
                    alphabet@,
                    keyword@,
                ).take(i as int).push(keyword_key(alphabet@, keyword@)[i as int]));
            }
            match position(&symbols, letters[i]) {
                Some(place) => {
                    key.push(place as i32 + 1);
                },
                None => {},
            }
            i += 1;
        }
        proof {
            assert(keyword_key(alphabet@, keyword@).take(letters.len() as int) =~= keyword_key(
                alphabet@,
                keyword@,
            ));
        }
        PolyalphabeticCipher { base: Cipher::new(alphabet, input_file, output_file), key, decrypt }
    }

    /// The symbol that `ch`, at place `idx` of a text, is moved to: on in
    /// `alphabet` by the entry of `key` at place `idx`, counted round the
    /// key's end, taken `sign` times.
    pub fn encrypt_char(
        &self,
        alphabet: &str,
        ch: char,
        key: &Vec<i32>,
        idx: usize,
        sign: i32,
    ) -> (r: char)
        requires
            key.len() > 0,
            alphabet@.contains(ch),
        ensures
            r == shift_symbol(alphabet@, ch, key@[idx as int % (key.len() as int)] * sign),
            alphabet@.contains(r),
    {
        let entry: i32 = key[idx % key.len()];
        proof {
            assert(-0x1_0000_0000_0000_0000 <= entry * sign <= 0x1_0000_0000_0000_0000)
                by (nonlinear_arith)
                requires
                    -0x8000_0000 <= entry <= 0x7fff_ffff,
                    -0x8000_0000 <= sign <= 0x7fff_ffff,
            ;
        }
        let shift: i128 = (entry as i128) * (sign as i128);
        let symbols = to_chars(alphabet);
        shifted(&symbols, ch, shift)
    }

    /// Encrypts the plain text, or decrypts it if the cipher is set to:
    /// the text is cleaned of every character that is no symbol of the
    /// alphabet, and each symbol left is moved by the key, forward to
    /// encrypt and backward to decrypt. The result replaces the encrypted
    /// text.
    pub fn encrypt(&mut self) -> (r: Result<(), CipherError>)
        requires
            old(self).key.len() > 0 || clean(
                old(self).base.plain_text@,
                old(self).base.alphabet@,
            ).len() == 0,
        ensures
            r is Ok,
            final(self).base.plain_text@ == clean(
                old(self).base.plain_text@,
                old(self).base.alphabet@,
            ),
            final(self).base.encrypted_text@ == key_text(
                old(self).base.alphabet@,
                final(self).base.plain_text@,
                old(self).key@,
                if old(self).decrypt {
                    -1
                } else {
                    1
                },
            ),
            final(self).base.alphabet == old(self).base.alphabet,
            final(self).base.input_file == old(self).base.input_file,
            final(self).base.output_file == old(self).base.output_file,
            final(self).key == old(self).key,
            final(self).decrypt == old(self).decrypt,
    {
        self.base.clean_text();
        let sign: i32 = if self.decrypt {
            -1
        } else {
            1
        };
        let plain_text = to_chars(self.base.plain_text.as_str());
        let ghost whole = key_text(self.base.alphabet@, plain_text@, self.key@, sign as int);
        let mut encrypted = String::new();
        let mut i: usize = 0;
        while i < plain_text.len()
            invariant
                i <= plain_text.len(),
                self.key.len() > 0 || plain_text.len() == 0,
                within(plain_text@, self.base.alphabet@),
                whole == key_text(self.base.alphabet@, plain_text@, self.key@, sign as int),
                encrypted@ == whole.take(i as int),
            decreases plain_text.len() - i,
        {
            let ch = self.encrypt_char(self.base.alphabet, plain_text[i], &self.key, i, sign);
            proof {
                assert(whole.take(i + 1) =~= whole.take(i as int).push(ch));
            }
            encrypted.push(ch);
            i += 1;
        }
        proof {
            assert(whole.take(plain_text.len() as int) =~= whole);
        }
        self.base.encrypted_text = encrypted;
        Ok(())
    }
}

} // verus!
