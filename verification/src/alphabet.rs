//! The alphabet: where a symbol stands, shifting round its end, and
//! cleaning a text of what it does not hold.

use vstd::prelude::*;

verus! {

/// The index that results from moving `index` by `shift` places round an
/// alphabet of `len` symbols.
pub open spec fn wrap_index(len: int, index: int, shift: int) -> int {
    (index + shift) % len
}

/// The symbol that stands `shift` places after the first occurrence of `c`
/// in `alphabet`, counted round its end.
pub open spec fn shift_symbol(alphabet: Seq<char>, c: char, shift: int) -> char
    recommends
        alphabet.contains(c),
{
    alphabet[wrap_index(alphabet.len() as int, alphabet.index_of_first(c).unwrap(), shift)]
}

/// What is left of `text` when every character that is no symbol of
/// `alphabet` is taken out.
pub open spec fn clean(text: Seq<char>, alphabet: Seq<char>) -> Seq<char> {
    text.filter(|c: char| alphabet.contains(c))
}

/// Every character of `text` is a symbol of `alphabet`.
pub open spec fn within(text: Seq<char>, alphabet: Seq<char>) -> bool {
    forall|i: int| 0 <= i < text.len() ==> alphabet.contains(#[trigger] text[i])
}

/// An index at which `c` stands, with no `c` before it, is the index of its
/// first occurrence.
pub proof fn lemma_first_index(s: Seq<char>, c: char, i: int)
    requires
        0 <= i < s.len(),
        s[i] == c,
        forall|j: int| 0 <= j < i ==> s[j] != c,
    ensures
        s.index_of_first(c) == Some(i),
{
    s.index_of_first_ensures(c);
    assert(s.contains(c));
    let found = s.index_of_first(c).unwrap();
    if found < i {
        assert(s[found] != c);
    } else if i < found {
        assert(s[i] != c);
    }
}

/// In an alphabet without repeated symbols, each symbol is found where it
/// stands.
pub proof fn lemma_index_of_symbol(alphabet: Seq<char>, i: int)
    requires
        alphabet.no_duplicates(),
        0 <= i < alphabet.len(),
    ensures
        alphabet.index_of_first(alphabet[i]) == Some(i),
{
    lemma_first_index(alphabet, alphabet[i], i);
}

/// Where `c` first stands among `symbols`, if it does.
pub fn position(symbols: &Vec<char>, c: char) -> (r: Option<usize>)
    ensures
        r is Some <==> symbols@.contains(c),
        r matches Some(i) ==> i < symbols@.len() && symbols@.index_of_first(c) == Some(i as int),
{
    let mut i: usize = 0;
    while i < symbols.len()
        invariant
            i <= symbols@.len(),
            forall|j: int| 0 <= j < i ==> symbols@[j] != c,
        decreases symbols@.len() - i,
    {
        if symbols[i] == c {
            proof {
                lemma_first_index(symbols@, c, i as int);
            }
            return Some(i);
        }
        i += 1;
    }
    None
}

/// `index` moved by `shift` places round an alphabet of `len` symbols.
pub fn wrapped(len: usize, index: usize, shift: i128) -> (r: usize)
    requires
        len > 0,
        -0x1_0000_0000_0000_0000_0000_0000 <= shift <= 0x1_0000_0000_0000_0000_0000_0000,
    ensures
        r == wrap_index(len as int, index as int, shift as int),
        r < len,
{
    let sum: i128 = index as i128 + shift;
    match sum.checked_rem_euclid(len as i128) {
        Some(r) => r as usize,
        None => 0,
    }
}

/// The symbol `shift` places after `c`, counted round the end of `symbols`.
pub fn shifted(symbols: &Vec<char>, c: char, shift: i128) -> (r: char)
    requires
        symbols@.contains(c),
        -0x1_0000_0000_0000_0000_0000_0000 <= shift <= 0x1_0000_0000_0000_0000_0000_0000,
    ensures
        r == shift_symbol(symbols@, c, shift as int),
        symbols@.contains(r),
{
    match position(symbols, c) {
        Some(index) => symbols[wrapped(symbols.len(), index, shift)],
        None => c,
    }
}

/// The characters of `text` that are symbols of the alphabet `symbols`.
pub fn cleaned(text: &Vec<char>, symbols: &Vec<char>) -> (r: Vec<char>)
    ensures
        r@ == clean(text@, symbols@),
        within(r@, symbols@),
{
    let ghost keep = |c: char| symbols@.contains(c);
    let mut r: Vec<char> = Vec::new();
    let mut i: usize = 0;
    proof {
        reveal(Seq::filter);
    }
    while i < text.len()
        invariant
            i <= text@.len(),
            keep == |c: char| symbols@.contains(c),
            r@ == text@.take(i as int).filter(keep),
            within(r@, symbols@),
        decreases text@.len() - i,
    {
        proof {
            reveal(Seq::filter);
            assert(text@.take(i + 1).drop_last() =~= text@.take(i as int));
        }
        if position(symbols, text[i]).is_some() {
            r.push(text[i]);
        }
        i += 1;
    }
    proof {
        assert(text@.take(text@.len() as int) =~= text@);
    }
    r
}

} // verus!
