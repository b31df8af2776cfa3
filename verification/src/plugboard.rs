//! The plugboard and the pair lines that describe it.

use vstd::prelude::*;
use crate::alphabet::position;
use crate::enigma::EnigmaMachine;
use crate::error::CipherError;
use crate::error::KeyStream;
use crate::symbol_map::is_involution;
use crate::symbol_map::SymbolMap;
use crate::text::is_white_space;
use crate::text::to_chars;

verus! {

/// The ASCII upper case form of `c`: `a` to `z` become `A` to `Z`, every
/// other character stays as it is.
pub open spec fn upper(c: char) -> char {
    if 'a' <= c <= 'z' {
        ((c as u8 - 32) as u8) as char
    } else {
        c
    }
}

/// The ASCII upper case form of `c`.
pub fn to_upper(c: char) -> (r: char)
    ensures
        r == upper(c),
{
    if 'a' <= c && c <= 'z' {
        let code: u8 = c as u8;
        (code - 32) as char
    } else {
        c
    }
}

/// The first character of `line` from place `from` up to place `to` that
/// `blank` does not mark, if there is one.
pub open spec fn first_symbol(line: Seq<char>, blank: Seq<bool>, from: int, to: int) -> Option<char>
    decreases to - from,
{
    if from >= to {
        None
    } else if !blank[from] {
        Some(line[from])
    } else {
        first_symbol(line, blank, from + 1, to)
    }
}

/// The pair of symbols that `line` names, where `blank` marks the
/// characters that are white space. The line is split at its first `-`;
/// each side gives its first character that is not marked, in upper case.
/// A line without `-`, or with a side that holds nothing but marked
/// characters, names no pair.
pub open spec fn pair_in(line: Seq<char>, blank: Seq<bool>) -> Option<(char, char)> {
    match line.index_of_first('-') {
        None => None,
        Some(dash) => match (
            first_symbol(line, blank, 0, dash),
            first_symbol(line, blank, dash + 1, line.len() as int),
        ) {
            (Some(left), Some(right)) => Some((upper(left), upper(right))),
            _ => None,
        },
    }
}

/// For each character of `line`, whether it is white space.
pub open spec fn white_space_in(line: Seq<char>) -> Seq<bool> {
    Seq::new(line.len(), |i: int| is_white_space(line[i]))
}

/// The pair of symbols that a plugboard line names: a symbol, `-`, and a
/// symbol, with any white space round them.
pub open spec fn parse_pair(line: Seq<char>) -> Option<(char, char)> {
    pair_in(line, white_space_in(line))
}

/// The plugboard `board` with the wire `pair` added in both directions. A
/// wire is refused when its first symbol is already wired from, or its
/// second symbol already wired to.
pub open spec fn plug(board: Map<char, char>, pair: (char, char)) -> Result<
    Map<char, char>,
    CipherError,
> {
    if board.contains_key(pair.0) {
        Err(CipherError::DuplicateKey)
    } else if board.contains_value(pair.1) {
        Err(CipherError::DuplicateValue)
    } else {
        Ok(board.insert(pair.0, pair.1).insert(pair.1, pair.0))
    }
}

/// The plugboard that the pair lines `lines` describe, read from the first
/// to the last; the first line that names no pair or whose wire is refused
/// decides the error.
pub open spec fn build_plugboard(lines: Seq<Seq<char>>) -> Result<Map<char, char>, CipherError>
    decreases lines.len(),
{
    if lines.len() == 0 {
        Ok(Map::empty())
    } else {
        match build_plugboard(lines.drop_last()) {
            Err(e) => Err(e),
            Ok(board) => match parse_pair(lines.last()) {
                None => Err(CipherError::Format(KeyStream::Plugboard)),
                Some(pair) => plug(board, pair),
            },
        }
    }
}

/// A board on which every wired symbol is also wired to: its symbols and
/// their partners are the same set.
pub open spec fn is_symmetric(board: Map<char, char>) -> bool {
    &&& is_involution(board)
    &&& forall|c: char| board.contains_value(c) ==> board.contains_key(c)
}

/// Adding a wire to a symmetric board leaves it symmetric.
pub proof fn lemma_plug_symmetric(board: Map<char, char>, pair: (char, char))
    requires
        is_symmetric(board),
    ensures
        plug(board, pair) matches Ok(next) ==> is_symmetric(next),
{
    if let Ok(next) = plug(board, pair) {
        let (a, b) = pair;
        assert(!board.contains_key(a));
        assert(!board.contains_key(b)) by {
            if board.contains_key(b) {
                assert(board.contains_key(board[b]) && board[board[b]] == b);
                assert(board.contains_value(b));
            }
        }
        assert forall|c: char| #[trigger] next.contains_key(c) implies next.contains_key(next[c])
            && next[next[c]] == c by {
            if c != a && c != b {
                assert(board.contains_key(c));
                assert(board.contains_key(board[c]));
                assert(board[c] != a && board[c] != b);
            }
        }
        assert forall|c: char| next.contains_value(c) implies next.contains_key(c) by {
            let k = choose|k: char| #[trigger] next.contains_key(k) && next[k] == c;
            if k != a && k != b {
                assert(board.contains_key(k));
                assert(board.contains_key(board[k]));
            }
        }
    }
}

/// Every plugboard that can be built swaps its symbols in pairs.
pub proof fn lemma_plugboard_symmetric(lines: Seq<Seq<char>>)
    ensures
        build_plugboard(lines) matches Ok(board) ==> is_symmetric(board),
    decreases lines.len(),
{
    if lines.len() > 0 {
        lemma_plugboard_symmetric(lines.drop_last());
        if let Ok(board) = build_plugboard(lines.drop_last()) {
            if let Some(pair) = parse_pair(lines.last()) {
                lemma_plug_symmetric(board, pair);
            }
        }
    }
}

/// Once a prefix of the lines is refused, the whole is refused with the
/// same error.
proof fn lemma_build_prefix(lines: Seq<Seq<char>>, n: int)
    requires
        0 <= n <= lines.len(),
    ensures
        build_plugboard(lines.take(n)) matches Err(e) ==> build_plugboard(lines) === Err(e),
    decreases lines.len() - n,
{
    if n < lines.len() {
        assert(lines.take(n + 1).drop_last() =~= lines.take(n));
        lemma_build_prefix(lines, n + 1);
    } else {
        assert(lines.take(n) =~= lines);
    }
}

/// The first character of `line` from place `from` up to place `to` that
/// `blank` does not mark.
fn scan_symbol(line: &Vec<char>, blank: &Vec<bool>, from: usize, to: usize) -> (r: Option<char>)
    requires
        from <= to <= line.len(),
        blank.len() == line.len(),
    ensures
        r == first_symbol(line@, blank@, from as int, to as int),
{
    let mut i: usize = from;
    while i < to
        invariant
            from <= i <= to <= line.len(),
            blank.len() == line.len(),
            first_symbol(line@, blank@, from as int, to as int) == first_symbol(
                line@,
                blank@,
                i as int,
                to as int,
            ),
        decreases to - i,
    {
        if !blank[i] {
            return Some(line[i]);
        }
        i += 1;
    }
    None
}

/// Finds the pair of symbols that `line` names, where `blank` marks the
/// characters that are white space.
pub fn find_pair(line: &Vec<char>, blank: &Vec<bool>) -> (r: Option<(char, char)>)
    requires
        blank.len() == line.len(),
    ensures
        r == pair_in(line@, blank@),
{
    match position(line, '-') {
        None => {
            proof {
                line@.index_of_first_ensures('-');
            }
            None
        },
        Some(dash) => {
            let left = scan_symbol(line, blank, 0, dash);
            let right = scan_symbol(line, blank, dash + 1, line.len());
            match (left, right) {
                (Some(l), Some(r)) => Some((to_upper(l), to_upper(r))),
                _ => None,
            }
        },
    }
}

/// Reads one plugboard line.
pub fn read_pair(line: &str) -> (r: Option<(char, char)>)
    ensures
        r == parse_pair(line@),
{
    let chars = to_chars(line);
    let mut blank: Vec<bool> = Vec::new();
    let mut i: usize = 0;
    while i < chars.len()
        invariant
            i <= chars.len(),
            blank@ == white_space_in(chars@).take(i as int),
        decreases chars.len() - i,
    {
        proof {
            assert(white_space_in(chars@).take(i + 1) =~= white_space_in(chars@).take(
                i as int,
            ).push(is_white_space(chars@[i as int])));
        }
        blank.push(chars[i].is_whitespace());
        i += 1;
    }
    proof {
        assert(white_space_in(chars@).take(chars.len() as int) =~= white_space_in(chars@));
    }
    find_pair(&chars, &blank)
}

/// Adds the wire `pair` to `board`, in both directions, unless it is
/// refused; a refused wire leaves the board as it is.
pub fn plug_in(board: &mut SymbolMap, pair: (char, char)) -> (r: Result<(), CipherError>)
    ensures
        match r {
            Ok(()) => plug(old(board)@, pair) === Ok(final(board)@),
            Err(e) => plug(old(board)@, pair) === Err(e) && final(board)@ == old(board)@,
        },
{
    if board.contains_key(pair.0) {
        return Err(CipherError::DuplicateKey);
    }
    if board.contains_value(pair.1) {
        return Err(CipherError::DuplicateValue);
    }
    board.insert(pair.0, pair.1);
    board.insert(pair.1, pair.0);
    Ok(())
}

impl<'a> EnigmaMachine<'a> {
    /// Sets the plugboard that `plugboard_lines` describe, one pair to a line.
    pub fn set_plugboard(plugboard_lines: &Vec<String>) -> (r: Result<SymbolMap, CipherError>)
        ensures
            match r {
                Ok(board) => {
                    &&& build_plugboard(plugboard_lines.deep_view()) === Ok(board@)
                    &&& is_symmetric(board@)
                },
                Err(e) => build_plugboard(plugboard_lines.deep_view()) === Err(e),
            },
    {
        let ghost all = plugboard_lines.deep_view();
        let mut board = SymbolMap::new();
        let mut i: usize = 0;
        proof {
            assert(all.take(0) =~= Seq::<Seq<char>>::empty());
        }
        while i < plugboard_lines.len()
            invariant
                i <= plugboard_lines@.len(),
                all == plugboard_lines.deep_view(),
                build_plugboard(all.take(i as int)) === Ok(board@),
            decreases plugboard_lines@.len() - i,
        {
            proof {
                assert(all.take(i + 1).drop_last() =~= all.take(i as int));
                assert(all.take(i + 1).last() == plugboard_lines@[i as int]@);
                lemma_build_prefix(all, i + 1);
            }
            match read_pair(plugboard_lines[i].as_str()) {
                None => {
                    return Err(CipherError::Format(KeyStream::Plugboard));
                },
                Some(pair) => {
                    match plug_in(&mut board, pair) {
                        Ok(()) => {},
                        Err(e) => {
                            return Err(e);
                        },
                    }
                },
            }
            i += 1;
        }
        proof {
            assert(all.take(plugboard_lines@.len() as int) =~= all);
            lemma_plugboard_symmetric(all);
        }
        Ok(board)
    }
}

} // verus!
