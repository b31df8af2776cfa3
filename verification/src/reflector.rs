//! The reflector, loaded from its stream or generated.

use vstd::prelude::*;
use crate::enigma::EnigmaMachine;
use crate::error::CipherError;
use crate::error::KeyStream;
use crate::json::parse_reflector;
use crate::json::print_reflector;
use crate::json::reflector_from_json;
use crate::json::reflector_to_json;
use crate::random::shuffle;
use crate::symbol_map::apply_map;
use crate::symbol_map::distinct_keys;
use crate::symbol_map::is_involution;
use crate::symbol_map::lemma_pairs_to_map_dom;
use crate::symbol_map::lemma_pairs_to_map_len;
use crate::symbol_map::lemma_pairs_to_map_value;
use crate::symbol_map::pairs_to_map;
use crate::symbol_map::SymbolMap;
use crate::text::to_chars;

verus! {

/// The wires that pair the first half of `plugs` with the second: the
/// symbol at place `i` with the one half the length of `plugs` further on,
/// each wire in both directions. With an odd number of symbols the last
/// one stays without a partner.
pub open spec fn pairing(plugs: Seq<char>) -> Seq<(char, char)> {
    let half = plugs.len() / 2;
    Seq::new(
        2 * half,
        |k: int|
            if k % 2 == 0 {
                (plugs[k / 2], plugs[k / 2 + half])
            } else {
                (plugs[k / 2 + half], plugs[k / 2])
            },
    )
}

/// `wires` is a reflector that can be generated for `alphabet`: the
/// pairing of some reordering of its symbols.
pub open spec fn generated_reflector(alphabet: Seq<char>, wires: Map<char, char>) -> bool {
    exists|plugs: Seq<char>| #[trigger]
        plugs.to_multiset() == alphabet.to_multiset() && wires == pairs_to_map(pairing(plugs))
}

/// Some reflector that can be generated for `alphabet` cannot be written
/// down.
pub open spec fn reflector_unwritable(alphabet: Seq<char>) -> bool {
    exists|wires: Map<char, char>| #[trigger]
        generated_reflector(alphabet, wires) && reflector_to_json(wires) is None
}

/// The reflector that the lines of a reflector stream hold: the mapping
/// that the first line is read as. A stream without a line, or with a
/// first line that is not read as a mapping, holds none.
pub open spec fn loaded_reflector(lines: Seq<Seq<char>>) -> Result<Map<char, char>, CipherError> {
    if lines.len() == 0 {
        Err(CipherError::Format(KeyStream::Reflector))
    } else {
        match reflector_from_json(lines[0]) {
            Some(wires) => Ok(wires),
            None => Err(CipherError::Format(KeyStream::Reflector)),
        }
    }
}

/// The place in `plugs` of the symbol that wire `k` of the pairing leads
/// from.
spec fn key_place(half: int, k: int) -> int {
    if k % 2 == 0 {
        k / 2
    } else {
        k / 2 + half
    }
}

/// The wire that leads back where wire `k` of the pairing came from.
spec fn partner(k: int) -> int {
    if k % 2 == 0 {
        k + 1
    } else {
        k - 1
    }
}

/// In the pairing of symbols of which none is repeated, no two wires lead
/// from the same symbol, each wire leads from the symbol at its place, and
/// its partner leads back.
proof fn lemma_pairing_distinct(plugs: Seq<char>)
    requires
        plugs.no_duplicates(),
    ensures
        distinct_keys(pairing(plugs)),
        forall|k: int|
            #![trigger pairing(plugs)[k]]
            0 <= k < pairing(plugs).len() ==> {
                let half = (plugs.len() / 2) as int;
                let pairs = pairing(plugs);
                &&& 0 <= key_place(half, k) < plugs.len()
                &&& pairs[k].0 == plugs[key_place(half, k)]
                &&& 0 <= partner(k) < pairs.len()
                &&& pairs[k].1 == pairs[partner(k)].0
                &&& pairs[k].0 == pairs[partner(k)].1
                &&& pairs[k].0 != pairs[k].1
            },
{
    let half = (plugs.len() / 2) as int;
    let pairs = pairing(plugs);
    assert forall|a: int, b: int| 0 <= a < b < pairs.len() implies pairs[a].0 != pairs[b].0 by {
        assert(key_place(half, a) != key_place(half, b));
        assert(pairs[a].0 == plugs[key_place(half, a)]);
        assert(pairs[b].0 == plugs[key_place(half, b)]);
    }
    assert forall|k: int| 0 <= k < pairs.len() implies {
        &&& 0 <= key_place(half, k) < plugs.len()
        &&& (#[trigger] pairs[k]).0 == plugs[key_place(half, k)]
        &&& 0 <= partner(k) < pairs.len()
        &&& pairs[k].1 == pairs[partner(k)].0
        &&& pairs[k].0 == pairs[partner(k)].1
        &&& pairs[k].0 != pairs[k].1
    } by {
        assert(pairs[k].1 == plugs[key_place(half, partner(k))]);
        assert(key_place(half, k) != key_place(half, partner(k)));
    }
}

/// A reflector generated for an alphabet without repeated symbols swaps
/// symbols in pairs, sends none to itself, and has as many entries as the
/// alphabet has symbols, less one where their number is odd. Where their
/// number is even, it holds every symbol of the alphabet, so reflecting
/// twice gives every symbol back, and no two symbols share a partner.
pub proof fn lemma_generated_reflector(alphabet: Seq<char>, wires: Map<char, char>)
    requires
        alphabet.no_duplicates(),
        generated_reflector(alphabet, wires),
    ensures
        is_involution(wires),
        forall|c: char| #[trigger] wires.contains_key(c) ==> wires[c] != c && alphabet.contains(c),
        forall|c: char| apply_map(wires, apply_map(wires, c)) == c,
        wires.dom().finite(),
        wires.dom().len() == 2 * (alphabet.len() / 2),
        wires.is_injective(),
        alphabet.len() % 2 == 0 ==> (forall|c: char|
            alphabet.contains(c) ==> #[trigger] wires.contains_key(c)),
        alphabet.len() % 2 == 0 ==> wires.dom().len() == alphabet.len(),
        alphabet.len() % 2 == 0 ==> (forall|c: char|
            alphabet.contains(c) ==> #[trigger] apply_map(wires, c) != c),
{
    broadcast use vstd::seq_lib::group_to_multiset_ensures;

    let plugs = choose|plugs: Seq<char>| #[trigger]
        plugs.to_multiset() == alphabet.to_multiset() && wires == pairs_to_map(pairing(plugs));
    alphabet.lemma_multiset_has_no_duplicates();
    plugs.lemma_multiset_has_no_duplicates_conv();
    assert(plugs.len() == alphabet.len()) by {
        assert(plugs.len() == plugs.to_multiset().len());
        assert(alphabet.len() == alphabet.to_multiset().len());
    }
    let half = (plugs.len() / 2) as int;
    let pairs = pairing(plugs);
    lemma_pairing_distinct(plugs);
    lemma_pairs_to_map_len(pairs);
    assert forall|c: char| #[trigger] wires.contains_key(c) implies {
        &&& wires.contains_key(wires[c])
        &&& wires[wires[c]] == c
        &&& wires[c] != c
        &&& alphabet.contains(c)
    } by {
        lemma_pairs_to_map_dom(pairs, c);
        let k = choose|k: int| 0 <= k < pairs.len() && (#[trigger] pairs[k]).0 == c;
        lemma_pairs_to_map_value(pairs, k);
        lemma_pairs_to_map_value(pairs, partner(k));
        assert(plugs.contains(plugs[key_place(half, k)]));
        assert(alphabet.to_multiset().count(c) > 0);
    }
    assert forall|a: char, b: char|
        a != b && wires.contains_key(a) && wires.contains_key(b) implies #[trigger] wires[a]
        != #[trigger] wires[b] by {
        assert(wires[wires[a]] == a);
        assert(wires[wires[b]] == b);
    }
    if alphabet.len() % 2 == 0 {
        assert forall|c: char| alphabet.contains(c) implies #[trigger] wires.contains_key(c) by {
            assert(plugs.to_multiset().count(c) > 0);
            assert(plugs.contains(c));
            let j = choose|j: int| 0 <= j < plugs.len() && plugs[j] == c;
            let k = if j < half {
                2 * j
            } else {
                2 * (j - half) + 1
            };
            assert(key_place(half, k) == j);
            assert(pairs[k].0 == c);
            lemma_pairs_to_map_dom(pairs, c);
        }
    }
}

/// Wires the first half of `plugs` to the second, and back.
pub fn pair_symbols(plugs: &Vec<char>) -> (wires: SymbolMap)
    ensures
        wires@ == pairs_to_map(pairing(plugs@)),
{
    let num = plugs.len() / 2;
    let ghost pairs = pairing(plugs@);
    let mut wires = SymbolMap::new();
    let mut i: usize = 0;
    proof {
        assert(pairs.take(0) =~= Seq::<(char, char)>::empty());
    }
    while i < num
        invariant
            i <= num,
            num == plugs.len() / 2,
            pairs == pairing(plugs@),
            wires@ == pairs_to_map(pairs.take(2 * i)),
        decreases num - i,
    {
        let left = plugs[i];
        let right = plugs[i + num];
        proof {
            assert(pairs[2 * i] == (left, right));
            assert(pairs[2 * i + 1] == (right, left));
            assert(pairs.take(2 * i + 1).drop_last() =~= pairs.take(2 * i));
            assert(pairs.take(2 * i + 1).last() == (left, right));
            assert(pairs.take(2 * i + 2).drop_last() =~= pairs.take(2 * i + 1));
            assert(pairs.take(2 * i + 2).last() == (right, left));
        }
        wires.insert(left, right);
        proof {
            assert(wires@ == pairs_to_map(pairs.take(2 * i + 1)));
        }
        wires.insert(right, left);
        proof {
            assert(wires@ == pairs_to_map(pairs.take(2 * i + 2)));
        }
        i += 1;
    }
    proof {
        assert(pairs.take(2 * num) =~= pairs);
    }
    wires
}

impl<'a> EnigmaMachine<'a> {
    /// A fresh reflector for `alphabet`, with the line that persists it: the
    /// symbols are shuffled and the first half is paired with the second.
    /// The error says that the reflector could not be written down.
    pub fn create_reflector(alphabet: &str) -> (r: Result<(SymbolMap, String), CipherError>)
        ensures
            match r {
                Ok((wires, line)) => {
                    &&& generated_reflector(alphabet@, wires@)
                    &&& reflector_to_json(wires@) == Some(line@)
                    &&& alphabet@.no_duplicates() ==> {
                        &&& is_involution(wires@)
                        &&& wires@.dom().len() == 2 * (alphabet@.len() / 2)
                        &&& forall|c: char| #[trigger]
                            wires@.contains_key(c) ==> wires@[c] != c && alphabet@.contains(c)
                        &&& alphabet@.len() % 2 == 0 ==> forall|c: char|
                            alphabet@.contains(c) ==> #[trigger] wires@.contains_key(c)
                    }
                },
                Err(e) => {
                    &&& e == CipherError::Format(KeyStream::Reflector)
                    &&& reflector_unwritable(alphabet@)
                },
            },
    {
        let mut plugs = to_chars(alphabet);
        shuffle(&mut plugs);
        let wires = pair_symbols(&plugs);
        proof {
            assert(plugs@.to_multiset() == alphabet@.to_multiset());
            assert(generated_reflector(alphabet@, wires@));
            if alphabet@.no_duplicates() {
                lemma_generated_reflector(alphabet@, wires@);
            }
        }
        let entries = wires.entries();
        match print_reflector(&entries) {
            Ok(line) => Ok((wires, line)),
            Err(_) => Err(CipherError::Format(KeyStream::Reflector)),
        }
    }

    /// The reflector that the lines of a reflector stream hold.
    pub fn load_reflector(reflector_lines: &Vec<String>) -> (r: Result<SymbolMap, CipherError>)
        ensures
            match r {
                Ok(wires) => loaded_reflector(reflector_lines.deep_view()) === Ok(wires@),
                Err(e) => loaded_reflector(reflector_lines.deep_view()) === Err(e),
            },
    {
        if reflector_lines.len() == 0 {
            return Err(CipherError::Format(KeyStream::Reflector));
        }
        proof {
            assert(reflector_lines.deep_view()[0] == reflector_lines@[0]@);
        }
        match parse_reflector(reflector_lines[0].as_str()) {
            Ok(pairs) => Ok(SymbolMap::from_pairs(&pairs)),
            Err(_) => Err(CipherError::Format(KeyStream::Reflector)),
        }
    }
}

} // verus!
