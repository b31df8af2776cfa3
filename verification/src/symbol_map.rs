//! Finite wirings from symbols to symbols.

use vstd::prelude::*;

verus! {

/// The mapping that results from inserting the pairs of `pairs` in order
/// into an empty mapping; a later pair replaces an earlier one with the
/// same first symbol.
pub open spec fn pairs_to_map(pairs: Seq<(char, char)>) -> Map<char, char>
    decreases pairs.len(),
{
    if pairs.len() == 0 {
        Map::empty()
    } else {
        pairs_to_map(pairs.drop_last()).insert(pairs.last().0, pairs.last().1)
    }
}

/// No two pairs of `pairs` start with the same symbol.
pub open spec fn distinct_keys(pairs: Seq<(char, char)>) -> bool {
    forall|i: int, j: int| 0 <= i < j < pairs.len() ==> pairs[i].0 != pairs[j].0
}

/// The symbol that a wiring `m` sends `c` to: its partner where `c` is
/// wired, and `c` itself where it is not.
pub open spec fn apply_map(m: Map<char, char>, c: char) -> char {
    if m.contains_key(c) {
        m[c]
    } else {
        c
    }
}

/// `m` swaps symbols in pairs: whatever it sends a symbol to, it sends back.
pub open spec fn is_involution(m: Map<char, char>) -> bool {
    forall|c: char| #[trigger] m.contains_key(c) ==> m.contains_key(m[c]) && m[m[c]] == c
}

/// A symbol is wired in the mapping of `pairs` exactly if some pair starts
/// with it, and the mapping wires finitely many symbols.
pub proof fn lemma_pairs_to_map_dom(pairs: Seq<(char, char)>, k: char)
    ensures
        pairs_to_map(pairs).contains_key(k) <==> exists|i: int|
            0 <= i < pairs.len() && (#[trigger] pairs[i]).0 == k,
        pairs_to_map(pairs).dom().finite(),
    decreases pairs.len(),
{
    if pairs.len() > 0 {
        let front = pairs.drop_last();
        lemma_pairs_to_map_dom(front, k);
        if pairs_to_map(pairs).contains_key(k) {
            if pairs.last().0 == k {
                assert(pairs[pairs.len() - 1].0 == k);
            } else {
                let i = choose|i: int| 0 <= i < front.len() && (#[trigger] front[i]).0 == k;
                assert(pairs[i].0 == k);
            }
        }
        if exists|i: int| 0 <= i < pairs.len() && (#[trigger] pairs[i]).0 == k {
            let i = choose|i: int| 0 <= i < pairs.len() && (#[trigger] pairs[i]).0 == k;
            if i < pairs.len() - 1 {
                assert(front[i].0 == k);
            }
        }
    }
}

/// Where no two pairs start with the same symbol, the mapping of `pairs`
/// sends the first symbol of each pair to its second.
pub proof fn lemma_pairs_to_map_value(pairs: Seq<(char, char)>, i: int)
    requires
        distinct_keys(pairs),
        0 <= i < pairs.len(),
    ensures
        pairs_to_map(pairs).contains_key(pairs[i].0),
        pairs_to_map(pairs)[pairs[i].0] == pairs[i].1,
    decreases pairs.len(),
{
    let front = pairs.drop_last();
    if i < pairs.len() - 1 {
        assert(distinct_keys(front)) by {
            assert forall|a: int, b: int| 0 <= a < b < front.len() implies front[a].0
                != front[b].0 by {
                assert(pairs[a].0 != pairs[b].0);
            }
        }
        lemma_pairs_to_map_value(front, i);
        assert(front[i] == pairs[i]);
        assert(pairs[i].0 != pairs[pairs.len() - 1].0);
    }
}

/// Where no two pairs start with the same symbol, the mapping of `pairs`
/// wires as many symbols as there are pairs.
pub proof fn lemma_pairs_to_map_len(pairs: Seq<(char, char)>)
    requires
        distinct_keys(pairs),
    ensures
        pairs_to_map(pairs).dom().finite(),
        pairs_to_map(pairs).dom().len() == pairs.len(),
    decreases pairs.len(),
{
    if pairs.len() > 0 {
        let front = pairs.drop_last();
        assert(distinct_keys(front)) by {
            assert forall|a: int, b: int| 0 <= a < b < front.len() implies front[a].0
                != front[b].0 by {
                assert(pairs[a].0 != pairs[b].0);
            }
        }
        lemma_pairs_to_map_len(front);
        lemma_pairs_to_map_dom(front, pairs.last().0);
        if pairs_to_map(front).contains_key(pairs.last().0) {
            let i = choose|i: int|
                0 <= i < front.len() && (#[trigger] front[i]).0 == pairs.last().0;
            assert(pairs[i].0 != pairs[pairs.len() - 1].0);
        }
        assert(pairs_to_map(pairs).dom() =~= pairs_to_map(front).dom().insert(pairs.last().0));
    } else {
        assert(pairs_to_map(pairs).dom() =~= Set::<char>::empty());
    }
}

/// Where no two pairs start with the same symbol, a new second symbol in
/// pair `i` is a new wire from its first symbol in the mapping.
pub proof fn lemma_pairs_to_map_update(pairs: Seq<(char, char)>, i: int, value: char)
    requires
        distinct_keys(pairs),
        0 <= i < pairs.len(),
    ensures
        distinct_keys(pairs.update(i, (pairs[i].0, value))),
        pairs_to_map(pairs.update(i, (pairs[i].0, value))) == pairs_to_map(pairs).insert(
            pairs[i].0,
            value,
        ),
    decreases pairs.len(),
{
    let key = pairs[i].0;
    let updated = pairs.update(i, (key, value));
    assert(distinct_keys(updated)) by {
        assert forall|a: int, b: int| 0 <= a < b < updated.len() implies updated[a].0
            != updated[b].0 by {
            assert(pairs[a].0 != pairs[b].0);
        }
    }
    let front = pairs.drop_last();
    if i == pairs.len() - 1 {
        assert(updated.drop_last() =~= front);
        assert(pairs_to_map(updated) =~= pairs_to_map(pairs).insert(key, value));
    } else {
        assert(distinct_keys(front)) by {
            assert forall|a: int, b: int| 0 <= a < b < front.len() implies front[a].0
                != front[b].0 by {
                assert(pairs[a].0 != pairs[b].0);
            }
        }
        lemma_pairs_to_map_update(front, i, value);
        assert(updated.drop_last() =~= front.update(i, (key, value)));
        assert(updated.last() == pairs.last());
        assert(pairs[i].0 != pairs[pairs.len() - 1].0);
        assert(pairs_to_map(updated) =~= pairs_to_map(pairs).insert(key, value));
    }
}

/// A finite wiring from symbols to symbols, as a reflector or a plugboard
/// holds it. Each symbol is wired at most once.
#[derive(Debug)]
pub struct SymbolMap {
    pairs: Vec<(char, char)>,
}

impl View for SymbolMap {
    type V = Map<char, char>;

    /// The wiring as a mapping.
    closed spec fn view(&self) -> Map<char, char> {
        pairs_to_map(self.pairs@)
    }
}

impl SymbolMap {
    /// Each symbol is wired at most once.
    #[verifier::type_invariant]
    spec fn distinct(&self) -> bool {
        distinct_keys(self.pairs@)
    }

    /// A wiring without any wire.
    pub fn new() -> (m: Self)
        ensures
            m@ == Map::<char, char>::empty(),
    {
        SymbolMap { pairs: Vec::new() }
    }

    /// The place of the pair that starts with `key`, if there is one.
    fn find(&self, key: char) -> (r: Option<usize>)
        ensures
            match r {
                Some(i) => i < self.pairs@.len() && self.pairs@[i as int].0 == key,
                None => forall|j: int| 0 <= j < self.pairs@.len() ==> self.pairs@[j].0 != key,
            },
    {
        let mut i: usize = 0;
        while i < self.pairs.len()
            invariant
                i <= self.pairs@.len(),
                forall|j: int| 0 <= j < i ==> self.pairs@[j].0 != key,
            decreases self.pairs@.len() - i,
        {
            if self.pairs[i].0 == key {
                return Some(i);
            }
            i += 1;
        }
        None
    }

    /// The number of wired symbols.
    pub fn len(&self) -> (n: usize)
        ensures
            self@.dom().finite(),
            n == self@.dom().len(),
    {
        proof {
            use_type_invariant(self);
            lemma_pairs_to_map_len(self.pairs@);
        }
        self.pairs.len()
    }

    /// Whether `key` is wired.
    pub fn contains_key(&self, key: char) -> (b: bool)
        ensures
            b == self@.contains_key(key),
    {
        proof {
            lemma_pairs_to_map_dom(self.pairs@, key);
        }
        self.find(key).is_some()
    }

    /// The partner of `key`, where it is wired.
    pub fn get(&self, key: char) -> (r: Option<char>)
        ensures
            r == (if self@.contains_key(key) {
                Some(self@[key])
            } else {
                None
            }),
    {
        proof {
            use_type_invariant(self);
            lemma_pairs_to_map_dom(self.pairs@, key);
        }
        match self.find(key) {
            Some(i) => {
                proof {
                    lemma_pairs_to_map_value(self.pairs@, i as int);
                }
                Some(self.pairs[i].1)
            },
            None => None,
        }
    }

    /// Whether some symbol is wired to `value`.
    pub fn contains_value(&self, value: char) -> (b: bool)
        ensures
            b == self@.contains_value(value),
    {
        proof {
            use_type_invariant(self);
        }
        let mut i: usize = 0;
        while i < self.pairs.len()
            invariant
                i <= self.pairs@.len(),
                distinct_keys(self.pairs@),
                forall|j: int| 0 <= j < i ==> self.pairs@[j].1 != value,
            decreases self.pairs@.len() - i,
        {
            if self.pairs[i].1 == value {
                proof {
                    lemma_pairs_to_map_value(self.pairs@, i as int);
                }
                return true;
            }
            i += 1;
        }
        proof {
            if self@.contains_value(value) {
                let k = choose|k: char| #[trigger] self@.contains_key(k) && self@[k] == value;
                lemma_pairs_to_map_dom(self.pairs@, k);
                let j = choose|j: int|
                    0 <= j < self.pairs@.len() && (#[trigger] self.pairs@[j]).0 == k;
                lemma_pairs_to_map_value(self.pairs@, j);
            }
        }
        false
    }

    /// Wires `key` to `value`, in place of an earlier wire from `key`.
    pub fn insert(&mut self, key: char, value: char)
        ensures
            final(self)@ == old(self)@.insert(key, value),
    {
        proof {
            use_type_invariant(&*self);
        }
        let place = self.find(key);
        // The pairs are taken out, changed and put back as a whole, so that
        // no wiring with half a change is ever held.
        let mut taken = SymbolMap::new();
        core::mem::swap(self, &mut taken);
        let mut pairs = taken.pairs;
        let ghost before = pairs@;
        match place {
            Some(i) => {
                proof {
                    lemma_pairs_to_map_update(before, i as int, value);
                }
                pairs.set(i, (key, value));
            },
            None => {
                pairs.push((key, value));
                proof {
                    assert(pairs@.drop_last() =~= before);
                }
            },
        }
        *self = SymbolMap { pairs };
    }

    /// The symbol that the wiring sends `c` to: its partner where it is
    /// wired, and `c` itself where it is not.
    pub fn apply(&self, c: char) -> (r: char)
        ensures
            r == apply_map(self@, c),
    {
        match self.get(c) {
            Some(partner) => partner,
            None => c,
        }
    }

    /// The wires, one pair for each wired symbol.
    pub fn entries(&self) -> (v: Vec<(char, char)>)
        ensures
            distinct_keys(v@),
            pairs_to_map(v@) == self@,
    {
        proof {
            use_type_invariant(self);
        }
        let mut v: Vec<(char, char)> = Vec::new();
        let mut i: usize = 0;
        while i < self.pairs.len()
            invariant
                i <= self.pairs@.len(),
                v@ == self.pairs@.take(i as int),
            decreases self.pairs@.len() - i,
        {
            v.push(self.pairs[i]);
            i += 1;
        }
        proof {
            assert(v@ =~= self.pairs@);
        }
        v
    }

    /// The wiring that results from inserting `pairs` in order.
    pub fn from_pairs(pairs: &Vec<(char, char)>) -> (m: Self)
        ensures
            m@ == pairs_to_map(pairs@),
    {
        let mut m = SymbolMap::new();
        let mut i: usize = 0;
        while i < pairs.len()
            invariant
                i <= pairs@.len(),
                m@ == pairs_to_map(pairs@.take(i as int)),
            decreases pairs@.len() - i,
        {
            let (key, value) = pairs[i];
            m.insert(key, value);
            proof {
                assert(pairs@.take(i + 1).drop_last() =~= pairs@.take(i as int));
            }
            i += 1;
        }
        proof {
            assert(pairs@.take(pairs@.len() as int) =~= pairs@);
        }
        m
    }
}

} // verus!
