//! One rotor: its wiring, its cursor, its step.

use vstd::prelude::*;
use std::collections::HashSet;
use crate::error::CipherError;
use crate::random::random_below;
use crate::random::shuffle;

verus! {

/// The offsets that a rotor for an alphabet of `len` symbols is wired
/// with: each of 1, 2, up to `len - 1`, once.
pub open spec fn offsets(len: nat) -> Seq<usize> {
    if len == 0 {
        Seq::empty()
    } else {
        Seq::new((len - 1) as nat, |i: int| (i + 1) as usize)
    }
}

/// What the soft check of a wiring found. Neither finding keeps the wiring
/// from being used.
#[derive(Clone, Copy, Debug, PartialEq, Eq, Structural)]
pub struct WiringCheck {
    /// The wiring has one offset less than the alphabet has symbols.
    pub fits_alphabet: bool,
    /// No offset occurs twice in the wiring.
    pub distinct: bool,
}

/// A stepping substitution unit: a table of offsets and the position of
/// the offset that applies next.
#[derive(Debug)]
pub struct Rotor {
    pub order: Vec<usize>,
    pub cursor: usize,
}

/// A rotor as a mathematical value.
pub struct RotorView {
    pub order: Seq<usize>,
    pub cursor: nat,
}

impl RotorView {
    /// The cursor points into the wiring.
    pub open spec fn wf(self) -> bool {
        self.cursor < self.order.len()
    }

    /// The offset under the cursor.
    pub open spec fn offset(self) -> int
        recommends
            self.wf(),
    {
        self.order[self.cursor as int] as int
    }

    /// The rotor after one step: the cursor moves on by one place and
    /// returns to 0 behind the last one.
    pub open spec fn stepped(self) -> RotorView
        recommends
            self.order.len() > 0,
    {
        RotorView { order: self.order, cursor: ((self.cursor + 1) % self.order.len()) as nat }
    }
}

impl View for Rotor {
    type V = RotorView;

    open spec fn view(&self) -> RotorView {
        RotorView { order: self.order@, cursor: self.cursor as nat }
    }
}

impl DeepView for Rotor {
    type V = RotorView;

    open spec fn deep_view(&self) -> RotorView {
        self@
    }
}

impl Clone for Rotor {
    /// A rotor with the same wiring and the same cursor.
    fn clone(&self) -> (r: Self)
        ensures
            r@ == self@,
    {
        Rotor { order: self.order.clone(), cursor: self.cursor }
    }
}

/// A wiring that is a reordering of `offsets(len)` has `len - 1` offsets,
/// none of them twice, each at least 1 and below `len`.
pub proof fn lemma_reordered_offsets(order: Seq<usize>, len: nat)
    requires
        len <= usize::MAX,
        order.to_multiset() == offsets(len).to_multiset(),
    ensures
        order.len() == offsets(len).len(),
        len > 0 ==> order.len() == len - 1,
        order.no_duplicates(),
        forall|i: int| 0 <= i < order.len() ==> 1 <= #[trigger] order[i] < len,
        forall|x: usize| 1 <= x < len ==> order.contains(x),
{
    broadcast use vstd::seq_lib::group_to_multiset_ensures;

    let base = offsets(len);
    assert(base.no_duplicates());
    base.lemma_multiset_has_no_duplicates();
    order.lemma_multiset_has_no_duplicates_conv();
    assert(order.len() == order.to_multiset().len());
    assert(base.len() == base.to_multiset().len());
    assert forall|i: int| 0 <= i < order.len() implies 1 <= #[trigger] order[i] < len by {
        assert(order.contains(order[i]));
        assert(base.to_multiset().count(order[i]) > 0);
        assert(base.contains(order[i]));
        let j = choose|j: int| 0 <= j < base.len() && base[j] == order[i];
        assert(base[j] == (j + 1) as usize);
    }
    assert forall|x: usize| 1 <= x < len implies order.contains(x) by {
        assert(base[x - 1] == x);
        assert(base.contains(x));
        assert(order.to_multiset().count(x) > 0);
    }
}

impl Rotor {
    /// A rotor with the wiring `order`, its cursor at `cursor`.
    pub fn new(order: Vec<usize>, cursor: usize) -> (r: Self)
        ensures
            r.order == order,
            r.cursor == cursor,
            r@ == (RotorView { order: order@, cursor: cursor as nat }),
    {
        Rotor { order, cursor }
    }

    /// A fresh wiring for `alphabet`: the offsets from 1 up to the number
    /// of its symbols less one, in an order left to chance.
    pub fn generate_order(&self, alphabet: &str) -> (r: Result<Vec<usize>, CipherError>)
        ensures
            r is Ok,
            r->Ok_0@.to_multiset() == offsets(alphabet@.len()).to_multiset(),
            r->Ok_0@.len() == offsets(alphabet@.len()).len(),
            r->Ok_0@.no_duplicates(),
            forall|i: int|
                0 <= i < r->Ok_0@.len() ==> 1 <= #[trigger] r->Ok_0@[i] < alphabet@.len(),
    {
        let len = alphabet.unicode_len();
        let mut order: Vec<usize> = Vec::new();
        let mut next: usize = 1;
        while next < len
            invariant
                1 <= next,
                next <= len || (len == 0 && next == 1),
                order@.len() == next - 1,
                forall|i: int| 0 <= i < order@.len() ==> order@[i] == (i + 1) as usize,
            decreases len - next,
        {
            order.push(next);
            next += 1;
        }
        proof {
            assert(order@ =~= offsets(len as nat));
        }
        shuffle(&mut order);
        proof {
            lemma_reordered_offsets(order@, len as nat);
        }
        Ok(order)
    }

    /// Takes over a loaded wiring for `alphabet` and checks it softly: the
    /// wiring is kept as it is whatever the check finds.
    pub fn set_order(&self, alphabet: &str, order_vec: &Vec<usize>) -> (r: Result<
        (Vec<usize>, WiringCheck),
        CipherError,
    >)
        ensures
            r is Ok,
            r->Ok_0.0@ == order_vec@,
            r->Ok_0.1.fits_alphabet == (order_vec@.len() + 1 == alphabet@.len()),
            r->Ok_0.1.distinct == order_vec@.no_duplicates(),
    {
        let len = alphabet.unicode_len();
        let fits_alphabet = order_vec.len() < len && order_vec.len() + 1 == len;

        let mut seen: HashSet<usize> = HashSet::new();
        let mut distinct = true;
        let mut order: Vec<usize> = Vec::new();
        let mut i: usize = 0;
        while i < order_vec.len()
            invariant
                i <= order_vec@.len(),
                order@ == order_vec@.take(i as int),
                forall|x: usize| seen@.contains(x) <==> order_vec@.take(i as int).contains(x),
                distinct == order_vec@.take(i as int).no_duplicates(),
            decreases order_vec@.len() - i,
        {
            broadcast use vstd::std_specs::hash::group_hash_axioms;

            let item = order_vec[i];
            let ghost before = order_vec@.take(i as int);
            let ghost after = order_vec@.take(i + 1);
            proof {
                assert(after =~= before.push(item));
                assert forall|x: usize|
                    after.contains(x) <==> (before.contains(x) || x == item) by {
                    if after.contains(x) {
                        let j = choose|j: int| 0 <= j < after.len() && after[j] == x;
                        if j < i {
                            assert(before[j] == x);
                        }
                    }
                    if before.contains(x) {
                        let j = choose|j: int| 0 <= j < before.len() && before[j] == x;
                        assert(after[j] == x);
                    }
                    if x == item {
                        assert(after[i as int] == x);
                    }
                }
                if before.contains(item) {
                    let j = choose|j: int| 0 <= j < before.len() && before[j] == item;
                    assert(after[j] == after[i as int]);
                    assert(!after.no_duplicates());
                } else if before.no_duplicates() {
                    assert(after.no_duplicates());
                } else {
                    let (a, b) = choose|a: int, b: int|
                        0 <= a < before.len() && 0 <= b < before.len() && a != b && before[a]
                            == before[b];
                    assert(after[a] == after[b]);
                }
            }
            if seen.contains(&item) {
                distinct = false;
            }
            seen.insert(item);
            order.push(item);
            i += 1;
        }
        proof {
            assert(order_vec@.take(order_vec@.len() as int) =~= order_vec@);
        }
        Ok((order, WiringCheck { fits_alphabet, distinct }))
    }

    /// A starting position for this rotor, left to chance.
    pub fn generate_cursor(&self) -> (cursor: usize)
        requires
            self.order.len() > 0,
        ensures
            cursor < self.order.len(),
    {
        random_below(self.order.len())
    }

    /// Takes over a loaded starting position if it points into the wiring.
    pub fn set_cursor(&self, cursor: usize) -> (r: Result<usize, CipherError>)
        ensures
            r === (if cursor < self.order.len() {
                Ok(cursor)
            } else {
                Err(CipherError::InvalidCursor)
            }),
    {
        if cursor < self.order.len() {
            Ok(cursor)
        } else {
            Err(CipherError::InvalidCursor)
        }
    }

    /// Moves the cursor on by one place, back to 0 behind the last one.
    pub fn step(&mut self)
        requires
            old(self).order.len() > 0,
            old(self).cursor < usize::MAX,
        ensures
            final(self)@ == old(self)@.stepped(),
            final(self).order == old(self).order,
            final(self)@.wf(),
    {
        self.cursor = (self.cursor + 1) % self.order.len();
    }
}

} // verus!
