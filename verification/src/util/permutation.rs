use vstd::prelude::*;

verus! {

/// Whether a value occurs in a table of 256 bytes.
pub open spec fn occurs(table: Seq<u8>, v: u8) -> bool {
    exists|i: int| 0 <= i < 256 && table[i] == v
}

/// Whether a table of 256 bytes maps the bytes one to one onto the bytes.
pub open spec fn is_bijection(table: Seq<u8>) -> bool {
    &&& table.len() == 256
    &&& forall|i: int, j: int| 0 <= i < 256 && 0 <= j < 256 && i != j ==> table[i] != table[j]
    &&& forall|v: u8| #[trigger] occurs(table, v)
}

/// Whether two tables of 256 bytes are inverse to each other.
pub open spec fn are_inverse(forward: Seq<u8>, backward: Seq<u8>) -> bool {
    &&& forward.len() == 256
    &&& backward.len() == 256
    &&& forall|i: int| 0 <= i < 256 ==> backward[forward[i] as int] == i
    &&& forall|i: int| 0 <= i < 256 ==> forward[backward[i] as int] == i
}

/// A permutation of byte values, with its inverse.
pub struct Permutation {
    forward: [u8; 256],
    backward: [u8; 256],
}

impl Permutation {
    pub closed spec fn forward_table(&self) -> Seq<u8> {
        self.forward@
    }

    pub closed spec fn backward_table(&self) -> Seq<u8> {
        self.backward@
    }

    /// The two tables undo each other.
    pub closed spec fn wf(&self) -> bool {
        are_inverse(self.forward@, self.backward@)
    }

    pub fn forward(&self, original: u8) -> (r: u8)
        ensures
            r == self.forward_table()[original as int],
    {
        self.forward[original as usize]
    }

    pub fn backward(&self, permuted: u8) -> (r: u8)
        ensures
            r == self.backward_table()[permuted as int],
    {
        self.backward[permuted as usize]
    }

    /// `backward` undoes `forward` and `forward` undoes `backward`.
    pub proof fn lemma_round_trips(&self, b: u8)
        requires
            self.wf(),
        ensures
            self.backward_table()[self.forward_table()[b as int] as int] == b,
            self.forward_table()[self.backward_table()[b as int] as int] == b,
    {
    }
}

/// Builds a permutation from the identity by assignments and swaps.
pub struct PermutationBuilder([u8; 256]);

impl PermutationBuilder {
    /// The table being built.
    pub closed spec fn table(&self) -> Seq<u8> {
        self.0@
    }

    /// The table always has an entry for every byte.
    pub proof fn lemma_table_len(&self)
        ensures
            self.table().len() == 256,
    {
    }

    /// Starts from the identity.
    pub fn new() -> (r: Self)
        ensures
            r.table().len() == 256,
            forall|i: int| 0 <= i < 256 ==> r.table()[i] == i,
    {
        let mut array = [0u8; 256];
        let mut i: usize = 0;
        while i < 256
            invariant
                0 <= i <= 256,
                forall|k: int| 0 <= k < i ==> array@[k] == k,
            decreases 256 - i,
        {
            array[i] = i as u8;
            i += 1;
        }
        PermutationBuilder(array)
    }

    /// Whether the table is a permutation, which `build` needs.
    pub fn is_bijection(&self) -> (r: bool)
        ensures
            r == is_bijection(self.table()),
    {
        let mut seen = [false; 256];
        let mut i: usize = 0;
        while i < 256
            invariant
                0 <= i <= 256,
                self.0@.len() == 256,
                forall|k: int, l: int| 0 <= k < i && 0 <= l < i && k != l ==> self.0@[k] != self.0@[l],
                forall|v: int| 0 <= v < 256 ==> (seen@[v] <==> exists|k: int| 0 <= k < i && self.0@[k] == v),
            decreases 256 - i,
        {
            let v = self.0[i];
            if seen[v as usize] {
                proof {
                    let k = choose|k: int| 0 <= k < i && self.0@[k] == v;
                    assert(self.0@[k] == self.0@[i as int]);
                }
                return false;
            }
            seen[v as usize] = true;
            i += 1;
        }
        let mut w: usize = 0;
        while w < 256
            invariant
                0 <= w <= 256,
                self.0@.len() == 256,
                forall|k: int, l: int| 0 <= k < 256 && 0 <= l < 256 && k != l ==> self.0@[k] != self.0@[l],
                forall|v: int| 0 <= v < 256 ==> (seen@[v] <==> exists|k: int| 0 <= k < 256 && self.0@[k] == v),
                forall|v: int| 0 <= v < w ==> seen@[v],
            decreases 256 - w,
        {
            if !seen[w] {
                proof {
                    if occurs(self.0@, w as u8) {
                        let k = choose|k: int| 0 <= k < 256 && self.0@[k] == w as u8;
                        assert(self.0@[k] == w);
                    }
                }
                return false;
            }
            w += 1;
        }
        proof {
            assert forall|v: u8| #[trigger] occurs(self.0@, v) by {
                assert(seen@[v as int]);
            }
        }
        true
    }

    /// The permutation; the table must be a bijection.
    pub fn build(self) -> (r: Permutation)
        requires
            is_bijection(self.table()),
        ensures
            r.wf(),
            r.forward_table() == self.table(),
    {
        let forward = self.0;
        let mut backward = [0u8; 256];
        let mut i: usize = 0;
        while i < 256
            invariant
                0 <= i <= 256,
                is_bijection(forward@),
                forall|k: int| 0 <= k < i ==> backward@[forward@[k] as int] == k,
            decreases 256 - i,
        {
            let elem = forward[i];
            backward[elem as usize] = i as u8;
            i += 1;
        }
        proof {
            assert forall|v: int| 0 <= v < 256 implies forward@[backward@[v] as int] == v by {
                assert(occurs(forward@, v as u8));
                let k = choose|k: int| 0 <= k < 256 && forward@[k] == v as u8;
                assert(backward@[forward@[k] as int] == k);
            }
        }
        Permutation { forward, backward }
    }

    pub fn set(&mut self, from: u8, to: u8)
        ensures
            final(self).table() == old(self).table().update(from as int, to),
    {
        self.0[from as usize] = to;
    }

    /// Exchanges the images of two values.
    pub fn swap_pair(&mut self, elem_1: u8, elem_2: u8)
        ensures
            final(self).table() == old(self).table().update(elem_1 as int, old(self).table()[elem_2 as int]).update(
                elem_2 as int,
                old(self).table()[elem_1 as int],
            ),
    {
        let value_1 = self.0[elem_1 as usize];
        let value_2 = self.0[elem_2 as usize];
        self.set(elem_1, value_2);
        self.set(elem_2, value_1);
    }

    /// Exchanges the images of two disjoint segments of equal length, pair by
    /// pair.
    pub fn swap_segment(&mut self, start_left: u8, start_right: u8, length: u8)
        requires
            start_left + length <= start_right,
            start_right + length <= 256,
        ensures
            final(self).table().len() == 256,
            forall|i: int|
                #![trigger final(self).table()[i]]
                0 <= i < 256 ==> final(self).table()[i] == if start_left <= i < start_left + length {
                    old(self).table()[i + (start_right - start_left)]
                } else if start_right <= i < start_right + length {
                    old(self).table()[i - (start_right - start_left)]
                } else {
                    old(self).table()[i]
                },
    {
        let mut index: u8 = 0;
        while index < length
            invariant
                0 <= index <= length,
                start_left + length <= start_right,
                start_right + length <= 256,
                self.0@.len() == 256,
                forall|i: int|
                    #![trigger self.0@[i]]
                    0 <= i < 256 ==> self.0@[i] == if start_left <= i < start_left + index {
                        old(self).table()[i + (start_right - start_left)]
                    } else if start_right <= i < start_right + index {
                        old(self).table()[i - (start_right - start_left)]
                    } else {
                        old(self).table()[i]
                    },
            decreases length - index,
        {
            self.swap_pair(start_left + index, start_right + index);
            index += 1;
        }
    }
}

/// Swapping two images keeps a bijection a bijection.
pub proof fn lemma_swap_keeps_bijection(table: Seq<u8>, a: u8, b: u8)
    requires
        is_bijection(table),
    ensures
        is_bijection(table.update(a as int, table[b as int]).update(b as int, table[a as int])),
{
    let t = table.update(a as int, table[b as int]).update(b as int, table[a as int]);
    assert forall|v: u8| #[trigger] occurs(t, v) by {
        assert(occurs(table, v));
        let k = choose|k: int| 0 <= k < 256 && table[k] == v;
        if k == a {
            assert(t[b as int] == v);
        } else if k == b {
            assert(t[a as int] == v);
        } else {
            assert(t[k] == v);
        }
    }
}

} // verus!
