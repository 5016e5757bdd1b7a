use vstd::prelude::*;

verus! {

/// One dimension of a multi-dimensional index: its size and the value last
/// given for it.
pub struct IndexDimension {
    limit: usize,
    value: usize,
}

impl IndexDimension {
    fn new() -> (r: Self)
        ensures
            r.limit == 0,
            r.value == 0,
    {
        IndexDimension { limit: 0, value: 0 }
    }
}

/// The state shared by every indexer: how many sub-indexes are given.
pub struct IndexCommon {
    current_input_index: usize,
}

impl IndexCommon {
    fn new() -> (r: Self)
        ensures
            r.current_input_index == 0,
    {
        IndexCommon { current_input_index: 0 }
    }
}

/// The mixed-radix number made of the first `k` values, the first one most
/// significant.
pub open spec fn index_prefix(limits: Seq<usize>, values: Seq<usize>, k: nat) -> int
    decreases k,
{
    if k == 0 {
        0
    } else {
        index_prefix(limits, values, (k - 1) as nat) * limits[k - 1] + values[k - 1]
    }
}

/// The product of the first `k` limits.
pub open spec fn size_prefix(limits: Seq<usize>, k: nat) -> int
    decreases k,
{
    if k == 0 {
        1
    } else {
        size_prefix(limits, (k - 1) as nat) * limits[k - 1]
    }
}

/// Whether every prefix of the index fits into a `usize`.
pub open spec fn index_fits(limits: Seq<usize>, values: Seq<usize>, n: nat) -> bool {
    forall|k: nat| k <= n ==> #[trigger] index_prefix(limits, values, k) <= usize::MAX
}

/// Whether every prefix product of the limits fits into a `usize`.
pub open spec fn size_fits(limits: Seq<usize>, n: nat) -> bool {
    forall|k: nat| k <= n ==> #[trigger] size_prefix(limits, k) <= usize::MAX
}

/// Turns several sub-indexes, given one after another, into a single array
/// index.
pub trait Indexer: Sized {
    /// The number of dimensions.
    spec fn dims() -> nat;

    /// The size of each dimension.
    spec fn limits(&self) -> Seq<usize>;

    /// The value last given for each dimension.
    spec fn values(&self) -> Seq<usize>;

    /// How many sub-indexes of the current index have been given.
    spec fn current(&self) -> nat;

    proof fn lemma_lengths(&self)
        ensures
            self.limits().len() == Self::dims(),
            self.values().len() == Self::dims(),
            Self::dims() > 0,
            Self::dims() <= 6,
    ;

    fn new_uninitialized() -> (r: Self)
        ensures
            forall|i: int| 0 <= i < Self::dims() ==> r.limits()[i] == 0 && r.values()[i] == 0,
            r.current() == 0,
    ;

    fn inputs_num(&self) -> (r: usize)
        ensures
            r == Self::dims(),
    ;

    fn limit_at(&self, index: usize) -> (r: usize)
        requires
            index < Self::dims(),
        ensures
            r == self.limits()[index as int],
    ;

    fn current_input_index(&self) -> (r: usize)
        ensures
            r == self.current(),
    ;

    fn set_limit(&mut self, index: usize, limit: usize)
        requires
            index < Self::dims(),
        ensures
            final(self).limits() == old(self).limits().update(index as int, limit),
            final(self).values() == old(self).values(),
            final(self).current() == old(self).current(),
    ;

    fn set_value(&mut self, index: usize, value: usize)
        requires
            index < Self::dims(),
        ensures
            final(self).values() == old(self).values().update(index as int, value),
            final(self).limits() == old(self).limits(),
            final(self).current() == old(self).current(),
    ;

    fn set_current(&mut self, current: usize)
        ensures
            final(self).current() == current,
            final(self).limits() == old(self).limits(),
            final(self).values() == old(self).values(),
    ;

    /// An indexer with the given dimension sizes.
    fn new(dimensions: Vec<usize>) -> (r: Self)
        requires
            dimensions.len() == Self::dims(),
        ensures
            r.limits() == dimensions@,
            r.current() == 0,
    {
        let mut result = Self::new_uninitialized();
        proof {
            result.lemma_lengths();
        }
        let n = result.inputs_num();
        let mut index: usize = 0;
        while index < n
            invariant
                n == Self::dims(),
                dimensions.len() == n,
                0 <= index <= n,
                result.limits().len() == n,
                result.current() == 0,
                forall|i: int| 0 <= i < index ==> result.limits()[i] == dimensions@[i],
            decreases n - index,
        {
            result.set_limit(index, dimensions[index]);
            proof {
                result.lemma_lengths();
            }
            index += 1;
        }
        proof {
            assert(result.limits() =~= dimensions@);
        }
        result
    }

    /// The number of distinct indexes: the product of the sizes.
    fn get_array_size(&self) -> (r: usize)
        requires
            self.current() == 0,
            size_fits(self.limits(), Self::dims()),
        ensures
            r == size_prefix(self.limits(), Self::dims()),
    {
        proof {
            self.lemma_lengths();
        }
        let n = self.inputs_num();
        let mut result: usize = 1;
        let mut index: usize = 0;
        while index < n
            invariant
                n == Self::dims(),
                0 <= index <= n,
                self.limits().len() == n,
                size_fits(self.limits(), n as nat),
                result == size_prefix(self.limits(), index as nat),
            decreases n - index,
        {
            let limit = self.limit_at(index);
            assert(size_prefix(self.limits(), (index + 1) as nat) <= usize::MAX);
            result = result * limit;
            index += 1;
        }
        result
    }

    /// Gives the next sub-index, which must be below its dimension's size.
    fn with_sub_index(&mut self, value: usize)
        requires
            old(self).current() < Self::dims(),
            value < old(self).limits()[old(self).current() as int],
        ensures
            final(self).values() == old(self).values().update(old(self).current() as int, value),
            final(self).limits() == old(self).limits(),
            final(self).current() == old(self).current() + 1,
    {
        proof {
            self.lemma_lengths();
        }
        let current_input_index = self.current_input_index();
        self.set_value(current_input_index, value);
        self.set_current(current_input_index + 1);
    }

    /// The array index made of all the sub-indexes; starts a new index.
    fn get_array_index_and_reset(&mut self) -> (r: usize)
        requires
            old(self).current() == Self::dims(),
            index_fits(old(self).limits(), old(self).values(), Self::dims()),
        ensures
            r == index_prefix(old(self).limits(), old(self).values(), Self::dims()),
            final(self).current() == 0,
            final(self).limits() == old(self).limits(),
            final(self).values() == old(self).values(),
    {
        proof {
            self.lemma_lengths();
        }
        let n = self.inputs_num();
        let mut result: usize = 0;
        let mut index: usize = 0;
        while index < n
            invariant
                n == Self::dims(),
                0 <= index <= n,
                self.limits().len() == n,
                self.values().len() == n,
                index_fits(self.limits(), self.values(), n as nat),
                result == index_prefix(self.limits(), self.values(), index as nat),
            decreases n - index,
        {
            let limit = self.limit_at(index);
            let value = self.value_at(index);
            assert(index_prefix(self.limits(), self.values(), (index + 1) as nat) <= usize::MAX);
            proof {
                assert(result * limit <= result * limit + value);
            }
            result = result * limit;
            result = result + value;
            index += 1;
        }
        self.set_current(0);
        result
    }

    fn value_at(&self, index: usize) -> (r: usize)
        requires
            index < Self::dims(),
        ensures
            r == self.values()[index as int],
    ;
}

/// An index made of sub-indexes below their sizes is below the product of
/// the sizes.
pub proof fn lemma_index_below_size(limits: Seq<usize>, values: Seq<usize>, n: nat)
    requires
        limits.len() >= n,
        values.len() >= n,
        forall|i: int| 0 <= i < n ==> values[i] < limits[i],
    ensures
        0 <= index_prefix(limits, values, n) < size_prefix(limits, n),
    decreases n,
{
    if n > 0 {
        lemma_index_below_size(limits, values, (n - 1) as nat);
        let r = index_prefix(limits, values, (n - 1) as nat);
        let p = size_prefix(limits, (n - 1) as nat);
        let l = limits[n - 1] as int;
        let v = values[n - 1] as int;
        assert(r * l + v < p * l) by (nonlinear_arith)
            requires 0 <= r < p, 0 <= v < l;
        assert(r * l + v >= 0) by (nonlinear_arith)
            requires 0 <= r, 0 <= v, l >= 0;
    }
}

/// An indexer of 1 dimension(s).
pub struct Indexer1 {
    dimensions: [IndexDimension; 1],
    common: IndexCommon,
}

impl Indexer for Indexer1 {
    open spec fn dims() -> nat {
        1
    }

    closed spec fn limits(&self) -> Seq<usize> {
        Seq::new(1, |i: int| self.dimensions@[i].limit)
    }

    closed spec fn values(&self) -> Seq<usize> {
        Seq::new(1, |i: int| self.dimensions@[i].value)
    }

    closed spec fn current(&self) -> nat {
        self.common.current_input_index as nat
    }

    proof fn lemma_lengths(&self) {
        assert(self.limits().len() == 1);
        assert(self.values().len() == 1);
    }

    fn new_uninitialized() -> (r: Self) {
        let r = Indexer1 { dimensions: [IndexDimension::new()], common: IndexCommon::new() };
        assert(forall|i: int| 0 <= i < Self::dims() ==> r.dimensions@[i].limit == 0 && r.dimensions@[i].value == 0);
        assert(forall|i: int| 0 <= i < Self::dims() ==> r.limits()[i] == 0 && r.values()[i] == 0);
        r
    }

    fn inputs_num(&self) -> (r: usize) {
        1
    }

    fn limit_at(&self, index: usize) -> (r: usize) {
        self.dimensions[index].limit
    }

    fn value_at(&self, index: usize) -> (r: usize) {
        self.dimensions[index].value
    }

    fn current_input_index(&self) -> (r: usize) {
        self.common.current_input_index
    }

    fn set_limit(&mut self, index: usize, limit: usize) {
        let old_value = self.dimensions[index].value;
        self.dimensions[index] = (IndexDimension { limit, value: old_value });
        proof {
            assert(self.limits() =~= old(self).limits().update(index as int, limit));
            assert(self.values() =~= old(self).values());
        }
    }

    fn set_value(&mut self, index: usize, value: usize) {
        let old_limit = self.dimensions[index].limit;
        self.dimensions[index] = (IndexDimension { limit: old_limit, value });
        proof {
            assert(self.values() =~= old(self).values().update(index as int, value));
            assert(self.limits() =~= old(self).limits());
        }
    }

    fn set_current(&mut self, current: usize) {
        self.common.current_input_index = current;
    }
}

/// An indexer of 2 dimension(s).
pub struct Indexer2 {
    dimensions: [IndexDimension; 2],
    common: IndexCommon,
}

impl Indexer for Indexer2 {
    open spec fn dims() -> nat {
        2
    }

    closed spec fn limits(&self) -> Seq<usize> {
        Seq::new(2, |i: int| self.dimensions@[i].limit)
    }

    closed spec fn values(&self) -> Seq<usize> {
        Seq::new(2, |i: int| self.dimensions@[i].value)
    }

    closed spec fn current(&self) -> nat {
        self.common.current_input_index as nat
    }

    proof fn lemma_lengths(&self) {
        assert(self.limits().len() == 2);
        assert(self.values().len() == 2);
    }

    fn new_uninitialized() -> (r: Self) {
        let r = Indexer2 { dimensions: [IndexDimension::new(), IndexDimension::new()], common: IndexCommon::new() };
        assert(forall|i: int| 0 <= i < Self::dims() ==> r.dimensions@[i].limit == 0 && r.dimensions@[i].value == 0);
        assert(forall|i: int| 0 <= i < Self::dims() ==> r.limits()[i] == 0 && r.values()[i] == 0);
        r
    }

    fn inputs_num(&self) -> (r: usize) {
        2
    }

    fn limit_at(&self, index: usize) -> (r: usize) {
        self.dimensions[index].limit
    }

    fn value_at(&self, index: usize) -> (r: usize) {
        self.dimensions[index].value
    }

    fn current_input_index(&self) -> (r: usize) {
        self.common.current_input_index
    }

    fn set_limit(&mut self, index: usize, limit: usize) {
        let old_value = self.dimensions[index].value;
        self.dimensions[index] = (IndexDimension { limit, value: old_value });
        proof {
            assert(self.limits() =~= old(self).limits().update(index as int, limit));
            assert(self.values() =~= old(self).values());
        }
    }

    fn set_value(&mut self, index: usize, value: usize) {
        let old_limit = self.dimensions[index].limit;
        self.dimensions[index] = (IndexDimension { limit: old_limit, value });
        proof {
            assert(self.values() =~= old(self).values().update(index as int, value));
            assert(self.limits() =~= old(self).limits());
        }
    }

    fn set_current(&mut self, current: usize) {
        self.common.current_input_index = current;
    }
}

/// An indexer of 3 dimension(s).
pub struct Indexer3 {
    dimensions: [IndexDimension; 3],
    common: IndexCommon,
}

impl Indexer for Indexer3 {
    open spec fn dims() -> nat {
        3
    }

    closed spec fn limits(&self) -> Seq<usize> {
        Seq::new(3, |i: int| self.dimensions@[i].limit)
    }

    closed spec fn values(&self) -> Seq<usize> {
        Seq::new(3, |i: int| self.dimensions@[i].value)
    }

    closed spec fn current(&self) -> nat {
        self.common.current_input_index as nat
    }

    proof fn lemma_lengths(&self) {
        assert(self.limits().len() == 3);
        assert(self.values().len() == 3);
    }

    fn new_uninitialized() -> (r: Self) {
        let r = Indexer3 { dimensions: [IndexDimension::new(), IndexDimension::new(), IndexDimension::new()], common: IndexCommon::new() };
        assert(forall|i: int| 0 <= i < Self::dims() ==> r.dimensions@[i].limit == 0 && r.dimensions@[i].value == 0);
        assert(forall|i: int| 0 <= i < Self::dims() ==> r.limits()[i] == 0 && r.values()[i] == 0);
        r
    }

    fn inputs_num(&self) -> (r: usize) {
        3
    }

    fn limit_at(&self, index: usize) -> (r: usize) {
        self.dimensions[index].limit
    }

    fn value_at(&self, index: usize) -> (r: usize) {
        self.dimensions[index].value
    }

    fn current_input_index(&self) -> (r: usize) {
        self.common.current_input_index
    }

    fn set_limit(&mut self, index: usize, limit: usize) {
        let old_value = self.dimensions[index].value;
        self.dimensions[index] = (IndexDimension { limit, value: old_value });
        proof {
            assert(self.limits() =~= old(self).limits().update(index as int, limit));
            assert(self.values() =~= old(self).values());
        }
    }

    fn set_value(&mut self, index: usize, value: usize) {
        let old_limit = self.dimensions[index].limit;
        self.dimensions[index] = (IndexDimension { limit: old_limit, value });
        proof {
            assert(self.values() =~= old(self).values().update(index as int, value));
            assert(self.limits() =~= old(self).limits());
        }
    }

    fn set_current(&mut self, current: usize) {
        self.common.current_input_index = current;
    }
}

/// An indexer of 4 dimension(s).
pub struct Indexer4 {
    dimensions: [IndexDimension; 4],
    common: IndexCommon,
}

impl Indexer for Indexer4 {
    open spec fn dims() -> nat {
        4
    }

    closed spec fn limits(&self) -> Seq<usize> {
        Seq::new(4, |i: int| self.dimensions@[i].limit)
    }

    closed spec fn values(&self) -> Seq<usize> {
        Seq::new(4, |i: int| self.dimensions@[i].value)
    }

    closed spec fn current(&self) -> nat {
        self.common.current_input_index as nat
    }

    proof fn lemma_lengths(&self) {
        assert(self.limits().len() == 4);
        assert(self.values().len() == 4);
    }

    fn new_uninitialized() -> (r: Self) {
        let r = Indexer4 { dimensions: [IndexDimension::new(), IndexDimension::new(), IndexDimension::new(), IndexDimension::new()], common: IndexCommon::new() };
        assert(forall|i: int| 0 <= i < Self::dims() ==> r.dimensions@[i].limit == 0 && r.dimensions@[i].value == 0);
        assert(forall|i: int| 0 <= i < Self::dims() ==> r.limits()[i] == 0 && r.values()[i] == 0);
        r
    }

    fn inputs_num(&self) -> (r: usize) {
        4
    }

    fn limit_at(&self, index: usize) -> (r: usize) {
        self.dimensions[index].limit
    }

    fn value_at(&self, index: usize) -> (r: usize) {
        self.dimensions[index].value
    }

    fn current_input_index(&self) -> (r: usize) {
        self.common.current_input_index
    }

    fn set_limit(&mut self, index: usize, limit: usize) {
        let old_value = self.dimensions[index].value;
        self.dimensions[index] = (IndexDimension { limit, value: old_value });
        proof {
            assert(self.limits() =~= old(self).limits().update(index as int, limit));
            assert(self.values() =~= old(self).values());
        }
    }

    fn set_value(&mut self, index: usize, value: usize) {
        let old_limit = self.dimensions[index].limit;
        self.dimensions[index] = (IndexDimension { limit: old_limit, value });
        proof {
            assert(self.values() =~= old(self).values().update(index as int, value));
            assert(self.limits() =~= old(self).limits());
        }
    }

    fn set_current(&mut self, current: usize) {
        self.common.current_input_index = current;
    }
}

/// An indexer of 5 dimension(s).
pub struct Indexer5 {
    dimensions: [IndexDimension; 5],
    common: IndexCommon,
}

impl Indexer for Indexer5 {
    open spec fn dims() -> nat {
        5
    }

    closed spec fn limits(&self) -> Seq<usize> {
        Seq::new(5, |i: int| self.dimensions@[i].limit)
    }

    closed spec fn values(&self) -> Seq<usize> {
        Seq::new(5, |i: int| self.dimensions@[i].value)
    }

    closed spec fn current(&self) -> nat {
        self.common.current_input_index as nat
    }

    proof fn lemma_lengths(&self) {
        assert(self.limits().len() == 5);
        assert(self.values().len() == 5);
    }

    fn new_uninitialized() -> (r: Self) {
        let r = Indexer5 { dimensions: [IndexDimension::new(), IndexDimension::new(), IndexDimension::new(), IndexDimension::new(), IndexDimension::new()], common: IndexCommon::new() };
        assert(forall|i: int| 0 <= i < Self::dims() ==> r.dimensions@[i].limit == 0 && r.dimensions@[i].value == 0);
        assert(forall|i: int| 0 <= i < Self::dims() ==> r.limits()[i] == 0 && r.values()[i] == 0);
        r
    }

    fn inputs_num(&self) -> (r: usize) {
        5
    }

    fn limit_at(&self, index: usize) -> (r: usize) {
        self.dimensions[index].limit
    }

    fn value_at(&self, index: usize) -> (r: usize) {
        self.dimensions[index].value
    }

    fn current_input_index(&self) -> (r: usize) {
        self.common.current_input_index
    }

    fn set_limit(&mut self, index: usize, limit: usize) {
        let old_value = self.dimensions[index].value;
        self.dimensions[index] = (IndexDimension { limit, value: old_value });
        proof {
            assert(self.limits() =~= old(self).limits().update(index as int, limit));
            assert(self.values() =~= old(self).values());
        }
    }

    fn set_value(&mut self, index: usize, value: usize) {
        let old_limit = self.dimensions[index].limit;
        self.dimensions[index] = (IndexDimension { limit: old_limit, value });
        proof {
            assert(self.values() =~= old(self).values().update(index as int, value));
            assert(self.limits() =~= old(self).limits());
        }
    }

    fn set_current(&mut self, current: usize) {
        self.common.current_input_index = current;
    }
}

/// An indexer of 6 dimension(s).
pub struct Indexer6 {
    dimensions: [IndexDimension; 6],
    common: IndexCommon,
}

impl Indexer for Indexer6 {
    open spec fn dims() -> nat {
        6
    }

    closed spec fn limits(&self) -> Seq<usize> {
        Seq::new(6, |i: int| self.dimensions@[i].limit)
    }

    closed spec fn values(&self) -> Seq<usize> {
        Seq::new(6, |i: int| self.dimensions@[i].value)
    }

    closed spec fn current(&self) -> nat {
        self.common.current_input_index as nat
    }

    proof fn lemma_lengths(&self) {
        assert(self.limits().len() == 6);
        assert(self.values().len() == 6);
    }

    fn new_uninitialized() -> (r: Self) {
        let r = Indexer6 { dimensions: [IndexDimension::new(), IndexDimension::new(), IndexDimension::new(), IndexDimension::new(), IndexDimension::new(), IndexDimension::new()], common: IndexCommon::new() };
        assert(forall|i: int| 0 <= i < Self::dims() ==> r.dimensions@[i].limit == 0 && r.dimensions@[i].value == 0);
        assert(forall|i: int| 0 <= i < Self::dims() ==> r.limits()[i] == 0 && r.values()[i] == 0);
        r
    }

    fn inputs_num(&self) -> (r: usize) {
        6
    }

    fn limit_at(&self, index: usize) -> (r: usize) {
        self.dimensions[index].limit
    }

    fn value_at(&self, index: usize) -> (r: usize) {
        self.dimensions[index].value
    }

    fn current_input_index(&self) -> (r: usize) {
        self.common.current_input_index
    }

    fn set_limit(&mut self, index: usize, limit: usize) {
        let old_value = self.dimensions[index].value;
        self.dimensions[index] = (IndexDimension { limit, value: old_value });
        proof {
            assert(self.limits() =~= old(self).limits().update(index as int, limit));
            assert(self.values() =~= old(self).values());
        }
    }

    fn set_value(&mut self, index: usize, value: usize) {
        let old_limit = self.dimensions[index].limit;
        self.dimensions[index] = (IndexDimension { limit: old_limit, value });
        proof {
            assert(self.values() =~= old(self).values().update(index as int, value));
            assert(self.limits() =~= old(self).limits());
        }
    }

    fn set_current(&mut self, current: usize) {
        self.common.current_input_index = current;
    }
}

} // verus!
