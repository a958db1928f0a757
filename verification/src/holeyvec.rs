use vstd::pervasive::unreached;
use vstd::prelude::*;

verus! {

/// A storage cell: either a live value, or a hole carrying the index of the
/// next hole in the free list (a value at or past the backing length marks
/// the end of the list).
enum Cell<T> {
    Value(T),
    Hole(usize),
}

/// What a failed removal or indexed access reports. Both conditions are
/// caller contract violations, not recoverable runtime states.
#[derive(Debug, PartialEq, Eq, Clone, Copy)]
pub enum Error {
    /// The index is out of range or the cell there is a hole: it was never
    /// assigned, or its value was already removed.
    IndexNotOccupied,
    /// The free list pointed at an occupied cell. The verified operations
    /// maintain the store's invariant, so they prove they never return this.
    InternalInvariantViolation,
}

/// A vector with holes: a backing vector of cells, threaded with an
/// intrusive free list of the holes. Indices are stable: a removal turns
/// the cell into a hole instead of shifting its successors, and the next
/// insertions reuse the holes, most recently freed first.
pub struct HoleyVec<T> {
    first_hole: usize,
    vec: Vec<Cell<T>>,
    /// The indices of the holes, most recently freed first.
    holes: Ghost<Seq<usize>>,
}

spec fn cell_value<T>(c: Cell<T>) -> Option<T> {
    match c {
        Cell::Value(v) => Some(v),
        Cell::Hole(_) => None,
    }
}

/// Whether `c` is a hole whose stored free-list link equals `nx`.
spec fn is_hole_to<T>(c: Cell<T>, nx: int) -> bool {
    match c {
        Cell::Value(_) => false,
        Cell::Hole(h) => h as int == nx,
    }
}

impl<T> View for HoleyVec<T> {
    type V = Seq<Option<T>>;

    /// A store is viewed as the sequence of its cells, a hole viewed as
    /// `None` and an occupied cell as `Some` of its value.
    closed spec fn view(&self) -> Seq<Option<T>> {
        self.vec@.map_values(|c: Cell<T>| cell_value(c))
    }
}

impl<T> HoleyVec<T> {
    /// The indices waiting to be reused, most recently freed first.
    pub closed spec fn free_list(&self) -> Seq<usize> {
        self.holes@
    }

    /// The index the next insertion will claim: the head of the free list,
    /// or the backing length when no hole is free.
    pub open spec fn spec_next_index(&self) -> int {
        if self.free_list().len() > 0 {
            self.free_list()[0] as int
        } else {
            self@.len() as int
        }
    }

    /// Well-formedness: the free list names exactly the holes, without
    /// repetition; each hole stores the index of the next one in the list
    /// (the last stores the backing length); and `first_hole` is the head
    /// of the list, or the backing length when the list is empty.
    pub closed spec fn wf(&self) -> bool {
        let fs = self.holes@;
        let n = self.vec@.len() as int;
        &&& fs.no_duplicates()
        &&& (self.first_hole as int) == (if fs.len() > 0 {
            fs[0] as int
        } else {
            n
        })
        &&& forall|k: int| 0 <= k < fs.len() ==> (#[trigger] fs[k]) < n
        &&& forall|k: int|
            0 <= k < fs.len() ==> is_hole_to(
                #[trigger] self.vec@[fs[k] as int],
                if k + 1 < fs.len() {
                    fs[k + 1] as int
                } else {
                    n
                },
            )
        &&& forall|i: usize|
            (i as int) < n && (#[trigger] self.vec@[i as int]) is Hole ==> fs.contains(i)
    }

    /// Create an empty store: no cells, no holes, next index `0`.
    pub fn new() -> (v: Self)
        ensures
            v@ == Seq::<Option<T>>::empty(),
            v.free_list() == Seq::<usize>::empty(),
            v.wf(),
            v.spec_next_index() == 0,
    {
        let v = HoleyVec { first_hole: 0usize, vec: Vec::new(), holes: Ghost(Seq::empty()) };
        proof {
            assert(v@ =~= Seq::<Option<T>>::empty());
        }
        v
    }

    /// The index that the next insertion will assign (the head of the free
    /// list, or the backing length when no hole is free). Pure: the store
    /// is not changed.
    pub fn next_index(&self) -> (i: usize)
        requires
            self.wf(),
        ensures
            i as int == self.spec_next_index(),
    {
        self.first_hole
    }

    /// The exclusive upper bound on ever-assigned indices, holes included.
    /// It never shrinks on removal.
    pub fn index_upper_bound(&self) -> (n: usize)
        ensures
            n == self@.len(),
    {
        self.vec.len()
    }

    /// Whether the cell at `index` is a hole: `true` exactly when `index`
    /// is in range and its value was removed (or never assigned there).
    /// Out-of-range indices and occupied cells give `false`; never fails.
    pub fn is_hole(&self, index: usize) -> (r: bool)
        ensures
            r == (index < self@.len() && self@[index as int] is None),
    {
        if index < self.vec.len() {
            match &self.vec[index] {
                Cell::Hole(_) => true,
                Cell::Value(_) => false,
            }
        } else {
            false
        }
    }

    /// The value at `index`, or `None` when `index` is out of range or the
    /// cell there is a hole; never fails.
    pub fn get(&self, index: usize) -> (r: Option<&T>)
        ensures
            match r {
                Some(v) => index < self@.len() && self@[index as int] == Some(*v),
                None => !(index < self@.len() && self@[index as int] is Some),
            },
    {
        if index < self.vec.len() {
            match &self.vec[index] {
                Cell::Value(v) => Some(v),
                Cell::Hole(_) => None,
            }
        } else {
            None
        }
    }

    /// Mutable access to the value at `index`, or `None` when `index` is
    /// out of range or the cell there is a hole; never fails. Writing
    /// through the returned reference replaces the stored value in place;
    /// the store's shape (length, holes, free list) is untouched.
    pub fn get_mut(&mut self, index: usize) -> (r: Option<&mut T>)
        ensures
            r is Some <==> index < old(self)@.len() && old(self)@[index as int] is Some,
            r is None ==> *final(self) == *old(self),
            r is Some ==> {
                &&& *r.unwrap() == old(self)@[index as int].unwrap()
                &&& final(self)@ =~= old(self)@.update(index as int, Some(*final(r.unwrap())))
                &&& final(self).free_list() == old(self).free_list()
                &&& final(self)@.len() == old(self)@.len()
            },
            old(self).wf() ==> final(self).wf(),
    {
        if index < self.vec.len() {
            let occupied = match &self.vec[index] {
                Cell::Value(_) => true,
                Cell::Hole(_) => false,
            };
            if occupied {
                proof {
                    // Before the cell is borrowed: no free-list entry names an
                    // occupied index, so rewriting this cell keeps every
                    // well-formedness clause.
                    if self.wf() {
                        let fs = self.holes@;
                        assert forall|k: int|
                            0 <= k < fs.len() implies (#[trigger] fs[k]) != index by {
                            assert(self.vec@[fs[k] as int] is Hole);
                        }
                    }
                }
                match &mut self.vec[index] {
                    Cell::Value(v) => Some(v),
                    Cell::Hole(_) => unreached(),
                }
            } else {
                None
            }
        } else {
            None
        }
    }

    /// Direct read access by index, the unwrapping shorthand for [`Self::get`]:
    /// the cell must be occupied. Accessing an out-of-range index or a hole
    /// is a caller contract violation, so those inputs are excluded here;
    /// callers that cannot rule them out use [`Self::get`].
    pub fn index(&self, index: usize) -> (r: &T)
        requires
            index < self@.len(),
            self@[index as int] is Some,
        ensures
            self@[index as int] == Some(*r),
    {
        match self.get(index) {
            Some(v) => v,
            None => unreached(),
        }
    }

    /// Direct write access by index, the unwrapping shorthand for
    /// [`Self::get_mut`]: the cell must be occupied. Accessing an
    /// out-of-range index or a hole is a caller contract violation, so
    /// those inputs are excluded here; callers that cannot rule them out
    /// use [`Self::get_mut`].
    pub fn index_mut(&mut self, index: usize) -> (r: &mut T)
        requires
            index < old(self)@.len(),
            old(self)@[index as int] is Some,
        ensures
            *r == old(self)@[index as int].unwrap(),
            final(self)@ =~= old(self)@.update(index as int, Some(*final(r))),
            final(self).free_list() == old(self).free_list(),
            old(self).wf() ==> final(self).wf(),
    {
        match self.get_mut(index) {
            Some(v) => v,
            None => unreached(),
        }
    }

    /// Reserved backing storage, for performance tuning only: at least the
    /// index upper bound, but no correctness contract beyond that.
    pub fn capacity(&self) -> (c: usize)
        ensures
            c >= self@.len(),
    {
        vec_capacity(&self.vec)
    }

    /// Insert `value` at the next free index and return that index: the
    /// most recently freed hole when one exists (popping it off the free
    /// list), else a fresh index at the end of the backing vector. Every
    /// other cell is untouched.
    pub fn push(&mut self, value: T) -> (i: usize)
        requires
            old(self).wf(),
        ensures
            final(self).wf(),
            i as int == old(self).spec_next_index(),
            final(self)@[i as int] == Some(value),
            old(self).free_list().len() > 0 ==> final(self)@ == old(self)@.update(
                i as int,
                Some(value),
            ) && final(self).free_list() == old(self).free_list().drop_first(),
            old(self).free_list().len() == 0 ==> i == old(self)@.len() && final(self)@ == old(
                self,
            )@.push(Some(value)) && final(self).free_list() == Seq::<usize>::empty(),
    {
        if self.first_hole >= self.vec.len() {
            let index = self.vec.len();
            self.vec.push(Cell::Value(value));
            self.first_hole = self.vec.len();
            proof {
                assert(self@ =~= old(self)@.push(Some(value)));
            }
            index
        } else {
            let index = self.first_hole;
            proof {
                assert(self.holes@.len() > 0);
                assert(self.vec@[index as int] is Hole);
            }
            let next = match &self.vec[index] {
                Cell::Hole(nx) => *nx,
                Cell::Value(_) => unreached(),
            };
            let mut cell = Cell::Value(value);
            core::mem::swap(&mut self.vec[index], &mut cell);
            self.first_hole = next;
            self.holes = Ghost(self.holes@.drop_first());
            proof {
                self.lemma_push_reuse_wf(*old(self), index, value);
            }
            index
        }
    }

    /// After reusing the head hole, the store is well-formed again and its
    /// view is the old view with the reused cell now occupied.
    proof fn lemma_push_reuse_wf(&self, prev: Self, index: usize, value: T)
        requires
            prev.wf(),
            prev.free_list().len() > 0,
            index == prev.free_list()[0],
            self.vec@ == prev.vec@.update(index as int, Cell::Value(value)),
            self.holes@ == prev.holes@.drop_first(),
            is_hole_to(prev.vec@[index as int], self.first_hole as int),
        ensures
            self.wf(),
            self@ == prev@.update(index as int, Some(value)),
    {
        let fs = prev.holes@;
        let fs2 = self.holes@;
        let n = prev.vec@.len() as int;
        assert(fs[0] == index);
        assert(is_hole_to(
            prev.vec@[index as int],
            if fs.len() > 1 {
                fs[1] as int
            } else {
                n
            },
        ));
        assert(fs2.no_duplicates());
        assert forall|k: int|
            0 <= k < fs2.len() implies (#[trigger] fs2[k]) < n && is_hole_to(
            self.vec@[fs2[k] as int],
            if k + 1 < fs2.len() {
                fs2[k + 1] as int
            } else {
                n
            },
        ) by {
            assert(fs2[k] == fs[k + 1]);
            assert(fs[k + 1] != fs[0]);
            assert(self.vec@[fs2[k] as int] == prev.vec@[fs[k + 1] as int]);
        }
        assert forall|i: usize|
            (i as int) < n && (#[trigger] self.vec@[i as int]) is Hole implies fs2.contains(
            i,
        ) by {
            assert(self.vec@[index as int] == Cell::Value(value));
            assert(i != index);
            assert(prev.vec@[i as int] is Hole);
            assert(fs.contains(i));
            let k = choose|k: int| 0 <= k < fs.len() && fs[k] == i;
            assert(k != 0);
            assert(fs2[k - 1] == i);
        }
        assert(self@ =~= prev@.update(index as int, Some(value)));
    }

    /// Remove and return the value at `index`. Fails with
    /// `Error::IndexNotOccupied` exactly when `index` is out of range or
    /// the cell there is already a hole, and leaves the store unchanged
    /// then. On success the cell becomes a hole, `index` becomes the head
    /// of the free list, and the index upper bound is unchanged.
    pub fn remove(&mut self, index: usize) -> (r: Result<T, Error>)
        requires
            old(self).wf(),
        ensures
            final(self).wf(),
            r is Ok <==> index < old(self)@.len() && old(self)@[index as int] is Some,
            (r matches Ok(v) ==> {
                &&& old(self)@[index as int] == Some(v)
                &&& final(self)@ == old(self)@.update(index as int, None)
                &&& final(self).free_list() == seq![index] + old(self).free_list()
                &&& final(self)@.len() == old(self)@.len()
                &&& final(self).spec_next_index() == index as int
            }),
            r is Err ==> *final(self) == *old(self) && r == Err::<T, Error>(
                Error::IndexNotOccupied,
            ),
    {
        if index >= self.vec.len() {
            return Err(Error::IndexNotOccupied);
        }
        let occupied = match &self.vec[index] {
            Cell::Value(_) => true,
            Cell::Hole(_) => false,
        };
        if !occupied {
            return Err(Error::IndexNotOccupied);
        }
        let mut cell = Cell::Hole(self.first_hole);
        core::mem::swap(&mut self.vec[index], &mut cell);
        self.first_hole = index;
        self.holes = Ghost(seq![index] + self.holes@);
        proof {
            self.lemma_remove_wf(*old(self), index);
        }
        match cell {
            Cell::Value(v) => Ok(v),
            Cell::Hole(_) => {
                proof {
                    assert(false);
                }
                Err(Error::InternalInvariantViolation)
            },
        }
    }

    /// After turning the occupied cell at `index` into the new head hole,
    /// the store is well-formed again and its view is the old view with
    /// that cell now empty.
    proof fn lemma_remove_wf(&self, prev: Self, index: usize)
        requires
            prev.wf(),
            (index as int) < prev.vec@.len(),
            prev.vec@[index as int] is Value,
            self.vec@ == prev.vec@.update(index as int, Cell::Hole(prev.first_hole)),
            self.holes@ == seq![index] + prev.holes@,
            self.first_hole == index,
        ensures
            self.wf(),
            self@ == prev@.update(index as int, None),
    {
        let fs = prev.holes@;
        let fs2 = self.holes@;
        let n = prev.vec@.len() as int;
        assert forall|k: int| 0 <= k < fs.len() implies (#[trigger] fs[k]) != index by {
            assert(prev.vec@[fs[k] as int] is Hole);
        }
        assert(fs2.no_duplicates());
        assert forall|k: int|
            0 <= k < fs2.len() implies (#[trigger] fs2[k]) < n && is_hole_to(
            self.vec@[fs2[k] as int],
            if k + 1 < fs2.len() {
                fs2[k + 1] as int
            } else {
                n
            },
        ) by {
            if k == 0 {
                assert(fs2[0] == index);
                assert(self.vec@[index as int] == Cell::<T>::Hole(prev.first_hole));
            } else {
                assert(fs2[k] == fs[k - 1]);
                assert(self.vec@[fs2[k] as int] == prev.vec@[fs[k - 1] as int]);
            }
        }
        assert forall|i: usize|
            (i as int) < n && (#[trigger] self.vec@[i as int]) is Hole implies fs2.contains(
            i,
        ) by {
            if i == index {
                assert(fs2[0] == i);
            } else {
                assert(prev.vec@[i as int] is Hole);
                assert(fs.contains(i));
                let k = choose|k: int| 0 <= k < fs.len() && fs[k] == i;
                assert(fs2[k + 1] == i);
            }
        }
        assert(self@ =~= prev@.update(index as int, None));
    }

    /// Law: in a well-formed store the free list names exactly the holes.
    /// Every listed index is in range and empty, no index is listed twice,
    /// every empty cell is listed, and the next index to be claimed is at
    /// most the upper bound and empty whenever it is in range. In
    /// particular an insertion claims a hole when one exists, else the
    /// fresh index right at the upper bound.
    pub proof fn lemma_free_list_exact(&self)
        requires
            self.wf(),
        ensures
            self.free_list().no_duplicates(),
            forall|k: int|
                0 <= k < self.free_list().len() ==> (#[trigger] self.free_list()[k] as int)
                    < self@.len() && self@[self.free_list()[k] as int] is None,
            forall|i: usize|
                (i as int) < self@.len() && (#[trigger] self@[i as int]) is None
                    ==> self.free_list().contains(i),
            0 <= self.spec_next_index() <= self@.len(),
            self.spec_next_index() < self@.len() ==> self@[self.spec_next_index()] is None,
    {
        let fs = self.holes@;
        assert forall|k: int|
            0 <= k < fs.len() implies (#[trigger] fs[k] as int) < self@.len()
            && self@[fs[k] as int] is None by {
            assert(self.vec@[fs[k] as int] is Hole);
        }
    }

    /// Law: freed indices are reused in last-freed-first-reused order.
    /// Removal prepends the freed index to the free list and insertion
    /// claims the head, so when a store's free list grew by freeing `a`
    /// and then `b`, the next insertion claims `b`, leaves the free list
    /// as it stood after freeing `a`, and the insertion after it claims
    /// `a`.
    pub proof fn lemma_lifo_reuse(s0: Self, s1: Self, s2: Self, a: usize, b: usize)
        requires
            s1.free_list() == seq![a] + s0.free_list(),
            s2.free_list() == seq![b] + s1.free_list(),
        ensures
            s2.spec_next_index() == b as int,
            s2.free_list().drop_first() == s1.free_list(),
            s1.spec_next_index() == a as int,
    {
        assert(s2.free_list().drop_first() =~= s1.free_list());
    }

    /// A fresh read-only cursor over the occupied values, starting at the
    /// first cell.
    pub fn iter(&self) -> (it: Iter<'_, T>)
        ensures
            it.store() == *self,
            it.pos() == 0,
            it.remaining() == occupied_from(self@, 0),
    {
        Iter::new(self)
    }

    /// A fresh mutable cursor, starting at the first cell; the store is
    /// not changed. Hand the store itself to each [`IterMut::next`] call.
    pub fn iter_mut(&mut self) -> (it: IterMut)
        ensures
            *final(self) == *old(self),
            it.pos() == 0,
    {
        IterMut::new()
    }
}

/// The values of the occupied cells of `s` at positions `from` and past
/// it, in ascending index order.
pub open spec fn occupied_from<T>(s: Seq<Option<T>>, from: int) -> Seq<T>
    decreases s.len() - from,
{
    if from < 0 || from >= s.len() {
        Seq::empty()
    } else if s[from] is Some {
        seq![s[from].unwrap()] + occupied_from(s, from + 1)
    } else {
        occupied_from(s, from + 1)
    }
}

/// The position of the first occupied cell of `v` at `from` or past it,
/// or the backing length when only holes are left there.
fn scan_occupied<T>(v: &HoleyVec<T>, from: usize) -> (j: usize)
    ensures
        j <= v@.len(),
        occupied_from(v@, j as int) == occupied_from(v@, from as int),
        j < v@.len() ==> v@[j as int] is Some && from <= j,
        j == v@.len() ==> occupied_from(v@, from as int) == Seq::<T>::empty(),
{
    let n = v.vec.len();
    if from >= n {
        return n;
    }
    let mut j = from;
    while j < v.vec.len()
        invariant
            from <= j <= v@.len(),
            occupied_from(v@, j as int) == occupied_from(v@, from as int),
        decreases v@.len() - j as int,
    {
        match &v.vec[j] {
            Cell::Value(_) => {
                return j;
            },
            Cell::Hole(_) => {},
        }
        j = j + 1;
    }
    j
}

/// Appending a cell appends its value to the occupied values, or nothing
/// when the cell is empty.
proof fn lemma_occupied_from_push<T>(s: Seq<Option<T>>, x: Option<T>, from: int)
    requires
        0 <= from <= s.len(),
    ensures
        occupied_from(s.push(x), from) == occupied_from(s, from) + (if x is Some {
            seq![x.unwrap()]
        } else {
            Seq::<T>::empty()
        }),
    decreases s.len() - from,
{
    let s2 = s.push(x);
    let tail = if x is Some {
        seq![x.unwrap()]
    } else {
        Seq::<T>::empty()
    };
    if from == s.len() {
        if x is Some {
            assert(occupied_from(s2, from) == seq![x.unwrap()] + occupied_from(s2, from + 1));
            assert(occupied_from(s2, from) =~= occupied_from(s, from) + tail);
        } else {
            assert(occupied_from(s2, from) == occupied_from(s2, from + 1));
            assert(occupied_from(s2, from) =~= occupied_from(s, from) + tail);
        }
    } else {
        lemma_occupied_from_push(s, x, from + 1);
        assert(s2[from] == s[from]);
        if s[from] is Some {
            assert(occupied_from(s2, from) == seq![s[from].unwrap()] + (occupied_from(s, from + 1)
                + tail));
            assert(occupied_from(s2, from) =~= occupied_from(s, from) + tail);
        } else {
            assert(occupied_from(s2, from) == occupied_from(s2, from + 1));
            assert(occupied_from(s, from) == occupied_from(s, from + 1));
            assert(occupied_from(s2, from) =~= occupied_from(s, from) + tail);
        }
    }
}

/// Law: a full traversal is exact. The occupied values from the start are
/// precisely the `Some` cells of the view, kept in their order.
pub proof fn lemma_occupied_from_is_filtered<T>(s: Seq<Option<T>>)
    ensures
        occupied_from(s, 0) == s.filter(|o: Option<T>| o is Some).map_values(
            |o: Option<T>| o.unwrap(),
        ),
    decreases s.len(),
{
    reveal(Seq::filter);
    let p = |o: Option<T>| o is Some;
    let f = |o: Option<T>| o.unwrap();
    if s.len() == 0 {
        assert(s.filter(p).map_values(f) =~= Seq::<T>::empty());
    } else {
        let butlast = s.drop_last();
        let x = s.last();
        lemma_occupied_from_is_filtered(butlast);
        lemma_occupied_from_push(butlast, x, 0);
        assert(butlast.push(x) =~= s);
        if p(x) {
            assert(s.filter(p) == butlast.filter(p).push(x));
            assert(s.filter(p).map_values(f) =~= butlast.filter(p).map_values(f) + seq![f(x)]);
        } else {
            assert(s.filter(p) == butlast.filter(p));
            assert(s.filter(p).map_values(f) =~= butlast.filter(p).map_values(f)
                + Seq::<T>::empty());
        }
    }
}

/// Rewriting a cell before `from` does not change the occupied values at
/// `from` and past it.
proof fn lemma_occupied_from_update_before<T>(s: Seq<Option<T>>, j: int, x: Option<T>, from: int)
    requires
        0 <= j < from,
        j < s.len(),
    ensures
        occupied_from(s.update(j, x), from) == occupied_from(s, from),
    decreases s.len() - from,
{
    if from < s.len() {
        lemma_occupied_from_update_before(s, j, x, from + 1);
    }
}

/// A read-only cursor over a store: it yields the occupied values in
/// ascending index order, lazily skipping the holes, and is consumed
/// forward-only. A fresh traversal takes a fresh cursor.
pub struct Iter<'a, T> {
    v: &'a HoleyVec<T>,
    pos: usize,
}

impl<'a, T> Iter<'a, T> {
    /// The store being traversed.
    pub closed spec fn store(&self) -> HoleyVec<T> {
        *self.v
    }

    /// The current position in the backing sequence.
    pub closed spec fn pos(&self) -> int {
        self.pos as int
    }

    /// The values not yet yielded.
    pub open spec fn remaining(&self) -> Seq<T> {
        occupied_from(self.store()@, self.pos())
    }

    fn new(v: &'a HoleyVec<T>) -> (it: Self)
        ensures
            it.store() == *v,
            it.pos() == 0,
    {
        Iter { v, pos: 0 }
    }

    /// Yield the value of the next occupied cell and advance just past
    /// that cell, or yield `None` when no occupied cell is left and stop
    /// at the end.
    pub fn next(&mut self) -> (r: Option<&'a T>)
        ensures
            final(self).store() == old(self).store(),
            match r {
                None => {
                    &&& old(self).remaining() == Seq::<T>::empty()
                    &&& final(self).pos() == old(self).store()@.len()
                },
                Some(p) => {
                    &&& old(self).remaining().len() > 0
                    &&& *p == old(self).remaining()[0]
                    &&& final(self).remaining() == old(self).remaining().drop_first()
                    &&& old(self).pos() < final(self).pos() <= old(self).store()@.len()
                    &&& old(self).store()@[final(self).pos() - 1] == Some(*p)
                },
            },
    {
        let v = self.v;
        let j = scan_occupied(v, self.pos);
        if j < v.vec.len() {
            self.pos = j + 1;
            proof {
                let s = v@;
                assert(occupied_from(s, j as int) == seq![s[j as int].unwrap()] + occupied_from(
                    s,
                    j as int + 1,
                ));
                assert((seq![s[j as int].unwrap()] + occupied_from(
                    s,
                    j as int + 1,
                )).drop_first() =~= occupied_from(s, j as int + 1));
            }
            match &v.vec[j] {
                Cell::Value(t) => Some(t),
                Cell::Hole(_) => unreached(),
            }
        } else {
            self.pos = j;
            None
        }
    }
}

/// A mutable cursor: it yields exclusive references to the occupied
/// values of a store, in ascending index order, lazily skipping the
/// holes. The cursor holds only a position; each call of [`IterMut::next`]
/// takes the store, which must be the same one across one traversal and
/// must not be structurally changed (no insertion or removal) meanwhile.
pub struct IterMut {
    pos: usize,
}

impl IterMut {
    /// The current position in the backing sequence.
    pub closed spec fn pos(&self) -> int {
        self.pos as int
    }

    fn new() -> (it: Self)
        ensures
            it.pos() == 0,
    {
        IterMut { pos: 0 }
    }

    /// Yield an exclusive reference to the value of the next occupied cell
    /// of `v` and advance just past that cell, or yield `None` when no
    /// occupied cell is left and stop at the end. Writing through the
    /// yielded reference replaces that value; the store's shape (length,
    /// holes, free list) is untouched either way.
    pub fn next<'b, T>(&mut self, v: &'b mut HoleyVec<T>) -> (r: Option<&'b mut T>)
        ensures
            old(v).wf() ==> final(v).wf(),
            r is None ==> {
                &&& *final(v) == *old(v)
                &&& occupied_from(old(v)@, old(self).pos()) == Seq::<T>::empty()
                &&& final(self).pos() == old(v)@.len()
            },
            r is Some ==> {
                &&& occupied_from(old(v)@, old(self).pos()).len() > 0
                &&& *r.unwrap() == occupied_from(old(v)@, old(self).pos())[0]
                &&& old(self).pos() < final(self).pos() <= old(v)@.len()
                &&& old(v)@[final(self).pos() - 1] == Some(*r.unwrap())
                &&& final(v)@ =~= old(v)@.update(
                    final(self).pos() - 1,
                    Some(*final(r.unwrap())),
                )
                &&& final(v).free_list() == old(v).free_list()
                &&& occupied_from(final(v)@, final(self).pos()) == occupied_from(
                    old(v)@,
                    old(self).pos(),
                ).drop_first()
            },
    {
        let j = scan_occupied(v, self.pos);
        if j < v.vec.len() {
            self.pos = j + 1;
            proof {
                let s = v@;
                assert(occupied_from(s, j as int) == seq![s[j as int].unwrap()] + occupied_from(
                    s,
                    j as int + 1,
                ));
                assert((seq![s[j as int].unwrap()] + occupied_from(
                    s,
                    j as int + 1,
                )).drop_first() =~= occupied_from(s, j as int + 1));
                // Rewriting the yielded cell keeps the rest of the
                // traversal, whatever value is written through it.
                assert forall|x: Option<T>|
                    occupied_from(s.update(j as int, x), j as int + 1) == occupied_from(
                        s,
                        j as int + 1,
                    ) by {
                    lemma_occupied_from_update_before(s, j as int, x, j as int + 1);
                }
                // No free-list entry names this occupied index, so the
                // rewrite keeps well-formedness.
                if v.wf() {
                    let fs = v.holes@;
                    assert forall|k: int| 0 <= k < fs.len() implies (#[trigger] fs[k]) != j by {
                        assert(v.vec@[fs[k] as int] is Hole);
                    }
                }
            }
            match &mut v.vec[j] {
                Cell::Value(t) => Some(t),
                Cell::Hole(_) => unreached(),
            }
        } else {
            self.pos = j;
            None
        }
    }
}

/// Relies on std's `Vec::capacity`: the number of elements the vector can
/// hold without reallocating, which is at least its current length.
#[verifier::external_body]
fn vec_capacity<T>(v: &Vec<T>) -> (c: usize)
    ensures
        c >= v@.len(),
{
    v.capacity()
}

} // verus!
