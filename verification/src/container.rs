use vstd::prelude::*;

use crate::Token;

verus! {

/// The mathematical content of an expanding tape: the logical index of the
/// leftmost materialized cell, the materialized cells in ascending index
/// order, and the blank symbol that fills every cell outside that range.
#[verifier::ext_equal]
pub ghost struct TapeModel {
    pub first: int,
    pub cells: Seq<Token>,
    pub blank: Token,
}

impl TapeModel {
    /// Highest logical index currently materialized (`first - 1` when empty).
    pub open spec fn last(self) -> int {
        self.first + self.cells.len() - 1
    }

    /// A tape always covers index 0 from the left (`first` starts at 0 and
    /// only decreases), reaches at least index -1 from the right, and its
    /// materialized span fits the index type.
    pub open spec fn wf(self) -> bool {
        &&& self.first <= 0
        &&& 0 <= self.first + self.cells.len()
        &&& self.cells.len() <= i64::MAX as int
    }

    /// Whether index `i` is materialized.
    pub open spec fn holds_index(self, i: int) -> bool {
        self.first <= i <= self.last()
    }

    /// The symbol a reader sees at logical index `i`: the stored cell inside
    /// the materialized range, the blank symbol outside it.
    pub open spec fn at(self, i: int) -> Token {
        if self.holds_index(i) {
            self.cells[i - self.first]
        } else {
            self.blank
        }
    }

    /// Growth until index `i` is materialized: blank cells are prepended or
    /// appended; a tape that already holds `i` is unchanged.
    pub open spec fn grow(self, i: int) -> TapeModel {
        if i < self.first {
            TapeModel {
                first: i,
                cells: Seq::new((self.first - i) as nat, |k: int| self.blank) + self.cells,
                blank: self.blank,
            }
        } else if i > self.last() {
            TapeModel {
                first: self.first,
                cells: self.cells + Seq::new((i - self.last()) as nat, |k: int| self.blank),
                blank: self.blank,
            }
        } else {
            self
        }
    }

    /// Writing `v` at index `i`, growing first so the cell exists.
    pub open spec fn write(self, i: int, v: Token) -> TapeModel {
        let g = self.grow(i);
        TapeModel { first: g.first, cells: g.cells.update(i - g.first, v), blank: g.blank }
    }
}

/// Growth never moves `first` up nor `last` down, and lands exactly on `i`
/// when `i` was outside the materialized range.
pub proof fn lemma_grow_bounds(m: TapeModel, i: int)
    ensures
        m.grow(i).first == if i < m.first { i } else { m.first },
        m.grow(i).last() == if i > m.last() { i } else { m.last() },
        m.grow(i).holds_index(i),
        m.grow(i).blank == m.blank,
{
}

/// Tape growth preserves contents: the symbol at every logical index reads
/// the same after `grow` as before it, written cells and blank cells alike.
pub proof fn lemma_grow_preserves_at(m: TapeModel, i: int, j: int)
    ensures
        m.grow(i).at(j) == m.at(j),
{
    let g = m.grow(i);
    if i < m.first {
        let pad = Seq::new((m.first - i) as nat, |k: int| m.blank);
        if g.holds_index(j) {
            if j < m.first {
                assert(g.cells[j - i] == pad[j - i]);
            } else {
                assert(g.cells[j - i] == m.cells[j - m.first]);
            }
        }
    } else if i > m.last() {
        if g.holds_index(j) && j <= m.last() {
            assert(g.cells[j - m.first] == m.cells[j - m.first]);
        }
    }
}

/// New cells are blank-filled: a cell first materialized by growth reads as
/// the tape's blank symbol.
pub proof fn lemma_new_cells_blank(m: TapeModel, i: int, j: int)
    requires
        !m.holds_index(j),
    ensures
        m.grow(i).at(j) == m.blank,
{
    lemma_grow_preserves_at(m, i, j);
}

/// Tape indices are contiguous: the materialized range has no gaps, so its
/// width equals the number of materialized cells.
pub proof fn lemma_indices_contiguous(m: TapeModel)
    requires
        m.wf(),
    ensures
        m.last() - m.first + 1 == m.cells.len(),
        forall|i: int| m.first <= i <= m.last() ==> m.holds_index(i),
{
}

/// Growing to an index a second time changes nothing.
pub proof fn lemma_grow_idempotent(m: TapeModel, i: int)
    ensures
        m.grow(i).grow(i) == m.grow(i),
{
    lemma_grow_bounds(m, i);
}

/// What a write leaves on the tape: the written cell holds the new symbol,
/// every other index reads as before.
pub proof fn lemma_write_at(m: TapeModel, i: int, v: Token, j: int)
    ensures
        m.write(i, v).at(i) == v,
        j != i ==> m.write(i, v).at(j) == m.at(j),
        m.write(i, v).first == m.grow(i).first,
        m.write(i, v).last() == m.grow(i).last(),
        m.write(i, v).blank == m.blank,
{
    lemma_grow_bounds(m, i);
    lemma_grow_preserves_at(m, i, j);
}

/// Negative indexing works symmetrically: on a tape never addressed below 0,
/// writing at a negative index `i` makes `i` the first index, and a different
/// negative index `j` closer to zero reads as the blank symbol.
pub proof fn lemma_negative_index_symmetry(m: TapeModel, i: int, j: int, v: Token)
    requires
        m.first == 0,
        i < j < 0,
    ensures
        m.write(i, v).first == i,
        m.write(i, v).at(j) == m.blank,
{
    lemma_write_at(m, i, v, j);
}

/// An ordered, randomly addressable sequence of symbols indexed by a signed
/// integer, auto-growing in either direction; cells never explicitly written
/// read as a fixed blank symbol.
#[derive(Debug)]
pub struct ExpandingVec {
    internal_vec: Vec<Token>,
    first_index: i64,
    default: Token,
}

impl View for ExpandingVec {
    type V = TapeModel;

    closed spec fn view(&self) -> TapeModel {
        TapeModel {
            first: self.first_index as int,
            cells: self.internal_vec@,
            blank: self.default,
        }
    }
}

impl ExpandingVec {
    /// A tape holding `vec` at indices `0 .. vec.len()`, blank-filled with
    /// `default` everywhere else.
    pub fn new(vec: Vec<Token>, default: Token) -> (r: ExpandingVec)
        requires
            vec@.len() <= i64::MAX as int,
        ensures
            r@ == (TapeModel { first: 0, cells: vec@, blank: default }),
            r@.wf(),
    {
        ExpandingVec { internal_vec: vec, first_index: 0, default }
    }

    fn to_internal_index(&self, index: i64) -> (r: usize)
        requires
            self@.wf(),
            self@.holds_index(index as int),
        ensures
            r == index - self@.first,
    {
        let n: usize = self.internal_vec.len();
        assert(index - self@.first < n as int);
        (index - self.first_index) as usize
    }

    /// Lowest logical index currently materialized.
    pub fn first_index(&self) -> (r: i64)
        ensures
            r == self@.first,
    {
        self.first_index
    }

    /// Highest logical index currently materialized.
    pub fn last_index(&self) -> (r: i64)
        requires
            self@.wf(),
        ensures
            r == self@.last(),
    {
        self.first_index + self.internal_vec.len() as i64 - 1
    }

    /// Grows the tape until `index` is materialized, filling new cells with
    /// the blank symbol; a call on an index already in bounds changes nothing.
    pub fn ensure_available(&mut self, index: i64)
        requires
            old(self)@.wf(),
            old(self)@.grow(index as int).wf(),
        ensures
            final(self)@ == old(self)@.grow(index as int),
            final(self)@.wf(),
            final(self)@.holds_index(index as int),
    {
        let ghost m0 = self@;
        proof {
            lemma_grow_bounds(m0, index as int);
        }
        if index < self.first_index {
            while index < self.first_index
                invariant
                    m0.wf(),
                    index < m0.first,
                    m0.grow(index as int).wf(),
                    index <= self.first_index <= m0.first,
                    self.default == m0.blank,
                    self.internal_vec@ == Seq::new(
                        (m0.first - self.first_index as int) as nat,
                        |k: int| m0.blank,
                    ) + m0.cells,
                decreases self.first_index - index,
            {
                self.internal_vec.insert(0, self.default);
                self.first_index = self.first_index - 1;
                proof {
                    assert(self.internal_vec@ =~= Seq::new(
                        (m0.first - self.first_index as int) as nat,
                        |k: int| m0.blank,
                    ) + m0.cells);
                }
            }
            proof {
                assert(self@ =~= m0.grow(index as int));
            }
        } else if index > self.last_index() {
            while index > self.last_index()
                invariant
                    m0.wf(),
                    index > m0.last(),
                    m0.grow(index as int).wf(),
                    self.first_index as int == m0.first,
                    self.default == m0.blank,
                    self@.wf(),
                    m0.last() <= self@.last() <= index,
                    self.internal_vec@ == m0.cells + Seq::new(
                        (self@.last() - m0.last()) as nat,
                        |k: int| m0.blank,
                    ),
                decreases index - self@.last(),
            {
                self.internal_vec.push(self.default);
                proof {
                    assert(self.internal_vec@ =~= m0.cells + Seq::new(
                        (self@.last() - m0.last()) as nat,
                        |k: int| m0.blank,
                    ));
                }
            }
            proof {
                assert(self@ =~= m0.grow(index as int));
            }
        }
    }

    /// The cell at logical index `index`, for in-place read or write; grows
    /// the tape first, so the cell always exists.
    pub fn get(&mut self, index: i64) -> (r: &mut Token)
        requires
            old(self)@.wf(),
            old(self)@.grow(index as int).wf(),
        ensures
            *r == old(self)@.at(index as int),
            final(self)@ == old(self)@.write(index as int, *final(r)),
            final(self)@.wf(),
    {
        proof {
            lemma_grow_bounds(self@, index as int);
            lemma_grow_preserves_at(self@, index as int, index as int);
        }
        self.ensure_available(index);
        let internal_index = self.to_internal_index(index);
        &mut self.internal_vec[internal_index]
    }

    /// The materialized cells in ascending logical-index order.
    pub fn iter(&self) -> (r: &Vec<Token>)
        ensures
            r@ == self@.cells,
    {
        &self.internal_vec
    }
}

} // verus!
