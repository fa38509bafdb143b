//! A coordinate-list sparse matrix: explicit `(row, column, value)` entries
//! over a default value.
use vstd::prelude::*;
use crate::qubo::QuboType;

verus! {

/// One explicit entry.
#[derive(Clone, Copy, Debug, PartialEq, Eq, Structural)]
pub struct SparseMatrixElement {
    pub row: usize,
    pub column: usize,
    pub value: QuboType,
}

/// A matrix of the given shape whose entries are the default value except
/// where an element says otherwise; no two elements share a position.
pub struct SparseMatrix {
    shape: (usize, usize),
    elements: Vec<SparseMatrixElement>,
    default_value: QuboType,
}

/// Element `e` sits at `index`.
pub open spec fn at(e: SparseMatrixElement, index: (usize, usize)) -> bool {
    e.row == index.0 && e.column == index.1
}

/// `k` is the first element at `index`.
pub open spec fn first_at(es: Seq<SparseMatrixElement>, index: (usize, usize), k: int) -> bool {
    0 <= k < es.len() && at(es[k], index) && forall|j: int| 0 <= j < k ==> !at(#[trigger] es[j], index)
}

/// No element sits at `index`.
pub open spec fn absent(es: Seq<SparseMatrixElement>, index: (usize, usize)) -> bool {
    forall|j: int| 0 <= j < es.len() ==> !at(#[trigger] es[j], index)
}

/// No two elements share a position.
pub open spec fn unique_positions(es: Seq<SparseMatrixElement>) -> bool {
    forall|a: int, b: int|
        0 <= a < b < es.len() ==> !(#[trigger] es[a].row == #[trigger] es[b].row && es[a].column
            == es[b].column)
}

/// Some element at `index` holds `v`.
pub open spec fn holds(es: Seq<SparseMatrixElement>, index: (usize, usize), v: QuboType) -> bool {
    exists|k: int| 0 <= k < es.len() && at(#[trigger] es[k], index) && es[k].value == v
}

/// The value at `index`: that of its first element, else the default.
pub open spec fn value_at(es: Seq<SparseMatrixElement>, default: QuboType, index: (usize, usize)) -> QuboType {
    if exists|k: int| first_at(es, index, k) {
        es[choose|k: int| first_at(es, index, k)].value
    } else {
        default
    }
}

impl SparseMatrix {
    /// No two elements share a position, so each position has at most one value.
    pub closed spec fn wf(&self) -> bool {
        unique_positions(self.elements@)
    }

    /// The explicit entries, in order.
    pub closed spec fn elements(&self) -> Seq<SparseMatrixElement> {
        self.elements@
    }

    /// The number of rows and columns.
    pub closed spec fn shape(&self) -> (usize, usize) {
        self.shape
    }

    /// The value of every entry that no element sets.
    pub closed spec fn default_value(&self) -> QuboType {
        self.default_value
    }

    /// An empty matrix of the given shape with `default` everywhere.
    pub fn new_with_default(shape: (usize, usize), default: QuboType) -> (r: SparseMatrix)
        ensures
            r.wf(),
            r.elements() == Seq::<SparseMatrixElement>::empty(),
            r.shape() == shape,
            r.default_value() == default,
    {
        SparseMatrix { shape, elements: Vec::new(), default_value: default }
    }

    /// An empty matrix of the given shape with 0 everywhere.
    pub fn new(shape: (usize, usize)) -> (r: SparseMatrix)
        ensures
            r.wf(),
            r.elements() == Seq::<SparseMatrixElement>::empty(),
            r.shape() == shape,
            r.default_value() == 0,
    {
        Self::new_with_default(shape, 0)
    }

    /// The index of the first element at `index`, if any.
    fn find(&self, index: (usize, usize)) -> (r: Option<usize>)
        ensures
            match r {
                Some(k) => first_at(self.elements(), index, k as int),
                None => absent(self.elements(), index),
            },
    {
        let mut k: usize = 0;
        while k < self.elements.len()
            invariant
                k <= self.elements@.len(),
                forall|j: int| 0 <= j < k ==> !at(#[trigger] self.elements@[j], index),
            decreases self.elements@.len() - k,
        {
            let e = self.elements[k];
            if e.row == index.0 && e.column == index.1 {
                return Some(k);
            }
            k += 1;
        }
        None
    }

    /// Sets the entry at `index` to `value`: the first element there changes,
    /// or a new element is appended.
    pub fn set(&mut self, index: (usize, usize), value: QuboType)
        requires
            old(self).wf(),
        ensures
            final(self).wf(),
            final(self).shape() == old(self).shape(),
            final(self).default_value() == old(self).default_value(),
            ({
                let e = SparseMatrixElement { row: index.0, column: index.1, value };
                (exists|k: int| first_at(old(self).elements(), index, k) && final(self).elements()
                    == old(self).elements().update(k, e)) || (absent(old(self).elements(), index)
                    && final(self).elements() == old(self).elements().push(e))
            }),
    {
        let e = SparseMatrixElement { row: index.0, column: index.1, value };
        match self.find(index) {
            Some(k) => {
                let ghost before = self.elements@;
                self.elements.set(k, e);
                proof {
                    assert forall|a: int, b: int| 0 <= a < b < self.elements@.len() implies !(
                    #[trigger] self.elements@[a].row == #[trigger] self.elements@[b].row
                        && self.elements@[a].column == self.elements@[b].column) by {
                        if a != k && b != k {
                            assert(!(before[a].row == before[b].row && before[a].column == before[b].column));
                        } else if a == k {
                            assert(!(before[a].row == before[b].row && before[a].column == before[b].column));
                        } else {
                            assert(!(before[a].row == before[b].row && before[a].column == before[b].column));
                        }
                    }
                }
            },
            None => {
                let ghost before = self.elements@;
                self.elements.push(e);
                proof {
                    assert forall|a: int, b: int| 0 <= a < b < self.elements@.len() implies !(
                    #[trigger] self.elements@[a].row == #[trigger] self.elements@[b].row
                        && self.elements@[a].column == self.elements@[b].column) by {
                        if b < before.len() {
                            assert(!(before[a].row == before[b].row && before[a].column == before[b].column));
                        } else {
                            assert(!at(before[a], index));
                        }
                    }
                }
            },
        }
    }

    /// Removes the first element at `index` and returns its value.
    pub fn remove(&mut self, index: (usize, usize)) -> (r: Option<QuboType>)
        requires
            old(self).wf(),
        ensures
            final(self).wf(),
            absent(final(self).elements(), index),
            final(self).shape() == old(self).shape(),
            final(self).default_value() == old(self).default_value(),
            match r {
                Some(v) => exists|k: int|
                    first_at(old(self).elements(), index, k) && v == old(self).elements()[k].value
                        && final(self).elements() == old(self).elements().remove(k),
                None => absent(old(self).elements(), index) && final(self).elements() == old(
                    self,
                ).elements(),
            },
    {
        match self.find(index) {
            Some(k) => {
                let ghost before = self.elements@;
                let e = self.elements.remove(k);
                proof {
                    let after = self.elements@;
                    assert forall|a: int, b: int| 0 <= a < b < after.len() implies !(
                    #[trigger] after[a].row == #[trigger] after[b].row
                        && after[a].column == after[b].column) by {
                        let a0 = if a < k { a } else { a + 1 };
                        let b0 = if b < k { b } else { b + 1 };
                        assert(after[a] == before[a0] && after[b] == before[b0]);
                        assert(!(before[a0].row == before[b0].row && before[a0].column == before[b0].column));
                    }
                    assert forall|j: int| 0 <= j < after.len() implies !at(#[trigger] after[j], index) by {
                        let j0 = if j < k { j } else { j + 1 };
                        assert(after[j] == before[j0]);
                        if j0 < k {
                        } else {
                            assert(!(before[k as int].row == before[j0].row && before[k as int].column == before[j0].column));
                        }
                    }
                }
                Some(e.value)
            },
            None => None,
        }
    }

    /// The explicit elements.
    pub fn values(&self) -> (r: &Vec<SparseMatrixElement>)
        ensures
            r@ == self.elements(),
    {
        &self.elements
    }

    /// The value at `index`.
    pub fn get(&self, index: (usize, usize)) -> (r: QuboType)
        ensures
            r == value_at(self.elements(), self.default_value(), index),
    {
        match self.find(index) {
            Some(k) => {
                proof {
                    let c = choose|c: int| first_at(self.elements(), index, c);
                    if c < k {
                        assert(!at(self.elements()[c], index));
                    } else if k < c {
                        assert(!at(self.elements()[k as int], index));
                    }
                }
                self.elements[k].value
            },
            None => self.default_value,
        }
    }

    /// Drops the elements that hold the default value, keeping the order of the others.
    pub fn purge(&mut self)
        requires
            old(self).wf(),
        ensures
            final(self).wf(),
            forall|k: int| 0 <= k < final(self).elements().len() ==> (#[trigger] final(self).elements()[k]).value
                != final(self).default_value(),
            forall|index: (usize, usize), v: QuboType|
                v != old(self).default_value() ==> (#[trigger] holds(final(self).elements(), index, v)
                    <==> holds(old(self).elements(), index, v)),
            final(self).shape() == old(self).shape(),
            final(self).default_value() == old(self).default_value(),
            final(self).elements() == old(self).elements().filter(
                |e: SparseMatrixElement| e.value != old(self).default_value(),
            ),
    {
        let ghost d = self.default_value;
        let ghost es = self.elements@;
        let mut kept: Vec<SparseMatrixElement> = Vec::new();
        let mut k: usize = 0;
        while k < self.elements.len()
            invariant
                d == self.default_value,
                es == self.elements@,
                k <= es.len(),
                kept@ == es.take(k as int).filter(|e: SparseMatrixElement| e.value != d),
                unique_positions(es),
                unique_positions(kept@),
                forall|a: int| 0 <= a < kept@.len() ==> (#[trigger] kept@[a]).value != d,
                forall|a: int| 0 <= a < kept@.len() ==> exists|j: int| 0 <= j < k && #[trigger] kept@[a] == es[j],
                forall|index: (usize, usize), v: QuboType|
                    v != d ==> (#[trigger] holds(kept@, index, v) <==> holds(es.take(k as int), index, v)),
            decreases es.len() - k,
        {
            let e = self.elements[k];
            let ghost before = kept@;
            proof {
                assert(es.take(k as int + 1).drop_last() =~= es.take(k as int));
                es.take(k as int).lemma_filter_push(e, |e: SparseMatrixElement| e.value != d);
                assert(es.take(k as int + 1) =~= es.take(k as int).push(e));
            }
            if e.value != self.default_value {
                kept.push(e);
            }
            proof {
                let tk = es.take(k as int);
                let tk1 = es.take(k as int + 1);
                assert forall|a: int, b: int| 0 <= a < b < kept@.len() implies !(
                #[trigger] kept@[a].row == #[trigger] kept@[b].row
                    && kept@[a].column == kept@[b].column) by {
                    if b < before.len() {
                        assert(kept@[a] == before[a] && kept@[b] == before[b]);
                    } else {
                        assert(kept@[a] == before[a]);
                        let j = choose|j: int| 0 <= j < k && #[trigger] before[a] == es[j];
                        assert(!(es[j].row == es[k as int].row && es[j].column == es[k as int].column));
                    }
                }
                assert forall|a: int| 0 <= a < kept@.len() implies exists|j: int| 0 <= j < k + 1 && #[trigger] kept@[a] == es[j] by {
                    if a < before.len() {
                        assert(kept@[a] == before[a]);
                        let j = choose|j: int| 0 <= j < k && #[trigger] before[a] == es[j];
                        assert(kept@[a] == es[j]);
                    } else {
                        assert(kept@[a] == es[k as int]);
                    }
                }
                assert forall|index: (usize, usize), v: QuboType|
                    v != d implies (#[trigger] holds(kept@, index, v) <==> holds(tk1, index, v)) by {
                    if holds(kept@, index, v) {
                        let a = choose|a: int| 0 <= a < kept@.len() && at(#[trigger] kept@[a], index) && kept@[a].value == v;
                        if a < before.len() {
                            assert(kept@[a] == before[a]);
                            assert(holds(before, index, v));
                            let j = choose|j: int| 0 <= j < tk.len() && at(#[trigger] tk[j], index) && tk[j].value == v;
                            assert(tk1[j] == tk[j]);
                        } else {
                            assert(kept@ == before.push(e));
                            assert(kept@[a] == e);
                            assert(tk1[k as int] == e);
                        }
                    }
                    if holds(tk1, index, v) {
                        let j = choose|j: int| 0 <= j < tk1.len() && at(#[trigger] tk1[j], index) && tk1[j].value == v;
                        if j < k {
                            assert(tk[j] == tk1[j]);
                            assert(at(tk[j], index) && tk[j].value == v);
                            assert(holds(tk, index, v));
                            assert(holds(before, index, v));
                            let a = choose|a: int| 0 <= a < before.len() && at(#[trigger] before[a], index) && before[a].value == v;
                            assert(kept@[a] == before[a]);
                        } else {
                            assert(tk1[j] == e);
                            assert(e.value == v);
                            assert(kept@ == before.push(e));
                            assert(kept@[kept@.len() - 1] == e);
                        }
                    }
                }
            }
            k += 1;
        }
        assert(es.take(es.len() as int) =~= es);
        self.elements = kept;
        assert forall|index: (usize, usize), v: QuboType|
            v != d implies (#[trigger] holds(self.elements@, index, v) <==> holds(es, index, v)) by {
            assert(holds(kept@, index, v) <==> holds(es.take(es.len() as int), index, v));
        }
    }
}

} // verus!
