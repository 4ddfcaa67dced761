//! Arrays: sparse tables of values on a heap that counts the references to them, copied when
//! a shared one is written.

use crate::vm::value::Value;
use vstd::prelude::*;

verus! {

/// The greatest index that an array can have on the heap: 48 bits hold it.
pub const MAX_INDEX: u64 = 0xffff_ffff_ffff;

/// A handle to an array on the heap.
#[derive(Clone, Copy, Debug, PartialEq, Eq, Hash, Structural)]
pub struct Array {
    pub index: u64,
}

/// Why a value cannot be stored in an array.
#[derive(Clone, Copy, Debug, PartialEq, Eq, Structural)]
pub enum StoreError {
    /// The value is an array, and the cells of an array hold reals and strings only.
    Nested,
    /// The array is shared, and the heap has no room for the copy that the write calls for.
    Full,
}

/// An array on the heap: the number of references to it, and its rows.
struct Body {
    refs: usize,
    rows: Vec<Vec<Value>>,
}

/// An array as plain values.
pub struct ArrayView {
    /// The number of references to the array.
    pub refs: nat,
    /// The cells that the array stores, row by row. Rows can differ in length.
    pub rows: Seq<Seq<Value>>,
}

/// The heap: the arrays of a program, each with the count of the references to it.
///
/// An array is created with one reference. It lives until as many references have been
/// released as were taken, and is freed with the last one. Its handle is never used again.
pub struct Heap {
    bodies: Vec<Option<Body>>,
}

/// A sequence made as long as `len`, where it is shorter, with `fill` at its end.
pub open spec fn padded<T>(items: Seq<T>, len: nat, fill: T) -> Seq<T> {
    Seq::new(
        if items.len() >= len {
            items.len()
        } else {
            len
        },
        |i: int|
            if i < items.len() {
                items[i]
            } else {
                fill
            },
    )
}

/// The rows of an array after a write: there are rows up to the one written, which has cells
/// up to the one written, the new ones holding real zero; the cell written holds `value`.
pub open spec fn with_cell(
    rows: Seq<Seq<Value>>,
    row: nat,
    column: nat,
    value: Value,
) -> Seq<Seq<Value>> {
    let grown = padded(rows, row + 1, Seq::empty());
    grown.update(
        row as int,
        padded(grown[row as int], column + 1, Value::spec_zero()).update(column as int, value),
    )
}

/// After a write the cell written holds the value written, and every other cell holds what
/// it held.
pub proof fn lemma_with_cell(
    rows: Seq<Seq<Value>>,
    row: nat,
    column: nat,
    value: Value,
    other_row: int,
    other_column: int,
)
    ensures
        (ArrayView { refs: 1, rows: with_cell(rows, row, column, value) }).cell(
            other_row,
            other_column,
        ) == if other_row == row && other_column == column {
            value
        } else {
            (ArrayView { refs: 1, rows }).cell(other_row, other_column)
        },
{
}

impl ArrayView {
    /// The value at a row and a column: the one stored there, and real zero outside of what
    /// is stored.
    pub open spec fn cell(self, row: int, column: int) -> Value {
        if 0 <= row < self.rows.len() && 0 <= column < self.rows[row].len() {
            self.rows[row][column]
        } else {
            Value::spec_zero()
        }
    }

    /// Whether no cell holds an array.
    pub open spec fn flat(self) -> bool {
        forall|row: int, column: int|
            0 <= row < self.rows.len() && 0 <= column < self.rows[row].len() ==> !(
            #[trigger] self.rows[row][column].spec_data() is Array)
    }
}

impl Body {
    spec fn view(&self) -> ArrayView {
        ArrayView {
            refs: self.refs as nat,
            rows: Seq::new(self.rows@.len(), |row: int| self.rows@[row]@),
        }
    }
}

impl View for Heap {
    type V = Seq<Option<ArrayView>>;

    closed spec fn view(&self) -> Seq<Option<ArrayView>> {
        Seq::new(
            self.bodies@.len(),
            |i: int|
                match self.bodies@[i] {
                    Some(body) => Some(body.view()),
                    None => None,
                },
        )
    }
}

/// Whether the handle names an array that lives on the heap.
pub open spec fn live(heap: Seq<Option<ArrayView>>, array: Array) -> bool {
    array.index < heap.len() && heap[array.index as int] is Some
}

/// The heap with one more reference to an array that lives.
pub open spec fn retained(heap: Seq<Option<ArrayView>>, array: Array) -> Seq<Option<ArrayView>> {
    let held = heap[array.index as int]->0;
    heap.update(array.index as int, Some(ArrayView { refs: held.refs + 1, rows: held.rows }))
}

/// The heap with one reference fewer to an array that lives: without the array, where the
/// reference was its last.
pub open spec fn released(heap: Seq<Option<ArrayView>>, array: Array) -> Seq<Option<ArrayView>> {
    let held = heap[array.index as int]->0;
    heap.update(
        array.index as int,
        if held.refs == 1 {
            None
        } else {
            Some(ArrayView { refs: (held.refs - 1) as nat, rows: held.rows })
        },
    )
}

/// A reference that is taken and released leaves the heap as it was.
pub proof fn lemma_retain_release(heap: Seq<Option<ArrayView>>, array: Array)
    requires
        heap_wf(heap),
        live(heap, array),
    ensures
        live(retained(heap, array), array),
        released(retained(heap, array), array) == heap,
{
    let held = heap[array.index as int]->0;
    assert(heap[array.index as int] == Some(held));
    assert(released(retained(heap, array), array) =~= heap);
}

/// Releasing a reference touches no other array, and frees the array exactly when the
/// reference was its last.
pub proof fn lemma_release(heap: Seq<Option<ArrayView>>, array: Array, other: Array)
    requires
        heap_wf(heap),
        live(heap, array),
    ensures
        heap_wf(released(heap, array)),
        released(heap, array).len() == heap.len(),
        other != array && other.index < heap.len() ==> released(heap, array)[other.index as int]
            == heap[other.index as int],
        live(released(heap, array), array) <==> heap[array.index as int]->0.refs > 1,
{
}

/// Whether a heap is in order: every handle fits 48 bits, every array that lives has a
/// reference, and no cell holds an array.
pub open spec fn heap_wf(heap: Seq<Option<ArrayView>>) -> bool {
    &&& heap.len() <= MAX_INDEX + 1
    &&& forall|i: int|
        0 <= i < heap.len() ==> (#[trigger] heap[i] matches Some(array) ==> array.refs >= 1
            && array.flat())
}

impl Heap {
    /// The view has an entry for every slot, and the entry of a slot is the view of what the
    /// slot holds.
    proof fn lemma_view(&self)
        ensures
            self@.len() == self.bodies@.len(),
            self@.len() <= usize::MAX,
            forall|i: int|
                0 <= i < self.bodies@.len() ==> #[trigger] self@[i] == match self.bodies@[i] {
                    Some(body) => Some(body.view()),
                    None => None,
                },
    {
        assert(self.bodies@.len() == self.bodies.len());
    }

    /// Whether the heap is in order.
    pub open spec fn wf(&self) -> bool {
        heap_wf(self@)
    }

    /// A heap without arrays.
    pub fn new() -> (heap: Heap)
        ensures
            heap@ == Seq::<Option<ArrayView>>::empty(),
            heap.wf(),
    {
        let heap = Heap { bodies: Vec::new() };
        assert(heap@ =~= Seq::<Option<ArrayView>>::empty());
        heap
    }

    /// The number of handles that the heap has given out.
    pub fn len(&self) -> (len: usize)
        ensures
            len == self@.len(),
    {
        self.bodies.len()
    }

    /// Whether the handle names an array that lives.
    pub fn is_live(&self, array: Array) -> (lives: bool)
        ensures
            lives == live(self@, array),
    {
        proof {
            self.lemma_view();
        }
        array.index < self.bodies.len() as u64 && self.bodies[array.index as usize].is_some()
    }

    /// The number of references to an array that lives.
    pub fn refs(&self, array: Array) -> (refs: usize)
        requires
            live(self@, array),
        ensures
            refs == self@[array.index as int]->0.refs,
    {
        proof {
            self.lemma_view();
        }
        match &self.bodies[array.index as usize] {
            Some(body) => body.refs,
            None => 0,
        }
    }

    /// Makes an array of one cell, at row 0 and column 0, that holds `first`: a scalar seen
    /// as an array. The array has one reference, which the handle stands for. `None` where
    /// `first` is itself an array, or the heap is full.
    pub fn allocate(&mut self, first: Value) -> (made: Option<Array>)
        requires
            old(self).wf(),
        ensures
            final(self).wf(),
            made is Some <==> !(first.spec_data() is Array) && old(self)@.len() <= MAX_INDEX,
            made is None ==> final(self)@ == old(self)@,
            made matches Some(array) ==> array.index == old(self)@.len() && final(self)@ == old(
                self,
            )@.push(Some(ArrayView { refs: 1, rows: seq![seq![first]] })),
    {
        proof {
            self.lemma_view();
        }
        if first.is_array() || self.bodies.len() as u64 > MAX_INDEX {
            return None;
        }
        let array = Array { index: self.bodies.len() as u64 };
        let mut row: Vec<Value> = Vec::new();
        row.push(first);
        let mut rows: Vec<Vec<Value>> = Vec::new();
        rows.push(row);
        let body = Body { refs: 1, rows };
        assert(body.view().rows =~= seq![seq![first]]);
        self.bodies.push(Some(body));
        proof {
            self.lemma_view();
        }
        assert(self@ =~= old(self)@.push(Some(ArrayView { refs: 1, rows: seq![seq![first]] })));
        Some(array)
    }

    /// Takes one more reference to an array that lives. `false`, with nothing changed, where
    /// the count of references cannot grow.
    pub fn retain(&mut self, array: Array) -> (taken: bool)
        requires
            old(self).wf(),
            live(old(self)@, array),
        ensures
            final(self).wf(),
            taken <==> old(self)@[array.index as int]->0.refs < usize::MAX,
            !taken ==> final(self)@ == old(self)@,
            taken ==> final(self)@ == retained(old(self)@, array),
    {
        proof {
            self.lemma_view();
        }
        let index = array.index as usize;
        let ghost before = self@;
        let refs = self.refs(array);
        if refs == usize::MAX {
            return false;
        }
        match &mut self.bodies[index] {
            Some(body) => {
                body.refs = refs + 1;
            },
            None => {},
        }
        proof {
            self.lemma_view();
        }
        assert(self@ =~= before.update(
            array.index as int,
            Some(
                ArrayView {
                    refs: before[array.index as int]->0.refs + 1,
                    rows: before[array.index as int]->0.rows,
                },
            ),
        ));
        true
    }

    /// Gives up one reference to an array that lives. The array is freed with its last
    /// reference; `true` says that it was.
    pub fn release(&mut self, array: Array) -> (freed: bool)
        requires
            old(self).wf(),
            live(old(self)@, array),
        ensures
            final(self).wf(),
            freed <==> old(self)@[array.index as int]->0.refs == 1,
            final(self)@ == released(old(self)@, array),
    {
        proof {
            self.lemma_view();
        }
        let index = array.index as usize;
        let ghost before = self@;
        let refs = self.refs(array);
        if refs == 1 {
            self.bodies[index] = None;
            proof {
                self.lemma_view();
            }
            assert(self@ =~= before.update(array.index as int, None));
            true
        } else {
            match &mut self.bodies[index] {
                Some(body) => {
                    body.refs = refs - 1;
                },
                None => {},
            }
            proof {
                self.lemma_view();
            }
            assert(self@ =~= before.update(
                array.index as int,
                Some(
                    ArrayView {
                        refs: (before[array.index as int]->0.refs - 1) as nat,
                        rows: before[array.index as int]->0.rows,
                    },
                ),
            ));
            false
        }
    }

    /// Writes a value into a cell of an array that lives, and gives the handle of the array
    /// that then holds it.
    ///
    /// An array with one reference is written in place. A shared array is copied first: the
    /// copy has one reference, which the handle given stands for, and the array written to
    /// loses the reference through which it was written. Nothing changes where the value is
    /// an array, or where a copy is called for and the heap is full.
    pub fn store(&mut self, array: Array, row: usize, column: usize, value: Value) -> (stored:
        Result<Array, StoreError>)
        requires
            old(self).wf(),
            live(old(self)@, array),
        ensures
            final(self).wf(),
            stored == Err::<Array, StoreError>(StoreError::Nested) <==> value.spec_data() is Array,
            stored is Err ==> final(self)@ == old(self)@,
            stored == Err::<Array, StoreError>(StoreError::Full) <==> !(value.spec_data() is Array)
                && old(self)@[array.index as int]->0.refs > 1 && old(self)@.len() > MAX_INDEX,
            stored matches Ok(target) ==> {
                let before = old(self)@[array.index as int]->0;
                let written = Some(
                    ArrayView {
                        refs: 1,
                        rows: with_cell(before.rows, row as nat, column as nat, value),
                    },
                );
                if before.refs == 1 {
                    target == array && final(self)@ == old(self)@.update(
                        array.index as int,
                        written,
                    )
                } else {
                    target.index == old(self)@.len() && final(self)@ == released(
                        old(self)@,
                        array,
                    ).push(written)
                }
            },
    {
        proof {
            self.lemma_view();
        }
        if value.is_array() {
            return Err(StoreError::Nested);
        }
        let index = array.index as usize;
        let ghost before = self@;
        let ghost held = before[array.index as int]->0;
        let refs = self.refs(array);
        if refs > 1 {
            if self.bodies.len() as u64 > MAX_INDEX {
                return Err(StoreError::Full);
            }
            let rows = match &self.bodies[index] {
                Some(body) => copy_rows(&body.rows),
                None => Vec::new(),
            };
            let rows = write_cell(rows, row, column, value);
            self.release(array);
            let target = Array { index: self.bodies.len() as u64 };
            let ghost released = self@;
            let body = Body { refs: 1, rows };
            proof {
                assert(body.view().rows =~= with_cell(held.rows, row as nat, column as nat, value));
                lemma_written_flat(held, row as nat, column as nat, value);
            }
            self.bodies.push(Some(body));
            proof {
                self.lemma_view();
                assert(self@ =~= released.push(Some(body.view())));
            }
            Ok(target)
        } else {
            let mut slot: Option<Body> = None;
            core::mem::swap(&mut self.bodies[index], &mut slot);
            let rows = match slot {
                Some(body) => body.rows,
                None => Vec::new(),
            };
            let ghost old_rows = Seq::new(rows@.len(), |r: int| rows@[r]@);
            assert(old_rows =~= held.rows);
            let rows = write_cell(rows, row, column, value);
            let body = Body { refs: 1, rows };
            proof {
                assert(body.view().rows =~= with_cell(held.rows, row as nat, column as nat, value));
                lemma_written_flat(held, row as nat, column as nat, value);
            }
            self.bodies[index] = Some(body);
            proof {
                self.lemma_view();
                assert(self@ =~= before.update(array.index as int, Some(body.view())));
            }
            Ok(array)
        }
    }

    /// The value at a row and a column of an array that lives: the one stored there, and real
    /// zero outside of what is stored.
    pub fn load(&self, array: Array, row: usize, column: usize) -> (value: Value)
        requires
            live(self@, array),
        ensures
            value == self@[array.index as int]->0.cell(row as int, column as int),
    {
        proof {
            self.lemma_view();
        }
        match &self.bodies[array.index as usize] {
            Some(body) => {
                if row < body.rows.len() && column < body.rows[row].len() {
                    body.rows[row][column]
                } else {
                    Value::zero()
                }
            },
            None => Value::zero(),
        }
    }
}

/// A write of a value that is no array leaves an array without arrays in its cells.
proof fn lemma_written_flat(array: ArrayView, row: nat, column: nat, value: Value)
    requires
        array.flat(),
        !(value.spec_data() is Array),
    ensures
        (ArrayView { refs: 1, rows: with_cell(array.rows, row, column, value) }).flat(),
{
    Value::lemma_zero();
}

/// A copy of the rows of an array.
fn copy_rows(rows: &Vec<Vec<Value>>) -> (copy: Vec<Vec<Value>>)
    ensures
        copy@.len() == rows@.len(),
        forall|r: int| 0 <= r < rows@.len() ==> (#[trigger] copy@[r])@ == rows@[r]@,
{
    let mut copy: Vec<Vec<Value>> = Vec::new();
    let mut r: usize = 0;
    while r < rows.len()
        invariant
            r <= rows@.len(),
            copy@.len() == r,
            forall|i: int| 0 <= i < r ==> (#[trigger] copy@[i])@ == rows@[i]@,
        decreases rows@.len() - r,
    {
        let mut cells: Vec<Value> = Vec::new();
        let mut c: usize = 0;
        while c < rows[r].len()
            invariant
                r < rows@.len(),
                c <= rows@[r as int]@.len(),
                cells@ == rows@[r as int]@.subrange(0, c as int),
            decreases rows@[r as int]@.len() - c,
        {
            cells.push(rows[r][c]);
            assert(cells@ =~= rows@[r as int]@.subrange(0, c + 1));
            c += 1;
        }
        assert(cells@ =~= rows@[r as int]@);
        copy.push(cells);
        r += 1;
    }
    copy
}

/// The rows after a write into one of their cells.
fn write_cell(rows: Vec<Vec<Value>>, row: usize, column: usize, value: Value) -> (written: Vec<
    Vec<Value>,
>)
    ensures
        Seq::new(written@.len(), |r: int| written@[r]@) == with_cell(
            Seq::new(rows@.len(), |r: int| rows@[r]@),
            row as nat,
            column as nat,
            value,
        ),
{
    let ghost before = Seq::new(rows@.len(), |r: int| rows@[r]@);
    let mut rows = rows;
    while rows.len() <= row
        invariant
            before.len() <= rows@.len(),
            rows@.len() <= before.len() || rows@.len() <= row + 1,
            forall|r: int| 0 <= r < before.len() ==> (#[trigger] rows@[r])@ == before[r],
            forall|r: int| before.len() <= r < rows@.len() ==> (#[trigger] rows@[r])@ == Seq::<
                Value,
            >::empty(),
        decreases row + 1 - rows@.len(),
    {
        rows.push(Vec::new());
    }
    let ghost grown = padded(before, (row + 1) as nat, Seq::empty());
    assert(Seq::new(rows@.len(), |r: int| rows@[r]@) =~= grown);
    let mut cells: Vec<Value> = Vec::new();
    core::mem::swap(&mut rows[row], &mut cells);
    let ghost old_cells = cells@;
    while cells.len() <= column
        invariant
            old_cells.len() <= cells@.len(),
            cells@.len() <= old_cells.len() || cells@.len() <= column + 1,
            forall|c: int| 0 <= c < old_cells.len() ==> cells@[c] == old_cells[c],
            forall|c: int| old_cells.len() <= c < cells@.len() ==> cells@[c] == Value::spec_zero(),
        decreases column + 1 - cells@.len(),
    {
        cells.push(Value::zero());
    }
    assert(cells@ =~= padded(old_cells, (column + 1) as nat, Value::spec_zero()));
    cells[column] = value;
    rows[row] = cells;
    assert(Seq::new(rows@.len(), |r: int| rows@[r]@) =~= with_cell(
        before,
        row as nat,
        column as nat,
        value,
    ));
    rows
}

} // verus!
