use vstd::prelude::*;
use crate::layout::{lemma_layout_values, PAGE_SIZE, ROWS_PER_PAGE, ROW_SIZE};

verus! {

/// A slot index at or past `ROWS_PER_PAGE`.
#[derive(Clone, Copy, Debug, PartialEq, Eq, Structural)]
pub enum PageError {
    OutOfRange,
}

/// A block of `PAGE_SIZE` bytes that holds `ROWS_PER_PAGE` slots of
/// `ROW_SIZE` bytes each, back to back from its start.
pub struct Page {
    data: Vec<u8>,
}

/// The slots of a page that nothing has been written to.
pub open spec fn zero_slots() -> Seq<Seq<u8>> {
    Seq::new(ROWS_PER_PAGE as nat, |i: int| Seq::new(ROW_SIZE as nat, |j: int| 0u8))
}

impl View for Page {
    /// The page's slots, in order.
    type V = Seq<Seq<u8>>;

    closed spec fn view(&self) -> Seq<Seq<u8>> {
        Seq::new(
            ROWS_PER_PAGE as nat,
            |i: int| self.data@.subrange(i * ROW_SIZE, i * ROW_SIZE + ROW_SIZE),
        )
    }
}

impl Page {
    pub closed spec fn wf(&self) -> bool {
        self.data@.len() == PAGE_SIZE
    }

    /// A well-formed page has `ROWS_PER_PAGE` slots of `ROW_SIZE` bytes.
    pub proof fn lemma_shape(&self)
        requires
            self.wf(),
        ensures
            self@.len() == ROWS_PER_PAGE,
            forall|i: int| 0 <= i < ROWS_PER_PAGE ==> (#[trigger] self@[i]).len() == ROW_SIZE,
    {
        lemma_layout_values();
        assert forall|i: int| 0 <= i < ROWS_PER_PAGE implies (#[trigger] self@[i]).len()
            == ROW_SIZE by {
            assert(i * ROW_SIZE + ROW_SIZE <= PAGE_SIZE);
        }
    }

    /// A page with every byte zero.
    pub fn new() -> (r: Page)
        ensures
            r.wf(),
            r@ == zero_slots(),
    {
        proof {
            lemma_layout_values();
        }
        let mut data: Vec<u8> = Vec::new();
        let mut k: usize = 0;
        while k < PAGE_SIZE
            invariant
                k <= PAGE_SIZE,
                data@.len() == k,
                forall|p: int| 0 <= p < k ==> data@[p] == 0u8,
            decreases PAGE_SIZE - k,
        {
            data.push(0u8);
            k = k + 1;
        }
        let r = Page { data };
        assert(r@ =~= zero_slots()) by {
            assert forall|i: int| 0 <= i < ROWS_PER_PAGE implies r@[i] =~= zero_slots()[i] by {
                assert(i * ROW_SIZE + ROW_SIZE <= PAGE_SIZE);
            }
        }
        r
    }

    /// Writes `data` into slot `index`; leaves every other slot as it was.
    pub fn write_slot(&mut self, index: usize, data: &[u8]) -> (r: Result<(), PageError>)
        requires
            old(self).wf(),
            data@.len() == ROW_SIZE,
        ensures
            final(self).wf(),
            index < ROWS_PER_PAGE ==> r is Ok && final(self)@ == old(self)@.update(
                index as int,
                data@,
            ),
            index >= ROWS_PER_PAGE ==> r == Err::<(), PageError>(PageError::OutOfRange)
                && final(self)@ == old(self)@,
    {
        proof {
            lemma_layout_values();
        }
        if index >= ROWS_PER_PAGE {
            return Err(PageError::OutOfRange);
        }
        let ghost before = self.data@;
        let base: usize = index * ROW_SIZE;
        assert(base + ROW_SIZE <= PAGE_SIZE);
        let mut k: usize = 0;
        while k < ROW_SIZE
            invariant
                k <= ROW_SIZE,
                base == index * ROW_SIZE,
                base + ROW_SIZE <= PAGE_SIZE,
                data@.len() == ROW_SIZE,
                self.data@.len() == PAGE_SIZE,
                forall|p: int|
                    0 <= p < PAGE_SIZE && !(base <= p < base + ROW_SIZE) ==> self.data@[p]
                        == before[p],
                forall|q: int| 0 <= q < k ==> self.data@[base + q] == data@[q],
            decreases ROW_SIZE - k,
        {
            self.data.set(base + k, data[k]);
            k = k + 1;
        }
        assert(self@ =~= old(self)@.update(index as int, data@)) by {
            assert forall|i: int| 0 <= i < ROWS_PER_PAGE implies self@[i] =~= old(self)@.update(
                index as int,
                data@,
            )[i] by {
                if i < index {
                    assert(i * ROW_SIZE + ROW_SIZE <= base);
                } else if i > index {
                    assert(base + ROW_SIZE <= i * ROW_SIZE);
                }
            }
        }
        Ok(())
    }

    /// The bytes of slot `index`.
    pub fn read_slot(&self, index: usize) -> (r: Result<Vec<u8>, PageError>)
        requires
            self.wf(),
        ensures
            index < ROWS_PER_PAGE ==> (r matches Ok(v) && v@ == self@[index as int]),
            index >= ROWS_PER_PAGE ==> r == Err::<Vec<u8>, PageError>(PageError::OutOfRange),
    {
        proof {
            lemma_layout_values();
        }
        if index >= ROWS_PER_PAGE {
            return Err(PageError::OutOfRange);
        }
        let base: usize = index * ROW_SIZE;
        let mut out: Vec<u8> = Vec::new();
        let mut k: usize = 0;
        while k < ROW_SIZE
            invariant
                k <= ROW_SIZE,
                base == index * ROW_SIZE,
                base + ROW_SIZE <= PAGE_SIZE,
                self.data@.len() == PAGE_SIZE,
                out@ == self.data@.subrange(base as int, base + k),
            decreases ROW_SIZE - k,
        {
            out.push(self.data[base + k]);
            k = k + 1;
            assert(out@ =~= self.data@.subrange(base as int, base + k));
        }
        Ok(out)
    }
}

} // verus!
