use vstd::prelude::*;
use crate::codec::{
    decode, decode_spec, encode, encode_spec, lemma_round_trip, row_no_trailing_nul, CodecError,
};
use crate::layout::{
    lemma_layout_values, ROWS_PER_PAGE, ROW_SIZE, TABLE_MAX_PAGES, TABLE_MAX_ROWS, USERNAME_MAX,
};
use crate::page::Page;
use crate::row::{Row, RowView};
use vstd::utf8::encode_utf8;

verus! {

/// Why a row was not inserted.
#[derive(Clone, Copy, Debug, PartialEq, Eq, Structural)]
pub enum InsertError {
    /// The table already holds `TABLE_MAX_ROWS` rows.
    TableFull,
    /// The row could not be encoded.
    Codec(CodecError),
}

/// Where a logical row lives: its page, its slot in that page, and the slot's
/// first byte within the page.
#[derive(Clone, Copy, Debug, PartialEq, Eq, Structural)]
pub struct RowAddress {
    pub page_idx: u64,
    pub slot_idx: u64,
    pub byte_offset: u64,
}

/// The page that logical row `n` lives in.
pub open spec fn page_of(n: int) -> int {
    n / (ROWS_PER_PAGE as int)
}

/// The slot, within its page, that logical row `n` lives in.
pub open spec fn slot_of(n: int) -> int {
    n % (ROWS_PER_PAGE as int)
}

proof fn lemma_address(n: int)
    requires
        0 <= n,
    ensures
        n == page_of(n) * ROWS_PER_PAGE + slot_of(n),
        0 <= slot_of(n) < ROWS_PER_PAGE,
        0 <= page_of(n),
        n < TABLE_MAX_ROWS ==> page_of(n) < TABLE_MAX_PAGES,
{
    lemma_layout_values();
}

/// The addressing of rows is one to one: two distinct rows of a table never
/// share a (page, slot) pair, and every row below `TABLE_MAX_ROWS` falls in
/// one of the table's `TABLE_MAX_PAGES` pages.
pub proof fn lemma_addressing_injective(n: int, m: int)
    requires
        0 <= n < TABLE_MAX_ROWS,
        0 <= m < TABLE_MAX_ROWS,
        n != m,
    ensures
        page_of(n) != page_of(m) || slot_of(n) != slot_of(m),
        0 <= page_of(n) < TABLE_MAX_PAGES,
        0 <= slot_of(n) < ROWS_PER_PAGE,
{
    lemma_address(n);
    lemma_address(m);
}

/// The addressing of rows reaches every slot: slot `s` of page `p` holds
/// logical row `p * ROWS_PER_PAGE + s`.
pub proof fn lemma_addressing_onto(p: int, s: int)
    requires
        0 <= p < TABLE_MAX_PAGES,
        0 <= s < ROWS_PER_PAGE,
    ensures
        0 <= p * ROWS_PER_PAGE + s < TABLE_MAX_ROWS,
        page_of(p * ROWS_PER_PAGE + s) == p,
        slot_of(p * ROWS_PER_PAGE + s) == s,
{
    lemma_layout_values();
    let n = p * ROWS_PER_PAGE + s;
    lemma_address(n);
}

/// Pages fill in order: inserting logical row `n` (into a table holding `n`
/// rows) makes page `p` go from absent to allocated exactly when `p` is the
/// page of row `n` and the row lands in its slot 0. So with `ROWS_PER_PAGE`
/// rows page 0 is full and page 1 absent, and the next row opens page 1 at
/// slot 0.
pub proof fn lemma_insert_opens_page(n: int, p: int)
    requires
        0 <= n < TABLE_MAX_ROWS,
        0 <= p < TABLE_MAX_PAGES,
    ensures
        (!(p * ROWS_PER_PAGE < n) && p * ROWS_PER_PAGE < n + 1) <==> (p == page_of(n) && slot_of(
            n,
        ) == 0),
        ROWS_PER_PAGE == 13,
{
    lemma_layout_values();
    lemma_address(n);
}

/// The address of logical row `row_num`.
pub fn row_slot(row_num: u64) -> (r: RowAddress)
    ensures
        r.page_idx == page_of(row_num as int),
        r.slot_idx == slot_of(row_num as int),
        r.byte_offset == r.slot_idx * ROW_SIZE,
        r.slot_idx < ROWS_PER_PAGE,
        row_num < TABLE_MAX_ROWS ==> r.page_idx < TABLE_MAX_PAGES,
{
    proof {
        lemma_address(row_num as int);
    }
    let page_idx = row_num / (ROWS_PER_PAGE as u64);
    let slot_idx = row_num % (ROWS_PER_PAGE as u64);
    RowAddress { page_idx, slot_idx, byte_offset: slot_idx * (ROW_SIZE as u64) }
}

/// What inserting a row into a table of `num_rows` rows gives: a row that
/// does not encode is reported first, then a full table.
pub open spec fn insert_result(num_rows: nat, row: RowView) -> Result<(), InsertError> {
    match encode_spec(row) {
        Err(e) => Err(InsertError::Codec(e)),
        Ok(_) => if num_rows >= TABLE_MAX_ROWS {
            Err(InsertError::TableFull)
        } else {
            Ok(())
        },
    }
}

/// The row that a table holds once `row` has been inserted: what its encoding
/// decodes to.
pub open spec fn stored(row: RowView) -> RowView {
    decode_spec(encode_spec(row)->Ok_0)
}

/// The rows a table holds after `rows` are inserted in turn into a table
/// holding `start`; an insert that fails leaves them as they were.
pub open spec fn rows_after_inserts(start: Seq<RowView>, rows: Seq<RowView>) -> Seq<RowView>
    decreases rows.len(),
{
    if rows.len() == 0 {
        start
    } else {
        let next = if insert_result(start.len(), rows[0]) is Ok {
            start.push(stored(rows[0]))
        } else {
            start
        };
        rows_after_inserts(next, rows.drop_first())
    }
}

/// Rows that all encode, inserted while there is room, are all stored.
proof fn lemma_inserts_append(start: Seq<RowView>, rows: Seq<RowView>)
    requires
        start.len() + rows.len() <= TABLE_MAX_ROWS,
        forall|i: int| 0 <= i < rows.len() ==> encode_spec(#[trigger] rows[i]) is Ok,
    ensures
        rows_after_inserts(start, rows) == start + Seq::new(rows.len(), |i: int| stored(rows[i])),
    decreases rows.len(),
{
    if rows.len() == 0 {
        assert(start + Seq::new(rows.len(), |i: int| stored(rows[i])) =~= start);
    } else {
        assert(encode_spec(rows[0]) is Ok);
        let next = start.push(stored(rows[0]));
        let rest = rows.drop_first();
        assert forall|i: int| 0 <= i < rest.len() implies encode_spec(#[trigger] rest[i]) is Ok by {
            assert(rest[i] == rows[i + 1]);
        }
        lemma_inserts_append(next, rest);
        assert(next + Seq::new(rest.len(), |i: int| stored(rest[i])) =~= start + Seq::new(
            rows.len(),
            |i: int| stored(rows[i]),
        ));
    }
}

/// Inserting rows one after another into an empty table and then selecting
/// gives back exactly those rows, in the same order, where every row encodes,
/// no text field ends with a NUL character, and there are no more than
/// `TABLE_MAX_ROWS`.
pub proof fn lemma_insert_then_select(rows: Seq<RowView>)
    requires
        rows.len() <= TABLE_MAX_ROWS,
        forall|i: int|
            0 <= i < rows.len() ==> encode_spec(#[trigger] rows[i]) is Ok && row_no_trailing_nul(rows[i]),
    ensures
        rows_after_inserts(Seq::empty(), rows) == rows,
        rows_after_inserts(Seq::empty(), rows).len() == rows.len(),
{
    lemma_inserts_append(Seq::empty(), rows);
    assert forall|i: int| 0 <= i < rows.len() implies stored(rows[i]) == rows[i] by {
        lemma_round_trip(rows[i]);
    }
    assert(Seq::<RowView>::empty() + Seq::new(rows.len(), |i: int| stored(rows[i])) =~= rows);
}

/// Into an empty table, `TABLE_MAX_ROWS` rows that encode are each inserted
/// and leave the table holding `TABLE_MAX_ROWS` rows; a further row that
/// encodes is then refused with `TableFull`.
pub proof fn lemma_capacity_boundary(rows: Seq<RowView>, extra: RowView)
    requires
        rows.len() == TABLE_MAX_ROWS,
        forall|i: int| 0 <= i < rows.len() ==> encode_spec(#[trigger] rows[i]) is Ok,
        encode_spec(extra) is Ok,
    ensures
        forall|i: int| 0 <= i < rows.len() ==> insert_result(i as nat, #[trigger] rows[i]) is Ok,
        rows_after_inserts(Seq::empty(), rows).len() == TABLE_MAX_ROWS,
        insert_result(TABLE_MAX_ROWS as nat, extra) == Err::<(), InsertError>(
            InsertError::TableFull,
        ),
{
    lemma_inserts_append(Seq::empty(), rows);
}

/// A row whose username is longer than `USERNAME_MAX` bytes is refused with
/// `FieldTooLong`, whatever the table holds.
pub proof fn lemma_username_too_long(num_rows: nat, row: RowView)
    requires
        row.is_complete(),
        encode_utf8(row.username.unwrap()).len() > USERNAME_MAX,
    ensures
        insert_result(num_rows, row) == Err::<(), InsertError>(
            InsertError::Codec(CodecError::FieldTooLong),
        ),
{
}

/// Up to `TABLE_MAX_PAGES` pages, each allocated when a row is first written
/// to it, and the count of rows stored so far.
pub struct Table {
    num_rows: u64,
    pages: Vec<Option<Page>>,
}

impl View for Table {
    /// The rows the table holds, in the order they were inserted.
    type V = Seq<RowView>;

    closed spec fn view(&self) -> Seq<RowView> {
        Seq::new(self.num_rows as nat, |n: int| decode_spec(self.stored_block(n)))
    }
}

impl Table {
    /// The bytes of the slot that logical row `n` lives in.
    pub closed spec fn stored_block(&self, n: int) -> Seq<u8> {
        self.pages@[page_of(n)]->Some_0@[slot_of(n)]
    }

    pub closed spec fn wf(&self) -> bool {
        &&& self.pages@.len() == TABLE_MAX_PAGES
        &&& self.num_rows <= TABLE_MAX_ROWS
        &&& forall|p: int|
            0 <= p < TABLE_MAX_PAGES ==> (#[trigger] self.pages@[p] is Some <==> p
                * ROWS_PER_PAGE < self.num_rows)
        &&& forall|p: int|
            0 <= p < TABLE_MAX_PAGES && #[trigger] self.pages@[p] is Some ==> self.pages@[p]->Some_0.wf()
    }

    /// An empty table, with no page allocated.
    pub fn new() -> (r: Table)
        ensures
            r.wf(),
            r@ == Seq::<RowView>::empty(),
    {
        let mut pages: Vec<Option<Page>> = Vec::new();
        let mut k: usize = 0;
        while k < TABLE_MAX_PAGES
            invariant
                k <= TABLE_MAX_PAGES,
                pages@.len() == k,
                forall|p: int| 0 <= p < k ==> pages@[p] is None,
            decreases TABLE_MAX_PAGES - k,
        {
            pages.push(None);
            k = k + 1;
        }
        let r = Table { num_rows: 0, pages };
        assert(r@ =~= Seq::<RowView>::empty());
        r
    }

    /// The number of rows stored.
    pub fn num_rows(&self) -> (r: u64)
        requires
            self.wf(),
        ensures
            r == self@.len(),
    {
        self.num_rows
    }

    /// Stores `row` after the rows already held. Fails with the codec's error
    /// when the row does not encode, and otherwise with `TableFull` when the
    /// table holds `TABLE_MAX_ROWS` rows; on failure the table is left as it
    /// was.
    pub fn insert_row(&mut self, row: &Row) -> (r: Result<(), InsertError>)
        requires
            old(self).wf(),
        ensures
            final(self).wf(),
            r == insert_result(old(self)@.len(), row@),
            r is Ok ==> final(self)@ == old(self)@.push(stored(row@)),
            r is Ok ==> final(self).stored_block(old(self)@.len() as int) == encode_spec(row@)->Ok_0,
            r is Ok ==> forall|m: int|
                0 <= m < old(self)@.len() ==> #[trigger] final(self).stored_block(m) == old(
                    self,
                ).stored_block(m),
            r is Err ==> *final(self) == *old(self),
    {
        proof {
            lemma_layout_values();
        }
        let block = match encode(row) {
            Ok(b) => b,
            Err(e) => {
                return Err(InsertError::Codec(e));
            },
        };
        if self.num_rows >= TABLE_MAX_ROWS as u64 {
            return Err(InsertError::TableFull);
        }
        let addr = row_slot(self.num_rows);
        let p = addr.page_idx as usize;
        let ghost n = self.num_rows as int;
        let ghost before = *self;
        proof {
            lemma_address(n);
        }
        let mut taken: Option<Page> = None;
        std::mem::swap(&mut self.pages[p], &mut taken);
        proof {
            assert(taken == before.pages@[p as int]);
        }
        let mut page = match taken {
            Some(pg) => pg,
            None => Page::new(),
        };
        let ghost unwritten = page;
        proof {
            unwritten.lemma_shape();
        }
        let written = page.write_slot(addr.slot_idx as usize, block.as_slice());
        proof {
            assert(written is Ok);
        }
        self.pages.set(p, Some(page));
        self.num_rows = self.num_rows + 1;
        proof {
            assert forall|q: int| 0 <= q < TABLE_MAX_PAGES implies (#[trigger] self.pages@[q] is Some
                <==> q * ROWS_PER_PAGE < self.num_rows) by {
                if q != p {
                    if q * ROWS_PER_PAGE == n {
                        lemma_addressing_onto(q, 0);
                    }
                }
            }
            assert forall|m: int| 0 <= m < n implies self.stored_block(m) == before.stored_block(m) by {
                lemma_address(m);
                if page_of(m) == p {
                    lemma_addressing_injective(m, n);
                    assert(before.pages@[p as int] is Some);
                    assert(unwritten == before.pages@[p as int]->Some_0);
                    assert(self.pages@[p as int]->Some_0@ == unwritten@.update(
                        slot_of(n),
                        block@,
                    ));
                    assert(self.pages@[p as int]->Some_0@[slot_of(m)] == unwritten@[slot_of(m)]);
                } else {
                    assert(self.pages@[page_of(m)] == before.pages@[page_of(m)]);
                }
            }
            assert(self.stored_block(n) == block@);
            assert(encode_spec(row@) == Ok::<Seq<u8>, CodecError>(block@));
            assert(decode_spec(self.stored_block(n)) == stored(row@));
            assert(self@ =~= before@.push(stored(row@)));
        }
        Ok(())
    }

    /// Every stored row, decoded, in the order the rows were inserted. Each
    /// call reads the rows stored at that time.
    pub fn select_all(&self) -> (r: Vec<Row>)
        requires
            self.wf(),
        ensures
            r@.len() == self@.len(),
            forall|i: int| 0 <= i < r@.len() ==> (#[trigger] r@[i])@ == self@[i],
    {
        let mut out: Vec<Row> = Vec::new();
        let mut n: u64 = 0;
        while n < self.num_rows
            invariant
                self.wf(),
                n <= self.num_rows,
                out@.len() == n,
                forall|i: int| 0 <= i < n ==> (#[trigger] out@[i])@ == self@[i],
            decreases self.num_rows - n,
        {
            let addr = row_slot(n);
            proof {
                lemma_address(n as int);
                lemma_layout_values();
            }
            match &self.pages[addr.page_idx as usize] {
                Some(page) => {
                    match page.read_slot(addr.slot_idx as usize) {
                        Ok(block) => {
                            proof {
                                page.lemma_shape();
                            }
                            out.push(decode(block.as_slice()));
                        },
                        Err(_) => {
                            proof {
                                assert(false);
                            }
                        },
                    }
                },
                None => {
                    proof {
                        assert(false);
                    }
                },
            }
            n = n + 1;
        }
        out
    }

    /// Whether page `page_idx` has been allocated.
    pub fn has_page(&self, page_idx: usize) -> (r: bool)
        requires
            self.wf(),
        ensures
            r == (page_idx < TABLE_MAX_PAGES && page_idx * ROWS_PER_PAGE < self@.len()),
    {
        page_idx < TABLE_MAX_PAGES && self.pages[page_idx].is_some()
    }

    /// The bytes of slot `slot_idx` of page `page_idx`, where that page has
    /// been allocated and the slot exists.
    pub fn page_slot(&self, page_idx: usize, slot_idx: usize) -> (r: Option<Vec<u8>>)
        requires
            self.wf(),
        ensures
            r is Some <==> page_idx < TABLE_MAX_PAGES && page_idx * ROWS_PER_PAGE < self@.len()
                && slot_idx < ROWS_PER_PAGE,
            r is Some && page_idx * ROWS_PER_PAGE + slot_idx < self@.len() ==> r->Some_0@
                == self.stored_block(page_idx * ROWS_PER_PAGE + slot_idx),
            r is Some && page_idx * ROWS_PER_PAGE + slot_idx < self@.len() ==> decode_spec(
                r->Some_0@,
            ) == self@[page_idx * ROWS_PER_PAGE + slot_idx],
    {
        if page_idx < TABLE_MAX_PAGES && slot_idx < ROWS_PER_PAGE {
            proof {
                lemma_addressing_onto(page_idx as int, slot_idx as int);
            }
        }
        if page_idx >= TABLE_MAX_PAGES {
            return None;
        }
        match &self.pages[page_idx] {
            Some(page) => {
                match page.read_slot(slot_idx) {
                    Ok(block) => Some(block),
                    Err(_) => None,
                }
            },
            None => None,
        }
    }
}

} // verus!
