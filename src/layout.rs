use vstd::prelude::*;

verus! {

/// Bytes taken by a row's id (a little-endian `u64`).
pub const ID_SIZE: usize = 8;

/// Longest username, in UTF-8 bytes; also the width of its NUL-padded field.
pub const USERNAME_MAX: usize = 32;

/// Longest email, in UTF-8 bytes; also the width of its NUL-padded field.
pub const EMAIL_MAX: usize = 255;

/// Offset of the id field within an encoded row.
pub const ID_OFFSET: usize = 0;

/// Offset of the username field within an encoded row.
pub const USERNAME_OFFSET: usize = ID_OFFSET + ID_SIZE;

/// Offset of the email field within an encoded row.
pub const EMAIL_OFFSET: usize = USERNAME_OFFSET + USERNAME_MAX;

/// Bytes taken by one encoded row: id, then username, then email.
pub const ROW_SIZE: usize = ID_SIZE + USERNAME_MAX + EMAIL_MAX;

/// Bytes in one page.
pub const PAGE_SIZE: usize = 4096;

/// Most pages a table can hold.
pub const TABLE_MAX_PAGES: usize = 100;

/// Row slots in one page.
pub const ROWS_PER_PAGE: usize = PAGE_SIZE / ROW_SIZE;

/// Most rows a table can hold.
pub const TABLE_MAX_ROWS: usize = ROWS_PER_PAGE * TABLE_MAX_PAGES;

/// The values the layout constants come to.
pub proof fn lemma_layout_values()
    ensures
        USERNAME_OFFSET == 8,
        EMAIL_OFFSET == 40,
        ROW_SIZE == 295,
        ROWS_PER_PAGE == 13,
        TABLE_MAX_ROWS == 1300,
        ROWS_PER_PAGE * ROW_SIZE <= PAGE_SIZE,
{
}

} // verus!
