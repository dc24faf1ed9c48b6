//! User sessions as plain values, and the window of rows that a page of
//! sessions covers.

use vstd::prelude::*;

verus! {

/// The largest page size that the offset of a page is computed with.
pub const MAX_PAGE_SIZE: u16 = 100;

/// One stored session of a user. Times are microseconds since the Unix
/// epoch.
#[derive(Debug, PartialEq, Eq)]
pub struct UserSession {
    pub id: i32,
    pub user_id: i32,
    pub refresh_token: String,
    pub device: Option<String>,
    pub created_at: i64,
    pub updated_at: i64,
}

/// The columns of a session that can be written.
#[derive(Debug, PartialEq, Eq)]
pub struct UserSessionChangeset {
    pub user_id: i32,
    pub refresh_token: String,
    pub device: Option<String>,
}

/// Which page of a listing is asked for, counted from zero, and how many
/// rows a page holds.
#[derive(Clone, Copy, Debug, PartialEq, Eq)]
pub struct PaginationParams {
    pub page: i64,
    pub page_size: i64,
}

/// The rows that a query for one page asks for.
#[derive(Clone, Copy, Debug, PartialEq, Eq)]
pub struct Window {
    pub limit: i64,
    pub offset: i64,
}

fn copy_device(device: &Option<String>) -> (r: Option<String>)
    ensures
        match (r, *device) {
            (Some(a), Some(b)) => a@ == b@,
            (None, None) => true,
            _ => false,
        },
{
    match device {
        Some(name) => Some(name.clone()),
        None => None,
    }
}

impl Clone for UserSession {
    fn clone(&self) -> (r: Self)
        ensures
            r.id == self.id,
            r.user_id == self.user_id,
            r.refresh_token@ == self.refresh_token@,
            r.device is Some == self.device is Some,
            r.created_at == self.created_at,
            r.updated_at == self.updated_at,
    {
        UserSession {
            id: self.id,
            user_id: self.user_id,
            refresh_token: self.refresh_token.clone(),
            device: copy_device(&self.device),
            created_at: self.created_at,
            updated_at: self.updated_at,
        }
    }
}

impl Clone for UserSessionChangeset {
    fn clone(&self) -> (r: Self)
        ensures
            r.user_id == self.user_id,
            r.refresh_token@ == self.refresh_token@,
            r.device is Some == self.device is Some,
    {
        UserSessionChangeset {
            user_id: self.user_id,
            refresh_token: self.refresh_token.clone(),
            device: copy_device(&self.device),
        }
    }
}

/// The page size that offsets are computed with: the page size, but no more
/// than `MAX_PAGE_SIZE`.
pub open spec fn capped_size(page_size: i64) -> int {
    if page_size <= MAX_PAGE_SIZE {
        page_size as int
    } else {
        MAX_PAGE_SIZE as int
    }
}

/// The number of rows before the page.
pub open spec fn offset_of(p: PaginationParams) -> int {
    p.page * capped_size(p.page_size)
}

impl PaginationParams {
    /// The window of the page: as many rows as the page size says, after
    /// `page` pages of the capped size. There is none where the offset does
    /// not fit the integer type.
    pub fn window(&self) -> (r: Option<Window>)
        ensures
            match r {
                Some(w) => w.limit == self.page_size && w.offset == offset_of(*self),
                None => !(i64::MIN <= offset_of(*self) <= i64::MAX),
            },
    {
        let size: i64 = if self.page_size <= MAX_PAGE_SIZE as i64 {
            self.page_size
        } else {
            MAX_PAGE_SIZE as i64
        };
        match self.page.checked_mul(size) {
            Some(offset) => Some(Window { limit: self.page_size, offset }),
            None => None,
        }
    }
}

} // verus!
