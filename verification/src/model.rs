//! Plain data model shared with the HTTP layer around the service.
//!
//! These types carry request and response payloads between the
//! collaborators at the edge of the system and the verified core.  The
//! serialization of these types is the edge's business; the library only
//! fixes their shape and the little arithmetic they own.

use vstd::prelude::*;

verus! {

/// A plain acknowledgement payload.
pub struct MsgResponse {
    pub msg: String,
}

/// A plain error payload.
pub struct ErrorResponse {
    pub msg: String,
}

/// A one-based page selector.
pub struct Pagination {
    pub index: i64,
    pub size: i64,
}

impl Pagination {
    /// Number of entries that precede the selected page: pages are
    /// one-based, and an index at or below one starts at the beginning.
    pub fn skip(&self) -> (r: i64)
        requires
            self.index > i64::MIN,
            i64::MIN <= (self.index - 1) * self.size <= i64::MAX,
        ensures
            r == (self.index - 1) * self.size,
    {
        (self.index - 1) * self.size
    }

    /// Page size clamped below at zero.
    pub fn take(&self) -> (r: i64)
        ensures
            r == if self.size >= 0 { self.size as int } else { 0int },
    {
        if self.size >= 0 {
            self.size
        } else {
            0
        }
    }
}

pub enum UserType {
    Normal,
    Admin,
    SuperAdmin,
}

pub enum UserStatus {
    Available,
    Disabled,
}

pub enum SendEmailCodeFrom {
    Register,
    ChangePwd,
}

pub struct User {
    pub id: i64,
    pub user_type: UserType,
    pub email: String,
    pub status: UserStatus,
    pub name: Option<String>,
    pub mobile: Option<String>,
    pub laston: Option<String>,
    pub created_at: String,
    pub updated_at: Option<String>,
}

/// A user record with every field rendered as display text.
pub struct UserFormatter {
    pub user_type: String,
    pub email: String,
    pub status: String,
    pub name: String,
    pub mobile: String,
    pub laston: String,
    pub created_at: String,
    pub updated_at: String,
}

pub struct SearchedUser {
    pub user: User,
    pub formatter: UserFormatter,
}

pub struct CurrentUser {
    pub id: i64,
    pub user_type: UserType,
    pub email: String,
    pub status: UserStatus,
    pub name: Option<String>,
    pub mobile: Option<String>,
    pub laston: Option<String>,
    pub created_at: String,
    pub updated_at: Option<String>,
    pub expire_at: String,
}

pub struct LoginReq {
    pub email: String,
    pub pwd: String,
}

pub struct SendEmailCodeReq {
    pub email: String,
    pub from: SendEmailCodeFrom,
}

pub struct ChangePasswordReq {
    pub email: String,
    pub code: String,
    pub pwd: String,
}

pub struct LoginDataResponse {
    pub data: String,
}

pub struct CurrentUserResponse {
    pub data: CurrentUser,
}

pub struct UserGetResponse {
    pub data: User,
}

pub struct UserSearchResponse {
    pub data: Vec<SearchedUser>,
    pub total: usize,
}

pub struct SendEmailResponse {
    pub data: usize,
}

pub struct UserUpdateReq {
    pub id: i64,
    pub name: Option<String>,
    pub mobile: Option<String>,
}

pub struct UserUpdateResponse {
    pub data: User,
}

pub struct RegisterReq {
    pub email: String,
    pub pwd: String,
    pub code: String,
    pub name: Option<String>,
    pub mobile: Option<String>,
}

pub struct UserDeleteReq {
    pub ids: Vec<i64>,
}

} // verus!
