//! The domain objects the service exchanges with its collaborators.
//!
//! The CRUD layer persists and serves these; the engine itself only
//! ever learns group ids and user ids from them.  They are plain data.

use vstd::prelude::*;

verus! {

pub type GroupId = i32;

pub type UserId = String;

pub type CurrencyId = i32;

pub type ExpenseId = i32;

/// Query parameters of the login redirect.
#[derive(Debug)]
pub struct LoginData {
    pub redirect: Option<String>,
}

/// Query parameters the OAuth provider calls back with.
#[derive(Debug)]
pub struct AuthData {
    pub code: Option<String>,
    pub error: Option<String>,
    pub state: Option<String>,
}

/// The form posted to the OAuth token endpoint.
pub struct TokenForm {
    pub code: String,
    pub client_id: String,
    pub client_secret: String,
    pub redirect_uri: String,
    pub grant_type: String,
}

/// What the OAuth token endpoint answers.
#[derive(Debug)]
pub struct TokenResponse {
    pub id_token: Option<String>,
    pub access_token: Option<String>,
    pub expires_in: Option<i64>,
    pub token_type: Option<String>,
    pub scope: Option<String>,
    pub refresh_token: Option<String>,
}

/// The identity a validated request carries.
#[derive(Clone)]
pub struct IdToken {
    pub email: String,
    pub name: String,
}

#[derive(Clone, Copy, Debug, PartialEq, Eq, Structural)]
pub enum NotificationStatus {
    New,
    Read,
    Archived,
}

#[derive(Clone, Copy, Debug, PartialEq, Eq, Structural)]
pub enum MembershipStatus {
    Pending,
    Joined,
    Rejected,
}

#[derive(Clone, Copy, Debug, PartialEq, Eq, Structural)]
pub enum UserStatus {
    Invited,
    Active,
    Inactive,
}

/// What a notification is about.
#[derive(Clone, Copy, Debug, PartialEq, Eq, Structural)]
pub enum NotificationKind {
    Invite { group_id: GroupId },
    Payment { expense_id: ExpenseId },
}

/// How a group presents balances.
pub struct BalanceConfig {
    simplified: bool,
}

impl BalanceConfig {
    pub closed spec fn spec_simplified(self) -> bool {
        self.simplified
    }

    pub fn new(simplified: bool) -> (r: BalanceConfig)
        ensures
            r.spec_simplified() == simplified,
    {
        BalanceConfig { simplified }
    }

    pub fn is_simplified(&self) -> (r: bool)
        ensures
            r == self.spec_simplified(),
    {
        self.simplified
    }
}

/// A member's answer to a group invitation.
pub struct MembershipUpdate {
    pub status: MembershipStatus,
}

/// A group membership row as the store keeps it.
pub struct InternalMembership {
    pub user_id: UserId,
    pub group_id: GroupId,
    pub created_by_id: UserId,
}

/// The addresses a member invites into a group.
#[derive(Debug)]
pub struct MembershipInvitation {
    pub emails: Vec<String>,
}

/// A currency the store knows.
pub struct Currency {
    pub id: CurrencyId,
    pub acronym: String,
    pub description: String,
}

/// How an expense is split among members.
#[derive(Clone, Debug)]
pub enum SplitStrategy {
    Equally { payer: UserId, split_between: Vec<UserId> },
    Payment { payer: UserId, recipient: UserId },
}

/// A bulk status change of notifications.
#[derive(Clone, Debug)]
pub struct NotificationsUpdate {
    pub ids: Vec<i32>,
    pub status: NotificationStatus,
}

/// A status change of one notification.
#[derive(Clone, Copy, Debug)]
pub struct NotificationUpdate {
    pub status: NotificationStatus,
}

} // verus!
