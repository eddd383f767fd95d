//! Permission-gated listing of a group's roster.
//!
//! A roster request pairs every membership record of a group with the
//! user record that carries the same identifier, and can leave out the
//! pairs whose user is offline. The crate holds the decisions of such a
//! request and the pairing itself; reading the records from storage is the
//! caller's part.
//!
//! - [`fetch`] decides how a request goes on after each reply: who may see
//!   the roster, what is asked next, and how the request ends.
//! - [`pairing`] puts members and users side by side. Members and users are
//!   paired by position after each list is sorted, which is right exactly
//!   where both lists name the same users. [`correlate`] leaves out the
//!   offline users only where that holds, so that it drops no member for
//!   another user's sake, and hands out both lists whole where nobody is
//!   left out. [`correlate_checked`] asks for matching lists in either
//!   case, and [`RosterView::is_paired`] tells of a roster whether its
//!   pairs are right.
//! - [`sorting`] and [`ident`] sort records by identifier.
//! - [`record`] and [`error`] hold the records and the errors.

pub mod error;
pub mod fetch;
pub mod ident;
pub mod pairing;
pub mod record;
pub mod sorting;

pub use error::{RosterError, StorageError};
pub use fetch::{begin, fetch_all, user_ids, FetchState, Query, Reply, Stage, Step};
pub use ident::precedes_or_equals;
pub use pairing::{correlate, correlate_checked, RosterView};
pub use record::{Keyed, MembershipRecord, UserRecord};
pub use sorting::sort_by_key;
