//! Where the user ids that may talk to a bot come from.

use std::collections::HashSet;
use std::sync::Arc;

use vstd::prelude::*;

verus! {

/// Provides the users that may talk to a bot. It is asked once per incoming
/// message; a source may hand out another set each time.
pub trait AllowListSource: Send + Sync {
    /// The users that are allowed now.
    fn allowed_users(&self) -> Arc<HashSet<String>>;
}

/// A fixed set of users.
#[derive(Debug)]
pub struct StaticAllowList {
    users: Arc<HashSet<String>>,
}

impl StaticAllowList {
    pub closed spec fn users(&self) -> HashSet<String> {
        *self.users
    }

    pub fn new(users: HashSet<String>) -> (r: Self)
        ensures
            r.users() == users,
    {
        StaticAllowList { users: Arc::new(users) }
    }
}

impl AllowListSource for StaticAllowList {
    fn allowed_users(&self) -> (r: Arc<HashSet<String>>)
        ensures
            *r == self.users(),
    {
        Arc::clone(&self.users)
    }
}

} // verus!
