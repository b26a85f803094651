use vstd::prelude::*;

verus! {

/// What a logged-in session stores about its user: the account name, the
/// login flag, the last login time, and the user's root directory, to which
/// the path sandbox confines every file operation.
#[derive(Debug)]
pub struct UserSessionData {
    pub username: String,
    pub is_login: bool,
    pub last_login: u64,
    pub user_root: String,
}

impl UserSessionData {
    /// The session data of a user who just logged in.
    pub fn new(username: &str, user_root: &str) -> (r: UserSessionData)
        ensures
            r.username@ == username@,
            r.is_login == true,
            r.last_login == 0,
            r.user_root@ == user_root@,
    {
        UserSessionData {
            is_login: true,
            username: username.to_owned(),
            last_login: 0,
            user_root: user_root.to_owned(),
        }
    }
}

} // verus!
