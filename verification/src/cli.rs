//! The arguments of the command-line client.

use crate::frame::User;
use vstd::prelude::*;

verus! {

/// What the command-line client is told when it is started.
#[derive(Debug)]
pub struct Cli {
    /// The name to appear under.
    pub user: String,
    /// The colour to write the name in.
    pub color: Option<String>,
    /// The channel to write to.
    pub room: Option<String>,
}

/// The picture of a user of the command-line client.
pub open spec fn cli_avatar() -> Seq<char> {
    "https://images.unsplash.com/photo-1675456110416-53a9df455bae?ixlib=rb-4.0.3&ixid=MnwxMjA3fDB8MHxwaG90by1wYWdlfHx8fGVufDB8fHx8&auto=format&fit=crop&w=687&q=80"@
}

impl Cli {
    /// The user that the arguments describe: the name and the colour as
    /// given, and the client's picture.
    pub fn identity(&self) -> (user: User)
        ensures
            user@.username == self.user@,
            user@.color == self.color.deep_view(),
            user@.avatar == Some(cli_avatar()),
    {
        User {
            username: self.user.clone(),
            color: self.color.clone(),
            avatar: Some(
                String::from_str(
                    "https://images.unsplash.com/photo-1675456110416-53a9df455bae?ixlib=rb-4.0.3&ixid=MnwxMjA3fDB8MHxwaG90by1wYWdlfHx8fGVufDB8fHx8&auto=format&fit=crop&w=687&q=80",
                ),
            ),
        }
    }
}

} // verus!
