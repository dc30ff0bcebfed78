//! The one message that the user interface shows at a time.

use vstd::prelude::*;
use crate::debug_id::DebugId;
use crate::error::{Error, ErrorKind};

pub mod info;
pub mod warning;

verus! {

/// A message to the user: none, good news, a warning or an error. All but
/// the first say where they are shown.
#[derive(Debug, Clone)]
pub enum UserInfo {
    Empty,
    Info(String, DebugId),
    Waring(String, DebugId),
    Error(Error),
}

/// A message to the user, as mathematical values.
pub enum UserInfoView {
    Empty,
    Info(Seq<char>, DebugId),
    Waring(Seq<char>, DebugId),
    Error((ErrorKind, DebugId)),
}

impl View for UserInfo {
    type V = UserInfoView;

    open spec fn view(&self) -> UserInfoView {
        match self {
            UserInfo::Empty => UserInfoView::Empty,
            UserInfo::Info(text, id) => UserInfoView::Info(text@, *id),
            UserInfo::Waring(text, id) => UserInfoView::Waring(text@, *id),
            UserInfo::Error(error) => UserInfoView::Error(error@),
        }
    }
}

impl Default for UserInfo {
    fn default() -> (info: Self)
        ensures
            info is Empty,
    {
        UserInfo::Empty
    }
}

impl UserInfo {
    /// The place in the user interface at which the message is shown.
    pub open spec fn place(self) -> Option<DebugId> {
        match self {
            UserInfo::Empty => None,
            UserInfo::Info(_, id) => Some(id),
            UserInfo::Waring(_, id) => Some(id),
            UserInfo::Error(error) => Some(error@.1),
        }
    }

    /// The place in the user interface at which the message is shown, if
    /// there is a message.
    pub fn id(&self) -> (id: Option<DebugId>)
        ensures
            id == self.place(),
    {
        match self {
            UserInfo::Empty => None,
            UserInfo::Info(_, id) => Some(*id),
            UserInfo::Waring(_, id) => Some(*id),
            UserInfo::Error(error) => Some(error.id()),
        }
    }
}

} // verus!
