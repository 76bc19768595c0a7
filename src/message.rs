use vstd::prelude::*;
use vstd::utf8::{encode_utf8, encode_utf8_decode_utf8};
use crate::object::{InfoList, Str, Value};

verus! {

/// The events that the relay announces under names of its own.
#[derive(Debug, Clone, Copy, PartialEq, Eq)]
pub enum Event {
    BufferOpened,
    BufferTypeChanged,
    BufferMoved,
    BufferMerged,
    BufferUnmerged,
    BufferHidden,
    BufferUnhidden,
    BufferRenamed,
    BufferTitleChanged,
    BufferLocalVarAdded,
    BufferLocalVarChanged,
    BufferLocalVarRemoved,
    BufferClosing,
    BufferCleared,
    BufferLineAdded,
    Nicklist,
    NicklistDiff,
    Upgrade,
    UpgradeEnded,
}

/// What the leading identifier of a message names.
#[derive(Debug, PartialEq, Eq)]
pub enum Id {
    Pong,
    Event(Event),
    Other(String),
}

/// The event that a message identifier names, if any.
pub open spec fn event_named(s: Seq<char>) -> Option<Event> {
    if s == "_buffer_opened"@ {
        Some(Event::BufferOpened)
    } else if s == "_buffer_type_changed"@ {
        Some(Event::BufferTypeChanged)
    } else if s == "_buffer_moved"@ {
        Some(Event::BufferMoved)
    } else if s == "_buffer_merged"@ {
        Some(Event::BufferMerged)
    } else if s == "_buffer_unmerged"@ {
        Some(Event::BufferUnmerged)
    } else if s == "_buffer_hidden"@ {
        Some(Event::BufferHidden)
    } else if s == "_buffer_unhidden"@ {
        Some(Event::BufferUnhidden)
    } else if s == "_buffer_renamed"@ {
        Some(Event::BufferRenamed)
    } else if s == "_buffer_title_changed"@ {
        Some(Event::BufferTitleChanged)
    } else if s == "_buffer_localvar_added"@ {
        Some(Event::BufferLocalVarAdded)
    } else if s == "_buffer_localvar_changed"@ {
        Some(Event::BufferLocalVarChanged)
    } else if s == "_buffer_localvar_removed"@ {
        Some(Event::BufferLocalVarRemoved)
    } else if s == "_buffer_closing"@ {
        Some(Event::BufferClosing)
    } else if s == "_buffer_cleared"@ {
        Some(Event::BufferCleared)
    } else if s == "_buffer_line_added"@ {
        Some(Event::BufferLineAdded)
    } else if s == "_nicklist"@ {
        Some(Event::Nicklist)
    } else if s == "_nicklist_diff"@ {
        Some(Event::NicklistDiff)
    } else if s == "_upgrade"@ {
        Some(Event::Upgrade)
    } else if s == "_upgrade_ended"@ {
        Some(Event::UpgradeEnded)
    } else {
        None
    }
}

/// The identifier under which pong replies arrive.
pub open spec fn pong_name() -> Seq<char> {
    "_pong"@
}

pub(crate) fn same_text(a: &str, b: &str) -> (r: bool)
    ensures
        r == (a@ == b@),
{
    proof {
        encode_utf8_decode_utf8(a@);
        encode_utf8_decode_utf8(b@);
    }
    let x = a.as_bytes();
    let y = b.as_bytes();
    if x.len() != y.len() {
        return false;
    }
    let mut i: usize = 0;
    while i < x.len()
        invariant
            x@.len() == y@.len(),
            x@ == encode_utf8(a@),
            y@ == encode_utf8(b@),
            i <= x@.len(),
            forall|j: int| 0 <= j < i ==> x@[j] == y@[j],
        decreases x@.len() - i,
    {
        if x[i] != y[i] {
            return false;
        }
        i = i + 1;
    }
    assert(x@ =~= y@);
    true
}

impl Event {
    /// The event that the identifier `s` names, if any.
    pub fn from_name(s: &str) -> (r: Option<Event>)
        ensures
            r == event_named(s@),
    {
        if same_text(s, "_buffer_opened") {
            Some(Event::BufferOpened)
        } else if same_text(s, "_buffer_type_changed") {
            Some(Event::BufferTypeChanged)
        } else if same_text(s, "_buffer_moved") {
            Some(Event::BufferMoved)
        } else if same_text(s, "_buffer_merged") {
            Some(Event::BufferMerged)
        } else if same_text(s, "_buffer_unmerged") {
            Some(Event::BufferUnmerged)
        } else if same_text(s, "_buffer_hidden") {
            Some(Event::BufferHidden)
        } else if same_text(s, "_buffer_unhidden") {
            Some(Event::BufferUnhidden)
        } else if same_text(s, "_buffer_renamed") {
            Some(Event::BufferRenamed)
        } else if same_text(s, "_buffer_title_changed") {
            Some(Event::BufferTitleChanged)
        } else if same_text(s, "_buffer_localvar_added") {
            Some(Event::BufferLocalVarAdded)
        } else if same_text(s, "_buffer_localvar_changed") {
            Some(Event::BufferLocalVarChanged)
        } else if same_text(s, "_buffer_localvar_removed") {
            Some(Event::BufferLocalVarRemoved)
        } else if same_text(s, "_buffer_closing") {
            Some(Event::BufferClosing)
        } else if same_text(s, "_buffer_cleared") {
            Some(Event::BufferCleared)
        } else if same_text(s, "_buffer_line_added") {
            Some(Event::BufferLineAdded)
        } else if same_text(s, "_nicklist") {
            Some(Event::Nicklist)
        } else if same_text(s, "_nicklist_diff") {
            Some(Event::NicklistDiff)
        } else if same_text(s, "_upgrade") {
            Some(Event::Upgrade)
        } else if same_text(s, "_upgrade_ended") {
            Some(Event::UpgradeEnded)
        } else {
            None
        }
    }
}

impl Id {
    /// Reads a message identifier.
    pub fn from_name(s: &str) -> (r: Id)
        ensures
            s@ == pong_name() ==> r == Id::Pong,
            s@ != pong_name() && event_named(s@) is Some ==> r == Id::Event(
                event_named(s@)->0,
            ),
            s@ != pong_name() && event_named(s@) is None ==> (r matches Id::Other(t) && t@ == s@),
    {
        if same_text(s, "_pong") {
            Id::Pong
        } else {
            match Event::from_name(s) {
                Some(e) => Id::Event(e),
                None => Id::Other(s.to_owned()),
            }
        }
    }
}

/// The payload of a pong: the text of the ping that it answers.
#[derive(Debug)]
pub struct Pong(pub Str);

/// A decoded reply.
#[derive(Debug)]
pub enum Message {
    Pong(Pong),
    InfoList(InfoList),
}

impl View for Message {
    type V = Value;

    open spec fn view(&self) -> Value {
        match self {
            Message::Pong(Pong(s)) => Value::Str(s@),
            Message::InfoList(l) => Value::InfoList(l@.0, l@.1),
        }
    }
}

} // verus!
