//! The command mapper: an array frame of bulk strings becomes one of the
//! four store commands. The verb is the first element's bytes, case
//! sensitive; arity is exact; every argument must be a bulk frame.

use vstd::prelude::*;

use crate::frame::bytes_to_string_lossy;
use crate::frame::frame_views;
use crate::frame::lemma_frame_views_index;
use crate::frame::text_of;
use crate::frame::Frame;
use crate::frame::FrameV;
use crate::index::bytes_eq;

verus! {

/// One store command, its arguments carried as UTF-8 text.
#[derive(Debug, PartialEq)]
pub enum Command {
    Get { key: String },
    Put { key: String, value: String },
    Delete { key: String },
    Update { key: String, value: String },
}

/// The mathematical model of a command.
pub enum CommandV {
    Get { key: Seq<char> },
    Put { key: Seq<char>, value: Seq<char> },
    Delete { key: Seq<char> },
    Update { key: Seq<char>, value: Seq<char> },
}

impl View for Command {
    type V = CommandV;

    open spec fn view(&self) -> CommandV {
        match self {
            Command::Get { key } => CommandV::Get { key: key@ },
            Command::Put { key, value } => CommandV::Put { key: key@, value: value@ },
            Command::Delete { key } => CommandV::Delete { key: key@ },
            Command::Update { key, value } => CommandV::Update { key: key@, value: value@ },
        }
    }
}

impl CommandV {
    /// The command's key.
    pub open spec fn key(self) -> Seq<char> {
        match self {
            CommandV::Get { key } => key,
            CommandV::Put { key, .. } => key,
            CommandV::Delete { key } => key,
            CommandV::Update { key, .. } => key,
        }
    }

    /// The command's value, for the commands that carry one.
    pub open spec fn value(self) -> Option<Seq<char>> {
        match self {
            CommandV::Get { .. } => None,
            CommandV::Put { value, .. } => Some(value),
            CommandV::Delete { .. } => None,
            CommandV::Update { value, .. } => Some(value),
        }
    }
}

/// Why a frame is not a command: not an array of bulk strings with a known
/// verb, or a known verb with the wrong shape of arguments.
#[derive(Debug, Clone, Copy, PartialEq, Eq, Structural)]
pub enum CommandError {
    /// A known verb with the wrong arity or a non-bulk argument.
    InvalidData,
    /// Not an array, an empty array, or an unknown verb.
    InvalidInput,
}

/// The command a frame denotes, if any.
pub open spec fn command_of(f: FrameV) -> Result<CommandV, CommandError> {
    match f {
        FrameV::Array(items) => {
            if items.len() == 0 || !(items[0] is Bulk) {
                Err(CommandError::InvalidInput)
            } else {
                let verb = items[0]->Bulk_0;
                if verb == seq![103u8, 101u8, 116u8] {
                    if items.len() == 2 && items[1] is Bulk {
                        Ok(CommandV::Get { key: text_of(items[1]->Bulk_0) })
                    } else {
                        Err(CommandError::InvalidData)
                    }
                } else if verb == seq![115u8, 101u8, 116u8] {
                    if items.len() == 3 && items[1] is Bulk && items[2] is Bulk {
                        Ok(
                            CommandV::Put {
                                key: text_of(items[1]->Bulk_0),
                                value: text_of(items[2]->Bulk_0),
                            },
                        )
                    } else {
                        Err(CommandError::InvalidData)
                    }
                } else if verb == seq![100u8, 101u8, 108u8, 101u8, 116u8, 101u8] {
                    if items.len() == 2 && items[1] is Bulk {
                        Ok(CommandV::Delete { key: text_of(items[1]->Bulk_0) })
                    } else {
                        Err(CommandError::InvalidData)
                    }
                } else if verb == seq![117u8, 112u8, 100u8, 97u8, 116u8, 101u8] {
                    if items.len() == 3 && items[1] is Bulk && items[2] is Bulk {
                        Ok(
                            CommandV::Update {
                                key: text_of(items[1]->Bulk_0),
                                value: text_of(items[2]->Bulk_0),
                            },
                        )
                    } else {
                        Err(CommandError::InvalidData)
                    }
                } else {
                    Err(CommandError::InvalidInput)
                }
            }
        },
        _ => Err(CommandError::InvalidInput),
    }
}

impl Command {
    /// Interpret a frame as a command.
    pub fn from_frame(frame: &Frame) -> (r: Result<Command, CommandError>)
        ensures
            match r {
                Ok(c) => command_of(frame@) is Ok && c@ == command_of(frame@)->Ok_0,
                Err(e) => command_of(frame@) == Result::<CommandV, CommandError>::Err(e),
            },
    {
        match frame {
            Frame::Array(items) => {
                proof {
                    lemma_frame_views_index(items@);
                    assert(frame@ == FrameV::Array(frame_views(items@)));
                }
                if items.len() == 0 {
                    return Err(CommandError::InvalidInput);
                }
                let verb: &Vec<u8> = match &items[0] {
                    Frame::Bulk(b) => b,
                    _ => {
                        return Err(CommandError::InvalidInput);
                    },
                };
                let g = vec![103u8, 101u8, 116u8];
                let s = vec![115u8, 101u8, 116u8];
                let d = vec![100u8, 101u8, 108u8, 101u8, 116u8, 101u8];
                let u = vec![117u8, 112u8, 100u8, 97u8, 116u8, 101u8];
                proof {
                    assert(g@ =~= seq![103u8, 101u8, 116u8]);
                    assert(s@ =~= seq![115u8, 101u8, 116u8]);
                    assert(d@ =~= seq![100u8, 101u8, 108u8, 101u8, 116u8, 101u8]);
                    assert(u@ =~= seq![117u8, 112u8, 100u8, 97u8, 116u8, 101u8]);
                }
                if bytes_eq(verb, &g) {
                    if items.len() == 2 {
                        if let Frame::Bulk(kb) = &items[1] {
                            let key = bytes_to_string_lossy(kb);
                            return Ok(Command::Get { key });
                        }
                    }
                    Err(CommandError::InvalidData)
                } else if bytes_eq(verb, &s) {
                    if items.len() == 3 {
                        if let Frame::Bulk(kb) = &items[1] {
                            if let Frame::Bulk(vb) = &items[2] {
                                let key = bytes_to_string_lossy(kb);
                                let value = bytes_to_string_lossy(vb);
                                return Ok(Command::Put { key, value });
                            }
                        }
                    }
                    Err(CommandError::InvalidData)
                } else if bytes_eq(verb, &d) {
                    if items.len() == 2 {
                        if let Frame::Bulk(kb) = &items[1] {
                            let key = bytes_to_string_lossy(kb);
                            return Ok(Command::Delete { key });
                        }
                    }
                    Err(CommandError::InvalidData)
                } else if bytes_eq(verb, &u) {
                    if items.len() == 3 {
                        if let Frame::Bulk(kb) = &items[1] {
                            if let Frame::Bulk(vb) = &items[2] {
                                let key = bytes_to_string_lossy(kb);
                                let value = bytes_to_string_lossy(vb);
                                return Ok(Command::Update { key, value });
                            }
                        }
                    }
                    Err(CommandError::InvalidData)
                } else {
                    Err(CommandError::InvalidInput)
                }
            },
            _ => Err(CommandError::InvalidInput),
        }
    }

    /// The key every command names.
    pub fn key(&self) -> (r: Option<String>)
        ensures
            r is Some,
            r->0@ == self@.key(),
    {
        match self {
            Command::Get { key } => Some(key.clone()),
            Command::Delete { key } => Some(key.clone()),
            Command::Put { key, value: _ } => Some(key.clone()),
            Command::Update { key, value: _ } => Some(key.clone()),
        }
    }

    /// The value, for the commands that carry one.
    pub fn value(&self) -> (r: Option<String>)
        ensures
            match self@.value() {
                Some(v) => r is Some && r->0@ == v,
                None => r is None,
            },
    {
        match self {
            Command::Get { key: _ } => None,
            Command::Delete { key: _ } => None,
            Command::Put { key: _, value } => Some(value.clone()),
            Command::Update { key: _, value } => Some(value.clone()),
        }
    }
}

} // verus!
