//! What an open call asks for, read off its path and flags.

use vstd::prelude::*;
use crate::error::SchemeError;
use crate::model::Role;
use crate::path::{find_value, parse_count, parse_path, parsed_count, path_of, value_of};

verus! {

/// The access flag of a reader.
pub const O_RDONLY: usize = 0x0001_0000;

/// The access flag of a writer.
pub const O_WRONLY: usize = 0x0002_0000;

/// Both access flags.
pub const O_RDWR: usize = 0x0003_0000;

/// The flag that asks for an endpoint to be created.
pub const O_CREAT: usize = 0x0200_0000;

/// The key under which a query gives the number of samples: `buf_sz`.
pub open spec fn buf_sz_key() -> Seq<u8> {
    seq![0x62u8, 0x75u8, 0x66u8, 0x5fu8, 0x73u8, 0x7au8]
}

/// Whether `flags` ask for an endpoint to be created.
pub open spec fn creates(flags: usize) -> bool {
    flags & O_CREAT == O_CREAT
}

/// The role that the access flags choose: a reader owns a sink, a writer a
/// source; both flags or neither choose nothing.
pub open spec fn role_of(flags: usize) -> Option<Role> {
    if flags & O_RDWR == O_RDONLY {
        Some(Role::Sink)
    } else if flags & O_RDWR == O_WRONLY {
        Some(Role::Source)
    } else {
        None
    }
}

/// What an open call asks for.
#[derive(Debug)]
pub enum OpenRequest {
    /// A new endpoint under `name`, with a buffer of `len` samples.
    Create { name: Vec<u8>, role: Role, len: usize },
    /// A new connection to the endpoint under `name`.
    Attach { name: Vec<u8> },
}

/// What an `OpenRequest` holds.
pub enum RequestView {
    Create { name: Seq<u8>, role: Role, len: usize },
    Attach { name: Seq<u8> },
}

impl View for OpenRequest {
    type V = RequestView;

    open spec fn view(&self) -> RequestView {
        match self {
            OpenRequest::Create { name, role, len } => RequestView::Create {
                name: name@,
                role: *role,
                len: *len,
            },
            OpenRequest::Attach { name } => RequestView::Attach { name: name@ },
        }
    }
}

/// What an open call with `path` and `flags` asks for. Creating needs a
/// readable `buf_sz` in the query and access flags that choose a role.
/// Whatever the path cannot be read for, or creating lacks, is `Einval`.
pub open spec fn request_of(path: Seq<u8>, flags: usize) -> Result<RequestView, SchemeError> {
    match path_of(path) {
        None => Err(SchemeError::Einval),
        Some(parsed) => if creates(flags) {
            match value_of(parsed.args, buf_sz_key()) {
                None => Err(SchemeError::Einval),
                Some(text) => match (parsed_count(text), role_of(flags)) {
                    (Some(len), Some(role)) => Ok(
                        RequestView::Create { name: parsed.name, role, len },
                    ),
                    _ => Err(SchemeError::Einval),
                },
            }
        } else {
            Ok(RequestView::Attach { name: parsed.name })
        },
    }
}

/// Reads the role off the access flags.
pub fn decode_role(flags: usize) -> (role: Option<Role>)
    ensures
        role == role_of(flags),
{
    let access = flags & O_RDWR;
    if access == O_RDONLY {
        Some(Role::Sink)
    } else if access == O_WRONLY {
        Some(Role::Source)
    } else {
        None
    }
}

/// Reads what an open call asks for off its path and flags.
pub fn decode_open(path: &[u8], flags: usize) -> (request: Result<OpenRequest, SchemeError>)
    ensures
        match request_of(path@, flags) {
            Ok(asked) => request matches Ok(decoded) && decoded@ == asked,
            Err(error) => request matches Err(e) && e == error,
        },
{
    let parsed = match parse_path(path) {
        Some(parsed) => parsed,
        None => {
            return Err(SchemeError::Einval);
        },
    };
    if flags & O_CREAT != O_CREAT {
        return Ok(OpenRequest::Attach { name: parsed.name });
    }
    let key: Vec<u8> = vec![0x62u8, 0x75u8, 0x66u8, 0x5fu8, 0x73u8, 0x7au8];
    assert(key@ =~= buf_sz_key());
    let len = match find_value(&parsed.args, key.as_slice()) {
        Some(text) => match parse_count(text.as_slice()) {
            Some(len) => len,
            None => {
                return Err(SchemeError::Einval);
            },
        },
        None => {
            return Err(SchemeError::Einval);
        },
    };
    match decode_role(flags) {
        Some(role) => Ok(OpenRequest::Create { name: parsed.name, role, len }),
        None => Err(SchemeError::Einval),
    }
}

} // verus!
