//! Where sockets are.

use crate::text::to_chars;
use vstd::prelude::*;
use vstd::string::StringExecFns;

verus! {

/// Why it cannot be said where a socket is.
#[derive(Debug, PartialEq, Eq, Clone, Copy, Structural)]
pub enum SocketPathError {
    /// `XDG_RUNTIME_DIR` is not set.
    NoRuntimeDir,
    /// `XDG_RUNTIME_DIR` is not absolute.
    RelativeRuntimeDir,
}

/// Whether a path starts at the root.
pub open spec fn absolute(path: Seq<char>) -> bool {
    path.len() > 0 && path[0] == '/'
}

/// A relative path in a directory.
pub open spec fn in_dir(dir: Seq<char>, path: Seq<char>) -> Seq<char> {
    if dir.len() > 0 && dir.last() == '/' {
        dir + path
    } else {
        dir + "/"@ + path
    }
}

/// Where the socket with a name is: at that path if it is absolute, and else in the runtime
/// directory, which has to be absolute.
pub open spec fn socket_path_of(name: Seq<char>, runtime_dir: Option<Seq<char>>) -> Result<
    Seq<char>,
    SocketPathError,
> {
    if absolute(name) {
        Ok(name)
    } else {
        match runtime_dir {
            None => Err(SocketPathError::NoRuntimeDir),
            Some(dir) => if absolute(dir) {
                Ok(in_dir(dir, name))
            } else {
                Err(SocketPathError::RelativeRuntimeDir)
            },
        }
    }
}

/// Whether a path starts at the root.
pub fn is_absolute(path: &str) -> (r: bool)
    ensures
        r == absolute(path@),
{
    let chars = to_chars(path);
    chars.len() > 0 && chars[0] == '/'
}

/// Says where the socket with a name is.
pub fn socket_path(name: &str, runtime_dir: Option<&str>) -> (r: Result<String, SocketPathError>)
    ensures
        match (
            r,
            socket_path_of(
                name@,
                match runtime_dir {
                    Some(dir) => Some(dir@),
                    None => None,
                },
            ),
        ) {
            (Ok(path), Ok(v)) => path@ == v,
            (Err(e), Err(f)) => e == f,
            _ => false,
        },
{
    if is_absolute(name) {
        return Ok(name.to_owned());
    }
    match runtime_dir {
        None => Err(SocketPathError::NoRuntimeDir),
        Some(dir) => {
            if !is_absolute(dir) {
                return Err(SocketPathError::RelativeRuntimeDir);
            }
            let chars = to_chars(dir);
            let mut path = dir.to_owned();
            if chars[chars.len() - 1] != '/' {
                path.append("/");
            }
            path.append(name);
            Ok(path)
        },
    }
}

/// Says where the socket of the server is.
pub fn server_socket_path(wayland_display: Option<&str>, runtime_dir: Option<&str>) -> (r: Result<
    String,
    SocketPathError,
>)
    ensures
        match (
            r,
            socket_path_of(
                match wayland_display {
                    Some(name) => name@,
                    None => "wayland-0"@,
                },
                match runtime_dir {
                    Some(dir) => Some(dir@),
                    None => None,
                },
            ),
        ) {
            (Ok(path), Ok(v)) => path@ == v,
            (Err(e), Err(f)) => e == f,
            _ => false,
        },
{
    match wayland_display {
        Some(name) => socket_path(name, runtime_dir),
        None => socket_path("wayland-0", runtime_dir),
    }
}

/// A file, as the system knows it.
#[derive(Debug, PartialEq, Eq, Clone, Copy, Structural)]
pub struct FileIdentity {
    pub device: u64,
    pub inode: u64,
}

/// Whether a file that has been locked is still the one at its path, by what is found there.
pub fn file_still_at_path(locked: FileIdentity, at_path: Option<FileIdentity>) -> (r: bool)
    ensures
        r == (at_path == Some(locked)),
{
    match at_path {
        Some(found) => found.device == locked.device && found.inode == locked.inode,
        None => false,
    }
}

/// A socket is always at an absolute path.
pub proof fn law_socket_path_is_absolute(name: Seq<char>, runtime_dir: Option<Seq<char>>)
    requires
        socket_path_of(name, runtime_dir) is Ok,
    ensures
        absolute(socket_path_of(name, runtime_dir)->Ok_0),
{
}

} // verus!
