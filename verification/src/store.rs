//! Backend addresses: which store an address names, and which key in it.
//!
//! An address is a scheme followed by a path. The only scheme known is
//! `file://`. The first address resolved decides where the filesystem store
//! is rooted: at the root of the filesystem for an absolute path, at the
//! working directory for a relative one. Later addresses go to that store.

use vstd::prelude::*;
use vstd::string::StrSliceExecFns;
use crate::error::PipelineError;

verus! {

/// Where a filesystem store is rooted.
#[derive(Clone, Copy, Debug, PartialEq, Eq, Structural)]
pub enum FilesystemRoot {
    /// At the root of the filesystem.
    Absolute,
    /// At the working directory of the process.
    WorkingDirectory,
}

/// The store that a pipeline works on.
#[derive(Clone, Copy, Debug, PartialEq, Eq, Structural)]
pub enum CodecPipelineStore {
    /// A directory tree of the filesystem.
    Filesystem(FilesystemRoot),
}

/// The scheme of filesystem addresses, `file://`.
pub open spec fn file_scheme() -> Seq<char> {
    seq!['f', 'i', 'l', 'e', ':', '/', '/']
}

/// `text` begins with `prefix`.
pub open spec fn begins_with(text: Seq<char>, prefix: Seq<char>) -> bool {
    text.len() >= prefix.len() && text.subrange(0, prefix.len() as int) == prefix
}

/// The path of a filesystem address is absolute.
pub open spec fn is_absolute(path: Seq<char>) -> bool {
    path.len() > 0 && path[0] == '/'
}

/// The key that a path names below the root of its store.
pub open spec fn path_key(path: Seq<char>) -> Seq<char> {
    if is_absolute(path) {
        path.skip(1)
    } else {
        path
    }
}

/// The store and the key that an address names, given the store already in
/// use, if any.
pub open spec fn resolved(cached: Option<CodecPipelineStore>, address: Seq<char>) -> Result<
    (CodecPipelineStore, Seq<char>),
    PipelineError,
> {
    if begins_with(address, file_scheme()) {
        let path = address.skip(7);
        let store = match cached {
            Some(store) => store,
            None => CodecPipelineStore::Filesystem(
                if is_absolute(path) {
                    FilesystemRoot::Absolute
                } else {
                    FilesystemRoot::WorkingDirectory
                },
            ),
        };
        Ok((store, path_key(path)))
    } else {
        Err(PipelineError::UnsupportedBackend)
    }
}

/// Whether `text` begins with `file://`.
fn has_file_scheme(text: &str) -> (found: bool)
    ensures
        found == begins_with(text@, file_scheme()),
{
    let n = text.unicode_len();
    if n < 7 {
        return false;
    }
    let found = text.get_char(0) == 'f' && text.get_char(1) == 'i' && text.get_char(2) == 'l'
        && text.get_char(3) == 'e' && text.get_char(4) == ':' && text.get_char(5) == '/'
        && text.get_char(6) == '/';
    proof {
        let head = text@.subrange(0, 7);
        if found {
            assert(head =~= file_scheme());
        } else {
            assert(head[0] == text@[0] && head[1] == text@[1] && head[2] == text@[2] && head[3]
                == text@[3] && head[4] == text@[4] && head[5] == text@[5] && head[6] == text@[6]);
            assert(file_scheme()[0] == 'f' && file_scheme()[1] == 'i' && file_scheme()[2] == 'l'
                && file_scheme()[3] == 'e' && file_scheme()[4] == ':' && file_scheme()[5] == '/'
                && file_scheme()[6] == '/');
        }
    }
    found
}

/// Resolves an address to its store and to the key below the store's root.
/// With no store in use yet, the address decides the root and `cached` takes
/// the new store.
pub fn resolve(cached: &mut Option<CodecPipelineStore>, address: &str) -> (result: Result<
    (CodecPipelineStore, String),
    PipelineError,
>)
    ensures
        match result {
            Ok((store, key)) => resolved(*old(cached), address@) == Ok::<
                (CodecPipelineStore, Seq<char>),
                PipelineError,
            >((store, key@)) && *final(cached) == Some(store),
            Err(e) => resolved(*old(cached), address@) == Err::<
                (CodecPipelineStore, Seq<char>),
                PipelineError,
            >(e) && *final(cached) == *old(cached),
        },
{
    if !has_file_scheme(address) {
        return Err(PipelineError::UnsupportedBackend);
    }
    let n = address.unicode_len();
    let path = address.substring_char(7, n);
    assert(path@ =~= address@.skip(7));
    let m = n - 7;
    let absolute = m > 0 && path.get_char(0) == '/';
    let key = if absolute {
        path.substring_char(1, m)
    } else {
        path
    };
    assert(key@ =~= path_key(path@));
    let store = match *cached {
        Some(store) => store,
        None => CodecPipelineStore::Filesystem(
            if absolute {
                FilesystemRoot::Absolute
            } else {
                FilesystemRoot::WorkingDirectory
            },
        ),
    };
    *cached = Some(store);
    Ok((store, key.to_owned()))
}

} // verus!
