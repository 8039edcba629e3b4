//! Paths as the bytes they are written with.
//!
//! A path is absolute where it starts with a slash. Joining two paths puts a
//! slash between them where one is needed, and an absolute path takes the
//! place of whatever it is joined to.
use crate::Error;
use vstd::prelude::*;

verus! {

pub const SLASH: u8 = 0x2f;

/// The path starts at the root.
pub open spec fn is_absolute(path: Seq<u8>) -> bool {
    path.len() > 0 && path[0] == SLASH
}

/// `path` as seen from `base`: `path` itself where it is absolute, else
/// `base` with `path` behind it, parted by one slash unless `base` is empty
/// or ends in a slash already.
pub open spec fn joined(base: Seq<u8>, path: Seq<u8>) -> Seq<u8> {
    if is_absolute(path) {
        path
    } else if base.len() > 0 && base.last() != SLASH {
        base + seq![SLASH] + path
    } else {
        base + path
    }
}

/// Joining anything to an absolute base gives an absolute path.
pub proof fn lemma_joined_absolute(base: Seq<u8>, path: Seq<u8>)
    requires
        is_absolute(base),
    ensures
        is_absolute(joined(base, path)),
{
}

/// Whether `path` starts at the root.
pub fn absolute(path: &[u8]) -> (r: bool)
    ensures
        r == is_absolute(path@),
{
    path.len() > 0 && path[0] == SLASH
}

/// Joins `path` to `base`.
pub fn join(base: &[u8], path: &[u8]) -> (whole: Vec<u8>)
    ensures
        whole@ == joined(base@, path@),
{
    let mut whole: Vec<u8> = Vec::new();
    if !absolute(path) {
        append(&mut whole, base);
        if base.len() > 0 && base[base.len() - 1] != SLASH {
            whole.push(SLASH);
        }
    }
    append(&mut whole, path);
    whole
}

/// Puts `tail` behind what `bytes` holds.
fn append(bytes: &mut Vec<u8>, tail: &[u8])
    ensures
        final(bytes)@ == old(bytes)@ + tail@,
{
    let mut i: usize = 0;
    while i < tail.len()
        invariant
            i <= tail@.len(),
            bytes@ == old(bytes)@ + tail@.take(i as int),
        decreases tail@.len() - i,
    {
        bytes.push(tail[i]);
        i += 1;
    }
}

/// The home directory of the user: an absolute path.
#[derive(Debug)]
pub struct Home {
    path: Vec<u8>,
}

impl View for Home {
    type V = Seq<u8>;

    closed spec fn view(&self) -> Seq<u8> {
        self.path@
    }
}

impl Home {
    #[verifier::type_invariant]
    spec fn rooted(self) -> bool {
        is_absolute(self.path@)
    }

    /// Takes `path` as the home directory. A path that is not absolute, the
    /// empty one among them, names no home.
    pub fn new(path: Vec<u8>) -> (home: Result<Home, Error>)
        ensures
            match home {
                Ok(h) => is_absolute(path@) && h@ == path@,
                Err(e) => !is_absolute(path@) && e is NoHome,
            },
    {
        if absolute(path.as_slice()) {
            Ok(Home { path })
        } else {
            Err(Error::NoHome)
        }
    }

    /// The path of the home directory.
    pub fn as_bytes(&self) -> (bytes: &[u8])
        ensures
            bytes@ == self@,
            is_absolute(bytes@),
    {
        proof {
            use_type_invariant(self);
        }
        self.path.as_slice()
    }
}

} // verus!
