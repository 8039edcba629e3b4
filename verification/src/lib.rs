//! The well-known directories of a user (desktop, documents, downloads,
//! music, pictures, public share, templates, videos) as the file
//! `user-dirs.dirs` assigns them.
//!
//! The library works on the content of that file and on the path of the home
//! directory; it opens no file itself. [`UserDirs::new`] reads a content once
//! and keeps all eight directories. The functions named after the directories
//! read a content for one of them and stop at the first line that assigns it.
use vstd::prelude::*;

pub mod bytes;
pub mod laws;
pub mod parser;
pub mod path;
pub mod utils;

use crate::path::{is_absolute, Home};
use crate::utils::{bytes_of, outcomes, parse_file, pending, Assignment, Dir, Outcome};

verus! {

/// `std::io::Error`, the failure of an operation on a file. It is carried
/// along as it is; nothing is known of what it holds.
#[verifier::external_type_specification]
#[verifier::external_body]
pub struct ExIoError(std::io::Error);

/// `std::str::Utf8Error`, with which `std::str::from_utf8` turns down bytes
/// that are no text. Nothing is known of what it holds.
#[verifier::external_type_specification]
#[verifier::external_body]
pub struct ExUtf8Error(std::str::Utf8Error);

/// What can go wrong while the directories are looked up.
#[derive(Debug)]
pub enum Error {
    /// The configuration file could not be opened or read.
    Io(std::io::Error),
    /// The home directory is not known.
    NoHome,
    /// A value in the configuration file is not valid text.
    Parse,
}

impl Error {
    /// What went wrong, in words. For a failure of the file system these
    /// are the words of `std::io::Error`, whatever they are.
    pub fn message(&self) -> (text: String)
        ensures
            match *self {
                Error::Io(e) => vstd::string::to_string_from_display_ensures(&e, text),
                Error::NoHome => text@ == "unable to find the home directory"@,
                Error::Parse => text@ == "error while parsing"@,
            },
    {
        match self {
            Error::Io(e) => e.to_string(),
            Error::NoHome => "unable to find the home directory".to_owned(),
            Error::Parse => "error while parsing".to_owned(),
        }
    }
}

impl From<std::io::Error> for Error {
    fn from(e: std::io::Error) -> (r: Error) {
        Error::Io(e)
    }
}

impl vstd::std_specs::convert::FromSpecImpl<std::io::Error> for Error {
    open spec fn obeys_from_spec() -> bool {
        true
    }

    open spec fn from_spec(e: std::io::Error) -> Error {
        Error::Io(e)
    }
}

impl From<std::str::Utf8Error> for Error {
    fn from(e: std::str::Utf8Error) -> (r: Error) {
        Error::Parse
    }
}

impl vstd::std_specs::convert::FromSpecImpl<std::str::Utf8Error> for Error {
    open spec fn obeys_from_spec() -> bool {
        true
    }

    open spec fn from_spec(e: std::str::Utf8Error) -> Error {
        Error::Parse
    }
}

/// The directories after a line has assigned `path` to `key`, or has unset
/// `key`. A key that names none of the eight directories changes nothing.
pub open spec fn assigned(dirs: Map<Dir, Seq<u8>>, key: Seq<u8>, path: Option<Seq<u8>>) -> Map<
    Dir,
    Seq<u8>,
> {
    match Dir::named(key) {
        None => dirs,
        Some(dir) => match path {
            Some(p) => dirs.insert(dir, p),
            None => dirs.remove(dir),
        },
    }
}

/// The directories after all of `outcomes`, starting from `dirs`: each
/// assignment is taken in its turn, so that of two lines with the same key the
/// later one counts. One line that is not valid text fails the whole.
pub open spec fn collected(dirs: Map<Dir, Seq<u8>>, outcomes: Seq<Outcome>) -> Result<
    Map<Dir, Seq<u8>>,
    Error,
>
    decreases outcomes.len(),
{
    if outcomes.len() == 0 {
        Ok(dirs)
    } else {
        match outcomes[0] {
            Outcome::Skipped => collected(dirs, outcomes.drop_first()),
            Outcome::Invalid => Err(Error::Parse),
            Outcome::Assigned(key, path) => collected(
                assigned(dirs, key, path),
                outcomes.drop_first(),
            ),
        }
    }
}

/// The directories that `content` assigns, with the home directory at `home`.
pub open spec fn snapshot(content: Seq<u8>, home: Seq<u8>) -> Result<Map<Dir, Seq<u8>>, Error> {
    collected(Map::empty(), outcomes(content, home))
}

/// What the first of `outcomes` that assigns `name` assigns to it: its path,
/// `None` where it unsets `name` and where no line assigns it. A line before
/// it that is not valid text fails the search; what follows it is not looked
/// at.
pub open spec fn found(name: Seq<u8>, outcomes: Seq<Outcome>) -> Result<Option<Seq<u8>>, Error>
    decreases outcomes.len(),
{
    if outcomes.len() == 0 {
        Ok(None)
    } else {
        match outcomes[0] {
            Outcome::Skipped => found(name, outcomes.drop_first()),
            Outcome::Invalid => Err(Error::Parse),
            Outcome::Assigned(key, path) => if key == name {
                Ok(path)
            } else {
                found(name, outcomes.drop_first())
            },
        }
    }
}

/// The path that `content` assigns to the key `name`, with the home directory
/// at `home`.
pub open spec fn lookup(name: Seq<u8>, content: Seq<u8>, home: Seq<u8>) -> Result<
    Option<Seq<u8>>,
    Error,
> {
    found(name, outcomes(content, home))
}

proof fn lemma_pending_shorter(outcomes: Seq<Outcome>)
    ensures
        pending(outcomes).len() <= outcomes.len(),
        pending(outcomes).len() > 0 ==> !(pending(outcomes)[0] is Skipped),
    decreases outcomes.len(),
{
    if outcomes.len() > 0 && outcomes[0] is Skipped {
        lemma_pending_shorter(outcomes.drop_first());
    }
}

proof fn lemma_collected_pending(dirs: Map<Dir, Seq<u8>>, outcomes: Seq<Outcome>)
    ensures
        collected(dirs, pending(outcomes)) == collected(dirs, outcomes),
    decreases outcomes.len(),
{
    if outcomes.len() > 0 && outcomes[0] is Skipped {
        lemma_collected_pending(dirs, outcomes.drop_first());
    }
}

proof fn lemma_found_pending(name: Seq<u8>, outcomes: Seq<Outcome>)
    ensures
        found(name, pending(outcomes)) == found(name, outcomes),
    decreases outcomes.len(),
{
    if outcomes.len() > 0 && outcomes[0] is Skipped {
        lemma_found_pending(name, outcomes.drop_first());
    }
}

/// The eight directories of a user as one reading of the configuration file
/// found them. A directory that the file does not assign, or assigns to the
/// home directory itself, has no path. Every path is absolute.
#[derive(Debug)]
pub struct UserDirs {
    desktop: Option<Vec<u8>>,
    documents: Option<Vec<u8>>,
    downloads: Option<Vec<u8>>,
    music: Option<Vec<u8>>,
    pictures: Option<Vec<u8>>,
    public: Option<Vec<u8>>,
    templates: Option<Vec<u8>>,
    videos: Option<Vec<u8>>,
}

impl View for UserDirs {
    type V = Map<Dir, Seq<u8>>;

    closed spec fn view(&self) -> Map<Dir, Seq<u8>> {
        Map::new(|dir: Dir| self.slot(dir) is Some, |dir: Dir| self.slot(dir)->0@)
    }
}

/// What an accessor hands out, as bytes.
pub open spec fn shown(path: Option<&[u8]>) -> Option<Seq<u8>> {
    match path {
        Some(p) => Some(p@),
        None => None,
    }
}

/// A path that is kept is absolute.
spec fn is_rooted(path: Option<Vec<u8>>) -> bool {
    path matches Some(p) ==> is_absolute(p@)
}

impl UserDirs {
    spec fn slot(self, dir: Dir) -> Option<Vec<u8>> {
        match dir {
            Dir::Desktop => self.desktop,
            Dir::Documents => self.documents,
            Dir::Downloads => self.downloads,
            Dir::Music => self.music,
            Dir::Pictures => self.pictures,
            Dir::Public => self.public,
            Dir::Templates => self.templates,
            Dir::Videos => self.videos,
        }
    }

    #[verifier::type_invariant]
    spec fn rooted(self) -> bool {
        &&& is_rooted(self.desktop)
        &&& is_rooted(self.documents)
        &&& is_rooted(self.downloads)
        &&& is_rooted(self.music)
        &&& is_rooted(self.pictures)
        &&& is_rooted(self.public)
        &&& is_rooted(self.templates)
        &&& is_rooted(self.videos)
    }

    /// Reads the content of a configuration file and keeps what it assigns
    /// to each of the eight directories.
    ///
    /// Every line is read. A line that is no assignment, or assigns to a key
    /// that names none of the eight, or a value that is no path, is passed
    /// over. A value that is not valid text fails with `Error::Parse`.
    pub fn new(home: &Home, content: &[u8]) -> (dirs: Result<UserDirs, Error>)
        ensures
            match snapshot(content@, home@) {
                Ok(found) => dirs matches Ok(d) && d@ == found,
                Err(e) => dirs matches Err(f) && f == e,
            },
            dirs matches Ok(d) ==> d.rooted_view(),
    {
        let mut this = UserDirs {
            desktop: None,
            documents: None,
            downloads: None,
            music: None,
            pictures: None,
            public: None,
            templates: None,
            videos: None,
        };
        let mut entries = parse_file(home, content);
        assert(this@ =~= Map::empty());
        loop
            invariant
                collected(this@, entries.ahead()) == snapshot(content@, home@),
            decreases entries.ahead().len(),
        {
            proof {
                lemma_collected_pending(this@, entries.ahead());
                lemma_pending_shorter(entries.ahead());
            }
            match entries.next_entry() {
                Err(e) => {
                    return Err(e);
                },
                Ok(None) => {
                    proof {
                        use_type_invariant(&this);
                        assert forall|dir: Dir| #[trigger]
                            this@.contains_key(dir) implies is_absolute(this@[dir]) by {
                            assert(this.slot(dir) is Some);
                        }
                    }
                    return Ok(this);
                },
                Ok(Some(assignment)) => {
                    this.record(assignment);
                },
            }
        }
    }

    /// Every path that is kept is absolute.
    pub open spec fn rooted_view(self) -> bool {
        forall|dir: Dir| #[trigger] self@.contains_key(dir) ==> is_absolute(self@[dir])
    }

    /// Takes one assignment in.
    fn record(&mut self, assignment: Assignment)
        requires
            assignment.rooted(),
        ensures
            final(self)@ == assigned(old(self)@, assignment.key@, bytes_of(assignment.path)),
    {
        proof {
            use_type_invariant(&*self);
        }
        match Dir::of_key(assignment.key.as_slice()) {
            Some(Dir::Desktop) => {
                self.desktop = assignment.path;
            },
            Some(Dir::Documents) => {
                self.documents = assignment.path;
            },
            Some(Dir::Downloads) => {
                self.downloads = assignment.path;
            },
            Some(Dir::Music) => {
                self.music = assignment.path;
            },
            Some(Dir::Pictures) => {
                self.pictures = assignment.path;
            },
            Some(Dir::Public) => {
                self.public = assignment.path;
            },
            Some(Dir::Templates) => {
                self.templates = assignment.path;
            },
            Some(Dir::Videos) => {
                self.videos = assignment.path;
            },
            None => {},
        }
        assert(self@ =~= assigned(old(self)@, assignment.key@, bytes_of(assignment.path)));
    }

    /// The path of `dir`, if it has one.
    pub fn get(&self, dir: Dir) -> (path: Option<&[u8]>)
        ensures
            shown(path) == self@.get(dir),
            path matches Some(p) ==> is_absolute(p@),
    {
        proof {
            use_type_invariant(self);
        }
        let slot = match dir {
            Dir::Desktop => &self.desktop,
            Dir::Documents => &self.documents,
            Dir::Downloads => &self.downloads,
            Dir::Music => &self.music,
            Dir::Pictures => &self.pictures,
            Dir::Public => &self.public,
            Dir::Templates => &self.templates,
            Dir::Videos => &self.videos,
        };
        assert(*slot == self.slot(dir));
        match slot {
            Some(path) => Some(path.as_slice()),
            None => None,
        }
    }

    /// The absolute path of the desktop directory (`XDG_DESKTOP_DIR`), if it
    /// is set.
    pub fn desktop(&self) -> (path: Option<&[u8]>)
        ensures
            shown(path) == self@.get(Dir::Desktop),
            path matches Some(p) ==> is_absolute(p@),
    {
        self.get(Dir::Desktop)
    }

    /// The absolute path of the documents directory (`XDG_DOCUMENTS_DIR`), if
    /// it is set.
    pub fn documents(&self) -> (path: Option<&[u8]>)
        ensures
            shown(path) == self@.get(Dir::Documents),
            path matches Some(p) ==> is_absolute(p@),
    {
        self.get(Dir::Documents)
    }

    /// The absolute path of the downloads directory (`XDG_DOWNLOAD_DIR`), if
    /// it is set.
    pub fn downloads(&self) -> (path: Option<&[u8]>)
        ensures
            shown(path) == self@.get(Dir::Downloads),
            path matches Some(p) ==> is_absolute(p@),
    {
        self.get(Dir::Downloads)
    }

    /// The absolute path of the music directory (`XDG_MUSIC_DIR`), if it is
    /// set.
    pub fn music(&self) -> (path: Option<&[u8]>)
        ensures
            shown(path) == self@.get(Dir::Music),
            path matches Some(p) ==> is_absolute(p@),
    {
        self.get(Dir::Music)
    }

    /// The absolute path of the pictures directory (`XDG_PICTURES_DIR`), if
    /// it is set.
    pub fn pictures(&self) -> (path: Option<&[u8]>)
        ensures
            shown(path) == self@.get(Dir::Pictures),
            path matches Some(p) ==> is_absolute(p@),
    {
        self.get(Dir::Pictures)
    }

    /// The absolute path of the public share directory
    /// (`XDG_PUBLICSHARE_DIR`), if it is set.
    pub fn public(&self) -> (path: Option<&[u8]>)
        ensures
            shown(path) == self@.get(Dir::Public),
            path matches Some(p) ==> is_absolute(p@),
    {
        self.get(Dir::Public)
    }

    /// The absolute path of the templates directory (`XDG_TEMPLATES_DIR`), if
    /// it is set.
    pub fn templates(&self) -> (path: Option<&[u8]>)
        ensures
            shown(path) == self@.get(Dir::Templates),
            path matches Some(p) ==> is_absolute(p@),
    {
        self.get(Dir::Templates)
    }

    /// The absolute path of the videos directory (`XDG_VIDEOS_DIR`), if it is
    /// set.
    pub fn videos(&self) -> (path: Option<&[u8]>)
        ensures
            shown(path) == self@.get(Dir::Videos),
            path matches Some(p) ==> is_absolute(p@),
    {
        self.get(Dir::Videos)
    }
}

/// Reads a content for the directory that the key `name` assigns, and stops
/// at the first line that assigns it.
///
/// Gives the path of that line, and `None` where the line unsets the key or
/// no line assigns it. A value that is not valid text, in a line before the
/// one that is looked for, fails with `Error::Parse`.
pub fn read_single(name: &[u8], home: &Home, content: &[u8]) -> (path: Result<
    Option<Vec<u8>>,
    Error,
>)
    ensures
        match lookup(name@, content@, home@) {
            Ok(p) => path matches Ok(q) && bytes_of(q) == p,
            Err(e) => path matches Err(f) && f == e,
        },
        path matches Ok(Some(p)) ==> is_absolute(p@),
{
    let mut entries = parse_file(home, content);
    loop
        invariant
            found(name@, entries.ahead()) == lookup(name@, content@, home@),
        decreases entries.ahead().len(),
    {
        proof {
            lemma_found_pending(name@, entries.ahead());
            lemma_pending_shorter(entries.ahead());
        }
        match entries.next_entry() {
            Err(e) => {
                return Err(e);
            },
            Ok(None) => {
                return Ok(None);
            },
            Ok(Some(assignment)) => {
                if crate::bytes::equal(assignment.key.as_slice(), name) {
                    return Ok(assignment.path);
                }
            },
        }
    }
}

/// The absolute path of the desktop directory (`XDG_DESKTOP_DIR`), if the
/// content sets it.
pub fn desktop(home: &Home, content: &[u8]) -> (path: Result<Option<Vec<u8>>, Error>)
    ensures
        match lookup(Dir::Desktop.key(), content@, home@) {
            Ok(p) => path matches Ok(q) && bytes_of(q) == p,
            Err(e) => path matches Err(f) && f == e,
        },
        path matches Ok(Some(p)) ==> is_absolute(p@),
{
    read_single(Dir::Desktop.name(), home, content)
}

/// The absolute path of the documents directory (`XDG_DOCUMENTS_DIR`), if the
/// content sets it.
pub fn documents(home: &Home, content: &[u8]) -> (path: Result<Option<Vec<u8>>, Error>)
    ensures
        match lookup(Dir::Documents.key(), content@, home@) {
            Ok(p) => path matches Ok(q) && bytes_of(q) == p,
            Err(e) => path matches Err(f) && f == e,
        },
        path matches Ok(Some(p)) ==> is_absolute(p@),
{
    read_single(Dir::Documents.name(), home, content)
}

/// The absolute path of the downloads directory (`XDG_DOWNLOAD_DIR`), if the
/// content sets it.
pub fn downloads(home: &Home, content: &[u8]) -> (path: Result<Option<Vec<u8>>, Error>)
    ensures
        match lookup(Dir::Downloads.key(), content@, home@) {
            Ok(p) => path matches Ok(q) && bytes_of(q) == p,
            Err(e) => path matches Err(f) && f == e,
        },
        path matches Ok(Some(p)) ==> is_absolute(p@),
{
    read_single(Dir::Downloads.name(), home, content)
}

/// The absolute path of the music directory (`XDG_MUSIC_DIR`), if the content
/// sets it.
pub fn music(home: &Home, content: &[u8]) -> (path: Result<Option<Vec<u8>>, Error>)
    ensures
        match lookup(Dir::Music.key(), content@, home@) {
            Ok(p) => path matches Ok(q) && bytes_of(q) == p,
            Err(e) => path matches Err(f) && f == e,
        },
        path matches Ok(Some(p)) ==> is_absolute(p@),
{
    read_single(Dir::Music.name(), home, content)
}

/// The absolute path of the pictures directory (`XDG_PICTURES_DIR`), if the
/// content sets it.
pub fn pictures(home: &Home, content: &[u8]) -> (path: Result<Option<Vec<u8>>, Error>)
    ensures
        match lookup(Dir::Pictures.key(), content@, home@) {
            Ok(p) => path matches Ok(q) && bytes_of(q) == p,
            Err(e) => path matches Err(f) && f == e,
        },
        path matches Ok(Some(p)) ==> is_absolute(p@),
{
    read_single(Dir::Pictures.name(), home, content)
}

/// The absolute path of the public share directory (`XDG_PUBLICSHARE_DIR`),
/// if the content sets it.
pub fn public(home: &Home, content: &[u8]) -> (path: Result<Option<Vec<u8>>, Error>)
    ensures
        match lookup(Dir::Public.key(), content@, home@) {
            Ok(p) => path matches Ok(q) && bytes_of(q) == p,
            Err(e) => path matches Err(f) && f == e,
        },
        path matches Ok(Some(p)) ==> is_absolute(p@),
{
    read_single(Dir::Public.name(), home, content)
}

/// The absolute path of the templates directory (`XDG_TEMPLATES_DIR`), if the
/// content sets it.
pub fn templates(home: &Home, content: &[u8]) -> (path: Result<Option<Vec<u8>>, Error>)
    ensures
        match lookup(Dir::Templates.key(), content@, home@) {
            Ok(p) => path matches Ok(q) && bytes_of(q) == p,
            Err(e) => path matches Err(f) && f == e,
        },
        path matches Ok(Some(p)) ==> is_absolute(p@),
{
    read_single(Dir::Templates.name(), home, content)
}

/// The absolute path of the videos directory (`XDG_VIDEOS_DIR`), if the
/// content sets it.
pub fn videos(home: &Home, content: &[u8]) -> (path: Result<Option<Vec<u8>>, Error>)
    ensures
        match lookup(Dir::Videos.key(), content@, home@) {
            Ok(p) => path matches Ok(q) && bytes_of(q) == p,
            Err(e) => path matches Err(f) && f == e,
        },
        path matches Ok(Some(p)) ==> is_absolute(p@),
{
    read_single(Dir::Videos.name(), home, content)
}

} // verus!
