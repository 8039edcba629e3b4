//! From the content of `user-dirs.dirs` to the directories that it assigns.
//!
//! The content is read line by line. A line that the grammar accepts gives a
//! key and a value; the value is held to be text, and then stands for a path
//! ([`meaning`]). [`outcome`] says what one line comes to, [`outcomes`] what
//! all lines of a content come to, in their order. [`Entries`] walks a content
//! and hands out its assignments one at a time, so that who asks for one
//! directory need not look at what follows it.
use crate::bytes::{equal, starts_with};
use crate::parser::{
    lemma_parts_parse, lemma_unescaped_plain, parse_line, parsed, unescaped, LineParts, BACKSLASH,
    NEWLINE,
};
use crate::path::{absolute, is_absolute, join, joined, Home, SLASH};
use crate::Error;
use vstd::prelude::*;
use vstd::slice::slice_subrange;
use vstd::string::StringSliceAdditionalSpecFns;
use vstd::utf8::valid_utf8;

verus! {

pub const DESKTOP: &'static str = "XDG_DESKTOP_DIR";

pub const DOCUMENTS: &'static str = "XDG_DOCUMENTS_DIR";

pub const DOWNLOADS: &'static str = "XDG_DOWNLOAD_DIR";

pub const MUSIC: &'static str = "XDG_MUSIC_DIR";

pub const PICTURES: &'static str = "XDG_PICTURES_DIR";

pub const PUBLIC: &'static str = "XDG_PUBLICSHARE_DIR";

pub const TEMPLATES: &'static str = "XDG_TEMPLATES_DIR";

pub const VIDEOS: &'static str = "XDG_VIDEOS_DIR";

/// What a value starts with that names a path below the home directory.
pub const HOME_MARKER: &'static str = "$HOME/";

/// The name of the configuration file.
pub const CONFIG_FILE: &'static str = "user-dirs.dirs";

/// Where the configuration file lies below the home directory.
pub const CONFIG_FILE_AT_HOME: &'static str = ".config/user-dirs.dirs";

/// `core::str::from_utf8` accepts exactly the byte strings that are valid
/// UTF-8, and the string it gives is made of the bytes it was given.
pub assume_specification[ core::str::from_utf8 ](bytes: &[u8]) -> (text: Result<
    &str,
    core::str::Utf8Error,
>)
    ensures
        text is Ok <==> valid_utf8(bytes@),
        text matches Ok(s) ==> s.spec_bytes() == bytes@,
;

/// One of the eight directories that the file can assign.
#[derive(Clone, Copy, Debug, PartialEq, Eq, Structural)]
pub enum Dir {
    Desktop,
    Documents,
    Downloads,
    Music,
    Pictures,
    Public,
    Templates,
    Videos,
}

impl Dir {
    /// The key under which the file assigns the directory.
    pub open spec fn key(self) -> Seq<u8> {
        match self {
            Dir::Desktop => DESKTOP.spec_bytes(),
            Dir::Documents => DOCUMENTS.spec_bytes(),
            Dir::Downloads => DOWNLOADS.spec_bytes(),
            Dir::Music => MUSIC.spec_bytes(),
            Dir::Pictures => PICTURES.spec_bytes(),
            Dir::Public => PUBLIC.spec_bytes(),
            Dir::Templates => TEMPLATES.spec_bytes(),
            Dir::Videos => VIDEOS.spec_bytes(),
        }
    }

    /// The directory that `key` assigns, if it is the key of one. Upper and
    /// lower case are told apart.
    pub open spec fn named(key: Seq<u8>) -> Option<Dir> {
        if key == Dir::Desktop.key() {
            Some(Dir::Desktop)
        } else if key == Dir::Documents.key() {
            Some(Dir::Documents)
        } else if key == Dir::Downloads.key() {
            Some(Dir::Downloads)
        } else if key == Dir::Music.key() {
            Some(Dir::Music)
        } else if key == Dir::Pictures.key() {
            Some(Dir::Pictures)
        } else if key == Dir::Public.key() {
            Some(Dir::Public)
        } else if key == Dir::Templates.key() {
            Some(Dir::Templates)
        } else if key == Dir::Videos.key() {
            Some(Dir::Videos)
        } else {
            None
        }
    }

    /// The key under which the file assigns the directory.
    pub fn name(self) -> (name: &'static [u8])
        ensures
            name@ == self.key(),
    {
        match self {
            Dir::Desktop => DESKTOP.as_bytes(),
            Dir::Documents => DOCUMENTS.as_bytes(),
            Dir::Downloads => DOWNLOADS.as_bytes(),
            Dir::Music => MUSIC.as_bytes(),
            Dir::Pictures => PICTURES.as_bytes(),
            Dir::Public => PUBLIC.as_bytes(),
            Dir::Templates => TEMPLATES.as_bytes(),
            Dir::Videos => VIDEOS.as_bytes(),
        }
    }

    /// The directory that `key` assigns, if it is the key of one.
    pub fn of_key(key: &[u8]) -> (dir: Option<Dir>)
        ensures
            dir == Dir::named(key@),
    {
        if equal(key, Dir::Desktop.name()) {
            Some(Dir::Desktop)
        } else if equal(key, Dir::Documents.name()) {
            Some(Dir::Documents)
        } else if equal(key, Dir::Downloads.name()) {
            Some(Dir::Downloads)
        } else if equal(key, Dir::Music.name()) {
            Some(Dir::Music)
        } else if equal(key, Dir::Pictures.name()) {
            Some(Dir::Pictures)
        } else if equal(key, Dir::Public.name()) {
            Some(Dir::Public)
        } else if equal(key, Dir::Templates.name()) {
            Some(Dir::Templates)
        } else if equal(key, Dir::Videos.name()) {
            Some(Dir::Videos)
        } else {
            None
        }
    }
}

/// Asks `home::home_dir` for the home directory and hands its path out as
/// bytes. What comes back hangs on the environment of the process and on the
/// user database, so nothing is said of it.
#[verifier::external_body]
fn ask_home() -> (found: Option<Vec<u8>>) {
    match home::home_dir() {
        Some(path) => Some(path.as_os_str().as_encoded_bytes().to_vec()),
        None => None,
    }
}

/// Makes a home directory of what a lookup found. Where nothing was found,
/// or a path that is not absolute, there is no home.
pub fn home_from(found: Option<Vec<u8>>) -> (home: Result<Home, Error>)
    ensures
        match home {
            Ok(h) => found matches Some(path) && is_absolute(path@) && h@ == path@,
            Err(e) => e is NoHome && !(found matches Some(path) && is_absolute(path@)),
        },
{
    match found {
        Some(path) => Home::new(path),
        None => Err(Error::NoHome),
    }
}

/// Looks up the home directory of the user. Fails with `Error::NoHome`, and
/// with nothing else, where none is known.
pub fn home_dir() -> (home: Result<Home, Error>)
    ensures
        home matches Ok(h) ==> is_absolute(h@),
        home matches Err(e) ==> e is NoHome,
{
    home_from(ask_home())
}

/// Where the configuration file lies: in the directory `config_home` where
/// one is given and absolute, else in `.config` below the home directory.
pub open spec fn config_path(config_home: Option<Seq<u8>>, home: Seq<u8>) -> Seq<u8> {
    if config_home matches Some(dir) && is_absolute(dir) {
        joined(config_home->0, CONFIG_FILE.spec_bytes())
    } else {
        joined(home, CONFIG_FILE_AT_HOME.spec_bytes())
    }
}

/// The path of the configuration file.
///
/// `config_home` is what the environment gives as `XDG_CONFIG_HOME`, `None`
/// where it gives nothing.
pub fn config_file(config_home: Option<&[u8]>, home: &Home) -> (path: Vec<u8>)
    ensures
        path@ == config_path(
            match config_home {
                Some(dir) => Some(dir@),
                None => None,
            },
            home@,
        ),
{
    match config_home {
        Some(dir) if absolute(dir) => join(dir, CONFIG_FILE.as_bytes()),
        _ => join(home.as_bytes(), CONFIG_FILE_AT_HOME.as_bytes()),
    }
}

/// Without `XDG_CONFIG_HOME`, and with one that is not absolute, the
/// configuration file is looked for below the home directory.
pub proof fn lemma_config_path_at_home(config_home: Option<Seq<u8>>, home: Seq<u8>)
    requires
        config_home matches Some(dir) ==> !is_absolute(dir),
    ensures
        config_path(config_home, home) == joined(home, CONFIG_FILE_AT_HOME.spec_bytes()),
{
}

/// The eight keys differ from each other, so that a key names one directory
/// at most, and the key of a directory names that directory.
pub proof fn lemma_keys_differ()
    ensures
        forall|a: Dir, b: Dir| a.key() == b.key() ==> a == b,
        forall|dir: Dir| Dir::named(#[trigger] dir.key()) == Some(dir),
{
    reveal_strlit("XDG_DESKTOP_DIR");
    reveal_strlit("XDG_DOCUMENTS_DIR");
    reveal_strlit("XDG_DOWNLOAD_DIR");
    reveal_strlit("XDG_MUSIC_DIR");
    reveal_strlit("XDG_PICTURES_DIR");
    reveal_strlit("XDG_PUBLICSHARE_DIR");
    reveal_strlit("XDG_TEMPLATES_DIR");
    reveal_strlit("XDG_VIDEOS_DIR");
    vstd::string::is_ascii_spec_bytes(DESKTOP);
    vstd::string::is_ascii_spec_bytes(DOCUMENTS);
    vstd::string::is_ascii_spec_bytes(DOWNLOADS);
    vstd::string::is_ascii_spec_bytes(MUSIC);
    vstd::string::is_ascii_spec_bytes(PICTURES);
    vstd::string::is_ascii_spec_bytes(PUBLIC);
    vstd::string::is_ascii_spec_bytes(TEMPLATES);
    vstd::string::is_ascii_spec_bytes(VIDEOS);
    assert(Dir::Desktop.key().len() == 15);
    assert(Dir::Documents.key().len() == 17 && Dir::Documents.key()[4] == 0x44);
    assert(Dir::Downloads.key().len() == 16 && Dir::Downloads.key()[4] == 0x44);
    assert(Dir::Music.key().len() == 13);
    assert(Dir::Pictures.key().len() == 16 && Dir::Pictures.key()[4] == 0x50);
    assert(Dir::Public.key().len() == 19);
    assert(Dir::Templates.key().len() == 17 && Dir::Templates.key()[4] == 0x54);
    assert(Dir::Videos.key().len() == 14);
    assert forall|a: Dir, b: Dir| a.key() == b.key() implies a == b by {
        assert(a.key().len() == b.key().len());
        assert(a.key()[4] == b.key()[4]);
    }
}

/// The bytes of the marker `$HOME/`.
pub open spec fn home_marker() -> Seq<u8> {
    HOME_MARKER.spec_bytes()
}

/// What the value of an assignment stands for.
pub enum Meaning {
    /// No directory: the value is neither an absolute path nor one below the
    /// home directory.
    Nothing,
    /// The home directory itself, which is how the file says that a directory
    /// is not set.
    Unset,
    /// The directory at this path.
    Path(Seq<u8>),
}

/// What `value` stands for, with the home directory at `home`.
pub open spec fn meaning(value: Seq<u8>, home: Seq<u8>) -> Meaning {
    if value == home_marker() {
        Meaning::Unset
    } else if home_marker().is_prefix_of(value) {
        Meaning::Path(joined(home, value.skip(home_marker().len() as int)))
    } else if is_absolute(value) {
        Meaning::Path(value)
    } else {
        Meaning::Nothing
    }
}

/// What one line of the file comes to.
pub enum Outcome {
    /// Nothing: the line assigns no directory.
    Skipped,
    /// The line assigns a value that is not valid text.
    Invalid,
    /// The line assigns this path to this key, or unsets the key.
    Assigned(Seq<u8>, Option<Seq<u8>>),
}

/// What `line` comes to, with the home directory at `home`.
pub open spec fn outcome(line: Seq<u8>, home: Seq<u8>) -> Outcome {
    match parsed(line) {
        None => Outcome::Skipped,
        Some((key, value)) => if !valid_utf8(value) {
            Outcome::Invalid
        } else {
            match meaning(value, home) {
                Meaning::Nothing => Outcome::Skipped,
                Meaning::Unset => Outcome::Assigned(key, None),
                Meaning::Path(path) => Outcome::Assigned(key, Some(path)),
            }
        },
    }
}

/// The marker is the six bytes of `$HOME/`, which are valid text.
pub proof fn lemma_home_marker()
    ensures
        home_marker() == seq![0x24u8, 0x48u8, 0x4fu8, 0x4du8, 0x45u8, SLASH],
        valid_utf8(home_marker()),
{
    reveal_strlit("$HOME/");
    vstd::string::is_ascii_spec_bytes(HOME_MARKER);
    vstd::utf8::encode_utf8_valid_utf8(HOME_MARKER@);
    assert(home_marker() =~= seq![0x24u8, 0x48u8, 0x4fu8, 0x4du8, 0x45u8, SLASH]);
}

/// A line whose value is an absolute path assigns that path to its key as it
/// stands in the file, given that it is valid text.
pub proof fn lemma_absolute_value(parts: LineParts, home: Seq<u8>)
    requires
        parts.well_formed(),
        is_absolute(unescaped(parts.raw)),
        valid_utf8(unescaped(parts.raw)),
    ensures
        parsed(parts.line()) == Some((parts.key, unescaped(parts.raw))),
        outcome(parts.line(), home) == Outcome::Assigned(parts.key, Some(unescaped(parts.raw))),
        !parts.raw.contains(BACKSLASH) ==> unescaped(parts.raw) == parts.raw,
{
    lemma_parts_parse(parts);
    lemma_home_marker();
    let value = unescaped(parts.raw);
    assert(value[0] != home_marker()[0]);
    if home_marker().is_prefix_of(value) {
        assert(value.subrange(0, home_marker().len() as int)[0] == home_marker()[0]);
    }
    if !parts.raw.contains(BACKSLASH) {
        lemma_unescaped_plain(parts.raw);
    }
}

/// A line whose value is `$HOME/` with a path behind it assigns to its key
/// that path joined to the home directory, given that the value is valid
/// text.
pub proof fn lemma_value_below_home(parts: LineParts, below: Seq<u8>, home: Seq<u8>)
    requires
        parts.well_formed(),
        unescaped(parts.raw) == home_marker() + below,
        below.len() > 0,
        valid_utf8(unescaped(parts.raw)),
    ensures
        outcome(parts.line(), home) == Outcome::Assigned(parts.key, Some(joined(home, below))),
{
    lemma_parts_parse(parts);
    let value = unescaped(parts.raw);
    assert(value.subrange(0, home_marker().len() as int) =~= home_marker());
    assert(value.skip(home_marker().len() as int) =~= below);
    assert(value.len() != home_marker().len());
}

/// A line whose value is `$HOME/` and no more unsets its key, whatever the
/// key is.
pub proof fn lemma_value_home_itself(parts: LineParts, home: Seq<u8>)
    requires
        parts.well_formed(),
        unescaped(parts.raw) == home_marker(),
    ensures
        outcome(parts.line(), home) == Outcome::Assigned(parts.key, None),
{
    lemma_parts_parse(parts);
    lemma_home_marker();
}

/// Whatever a line assigns is an absolute path, as long as the home
/// directory is one.
pub proof fn lemma_outcome_rooted(line: Seq<u8>, home: Seq<u8>)
    requires
        is_absolute(home),
    ensures
        outcome(line, home) matches Outcome::Assigned(_, Some(path)) ==> is_absolute(path),
{
}

/// The bytes of a path that may be missing.
pub open spec fn bytes_of(path: Option<Vec<u8>>) -> Option<Seq<u8>> {
    match path {
        Some(p) => Some(p@),
        None => None,
    }
}

/// A key of the file with the path that a line assigns to it; no path where
/// the line unsets the key.
#[derive(Debug)]
pub struct Assignment {
    pub key: Vec<u8>,
    pub path: Option<Vec<u8>>,
}

impl View for Assignment {
    type V = (Seq<u8>, Option<Seq<u8>>);

    open spec fn view(&self) -> (Seq<u8>, Option<Seq<u8>>) {
        (self.key@, bytes_of(self.path))
    }
}

impl Assignment {
    /// The path, where there is one, is absolute.
    pub open spec fn rooted(self) -> bool {
        self.path matches Some(path) ==> is_absolute(path@)
    }
}

/// Reads one line of the file, with or without its line ending.
///
/// Gives the assignment that the line makes, `None` for a line that makes
/// none, and `Error::Parse` for a line that assigns a value which is not
/// valid text.
pub fn read_entry(line: &[u8], home: &Home) -> (entry: Result<Option<Assignment>, Error>)
    ensures
        match outcome(line@, home@) {
            Outcome::Skipped => entry matches Ok(None),
            Outcome::Invalid => entry matches Err(Error::Parse),
            Outcome::Assigned(key, path) => entry matches Ok(Some(a)) && a@ == (key, path),
        },
        entry matches Ok(Some(a)) ==> a.rooted(),
{
    let given = match parse_line(line) {
        Some(given) => given,
        None => {
            return Ok(None);
        },
    };
    if let Err(e) = core::str::from_utf8(given.value.as_slice()) {
        return Err(Error::from(e));
    }
    let marker = HOME_MARKER.as_bytes();
    let path = if starts_with(given.value.as_slice(), marker) {
        if given.value.len() == marker.len() {
            assert(given.value@ =~= home_marker());
            None
        } else {
            let below = slice_subrange(given.value.as_slice(), marker.len(), given.value.len());
            assert(below@ =~= given.value@.skip(home_marker().len() as int));
            Some(join(home.as_bytes(), below))
        }
    } else if absolute(given.value.as_slice()) {
        Some(given.value)
    } else {
        return Ok(None);
    };
    Ok(Some(Assignment { key: given.key, path }))
}

/// How long the first line of `content` is, its newline counted.
pub open spec fn line_len(content: Seq<u8>) -> nat
    decreases content.len(),
{
    if content.len() == 0 {
        0
    } else if content[0] == NEWLINE {
        1
    } else {
        1 + line_len(content.drop_first())
    }
}

/// The first line of a content is part of it, and not empty unless the
/// content is.
pub proof fn lemma_line_len_bounds(content: Seq<u8>)
    ensures
        line_len(content) <= content.len(),
        content.len() > 0 ==> line_len(content) > 0,
    decreases content.len(),
{
    if content.len() > 0 && content[0] != NEWLINE {
        lemma_line_len_bounds(content.drop_first());
    }
}

/// What the lines of `content` come to, line by line. A line ends behind its
/// newline; the last line may have none.
pub open spec fn outcomes(content: Seq<u8>, home: Seq<u8>) -> Seq<Outcome>
    decreases content.len(),
{
    if content.len() == 0 {
        Seq::empty()
    } else {
        let n = line_len(content) as int;
        proof {
            lemma_line_len_bounds(content);
        }
        seq![outcome(content.take(n), home)] + outcomes(content.skip(n), home)
    }
}

/// Whatever the lines of a content assign is an absolute path, as long as
/// the home directory is one.
pub proof fn lemma_outcomes_rooted(content: Seq<u8>, home: Seq<u8>)
    requires
        is_absolute(home),
    ensures
        forall|i: int|
            0 <= i < outcomes(content, home).len() ==> ((#[trigger] outcomes(
                content,
                home,
            )[i]) matches Outcome::Assigned(_, Some(path)) ==> is_absolute(path)),
    decreases content.len(),
{
    if content.len() > 0 {
        let n = line_len(content) as int;
        lemma_line_len_bounds(content);
        lemma_outcome_rooted(content.take(n), home);
        lemma_outcomes_rooted(content.skip(n), home);
        let later = outcomes(content.skip(n), home);
        assert forall|i: int| 0 <= i < outcomes(content, home).len() implies ((#[trigger] outcomes(
            content,
            home,
        )[i]) matches Outcome::Assigned(_, Some(path)) ==> is_absolute(path)) by {
            if i > 0 {
                assert(outcomes(content, home)[i] == later[i - 1]);
            }
        }
    }
}

/// A whole line: it ends in a newline and holds no other.
pub open spec fn is_line(line: Seq<u8>) -> bool {
    &&& line.len() > 0
    &&& line.last() == NEWLINE
    &&& !line.drop_last().contains(NEWLINE)
}

/// A content in which no line is cut off: it is empty or ends in a newline.
pub open spec fn ends_lines(content: Seq<u8>) -> bool {
    content.len() == 0 || content.last() == NEWLINE
}

proof fn lemma_line_len_within(front: Seq<u8>, back: Seq<u8>)
    requires
        front.contains(NEWLINE),
    ensures
        line_len(front + back) == line_len(front),
        front[line_len(front) - 1] == NEWLINE,
        !front.take(line_len(front) - 1).contains(NEWLINE),
    decreases front.len(),
{
    let whole = front + back;
    assert(whole[0] == front[0]);
    if front[0] == NEWLINE {
        assert(front.take(0) =~= Seq::<u8>::empty());
    } else {
        let i = choose|i: int| 0 <= i < front.len() && front[i] == NEWLINE;
        assert(front.drop_first()[i - 1] == NEWLINE);
        assert(whole.drop_first() =~= front.drop_first() + back);
        lemma_line_len_within(front.drop_first(), back);
        lemma_line_len_bounds(front.drop_first());
        let n = line_len(front) as int;
        assert(front.take(n - 1).drop_first() =~= front.drop_first().take(n - 2));
        let head = front.take(n - 1);
        if head.contains(NEWLINE) {
            let j = choose|j: int| 0 <= j < head.len() && head[j] == NEWLINE;
            assert(head.drop_first()[j - 1] == NEWLINE);
        }
    }
}

/// The first line of a content that starts with a whole line is that line.
pub proof fn lemma_first_line(line: Seq<u8>, back: Seq<u8>, home: Seq<u8>)
    requires
        is_line(line),
    ensures
        line_len(line + back) == line.len(),
        outcomes(line + back, home) == seq![outcome(line, home)] + outcomes(back, home),
{
    let n = line.len() as int;
    assert(line[n - 1] == NEWLINE);
    lemma_line_len_within(line, back);
    lemma_line_len_bounds(line);
    let m = line_len(line) as int;
    if m < n {
        assert(line.drop_last()[m - 1] == NEWLINE);
    }
    assert((line + back).take(n) =~= line);
    assert((line + back).skip(n) =~= back);
}

/// Lines are read one after the other: behind a content in which no line is
/// cut off, what follows is read as if it stood alone.
pub proof fn lemma_outcomes_concat(front: Seq<u8>, back: Seq<u8>, home: Seq<u8>)
    requires
        ends_lines(front),
    ensures
        outcomes(front + back, home) == outcomes(front, home) + outcomes(back, home),
    decreases front.len(),
{
    if front.len() == 0 {
        assert(front + back =~= back);
        assert(outcomes(front, home) + outcomes(back, home) =~= outcomes(back, home));
    } else {
        assert(front[front.len() - 1] == NEWLINE);
        lemma_line_len_within(front, back);
        lemma_line_len_bounds(front);
        let n = line_len(front) as int;
        let whole = front + back;
        assert(whole.take(n) =~= front.take(n));
        assert(whole.skip(n) =~= front.skip(n) + back);
        if front.skip(n).len() > 0 {
            assert(front.skip(n).last() == front.last());
        }
        lemma_outcomes_concat(front.skip(n), back, home);
        assert(outcomes(whole, home) =~= outcomes(front, home) + outcomes(back, home));
    }
}

/// What a whole line comes to does not hang on what stands around it.
pub proof fn lemma_outcomes_around(front: Seq<u8>, line: Seq<u8>, back: Seq<u8>, home: Seq<u8>)
    requires
        ends_lines(front),
        is_line(line),
    ensures
        outcomes(front + line + back, home) == outcomes(front, home) + seq![outcome(line, home)]
            + outcomes(back, home),
        outcomes(front + back, home) == outcomes(front, home) + outcomes(back, home),
{
    assert(front + line + back =~= front + (line + back));
    lemma_outcomes_concat(front, line + back, home);
    lemma_first_line(line, back, home);
    lemma_outcomes_concat(front, back, home);
    assert(outcomes(front, home) + (seq![outcome(line, home)] + outcomes(back, home))
        =~= outcomes(front, home) + seq![outcome(line, home)] + outcomes(back, home));
}

/// `outcomes` from its first line that is not skipped.
pub open spec fn pending(outcomes: Seq<Outcome>) -> Seq<Outcome>
    decreases outcomes.len(),
{
    if outcomes.len() > 0 && outcomes[0] is Skipped {
        pending(outcomes.drop_first())
    } else {
        outcomes
    }
}

/// Where the line that starts at `from` ends.
fn line_end(content: &[u8], from: usize) -> (end: usize)
    requires
        from <= content@.len(),
    ensures
        end == from + line_len(content@.skip(from as int)),
        end <= content@.len(),
{
    let mut i: usize = from;
    while i < content.len()
        invariant
            from <= i <= content@.len(),
            line_len(content@.skip(from as int)) == (i - from) + line_len(content@.skip(i as int)),
        decreases content@.len() - i,
    {
        assert(content@.skip(i as int).drop_first() =~= content@.skip(i + 1));
        if content[i] == NEWLINE {
            return i + 1;
        }
        i += 1;
    }
    i
}

/// The assignments of a content that are still to be handed out.
pub struct Entries<'a> {
    home: &'a Home,
    content: &'a [u8],
    at: usize,
}

impl<'a> Entries<'a> {
    #[verifier::type_invariant]
    spec fn in_bounds(self) -> bool {
        self.at <= self.content@.len()
    }

    /// The home directory that the paths are resolved against.
    pub closed spec fn home(self) -> Seq<u8> {
        self.home@
    }

    /// The content that has not been read yet.
    pub closed spec fn rest(self) -> Seq<u8> {
        self.content@.skip(self.at as int)
    }

    /// What the lines come to that have not been read yet.
    pub open spec fn ahead(self) -> Seq<Outcome> {
        outcomes(self.rest(), self.home())
    }

    /// Hands out the next assignment.
    ///
    /// Lines that assign nothing are passed over. Gives `None` when no line
    /// is left, and `Error::Parse` at a line whose value is not valid text.
    pub fn next_entry(&mut self) -> (entry: Result<Option<Assignment>, Error>)
        ensures
            final(self).home() == old(self).home(),
            ({
                let due = pending(old(self).ahead());
                if due.len() == 0 {
                    entry matches Ok(None) && final(self).ahead().len() == 0
                } else {
                    match due[0] {
                        Outcome::Skipped => false,
                        Outcome::Invalid => entry matches Err(Error::Parse),
                        Outcome::Assigned(key, path) => entry matches Ok(Some(a)) && a@ == (
                            key,
                            path,
                        ) && final(self).ahead() == due.drop_first(),
                    }
                }
            }),
            entry matches Ok(Some(a)) ==> a.rooted(),
    {
        proof {
            use_type_invariant(&*self);
        }
        while self.at < self.content.len()
            invariant
                self.at <= self.content@.len(),
                self.home() == old(self).home(),
                pending(self.ahead()) == pending(old(self).ahead()),
            decreases self.content@.len() - self.at,
        {
            let ghost rest = self.rest();
            let ghost before = self.ahead();
            let end = line_end(self.content, self.at);
            let line = slice_subrange(self.content, self.at, end);
            proof {
                lemma_line_len_bounds(rest);
                assert(line@ =~= rest.take(line_len(rest) as int));
                assert(self.content@.skip(end as int) =~= rest.skip(line_len(rest) as int));
            }
            self.at = end;
            proof {
                assert(before =~= seq![outcome(line@, self.home())] + self.ahead());
                assert(before.drop_first() =~= self.ahead());
            }
            match read_entry(line, self.home) {
                Err(e) => {
                    return Err(e);
                },
                Ok(Some(assignment)) => {
                    return Ok(Some(assignment));
                },
                Ok(None) => {},
            }
        }
        proof {
            assert(self.rest().len() == 0);
        }
        Ok(None)
    }
}

/// Starts to read the content of a configuration file. Nothing is read
/// before the first assignment is asked for.
pub fn parse_file<'a>(home: &'a Home, content: &'a [u8]) -> (entries: Entries<'a>)
    ensures
        entries.home() == home@,
        entries.rest() == content@,
{
    assert(content@.skip(0) =~= content@);
    Entries { home, content, at: 0 }
}

} // verus!
