use xdg_user::path::Home;
use xdg_user::utils::Dir;
use xdg_user::{
    desktop, documents, downloads, music, pictures, public, read_single, templates, videos, Error,
    UserDirs,
};

const DIRS: [Dir; 8] = [
    Dir::Desktop,
    Dir::Documents,
    Dir::Downloads,
    Dir::Music,
    Dir::Pictures,
    Dir::Public,
    Dir::Templates,
    Dir::Videos,
];

const FULL: &[u8] = b"# This file is written by xdg-user-dirs-update\n\
# If you want to change or add directories, just edit the line you're\n\
# interested in. All local changes will be retained on the next run.\n\
# Format is XDG_xxx_DIR=\"$HOME/yyy\", where yyy is a shell-escaped\n\
# homedir-relative path, or XDG_xxx_DIR=\"/yyy\", where /yyy is an\n\
# absolute path. No other format is supported.\n\
# \n\
XDG_DESKTOP_DIR=\"$HOME/Desktop\"\n\
XDG_DOWNLOAD_DIR=\"$HOME/Downloads\"\n\
XDG_TEMPLATES_DIR=\"$HOME/Templates\"\n\
XDG_PUBLICSHARE_DIR=\"$HOME/Public\"\n\
XDG_DOCUMENTS_DIR=\"$HOME/Documents\"\n\
XDG_MUSIC_DIR=\"$HOME/Music\"\n\
XDG_PICTURES_DIR=\"$HOME/Pictures\"\n\
XDG_VIDEOS_DIR=\"$HOME/Videos\"\n";

fn alice() -> Home {
    Home::new(b"/home/alice".to_vec()).unwrap()
}

fn direct(dir: Dir, home: &Home, content: &[u8]) -> Result<Option<Vec<u8>>, Error> {
    match dir {
        Dir::Desktop => desktop(home, content),
        Dir::Documents => documents(home, content),
        Dir::Downloads => downloads(home, content),
        Dir::Music => music(home, content),
        Dir::Pictures => pictures(home, content),
        Dir::Public => public(home, content),
        Dir::Templates => templates(home, content),
        Dir::Videos => videos(home, content),
    }
}

#[test]
fn documents_below_home_and_music_elsewhere() {
    let content = b"XDG_DOCUMENTS_DIR=\"$HOME/Docs\"\nXDG_MUSIC_DIR=\"/mnt/music\"\n";
    let dirs = UserDirs::new(&alice(), content).unwrap();
    assert_eq!(dirs.documents(), Some(&b"/home/alice/Docs"[..]));
    assert_eq!(dirs.music(), Some(&b"/mnt/music"[..]));
    assert_eq!(dirs.desktop(), None);
    assert_eq!(dirs.downloads(), None);
    assert_eq!(dirs.pictures(), None);
    assert_eq!(dirs.public(), None);
    assert_eq!(dirs.templates(), None);
    assert_eq!(dirs.videos(), None);
}

#[test]
fn every_directory_has_its_accessor() {
    let dirs = UserDirs::new(&alice(), FULL).unwrap();
    assert_eq!(dirs.desktop(), Some(&b"/home/alice/Desktop"[..]));
    assert_eq!(dirs.documents(), Some(&b"/home/alice/Documents"[..]));
    assert_eq!(dirs.downloads(), Some(&b"/home/alice/Downloads"[..]));
    assert_eq!(dirs.music(), Some(&b"/home/alice/Music"[..]));
    assert_eq!(dirs.pictures(), Some(&b"/home/alice/Pictures"[..]));
    assert_eq!(dirs.public(), Some(&b"/home/alice/Public"[..]));
    assert_eq!(dirs.templates(), Some(&b"/home/alice/Templates"[..]));
    assert_eq!(dirs.videos(), Some(&b"/home/alice/Videos"[..]));
}

#[test]
fn every_directory_has_its_function() {
    let home = alice();
    assert_eq!(desktop(&home, FULL).unwrap(), Some(b"/home/alice/Desktop".to_vec()));
    assert_eq!(documents(&home, FULL).unwrap(), Some(b"/home/alice/Documents".to_vec()));
    assert_eq!(downloads(&home, FULL).unwrap(), Some(b"/home/alice/Downloads".to_vec()));
    assert_eq!(music(&home, FULL).unwrap(), Some(b"/home/alice/Music".to_vec()));
    assert_eq!(pictures(&home, FULL).unwrap(), Some(b"/home/alice/Pictures".to_vec()));
    assert_eq!(public(&home, FULL).unwrap(), Some(b"/home/alice/Public".to_vec()));
    assert_eq!(templates(&home, FULL).unwrap(), Some(b"/home/alice/Templates".to_vec()));
    assert_eq!(videos(&home, FULL).unwrap(), Some(b"/home/alice/Videos".to_vec()));
}

#[test]
fn get_agrees_with_the_accessors() {
    let dirs = UserDirs::new(&alice(), FULL).unwrap();
    assert_eq!(dirs.get(Dir::Desktop), dirs.desktop());
    assert_eq!(dirs.get(Dir::Documents), dirs.documents());
    assert_eq!(dirs.get(Dir::Downloads), dirs.downloads());
    assert_eq!(dirs.get(Dir::Music), dirs.music());
    assert_eq!(dirs.get(Dir::Pictures), dirs.pictures());
    assert_eq!(dirs.get(Dir::Public), dirs.public());
    assert_eq!(dirs.get(Dir::Templates), dirs.templates());
    assert_eq!(dirs.get(Dir::Videos), dirs.videos());
}

#[test]
fn empty_content_sets_nothing() {
    let dirs = UserDirs::new(&alice(), b"").unwrap();
    for dir in DIRS {
        assert_eq!(dirs.get(dir), None);
        assert_eq!(direct(dir, &alice(), b"").unwrap(), None);
    }
}

#[test]
fn home_itself_sets_nothing() {
    let content = b"XDG_DESKTOP_DIR=\"$HOME/\"\nXDG_VIDEOS_DIR=\"$HOME/Videos\"\n";
    let dirs = UserDirs::new(&alice(), content).unwrap();
    assert_eq!(dirs.desktop(), None);
    assert_eq!(dirs.videos(), Some(&b"/home/alice/Videos"[..]));
    assert_eq!(desktop(&alice(), content).unwrap(), None);
}

#[test]
fn unknown_keys_leave_no_trace() {
    let with = b"XDG_MUSIC_DIR=\"/m\"\nXDG_GAMES_DIR=\"/games\"\nxdg_music_dir=\"/other\"\nPATH=\"/bin\"\n";
    let without = b"XDG_MUSIC_DIR=\"/m\"\n";
    let a = UserDirs::new(&alice(), with).unwrap();
    let b = UserDirs::new(&alice(), without).unwrap();
    for dir in DIRS {
        assert_eq!(a.get(dir), b.get(dir));
    }
    assert_eq!(a.music(), Some(&b"/m"[..]));
}

#[test]
fn malformed_lines_do_not_stop_the_reading() {
    let content = b"XDG_MUSIC_DIR=/no/quotes\n\
XDG_MUSIC_DIR \"/no/equals\"\n\
=\"/no/key\"\n\
XDG_MUSIC_DIR=\"/no/end\n\
XDG_MUSIC_DIR=\"not a path\"\n\
XDG_MUSIC_DIR=\"/mnt/music\"\n\
XDG_VIDEOS_DIR=\"/mnt/videos\"";
    let dirs = UserDirs::new(&alice(), content).unwrap();
    assert_eq!(dirs.music(), Some(&b"/mnt/music"[..]));
    assert_eq!(dirs.videos(), Some(&b"/mnt/videos"[..]));
    assert_eq!(music(&alice(), content).unwrap(), Some(b"/mnt/music".to_vec()));
    assert_eq!(videos(&alice(), content).unwrap(), Some(b"/mnt/videos".to_vec()));
}

#[test]
fn snapshot_keeps_the_last_assignment() {
    let content = b"XDG_MUSIC_DIR=\"/first\"\nXDG_MUSIC_DIR=\"/second\"\n";
    let dirs = UserDirs::new(&alice(), content).unwrap();
    assert_eq!(dirs.music(), Some(&b"/second"[..]));
    let content = b"XDG_MUSIC_DIR=\"/first\"\nXDG_MUSIC_DIR=\"$HOME/\"\n";
    let dirs = UserDirs::new(&alice(), content).unwrap();
    assert_eq!(dirs.music(), None);
}

#[test]
fn lookup_stops_at_the_first_assignment() {
    let content = b"XDG_MUSIC_DIR=\"/first\"\nXDG_MUSIC_DIR=\"/second\"\n";
    assert_eq!(music(&alice(), content).unwrap(), Some(b"/first".to_vec()));
    let content = b"XDG_MUSIC_DIR=\"$HOME/\"\nXDG_MUSIC_DIR=\"/second\"\n";
    assert_eq!(music(&alice(), content).unwrap(), None);
}

#[test]
fn snapshot_and_lookup_agree_where_each_key_is_assigned_once() {
    let home = alice();
    let contents: [&[u8]; 4] = [
        FULL,
        b"XDG_DOCUMENTS_DIR=\"$HOME/Docs\"\nXDG_MUSIC_DIR=\"/mnt/music\"\n",
        b"XDG_PICTURES_DIR=\"$HOME/\"\nXDG_TEMPLATES_DIR=\"/t\"\nnoise\n",
        b"XDG_MUSIC_DIR=\"/same\"\nXDG_VIDEOS_DIR=\"/v\"\nXDG_MUSIC_DIR=\"/same\"\n",
    ];
    for content in contents {
        let dirs = UserDirs::new(&home, content).unwrap();
        for dir in DIRS {
            let alone = direct(dir, &home, content).unwrap();
            assert_eq!(dirs.get(dir), alone.as_deref());
        }
    }
}

#[test]
fn snapshot_fails_on_any_value_that_is_no_text() {
    let content = b"XDG_MUSIC_DIR=\"/m\"\nXDG_VIDEOS_DIR=\"/v\xff\"\n";
    assert!(matches!(UserDirs::new(&alice(), content), Err(Error::Parse)));
    let content = b"XDG_MUSIC_DIR=\"/m\"\nUNKNOWN=\"/\xff\"\n";
    assert!(matches!(UserDirs::new(&alice(), content), Err(Error::Parse)));
}

#[test]
fn lookup_fails_on_a_value_that_is_no_text_before_its_line() {
    let content = b"XDG_VIDEOS_DIR=\"/v\xff\"\nXDG_MUSIC_DIR=\"/m\"\n";
    assert!(matches!(music(&alice(), content), Err(Error::Parse)));
    assert!(matches!(videos(&alice(), content), Err(Error::Parse)));
    assert!(matches!(desktop(&alice(), content), Err(Error::Parse)));
}

#[test]
fn lookup_does_not_read_behind_its_line() {
    let content = b"XDG_MUSIC_DIR=\"/m\"\nXDG_VIDEOS_DIR=\"/v\xff\"\n";
    assert_eq!(music(&alice(), content).unwrap(), Some(b"/m".to_vec()));
    assert!(matches!(videos(&alice(), content), Err(Error::Parse)));
    assert!(matches!(desktop(&alice(), content), Err(Error::Parse)));
}

#[test]
fn read_single_takes_any_key() {
    let content = b"XDG_GAMES_DIR=\"$HOME/Games\"\nXDG_MUSIC_DIR=\"/m\"\n";
    let home = alice();
    assert_eq!(
        read_single(b"XDG_GAMES_DIR", &home, content).unwrap(),
        Some(b"/home/alice/Games".to_vec())
    );
    assert_eq!(read_single(b"XDG_MUSIC_DIR", &home, content).unwrap(), Some(b"/m".to_vec()));
    assert_eq!(read_single(b"XDG_MUSIC", &home, content).unwrap(), None);
    assert_eq!(read_single(b"xdg_music_dir", &home, content).unwrap(), None);
    assert_eq!(read_single(b"", &home, content).unwrap(), None);
}

#[test]
fn paths_of_a_snapshot_are_absolute() {
    let content = b"XDG_MUSIC_DIR=\"$HOME/m\"\nXDG_VIDEOS_DIR=\"v\"\nXDG_DESKTOP_DIR=\"/d\"\n";
    let dirs = UserDirs::new(&alice(), content).unwrap();
    for dir in DIRS {
        if let Some(path) = dirs.get(dir) {
            assert_eq!(path[0], b'/');
        }
    }
    assert_eq!(dirs.videos(), None);
}

#[test]
fn errors_say_what_went_wrong() {
    assert_eq!(Error::NoHome.message(), "unable to find the home directory");
    assert_eq!(Error::Parse.message(), "error while parsing");
    let io = std::io::Error::new(std::io::ErrorKind::NotFound, "no such file");
    assert_eq!(Error::Io(io).message(), "no such file");
}

#[test]
fn errors_come_from_the_failures_below() {
    let io = std::io::Error::new(std::io::ErrorKind::PermissionDenied, "denied");
    match Error::from(io) {
        Error::Io(e) => assert_eq!(e.kind(), std::io::ErrorKind::PermissionDenied),
        other => panic!("{other:?}"),
    }
    let invalid = std::str::from_utf8(b"\xff").unwrap_err();
    assert!(matches!(Error::from(invalid), Error::Parse));
}
