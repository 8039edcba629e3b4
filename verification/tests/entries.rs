use std::path::Path;
use xdg_user::path::Home;
use xdg_user::utils::{
    parse_file, read_entry, Dir, DESKTOP, DOCUMENTS, DOWNLOADS, MUSIC, PICTURES, PUBLIC, TEMPLATES,
    VIDEOS,
};
use xdg_user::Error;

fn alice() -> Home {
    Home::new(b"/home/alice".to_vec()).unwrap()
}

fn entry(line: &[u8], home: &Home) -> Result<Option<(Vec<u8>, Option<Vec<u8>>)>, Error> {
    read_entry(line, home).map(|found| found.map(|a| (a.key, a.path)))
}

fn assigned(key: &[u8], path: &[u8]) -> Option<(Vec<u8>, Option<Vec<u8>>)> {
    Some((key.to_vec(), Some(path.to_vec())))
}

fn unset(key: &[u8]) -> Option<(Vec<u8>, Option<Vec<u8>>)> {
    Some((key.to_vec(), None))
}

#[test]
fn absolute_value_resolves_to_itself() {
    let found = entry(b"KEY=\"/abs/path\"\n", &alice()).unwrap();
    assert_eq!(found, assigned(b"KEY", b"/abs/path"));
}

#[test]
fn home_relative_value_is_joined_to_home() {
    let found = entry(b"KEY=\"$HOME/sub/dir\"\n", &alice()).unwrap();
    assert_eq!(found, assigned(b"KEY", b"/home/alice/sub/dir"));
    let theirs = Path::new("/home/alice").join("sub/dir");
    assert_eq!(found.unwrap().1.unwrap(), theirs.to_str().unwrap().as_bytes().to_vec());
}

#[test]
fn home_relative_value_below_a_home_that_ends_in_a_slash() {
    let root = Home::new(b"/".to_vec()).unwrap();
    assert_eq!(entry(b"KEY=\"$HOME/Docs\"\n", &root).unwrap(), assigned(b"KEY", b"/Docs"));
}

#[test]
fn home_itself_means_unset() {
    assert_eq!(entry(b"KEY=\"$HOME/\"\n", &alice()).unwrap(), unset(b"KEY"));
    assert_eq!(entry(b"XDG_MUSIC_DIR=\"$HOME/\"", &alice()).unwrap(), unset(b"XDG_MUSIC_DIR"));
    assert_eq!(entry(b"anything = \"$HOME/\"\n", &alice()).unwrap(), unset(b"anything"));
}

#[test]
fn suffix_that_is_absolute_replaces_home() {
    let found = entry(b"KEY=\"$HOME//mnt/x\"\n", &alice()).unwrap();
    assert_eq!(found, assigned(b"KEY", b"/mnt/x"));
    let theirs = Path::new("/home/alice").join("/mnt/x");
    assert_eq!(found.unwrap().1.unwrap(), theirs.to_str().unwrap().as_bytes().to_vec());
}

#[test]
fn home_without_slash_is_not_home_relative() {
    assert_eq!(entry(b"KEY=\"$HOME\"\n", &alice()).unwrap(), None);
    assert_eq!(entry(b"KEY=\"$HOMEDIR/x\"\n", &alice()).unwrap(), None);
    assert_eq!(entry(b"KEY=\"${HOME}/x\"\n", &alice()).unwrap(), None);
}

#[test]
fn value_that_is_no_path_is_passed_over() {
    assert_eq!(entry(b"KEY=\"relative/dir\"\n", &alice()).unwrap(), None);
    assert_eq!(entry(b"KEY=\"\"\n", &alice()).unwrap(), None);
    assert_eq!(entry(b"KEY=\"a\\\"b\"\n", &alice()).unwrap(), None);
    assert_eq!(entry(b"KEY=\"~/Desktop\"\n", &alice()).unwrap(), None);
}

#[test]
fn escapes_are_resolved_in_the_path() {
    let found = entry(b"KEY=\"/a\\\"b\\\\c\"\n", &alice()).unwrap();
    assert_eq!(found, assigned(b"KEY", b"/a\"b\\c"));
    let found = entry(b"KEY=\"$HOME/My\\ Music\"\n", &alice()).unwrap();
    assert_eq!(found, assigned(b"KEY", b"/home/alice/My Music"));
}

#[test]
fn escaped_marker_is_still_the_marker() {
    let found = entry(b"KEY=\"\\$HOME/Docs\"\n", &alice()).unwrap();
    assert_eq!(found, assigned(b"KEY", b"/home/alice/Docs"));
}

#[test]
fn malformed_line_is_no_error() {
    assert_eq!(entry(b"", &alice()).unwrap(), None);
    assert_eq!(entry(b"# comment\n", &alice()).unwrap(), None);
    assert_eq!(entry(b"KEY=/abs\n", &alice()).unwrap(), None);
    assert_eq!(entry(b"KEY \"/abs\"\n", &alice()).unwrap(), None);
    assert_eq!(entry(b"=\"/abs\"\n", &alice()).unwrap(), None);
    assert_eq!(entry(b"KEY=\"/abs\n", &alice()).unwrap(), None);
}

#[test]
fn value_that_is_no_text_is_a_parse_error() {
    assert!(matches!(entry(b"KEY=\"/a\xffb\"\n", &alice()), Err(Error::Parse)));
    assert!(matches!(entry(b"KEY=\"$HOME/\xc3\"\n", &alice()), Err(Error::Parse)));
    assert!(matches!(entry(b"KEY=\"\xff\"\n", &alice()), Err(Error::Parse)));
    assert!(matches!(entry(b"UNKNOWN=\"/\xed\xa0\x80\"\n", &alice()), Err(Error::Parse)));
}

#[test]
fn bytes_that_are_no_text_outside_the_value_are_no_error() {
    assert_eq!(entry(b"KEY=\"/abs\" \xff\n", &alice()).unwrap(), assigned(b"KEY", b"/abs"));
    assert_eq!(entry(b"K\xffY=\"/abs\"\n", &alice()).unwrap(), assigned(b"K\xffY", b"/abs"));
    assert_eq!(entry(b"KEY=\"/abs\xff\n", &alice()).unwrap(), None);
}

#[test]
fn value_of_text_beyond_ascii_is_kept() {
    let line = "KEY=\"$HOME/Te\u{301}le\u{301}chargements/\u{65e5}\u{672c}\"\n";
    let found = entry(line.as_bytes(), &alice()).unwrap();
    let path = "/home/alice/Te\u{301}le\u{301}chargements/\u{65e5}\u{672c}";
    assert_eq!(found, assigned(b"KEY", path.as_bytes()));
}

#[test]
fn home_that_is_no_text_is_kept_in_the_path() {
    let home = Home::new(b"/home/\xff".to_vec()).unwrap();
    let found = entry(b"KEY=\"$HOME/Docs\"\n", &home).unwrap();
    assert_eq!(found, assigned(b"KEY", b"/home/\xff/Docs"));
}

fn all(content: &[u8]) -> Result<Vec<(Vec<u8>, Option<Vec<u8>>)>, Error> {
    let home = alice();
    let mut entries = parse_file(&home, content);
    let mut found = Vec::new();
    while let Some(a) = entries.next_entry()? {
        found.push((a.key, a.path));
    }
    assert!(entries.next_entry()?.is_none());
    Ok(found)
}

#[test]
fn empty_content_has_no_entries() {
    assert_eq!(all(b"").unwrap(), vec![]);
    assert_eq!(all(b"\n\n\n").unwrap(), vec![]);
}

#[test]
fn entries_come_in_the_order_of_their_lines() {
    let content = b"# head\nA=\"/a\"\n\nB = \"$HOME/b\"\nbroken line\nC=\"$HOME/\"\nD=\"/d\"";
    assert_eq!(
        all(content).unwrap(),
        vec![
            (b"A".to_vec(), Some(b"/a".to_vec())),
            (b"B".to_vec(), Some(b"/home/alice/b".to_vec())),
            (b"C".to_vec(), None),
            (b"D".to_vec(), Some(b"/d".to_vec())),
        ]
    );
}

#[test]
fn lines_end_at_newlines_only() {
    let content = b"A=\"/a\"\r\nB=\"/b\"\rC=\"/c\"\n";
    assert_eq!(
        all(content).unwrap(),
        vec![(b"A".to_vec(), Some(b"/a".to_vec())), (b"B".to_vec(), Some(b"/b".to_vec()))]
    );
}

#[test]
fn value_does_not_run_over_the_end_of_its_line() {
    let content = b"A=\"/a\nB=\"/b\"\n";
    assert_eq!(all(content).unwrap(), vec![(b"B".to_vec(), Some(b"/b".to_vec()))]);
}

#[test]
fn walk_stops_at_a_value_that_is_no_text() {
    let home = alice();
    let mut entries = parse_file(&home, b"A=\"/a\"\nB=\"/\xff\"\nC=\"/c\"\n");
    assert_eq!(entries.next_entry().unwrap().unwrap().key, b"A".to_vec());
    assert!(matches!(entries.next_entry(), Err(Error::Parse)));
}

#[test]
fn directories_have_their_keys() {
    assert_eq!(Dir::Desktop.name(), b"XDG_DESKTOP_DIR");
    assert_eq!(Dir::Documents.name(), b"XDG_DOCUMENTS_DIR");
    assert_eq!(Dir::Downloads.name(), b"XDG_DOWNLOAD_DIR");
    assert_eq!(Dir::Music.name(), b"XDG_MUSIC_DIR");
    assert_eq!(Dir::Pictures.name(), b"XDG_PICTURES_DIR");
    assert_eq!(Dir::Public.name(), b"XDG_PUBLICSHARE_DIR");
    assert_eq!(Dir::Templates.name(), b"XDG_TEMPLATES_DIR");
    assert_eq!(Dir::Videos.name(), b"XDG_VIDEOS_DIR");
    assert_eq!(Dir::Desktop.name(), DESKTOP.as_bytes());
    assert_eq!(Dir::Documents.name(), DOCUMENTS.as_bytes());
    assert_eq!(Dir::Downloads.name(), DOWNLOADS.as_bytes());
    assert_eq!(Dir::Music.name(), MUSIC.as_bytes());
    assert_eq!(Dir::Pictures.name(), PICTURES.as_bytes());
    assert_eq!(Dir::Public.name(), PUBLIC.as_bytes());
    assert_eq!(Dir::Templates.name(), TEMPLATES.as_bytes());
    assert_eq!(Dir::Videos.name(), VIDEOS.as_bytes());
}

#[test]
fn keys_name_their_directories() {
    let dirs = [
        Dir::Desktop,
        Dir::Documents,
        Dir::Downloads,
        Dir::Music,
        Dir::Pictures,
        Dir::Public,
        Dir::Templates,
        Dir::Videos,
    ];
    for dir in dirs {
        assert_eq!(Dir::of_key(dir.name()), Some(dir));
    }
    assert_eq!(Dir::of_key(b"XDG_DOWNLOADS_DIR"), None);
    assert_eq!(Dir::of_key(b"xdg_desktop_dir"), None);
    assert_eq!(Dir::of_key(b"XDG_DESKTOP_DIR "), None);
    assert_eq!(Dir::of_key(b"XDG_DESKTOP"), None);
    assert_eq!(Dir::of_key(b""), None);
}
