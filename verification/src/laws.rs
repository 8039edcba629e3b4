//! What holds of the two ways of reading a content: all directories at once
//! ([`snapshot`]) and one directory alone ([`lookup`]).
//!
//! Lines that assign nothing, and lines that assign to a key which names no
//! directory, leave no trace. Of several lines that assign one directory the
//! last counts where all are read, and the first where the reading stops at
//! it; the two ways agree where these assign the same.
use crate::parser::parsed;
use crate::path::is_absolute;
use crate::utils::{
    ends_lines, is_line, lemma_keys_differ, lemma_outcomes_around, lemma_outcomes_rooted, outcome,
    outcomes, Dir, Outcome,
};
use crate::{assigned, collected, found, lookup, snapshot, Error};
use vstd::prelude::*;

verus! {

/// An outcome that leaves the directories as they are: a line that is passed
/// over, or one that assigns to a key which names none of the eight.
pub open spec fn is_idle(outcome: Outcome) -> bool {
    ||| outcome is Skipped
    ||| outcome matches Outcome::Assigned(key, _) && Dir::named(key) is None
}

proof fn lemma_collected_without(
    dirs: Map<Dir, Seq<u8>>,
    front: Seq<Outcome>,
    idle: Outcome,
    back: Seq<Outcome>,
)
    requires
        is_idle(idle),
    ensures
        collected(dirs, front + seq![idle] + back) == collected(dirs, front + back),
    decreases front.len(),
{
    let with = front + seq![idle] + back;
    let without = front + back;
    if front.len() == 0 {
        assert(with[0] == idle);
        assert(with.drop_first() =~= back);
        assert(without =~= back);
    } else {
        assert(with[0] == front[0] && without[0] == front[0]);
        assert(with.drop_first() =~= front.drop_first() + seq![idle] + back);
        assert(without.drop_first() =~= front.drop_first() + back);
        match front[0] {
            Outcome::Skipped => {
                lemma_collected_without(dirs, front.drop_first(), idle, back);
            },
            Outcome::Invalid => {},
            Outcome::Assigned(key, path) => {
                lemma_collected_without(
                    assigned(dirs, key, path),
                    front.drop_first(),
                    idle,
                    back,
                );
            },
        }
    }
}

proof fn lemma_found_without(name: Seq<u8>, front: Seq<Outcome>, back: Seq<Outcome>)
    ensures
        found(name, front + seq![Outcome::Skipped] + back) == found(name, front + back),
    decreases front.len(),
{
    let with = front + seq![Outcome::Skipped] + back;
    let without = front + back;
    if front.len() == 0 {
        assert(with[0] == Outcome::Skipped);
        assert(with.drop_first() =~= back);
        assert(without =~= back);
    } else {
        assert(with[0] == front[0] && without[0] == front[0]);
        assert(with.drop_first() =~= front.drop_first() + seq![Outcome::Skipped] + back);
        assert(without.drop_first() =~= front.drop_first() + back);
        lemma_found_without(name, front.drop_first(), back);
    }
}

/// A line that the grammar does not accept is passed over without an error,
/// and the lines behind it are read: the content reads as it would without
/// the line, for all eight directories and for each key alone.
pub proof fn lemma_malformed_line_passed_over(
    front: Seq<u8>,
    line: Seq<u8>,
    back: Seq<u8>,
    home: Seq<u8>,
    name: Seq<u8>,
)
    requires
        ends_lines(front),
        is_line(line),
        parsed(line) is None,
    ensures
        outcome(line, home) is Skipped,
        snapshot(front + line + back, home) == snapshot(front + back, home),
        lookup(name, front + line + back, home) == lookup(name, front + back, home),
{
    lemma_outcomes_around(front, line, back, home);
    lemma_collected_without(
        Map::empty(),
        outcomes(front, home),
        Outcome::Skipped,
        outcomes(back, home),
    );
    lemma_found_without(name, outcomes(front, home), outcomes(back, home));
}

/// A key that is none of the eight changes no directory, whatever is
/// assigned to it.
pub proof fn lemma_unknown_key_ignored(
    dirs: Map<Dir, Seq<u8>>,
    key: Seq<u8>,
    path: Option<Seq<u8>>,
)
    requires
        forall|dir: Dir| key != #[trigger] dir.key(),
    ensures
        Dir::named(key) is None,
        assigned(dirs, key, path) == dirs,
{
    assert(key != Dir::Desktop.key());
    assert(key != Dir::Documents.key());
    assert(key != Dir::Downloads.key());
    assert(key != Dir::Music.key());
    assert(key != Dir::Pictures.key());
    assert(key != Dir::Public.key());
    assert(key != Dir::Templates.key());
    assert(key != Dir::Videos.key());
}

/// A line that assigns to a key which is none of the eight is read, and
/// leaves no trace in the directories: they are what they would be without
/// the line.
pub proof fn lemma_unknown_key_passed_over(
    front: Seq<u8>,
    line: Seq<u8>,
    back: Seq<u8>,
    home: Seq<u8>,
)
    requires
        ends_lines(front),
        is_line(line),
        outcome(line, home) matches Outcome::Assigned(key, _) && forall|dir: Dir|
            key != #[trigger] dir.key(),
    ensures
        snapshot(front + line + back, home) == snapshot(front + back, home),
{
    lemma_outcomes_around(front, line, back, home);
    if let Outcome::Assigned(key, path) = outcome(line, home) {
        lemma_unknown_key_ignored(Map::empty(), key, path);
    }
    lemma_collected_without(
        Map::empty(),
        outcomes(front, home),
        outcome(line, home),
        outcomes(back, home),
    );
}

/// What the lines assign to the key `name`, in their order; `None` stands
/// for a line that unsets the key.
pub open spec fn assignments(name: Seq<u8>, outcomes: Seq<Outcome>) -> Seq<Option<Seq<u8>>>
    decreases outcomes.len(),
{
    if outcomes.len() == 0 {
        Seq::empty()
    } else {
        let later = assignments(name, outcomes.drop_first());
        match outcomes[0] {
            Outcome::Assigned(key, path) => if key == name {
                seq![path] + later
            } else {
                later
            },
            _ => later,
        }
    }
}

/// Of the lines that assign a directory, the last one counts where all
/// lines are read.
pub proof fn lemma_collected_keeps_last(dirs: Map<Dir, Seq<u8>>, outcomes: Seq<Outcome>, dir: Dir)
    requires
        collected(dirs, outcomes) is Ok,
    ensures
        collected(dirs, outcomes)->Ok_0.get(dir) == if assignments(dir.key(), outcomes).len()
            == 0 {
            dirs.get(dir)
        } else {
            assignments(dir.key(), outcomes).last()
        },
    decreases outcomes.len(),
{
    if outcomes.len() > 0 {
        let rest = outcomes.drop_first();
        match outcomes[0] {
            Outcome::Skipped => {
                lemma_collected_keeps_last(dirs, rest, dir);
            },
            Outcome::Invalid => {},
            Outcome::Assigned(key, path) => {
                lemma_keys_differ();
                let next = assigned(dirs, key, path);
                lemma_collected_keeps_last(next, rest, dir);
                if key == dir.key() {
                    assert(Dir::named(key) == Some(dir));
                    assert(next.get(dir) == path);
                    let later = assignments(dir.key(), rest);
                    if later.len() > 0 {
                        assert((seq![path] + later).last() == later.last());
                    }
                } else {
                    assert(Dir::named(key) != Some(dir));
                    assert(next.get(dir) == dirs.get(dir));
                }
            },
        }
    }
}

/// Of the lines that assign a key, the first one counts where the reading
/// stops at it.
pub proof fn lemma_found_gives_first(name: Seq<u8>, outcomes: Seq<Outcome>)
    requires
        found(name, outcomes) is Ok,
    ensures
        found(name, outcomes) == Ok::<Option<Seq<u8>>, Error>(
            if assignments(name, outcomes).len() == 0 {
                None
            } else {
                assignments(name, outcomes).first()
            },
        ),
    decreases outcomes.len(),
{
    if outcomes.len() > 0 {
        let rest = outcomes.drop_first();
        match outcomes[0] {
            Outcome::Skipped => {
                lemma_found_gives_first(name, rest);
            },
            Outcome::Invalid => {},
            Outcome::Assigned(key, path) => {
                if key != name {
                    lemma_found_gives_first(name, rest);
                }
            },
        }
    }
}

/// Where all lines can be read, each key can be looked for.
pub proof fn lemma_collected_found(dirs: Map<Dir, Seq<u8>>, outcomes: Seq<Outcome>, name: Seq<u8>)
    requires
        collected(dirs, outcomes) is Ok,
    ensures
        found(name, outcomes) is Ok,
    decreases outcomes.len(),
{
    if outcomes.len() > 0 {
        let rest = outcomes.drop_first();
        match outcomes[0] {
            Outcome::Skipped => {
                lemma_collected_found(dirs, rest, name);
            },
            Outcome::Invalid => {},
            Outcome::Assigned(key, path) => {
                lemma_collected_found(assigned(dirs, key, path), rest, name);
            },
        }
    }
}

/// Reading all directories at once and reading one directory alone agree on
/// that directory, for a content that can be read to its end and in which the
/// first and the last line that assign the directory assign the same. They
/// differ on every other such content: read alone, the directory is what the
/// first of its lines says; read with the others, what the last one says.
pub proof fn lemma_modes_agree(dir: Dir, content: Seq<u8>, home: Seq<u8>)
    requires
        snapshot(content, home) is Ok,
        ({
            let all = assignments(dir.key(), outcomes(content, home));
            all.len() > 0 ==> all.first() == all.last()
        }),
    ensures
        lookup(dir.key(), content, home) == Ok::<Option<Seq<u8>>, Error>(
            snapshot(content, home)->Ok_0.get(dir),
        ),
{
    let outs = outcomes(content, home);
    lemma_collected_found(Map::empty(), outs, dir.key());
    lemma_found_gives_first(dir.key(), outs);
    lemma_collected_keeps_last(Map::empty(), outs, dir);
}

/// What the two ways of reading give on any content that can be read to its
/// end: the last and the first of what the lines assign to the directory.
pub proof fn lemma_last_and_first(dir: Dir, content: Seq<u8>, home: Seq<u8>)
    requires
        snapshot(content, home) is Ok,
        assignments(dir.key(), outcomes(content, home)).len() > 0,
    ensures
        snapshot(content, home)->Ok_0.get(dir) == assignments(
            dir.key(),
            outcomes(content, home),
        ).last(),
        lookup(dir.key(), content, home) == Ok::<Option<Seq<u8>>, Error>(
            assignments(dir.key(), outcomes(content, home)).first(),
        ),
{
    let outs = outcomes(content, home);
    lemma_collected_found(Map::empty(), outs, dir.key());
    lemma_found_gives_first(dir.key(), outs);
    lemma_collected_keeps_last(Map::empty(), outs, dir);
}

proof fn lemma_collected_rooted(dirs: Map<Dir, Seq<u8>>, outcomes: Seq<Outcome>)
    requires
        forall|dir: Dir| #[trigger] dirs.contains_key(dir) ==> is_absolute(dirs[dir]),
        forall|i: int|
            0 <= i < outcomes.len() ==> ((#[trigger] outcomes[i]) matches Outcome::Assigned(
                _,
                Some(path),
            ) ==> is_absolute(path)),
        collected(dirs, outcomes) is Ok,
    ensures
        forall|dir: Dir| #[trigger]
            collected(dirs, outcomes)->Ok_0.contains_key(dir) ==> is_absolute(
                collected(dirs, outcomes)->Ok_0[dir],
            ),
    decreases outcomes.len(),
{
    if outcomes.len() > 0 {
        let rest = outcomes.drop_first();
        assert forall|i: int| 0 <= i < rest.len() implies ((#[trigger] rest[i])
            matches Outcome::Assigned(_, Some(path)) ==> is_absolute(path)) by {
            assert(rest[i] == outcomes[i + 1]);
        }
        match outcomes[0] {
            Outcome::Skipped => {
                lemma_collected_rooted(dirs, rest);
            },
            Outcome::Invalid => {},
            Outcome::Assigned(key, path) => {
                lemma_collected_rooted(assigned(dirs, key, path), rest);
            },
        }
    }
}

/// Every directory that a content assigns has an absolute path, as long as
/// the home directory has one.
pub proof fn lemma_snapshot_rooted(content: Seq<u8>, home: Seq<u8>)
    requires
        is_absolute(home),
        snapshot(content, home) is Ok,
    ensures
        forall|dir: Dir| #[trigger]
            snapshot(content, home)->Ok_0.contains_key(dir) ==> is_absolute(
                snapshot(content, home)->Ok_0[dir],
            ),
{
    lemma_outcomes_rooted(content, home);
    lemma_collected_rooted(Map::empty(), outcomes(content, home));
}

/// Where one directory cannot be read alone, the directories cannot be read
/// at once either, and both fail alike: a line that is not valid text stops
/// every reading that comes to it.
pub proof fn lemma_modes_fail_alike(name: Seq<u8>, content: Seq<u8>, home: Seq<u8>)
    requires
        lookup(name, content, home) is Err,
    ensures
        lookup(name, content, home) == Err::<Option<Seq<u8>>, Error>(Error::Parse),
        snapshot(content, home) == Err::<Map<Dir, Seq<u8>>, Error>(Error::Parse),
{
    let outs = outcomes(content, home);
    if snapshot(content, home) is Ok {
        lemma_collected_found(Map::empty(), outs, name);
    }
    lemma_failures(Map::empty(), name, outs);
}

proof fn lemma_failures(dirs: Map<Dir, Seq<u8>>, name: Seq<u8>, outcomes: Seq<Outcome>)
    ensures
        collected(dirs, outcomes) matches Err(e) ==> e == Error::Parse,
        found(name, outcomes) matches Err(e) ==> e == Error::Parse,
    decreases outcomes.len(),
{
    if outcomes.len() > 0 {
        let rest = outcomes.drop_first();
        match outcomes[0] {
            Outcome::Skipped => {
                lemma_failures(dirs, name, rest);
            },
            Outcome::Invalid => {},
            Outcome::Assigned(key, path) => {
                lemma_failures(assigned(dirs, key, path), name, rest);
            },
        }
    }
}

} // verus!
