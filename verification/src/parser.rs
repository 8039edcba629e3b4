//! The line grammar of a `user-dirs.dirs` file.
//!
//! A line that assigns a directory has the shape
//!
//! ```text
//! blanks KEY blanks = blanks " RAW " anything
//! ```
//!
//! where blanks are spaces and tabs, `KEY` is a non-empty run of bytes other
//! than space, tab, `=` and backslash that does not start with `#`, and `RAW`
//! runs up to the first double quote that no backslash escapes. The value of
//! the line is `RAW` with every escaping backslash removed.
//!
//! [`parsed`] is the grammar as a function of the line, [`parse_line`]
//! computes it, and [`LineParts`] states it as a decomposition of the line.
use vstd::prelude::*;
use vstd::slice::{slice_subrange, slice_to_vec};

verus! {

pub const TAB: u8 = 0x09;

pub const NEWLINE: u8 = 0x0a;

pub const SPACE: u8 = 0x20;

pub const QUOTE: u8 = 0x22;

pub const HASH: u8 = 0x23;

pub const EQUALS: u8 = 0x3d;

pub const BACKSLASH: u8 = 0x5c;

/// Horizontal whitespace: a space or a tab.
pub open spec fn is_blank(b: u8) -> bool {
    b == SPACE || b == TAB
}

/// A byte that may stand in a key.
pub open spec fn is_key_byte(b: u8) -> bool {
    !is_blank(b) && b != EQUALS && b != BACKSLASH
}

/// How many blanks `s` starts with.
pub open spec fn blank_len(s: Seq<u8>) -> nat
    decreases s.len(),
{
    if s.len() > 0 && is_blank(s[0]) {
        1 + blank_len(s.drop_first())
    } else {
        0
    }
}

/// How many key bytes `s` starts with.
pub open spec fn key_len(s: Seq<u8>) -> nat
    decreases s.len(),
{
    if s.len() > 0 && is_key_byte(s[0]) {
        1 + key_len(s.drop_first())
    } else {
        0
    }
}

/// A position moved `by` bytes to the right, where there is one.
pub open spec fn shifted(at: Option<nat>, by: nat) -> Option<nat> {
    match at {
        Some(n) => Some(n + by),
        None => None,
    }
}

/// Where the quote stands that closes a value, for `s` starting right behind
/// the opening quote. A backslash takes the byte behind it along, whatever it
/// is; a backslash with nothing behind it closes nothing.
pub open spec fn closing(s: Seq<u8>) -> Option<nat>
    decreases s.len(),
{
    if s.len() == 0 {
        None
    } else if s[0] == QUOTE {
        Some(0)
    } else if s[0] == BACKSLASH {
        if s.len() < 2 {
            None
        } else {
            shifted(closing(s.skip(2)), 2)
        }
    } else {
        shifted(closing(s.drop_first()), 1)
    }
}

/// `raw` with its escapes resolved: each backslash is dropped and the byte
/// behind it kept as it is. A backslash at the very end is dropped.
pub open spec fn unescaped(raw: Seq<u8>) -> Seq<u8>
    decreases raw.len(),
{
    if raw.len() == 0 {
        Seq::empty()
    } else if raw[0] == BACKSLASH {
        if raw.len() < 2 {
            Seq::empty()
        } else {
            seq![raw[1]] + unescaped(raw.skip(2))
        }
    } else {
        seq![raw[0]] + unescaped(raw.drop_first())
    }
}

/// The key and the value that `line` assigns, if it has the shape of an
/// assignment.
pub open spec fn parsed(line: Seq<u8>) -> Option<(Seq<u8>, Seq<u8>)> {
    let at_key = line.skip(blank_len(line) as int);
    let key = at_key.take(key_len(at_key) as int);
    let behind_key = at_key.skip(key.len() as int);
    let at_equals = behind_key.skip(blank_len(behind_key) as int);
    if key.len() == 0 || key[0] == HASH || at_equals.len() == 0 || at_equals[0] != EQUALS {
        None
    } else {
        let behind_equals = at_equals.drop_first();
        let at_quote = behind_equals.skip(blank_len(behind_equals) as int);
        if at_quote.len() == 0 || at_quote[0] != QUOTE {
            None
        } else {
            let body = at_quote.drop_first();
            match closing(body) {
                Some(n) => Some((key, unescaped(body.take(n as int)))),
                None => None,
            }
        }
    }
}

/// One assignment as it stands in the file: the key, and the value between
/// the quotes with its escapes resolved.
#[derive(Debug)]
pub struct ConfigEntry {
    pub key: Vec<u8>,
    pub value: Vec<u8>,
}

impl View for ConfigEntry {
    type V = (Seq<u8>, Seq<u8>);

    open spec fn view(&self) -> (Seq<u8>, Seq<u8>) {
        (self.key@, self.value@)
    }
}

/// Every byte of `s` is a blank.
pub open spec fn all_blank(s: Seq<u8>) -> bool {
    forall|i: int| 0 <= i < s.len() ==> is_blank(#[trigger] s[i])
}

/// `key` can stand as the key of a line: it is not empty, holds key bytes
/// only and does not start a comment.
pub open spec fn is_key(key: Seq<u8>) -> bool {
    &&& key.len() > 0
    &&& key[0] != HASH
    &&& forall|i: int| 0 <= i < key.len() ==> is_key_byte(#[trigger] key[i])
}

/// `raw` can stand between the quotes of a line: each backslash in it has a
/// byte behind it, which it escapes, and each quote in it is escaped.
pub open spec fn is_raw(raw: Seq<u8>) -> bool
    decreases raw.len(),
{
    if raw.len() == 0 {
        true
    } else if raw[0] == BACKSLASH {
        raw.len() >= 2 && is_raw(raw.skip(2))
    } else {
        raw[0] != QUOTE && is_raw(raw.drop_first())
    }
}

/// The parts of a line that assigns a value, from left to right. The equals
/// sign and the two quotes stand between them.
pub struct LineParts {
    /// What stands before the key.
    pub lead: Seq<u8>,
    pub key: Seq<u8>,
    /// What stands between the key and the equals sign.
    pub before_equals: Seq<u8>,
    /// What stands between the equals sign and the opening quote.
    pub after_equals: Seq<u8>,
    /// What stands between the quotes.
    pub raw: Seq<u8>,
    /// What follows the closing quote.
    pub rest: Seq<u8>,
}

impl LineParts {
    /// The line that the parts make up.
    pub open spec fn line(self) -> Seq<u8> {
        self.lead + self.key + self.before_equals + seq![EQUALS] + self.after_equals
            + seq![QUOTE] + self.raw + seq![QUOTE] + self.rest
    }

    /// The parts follow the grammar. What follows the closing quote is free.
    pub open spec fn well_formed(self) -> bool {
        &&& all_blank(self.lead)
        &&& is_key(self.key)
        &&& all_blank(self.before_equals)
        &&& all_blank(self.after_equals)
        &&& is_raw(self.raw)
    }
}

proof fn lemma_blank_run(run: Seq<u8>, tail: Seq<u8>)
    requires
        all_blank(run),
        tail.len() == 0 || !is_blank(tail[0]),
    ensures
        blank_len(run + tail) == run.len(),
    decreases run.len(),
{
    if run.len() == 0 {
        assert(run + tail =~= tail);
    } else {
        assert((run + tail).drop_first() =~= run.drop_first() + tail);
        assert(is_blank(run[0]));
        assert forall|i: int| 0 <= i < run.drop_first().len() implies is_blank(
            #[trigger] run.drop_first()[i],
        ) by {
            assert(run.drop_first()[i] == run[i + 1]);
        }
        lemma_blank_run(run.drop_first(), tail);
    }
}

proof fn lemma_key_run(run: Seq<u8>, tail: Seq<u8>)
    requires
        forall|i: int| 0 <= i < run.len() ==> is_key_byte(#[trigger] run[i]),
        tail.len() == 0 || !is_key_byte(tail[0]),
    ensures
        key_len(run + tail) == run.len(),
    decreases run.len(),
{
    if run.len() == 0 {
        assert(run + tail =~= tail);
    } else {
        assert((run + tail).drop_first() =~= run.drop_first() + tail);
        assert(is_key_byte(run[0]));
        assert forall|i: int| 0 <= i < run.drop_first().len() implies is_key_byte(
            #[trigger] run.drop_first()[i],
        ) by {
            assert(run.drop_first()[i] == run[i + 1]);
        }
        lemma_key_run(run.drop_first(), tail);
    }
}

proof fn lemma_raw_closing(raw: Seq<u8>, tail: Seq<u8>)
    requires
        is_raw(raw),
    ensures
        closing(raw + seq![QUOTE] + tail) == Some(raw.len()),
    decreases raw.len(),
{
    let s = raw + seq![QUOTE] + tail;
    if raw.len() == 0 {
        assert(s[0] == QUOTE);
    } else if raw[0] == BACKSLASH {
        assert(s[0] == raw[0]);
        assert(s.skip(2) =~= raw.skip(2) + seq![QUOTE] + tail);
        lemma_raw_closing(raw.skip(2), tail);
    } else {
        assert(s[0] == raw[0]);
        assert(s.drop_first() =~= raw.drop_first() + seq![QUOTE] + tail);
        lemma_raw_closing(raw.drop_first(), tail);
    }
}

proof fn lemma_blank_prefix(s: Seq<u8>)
    ensures
        blank_len(s) <= s.len(),
        all_blank(s.take(blank_len(s) as int)),
        blank_len(s) < s.len() ==> !is_blank(s[blank_len(s) as int]),
    decreases s.len(),
{
    if s.len() > 0 && is_blank(s[0]) {
        let t = s.drop_first();
        lemma_blank_prefix(t);
        let n = blank_len(s) as int;
        assert forall|i: int| 0 <= i < s.take(n).len() implies is_blank(#[trigger] s.take(n)[i]) by {
            if i > 0 {
                assert(s.take(n)[i] == t.take(n - 1)[i - 1]);
            }
        }
    }
}

proof fn lemma_key_prefix(s: Seq<u8>)
    ensures
        key_len(s) <= s.len(),
        forall|i: int| 0 <= i < key_len(s) ==> is_key_byte(#[trigger] s[i]),
        key_len(s) < s.len() ==> !is_key_byte(s[key_len(s) as int]),
    decreases s.len(),
{
    if s.len() > 0 && is_key_byte(s[0]) {
        let t = s.drop_first();
        lemma_key_prefix(t);
        assert forall|i: int| 0 <= i < key_len(s) implies is_key_byte(#[trigger] s[i]) by {
            if i > 0 {
                assert(s[i] == t[i - 1]);
            }
        }
    }
}

proof fn lemma_closing_raw(s: Seq<u8>)
    ensures
        closing(s) matches Some(n) ==> n < s.len() && s[n as int] == QUOTE && is_raw(
            s.take(n as int),
        ),
    decreases s.len(),
{
    if s.len() == 0 {
    } else if s[0] == QUOTE {
        assert(s.take(0) =~= Seq::<u8>::empty());
    } else if s[0] == BACKSLASH {
        if s.len() >= 2 {
            lemma_closing_raw(s.skip(2));
            if closing(s.skip(2)) is Some {
                let m = closing(s.skip(2))->0;
                assert(s.take(m as int + 2).skip(2) =~= s.skip(2).take(m as int));
            }
        }
    } else {
        lemma_closing_raw(s.drop_first());
        if closing(s.drop_first()) is Some {
            let m = closing(s.drop_first())->0;
            assert(s.take(m as int + 1).drop_first() =~= s.drop_first().take(m as int));
        }
    }
}

/// What a line comes to whose parts up to the opening quote follow the
/// grammar: it hangs on whether a quote closes what stands behind.
proof fn lemma_up_to_quote(
    lead: Seq<u8>,
    key: Seq<u8>,
    before_equals: Seq<u8>,
    after_equals: Seq<u8>,
    body: Seq<u8>,
)
    requires
        all_blank(lead),
        is_key(key),
        all_blank(before_equals),
        all_blank(after_equals),
    ensures
        parsed(lead + key + before_equals + seq![EQUALS] + after_equals + seq![QUOTE] + body)
            == match closing(body) {
            Some(n) => Some((key, unescaped(body.take(n as int)))),
            None => None,
        },
{
    let line = lead + key + before_equals + seq![EQUALS] + after_equals + seq![QUOTE] + body;
    let at_quote = seq![QUOTE] + body;
    let behind_equals = after_equals + at_quote;
    let at_equals = seq![EQUALS] + behind_equals;
    let behind_key = before_equals + at_equals;
    let at_key = key + behind_key;
    assert(line == lead + at_key) by {
        let l1 = lead + key;
        let l2 = l1 + before_equals;
        let l3 = l2 + seq![EQUALS];
        let l4 = l3 + after_equals;
        let l5 = l4 + seq![QUOTE];
        assert(l5 + body =~= l4 + at_quote);
        assert(l4 + at_quote =~= l3 + behind_equals);
        assert(l3 + behind_equals =~= l2 + at_equals);
        assert(l2 + at_equals =~= l1 + behind_key);
        assert(l1 + behind_key =~= lead + at_key);
    }
    assert(at_key[0] == key[0]);
    assert(is_key_byte(key[0]));
    lemma_blank_run(lead, at_key);
    assert(line.skip(lead.len() as int) =~= at_key);
    assert(behind_key[0] == if before_equals.len() > 0 {
        before_equals[0]
    } else {
        EQUALS
    });
    assert(before_equals.len() > 0 ==> is_blank(before_equals[0]));
    lemma_key_run(key, behind_key);
    assert(at_key.take(key.len() as int) =~= key);
    assert(at_key.skip(key.len() as int) =~= behind_key);
    assert(at_equals[0] == EQUALS);
    lemma_blank_run(before_equals, at_equals);
    assert(behind_key.skip(before_equals.len() as int) =~= at_equals);
    assert(at_equals.drop_first() =~= behind_equals);
    assert(at_quote[0] == QUOTE);
    lemma_blank_run(after_equals, at_quote);
    assert(behind_equals.skip(after_equals.len() as int) =~= at_quote);
    assert(at_quote.drop_first() =~= body);
}

/// A line made of well-formed parts assigns to its key its raw value with
/// the escapes resolved, whatever follows the closing quote.
pub proof fn lemma_parts_parse(parts: LineParts)
    requires
        parts.well_formed(),
    ensures
        parsed(parts.line()) == Some((parts.key, unescaped(parts.raw))),
{
    let body = parts.raw + seq![QUOTE] + parts.rest;
    let front = parts.lead + parts.key + parts.before_equals + seq![EQUALS] + parts.after_equals
        + seq![QUOTE];
    assert(parts.line() =~= front + body);
    lemma_up_to_quote(parts.lead, parts.key, parts.before_equals, parts.after_equals, body);
    lemma_raw_closing(parts.raw, parts.rest);
    assert(body.take(parts.raw.len() as int) =~= parts.raw);
}

/// A line that assigns a value is made of well-formed parts: the grammar
/// accepts no other line.
pub proof fn lemma_parsed_parts(line: Seq<u8>) -> (parts: LineParts)
    requires
        parsed(line) is Some,
    ensures
        parts.well_formed(),
        parts.line() == line,
        parsed(line) == Some((parts.key, unescaped(parts.raw))),
{
    let at_key = line.skip(blank_len(line) as int);
    let key = at_key.take(key_len(at_key) as int);
    let behind_key = at_key.skip(key.len() as int);
    let at_equals = behind_key.skip(blank_len(behind_key) as int);
    let behind_equals = at_equals.drop_first();
    let at_quote = behind_equals.skip(blank_len(behind_equals) as int);
    let body = at_quote.drop_first();
    let n = closing(body)->0;
    let parts = LineParts {
        lead: line.take(blank_len(line) as int),
        key,
        before_equals: behind_key.take(blank_len(behind_key) as int),
        after_equals: behind_equals.take(blank_len(behind_equals) as int),
        raw: body.take(n as int),
        rest: body.skip(n as int + 1),
    };
    assert(all_blank(parts.lead) && line == parts.lead + at_key) by {
        lemma_blank_prefix(line);
        assert(line =~= parts.lead + at_key);
    }
    assert(is_key(key) && at_key == key + behind_key) by {
        lemma_key_prefix(at_key);
        assert forall|i: int| 0 <= i < key.len() implies is_key_byte(#[trigger] key[i]) by {
            assert(key[i] == at_key[i]);
        }
        assert(at_key =~= key + behind_key);
    }
    assert(all_blank(parts.before_equals) && behind_key == parts.before_equals + at_equals) by {
        lemma_blank_prefix(behind_key);
        assert(behind_key =~= parts.before_equals + at_equals);
    }
    assert(at_equals == seq![EQUALS] + behind_equals) by {
        assert(at_equals =~= seq![EQUALS] + behind_equals);
    }
    assert(all_blank(parts.after_equals) && behind_equals == parts.after_equals + at_quote) by {
        lemma_blank_prefix(behind_equals);
        assert(behind_equals =~= parts.after_equals + at_quote);
    }
    assert(at_quote == seq![QUOTE] + body) by {
        assert(at_quote =~= seq![QUOTE] + body);
    }
    assert(is_raw(parts.raw) && body == parts.raw + seq![QUOTE] + parts.rest) by {
        lemma_closing_raw(body);
        assert(body =~= parts.raw + seq![QUOTE] + parts.rest);
    }
    lemma_line_nested(parts);
    parts
}

/// The line of some parts, put together from the right.
proof fn lemma_line_nested(parts: LineParts)
    ensures
        parts.line() == parts.lead + (parts.key + (parts.before_equals + (seq![EQUALS] + (
            parts.after_equals + (seq![QUOTE] + (parts.raw + seq![QUOTE] + parts.rest))
        )))),
{
    let f = parts.raw + seq![QUOTE] + parts.rest;
    let e = seq![QUOTE] + f;
    let d = parts.after_equals + e;
    let c = seq![EQUALS] + d;
    let b = parts.before_equals + c;
    let a = parts.key + b;
    let l1 = parts.lead + parts.key;
    let l2 = l1 + parts.before_equals;
    let l3 = l2 + seq![EQUALS];
    let l4 = l3 + parts.after_equals;
    let l5 = l4 + seq![QUOTE];
    let l6 = l5 + parts.raw;
    let l7 = l6 + seq![QUOTE];
    assert(l7 + parts.rest =~= l5 + f);
    assert(l5 + f =~= l4 + e);
    assert(l4 + e =~= l3 + d);
    assert(l3 + d =~= l2 + c);
    assert(l2 + c =~= l1 + b);
    assert(l1 + b =~= parts.lead + a);
}

/// A line that cannot be made of well-formed parts assigns nothing.
pub proof fn lemma_other_lines_skipped(line: Seq<u8>)
    requires
        forall|parts: LineParts| parts.well_formed() ==> #[trigger] parts.line() != line,
    ensures
        parsed(line) is None,
{
    if parsed(line) is Some {
        let parts = lemma_parsed_parts(line);
        assert(parts.line() == line);
    }
}

/// A line without an equals sign assigns nothing.
pub proof fn lemma_missing_equals(line: Seq<u8>)
    requires
        !line.contains(EQUALS),
    ensures
        parsed(line) is None,
{
    if parsed(line) is Some {
        let parts = lemma_parsed_parts(line);
        let front = parts.lead + parts.key + parts.before_equals;
        let upto = front + seq![EQUALS];
        assert(upto[front.len() as int] == EQUALS);
        assert(line[front.len() as int] == EQUALS);
    }
}

/// A line without a quote assigns nothing.
pub proof fn lemma_missing_quotes(line: Seq<u8>)
    requires
        !line.contains(QUOTE),
    ensures
        parsed(line) is None,
{
    if parsed(line) is Some {
        let parts = lemma_parsed_parts(line);
        let front = parts.lead + parts.key + parts.before_equals + seq![EQUALS]
            + parts.after_equals;
        let upto = front + seq![QUOTE];
        assert(upto[front.len() as int] == QUOTE);
        assert(line[front.len() as int] == QUOTE);
    }
}

/// A line whose equals sign has no key before it assigns nothing.
pub proof fn lemma_empty_key(lead: Seq<u8>, rest: Seq<u8>)
    requires
        all_blank(lead),
    ensures
        parsed(lead + seq![EQUALS] + rest) is None,
{
    let line = lead + seq![EQUALS] + rest;
    let at_key = seq![EQUALS] + rest;
    assert(line =~= lead + at_key);
    assert(at_key[0] == EQUALS);
    lemma_blank_run(lead, at_key);
    assert(line.skip(lead.len() as int) =~= at_key);
    assert(key_len(at_key) == 0);
}

/// A comment assigns nothing, whatever stands in it.
pub proof fn lemma_comment(lead: Seq<u8>, rest: Seq<u8>)
    requires
        all_blank(lead),
    ensures
        parsed(lead + seq![HASH] + rest) is None,
{
    let line = lead + seq![HASH] + rest;
    let at_key = seq![HASH] + rest;
    assert(line =~= lead + at_key);
    assert(at_key[0] == HASH);
    lemma_blank_run(lead, at_key);
    assert(line.skip(lead.len() as int) =~= at_key);
    lemma_key_prefix(at_key);
    let key = at_key.take(key_len(at_key) as int);
    assert(key.len() > 0 ==> key[0] == HASH);
}

/// A line of blanks assigns nothing, and so does the empty line.
pub proof fn lemma_blank_line(line: Seq<u8>)
    requires
        all_blank(line),
    ensures
        parsed(line) is None,
{
    let tail = Seq::<u8>::empty();
    assert(line + tail =~= line);
    lemma_blank_run(line, tail);
    assert(line.skip(line.len() as int) =~= tail);
}

/// A line whose value no quote closes assigns nothing.
pub proof fn lemma_unterminated(
    lead: Seq<u8>,
    key: Seq<u8>,
    before_equals: Seq<u8>,
    after_equals: Seq<u8>,
    body: Seq<u8>,
)
    requires
        all_blank(lead),
        is_key(key),
        all_blank(before_equals),
        all_blank(after_equals),
        closing(body) is None,
    ensures
        parsed(lead + key + before_equals + seq![EQUALS] + after_equals + seq![QUOTE] + body)
            is None,
{
    lemma_up_to_quote(lead, key, before_equals, after_equals, body);
}

/// Where no quote follows, none closes the value.
pub proof fn lemma_closing_needs_quote(body: Seq<u8>)
    requires
        !body.contains(QUOTE),
    ensures
        closing(body) is None,
{
    lemma_closing_raw(body);
}

/// A value without a backslash is taken as it stands.
pub proof fn lemma_unescaped_plain(raw: Seq<u8>)
    requires
        !raw.contains(BACKSLASH),
    ensures
        unescaped(raw) == raw,
    decreases raw.len(),
{
    if raw.len() == 0 {
        assert(unescaped(raw) =~= raw);
    } else {
        assert(raw[0] != BACKSLASH);
        assert forall|i: int| 0 <= i < raw.drop_first().len() implies raw.drop_first()[i]
            != BACKSLASH by {
            assert(raw.drop_first()[i] == raw[i + 1]);
        }
        lemma_unescaped_plain(raw.drop_first());
        assert(seq![raw[0]] + raw.drop_first() =~= raw);
    }
}

/// Escapes are resolved piece by piece: behind a piece in which no escape is
/// cut off, the rest is resolved as if it stood alone.
pub proof fn lemma_unescaped_concat(front: Seq<u8>, back: Seq<u8>)
    requires
        is_raw(front),
    ensures
        unescaped(front + back) == unescaped(front) + unescaped(back),
    decreases front.len(),
{
    let whole = front + back;
    if front.len() == 0 {
        assert(whole =~= back);
        assert(unescaped(front) + unescaped(back) =~= unescaped(back));
    } else if front[0] == BACKSLASH {
        assert(whole[0] == front[0] && whole[1] == front[1]);
        assert(whole.skip(2) =~= front.skip(2) + back);
        lemma_unescaped_concat(front.skip(2), back);
        assert(unescaped(whole) =~= unescaped(front) + unescaped(back));
    } else {
        assert(whole[0] == front[0]);
        assert(whole.drop_first() =~= front.drop_first() + back);
        lemma_unescaped_concat(front.drop_first(), back);
        assert(unescaped(whole) =~= unescaped(front) + unescaped(back));
    }
}

/// A backslash in a value is removed, and the byte behind it is kept as it
/// is, be it a quote or another backslash.
pub proof fn lemma_unescaped_escape(front: Seq<u8>, escaped: u8, back: Seq<u8>)
    requires
        is_raw(front),
    ensures
        unescaped(front + seq![BACKSLASH, escaped] + back) == unescaped(front) + seq![escaped]
            + unescaped(back),
        is_raw(back) ==> is_raw(front + seq![BACKSLASH, escaped] + back),
{
    let pair = seq![BACKSLASH, escaped];
    assert(front + pair + back =~= front + (pair + back));
    lemma_unescaped_concat(front, pair + back);
    assert((pair + back).skip(2) =~= back);
    assert((pair + back)[0] == BACKSLASH && (pair + back)[1] == escaped);
    assert(unescaped(pair + back) =~= seq![escaped] + unescaped(back));
    assert(unescaped(front) + (seq![escaped] + unescaped(back)) =~= unescaped(front)
        + seq![escaped] + unescaped(back));
    if is_raw(back) {
        assert(is_raw(pair + back));
        lemma_raw_concat(front, pair + back);
    }
}

/// Two raw values in a row are a raw value.
pub proof fn lemma_raw_concat(front: Seq<u8>, back: Seq<u8>)
    requires
        is_raw(front),
        is_raw(back),
    ensures
        is_raw(front + back),
    decreases front.len(),
{
    let whole = front + back;
    if front.len() == 0 {
        assert(whole =~= back);
    } else if front[0] == BACKSLASH {
        assert(whole[0] == front[0]);
        assert(whole.skip(2) =~= front.skip(2) + back);
        lemma_raw_concat(front.skip(2), back);
    } else {
        assert(whole[0] == front[0]);
        assert(whole.drop_first() =~= front.drop_first() + back);
        lemma_raw_concat(front.drop_first(), back);
    }
}

fn blank(b: u8) -> (r: bool)
    ensures
        r == is_blank(b),
{
    b == SPACE || b == TAB
}

fn key_byte(b: u8) -> (r: bool)
    ensures
        r == is_key_byte(b),
{
    !blank(b) && b != EQUALS && b != BACKSLASH
}

/// The first position at or behind `from` that holds no blank.
fn skip_blanks(line: &[u8], from: usize) -> (to: usize)
    requires
        from <= line@.len(),
    ensures
        to == from + blank_len(line@.skip(from as int)),
        to <= line@.len(),
{
    let mut i: usize = from;
    while i < line.len() && blank(line[i])
        invariant
            from <= i <= line@.len(),
            blank_len(line@.skip(from as int)) == (i - from) + blank_len(line@.skip(i as int)),
        decreases line@.len() - i,
    {
        assert(line@.skip(i as int).drop_first() =~= line@.skip(i + 1));
        i += 1;
    }
    i
}

/// The first position at or behind `from` that holds no key byte.
fn skip_key(line: &[u8], from: usize) -> (to: usize)
    requires
        from <= line@.len(),
    ensures
        to == from + key_len(line@.skip(from as int)),
        to <= line@.len(),
{
    let mut i: usize = from;
    while i < line.len() && key_byte(line[i])
        invariant
            from <= i <= line@.len(),
            key_len(line@.skip(from as int)) == (i - from) + key_len(line@.skip(i as int)),
        decreases line@.len() - i,
    {
        assert(line@.skip(i as int).drop_first() =~= line@.skip(i + 1));
        i += 1;
    }
    i
}

/// The position of the quote that closes the value starting at `from`.
fn find_closing(line: &[u8], from: usize) -> (at: Option<usize>)
    requires
        from <= line@.len(),
    ensures
        match at {
            Some(i) => from <= i < line@.len() && closing(line@.skip(from as int)) == Some(
                (i - from) as nat,
            ),
            None => closing(line@.skip(from as int)) is None,
        },
{
    let mut i: usize = from;
    while i < line.len()
        invariant
            from <= i <= line@.len(),
            closing(line@.skip(from as int)) == shifted(
                closing(line@.skip(i as int)),
                (i - from) as nat,
            ),
        decreases line@.len() - i,
    {
        let b = line[i];
        if b == QUOTE {
            return Some(i);
        }
        if b == BACKSLASH {
            if line.len() - i < 2 {
                return None;
            }
            assert(line@.skip(i as int).skip(2) =~= line@.skip(i + 2));
            i += 2;
        } else {
            assert(line@.skip(i as int).drop_first() =~= line@.skip(i + 1));
            i += 1;
        }
    }
    None
}

/// Resolves the escapes of a raw value.
pub fn unescape(raw: &[u8]) -> (value: Vec<u8>)
    ensures
        value@ == unescaped(raw@),
{
    let mut value: Vec<u8> = Vec::new();
    let mut i: usize = 0;
    assert(raw@.skip(0) =~= raw@);
    assert(value@ + unescaped(raw@) =~= unescaped(raw@));
    while i < raw.len()
        invariant
            i <= raw@.len(),
            unescaped(raw@) == value@ + unescaped(raw@.skip(i as int)),
        decreases raw@.len() - i,
    {
        let b = raw[i];
        let ghost before = value@;
        let ghost here = raw@.skip(i as int);
        if b == BACKSLASH {
            if raw.len() - i < 2 {
                assert(unescaped(here) =~= Seq::<u8>::empty());
                assert(unescaped(raw@) =~= value@);
                return value;
            }
            value.push(raw[i + 1]);
            assert(here.skip(2) =~= raw@.skip(i + 2));
            assert(before + (seq![here[1]] + unescaped(here.skip(2))) =~= value@ + unescaped(
                raw@.skip(i + 2),
            ));
            i += 2;
        } else {
            value.push(b);
            assert(here.drop_first() =~= raw@.skip(i + 1));
            assert(before + (seq![here[0]] + unescaped(here.drop_first())) =~= value@ + unescaped(
                raw@.skip(i + 1),
            ));
            i += 1;
        }
    }
    assert(unescaped(raw@.skip(i as int)) =~= Seq::<u8>::empty());
    assert(unescaped(raw@) =~= value@);
    value
}

/// Parses one line of the file, with or without its line ending.
///
/// Gives the assignment that the line holds, or `None` for a blank line, a
/// comment and any other line that is not an assignment.
pub fn parse_line(line: &[u8]) -> (entry: Option<ConfigEntry>)
    ensures
        match entry {
            Some(e) => parsed(line@) == Some(e@),
            None => parsed(line@) is None,
        },
{
    let key_start = skip_blanks(line, 0);
    let key_end = skip_key(line, key_start);
    let equals = skip_blanks(line, key_end);
    proof {
        let at_key = line@.skip(blank_len(line@) as int);
        assert(line@.skip(0) =~= line@);
        assert(at_key == line@.skip(key_start as int));
        let key = at_key.take(key_len(at_key) as int);
        assert(key =~= line@.subrange(key_start as int, key_end as int));
        let behind_key = at_key.skip(key.len() as int);
        assert(behind_key =~= line@.skip(key_end as int));
        let at_equals = behind_key.skip(blank_len(behind_key) as int);
        assert(at_equals =~= line@.skip(equals as int));
    }
    if key_end == key_start || line[key_start] == HASH {
        return None;
    }
    if equals >= line.len() || line[equals] != EQUALS {
        return None;
    }
    let quote = skip_blanks(line, equals + 1);
    proof {
        let at_equals = line@.skip(equals as int);
        let behind_equals = at_equals.drop_first();
        assert(behind_equals =~= line@.skip(equals + 1));
        let at_quote = behind_equals.skip(blank_len(behind_equals) as int);
        assert(at_quote =~= line@.skip(quote as int));
    }
    if quote >= line.len() || line[quote] != QUOTE {
        return None;
    }
    proof {
        assert(line@.skip(quote as int).drop_first() =~= line@.skip(quote + 1));
    }
    match find_closing(line, quote + 1) {
        None => None,
        Some(close) => {
            let key = slice_to_vec(slice_subrange(line, key_start, key_end));
            let value = unescape(slice_subrange(line, quote + 1, close));
            proof {
                let body = line@.skip(quote + 1);
                assert(body.take(close - (quote + 1)) =~= line@.subrange(
                    quote + 1,
                    close as int,
                ));
            }
            Some(ConfigEntry { key, value })
        },
    }
}

} // verus!
