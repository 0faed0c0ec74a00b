//! The log's record format: one JSON object per record, `{"Set":["<key>","<value>"]}`
//! or `{"Rm":"<key>"}`. Records are read from a byte stream one at a time; a record
//! ends where its object ends, and JSON white space may stand between its tokens.

use crate::command::{Command, CommandView};
use crate::json::{
    json_text, lemma_literal_at_window, lemma_literal_end_bounds, lemma_quoted_reads_back,
    lemma_window_byte, literal_at, quotable, quote, read_literal, same_window, Literal,
};
use vstd::prelude::*;
use vstd::string::StringExecFns;

verus! {

/// `{`, which opens a record.
pub const OPEN_BRACE: u8 = 0x7b;

/// `}`, which closes a record.
pub const CLOSE_BRACE: u8 = 0x7d;

/// `[`, which opens the pair of a key and a value.
pub const OPEN_BRACKET: u8 = 0x5b;

/// `]`, which closes the pair of a key and a value.
pub const CLOSE_BRACKET: u8 = 0x5d;

/// `:`, which follows the tag.
pub const COLON: u8 = 0x3a;

/// `,`, which stands between a key and a value.
pub const COMMA: u8 = 0x2c;

/// The line feed that is written after each record.
pub const NEWLINE: u8 = 0x0a;

/// The tag of a record that maps a key to a value.
pub open spec fn put_tag() -> Seq<char> {
    "Set"@
}

/// The tag of a record that retires a key.
pub open spec fn rm_tag() -> Seq<char> {
    "Rm"@
}

/// JSON white space: space, tab, line feed, carriage return.
pub open spec fn is_space(b: u8) -> bool {
    b == 0x20 || b == 0x09 || b == 0x0a || b == 0x0d
}

/// The first index from `i` on that holds no white space (the input's length if
/// there is none).
pub open spec fn skip_space(s: Seq<u8>, i: int) -> int
    decreases s.len() - i,
{
    if 0 <= i < s.len() && is_space(s[i]) {
        skip_space(s, i + 1)
    } else {
        i
    }
}

/// The index just past the byte `b`, if `b` is the first byte from `i` on that is no
/// white space.
pub open spec fn token_at(s: Seq<u8>, i: int, b: u8) -> Option<int> {
    let j = skip_space(s, i);
    if 0 <= j < s.len() && s[j] == b {
        Some(j + 1)
    } else {
        None
    }
}

/// The string literal that starts at the first index from `i` on that holds no
/// white space.
pub open spec fn string_at(s: Seq<u8>, i: int) -> Option<Literal> {
    literal_at(s, skip_space(s, i))
}

/// What follows a record's tag and colon: the command it makes, and where it ends.
pub struct Body {
    pub command: CommandView,
    pub end: int,
}

/// A record found in an input: its command, the index of its opening brace and
/// the index just past its closing brace.
pub struct Parsed {
    pub command: CommandView,
    pub start: int,
    pub end: int,
}

/// `[ "<key>" , "<value>" ]` from `i` on.
pub open spec fn put_body_at(s: Seq<u8>, i: int) -> Option<Body> {
    match token_at(s, i, OPEN_BRACKET) {
        None => None,
        Some(a) => match string_at(s, a) {
            None => None,
            Some(key) => match token_at(s, key.end, COMMA) {
                None => None,
                Some(b) => match string_at(s, b) {
                    None => None,
                    Some(value) => match token_at(s, value.end, CLOSE_BRACKET) {
                        None => None,
                        Some(end) => Some(
                            Body { command: CommandView::Put(key.text, value.text), end },
                        ),
                    },
                },
            },
        },
    }
}

/// `"<key>"` from `i` on.
pub open spec fn rm_body_at(s: Seq<u8>, i: int) -> Option<Body> {
    match string_at(s, i) {
        None => None,
        Some(key) => Some(Body { command: CommandView::Rm(key.text), end: key.end }),
    }
}

/// The body that the tag calls for, from `i` on.
pub open spec fn body_at(s: Seq<u8>, i: int, tag: Seq<char>) -> Option<Body> {
    if tag == put_tag() {
        put_body_at(s, i)
    } else if tag == rm_tag() {
        rm_body_at(s, i)
    } else {
        None
    }
}

/// The record that starts at the first index from `i` on that holds no white
/// space; `None` if what stands there is no record.
pub open spec fn record_at(s: Seq<u8>, i: int) -> Option<Parsed> {
    match token_at(s, i, OPEN_BRACE) {
        None => None,
        Some(a) => match string_at(s, a) {
            None => None,
            Some(tag) => match token_at(s, tag.end, COLON) {
                None => None,
                Some(b) => match body_at(s, b, tag.text) {
                    None => None,
                    Some(body) => match token_at(s, body.end, CLOSE_BRACE) {
                        None => None,
                        Some(end) => Some(
                            Parsed { command: body.command, start: skip_space(s, i), end },
                        ),
                    },
                },
            },
        },
    }
}

/// The bytes of a record, where its strings can be written: no white space, the
/// tag and each string as `serde_json` writes them.
pub open spec fn record_text(c: CommandView) -> Seq<u8> {
    match c {
        CommandView::Put(k, v) => seq![OPEN_BRACE] + json_text(put_tag())->0 + seq![COLON]
            + seq![OPEN_BRACKET] + json_text(k)->0 + seq![COMMA] + json_text(v)->0 + seq![
            CLOSE_BRACKET,
        ] + seq![CLOSE_BRACE],
        CommandView::Rm(k) => seq![OPEN_BRACE] + json_text(rm_tag())->0 + seq![COLON] + json_text(
            k,
        )->0 + seq![CLOSE_BRACE],
    }
}

/// The record can be written and read back: its tag and its strings can.
pub open spec fn encodable(c: CommandView) -> bool {
    match c {
        CommandView::Put(k, v) => quotable(put_tag()) && quotable(k) && quotable(v),
        CommandView::Rm(k) => quotable(rm_tag()) && quotable(k),
    }
}

/// Skipping goes forward, stays within the input, and passes white space only.
pub proof fn lemma_skip_space_bounds(s: Seq<u8>, i: int)
    ensures
        i <= skip_space(s, i),
        0 <= i <= s.len() ==> skip_space(s, i) <= s.len(),
        0 <= i ==> forall|k: int| i <= k < skip_space(s, i) ==> is_space(#[trigger] s[k]),
    decreases s.len() - i,
{
    if 0 <= i < s.len() && is_space(s[i]) {
        lemma_skip_space_bounds(s, i + 1);
    }
}

/// Skipping white space stops at once on a byte that is none.
pub proof fn lemma_skip_space_stops(s: Seq<u8>, i: int)
    requires
        0 <= i < s.len(),
        !is_space(s[i]),
    ensures
        skip_space(s, i) == i,
{
}

/// Where skipping stops depends only on the bytes up to and including the one it
/// stops on.
pub proof fn lemma_skip_space_window(
    s1: Seq<u8>,
    start1: int,
    s2: Seq<u8>,
    start2: int,
    n: int,
    i: int,
)
    requires
        same_window(s1, start1, s2, start2, n),
        start1 <= i,
        skip_space(s1, i) < start1 + n,
    ensures
        skip_space(s2, i - start1 + start2) == skip_space(s1, i) - start1 + start2,
    decreases s1.len() - i,
{
    lemma_skip_space_bounds(s1, i);
    lemma_window_byte(s1, start1, s2, start2, n, i - start1);
    if is_space(s1[i]) {
        lemma_skip_space_window(s1, start1, s2, start2, n, i + 1);
    }
}

/// A token found in one input is found alike in any input that holds the same bytes
/// up to the token's end.
pub proof fn lemma_token_at_window(
    s1: Seq<u8>,
    start1: int,
    s2: Seq<u8>,
    start2: int,
    n: int,
    i: int,
    b: u8,
)
    requires
        same_window(s1, start1, s2, start2, n),
        start1 <= i,
        token_at(s1, i, b) is Some,
        token_at(s1, i, b)->0 <= start1 + n,
    ensures
        token_at(s2, i - start1 + start2, b) == Some(token_at(s1, i, b)->0 - start1 + start2),
        i < token_at(s1, i, b)->0,
{
    lemma_skip_space_bounds(s1, i);
    lemma_skip_space_window(s1, start1, s2, start2, n, i);
    lemma_window_byte(s1, start1, s2, start2, n, skip_space(s1, i) - start1);
}

/// A string found in one input is found alike in any input that holds the same
/// bytes up to the string's end.
pub proof fn lemma_string_at_window(
    s1: Seq<u8>,
    start1: int,
    s2: Seq<u8>,
    start2: int,
    n: int,
    i: int,
)
    requires
        same_window(s1, start1, s2, start2, n),
        start1 <= i,
        string_at(s1, i) is Some,
        string_at(s1, i)->0.end <= start1 + n,
    ensures
        string_at(s2, i - start1 + start2) == Some(
            Literal {
                text: string_at(s1, i)->0.text,
                end: string_at(s1, i)->0.end - start1 + start2,
            },
        ),
        i < string_at(s1, i)->0.end,
{
    let a = skip_space(s1, i);
    let end = string_at(s1, i)->0.end;
    lemma_skip_space_bounds(s1, i);
    lemma_literal_end_bounds(s1, a + 1);
    lemma_skip_space_window(s1, start1, s2, start2, n, i);
    assert(same_window(s1, a, s2, a - start1 + start2, start1 + n - a)) by {
        assert(s1.subrange(a, start1 + n) =~= s1.subrange(start1, start1 + n).subrange(
            a - start1,
            n,
        ));
        assert(s2.subrange(a - start1 + start2, start2 + n) =~= s2.subrange(
            start2,
            start2 + n,
        ).subrange(a - start1, n));
    }
    lemma_literal_at_window(s1, a, s2, a - start1 + start2, start1 + n - a);
}

/// A token ends after the index it was looked for at, within the input.
pub proof fn lemma_token_at_bounds(s: Seq<u8>, i: int, b: u8)
    ensures
        token_at(s, i, b) matches Some(end) ==> i < end <= s.len(),
{
    lemma_skip_space_bounds(s, i);
}

/// A string ends after the index it was looked for at, within the input.
pub proof fn lemma_string_at_bounds(s: Seq<u8>, i: int)
    ensures
        string_at(s, i) matches Some(lit) ==> i < lit.end <= s.len(),
{
    lemma_skip_space_bounds(s, i);
    lemma_literal_end_bounds(s, skip_space(s, i) + 1);
}

/// A body ends after the index it was looked for at, within the input.
pub proof fn lemma_body_at_bounds(s: Seq<u8>, i: int, tag: Seq<char>)
    ensures
        body_at(s, i, tag) matches Some(body) ==> i < body.end <= s.len(),
{
    if tag == put_tag() {
        lemma_token_at_bounds(s, i, OPEN_BRACKET);
        if let Some(a) = token_at(s, i, OPEN_BRACKET) {
            lemma_string_at_bounds(s, a);
            if let Some(key) = string_at(s, a) {
                lemma_token_at_bounds(s, key.end, COMMA);
                if let Some(b) = token_at(s, key.end, COMMA) {
                    lemma_string_at_bounds(s, b);
                    if let Some(value) = string_at(s, b) {
                        lemma_token_at_bounds(s, value.end, CLOSE_BRACKET);
                    }
                }
            }
        }
    } else if tag == rm_tag() {
        lemma_string_at_bounds(s, i);
    }
}

/// A record starts at or after the index it was looked for at, and ends after its
/// start, within the input.
pub proof fn lemma_record_at_bounds(s: Seq<u8>, i: int)
    ensures
        record_at(s, i) matches Some(p) ==> i <= p.start < p.end <= s.len() && p.start
            == skip_space(s, i) && s[p.start] == OPEN_BRACE,
{
    lemma_skip_space_bounds(s, i);
    lemma_token_at_bounds(s, i, OPEN_BRACE);
    if let Some(a) = token_at(s, i, OPEN_BRACE) {
        lemma_string_at_bounds(s, a);
        if let Some(tag) = string_at(s, a) {
            lemma_token_at_bounds(s, tag.end, COLON);
            if let Some(b) = token_at(s, tag.end, COLON) {
                lemma_body_at_bounds(s, b, tag.text);
                if let Some(body) = body_at(s, b, tag.text) {
                    lemma_token_at_bounds(s, body.end, CLOSE_BRACE);
                }
            }
        }
    }
}

/// A body found in one input is found alike in any input that holds the same bytes
/// up to the body's end.
pub proof fn lemma_body_at_window(
    s1: Seq<u8>,
    start1: int,
    s2: Seq<u8>,
    start2: int,
    n: int,
    i: int,
    tag: Seq<char>,
)
    requires
        same_window(s1, start1, s2, start2, n),
        start1 <= i,
        body_at(s1, i, tag) is Some,
        body_at(s1, i, tag)->0.end <= start1 + n,
    ensures
        body_at(s2, i - start1 + start2, tag) == Some(
            Body {
                command: body_at(s1, i, tag)->0.command,
                end: body_at(s1, i, tag)->0.end - start1 + start2,
            },
        ),
{
    if tag == put_tag() {
        let a = token_at(s1, i, OPEN_BRACKET)->0;
        let key = string_at(s1, a)->0;
        let b = token_at(s1, key.end, COMMA)->0;
        let value = string_at(s1, b)->0;
        lemma_token_at_bounds(s1, i, OPEN_BRACKET);
        lemma_string_at_bounds(s1, a);
        lemma_token_at_bounds(s1, key.end, COMMA);
        lemma_string_at_bounds(s1, b);
        lemma_token_at_bounds(s1, value.end, CLOSE_BRACKET);
        lemma_token_at_window(s1, start1, s2, start2, n, i, OPEN_BRACKET);
        lemma_string_at_window(s1, start1, s2, start2, n, a);
        lemma_token_at_window(s1, start1, s2, start2, n, key.end, COMMA);
        lemma_string_at_window(s1, start1, s2, start2, n, b);
        lemma_token_at_window(s1, start1, s2, start2, n, value.end, CLOSE_BRACKET);
    } else {
        lemma_string_at_window(s1, start1, s2, start2, n, i);
    }
}

/// A record read from one input is read alike from any input that holds the same
/// bytes from the index it was looked for at up to the record's end.
pub proof fn lemma_record_at_window(
    s1: Seq<u8>,
    start1: int,
    s2: Seq<u8>,
    start2: int,
    n: int,
    i: int,
)
    requires
        same_window(s1, start1, s2, start2, n),
        start1 <= i,
        record_at(s1, i) is Some,
        record_at(s1, i)->0.end <= start1 + n,
    ensures
        record_at(s2, i - start1 + start2) == Some(
            Parsed {
                command: record_at(s1, i)->0.command,
                start: record_at(s1, i)->0.start - start1 + start2,
                end: record_at(s1, i)->0.end - start1 + start2,
            },
        ),
{
    let a = token_at(s1, i, OPEN_BRACE)->0;
    let tag = string_at(s1, a)->0;
    let b = token_at(s1, tag.end, COLON)->0;
    let body = body_at(s1, b, tag.text)->0;
    lemma_skip_space_bounds(s1, i);
    lemma_token_at_bounds(s1, i, OPEN_BRACE);
    lemma_string_at_bounds(s1, a);
    lemma_token_at_bounds(s1, tag.end, COLON);
    lemma_body_at_bounds(s1, b, tag.text);
    lemma_token_at_bounds(s1, body.end, CLOSE_BRACE);
    lemma_skip_space_window(s1, start1, s2, start2, n, i);
    lemma_token_at_window(s1, start1, s2, start2, n, i, OPEN_BRACE);
    lemma_string_at_window(s1, start1, s2, start2, n, a);
    lemma_token_at_window(s1, start1, s2, start2, n, tag.end, COLON);
    lemma_body_at_window(s1, start1, s2, start2, n, b, tag.text);
    lemma_token_at_window(s1, start1, s2, start2, n, body.end, CLOSE_BRACE);
}

/// `p` stands at the start of `t`.
pub open spec fn starts(t: Seq<u8>, p: Seq<u8>) -> bool {
    p.len() <= t.len() && t.subrange(0, p.len() as int) == p
}

/// Where `p + part` stands at the start of `t`, so does `p`, and `part` follows it.
proof fn lemma_part(t: Seq<u8>, p: Seq<u8>, part: Seq<u8>)
    requires
        starts(t, p + part),
    ensures
        starts(t, p),
        p.len() + part.len() <= t.len(),
        t.subrange(p.len() as int, (p.len() + part.len()) as int) == part,
{
    let q = p + part;
    assert(t.subrange(0, p.len() as int) =~= q.subrange(0, p.len() as int));
    assert(q.subrange(0, p.len() as int) =~= p);
    assert(t.subrange(p.len() as int, (p.len() + part.len()) as int) =~= t.subrange(
        0,
        q.len() as int,
    ).subrange(p.len() as int, q.len() as int));
    assert(q.subrange(p.len() as int, q.len() as int) =~= part);
}

/// A quotable string's literal is read where it stands.
proof fn lemma_string_step(t: Seq<u8>, i: int, x: Seq<char>)
    requires
        quotable(x),
        0 <= i,
        i + json_text(x)->0.len() <= t.len(),
        t.subrange(i, i + json_text(x)->0.len()) == json_text(x)->0,
    ensures
        string_at(t, i) == Some(Literal { text: x, end: i + json_text(x)->0.len() }),
{
    let mid = json_text(x)->0;
    assert(t.subrange(i, i + mid.len())[0] == t[i]);
    lemma_skip_space_stops(t, i);
    lemma_quoted_reads_back(x, t, i);
}

/// A byte that is no white space is found where it stands.
proof fn lemma_token_step(t: Seq<u8>, i: int, b: u8)
    requires
        !is_space(b),
        0 <= i < t.len(),
        t.subrange(i, i + 1) == seq![b],
    ensures
        token_at(t, i, b) == Some(i + 1),
{
    assert(t.subrange(i, i + 1)[0] == t[i]);
    assert(seq![b][0] == b);
    lemma_skip_space_stops(t, i);
}

/// The two tags differ.
pub proof fn lemma_tags_differ()
    ensures
        put_tag() != rm_tag(),
{
    reveal_strlit("Set");
    reveal_strlit("Rm");
    assert(put_tag().len() == 3);
    assert(rm_tag().len() == 2);
}

/// The bytes written for a record that sets a key are read as that record.
proof fn lemma_put_text_reads_back(k: Seq<char>, v: Seq<char>)
    requires
        encodable(CommandView::Put(k, v)),
    ensures
        record_at(record_text(CommandView::Put(k, v)), 0) == Some(
            Parsed {
                command: CommandView::Put(k, v),
                start: 0,
                end: record_text(CommandView::Put(k, v)).len() as int,
            },
        ),
{
    let t = record_text(CommandView::Put(k, v));
    let tt = json_text(put_tag())->0;
    let kt = json_text(k)->0;
    let vt = json_text(v)->0;
    let head0 = Seq::<u8>::empty();
    let head1 = seq![OPEN_BRACE];
    let head2 = head1 + tt;
    let head3 = head2 + seq![COLON];
    let head4 = head3 + seq![OPEN_BRACKET];
    let head5 = head4 + kt;
    let head6 = head5 + seq![COMMA];
    let head7 = head6 + vt;
    let head8 = head7 + seq![CLOSE_BRACKET];
    assert(t == head8 + seq![CLOSE_BRACE]);
    assert(t.subrange(0, t.len() as int) =~= t);
    assert(head1 =~= head0 + seq![OPEN_BRACE]);
    lemma_part(t, head8, seq![CLOSE_BRACE]);
    lemma_part(t, head7, seq![CLOSE_BRACKET]);
    lemma_part(t, head6, vt);
    lemma_part(t, head5, seq![COMMA]);
    lemma_part(t, head4, kt);
    lemma_part(t, head3, seq![OPEN_BRACKET]);
    lemma_part(t, head2, seq![COLON]);
    lemma_part(t, head1, tt);
    lemma_part(t, head0, seq![OPEN_BRACE]);
    lemma_token_step(t, 0, OPEN_BRACE);
    lemma_string_step(t, head1.len() as int, put_tag());
    lemma_token_step(t, head2.len() as int, COLON);
    lemma_token_step(t, head3.len() as int, OPEN_BRACKET);
    lemma_string_step(t, head4.len() as int, k);
    lemma_token_step(t, head5.len() as int, COMMA);
    lemma_string_step(t, head6.len() as int, v);
    lemma_token_step(t, head7.len() as int, CLOSE_BRACKET);
    lemma_token_step(t, head8.len() as int, CLOSE_BRACE);
    lemma_skip_space_stops(t, 0);
}

/// The bytes written for a record that retires a key are read as that record.
proof fn lemma_rm_text_reads_back(k: Seq<char>)
    requires
        encodable(CommandView::Rm(k)),
    ensures
        record_at(record_text(CommandView::Rm(k)), 0) == Some(
            Parsed {
                command: CommandView::Rm(k),
                start: 0,
                end: record_text(CommandView::Rm(k)).len() as int,
            },
        ),
{
    let t = record_text(CommandView::Rm(k));
    let tt = json_text(rm_tag())->0;
    let kt = json_text(k)->0;
    let head0 = Seq::<u8>::empty();
    let head1 = seq![OPEN_BRACE];
    let head2 = head1 + tt;
    let head3 = head2 + seq![COLON];
    let head4 = head3 + kt;
    assert(t == head4 + seq![CLOSE_BRACE]);
    assert(t.subrange(0, t.len() as int) =~= t);
    assert(head1 =~= head0 + seq![OPEN_BRACE]);
    lemma_part(t, head4, seq![CLOSE_BRACE]);
    lemma_part(t, head3, kt);
    lemma_part(t, head2, seq![COLON]);
    lemma_part(t, head1, tt);
    lemma_part(t, head0, seq![OPEN_BRACE]);
    lemma_tags_differ();
    lemma_token_step(t, 0, OPEN_BRACE);
    lemma_string_step(t, head1.len() as int, rm_tag());
    lemma_token_step(t, head2.len() as int, COLON);
    lemma_string_step(t, head3.len() as int, k);
    lemma_token_step(t, head4.len() as int, CLOSE_BRACE);
    lemma_skip_space_stops(t, 0);
}

/// The bytes of a record that can be written are read as that record, from their
/// first to their last.
pub proof fn lemma_record_text_reads_back(c: CommandView)
    requires
        encodable(c),
    ensures
        record_at(record_text(c), 0) == Some(
            Parsed { command: c, start: 0, end: record_text(c).len() as int },
        ),
{
    match c {
        CommandView::Put(k, v) => lemma_put_text_reads_back(k, v),
        CommandView::Rm(k) => lemma_rm_text_reads_back(k),
    }
}

/// Wherever the bytes of a record that can be written stand in an input, they
/// are read there as that record.
pub proof fn lemma_record_reads_back(c: CommandView, s: Seq<u8>, i: int)
    requires
        encodable(c),
        0 <= i,
        i + record_text(c).len() <= s.len(),
        s.subrange(i, i + record_text(c).len()) == record_text(c),
    ensures
        record_at(s, i) == Some(
            Parsed { command: c, start: i, end: i + record_text(c).len() },
        ),
{
    let t = record_text(c);
    lemma_record_text_reads_back(c);
    assert(t.subrange(0, t.len() as int) =~= t);
    lemma_record_at_window(t, 0, s, i, t.len() as int, 0);
}

/// A record read from a byte slice: its command, the index of its opening brace
/// and the index just past its closing brace.
#[derive(Debug)]
pub struct Decoded {
    pub command: Command,
    pub start: usize,
    pub end: usize,
}

impl View for Decoded {
    type V = Parsed;

    open spec fn view(&self) -> Parsed {
        Parsed { command: self.command@, start: self.start as int, end: self.end as int }
    }
}

/// Skips white space from `i` on.
pub fn skip_spaces(s: &[u8], i: usize) -> (j: usize)
    ensures
        j as int == skip_space(s@, i as int),
{
    let mut at: usize = i;
    while at < s.len() && (s[at] == 0x20 || s[at] == 0x09 || s[at] == 0x0a || s[at] == 0x0d)
        invariant
            skip_space(s@, i as int) == skip_space(s@, at as int),
        decreases s.len() - at,
    {
        at = at + 1;
    }
    at
}

/// Reads the byte `b` after optional white space.
pub fn take_token(s: &[u8], i: usize, b: u8) -> (r: Option<usize>)
    ensures
        match r {
            Some(end) => token_at(s@, i as int, b) == Some(end as int),
            None => token_at(s@, i as int, b) is None,
        },
{
    let j = skip_spaces(s, i);
    if j < s.len() && s[j] == b {
        Some(j + 1)
    } else {
        None
    }
}

/// Reads a string literal after optional white space.
pub fn take_string(s: &[u8], i: usize) -> (r: Option<(String, usize)>)
    ensures
        match r {
            Some((text, end)) => string_at(s@, i as int) == Some(
                Literal { text: text@, end: end as int },
            ),
            None => string_at(s@, i as int) is None,
        },
{
    let j = skip_spaces(s, i);
    read_literal(s, j)
}

/// Reads `[ "<key>" , "<value>" ]`.
fn take_put_body(s: &[u8], i: usize) -> (r: Option<(Command, usize)>)
    ensures
        match r {
            Some((command, end)) => put_body_at(s@, i as int) == Some(
                Body { command: command@, end: end as int },
            ),
            None => put_body_at(s@, i as int) is None,
        },
{
    let a = match take_token(s, i, OPEN_BRACKET) {
        Some(a) => a,
        None => {
            return None;
        },
    };
    let (key, key_end) = match take_string(s, a) {
        Some(found) => found,
        None => {
            return None;
        },
    };
    let b = match take_token(s, key_end, COMMA) {
        Some(b) => b,
        None => {
            return None;
        },
    };
    let (value, value_end) = match take_string(s, b) {
        Some(found) => found,
        None => {
            return None;
        },
    };
    match take_token(s, value_end, CLOSE_BRACKET) {
        Some(end) => Some((Command::Put(key, value), end)),
        None => None,
    }
}

/// Reads the record that starts at the first index from `i` on that holds no
/// white space. `None` if what stands there is no record.
pub fn decode(s: &[u8], i: usize) -> (r: Option<Decoded>)
    ensures
        match r {
            Some(d) => record_at(s@, i as int) == Some(d@),
            None => record_at(s@, i as int) is None,
        },
{
    let start = skip_spaces(s, i);
    let a = match take_token(s, i, OPEN_BRACE) {
        Some(a) => a,
        None => {
            return None;
        },
    };
    let (tag, tag_end) = match take_string(s, a) {
        Some(found) => found,
        None => {
            return None;
        },
    };
    let b = match take_token(s, tag_end, COLON) {
        Some(b) => b,
        None => {
            return None;
        },
    };
    let (command, body_end) = if tag == String::from_str("Set") {
        match take_put_body(s, b) {
            Some(found) => found,
            None => {
                return None;
            },
        }
    } else if tag == String::from_str("Rm") {
        match take_string(s, b) {
            Some((key, end)) => (Command::Rm(key), end),
            None => {
                return None;
            },
        }
    } else {
        return None;
    };
    match take_token(s, body_end, CLOSE_BRACE) {
        Some(end) => Some(Decoded { command, start, end }),
        None => None,
    }
}

/// Writes the record that maps `key` to `value`: the bytes of its JSON object, without
/// white space. `None` where its strings cannot be written so that they read back.
pub fn encode_put(key: &String, value: &String) -> (r: Option<Vec<u8>>)
    ensures
        match r {
            Some(text) => encodable(CommandView::Put(key@, value@)) && text@ == record_text(
                CommandView::Put(key@, value@),
            ),
            None => !encodable(CommandView::Put(key@, value@)),
        },
{
    let mut tag = match quote(&String::from_str("Set")) {
        Some(text) => text,
        None => {
            return None;
        },
    };
    let mut k = match quote(key) {
        Some(text) => text,
        None => {
            return None;
        },
    };
    let mut v = match quote(value) {
        Some(text) => text,
        None => {
            return None;
        },
    };
    let mut out: Vec<u8> = Vec::new();
    out.push(OPEN_BRACE);
    out.append(&mut tag);
    out.push(COLON);
    out.push(OPEN_BRACKET);
    out.append(&mut k);
    out.push(COMMA);
    out.append(&mut v);
    out.push(CLOSE_BRACKET);
    out.push(CLOSE_BRACE);
    assert(out@ =~= record_text(CommandView::Put(key@, value@)));
    Some(out)
}

/// Writes the record that retires `key`: the bytes of its JSON object, without white
/// space. `None` where its strings cannot be written so that they read back.
pub fn encode_rm(key: &String) -> (r: Option<Vec<u8>>)
    ensures
        match r {
            Some(text) => encodable(CommandView::Rm(key@)) && text@ == record_text(
                CommandView::Rm(key@),
            ),
            None => !encodable(CommandView::Rm(key@)),
        },
{
    let mut tag = match quote(&String::from_str("Rm")) {
        Some(text) => text,
        None => {
            return None;
        },
    };
    let mut k = match quote(key) {
        Some(text) => text,
        None => {
            return None;
        },
    };
    let mut out: Vec<u8> = Vec::new();
    out.push(OPEN_BRACE);
    out.append(&mut tag);
    out.push(COLON);
    out.append(&mut k);
    out.push(CLOSE_BRACE);
    assert(out@ =~= record_text(CommandView::Rm(key@)));
    Some(out)
}

/// Writes a record. `None` where its strings cannot be written so that they read
/// back.
pub fn encode(c: &Command) -> (r: Option<Vec<u8>>)
    ensures
        match r {
            Some(text) => encodable(c@) && text@ == record_text(c@),
            None => !encodable(c@),
        },
{
    match c {
        Command::Put(key, value) => encode_put(key, value),
        Command::Rm(key) => encode_rm(key),
    }
}

} // verus!
