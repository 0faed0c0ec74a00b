//! JSON string literals: writing and reading them is left to `serde_json`;
//! finding where a literal ends in a byte stream is done here.

use vstd::prelude::*;

verus! {

/// The error type of `serde_json`. A value of it is carried, never read.
#[verifier::external_type_specification]
#[verifier::external_body]
pub struct ExJsonError(serde_json::Error);

/// The JSON text that `serde_json` writes for a string, `None` where it reports an error.
pub uninterp spec fn json_text(s: Seq<char>) -> Option<Seq<u8>>;

/// The string that `serde_json` reads from a complete JSON text, `None` where it rejects the text.
pub uninterp spec fn json_string(text: Seq<u8>) -> Option<Seq<char>>;

/// Calls `serde_json::to_vec` on a string. The contract only gives the outcome its
/// name, `json_text`: the bytes written, or that an error came back.
#[verifier::external_body]
fn to_json(s: &str) -> (r: Result<Vec<u8>, serde_json::Error>)
    ensures
        match r {
            Ok(text) => json_text(s@) == Some(text@),
            Err(_) => json_text(s@) is None,
        },
{
    serde_json::to_vec(s)
}

/// Calls `serde_json::from_slice` to read one string from a JSON text. The contract
/// only gives the outcome its name, `json_string`: the string read, or that the text
/// was rejected.
#[verifier::external_body]
fn from_json(text: &[u8]) -> (r: Result<String, serde_json::Error>)
    ensures
        match r {
            Ok(s) => json_string(text@) == Some(s@),
            Err(_) => json_string(text@) is None,
        },
{
    serde_json::from_slice::<String>(text)
}

/// The byte that opens and closes a string literal.
pub const QUOTE: u8 = 0x22;

/// The byte that escapes the one after it in a string literal.
pub const BACKSLASH: u8 = 0x5c;

/// Where the string literal that is open at `i` ends: the index just past the
/// first quote that no backslash escapes, `None` if the input ends before it.
pub open spec fn literal_end(s: Seq<u8>, i: int) -> Option<int>
    decreases s.len() - i,
{
    if i < 0 || i >= s.len() {
        None
    } else if s[i] == QUOTE {
        Some(i + 1)
    } else if s[i] == BACKSLASH {
        if i + 1 >= s.len() {
            None
        } else {
            literal_end(s, i + 2)
        }
    } else {
        literal_end(s, i + 1)
    }
}

/// A string literal found in an input: the string it denotes and the index just
/// past its closing quote.
pub struct Literal {
    pub text: Seq<char>,
    pub end: int,
}

/// The string literal that starts at `start`: the string it denotes and the index
/// just past its closing quote. `None` if no literal starts there, if it is not
/// closed, or if `serde_json` rejects it.
pub open spec fn literal_at(s: Seq<u8>, start: int) -> Option<Literal> {
    if 0 <= start < s.len() && s[start] == QUOTE {
        match literal_end(s, start + 1) {
            Some(end) => match json_string(s.subrange(start, end)) {
                Some(text) => Some(Literal { text, end }),
                None => None,
            },
            None => None,
        }
    } else {
        None
    }
}

/// Two inputs hold the same `n` bytes, the first from `i` on, the second from `j` on.
pub open spec fn same_window(s1: Seq<u8>, i: int, s2: Seq<u8>, j: int, n: int) -> bool {
    &&& 0 <= i && 0 <= j && 0 <= n
    &&& i + n <= s1.len()
    &&& j + n <= s2.len()
    &&& s1.subrange(i, i + n) == s2.subrange(j, j + n)
}

/// Inputs that hold the same window hold the same byte at each place of it.
pub proof fn lemma_window_byte(s1: Seq<u8>, i: int, s2: Seq<u8>, j: int, n: int, k: int)
    requires
        same_window(s1, i, s2, j, n),
        0 <= k < n,
    ensures
        s1[i + k] == s2[j + k],
{
    assert(s1.subrange(i, i + n)[k] == s1[i + k]);
    assert(s2.subrange(j, j + n)[k] == s2[j + k]);
}

/// The end of a literal depends only on the bytes up to that end.
pub proof fn lemma_literal_end_window(
    s1: Seq<u8>,
    i: int,
    s2: Seq<u8>,
    j: int,
    start1: int,
    start2: int,
    n: int,
)
    requires
        same_window(s1, start1, s2, start2, n),
        start1 <= i,
        i - start1 == j - start2,
        literal_end(s1, i) is Some,
        literal_end(s1, i)->0 <= start1 + n,
    ensures
        literal_end(s2, j) == Some(literal_end(s1, i)->0 - start1 + start2),
    decreases s1.len() - i,
{
    lemma_literal_end_bounds(s1, i);
    lemma_window_byte(s1, start1, s2, start2, n, i - start1);
    if s1[i] == QUOTE {
    } else if s1[i] == BACKSLASH {
        lemma_literal_end_bounds(s1, i + 2);
        lemma_literal_end_window(s1, i + 2, s2, j + 2, start1, start2, n);
    } else {
        lemma_literal_end_bounds(s1, i + 1);
        lemma_literal_end_window(s1, i + 1, s2, j + 1, start1, start2, n);
    }
}

/// A literal ends after the place where it was entered, and within the input.
pub proof fn lemma_literal_end_bounds(s: Seq<u8>, i: int)
    ensures
        literal_end(s, i) matches Some(end) ==> i < end <= s.len(),
    decreases s.len() - i,
{
    if i < 0 || i >= s.len() {
    } else if s[i] == QUOTE {
    } else if s[i] == BACKSLASH {
        if i + 1 < s.len() {
            lemma_literal_end_bounds(s, i + 2);
        }
    } else {
        lemma_literal_end_bounds(s, i + 1);
    }
}

/// A literal read from one input is read alike from any input that holds the
/// same bytes in the literal's place.
pub proof fn lemma_literal_at_window(s1: Seq<u8>, i: int, s2: Seq<u8>, j: int, n: int)
    requires
        same_window(s1, i, s2, j, n),
        literal_at(s1, i) is Some,
        literal_at(s1, i)->0.end <= i + n,
    ensures
        literal_at(s2, j) == Some(
            Literal { text: literal_at(s1, i)->0.text, end: literal_at(s1, i)->0.end - i + j },
        ),
{
    let end = literal_end(s1, i + 1)->0;
    lemma_literal_end_bounds(s1, i + 1);
    lemma_window_byte(s1, i, s2, j, n, 0);
    lemma_literal_end_window(s1, i + 1, s2, j + 1, i, j, n);
    assert(s1.subrange(i, end) =~= s2.subrange(j, end - i + j)) by {
        assert forall|k: int| 0 <= k < end - i implies s1.subrange(i, end)[k] == s2.subrange(
            j,
            end - i + j,
        )[k] by {
            lemma_window_byte(s1, i, s2, j, n, k);
        }
    }
}

/// Finds the end of the literal that is open at `i`.
pub fn find_literal_end(s: &[u8], i: usize) -> (r: Option<usize>)
    ensures
        match r {
            Some(end) => literal_end(s@, i as int) == Some(end as int),
            None => literal_end(s@, i as int) is None,
        },
{
    let mut at: usize = i;
    while at < s.len()
        invariant
            i <= at,
            literal_end(s@, i as int) == literal_end(s@, at as int),
        decreases s.len() - at,
    {
        let b = s[at];
        if b == QUOTE {
            return Some(at + 1);
        } else if b == BACKSLASH {
            if s.len() - at < 2 {
                return None;
            }
            at = at + 2;
        } else {
            at = at + 1;
        }
    }
    None
}

/// The text is one string literal from its first byte to its last.
pub open spec fn is_literal(text: Seq<u8>) -> bool {
    &&& text.len() >= 2
    &&& text[0] == QUOTE
    &&& literal_end(text, 1) == Some(text.len() as int)
}

/// The string can be written and read back: `serde_json` writes it as one string
/// literal, and reads that literal as the string itself.
pub open spec fn quotable(s: Seq<char>) -> bool {
    match json_text(s) {
        Some(text) => is_literal(text) && json_string(text) == Some(s),
        None => false,
    }
}

/// The literal of a quotable string, wherever it stands in an input, is read there
/// as that string.
pub proof fn lemma_quoted_reads_back(x: Seq<char>, s: Seq<u8>, i: int)
    requires
        quotable(x),
        0 <= i,
        i + json_text(x)->0.len() <= s.len(),
        s.subrange(i, i + json_text(x)->0.len()) == json_text(x)->0,
    ensures
        literal_at(s, i) == Some(Literal { text: x, end: i + json_text(x)->0.len() }),
{
    let t = json_text(x)->0;
    assert(t.subrange(0, t.len() as int) =~= t);
    lemma_literal_at_window(t, 0, s, i, t.len() as int);
}

/// Whether the text is one string literal from its first byte to its last.
pub fn is_whole_literal(text: &[u8]) -> (r: bool)
    ensures
        r == is_literal(text@),
{
    if text.len() < 2 || text[0] != QUOTE {
        return false;
    }
    match find_literal_end(text, 1) {
        Some(end) => end == text.len(),
        None => false,
    }
}

/// Writes a string as a JSON string literal and checks that the literal reads back
/// as the string. `None` where it would not.
pub fn quote(s: &String) -> (r: Option<Vec<u8>>)
    ensures
        match r {
            Some(text) => quotable(s@) && json_text(s@) == Some(text@),
            None => !quotable(s@),
        },
{
    match to_json(s.as_str()) {
        Ok(text) => {
            if !is_whole_literal(text.as_slice()) {
                return None;
            }
            match from_json(text.as_slice()) {
                Ok(back) => {
                    if back == *s {
                        Some(text)
                    } else {
                        None
                    }
                },
                Err(_) => None,
            }
        },
        Err(_) => None,
    }
}

/// Reads the string literal that starts at `start`.
pub fn read_literal(s: &[u8], start: usize) -> (r: Option<(String, usize)>)
    ensures
        match r {
            Some((text, end)) => literal_at(s@, start as int) == Some(
                Literal { text: text@, end: end as int },
            ),
            None => literal_at(s@, start as int) is None,
        },
{
    if start >= s.len() || s[start] != QUOTE {
        return None;
    }
    match find_literal_end(s, start + 1) {
        Some(end) => {
            proof {
                lemma_literal_end_bounds(s@, start + 1);
            }
            match from_json(vstd::slice::slice_subrange(s, start, end)) {
                Ok(text) => Some((text, end)),
                Err(_) => None,
            }
        },
        None => None,
    }
}

} // verus!
