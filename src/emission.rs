//! Parsing one line of output into an emission.
use vstd::prelude::*;
use vstd::string::{StrSliceExecFns, StringExecFns};
use vstd::utf8::{decode_utf8, encode_utf8, valid_utf8};
use base64::Engine;

verus! {

/// The character that delimits an emission's identifier.
pub const MARKER: char = '*';

/// The text before the first `c` of `s` and the text after it, if `c` occurs.
pub open spec fn cut_at(s: Seq<char>, c: char) -> Option<(Seq<char>, Seq<char>)>
    decreases s.len(),
{
    if s.len() == 0 {
        None
    } else if s[0] == c {
        Some((Seq::empty(), s.drop_first()))
    } else {
        match cut_at(s.drop_first(), c) {
            Some((a, b)) => Some((seq![s[0]] + a, b)),
            None => None,
        }
    }
}

/// The identifier and the encoded payload of a line: the text between its
/// first two markers, and everything after the second.
pub open spec fn marked_parts(line: Seq<char>) -> Option<(Seq<char>, Seq<char>)> {
    match cut_at(line, MARKER) {
        Some((_, rest)) => cut_at(rest, MARKER),
        None => None,
    }
}

/// `cut_at` splits `s` around the first `c`.
pub proof fn lemma_cut_at(s: Seq<char>, c: char)
    ensures
        match cut_at(s, c) {
            Some((a, b)) => s =~= a + seq![c] + b && !a.contains(c),
            None => !s.contains(c),
        },
    decreases s.len(),
{
    if s.len() > 0 && s[0] != c {
        lemma_cut_at(s.drop_first(), c);
        match cut_at(s.drop_first(), c) {
            Some((a, b)) => {
                assert(s =~= seq![s[0]] + s.drop_first());
                assert forall|i: int| 0 <= i < a.len() + 1 implies (seq![s[0]] + a)[i] != c by {
                    if i > 0 {
                        assert((seq![s[0]] + a)[i] == a[i - 1]);
                    }
                }
            },
            None => {
                assert forall|i: int| 0 <= i < s.len() implies s[i] != c by {
                    if i > 0 {
                        assert(s[i] == s.drop_first()[i - 1]);
                    }
                }
            },
        }
    }
}

/// Splitting `a + [c] + b` at its first `c` gives back `a` and `b` when `a`
/// holds no `c`.
pub proof fn lemma_cut_at_join(a: Seq<char>, b: Seq<char>, c: char)
    requires
        !a.contains(c),
    ensures
        cut_at(a + seq![c] + b, c) == Some((a, b)),
    decreases a.len(),
{
    let s = a + seq![c] + b;
    if a.len() == 0 {
        assert(s[0] == c);
        assert(s.drop_first() =~= b);
    } else {
        assert(a[0] != c) by {
            if a[0] == c {
                assert(a.contains(c));
            }
        }
        let tail = a.drop_first();
        assert(!tail.contains(c)) by {
            if tail.contains(c) {
                let i = choose|i: int| 0 <= i < tail.len() && tail[i] == c;
                assert(a[i + 1] == c);
            }
        }
        lemma_cut_at_join(tail, b, c);
        assert(s.drop_first() =~= tail + seq![c] + b);
        assert(seq![s[0]] + tail =~= a);
    }
}

/// What the standard base64 engine decodes `s` to, if it accepts it.
pub uninterp spec fn base64_decoded(s: Seq<char>) -> Option<Seq<u8>>;

/// What the standard base64 engine encodes `b` as.
pub uninterp spec fn base64_encoded(b: Seq<u8>) -> Seq<char>;

/// The text that a payload carries: base64 of UTF-8 bytes.
pub open spec fn decoded_text(payload: Seq<char>) -> Option<Seq<char>> {
    match base64_decoded(payload) {
        Some(bytes) => if valid_utf8(bytes) {
            Some(decode_utf8(bytes))
        } else {
            None
        },
        None => None,
    }
}

/// The identifier and value of the emission that `line` carries, if any.
pub open spec fn line_emission(line: Seq<char>) -> Option<(Seq<char>, Seq<char>)> {
    match marked_parts(line) {
        Some((id, payload)) => match decoded_text(payload) {
            Some(value) => Some((id, value)),
            None => None,
        },
        None => None,
    }
}

/// Relies on base64's `Engine::decode` on the `STANDARD` engine (standard
/// alphabet, padding required): whether it succeeds, and the bytes it gives,
/// depend on the text alone.
#[verifier::external_body]
fn decode_base64(s: &str) -> (r: Result<Vec<u8>, String>)
    ensures
        match r {
            Ok(b) => base64_decoded(s@) == Some(b@),
            Err(_) => base64_decoded(s@) is None,
        },
{
    base64::engine::general_purpose::STANDARD.decode(s).map_err(|e| e.to_string())
}

/// Relies on base64's `Engine::encode` on the `STANDARD` engine: the text
/// depends on the bytes alone, and the same engine decodes it back to them.
/// `encode` panics when the encoded length overflows `usize`.
#[verifier::external_body]
fn encode_base64(b: &[u8]) -> (r: String)
    requires
        b@.len() <= usize::MAX / 2,
    ensures
        r@ == base64_encoded(b@),
        base64_decoded(r@) == Some(b@),
{
    base64::engine::general_purpose::STANDARD.encode(b)
}

/// Relies on std's `String::from_utf8`: it succeeds exactly on valid UTF-8,
/// and the string then holds the characters those bytes encode.
#[verifier::external_body]
fn text_of_utf8(b: Vec<u8>) -> (r: Result<String, String>)
    ensures
        match r {
            Ok(s) => valid_utf8(b@) && s@ == decode_utf8(b@),
            Err(_) => !valid_utf8(b@),
        },
{
    String::from_utf8(b).map_err(|e| e.to_string())
}

/// The first position at or after `from` where `cs` holds `c`.
pub(crate) fn find_char(cs: &Vec<char>, from: usize, c: char) -> (r: Option<usize>)
    requires
        from <= cs.len(),
    ensures
        match r {
            Some(p) => from <= p < cs.len() && cs@[p as int] == c && forall|k: int|
                from <= k < p ==> cs@[k] != c,
            None => forall|k: int| from <= k < cs.len() ==> cs@[k] != c,
        },
{
    let mut i: usize = from;
    while i < cs.len()
        invariant
            from <= i <= cs.len(),
            forall|k: int| from <= k < i ==> cs@[k] != c,
        decreases cs.len() - i,
    {
        if cs[i] == c {
            return Some(i);
        }
        i = i + 1;
    }
    None
}

/// Where a search from `from` finds `c` first at `p`, `cut_at` on the text
/// from `from` splits there.
pub(crate) proof fn lemma_cut_found(s: Seq<char>, from: int, p: int, c: char)
    requires
        0 <= from <= p < s.len(),
        s[p] == c,
        forall|k: int| from <= k < p ==> s[k] != c,
    ensures
        cut_at(s.subrange(from, s.len() as int), c) == Some(
            (s.subrange(from, p), s.subrange(p + 1, s.len() as int)),
        ),
{
    let a = s.subrange(from, p);
    let b = s.subrange(p + 1, s.len() as int);
    assert(!a.contains(c)) by {
        if a.contains(c) {
            let i = choose|i: int| 0 <= i < a.len() && a[i] == c;
            assert(s[from + i] == c);
        }
    }
    lemma_cut_at_join(a, b, c);
    assert(s.subrange(from, s.len() as int) =~= a + seq![c] + b);
}

/// Where no `c` follows `from`, `cut_at` on the text from `from` finds none.
pub(crate) proof fn lemma_cut_missing(s: Seq<char>, from: int, c: char)
    requires
        0 <= from <= s.len(),
        forall|k: int| from <= k < s.len() ==> s[k] != c,
    ensures
        cut_at(s.subrange(from, s.len() as int), c) is None,
{
    let t = s.subrange(from, s.len() as int);
    lemma_cut_at(t, c);
    if let Some((a, b)) = cut_at(t, c) {
        assert(t[a.len() as int] == c);
        assert(s[from + a.len()] == c);
    }
}

/// `line` holds the marker at two positions.
pub open spec fn has_two_markers(line: Seq<char>) -> bool {
    exists|i: int, j: int| 0 <= i < j < line.len() && line[i] == MARKER && line[j] == MARKER
}

/// A line has emission shape exactly when it holds two markers; `parse`
/// fails with `FormatError` on every other line.
pub proof fn lemma_shape_needs_two_markers(line: Seq<char>)
    ensures
        marked_parts(line) is Some <==> has_two_markers(line),
{
    lemma_cut_at(line, MARKER);
    match cut_at(line, MARKER) {
        Some((a, rest)) => {
            lemma_cut_at(rest, MARKER);
            assert(line[a.len() as int] == MARKER);
            match cut_at(rest, MARKER) {
                Some((id, p)) => {
                    assert(line[(a.len() + 1 + id.len()) as int] == MARKER);
                },
                None => {
                    if has_two_markers(line) {
                        let (i, j) = choose|i: int, j: int|
                            0 <= i < j < line.len() && line[i] == MARKER && line[j] == MARKER;
                        if i < a.len() {
                            assert(a[i] == MARKER);
                        } else {
                            assert(rest[j - a.len() - 1] == MARKER);
                        }
                    }
                },
            }
        },
        None => {
            if has_two_markers(line) {
                let (i, j) = choose|i: int, j: int|
                    0 <= i < j < line.len() && line[i] == MARKER && line[j] == MARKER;
                assert(line.contains(line[i]));
            }
        },
    }
}

/// One decoded watermark: an identifier and the text it carried.
pub struct Emission {
    pub id: String,
    pub value: String,
}

/// Why a line carries no emission.
pub enum EmissionParseError {
    /// The line does not hold two markers.
    FormatError(String),
    /// The payload is not base64 of UTF-8 text.
    DecodeError(String),
}

impl EmissionParseError {
    /// The error as a line of text.
    pub fn message(&self) -> (r: String)
        ensures
            r@ == match self {
                EmissionParseError::FormatError(msg) => "Format Error: "@ + msg@,
                EmissionParseError::DecodeError(msg) => "Decode Error: "@ + msg@,
            },
    {
        let mut r: String;
        match self {
            EmissionParseError::FormatError(msg) => {
                r = "Format Error: ".to_owned();
                r.append(msg.as_str());
            },
            EmissionParseError::DecodeError(msg) => {
                r = "Decode Error: ".to_owned();
                r.append(msg.as_str());
            },
        }
        r
    }
}

impl Emission {
    /// An emission with the given identifier and value.
    pub fn new(id: String, value: String) -> (r: Emission)
        ensures
            r.id@ == id@,
            r.value@ == value@,
    {
        Emission { id, value }
    }

    pub fn id(&self) -> (r: &String)
        ensures
            r@ == self.id@,
    {
        &self.id
    }

    pub fn value(&self) -> (r: &String)
        ensures
            r@ == self.value@,
    {
        &self.value
    }

    /// The emission carried by `line`: the identifier between its first two
    /// markers, and the text that the rest of the line holds as base64.
    pub fn parse(line: &str) -> (r: Result<Emission, EmissionParseError>)
        ensures
            match marked_parts(line@) {
                None => r is Err && r->Err_0 is FormatError,
                Some((id, payload)) => match decoded_text(payload) {
                    None => r is Err && r->Err_0 is DecodeError,
                    Some(value) => r is Ok && r->Ok_0.id@ == id && r->Ok_0.value@ == value,
                },
            },
            r is Ok <==> line_emission(line@) is Some,
            r is Ok ==> line_emission(line@) == Some((r->Ok_0.id@, r->Ok_0.value@)),
    {
        let cs = chars_of(line);
        let ghost s = line@;
        let first = find_char(&cs, 0, MARKER);
        let i = match first {
            Some(i) => i,
            None => {
                proof {
                    lemma_cut_missing(s, 0, MARKER);
                    assert(s.subrange(0, s.len() as int) =~= s);
                }
                return Err(EmissionParseError::FormatError("Invalid format".to_owned()));
            },
        };
        proof {
            lemma_cut_found(s, 0, i as int, MARKER);
            assert(s.subrange(0, s.len() as int) =~= s);
        }
        let second = find_char(&cs, i + 1, MARKER);
        let j = match second {
            Some(j) => j,
            None => {
                proof {
                    lemma_cut_missing(s, i + 1, MARKER);
                }
                return Err(
                    EmissionParseError::FormatError(
                        "ID not found in emission string".to_owned(),
                    ),
                );
            },
        };
        proof {
            lemma_cut_found(s, i + 1, j as int, MARKER);
            assert(s.subrange(i + 1, s.len() as int).subrange(0, j - (i + 1)) =~= s.subrange(
                i + 1,
                j as int,
            ));
        }
        let id = line.substring_char(i + 1, j).to_owned();
        let payload = line.substring_char(j + 1, cs.len());
        match decode_base64(payload) {
            Err(msg) => Err(EmissionParseError::DecodeError(msg)),
            Ok(bytes) => match text_of_utf8(bytes) {
                Err(msg) => Err(EmissionParseError::DecodeError(msg)),
                Ok(value) => Ok(Emission { id, value }),
            },
        }
    }

    /// The line that carries this emission: the identifier between two
    /// markers, then the value's UTF-8 bytes in base64.
    pub fn to_line(&self) -> (r: String)
        requires
            !self.id@.contains(MARKER),
            encode_utf8(self.value@).len() <= usize::MAX / 2,
        ensures
            r@ == seq![MARKER] + self.id@ + seq![MARKER] + base64_encoded(
                encode_utf8(self.value@),
            ),
            line_emission(r@) == Some((self.id@, self.value@)),
    {
        let encoded = encode_base64(self.value.as_str().as_bytes());
        let mut r = "*".to_owned();
        r.append(self.id.as_str());
        r.append("*");
        r.append(encoded.as_str());
        proof {
            reveal_strlit("*");
            let id = self.id@;
            let enc = encoded@;
            assert(r@ =~= seq![MARKER] + id + seq![MARKER] + enc);
            lemma_cut_at_join(Seq::empty(), id + seq![MARKER] + enc, MARKER);
            assert(Seq::<char>::empty() + seq![MARKER] + (id + seq![MARKER] + enc) =~= r@);
            lemma_cut_at_join(id, enc, MARKER);
            vstd::utf8::encode_utf8_decode_utf8(self.value@);
            vstd::utf8::encode_utf8_valid_utf8(self.value@);
        }
        r
    }
}

/// The characters of `s`, in order.
pub(crate) fn chars_of(s: &str) -> (r: Vec<char>)
    ensures
        r@ == s@,
{
    let mut cs: Vec<char> = Vec::new();
    for c in it: s.chars()
        invariant
            cs@ == it.seq().take(it.index() as int),
    {
        cs.push(c);
    }
    assert(cs@ =~= s@);
    cs
}

} // verus!
