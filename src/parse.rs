use vstd::prelude::*;
use crate::text::{
    chars_of, find, find_in_window, lemma_find, lemma_trim_bounds, lemma_trimmed_len, trim_window,
    trimmed,
};
use crate::value::{put, Json, JsonMap, JsonValue};

verus! {

/// Why a text is not a value.
#[derive(Debug, Clone, Copy, PartialEq, Eq, Structural)]
pub enum ParseError {
    EmptyInput,
    InvalidStringFormat,
    InvalidNumberFormat,
    InvalidBooleanFormat,
    InvalidObjectEntry,
}

/// Where parsing got to, in mathematical form.
pub enum Outcome {
    /// Parsing ended: a value or an error.
    Done(Result<Json, ParseError>),
    /// Parsing needs to know whether this literal is a number, and which.
    NeedsNumber(Seq<char>),
}

/// Where parsing got to. Reading a number literal as a double is left to
/// the caller: a parse that meets a literal that `numbers` does not list
/// stops and names it; the caller reads it, adds it to the list and parses
/// again.
#[derive(Debug, PartialEq)]
pub enum ParseStep {
    Done(Result<JsonValue, ParseError>),
    NeedsNumber(String),
}

pub open spec fn result_view(r: Result<JsonValue, ParseError>) -> Result<Json, ParseError> {
    match r {
        Ok(v) => Ok(v@),
        Err(e) => Err(e),
    }
}

impl ParseStep {
    pub open spec fn view(&self) -> Outcome {
        match self {
            ParseStep::Done(r) => Outcome::Done(result_view(*r)),
            ParseStep::NeedsNumber(l) => Outcome::NeedsNumber(l@),
        }
    }
}

/// What the list of number readings says of `lit`: `None` where it does
/// not list it; else the rendering of its double, or `None` where `lit` is
/// no number. The first entry for `lit` counts.
pub open spec fn reading(numbers: Seq<(String, Option<String>)>, lit: Seq<char>) -> Option<
    Option<Seq<char>>,
>
    decreases numbers.len(),
{
    if numbers.len() == 0 {
        None
    } else if numbers[0].0@ == lit {
        Some(
            match numbers[0].1 {
                Some(n) => Some(n@),
                None => None,
            },
        )
    } else {
        reading(numbers.drop_first(), lit)
    }
}

pub open spec fn word_true() -> Seq<char> {
    seq!['t', 'r', 'u', 'e']
}

pub open spec fn word_false() -> Seq<char> {
    seq!['f', 'a', 'l', 's', 'e']
}

pub open spec fn word_null() -> Seq<char> {
    seq!['n', 'u', 'l', 'l']
}

/// A quoted text: the characters between the first and the last, verbatim.
pub open spec fn string_spec(t: Seq<char>) -> Result<Json, ParseError> {
    if t.len() >= 2 && t[0] == '"' && t[t.len() - 1] == '"' {
        Ok(Json::Text(t.subrange(1, t.len() - 1)))
    } else {
        Err(ParseError::InvalidStringFormat)
    }
}

pub open spec fn boolean_spec(t: Seq<char>) -> Result<Json, ParseError> {
    if t == word_true() {
        Ok(Json::Boolean(true))
    } else if t == word_false() {
        Ok(Json::Boolean(false))
    } else {
        Err(ParseError::InvalidBooleanFormat)
    }
}

pub open spec fn number_spec(t: Seq<char>, numbers: Seq<(String, Option<String>)>) -> Outcome {
    match reading(numbers, t) {
        None => Outcome::NeedsNumber(t),
        Some(None) => Outcome::Done(Err(ParseError::InvalidNumberFormat)),
        Some(Some(n)) => Outcome::Done(Ok(Json::Number(n))),
    }
}

/// An object entry split at its first `:` into a key, with white space and
/// then quotes trimmed from both ends, and a value text with white space
/// trimmed; `None` unless both parts are non-empty after trimming white space.
pub open spec fn entry_parts(seg: Seq<char>) -> Option<(Seq<char>, Seq<char>)> {
    let c = find(seg, ':');
    if c < seg.len() {
        let k = trimmed(seg.subrange(0, c), false);
        let v = trimmed(seg.subrange(c + 1, seg.len() as int), false);
        if k.len() > 0 && v.len() > 0 {
            Some((trimmed(k, true), v))
        } else {
            None
        }
    } else {
        None
    }
}

/// The value part of an entry is shorter than the entry.
pub proof fn lemma_entry_parts(seg: Seq<char>)
    ensures
        entry_parts(seg) matches Some((k, v)) ==> v.len() < seg.len(),
{
    lemma_find(seg, ':');
    let c = find(seg, ':');
    if c < seg.len() {
        lemma_trimmed_len(seg.subrange(c + 1, seg.len() as int), false);
    }
}

/// Parses a text with no white space at either end.
pub open spec fn parse_trimmed(t: Seq<char>, numbers: Seq<(String, Option<String>)>) -> Outcome
    decreases t.len(), 2int,
{
    if t.len() == 0 {
        Outcome::Done(Err(ParseError::EmptyInput))
    } else if t[0] == '"' {
        Outcome::Done(string_spec(t))
    } else if t[0] == '{' {
        if t.len() < 2 {
            Outcome::Done(Err(ParseError::InvalidObjectEntry))
        } else {
            object_spec(t.subrange(1, t.len() - 1), numbers)
        }
    } else if t == word_true() || t == word_false() {
        Outcome::Done(boolean_spec(t))
    } else if t == word_null() {
        Outcome::Done(Ok(Json::Null))
    } else {
        number_spec(t, numbers)
    }
}

/// Parses an object body, the text between the braces: an empty body is an
/// empty object; any other is a list of entries.
pub open spec fn object_spec(body: Seq<char>, numbers: Seq<(String, Option<String>)>) -> Outcome
    decreases body.len(), 1int,
{
    if body.len() == 0 {
        Outcome::Done(Ok(Json::Object(Seq::empty())))
    } else {
        entries_spec(body, Seq::empty(), numbers)
    }
}

/// Parses the entries of an object body from `rest` on, split at every
/// `,`, each into `acc` in turn; the first failure ends the parse.
pub open spec fn entries_spec(
    rest: Seq<char>,
    acc: Seq<(Seq<char>, Json)>,
    numbers: Seq<(String, Option<String>)>,
) -> Outcome
    decreases rest.len(), 0int,
{
    let c = find(rest, ',');
    let seg = rest.subrange(0, c);
    proof {
        lemma_find(rest, ',');
        lemma_entry_parts(seg);
    }
    match entry_parts(seg) {
        None => Outcome::Done(Err(ParseError::InvalidObjectEntry)),
        Some((k, v)) => match parse_trimmed(v, numbers) {
            Outcome::Done(Ok(val)) => {
                let acc2 = put(acc, k, val);
                if c < rest.len() {
                    entries_spec(rest.subrange(c + 1, rest.len() as int), acc2, numbers)
                } else {
                    Outcome::Done(Ok(Json::Object(acc2)))
                }
            },
            other => other,
        },
    }
}

/// Parses a text: white space at either end is dropped; then a leading `"`
/// makes a quoted text, a leading `{` an object, `true`, `false` and `null`
/// themselves, and anything else a number literal.
pub open spec fn parse_spec(s: Seq<char>, numbers: Seq<(String, Option<String>)>) -> Outcome {
    parse_trimmed(trimmed(s, false), numbers)
}

pub open spec fn reading_view(r: Option<Option<String>>) -> Option<Option<Seq<char>>> {
    match r {
        None => None,
        Some(None) => Some(None),
        Some(Some(n)) => Some(Some(n@)),
    }
}

/// Whether the window `cs[a..b]` holds exactly `w`.
fn window_is(cs: &Vec<char>, a: usize, b: usize, w: &Vec<char>) -> (r: bool)
    requires
        a <= b <= cs@.len(),
    ensures
        r == (cs@.subrange(a as int, b as int) == w@),
{
    if b - a != w.len() {
        return false;
    }
    let mut i: usize = 0;
    while i < w.len()
        invariant
            b - a == w.len(),
            a <= b <= cs@.len(),
            i <= w.len(),
            forall|j: int| 0 <= j < i ==> cs@[a + j] == w@[j],
        decreases w.len() - i,
    {
        if cs[a + i] != w[i] {
            assert(cs@.subrange(a as int, b as int)[i as int] != w@[i as int]);
            return false;
        }
        i += 1;
    }
    assert(cs@.subrange(a as int, b as int) =~= w@);
    true
}

/// Looks `lit` up in the number readings.
fn lookup_number(numbers: &Vec<(String, Option<String>)>, lit: &String) -> (r: Option<Option<String>>)
    ensures
        reading_view(r) == reading(numbers@, lit@),
{
    let n = numbers.len();
    let mut i: usize = 0;
    assert(numbers@.subrange(0, n as int) =~= numbers@);
    while i < n
        invariant
            n == numbers@.len(),
            i <= n,
            reading(numbers@, lit@) == reading(numbers@.subrange(i as int, n as int), lit@),
        decreases n - i,
    {
        let ghost tail = numbers@.subrange(i as int, n as int);
        assert(tail.drop_first() =~= numbers@.subrange(i + 1, n as int));
        assert(tail[0] == numbers@[i as int]);
        if numbers[i].0 == *lit {
            return match &numbers[i].1 {
                Some(s) => Some(Some(s.clone())),
                None => Some(None),
            };
        }
        i += 1;
    }
    None
}

impl JsonValue {
    fn parse_string(src: &str, cs: &Vec<char>, a: usize, b: usize) -> (r: Result<JsonValue, ParseError>)
        requires
            cs@ == src@,
            a <= b <= cs@.len(),
        ensures
            result_view(r) == string_spec(cs@.subrange(a as int, b as int)),
    {
        if b - a >= 2 && cs[a] == '"' && cs[b - 1] == '"' {
            let s = String::from_str(src.substring_char(a + 1, b - 1));
            assert(cs@.subrange(a + 1, b - 1) =~= cs@.subrange(a as int, b as int).subrange(
                1,
                b - a - 1,
            ));
            Ok(JsonValue::String(s))
        } else {
            Err(ParseError::InvalidStringFormat)
        }
    }

    fn parse_boolean(cs: &Vec<char>, a: usize, b: usize) -> (r: Result<JsonValue, ParseError>)
        requires
            a <= b <= cs@.len(),
        ensures
            result_view(r) == boolean_spec(cs@.subrange(a as int, b as int)),
    {
        if window_is(cs, a, b, &vec!['t', 'r', 'u', 'e']) {
            Ok(JsonValue::Boolean(true))
        } else if window_is(cs, a, b, &vec!['f', 'a', 'l', 's', 'e']) {
            Ok(JsonValue::Boolean(false))
        } else {
            Err(ParseError::InvalidBooleanFormat)
        }
    }

    fn parse_number(
        src: &str,
        cs: &Vec<char>,
        a: usize,
        b: usize,
        numbers: &Vec<(String, Option<String>)>,
    ) -> (r: ParseStep)
        requires
            cs@ == src@,
            a <= b <= cs@.len(),
        ensures
            r@ == number_spec(cs@.subrange(a as int, b as int), numbers@),
    {
        let lit = String::from_str(src.substring_char(a, b));
        match lookup_number(numbers, &lit) {
            None => ParseStep::NeedsNumber(lit),
            Some(None) => ParseStep::Done(Err(ParseError::InvalidNumberFormat)),
            Some(Some(n)) => ParseStep::Done(Ok(JsonValue::Number(n))),
        }
    }

    fn parse_trimmed(
        src: &str,
        cs: &Vec<char>,
        a: usize,
        b: usize,
        numbers: &Vec<(String, Option<String>)>,
    ) -> (r: ParseStep)
        requires
            cs@ == src@,
            a <= b <= cs@.len(),
        ensures
            r@ == parse_trimmed(cs@.subrange(a as int, b as int), numbers@),
        decreases b - a,
    {
        let ghost t = cs@.subrange(a as int, b as int);
        if a == b {
            return ParseStep::Done(Err(ParseError::EmptyInput));
        }
        assert(t[0] == cs@[a as int]);
        if cs[a] == '"' {
            ParseStep::Done(JsonValue::parse_string(src, cs, a, b))
        } else if cs[a] == '{' {
            if b - a < 2 {
                ParseStep::Done(Err(ParseError::InvalidObjectEntry))
            } else {
                assert(t.subrange(1, t.len() - 1) =~= cs@.subrange(a + 1, b - 1));
                JsonValue::parse_object(src, cs, a + 1, b - 1, numbers)
            }
        } else if window_is(cs, a, b, &vec!['t', 'r', 'u', 'e']) || window_is(
            cs,
            a,
            b,
            &vec!['f', 'a', 'l', 's', 'e'],
        ) {
            ParseStep::Done(JsonValue::parse_boolean(cs, a, b))
        } else if window_is(cs, a, b, &vec!['n', 'u', 'l', 'l']) {
            ParseStep::Done(Ok(JsonValue::Null))
        } else {
            JsonValue::parse_number(src, cs, a, b, numbers)
        }
    }

    fn parse_object(
        src: &str,
        cs: &Vec<char>,
        lo: usize,
        hi: usize,
        numbers: &Vec<(String, Option<String>)>,
    ) -> (r: ParseStep)
        requires
            cs@ == src@,
            lo <= hi <= cs@.len(),
        ensures
            r@ == object_spec(cs@.subrange(lo as int, hi as int), numbers@),
        decreases hi - lo,
    {
        let mut map = JsonMap::new();
        if lo == hi {
            return ParseStep::Done(Ok(JsonValue::Object(map)));
        }
        let mut pos = lo;
        loop
            invariant
                cs@ == src@,
                lo <= pos <= hi <= cs@.len(),
                lo < hi,
                entries_spec(cs@.subrange(lo as int, hi as int), Seq::empty(), numbers@)
                    == entries_spec(cs@.subrange(pos as int, hi as int), map@, numbers@),
            decreases hi - pos,
        {
            let ghost rest = cs@.subrange(pos as int, hi as int);
            let c = find_in_window(cs, pos, hi, ',');
            let send = pos + c;
            let ghost seg = rest.subrange(0, c as int);
            assert(seg =~= cs@.subrange(pos as int, send as int));
            let c2 = find_in_window(cs, pos, send, ':');
            if c2 == c {
                return ParseStep::Done(Err(ParseError::InvalidObjectEntry));
            }
            let (ka, kb) = trim_window(cs, pos, pos + c2, false);
            let (va, vb) = trim_window(cs, pos + c2 + 1, send, false);
            assert(seg.subrange(0, c2 as int) =~= cs@.subrange(pos as int, pos + c2));
            assert(seg.subrange(c2 + 1, seg.len() as int) =~= cs@.subrange(
                pos + c2 + 1,
                send as int,
            ));
            if ka == kb || va == vb {
                return ParseStep::Done(Err(ParseError::InvalidObjectEntry));
            }
            let (qa, qb) = trim_window(cs, ka, kb, true);
            let key = String::from_str(src.substring_char(qa, qb));
            let sub = JsonValue::parse_trimmed(src, cs, va, vb, numbers);
            match sub {
                ParseStep::Done(Ok(v)) => {
                    map.insert(key, v);
                },
                other => {
                    return other;
                },
            }
            if send < hi {
                assert(rest.subrange(c + 1, rest.len() as int) =~= cs@.subrange(
                    send + 1,
                    hi as int,
                ));
                pos = send + 1;
            } else {
                return ParseStep::Done(Ok(JsonValue::Object(map)));
            }
        }
    }

    /// Parses `input`, with `numbers` listing the number literals read so far.
    pub fn parse(input: &str, numbers: &Vec<(String, Option<String>)>) -> (r: ParseStep)
        ensures
            r@ == parse_spec(input@, numbers@),
    {
        let cs = chars_of(input);
        let (a, b) = trim_window(&cs, 0, cs.len(), false);
        assert(cs@.subrange(0, cs@.len() as int) =~= cs@);
        JsonValue::parse_trimmed(input, &cs, a, b, numbers)
    }
}

/// A text in quotes parses to the text between them, whatever it holds.
pub proof fn lemma_quoted_text_parses(s: Seq<char>, numbers: Seq<(String, Option<String>)>)
    ensures
        parse_spec(seq!['"'] + s + seq!['"'], numbers) == Outcome::Done(Ok(Json::Text(s))),
{
    let w = seq!['"'] + s + seq!['"'];
    assert(w[0] == '"');
    assert(w[w.len() - 1] == '"');
    lemma_trim_bounds(w, false, 0, w.len() as int);
    assert(w.subrange(0, w.len() as int) =~= w);
    assert(w.subrange(1, w.len() - 1) =~= s);
}

/// A number literal that the readings list as a number parses to the
/// rendering listed for it; in particular a rendering that reads back as
/// itself parses to itself.
pub proof fn lemma_listed_number_parses(
    lit: Seq<char>,
    n: Seq<char>,
    numbers: Seq<(String, Option<String>)>,
)
    requires
        trimmed(lit, false) == lit,
        lit.len() > 0,
        lit[0] != '"',
        lit[0] != '{',
        lit != word_true(),
        lit != word_false(),
        lit != word_null(),
        reading(numbers, lit) == Some(Some(n)),
    ensures
        parse_spec(lit, numbers) == Outcome::Done(Ok(Json::Number(n))),
{
}

/// A parse only asks for a literal that the readings do not list, so a
/// caller that adds each literal asked for makes progress.
pub proof fn lemma_needed_literal_is_unread(s: Seq<char>, numbers: Seq<(String, Option<String>)>)
    ensures
        parse_spec(s, numbers) matches Outcome::NeedsNumber(l) ==> reading(numbers, l) is None,
{
    lemma_trimmed_needs_unread(trimmed(s, false), numbers);
}

proof fn lemma_trimmed_needs_unread(t: Seq<char>, numbers: Seq<(String, Option<String>)>)
    ensures
        parse_trimmed(t, numbers) matches Outcome::NeedsNumber(l) ==> reading(numbers, l) is None,
    decreases t.len(), 2int,
{
    if t.len() > 2 && t[0] == '{' {
        lemma_entries_needs_unread(t.subrange(1, t.len() - 1), Seq::empty(), numbers);
    }
}

proof fn lemma_entries_needs_unread(
    rest: Seq<char>,
    acc: Seq<(Seq<char>, Json)>,
    numbers: Seq<(String, Option<String>)>,
)
    ensures
        entries_spec(rest, acc, numbers) matches Outcome::NeedsNumber(l) ==> reading(
            numbers,
            l,
        ) is None,
    decreases rest.len(), 0int,
{
    let c = find(rest, ',');
    let seg = rest.subrange(0, c);
    lemma_find(rest, ',');
    lemma_entry_parts(seg);
    if let Some((k, v)) = entry_parts(seg) {
        lemma_trimmed_needs_unread(v, numbers);
        if let Outcome::Done(Ok(val)) = parse_trimmed(v, numbers) {
            if c < rest.len() {
                lemma_entries_needs_unread(
                    rest.subrange(c + 1, rest.len() as int),
                    put(acc, k, val),
                    numbers,
                );
            }
        }
    }
}

} // verus!
