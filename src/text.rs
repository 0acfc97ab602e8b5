use vstd::prelude::*;

verus! {

/// Unicode's White_Space property, the characters that `str::trim` drops.
pub open spec fn is_white_space(c: char) -> bool {
    let u = c as u32;
    (0x9 <= u && u <= 0xd) || u == 0x20 || u == 0x85 || u == 0xa0 || u == 0x1680
        || (0x2000 <= u && u <= 0x200a) || u == 0x2028 || u == 0x2029 || u == 0x202f
        || u == 0x205f || u == 0x3000
}

/// Whether trimming drops `c`: white space, or the quote character when
/// `quotes` is set.
pub open spec fn dropped(c: char, quotes: bool) -> bool {
    if quotes {
        c == '"'
    } else {
        is_white_space(c)
    }
}

/// Index of the first character of `s` that trimming keeps (`s.len()` if none).
pub open spec fn trim_start(s: Seq<char>, quotes: bool) -> int
    decreases s.len(),
{
    if s.len() == 0 || !dropped(s[0], quotes) {
        0
    } else {
        1 + trim_start(s.drop_first(), quotes)
    }
}

/// One past the last character of `s` that trimming keeps (`0` if none).
pub open spec fn trim_end(s: Seq<char>, quotes: bool) -> int
    decreases s.len(),
{
    if s.len() == 0 || !dropped(s.last(), quotes) {
        s.len() as int
    } else {
        trim_end(s.drop_last(), quotes)
    }
}

/// `s` without its leading and trailing dropped characters.
pub open spec fn trimmed(s: Seq<char>, quotes: bool) -> Seq<char> {
    if trim_start(s, quotes) < trim_end(s, quotes) {
        s.subrange(trim_start(s, quotes), trim_end(s, quotes))
    } else {
        Seq::empty()
    }
}

/// Index of the first `c` in `s`, or `s.len()` where there is none.
pub open spec fn find(s: Seq<char>, c: char) -> int
    decreases s.len(),
{
    if s.len() == 0 || s[0] == c {
        0
    } else {
        1 + find(s.drop_first(), c)
    }
}

/// `find` is the first index of `c`, or `s.len()`.
pub proof fn lemma_find(s: Seq<char>, c: char)
    ensures
        0 <= find(s, c) <= s.len(),
        find(s, c) < s.len() ==> s[find(s, c)] == c,
        forall|j: int| 0 <= j < find(s, c) ==> #[trigger] s[j] != c,
    decreases s.len(),
{
    if s.len() > 0 && s[0] != c {
        lemma_find(s.drop_first(), c);
        assert forall|j: int| 0 <= j < find(s, c) implies #[trigger] s[j] != c by {
            if j > 0 {
                assert(s[j] == s.drop_first()[j - 1]);
            }
        }
    }
}

/// The first kept character is at `trim_start`.
pub proof fn lemma_trim_start(s: Seq<char>, quotes: bool)
    ensures
        0 <= trim_start(s, quotes) <= s.len(),
        trim_start(s, quotes) < s.len() ==> !dropped(s[trim_start(s, quotes)], quotes),
        forall|j: int| 0 <= j < trim_start(s, quotes) ==> dropped(#[trigger] s[j], quotes),
    decreases s.len(),
{
    if s.len() > 0 && dropped(s[0], quotes) {
        lemma_trim_start(s.drop_first(), quotes);
        assert forall|j: int| 0 <= j < trim_start(s, quotes) implies dropped(#[trigger] s[j], quotes) by {
            if j > 0 {
                assert(s[j] == s.drop_first()[j - 1]);
            }
        }
    }
}

/// The last kept character is just before `trim_end`.
pub proof fn lemma_trim_end(s: Seq<char>, quotes: bool)
    ensures
        0 <= trim_end(s, quotes) <= s.len(),
        trim_end(s, quotes) > 0 ==> !dropped(s[trim_end(s, quotes) - 1], quotes),
        forall|j: int| trim_end(s, quotes) <= j < s.len() ==> dropped(#[trigger] s[j], quotes),
    decreases s.len(),
{
    if s.len() > 0 && dropped(s.last(), quotes) {
        lemma_trim_end(s.drop_last(), quotes);
        assert forall|j: int| trim_end(s, quotes) <= j < s.len() implies dropped(#[trigger] s[j], quotes) by {
            if j < s.len() - 1 {
                assert(s[j] == s.drop_last()[j]);
            }
        }
    }
}

/// Trimming keeps a part of `s`, never more.
pub proof fn lemma_trimmed_len(s: Seq<char>, quotes: bool)
    ensures
        trimmed(s, quotes).len() <= s.len(),
{
    lemma_trim_start(s, quotes);
    lemma_trim_end(s, quotes);
}

/// Lexicographic order of character sequences, by code point.
pub open spec fn key_lt(a: Seq<char>, b: Seq<char>) -> bool
    decreases a.len(),
{
    if a.len() == 0 {
        b.len() > 0
    } else if b.len() == 0 {
        false
    } else if a[0] != b[0] {
        a[0] < b[0]
    } else {
        key_lt(a.drop_first(), b.drop_first())
    }
}

pub proof fn lemma_key_lt_irreflexive(a: Seq<char>)
    ensures
        !key_lt(a, a),
    decreases a.len(),
{
    if a.len() > 0 {
        lemma_key_lt_irreflexive(a.drop_first());
    }
}

pub proof fn lemma_key_lt_total(a: Seq<char>, b: Seq<char>)
    ensures
        a == b || key_lt(a, b) || key_lt(b, a),
    decreases a.len(),
{
    if a.len() > 0 && b.len() > 0 && a[0] == b[0] {
        lemma_key_lt_total(a.drop_first(), b.drop_first());
        if a.drop_first() == b.drop_first() {
            assert(a == seq![a[0]] + a.drop_first());
            assert(b == seq![b[0]] + b.drop_first());
        }
    } else if a.len() > 0 && b.len() > 0 {
    } else if a.len() == 0 && b.len() == 0 {
        assert(a =~= b);
    }
}

pub proof fn lemma_key_lt_transitive(a: Seq<char>, b: Seq<char>, c: Seq<char>)
    requires
        key_lt(a, b),
        key_lt(b, c),
    ensures
        key_lt(a, c),
    decreases a.len(),
{
    if a.len() > 0 && b.len() > 0 && c.len() > 0 && a[0] == b[0] && b[0] == c[0] {
        lemma_key_lt_transitive(a.drop_first(), b.drop_first(), c.drop_first());
    }
}

pub proof fn lemma_key_lt_asymmetric(a: Seq<char>, b: Seq<char>)
    requires
        key_lt(a, b),
    ensures
        !key_lt(b, a),
{
    if key_lt(b, a) {
        lemma_key_lt_transitive(a, b, a);
        lemma_key_lt_irreflexive(a);
    }
}

/// Trimming stops at the first and the last kept characters.
pub proof fn lemma_trim_bounds(w: Seq<char>, quotes: bool, s: int, e: int)
    requires
        0 <= s < e <= w.len(),
        !dropped(w[s], quotes),
        !dropped(w[e - 1], quotes),
        forall|j: int| 0 <= j < s ==> dropped(#[trigger] w[j], quotes),
        forall|j: int| e <= j < w.len() ==> dropped(#[trigger] w[j], quotes),
    ensures
        trim_start(w, quotes) == s,
        trim_end(w, quotes) == e,
{
    lemma_trim_start(w, quotes);
    lemma_trim_end(w, quotes);
    let s2 = trim_start(w, quotes);
    let e2 = trim_end(w, quotes);
    if s2 < s {
        assert(dropped(w[s2], quotes));
    }
    if s < s2 {
        assert(dropped(w[s], quotes));
    }
    if e2 < e {
        assert(dropped(w[e - 1], quotes));
    }
    if e < e2 {
        assert(dropped(w[e2 - 1], quotes));
    }
}

proof fn lemma_trim_all_dropped(w: Seq<char>, quotes: bool)
    requires
        forall|j: int| 0 <= j < w.len() ==> dropped(#[trigger] w[j], quotes),
    ensures
        trimmed(w, quotes) == Seq::<char>::empty(),
{
    lemma_trim_start(w, quotes);
    lemma_trim_end(w, quotes);
    if trim_start(w, quotes) < w.len() {
        assert(dropped(w[trim_start(w, quotes)], quotes));
    }
}

/// Checks White_Space membership.
pub fn is_white_space_char(c: char) -> (r: bool)
    ensures
        r == is_white_space(c),
{
    let u = c as u32;
    (0x9 <= u && u <= 0xd) || u == 0x20 || u == 0x85 || u == 0xa0 || u == 0x1680 || (0x2000
        <= u && u <= 0x200a) || u == 0x2028 || u == 0x2029 || u == 0x202f || u == 0x205f || u
        == 0x3000
}

fn is_dropped(c: char, quotes: bool) -> (r: bool)
    ensures
        r == dropped(c, quotes),
{
    if quotes {
        c == '"'
    } else {
        is_white_space_char(c)
    }
}

/// The characters of `s`, one per element.
pub fn chars_of(s: &str) -> (r: Vec<char>)
    ensures
        r@ == s@,
{
    let n = s.unicode_len();
    let mut out: Vec<char> = Vec::new();
    let mut i: usize = 0;
    while i < n
        invariant
            n == s@.len(),
            i <= n,
            out@ == s@.subrange(0, i as int),
        decreases n - i,
    {
        out.push(s.get_char(i));
        i += 1;
    }
    assert(out@ =~= s@);
    out
}

/// Bounds `(a, b)` of the trimmed part of the window `cs[lo..hi]`.
pub fn trim_window(cs: &Vec<char>, lo: usize, hi: usize, quotes: bool) -> (r: (usize, usize))
    requires
        lo <= hi <= cs@.len(),
    ensures
        lo <= r.0 <= r.1 <= hi,
        cs@.subrange(r.0 as int, r.1 as int) == trimmed(cs@.subrange(lo as int, hi as int), quotes),
{
    let ghost w = cs@.subrange(lo as int, hi as int);
    let mut a = lo;
    while a < hi && is_dropped(cs[a], quotes)
        invariant
            lo <= a <= hi <= cs@.len(),
            w == cs@.subrange(lo as int, hi as int),
            forall|j: int| 0 <= j < a - lo ==> dropped(#[trigger] w[j], quotes),
        decreases hi - a,
    {
        a += 1;
    }
    if a == hi {
        proof {
            lemma_trim_all_dropped(w, quotes);
        }
        return (lo, lo);
    }
    let mut b = hi;
    while is_dropped(cs[b - 1], quotes)
        invariant
            lo <= a < hi <= cs@.len(),
            a < b <= hi,
            !dropped(cs@[a as int], quotes),
            w == cs@.subrange(lo as int, hi as int),
            forall|j: int| b - lo <= j < w.len() ==> dropped(#[trigger] w[j], quotes),
        decreases b - a,
    {
        b -= 1;
    }
    proof {
        let s = (a - lo) as int;
        let e = (b - lo) as int;
        lemma_trim_bounds(w, quotes, s, e);
        assert(cs@.subrange(a as int, b as int) =~= w.subrange(s, e));
    }
    (a, b)
}

/// Index of the first `c` in the window `cs[lo..hi]`, counted from `lo`
/// (`hi - lo` where there is none).
pub fn find_in_window(cs: &Vec<char>, lo: usize, hi: usize, c: char) -> (r: usize)
    requires
        lo <= hi <= cs@.len(),
    ensures
        r == find(cs@.subrange(lo as int, hi as int), c),
        r <= hi - lo,
{
    let ghost w = cs@.subrange(lo as int, hi as int);
    let mut i = lo;
    while i < hi && cs[i] != c
        invariant
            lo <= i <= hi <= cs@.len(),
            w == cs@.subrange(lo as int, hi as int),
            forall|j: int| 0 <= j < i - lo ==> #[trigger] w[j] != c,
        decreases hi - i,
    {
        i += 1;
    }
    proof {
        lemma_find(w, c);
        let k = (i - lo) as int;
        let f = find(w, c);
        if f < k {
            assert(w[f] != c);
        }
        if k < f {
            assert(w[k] == c);
        }
    }
    i - lo
}

/// Compares two sequences of characters by `key_lt`.
pub fn chars_lt(a: &Vec<char>, b: &Vec<char>) -> (r: bool)
    ensures
        r == key_lt(a@, b@),
{
    let mut i: usize = 0;
    assert(a@.subrange(0, a@.len() as int) =~= a@);
    assert(b@.subrange(0, b@.len() as int) =~= b@);
    while i < a.len() && i < b.len() && a[i] == b[i]
        invariant
            i <= a.len(),
            i <= b.len(),
            forall|j: int| 0 <= j < i ==> a@[j] == b@[j],
            key_lt(a@, b@) == key_lt(a@.subrange(i as int, a@.len() as int), b@.subrange(i as int, b@.len() as int)),
        decreases a.len() - i,
    {
        proof {
            let sa = a@.subrange(i as int, a@.len() as int);
            let sb = b@.subrange(i as int, b@.len() as int);
            assert(sa.drop_first() =~= a@.subrange(i + 1, a@.len() as int));
            assert(sb.drop_first() =~= b@.subrange(i + 1, b@.len() as int));
        }
        i += 1;
    }
    if i == a.len() {
        i < b.len()
    } else if i == b.len() {
        false
    } else {
        a[i] < b[i]
    }
}

} // verus!
