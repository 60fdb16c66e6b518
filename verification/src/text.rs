//! Verified text normalization: whitespace collapsing, trimming, and
//! punctuation spacing, each stated by a spec function and implemented by a
//! verified executable function over `Vec<char>` / `String`.

use vstd::prelude::*;

verus! {

/// The whitespace characters recognized by all normalization in this crate.
pub open spec fn is_ws(c: char) -> bool {
    c == ' ' || c == '\t' || c == '\n' || c == '\r' || c == '\u{b}' || c == '\u{c}'
}

/// Executable mirror of [`is_ws`].
pub fn is_ws_char(c: char) -> (b: bool)
    ensures
        b == is_ws(c),
{
    c == ' ' || c == '\t' || c == '\n' || c == '\r' || c == '\u{b}' || c == '\u{c}'
}

/// Appends one character to a string.
/// Relies on `String::push`: appends the given char to the end of the string.
#[verifier::external_body]
pub fn push_char(s: &mut String, c: char)
    ensures
        final(s)@ == old(s)@.push(c),
{
    s.push(c)
}

/// The characters of a string, in order, as a vector.
pub fn str_chars(s: &str) -> (r: Vec<char>)
    ensures
        r@ == s@,
{
    let n = s.unicode_len();
    let mut r: Vec<char> = Vec::new();
    let mut i: usize = 0;
    while i < n
        invariant
            i <= n,
            n == s@.len(),
            r@ == s@.subrange(0, i as int),
        decreases n - i,
    {
        r.push(s.get_char(i));
        i = i + 1;
    }
    assert(r@ == s@.subrange(0, n as int));
    assert(s@.subrange(0, n as int) == s@);
    r
}

/// A string holding the given characters, in order.
pub fn chars_to_string(v: &Vec<char>) -> (r: String)
    ensures
        r@ == v@,
{
    let mut r = String::new();
    let mut i: usize = 0;
    while i < v.len()
        invariant
            i <= v@.len(),
            r@ == v@.subrange(0, i as int),
        decreases v@.len() - i,
    {
        push_char(&mut r, v[i]);
        i = i + 1;
    }
    assert(r@ == v@.subrange(0, v@.len() as int));
    assert(v@.subrange(0, v@.len() as int) == v@);
    r
}

/// Whitespace collapsing, character by character from the left: `prev_ws`
/// says whether the previous character belonged to a whitespace run.
pub open spec fn collapse_from(s: Seq<char>, prev_ws: bool) -> Seq<char>
    decreases s.len(),
{
    if s.len() == 0 {
        Seq::empty()
    } else if is_ws(s[0]) {
        if prev_ws {
            collapse_from(s.drop_first(), true)
        } else {
            seq![' '] + collapse_from(s.drop_first(), true)
        }
    } else {
        seq![s[0]] + collapse_from(s.drop_first(), false)
    }
}

/// Every run of whitespace replaced by a single space; other characters kept.
pub open spec fn collapse_ws(s: Seq<char>) -> Seq<char> {
    collapse_from(s, false)
}

/// Collapses every whitespace run in `s` to a single space.
pub fn collapse_ws_str(s: &str) -> (r: String)
    ensures
        r@ == collapse_ws(s@),
{
    let v = str_chars(s);
    let mut out: Vec<char> = Vec::new();
    let mut prev_ws = false;
    let mut i: usize = 0;
    proof {
        assert(s@.skip(0) =~= s@);
        assert(Seq::<char>::empty() + collapse_from(s@, false) =~= collapse_from(s@, false));
    }
    while i < v.len()
        invariant
            i <= v@.len(),
            v@ == s@,
            collapse_ws(s@) == out@ + collapse_from(s@.skip(i as int), prev_ws),
        decreases v@.len() - i,
    {
        let c = v[i];
        proof {
            assert(s@.skip(i as int)[0] == s@[i as int]);
            assert(s@.skip(i as int).drop_first() =~= s@.skip(i as int + 1));
        }
        if is_ws_char(c) {
            if !prev_ws {
                out.push(' ');
            }
            prev_ws = true;
        } else {
            out.push(c);
            prev_ws = false;
        }
        i = i + 1;
    }
    proof {
        assert(s@.skip(v@.len() as int) =~= Seq::<char>::empty());
        assert(out@ + Seq::<char>::empty() =~= out@);
    }
    chars_to_string(&out)
}

/// The longest prefix of `s` that is all whitespace has this length.
pub open spec fn leading_ws(s: Seq<char>) -> int
    decreases s.len(),
{
    if s.len() == 0 || !is_ws(s[0]) {
        0
    } else {
        1 + leading_ws(s.drop_first())
    }
}

/// The longest suffix of `s` that is all whitespace has this length.
pub open spec fn trailing_ws(s: Seq<char>) -> int
    decreases s.len(),
{
    if s.len() == 0 || !is_ws(s.last()) {
        0
    } else {
        1 + trailing_ws(s.drop_last())
    }
}

/// `s` without leading and trailing whitespace.
pub open spec fn trim(s: Seq<char>) -> Seq<char> {
    if leading_ws(s) == s.len() {
        Seq::empty()
    } else {
        s.subrange(leading_ws(s), s.len() - trailing_ws(s))
    }
}

/// Removes leading and trailing whitespace from the characters of `v`.
pub fn trim_chars(v: &Vec<char>) -> (r: Vec<char>)
    ensures
        r@ == trim(v@),
{
    let n = v.len();
    let mut a: usize = 0;
    while a < n && is_ws_char(v[a])
        invariant
            a <= n,
            n == v@.len(),
            forall|k: int| 0 <= k < a ==> is_ws(v@[k]),
        decreases n - a,
    {
        a = a + 1;
    }
    if a == n {
        proof {
            lemma_leading_ws_prefix_all(v@);
            assert(trim(v@) =~= Seq::<char>::empty());
        }
        let r: Vec<char> = Vec::new();
        return r;
    }
    let mut b: usize = n;
    while b > a && is_ws_char(v[b - 1])
        invariant
            a <= b <= n,
            n == v@.len(),
            a < n,
            !is_ws(v@[a as int]),
            forall|k: int| 0 <= k < a ==> is_ws(v@[k]),
            forall|k: int| b <= k < n ==> is_ws(v@[k]),
        decreases b,
    {
        b = b - 1;
    }
    proof {
        lemma_ws_bounds_pin(v@, a as int, b as int);
    }
    let mut r: Vec<char> = Vec::new();
    let mut i: usize = a;
    while i < b
        invariant
            a <= i <= b <= n,
            n == v@.len(),
            r@ == v@.subrange(a as int, i as int),
        decreases b - i,
    {
        r.push(v[i]);
        i = i + 1;
    }
    r
}

proof fn lemma_leading_ws_prefix_all(s: Seq<char>)
    requires
        forall|k: int| 0 <= k < s.len() ==> is_ws(s[k]),
    ensures
        leading_ws(s) == s.len(),
    decreases s.len(),
{
    if s.len() > 0 {
        assert forall|k: int| 0 <= k < s.drop_first().len() implies is_ws(s.drop_first()[k]) by {
            assert(s.drop_first()[k] == s[k + 1]);
        }
        lemma_leading_ws_prefix_all(s.drop_first());
    }
}

proof fn lemma_leading_ws_exact(s: Seq<char>, a: int)
    requires
        0 <= a < s.len(),
        forall|k: int| 0 <= k < a ==> is_ws(s[k]),
        !is_ws(s[a]),
    ensures
        leading_ws(s) == a,
    decreases s.len(),
{
    if a == 0 {
    } else {
        assert(is_ws(s[0]));
        assert forall|k: int| 0 <= k < a - 1 implies is_ws(s.drop_first()[k]) by {
            assert(s.drop_first()[k] == s[k + 1]);
        }
        assert(s.drop_first()[a - 1] == s[a]);
        lemma_leading_ws_exact(s.drop_first(), a - 1);
    }
}

proof fn lemma_trailing_ws_exact(s: Seq<char>, b: int)
    requires
        0 < b <= s.len(),
        forall|k: int| b <= k < s.len() ==> is_ws(s[k]),
        !is_ws(s[b - 1]),
    ensures
        trailing_ws(s) == s.len() - b,
    decreases s.len(),
{
    if b == s.len() {
    } else {
        assert(is_ws(s.last()));
        assert forall|k: int| b <= k < s.drop_last().len() implies is_ws(s.drop_last()[k]) by {
            assert(s.drop_last()[k] == s[k]);
        }
        assert(s.drop_last()[b - 1] == s[b - 1]);
        lemma_trailing_ws_exact(s.drop_last(), b);
    }
}

proof fn lemma_ws_bounds_pin(s: Seq<char>, a: int, b: int)
    requires
        0 <= a < s.len(),
        a < b <= s.len(),
        forall|k: int| 0 <= k < a ==> is_ws(s[k]),
        forall|k: int| b <= k < s.len() ==> is_ws(s[k]),
        !is_ws(s[a]),
        !is_ws(s[b - 1]),
    ensures
        trim(s) == s.subrange(a, b),
{
    lemma_leading_ws_exact(s, a);
    lemma_trailing_ws_exact(s, b);
}

/// The punctuation characters after which a space is guaranteed.
pub open spec fn is_punct(c: char) -> bool {
    c == ',' || c == '.' || c == ':'
}

/// Executable mirror of [`is_punct`].
pub fn is_punct_char(c: char) -> (b: bool)
    ensures
        b == is_punct(c),
{
    c == ',' || c == '.' || c == ':'
}

/// Punctuation spacing: after each `,`, `.` or `:` that is not already
/// followed by whitespace, a single space is inserted; everything else is
/// kept as it is.
pub open spec fn punct_spaced(s: Seq<char>) -> Seq<char>
    decreases s.len(),
{
    if s.len() == 0 {
        Seq::empty()
    } else if is_punct(s[0]) && (s.len() == 1 || !is_ws(s[1])) {
        seq![s[0], ' '] + punct_spaced(s.drop_first())
    } else {
        seq![s[0]] + punct_spaced(s.drop_first())
    }
}

proof fn lemma_punct_spaced_head(s: Seq<char>)
    requires
        s.len() > 0,
    ensures
        punct_spaced(s).len() > 0,
        punct_spaced(s)[0] == s[0],
{
}

/// Punctuation spacing never has to be applied twice: a second application
/// returns its input unchanged, because after the first one every `,`, `.`
/// and `:` is already followed by whitespace.
pub proof fn lemma_punct_spaced_idempotent(s: Seq<char>)
    ensures
        punct_spaced(punct_spaced(s)) == punct_spaced(s),
    decreases s.len(),
{
    if s.len() == 0 {
    } else {
        let rest = s.drop_first();
        lemma_punct_spaced_idempotent(rest);
        let p = punct_spaced(rest);
        if is_punct(s[0]) && (s.len() == 1 || !is_ws(s[1])) {
            let w = seq![s[0], ' '] + p;
            assert(punct_spaced(s) == w);
            assert(w[0] == s[0] && w[1] == ' ');
            assert(w.drop_first() =~= seq![' '] + p);
            assert(punct_spaced(w) == seq![w[0]] + punct_spaced(w.drop_first()));
            let u = seq![' '] + p;
            assert(u.drop_first() =~= p);
            assert(punct_spaced(u) == seq![' '] + punct_spaced(p));
            assert(punct_spaced(w) =~= punct_spaced(s));
        } else {
            let w = seq![s[0]] + p;
            assert(punct_spaced(s) == w);
            assert(w.drop_first() =~= p);
            if is_punct(w[0]) && (w.len() > 1 && is_ws(w[1])) {
                assert(punct_spaced(w) == seq![w[0]] + punct_spaced(p));
            } else {
                assert(w[0] == s[0]);
                if w.len() > 1 {
                    assert(w[1] == p[0]);
                    if rest.len() > 0 {
                        lemma_punct_spaced_head(rest);
                        assert(p[0] == rest[0] && rest[0] == s[1]);
                    }
                }
                assert(punct_spaced(w) == seq![w[0]] + punct_spaced(p));
            }
            assert(punct_spaced(w) =~= punct_spaced(s));
        }
    }
}

/// Inserts a single space after each `,`, `.` or `:` not already followed by
/// whitespace.
pub fn punct_space_chars(v: &Vec<char>) -> (r: Vec<char>)
    ensures
        r@ == punct_spaced(v@),
{
    let mut out: Vec<char> = Vec::new();
    let mut i: usize = 0;
    proof {
        assert(v@.skip(0) =~= v@);
        assert(Seq::<char>::empty() + punct_spaced(v@) =~= punct_spaced(v@));
    }
    while i < v.len()
        invariant
            i <= v@.len(),
            punct_spaced(v@) == out@ + punct_spaced(v@.skip(i as int)),
        decreases v@.len() - i,
    {
        let c = v[i];
        proof {
            assert(v@.skip(i as int)[0] == v@[i as int]);
            assert(v@.skip(i as int).drop_first() =~= v@.skip(i as int + 1));
            if i + 1 < v@.len() {
                assert(v@.skip(i as int)[1] == v@[i as int + 1]);
            }
        }
        out.push(c);
        if is_punct_char(c) && (i + 1 == v.len() || !is_ws_char(v[i + 1])) {
            out.push(' ');
        }
        i = i + 1;
    }
    proof {
        assert(v@.skip(v@.len() as int) =~= Seq::<char>::empty());
        assert(out@ + Seq::<char>::empty() =~= out@);
    }
    out
}

/// Whether two strings hold the same characters.
pub fn str_eq(a: &str, b: &str) -> (r: bool)
    ensures
        r == (a@ == b@),
{
    let na = a.unicode_len();
    let nb = b.unicode_len();
    if na != nb {
        return false;
    }
    let mut i: usize = 0;
    while i < na
        invariant
            i <= na,
            na == a@.len() == b@.len(),
            forall|k: int| 0 <= k < i ==> a@[k] == b@[k],
        decreases na - i,
    {
        if a.get_char(i) != b.get_char(i) {
            return false;
        }
        i = i + 1;
    }
    proof {
        assert(a@ =~= b@);
    }
    true
}

/// The characters of `v` between `from` (inclusive) and `to` (exclusive).
pub fn subvec(v: &Vec<char>, from: usize, to: usize) -> (r: Vec<char>)
    requires
        from <= to <= v@.len(),
    ensures
        r@ == v@.subrange(from as int, to as int),
{
    let mut r: Vec<char> = Vec::new();
    let mut i: usize = from;
    while i < to
        invariant
            from <= i <= to,
            r@ == v@.subrange(from as int, i as int),
        decreases to - i,
    {
        r.push(v[i]);
        i = i + 1;
    }
    r
}

/// Removes leading and trailing whitespace.
pub fn trim_str(s: &str) -> (r: String)
    ensures
        r@ == trim(s@),
{
    let v = str_chars(s);
    let t = trim_chars(&v);
    chars_to_string(&t)
}

} // verus!
