//! The record extractor: parses one freeform item description into a typed
//! record with a name, optional parenthetical info, and two prices.
//!
//! The description is whitespace-collapsed and then matched against the
//! canonical shape: a name of non-parenthesis characters, an optional
//! parenthetical region, and `<price> EUR - <price> EUR` where each price is
//! digits with an optional decimal comma. A description that does not match
//! yields the placeholder record. Prices are kept as decimal strings with
//! the comma already turned into a point; a price that is not a readable
//! number falls back to `0.0` silently.

use crate::text::{
    chars_to_string, collapse_ws, collapse_ws_str, is_ws, punct_space_chars, punct_spaced,
    str_chars, subvec, trim, trim_chars,
};
use vstd::prelude::*;
use vstd::string::StringExecFns;

verus! {

/// A digit or the decimal comma: the characters a price may consist of.
pub open spec fn is_price_char(c: char) -> bool {
    is_digit(c) || c == ','
}

/// A decimal digit.
pub open spec fn is_digit(c: char) -> bool {
    48 <= c as u32 && c as u32 <= 57
}

/// Executable mirror of [`is_digit`].
pub fn is_digit_char(c: char) -> (b: bool)
    ensures
        b == is_digit(c),
{
    (c as u32) >= 48 && (c as u32) <= 57
}

/// Executable mirror of [`is_price_char`].
pub fn is_price_char_char(c: char) -> (b: bool)
    ensures
        b == is_price_char(c),
{
    is_digit_char(c) || c == ','
}

/// The start of the longest run of price characters that ends right before
/// `end`.
pub open spec fn run_start(s: Seq<char>, end: int) -> int
    recommends
        0 <= end <= s.len(),
    decreases end,
{
    if end <= 0 {
        0
    } else if is_price_char(s[end - 1]) {
        run_start(s, end - 1)
    } else {
        end
    }
}

/// The first index of `(` in `s` at or after `i`; the length of `s` when
/// there is none.
pub open spec fn first_open_from(s: Seq<char>, i: int) -> int
    recommends
        0 <= i <= s.len(),
    decreases s.len() - i,
{
    if i < 0 || i >= s.len() {
        s.len() as int
    } else if s[i] == '(' {
        i
    } else {
        first_open_from(s, i + 1)
    }
}

/// The first index of `(` in `s`; the length of `s` when there is none.
pub open spec fn first_open(s: Seq<char>) -> int {
    first_open_from(s, 0)
}

/// Whether `s` holds at least one character that is not whitespace.
pub open spec fn has_non_ws(s: Seq<char>) -> bool {
    exists|i: int| 0 <= i < s.len() && !is_ws(s[i])
}

/// Whether `s` holds a `)`.
pub open spec fn has_close(s: Seq<char>) -> bool {
    exists|i: int| 0 <= i < s.len() && s[i] == ')'
}

/// Whether `s` holds a decimal digit.
pub open spec fn has_digit(s: Seq<char>) -> bool {
    exists|i: int| 0 <= i < s.len() && is_digit(s[i])
}

/// Whether `s` holds at most one comma.
pub open spec fn at_most_one_comma(s: Seq<char>) -> bool {
    forall|i: int, j: int| 0 <= i < j < s.len() ==> !(s[i] == ',' && s[j] == ',')
}

/// The three characters of the currency marker.
pub open spec fn eur() -> Seq<char> {
    seq!['E', 'U', 'R']
}

/// The regions of a description that matches the canonical shape. The name
/// and info regions are as they stand in the collapsed description,
/// untrimmed.
pub struct DescParts {
    pub name_region: Seq<char>,
    pub info_region: Seq<char>,
    pub price1: Seq<char>,
    pub price2: Seq<char>,
}

/// Splits the part of a matching description that precedes the prices into
/// the name region and the parenthetical info region.
pub open spec fn parse_body(b: Seq<char>, p1: Seq<char>, p2: Seq<char>) -> Option<DescParts> {
    let i = first_open(b);
    if i < b.len() {
        let name = b.subrange(0, i);
        if i == 0 || b[i - 1] != ' ' {
            None
        } else if has_close(name) {
            None
        } else if !has_non_ws(name) {
            None
        } else if b.last() != ')' {
            None
        } else {
            Some(
                DescParts {
                    name_region: name,
                    info_region: b.subrange(i, b.len() as int),
                    price1: p1,
                    price2: p2,
                },
            )
        }
    } else {
        if has_close(b) {
            None
        } else if !has_non_ws(b) {
            None
        } else {
            Some(DescParts { name_region: b, info_region: Seq::empty(), price1: p1, price2: p2 })
        }
    }
}

/// Matches a collapsed description against the canonical shape, from the
/// right: the currency marker, the second price, the dash, the currency
/// marker, the first price, a separating space, and the name with its
/// optional parenthetical region. Single spaces around the markers are
/// optional, as a whitespace-collapsed description has no wider gaps.
pub open spec fn parse_desc(s: Seq<char>) -> Option<DescParts> {
    let n = s.len() as int;
    if n < 3 || s.subrange(n - 3, n) != eur() {
        None
    } else {
        let j0 = n - 3;
        let j = if j0 > 0 && s[j0 - 1] == ' ' {
            j0 - 1
        } else {
            j0
        };
        let k = run_start(s, j);
        if k >= j {
            None
        } else {
            let p2 = s.subrange(k, j);
            let k1 = if k > 0 && s[k - 1] == ' ' {
                k - 1
            } else {
                k
            };
            if k1 <= 0 || s[k1 - 1] != '-' {
                None
            } else {
                let k2 = k1 - 1;
                let k3 = if k2 > 0 && s[k2 - 1] == ' ' {
                    k2 - 1
                } else {
                    k2
                };
                if k3 < 3 || s.subrange(k3 - 3, k3) != eur() {
                    None
                } else {
                    let k4 = k3 - 3;
                    let k5 = if k4 > 0 && s[k4 - 1] == ' ' {
                        k4 - 1
                    } else {
                        k4
                    };
                    let m = run_start(s, k5);
                    if m >= k5 {
                        None
                    } else {
                        let p1 = s.subrange(m, k5);
                        if m < 1 || s[m - 1] != ' ' {
                            None
                        } else {
                            parse_body(s.subrange(0, m - 1), p1, p2)
                        }
                    }
                }
            }
        }
    }
}

/// The placeholder name of a description that does not match.
pub open spec fn no_description() -> Seq<char> {
    seq!['N', 'o', ' ', 'd', 'e', 's', 'c', 'r', 'i', 'p', 't', 'i', 'o', 'n']
}

/// The fallback for a price that is not a readable number.
pub open spec fn zero_price() -> Seq<char> {
    seq!['0', '.', '0']
}

/// Whether a price region reads as a number: at least one digit, at most
/// one comma.
pub open spec fn price_readable(p: Seq<char>) -> bool {
    has_digit(p) && at_most_one_comma(p)
}

/// Every comma replaced by a decimal point.
pub open spec fn comma_to_point(p: Seq<char>) -> Seq<char> {
    Seq::new(p.len(), |i: int| if p[i] == ',' { '.' } else { p[i] })
}

/// The decimal text of a price region: its comma turned into a point, or
/// the silent fallback `0.0` when the region is not a readable number.
pub open spec fn price_value(p: Seq<char>) -> Seq<char> {
    if price_readable(p) {
        comma_to_point(p)
    } else {
        zero_price()
    }
}

/// Mathematical model of an item record.
pub struct MealModel {
    pub desc: Seq<char>,
    pub info: Seq<char>,
    pub price_student: Seq<char>,
    pub price_regular: Seq<char>,
}

/// The record extracted from one raw description: the collapsed description
/// is matched against the canonical shape; on a match the name gets its
/// punctuation spaced and trimmed, the info region is trimmed, and each
/// price becomes its decimal text; with no match the placeholder record is
/// returned.
pub open spec fn meal_of(raw: Seq<char>) -> MealModel {
    let s = collapse_ws(raw);
    match parse_desc(s) {
        Some(d) => MealModel {
            desc: trim(punct_spaced(d.name_region)),
            info: trim(d.info_region),
            price_student: price_value(d.price1),
            price_regular: price_value(d.price2),
        },
        None => MealModel {
            desc: no_description(),
            info: Seq::empty(),
            price_student: zero_price(),
            price_regular: zero_price(),
        },
    }
}

fn exec_run_start(v: &Vec<char>, end: usize) -> (r: usize)
    requires
        end <= v@.len(),
    ensures
        r as int == run_start(v@, end as int),
        r <= end,
{
    let mut k = end;
    while k > 0 && is_price_char_char(v[k - 1])
        invariant
            k <= end,
            run_start(v@, end as int) == run_start(v@, k as int),
        decreases k,
    {
        k = k - 1;
    }
    k
}

proof fn lemma_first_open_from(s: Seq<char>, j: int, i: int)
    requires
        0 <= j <= i <= s.len(),
        forall|k: int| j <= k < i ==> s[k] != '(',
        i < s.len() ==> s[i] == '(',
    ensures
        first_open_from(s, j) == i,
    decreases i - j,
{
    if j < i {
        lemma_first_open_from(s, j + 1, i);
    }
}

/// The first index of `(` among the first `bend` characters of `v`, or
/// `bend` when there is none, matching [`first_open`] of that prefix.
fn exec_first_open(v: &Vec<char>, bend: usize) -> (r: usize)
    requires
        bend <= v@.len(),
    ensures
        r as int == first_open(v@.subrange(0, bend as int)),
        r <= bend,
{
    let ghost b = v@.subrange(0, bend as int);
    let mut i: usize = 0;
    while i < bend && !(v[i] == '(')
        invariant
            i <= bend,
            forall|k: int| 0 <= k < i ==> v@[k] != '(',
        decreases bend - i,
    {
        i = i + 1;
    }
    proof {
        assert forall|k: int| 0 <= k < i implies b[k] != '(' by {
            assert(b[k] == v@[k]);
        }
        if i < bend {
            assert(b[i as int] == v@[i as int]);
        }
        lemma_first_open_from(b, 0, i as int);
    }
    i
}

fn exec_has_digit(v: &Vec<char>, from: usize, to: usize) -> (b: bool)
    requires
        from <= to <= v@.len(),
    ensures
        b == has_digit(v@.subrange(from as int, to as int)),
{
    let ghost sub = v@.subrange(from as int, to as int);
    let mut i = from;
    while i < to
        invariant
            from <= i <= to,
            forall|k: int| from <= k < i ==> !is_digit(v@[k]),
        decreases to - i,
    {
        if is_digit_char(v[i]) {
            proof {
                assert(sub[i - from] == v@[i as int]);
            }
            return true;
        }
        i = i + 1;
    }
    proof {
        assert forall|k: int| 0 <= k < sub.len() implies !is_digit(sub[k]) by {
            assert(sub[k] == v@[from + k]);
        }
    }
    false
}

fn exec_has_close(v: &Vec<char>, from: usize, to: usize) -> (b: bool)
    requires
        from <= to <= v@.len(),
    ensures
        b == has_close(v@.subrange(from as int, to as int)),
{
    let ghost sub = v@.subrange(from as int, to as int);
    let mut i = from;
    while i < to
        invariant
            from <= i <= to,
            forall|k: int| from <= k < i ==> v@[k] != ')',
        decreases to - i,
    {
        if v[i] == ')' {
            proof {
                assert(sub[i - from] == v@[i as int]);
            }
            return true;
        }
        i = i + 1;
    }
    proof {
        assert forall|k: int| 0 <= k < sub.len() implies sub[k] != ')' by {
            assert(sub[k] == v@[from + k]);
        }
    }
    false
}

fn exec_has_non_ws(v: &Vec<char>, from: usize, to: usize) -> (b: bool)
    requires
        from <= to <= v@.len(),
    ensures
        b == has_non_ws(v@.subrange(from as int, to as int)),
{
    let ghost sub = v@.subrange(from as int, to as int);
    let mut i = from;
    while i < to
        invariant
            from <= i <= to,
            forall|k: int| from <= k < i ==> is_ws(v@[k]),
        decreases to - i,
    {
        if !crate::text::is_ws_char(v[i]) {
            proof {
                assert(sub[i - from] == v@[i as int]);
            }
            return true;
        }
        i = i + 1;
    }
    proof {
        assert forall|k: int| 0 <= k < sub.len() implies is_ws(sub[k]) by {
            assert(sub[k] == v@[from + k]);
        }
    }
    false
}

fn exec_at_most_one_comma(v: &Vec<char>, from: usize, to: usize) -> (b: bool)
    requires
        from <= to <= v@.len(),
    ensures
        b == at_most_one_comma(v@.subrange(from as int, to as int)),
{
    let ghost sub = v@.subrange(from as int, to as int);
    let mut seen = false;
    let mut i = from;
    while i < to
        invariant
            from <= i <= to,
            seen <==> exists|k: int| from <= k < i && v@[k] == ',',
            forall|k1: int, k2: int|
                from <= k1 < k2 < i ==> !(v@[k1] == ',' && v@[k2] == ','),
        decreases to - i,
    {
        if v[i] == ',' {
            if seen {
                proof {
                    let k0 = choose|k: int| from <= k < i && v@[k] == ',';
                    assert(sub[k0 - from] == ',' && sub[i - from] == ',');
                    assert(!at_most_one_comma(sub));
                }
                return false;
            }
            seen = true;
        }
        i = i + 1;
    }
    proof {
        assert forall|k1: int, k2: int| 0 <= k1 < k2 < sub.len() implies !(sub[k1] == ','
            && sub[k2] == ',') by {
            assert(sub[k1] == v@[from + k1]);
            assert(sub[k2] == v@[from + k2]);
        }
    }
    true
}

/// Index bounds of the regions of a matching description.
struct Bounds {
    name_end: usize,
    info_start: usize,
    info_end: usize,
    p1_start: usize,
    p1_end: usize,
    p2_start: usize,
    p2_end: usize,
}

/// Matches the collapsed description in `v` against the canonical shape,
/// yielding the bounds of its regions exactly as [`parse_desc`] carves them.
#[verifier::rlimit(100)]
fn parse_bounds(v: &Vec<char>) -> (r: Option<Bounds>)
    ensures
        match r {
            Some(b) => {
                &&& b.info_start <= b.info_end <= v@.len()
                &&& b.name_end <= v@.len()
                &&& b.p1_start <= b.p1_end <= v@.len()
                &&& b.p2_start <= b.p2_end <= v@.len()
                &&& parse_desc(v@) == Some(
                    DescParts {
                        name_region: v@.subrange(0, b.name_end as int),
                        info_region: v@.subrange(b.info_start as int, b.info_end as int),
                        price1: v@.subrange(b.p1_start as int, b.p1_end as int),
                        price2: v@.subrange(b.p2_start as int, b.p2_end as int),
                    },
                )
            },
            None => parse_desc(v@) is None,
        },
{
    let n = v.len();
    if n < 3 || !(v[n - 3] == 'E' && v[n - 2] == 'U' && v[n - 1] == 'R') {
        proof {
            if n >= 3 {
                assert(v@.subrange(n - 3, n as int)[0] == v@[n - 3]);
                assert(v@.subrange(n - 3, n as int)[1] == v@[n - 2]);
                assert(v@.subrange(n - 3, n as int)[2] == v@[n - 1]);
            }
        }
        return None;
    }
    proof {
        assert(v@.subrange(n - 3, n as int) =~= eur());
    }
    let j0 = n - 3;
    let j = if j0 > 0 && v[j0 - 1] == ' ' {
        j0 - 1
    } else {
        j0
    };
    let k = exec_run_start(v, j);
    if k >= j {
        return None;
    }
    let k1 = if k > 0 && v[k - 1] == ' ' {
        k - 1
    } else {
        k
    };
    if k1 == 0 || !(v[k1 - 1] == '-') {
        return None;
    }
    let k2 = k1 - 1;
    let k3 = if k2 > 0 && v[k2 - 1] == ' ' {
        k2 - 1
    } else {
        k2
    };
    if k3 < 3 || !(v[k3 - 3] == 'E' && v[k3 - 2] == 'U' && v[k3 - 1] == 'R') {
        proof {
            if k3 >= 3 {
                assert(v@.subrange(k3 - 3, k3 as int)[0] == v@[k3 - 3]);
                assert(v@.subrange(k3 - 3, k3 as int)[1] == v@[k3 - 2]);
                assert(v@.subrange(k3 - 3, k3 as int)[2] == v@[k3 - 1]);
            }
        }
        return None;
    }
    proof {
        assert(v@.subrange(k3 - 3, k3 as int) =~= eur());
    }
    let k4 = k3 - 3;
    let k5 = if k4 > 0 && v[k4 - 1] == ' ' {
        k4 - 1
    } else {
        k4
    };
    let m = exec_run_start(v, k5);
    if m >= k5 {
        return None;
    }
    if m < 1 || !(v[m - 1] == ' ') {
        return None;
    }
    let bend = m - 1;
    let ghost b = v@.subrange(0, bend as int);
    let fo = exec_first_open(v, bend);
    if fo < bend {
        proof {
            assert(b.subrange(0, fo as int) =~= v@.subrange(0, fo as int));
            assert(b.subrange(fo as int, b.len() as int) =~= v@.subrange(
                fo as int,
                bend as int,
            ));
            assert(b.last() == v@[bend - 1]);
        }
        if fo == 0 || !(v[fo - 1] == ' ') {
            proof {
                if fo > 0 {
                    assert(b[fo - 1] == v@[fo - 1]);
                }
            }
            return None;
        }
        proof {
            assert(b[fo - 1] == v@[fo - 1]);
        }
        if exec_has_close(v, 0, fo) {
            return None;
        }
        if !exec_has_non_ws(v, 0, fo) {
            return None;
        }
        if !(v[bend - 1] == ')') {
            return None;
        }
        Some(
            Bounds {
                name_end: fo,
                info_start: fo,
                info_end: bend,
                p1_start: m,
                p1_end: k5,
                p2_start: k,
                p2_end: j,
            },
        )
    } else {
        proof {
            assert(b =~= v@.subrange(0, bend as int));
        }
        if exec_has_close(v, 0, bend) {
            return None;
        }
        if !exec_has_non_ws(v, 0, bend) {
            return None;
        }
        proof {
            assert(v@.subrange(bend as int, bend as int) =~= Seq::<char>::empty());
        }
        Some(
            Bounds {
                name_end: bend,
                info_start: bend,
                info_end: bend,
                p1_start: m,
                p1_end: k5,
                p2_start: k,
                p2_end: j,
            },
        )
    }
}

/// The decimal text of the price region `v[from..to]`, with the silent
/// `0.0` fallback for a region that is not a readable number.
fn price_text(v: &Vec<char>, from: usize, to: usize) -> (r: String)
    requires
        from <= to <= v@.len(),
    ensures
        r@ == price_value(v@.subrange(from as int, to as int)),
{
    let ghost sub = v@.subrange(from as int, to as int);
    if exec_has_digit(v, from, to) && exec_at_most_one_comma(v, from, to) {
        let mut out: Vec<char> = Vec::new();
        let mut i = from;
        while i < to
            invariant
                from <= i <= to,
                out@ == comma_to_point(v@.subrange(from as int, to as int)).subrange(
                    0,
                    i - from,
                ),
            decreases to - i,
        {
            let c = v[i];
            proof {
                assert(comma_to_point(sub)[i - from] == (if v@[i as int] == ',' {
                    '.'
                } else {
                    v@[i as int]
                }));
                assert(comma_to_point(sub).subrange(0, i - from + 1) =~= comma_to_point(
                    sub,
                ).subrange(0, i - from).push(comma_to_point(sub)[i - from]));
            }
            if c == ',' {
                out.push('.');
            } else {
                out.push(c);
            }
            i = i + 1;
        }
        proof {
            assert(comma_to_point(sub).subrange(0, to - from) =~= comma_to_point(sub));
        }
        chars_to_string(&out)
    } else {
        proof {
            reveal_strlit("0.0");
            assert("0.0"@ =~= zero_price());
        }
        String::from_str("0.0")
    }
}

/// One item of a menu section: a name, optional parenthetical info, and the
/// two prices as decimal text.
pub struct Meal {
    pub desc: String,
    pub info: String,
    pub price_student: String,
    pub price_regular: String,
}

impl View for Meal {
    type V = MealModel;

    open spec fn view(&self) -> MealModel {
        MealModel {
            desc: self.desc@,
            info: self.info@,
            price_student: self.price_student@,
            price_regular: self.price_regular@,
        }
    }
}

impl Meal {
    /// Extracts the record of one raw item description, exactly as
    /// [`meal_of`] says: the placeholder record when the collapsed
    /// description does not match the canonical shape, and the carved and
    /// normalized regions when it does.
    pub fn new(description: &str) -> (m: Meal)
        ensures
            m@ == meal_of(description@),
    {
        let collapsed = collapse_ws_str(description);
        let v = str_chars(collapsed.as_str());
        match parse_bounds(&v) {
            None => {
                proof {
                    reveal_strlit("No description");
                    reveal_strlit("0.0");
                    assert("No description"@ =~= no_description());
                    assert("0.0"@ =~= zero_price());
                }
                Meal {
                    desc: String::from_str("No description"),
                    info: String::new(),
                    price_student: String::from_str("0.0"),
                    price_regular: String::from_str("0.0"),
                }
            },
            Some(b) => {
                let name_raw = subvec(&v, 0, b.name_end);
                let name_spaced = punct_space_chars(&name_raw);
                let name_trimmed = trim_chars(&name_spaced);
                let info_raw = subvec(&v, b.info_start, b.info_end);
                let info_trimmed = trim_chars(&info_raw);
                Meal {
                    desc: chars_to_string(&name_trimmed),
                    info: chars_to_string(&info_trimmed),
                    price_student: price_text(&v, b.p1_start, b.p1_end),
                    price_regular: price_text(&v, b.p2_start, b.p2_end),
                }
            },
        }
    }
}

/// Whether one raw item description matches the canonical shape; false
/// exactly when [`Meal::new`] falls back to the placeholder record, which a
/// caller should log as a warning.
pub fn description_matches(description: &str) -> (b: bool)
    ensures
        b == (parse_desc(collapse_ws(description@)) is Some),
{
    let collapsed = collapse_ws_str(description);
    let v = str_chars(collapsed.as_str());
    parse_bounds(&v).is_some()
}

} // verus!
