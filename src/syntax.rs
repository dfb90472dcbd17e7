//! Byte-level building blocks of the pattern language: searching, counts,
//! alternation splitting and character-class expansion.
use vstd::prelude::*;
use vstd::slice::slice_subrange;
use vstd::set_lib::{lemma_int_range, lemma_len_subset, set_int_range};

verus! {

pub const LBRACKET: u8 = 91;

pub const RBRACKET: u8 = 93;

pub const LPAREN: u8 = 40;

pub const RPAREN: u8 = 41;

pub const LBRACE: u8 = 123;

pub const RBRACE: u8 = 125;

pub const SEMI: u8 = 59;

pub const DASH: u8 = 45;

pub const BAR: u8 = 124;

pub const PLUS: u8 = 43;

pub open spec fn is_digit(b: u8) -> bool {
    48 <= b <= 57
}

pub open spec fn is_alnum(b: u8) -> bool {
    (48 <= b <= 57) || (65 <= b <= 90) || (97 <= b <= 122)
}

/// A byte that opens a construct: `[`, `(` or `{`.
pub open spec fn is_opener(b: u8) -> bool {
    b == LBRACKET || b == LPAREN || b == LBRACE
}

/// Number of bytes from `start` up to the first `b` at or after it, or up to the end.
pub open spec fn find_off(p: Seq<u8>, start: nat, b: u8) -> nat
    decreases p.len() - start,
{
    if start >= p.len() {
        0
    } else if p[start as int] == b {
        0
    } else {
        1 + find_off(p, start + 1, b)
    }
}

/// Number of bytes from `start` up to the first opener at or after it, or up to the end.
pub open spec fn opener_off(p: Seq<u8>, start: nat) -> nat
    decreases p.len() - start,
{
    if start >= p.len() {
        0
    } else if is_opener(p[start as int]) {
        0
    } else {
        1 + opener_off(p, start + 1)
    }
}

/// Decimal value of a run of digits.
pub open spec fn digits_value(s: Seq<u8>) -> nat
    decreases s.len(),
{
    if s.len() == 0 {
        0
    } else {
        digits_value(s.drop_last()) * 10 + (s.last() - 48) as nat
    }
}

pub open spec fn all_digits(s: Seq<u8>) -> bool {
    forall|i: int| 0 <= i < s.len() ==> is_digit(#[trigger] s[i])
}

/// A non-empty run of decimal digits whose value fits in a byte.
pub open spec fn parse_digits(s: Seq<u8>) -> Option<nat> {
    if s.len() > 0 && all_digits(s) && digits_value(s) <= 255 {
        Some(digits_value(s))
    } else {
        None
    }
}

/// The text of a count without its sign: one leading `+` is allowed.
pub open spec fn unsigned_part(s: Seq<u8>) -> Seq<u8> {
    if s.len() > 0 && s[0] == PLUS {
        s.drop_first()
    } else {
        s
    }
}

/// A repetition count: an optional `+`, then digits whose value fits in a byte.
pub open spec fn parse_count(s: Seq<u8>) -> Option<nat> {
    parse_digits(unsigned_part(s))
}

/// The bytes that trimming removes: tab, line feed, vertical tab, form feed,
/// carriage return and space.
pub open spec fn is_trim_space(b: u8) -> bool {
    (9 <= b <= 13) || b == 32
}

/// End of the run of trimmable bytes that starts at `i`.
pub open spec fn lead_end(s: Seq<u8>, i: nat) -> nat
    decreases s.len() - i,
{
    if i < s.len() && is_trim_space(s[i as int]) {
        lead_end(s, i + 1)
    } else {
        i
    }
}

/// Start of the run of trimmable bytes that ends at `j`, going no lower than `lo`.
pub open spec fn trail_start(s: Seq<u8>, lo: nat, j: nat) -> nat
    decreases j,
{
    if lo < j && j <= s.len() && is_trim_space(s[j - 1]) {
        trail_start(s, lo, (j - 1) as nat)
    } else {
        j
    }
}

/// `s` without trimmable bytes at either end.
pub open spec fn trimmed(s: Seq<u8>) -> Seq<u8> {
    let lo = lead_end(s, 0);
    s.subrange(lo as int, trail_start(s, lo, s.len()) as int)
}

/// `m-n`: two counts around the first dash; the first may have trimmable
/// bytes around it.
pub open spec fn parse_span(s: Seq<u8>) -> Option<(nat, nat)> {
    let d = find_off(s, 0, DASH);
    if d < s.len() {
        match (
            parse_count(trimmed(s.take(d as int))),
            parse_count(s.subrange(d + 1int, s.len() as int)),
        ) {
            (Some(m), Some(n)) => Some((m, n)),
            _ => None,
        }
    } else {
        None
    }
}

/// Splits on every `|`; the result always has at least one piece.
pub open spec fn split_bar(s: Seq<u8>) -> Seq<Seq<u8>>
    decreases s.len(),
{
    if s.len() == 0 {
        seq![Seq::empty()]
    } else {
        let r = split_bar(s.drop_last());
        if s.last() == BAR {
            r.push(Seq::empty())
        } else {
            r.update(r.len() - 1, r.last().push(s.last()))
        }
    }
}

/// Appends `b` unless it is already present.
pub open spec fn add_one(acc: Seq<u8>, b: u8) -> Seq<u8> {
    if acc.contains(b) {
        acc
    } else {
        acc.push(b)
    }
}

/// Appends each byte of `x..=y` in ascending order, skipping those already present.
pub open spec fn add_range(acc: Seq<u8>, x: u8, y: u8) -> Seq<u8>
    decreases y - x,
{
    if y <= x {
        add_one(acc, x)
    } else {
        add_one(add_range(acc, x, (y - 1) as u8), y)
    }
}

/// The hyphen at `k` is a range operator: it stands inside the body, between
/// two alphanumeric bytes.
pub open spec fn range_dash(c: Seq<u8>, k: int) -> bool {
    &&& 0 < k < c.len() - 1
    &&& c[k] == DASH
    &&& is_alnum(c[k - 1])
    &&& is_alnum(c[k + 1])
}

/// The alternatives of a character class, scanning from `i` with `acc` already
/// collected. A range hyphen adds its ends' range (ascending: every byte of
/// `X..=Y`; descending: `X`, then `Y`); a byte next to a range hyphen adds
/// nothing of its own; every other byte stands for itself.
pub open spec fn class_scan(c: Seq<u8>, i: nat, acc: Seq<u8>) -> Seq<u8>
    decreases c.len() - i,
{
    if i >= c.len() {
        acc
    } else if range_dash(c, i as int) {
        let x = c[i - 1];
        let y = c[i + 1int];
        class_scan(
            c,
            i + 1,
            if x <= y {
                add_range(acc, x, y)
            } else {
                add_one(add_one(acc, x), y)
            },
        )
    } else if range_dash(c, i - 1int) || range_dash(c, i + 1int) {
        class_scan(c, i + 1, acc)
    } else {
        class_scan(c, i + 1, add_one(acc, c[i as int]))
    }
}

/// The ordered, duplicate-free alternatives of a class body.
pub open spec fn class_alts(c: Seq<u8>) -> Seq<u8> {
    class_scan(c, 0, Seq::empty())
}

pub open spec fn byte_views(v: Seq<Vec<u8>>) -> Seq<Seq<u8>> {
    v.map_values(|x: Vec<u8>| x@)
}

pub proof fn lemma_split_bar_nonempty(s: Seq<u8>)
    ensures
        split_bar(s).len() >= 1,
    decreases s.len(),
{
    if s.len() > 0 {
        lemma_split_bar_nonempty(s.drop_last());
    }
}

proof fn lemma_add_one_distinct(acc: Seq<u8>, b: u8)
    requires
        acc.no_duplicates(),
    ensures
        add_one(acc, b).no_duplicates(),
{
}

proof fn lemma_add_range_distinct(acc: Seq<u8>, x: u8, y: u8)
    requires
        acc.no_duplicates(),
    ensures
        add_range(acc, x, y).no_duplicates(),
    decreases y - x,
{
    if y > x {
        lemma_add_range_distinct(acc, x, (y - 1) as u8);
    }
}

proof fn lemma_class_scan_distinct(c: Seq<u8>, i: nat, acc: Seq<u8>)
    requires
        acc.no_duplicates(),
    ensures
        class_scan(c, i, acc).no_duplicates(),
    decreases c.len() - i,
{
    if i < c.len() {
        if range_dash(c, i as int) {
            let x = c[i - 1];
            let y = c[i + 1int];
            lemma_add_range_distinct(acc, x, y);
            lemma_add_one_distinct(acc, x);
            lemma_add_one_distinct(add_one(acc, x), y);
            let next = if x <= y {
                add_range(acc, x, y)
            } else {
                add_one(add_one(acc, x), y)
            };
            lemma_class_scan_distinct(c, i + 1, next);
        } else if range_dash(c, i - 1int) || range_dash(c, i + 1int) {
            lemma_class_scan_distinct(c, i + 1, acc);
        } else {
            lemma_add_one_distinct(acc, c[i as int]);
            lemma_class_scan_distinct(c, i + 1, add_one(acc, c[i as int]));
        }
    }
}

/// A class has at most one alternative per byte value.
pub proof fn lemma_class_alts_bound(c: Seq<u8>)
    ensures
        class_alts(c).len() <= 256,
{
    let s = class_alts(c);
    lemma_class_scan_distinct(c, 0, Seq::empty());
    let t = s.map_values(|b: u8| b as int);
    assert(t.no_duplicates()) by {
        assert forall|i: int, j: int| 0 <= i < t.len() && 0 <= j < t.len() && i != j implies t[i]
            != t[j] by {
            assert(s[i] != s[j]);
        }
    }
    t.unique_seq_to_set();
    lemma_int_range(0, 256);
    assert forall|v: int| t.to_set().contains(v) implies set_int_range(0, 256).contains(v) by {
        let k = choose|k: int| 0 <= k < t.len() && t[k] == v;
        assert(0 <= s[k] < 256);
    }
    lemma_len_subset(t.to_set(), set_int_range(0, 256));
}

proof fn lemma_digits_prefix(s: Seq<u8>, k: int)
    requires
        0 <= k <= s.len(),
    ensures
        digits_value(s.take(k)) <= digits_value(s),
    decreases s.len(),
{
    if k < s.len() {
        lemma_digits_prefix(s.drop_last(), k);
        assert(s.drop_last().take(k) == s.take(k));
    } else {
        assert(s.take(k) == s);
    }
}

/// Position of the first `b` in `p` at or after `start`, or `p.len()`.
pub fn find_byte(p: &[u8], start: usize, b: u8) -> (r: usize)
    requires
        start <= p@.len(),
    ensures
        r == start + find_off(p@, start as nat, b),
        r <= p@.len(),
{
    let mut j: usize = start;
    while j < p.len() && p[j] != b
        invariant
            start <= j <= p@.len(),
            find_off(p@, start as nat, b) == (j - start) + find_off(p@, j as nat, b),
        decreases p@.len() - j,
    {
        j += 1;
    }
    j
}

/// Position of the first opener in `p` at or after `start`, or `p.len()`.
pub fn find_opener(p: &[u8], start: usize) -> (r: usize)
    requires
        start <= p@.len(),
    ensures
        r == start + opener_off(p@, start as nat),
        r <= p@.len(),
{
    let mut j: usize = start;
    while j < p.len() && p[j] != LBRACKET && p[j] != LPAREN && p[j] != LBRACE
        invariant
            start <= j <= p@.len(),
            opener_off(p@, start as nat) == (j - start) + opener_off(p@, j as nat),
        decreases p@.len() - j,
    {
        j += 1;
    }
    j
}

/// Reads a run of digits.
fn read_digits(s: &[u8]) -> (r: Option<u8>)
    ensures
        r matches Some(v) ==> parse_digits(s@) == Some(v as nat),
        r is None ==> parse_digits(s@) is None,
{
    if s.len() == 0 {
        return None;
    }
    let mut v: u32 = 0;
    let mut i: usize = 0;
    while i < s.len()
        invariant
            0 <= i <= s@.len(),
            v == digits_value(s@.take(i as int)),
            v <= 255,
            all_digits(s@.take(i as int)),
        decreases s@.len() - i,
    {
        let b = s[i];
        if b < 48 || b > 57 {
            assert(!is_digit(s@[i as int]));
            return None;
        }
        assert(s@.take(i + 1).drop_last() == s@.take(i as int));
        let nv = v * 10 + (b - 48) as u32;
        assert(nv == digits_value(s@.take(i + 1)));
        if nv > 255 {
            proof {
                if all_digits(s@) {
                    lemma_digits_prefix(s@, i + 1);
                }
            }
            return None;
        }
        v = nv;
        i += 1;
        assert(all_digits(s@.take(i as int))) by {
            assert forall|k: int| 0 <= k < i implies is_digit(#[trigger] s@.take(i as int)[k]) by {
                if k < i - 1 {
                    assert(s@.take(i as int)[k] == s@.take(i - 1)[k]);
                }
            }
        }
    }
    assert(s@.take(s@.len() as int) == s@);
    Some(v as u8)
}

/// Reads a repetition count.
pub fn read_count(s: &[u8]) -> (r: Option<u8>)
    ensures
        r matches Some(v) ==> parse_count(s@) == Some(v as nat),
        r is None ==> parse_count(s@) is None,
{
    if s.len() > 0 && s[0] == PLUS {
        let rest = slice_subrange(s, 1, s.len());
        assert(rest@ == s@.drop_first());
        read_digits(rest)
    } else {
        read_digits(s)
    }
}

fn is_trim_byte(b: u8) -> (r: bool)
    ensures
        r == is_trim_space(b),
{
    (9 <= b && b <= 13) || b == 32
}

/// Bounds of `s` without trimmable bytes at either end.
fn trim_bounds(s: &[u8]) -> (r: (usize, usize))
    ensures
        r.0 == lead_end(s@, 0),
        r.1 == trail_start(s@, r.0 as nat, s@.len()),
        r.0 <= r.1 <= s@.len(),
{
    let mut i: usize = 0;
    while i < s.len() && is_trim_byte(s[i])
        invariant
            i <= s@.len(),
            lead_end(s@, 0) == lead_end(s@, i as nat),
        decreases s@.len() - i,
    {
        i += 1;
    }
    let mut j: usize = s.len();
    while i < j && is_trim_byte(s[j - 1])
        invariant
            i <= j <= s@.len(),
            trail_start(s@, i as nat, s@.len()) == trail_start(s@, i as nat, j as nat),
        decreases j,
    {
        j -= 1;
    }
    (i, j)
}

/// Reads `m-n`.
pub fn read_span(s: &[u8]) -> (r: Option<(u8, u8)>)
    ensures
        r matches Some(v) ==> parse_span(s@) == Some((v.0 as nat, v.1 as nat)),
        r is None ==> parse_span(s@) is None,
{
    let d = find_byte(s, 0, DASH);
    if d < s.len() {
        let head = slice_subrange(s, 0, d);
        let (lo, hi) = trim_bounds(head);
        let a = read_count(slice_subrange(head, lo, hi));
        let b = read_count(slice_subrange(s, d + 1, s.len()));
        match (a, b) {
            (Some(m), Some(n)) => Some((m, n)),
            _ => None,
        }
    } else {
        None
    }
}

/// Splits an alternation body on every `|`.
pub fn split_alternatives(s: &[u8]) -> (r: Vec<Vec<u8>>)
    ensures
        byte_views(r@) == split_bar(s@),
{
    let mut out: Vec<Vec<u8>> = Vec::new();
    let mut cur: Vec<u8> = Vec::new();
    let mut i: usize = 0;
    while i < s.len()
        invariant
            0 <= i <= s@.len(),
            byte_views(out@).push(cur@) == split_bar(s@.take(i as int)),
        decreases s@.len() - i,
    {
        let b = s[i];
        let ghost prev = split_bar(s@.take(i as int));
        assert(s@.take(i + 1).drop_last() == s@.take(i as int));
        if b == BAR {
            let piece = cur;
            out.push(piece);
            cur = Vec::new();
            assert(byte_views(out@).push(cur@) == prev.push(Seq::empty()));
        } else {
            cur.push(b);
            assert(byte_views(out@).push(cur@) == prev.update(prev.len() - 1, prev.last().push(b)));
        }
        i += 1;
    }
    assert(s@.take(s@.len() as int) == s@);
    out.push(cur);
    out
}

fn has_byte(v: &Vec<u8>, b: u8) -> (r: bool)
    ensures
        r == v@.contains(b),
{
    let mut i: usize = 0;
    while i < v.len()
        invariant
            0 <= i <= v@.len(),
            forall|k: int| 0 <= k < i ==> v@[k] != b,
        decreases v@.len() - i,
    {
        if v[i] == b {
            return true;
        }
        i += 1;
    }
    false
}

fn push_new(acc: &mut Vec<u8>, b: u8)
    ensures
        final(acc)@ == add_one(old(acc)@, b),
{
    if !has_byte(acc, b) {
        acc.push(b);
    }
}

fn push_range(acc: &mut Vec<u8>, x: u8, y: u8)
    requires
        x <= y,
    ensures
        final(acc)@ == add_range(old(acc)@, x, y),
{
    let ghost start = acc@;
    push_new(acc, x);
    let mut t: u8 = x;
    while t < y
        invariant
            x <= t <= y,
            acc@ == add_range(start, x, t),
        decreases y - t,
    {
        t += 1;
        push_new(acc, t);
    }
}

/// The alternatives of a class body, in first-seen order and without repeats.
pub fn expand_class(c: &[u8]) -> (r: Vec<u8>)
    ensures
        r@ == class_alts(c@),
{
    let mut acc: Vec<u8> = Vec::new();
    let mut i: usize = 0;
    while i < c.len()
        invariant
            0 <= i <= c@.len(),
            class_scan(c@, i as nat, acc@) == class_alts(c@),
        decreases c@.len() - i,
    {
        if is_range_dash(c, i) {
            let x = c[i - 1];
            let y = c[i + 1];
            if x <= y {
                push_range(&mut acc, x, y);
            } else {
                push_new(&mut acc, x);
                push_new(&mut acc, y);
            }
        } else if (i > 0 && is_range_dash(c, i - 1)) || is_range_dash(c, i + 1) {
        } else {
            push_new(&mut acc, c[i]);
        }
        i += 1;
    }
    acc
}

fn is_range_dash(c: &[u8], k: usize) -> (r: bool)
    requires
        k <= c@.len(),
    ensures
        r == range_dash(c@, k as int),
{
    0 < k && c.len() - k > 1 && c[k] == DASH && is_alnum_byte(c[k - 1]) && is_alnum_byte(c[k + 1])
}

fn is_alnum_byte(b: u8) -> (r: bool)
    ensures
        r == is_alnum(b),
{
    (48 <= b && b <= 57) || (65 <= b && b <= 90) || (97 <= b && b <= 122)
}

} // verus!
