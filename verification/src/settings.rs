//! What a settings editor needs besides the store itself: text typed into a box becomes
//! a value of the key's own type. The type comes from the schema's default rather than
//! from what the text looks like, so a port typed as `8080` stays an integer and a string
//! setting that happens to read `true` stays a string.

use vstd::prelude::*;
use crate::text::{decimal, digit_char, lowercase, push_char, to_chars, to_lowercase};

verus! {

/// A setting's value, in one of the types the settings store holds.
#[derive(Clone, Debug, PartialEq, Eq)]
pub enum SettingValue {
    Bool(bool),
    UInt(u64),
    SInt(i64),
    String(String),
    List(Vec<String>),
}

/// A setting's value as plain data.
pub enum SettingValueView {
    Bool(bool),
    UInt(u64),
    SInt(i64),
    String(Seq<char>),
    List(Seq<Seq<char>>),
}

impl View for SettingValue {
    type V = SettingValueView;

    open spec fn view(&self) -> SettingValueView {
        match self {
            SettingValue::Bool(b) => SettingValueView::Bool(*b),
            SettingValue::UInt(n) => SettingValueView::UInt(*n),
            SettingValue::SInt(n) => SettingValueView::SInt(*n),
            SettingValue::String(s) => SettingValueView::String(s@),
            SettingValue::List(items) => SettingValueView::List(items@.map_values(|s: String| s@)),
        }
    }
}

// ── trimming ─────────────────────────────────────────────────────────────────

/// Unicode `White_Space`, what `char::is_whitespace` and `str::trim` go by.
pub open spec fn is_white_space(c: char) -> bool {
    let n = c as u32;
    (0x9 <= n && n <= 0xd) || n == 0x20 || n == 0x85 || n == 0xa0 || n == 0x1680
        || (0x2000 <= n && n <= 0x200a) || n == 0x2028 || n == 0x2029 || n == 0x202f
        || n == 0x205f || n == 0x3000
}

/// `s` without its leading white space.
pub open spec fn trim_start(s: Seq<char>) -> Seq<char>
    decreases s.len(),
{
    if s.len() > 0 && is_white_space(s[0]) {
        trim_start(s.drop_first())
    } else {
        s
    }
}

/// `s` without its trailing white space.
pub open spec fn trim_end(s: Seq<char>) -> Seq<char>
    decreases s.len(),
{
    if s.len() > 0 && is_white_space(s.last()) {
        trim_end(s.drop_last())
    } else {
        s
    }
}

/// `s` without white space at either end, as `str::trim` gives it.
pub open spec fn trimmed(s: Seq<char>) -> Seq<char> {
    trim_end(trim_start(s))
}

fn white_space(c: char) -> (res: bool)
    ensures
        res == is_white_space(c),
{
    let n = c as u32;
    (0x9 <= n && n <= 0xd) || n == 0x20 || n == 0x85 || n == 0xa0 || n == 0x1680
        || (0x2000 <= n && n <= 0x200a) || n == 0x2028 || n == 0x2029 || n == 0x202f
        || n == 0x205f || n == 0x3000
}

/// The bounds of `v[from..to]` with white space trimmed from both ends.
fn trim_bounds(v: &Vec<char>, from: usize, to: usize) -> (res: (usize, usize))
    requires
        from <= to <= v.len(),
    ensures
        from <= res.0 <= res.1 <= to,
        v@.subrange(res.0 as int, res.1 as int) == trimmed(v@.subrange(from as int, to as int)),
{
    let mut i = from;
    while i < to && white_space(v[i])
        invariant
            from <= i <= to <= v.len(),
            trim_start(v@.subrange(from as int, to as int)) == trim_start(v@.subrange(i as int, to as int)),
        decreases to - i,
    {
        assert(v@.subrange(i as int, to as int).drop_first() =~= v@.subrange(i as int + 1, to as int));
        i += 1;
    }
    assert(trim_start(v@.subrange(i as int, to as int)) == v@.subrange(i as int, to as int));
    let mut j = to;
    while j > i && white_space(v[j - 1])
        invariant
            from <= i <= j <= to <= v.len(),
            trim_end(v@.subrange(i as int, to as int)) == trim_end(v@.subrange(i as int, j as int)),
        decreases j - i,
    {
        assert(v@.subrange(i as int, j as int).drop_last() =~= v@.subrange(i as int, j as int - 1));
        j -= 1;
    }
    assert(trim_end(v@.subrange(i as int, j as int)) == v@.subrange(i as int, j as int));
    (i, j)
}

/// The text of `v[from..to]`.
fn text_of(v: &Vec<char>, from: usize, to: usize) -> (res: String)
    requires
        from <= to <= v.len(),
    ensures
        res@ == v@.subrange(from as int, to as int),
{
    let mut res = String::new();
    let mut i = from;
    while i < to
        invariant
            from <= i <= to <= v.len(),
            res@ == v@.subrange(from as int, i as int),
        decreases to - i,
    {
        push_char(&mut res, v[i]);
        assert(res@ =~= v@.subrange(from as int, i as int + 1));
        i += 1;
    }
    res
}

// ── numbers ──────────────────────────────────────────────────────────────────

/// An ASCII decimal digit.
pub open spec fn is_digit(c: char) -> bool {
    48 <= (c as u32) && (c as u32) <= 57
}

/// Whether every character of `s` is an ASCII decimal digit.
pub open spec fn all_digits(s: Seq<char>) -> bool {
    forall|i: int| 0 <= i < s.len() ==> is_digit(#[trigger] s[i])
}

/// The number ASCII decimal digits spell.
pub open spec fn digits_value(s: Seq<char>) -> nat
    decreases s.len(),
{
    if s.len() == 0 {
        0
    } else {
        digits_value(s.drop_last()) * 10 + ((s.last() as u32) - 48) as nat
    }
}

/// `text.parse::<u64>()`, with 0 where it fails: an optional `+`, then one or more ASCII
/// digits, of a value that fits.
pub open spec fn parsed_u64(s: Seq<char>) -> u64 {
    let d = if s.len() > 0 && s[0] == '+' { s.drop_first() } else { s };
    if d.len() > 0 && all_digits(d) && digits_value(d) <= u64::MAX {
        digits_value(d) as u64
    } else {
        0
    }
}

/// `text.parse::<i64>()`, with 0 where it fails: an optional `+` or `-`, then one or
/// more ASCII digits, of a value that fits.
pub open spec fn parsed_i64(s: Seq<char>) -> i64 {
    let negative = s.len() > 0 && s[0] == '-';
    let d = if s.len() > 0 && (s[0] == '+' || s[0] == '-') { s.drop_first() } else { s };
    let m = digits_value(d);
    if d.len() > 0 && all_digits(d) {
        if negative {
            if m <= 0x8000_0000_0000_0000 { (-m) as i64 } else { 0 }
        } else {
            if m <= i64::MAX { m as i64 } else { 0 }
        }
    } else {
        0
    }
}

/// A prefix of a run of digits never spells more than the whole run.
proof fn lemma_digits_prefix(s: Seq<char>, k: int)
    requires
        all_digits(s),
        0 <= k <= s.len(),
    ensures
        digits_value(s.take(k)) <= digits_value(s),
    decreases s.len(),
{
    if k < s.len() {
        let d = s.drop_last();
        assert(all_digits(d)) by {
            assert forall|i: int| 0 <= i < d.len() implies is_digit(#[trigger] d[i]) by {
                assert(d[i] == s[i]);
            }
        }
        lemma_digits_prefix(d, k);
        assert(d.take(k) =~= s.take(k));
    } else {
        assert(s.take(k) =~= s);
    }
}

/// The number the digits `v[from..to]` spell, when there is at least one, all are ASCII
/// digits and the number is at most `limit`.
fn read_digits(v: &Vec<char>, from: usize, to: usize, limit: u128) -> (res: Option<u128>)
    requires
        from <= to <= v.len(),
        limit <= 0x1_0000_0000_0000_0000,
    ensures
        ({
            let d = v@.subrange(from as int, to as int);
            res == if d.len() > 0 && all_digits(d) && digits_value(d) <= limit {
                Some(digits_value(d) as u128)
            } else {
                None::<u128>
            }
        }),
{
    let ghost d = v@.subrange(from as int, to as int);
    if from == to {
        return None;
    }
    let mut acc: u128 = 0;
    let mut i = from;
    while i < to
        invariant
            from <= i <= to <= v.len(),
            d == v@.subrange(from as int, to as int),
            limit <= 0x1_0000_0000_0000_0000,
            all_digits(v@.subrange(from as int, i as int)),
            acc == digits_value(v@.subrange(from as int, i as int)),
            acc <= limit,
        decreases to - i,
    {
        let c = v[i];
        let n = c as u32;
        if n < 48 || n > 57 {
            assert(d[i - from] == c);
            return None;
        }
        let prefix = Ghost(v@.subrange(from as int, i as int + 1));
        assert(prefix@.drop_last() =~= v@.subrange(from as int, i as int));
        assert(all_digits(prefix@)) by {
            assert forall|k: int| 0 <= k < prefix@.len() implies is_digit(#[trigger] prefix@[k]) by {
                if k < prefix@.len() - 1 {
                    assert(prefix@[k] == v@.subrange(from as int, i as int)[k]);
                }
            }
        }
        acc = acc * 10 + (n - 48) as u128;
        assert(acc == digits_value(prefix@));
        if acc > limit {
            proof {
                if all_digits(d) {
                    lemma_digits_prefix(d, i + 1 - from);
                    assert(d.take(i + 1 - from) =~= prefix@);
                }
            }
            return None;
        }
        i += 1;
    }
    assert(v@.subrange(from as int, i as int) == d);
    Some(acc)
}

/// `v[from..to].parse::<u64>()`, with 0 where it fails.
fn parse_u64(v: &Vec<char>, from: usize, to: usize) -> (res: u64)
    requires
        from <= to <= v.len(),
    ensures
        res == parsed_u64(v@.subrange(from as int, to as int)),
{
    let ghost s = v@.subrange(from as int, to as int);
    let start = if from < to && v[from] == '+' { from + 1 } else { from };
    assert(v@.subrange(start as int, to as int) == (if s.len() > 0 && s[0] == '+' { s.drop_first() } else { s }));
    match read_digits(v, start, to, 0xffff_ffff_ffff_ffff) {
        Some(m) => m as u64,
        None => 0,
    }
}

/// `v[from..to].parse::<i64>()`, with 0 where it fails.
fn parse_i64(v: &Vec<char>, from: usize, to: usize) -> (res: i64)
    requires
        from <= to <= v.len(),
    ensures
        res == parsed_i64(v@.subrange(from as int, to as int)),
{
    let ghost s = v@.subrange(from as int, to as int);
    let negative = from < to && v[from] == '-';
    let signed = from < to && (v[from] == '+' || v[from] == '-');
    let start = if signed { from + 1 } else { from };
    assert(v@.subrange(start as int, to as int) == (if s.len() > 0 && (s[0] == '+' || s[0] == '-') { s.drop_first() } else { s }));
    let limit: u128 = if negative { 0x8000_0000_0000_0000 } else { 0x7fff_ffff_ffff_ffff };
    match read_digits(v, start, to, limit) {
        Some(m) => if negative {
            if m == 0x8000_0000_0000_0000 {
                i64::MIN
            } else {
                -(m as i64)
            }
        } else {
            m as i64
        },
        None => 0,
    }
}

// ── lists ────────────────────────────────────────────────────────────────────

/// The pieces of `s` between commas, as `str::split(',')` gives them: one more than there
/// are commas, empty pieces included.
pub open spec fn split_commas(s: Seq<char>) -> Seq<Seq<char>>
    decreases s.len(),
{
    if s.len() == 0 {
        seq![Seq::<char>::empty()]
    } else {
        let p = split_commas(s.drop_last());
        if s.last() == ',' {
            p.push(Seq::<char>::empty())
        } else {
            p.update(p.len() - 1, p.last().push(s.last()))
        }
    }
}

/// The pieces, each trimmed, without those that are left empty.
pub open spec fn kept_items(pieces: Seq<Seq<char>>) -> Seq<Seq<char>>
    decreases pieces.len(),
{
    if pieces.len() == 0 {
        Seq::empty()
    } else {
        let rest = kept_items(pieces.drop_last());
        let t = trimmed(pieces.last());
        if t.len() > 0 {
            rest.push(t)
        } else {
            rest
        }
    }
}

/// The items of a comma-separated list: split at commas, trimmed, empties dropped.
pub open spec fn list_items(s: Seq<char>) -> Seq<Seq<char>> {
    kept_items(split_commas(s))
}

/// The items of the comma-separated list `v[from..to]`.
fn read_list(v: &Vec<char>, from: usize, to: usize) -> (res: Vec<String>)
    requires
        from <= to <= v.len(),
    ensures
        res@.map_values(|s: String| s@) == list_items(v@.subrange(from as int, to as int)),
{
    let mut out: Vec<String> = Vec::new();
    let mut start = from;
    let mut i = from;
    proof {
        assert(v@.subrange(from as int, from as int) =~= Seq::<char>::empty());
    }
    while i < to
        invariant
            from <= start <= i <= to <= v.len(),
            split_commas(v@.subrange(from as int, i as int)).len() >= 1,
            split_commas(v@.subrange(from as int, i as int)).last() == v@.subrange(start as int, i as int),
            out@.map_values(|s: String| s@) == kept_items(split_commas(v@.subrange(from as int, i as int)).drop_last()),
        decreases to - i,
    {
        let ghost p = split_commas(v@.subrange(from as int, i as int));
        let ghost q = split_commas(v@.subrange(from as int, i as int + 1));
        assert(v@.subrange(from as int, i as int + 1).drop_last() =~= v@.subrange(from as int, i as int));
        if v[i] == ',' {
            assert(q == p.push(Seq::<char>::empty()));
            assert(q.drop_last() =~= p);
            let (a, b) = trim_bounds(v, start, i);
            if a < b {
                let item = text_of(v, a, b);
                let ghost before = out@.map_values(|s: String| s@);
                out.push(item);
                assert(out@.map_values(|s: String| s@) =~= before.push(item@));
            }
            start = i + 1;
            assert(q.last() =~= v@.subrange(start as int, i as int + 1));
        } else {
            assert(q == p.update(p.len() - 1, p.last().push(v@[i as int])));
            assert(q.drop_last() =~= p.drop_last());
            assert(q.last() =~= v@.subrange(start as int, i as int + 1));
        }
        i += 1;
    }
    let ghost p = split_commas(v@.subrange(from as int, to as int));
    let (a, b) = trim_bounds(v, start, to);
    if a < b {
        let item = text_of(v, a, b);
        let ghost before = out@.map_values(|s: String| s@);
        out.push(item);
        assert(out@.map_values(|s: String| s@) =~= before.push(item@));
    }
    assert(p =~= p.drop_last().push(p.last()));
    out
}

// ── the editor's rule ────────────────────────────────────────────────────────

/// The words a boolean setting takes as true, once lower-cased.
pub open spec fn is_true_word(w: Seq<char>) -> bool {
    w == "true"@ || w == "1"@ || w == "yes"@ || w == "on"@
}

/// The value `text` stands for in a setting of `template`'s type: the text trimmed, then
/// for a boolean one of `true`, `1`, `yes`, `on` in any case; for a number, the number
/// it spells, or 0 where it spells none; for a string, the text itself; for a list, its
/// comma-separated items, trimmed, empty ones dropped.
pub open spec fn parsed_like(template: SettingValueView, text: Seq<char>) -> SettingValueView {
    let t = trimmed(text);
    match template {
        SettingValueView::Bool(_) => SettingValueView::Bool(is_true_word(lowercase(t))),
        SettingValueView::UInt(_) => SettingValueView::UInt(parsed_u64(t)),
        SettingValueView::SInt(_) => SettingValueView::SInt(parsed_i64(t)),
        SettingValueView::String(_) => SettingValueView::String(t),
        SettingValueView::List(_) => SettingValueView::List(list_items(t)),
    }
}

/// Whether `s` is exactly the text `word`.
fn text_is(s: &str, word: &str) -> (res: bool)
    ensures
        res == (s@ == word@),
{
    let a = to_chars(s);
    let b = to_chars(word);
    if a.len() != b.len() {
        return false;
    }
    let mut i: usize = 0;
    while i < a.len()
        invariant
            a@ == s@,
            b@ == word@,
            a.len() == b.len(),
            i <= a.len(),
            forall|k: int| 0 <= k < i ==> a@[k] == b@[k],
        decreases a.len() - i,
    {
        if a[i] != b[i] {
            return false;
        }
        i += 1;
    }
    assert(a@ =~= b@);
    true
}

/// Read `text` as a value of the same type as `template`. A settings editor hands back
/// text, from an entry, a dropdown or a number field, and the store wants a typed value.
pub fn parse_like(template: &SettingValue, text: &str) -> (res: SettingValue)
    ensures
        res@ == parsed_like(template@, text@),
{
    let v = to_chars(text);
    let (a, b) = trim_bounds(&v, 0, v.len());
    assert(v@.subrange(0, v.len() as int) =~= text@);
    match template {
        SettingValue::Bool(_) => {
            let t = text_of(&v, a, b);
            let lower = to_lowercase(t.as_str());
            let yes = text_is(lower.as_str(), "true") || text_is(lower.as_str(), "1")
                || text_is(lower.as_str(), "yes") || text_is(lower.as_str(), "on");
            SettingValue::Bool(yes)
        },
        SettingValue::UInt(_) => SettingValue::UInt(parse_u64(&v, a, b)),
        SettingValue::SInt(_) => SettingValue::SInt(parse_i64(&v, a, b)),
        SettingValue::String(_) => SettingValue::String(text_of(&v, a, b)),
        SettingValue::List(_) => SettingValue::List(read_list(&v, a, b)),
    }
}

} // verus!

verus! {

proof fn lemma_decimal_digits(n: nat)
    ensures
        decimal(n).len() > 0,
        all_digits(decimal(n)),
        digits_value(decimal(n)) == n,
    decreases n,
{
    let d = n % 10;
    assert(digit_char(d) as u32 - 48 == d && is_digit(digit_char(d))) by {
        if d == 0 {} else if d == 1 {} else if d == 2 {} else if d == 3 {} else if d == 4 {}
        else if d == 5 {} else if d == 6 {} else if d == 7 {} else if d == 8 {} else {}
    }
    vstd::arithmetic::div_mod::lemma_fundamental_div_mod(n as int, 10);
    if n >= 10 {
        lemma_decimal_digits(n / 10);
        let s = decimal(n);
        let p = decimal(n / 10);
        assert(s == p.push(digit_char(d)));
        assert(s.drop_last() =~= p);
        assert forall|i: int| 0 <= i < s.len() implies is_digit(#[trigger] s[i]) by {
            if i < p.len() {
                assert(s[i] == p[i]);
            }
        }
        assert(s.last() == digit_char(d));
        assert(digits_value(s) == digits_value(p) * 10 + d);
        assert(digits_value(p) == n / 10);
    } else {
        let s = decimal(n);
        assert(s.drop_last() =~= Seq::<char>::empty());
        assert(digits_value(Seq::<char>::empty()) == 0);
        assert(n % 10 == n);
        assert(s.last() == digit_char(d));
        assert(digits_value(s) == 0 * 10 + d);
    }
}

/// Numbers read back: the decimal text of a number, with or without a leading `+`, reads
/// as that number in an unsigned setting, and in a signed one, where a leading `-` reads
/// as its negation.
pub proof fn numbers_read_back(n: u64, m: i64)
    ensures
        parsed_u64(decimal(n as nat)) == n,
        parsed_u64(seq!['+'] + decimal(n as nat)) == n,
        m >= 0 ==> parsed_i64(decimal(m as nat)) == m,
        m >= 0 ==> parsed_i64(seq!['+'] + decimal(m as nat)) == m,
        m < 0 ==> parsed_i64(seq!['-'] + decimal((-m) as nat)) == m,
{
    lemma_decimal_digits(n as nat);
    let d = decimal(n as nat);
    assert(d[0] != '+');
    assert((seq!['+'] + d).drop_first() =~= d);
    if m >= 0 {
        lemma_decimal_digits(m as nat);
        let e = decimal(m as nat);
        assert(e[0] != '+' && e[0] != '-');
        assert((seq!['+'] + e).drop_first() =~= e);
    } else {
        lemma_decimal_digits((-m) as nat);
        let e = decimal((-m) as nat);
        assert((seq!['-'] + e).drop_first() =~= e);
    }
}

/// Text that is not a number reads as 0: a character that is neither a digit nor the
/// leading sign makes the whole reading fail.
pub proof fn non_numbers_read_as_zero(s: Seq<char>, i: int)
    requires
        0 <= i < s.len(),
        !is_digit(s[i]),
        i > 0 || (s[i] != '+' && s[i] != '-'),
    ensures
        parsed_u64(s) == 0,
        parsed_i64(s) == 0,
{
    if s[0] == '+' || s[0] == '-' {
        if i > 0 {
            assert(s.drop_first()[i - 1] == s[i]);
        }
    }
}

proof fn lemma_trim_start(s: Seq<char>)
    ensures
        exists|i: int| 0 <= i <= s.len() && trim_start(s) == s.skip(i)
            && (forall|k: int| 0 <= k < i ==> is_white_space(#[trigger] s[k])),
        trim_start(s).len() > 0 ==> !is_white_space(trim_start(s)[0]),
    decreases s.len(),
{
    if s.len() > 0 && is_white_space(s[0]) {
        lemma_trim_start(s.drop_first());
        let i = choose|i: int| 0 <= i <= s.drop_first().len() && trim_start(s.drop_first()) == s.drop_first().skip(i)
            && (forall|k: int| 0 <= k < i ==> is_white_space(#[trigger] s.drop_first()[k]));
        assert(s.drop_first().skip(i) =~= s.skip(i + 1));
        assert forall|k: int| 0 <= k < i + 1 implies is_white_space(#[trigger] s[k]) by {
            if k > 0 {
                assert(s[k] == s.drop_first()[k - 1]);
            }
        }
    } else {
        assert(s.skip(0) =~= s);
    }
}

proof fn lemma_trim_end(s: Seq<char>)
    ensures
        exists|j: int| 0 <= j <= s.len() && trim_end(s) == s.take(j)
            && (forall|k: int| j <= k < s.len() ==> is_white_space(#[trigger] s[k])),
        trim_end(s).len() > 0 ==> !is_white_space(trim_end(s).last()),
    decreases s.len(),
{
    if s.len() > 0 && is_white_space(s.last()) {
        lemma_trim_end(s.drop_last());
        let j = choose|j: int| 0 <= j <= s.drop_last().len() && trim_end(s.drop_last()) == s.drop_last().take(j)
            && (forall|k: int| j <= k < s.drop_last().len() ==> is_white_space(#[trigger] s.drop_last()[k]));
        assert(s.drop_last().take(j) =~= s.take(j));
        assert forall|k: int| j <= k < s.len() implies is_white_space(#[trigger] s[k]) by {
            if k < s.len() - 1 {
                assert(s[k] == s.drop_last()[k]);
            }
        }
    } else {
        assert(s.take(s.len() as int) =~= s);
    }
}

/// Trimming cuts white space from the ends and nothing else: the result is one unbroken
/// piece of the text, everything cut off is white space, and the result neither starts
/// nor ends with white space.
pub proof fn trimming_cuts_only_white_space_at_the_ends(s: Seq<char>)
    ensures
        exists|i: int, j: int| 0 <= i <= j <= s.len() && trimmed(s) == s.subrange(i, j)
            && (forall|k: int| 0 <= k < i ==> is_white_space(#[trigger] s[k]))
            && (forall|k: int| j <= k < s.len() ==> is_white_space(#[trigger] s[k])),
        trimmed(s).len() > 0 ==> !is_white_space(trimmed(s)[0]) && !is_white_space(trimmed(s).last()),
{
    lemma_trim_start(s);
    let i = choose|i: int| 0 <= i <= s.len() && trim_start(s) == s.skip(i)
        && (forall|k: int| 0 <= k < i ==> is_white_space(#[trigger] s[k]));
    let t = trim_start(s);
    lemma_trim_end(t);
    let j = choose|j: int| 0 <= j <= t.len() && trim_end(t) == t.take(j)
        && (forall|k: int| j <= k < t.len() ==> is_white_space(#[trigger] t[k]));
    assert(t.take(j) =~= s.subrange(i, i + j));
    assert forall|k: int| i + j <= k < s.len() implies is_white_space(#[trigger] s[k]) by {
        assert(s[k] == t[k - i]);
    }
    if trimmed(s).len() > 0 {
        let r = trimmed(s);
        assert(r[0] == t[0]);
    }
}

/// A boolean setting reads `true`, `1`, `yes` and `on` as true and `false`, `0`, `no`,
/// `off` and empty text as false, whatever the setting held before.
pub proof fn boolean_words(b: bool, text: Seq<char>)
    ensures
        ({
            let w = lowercase(trimmed(text));
            &&& (w == "true"@ || w == "1"@ || w == "yes"@ || w == "on"@) ==> parsed_like(
                SettingValueView::Bool(b),
                text,
            ) == SettingValueView::Bool(true)
            &&& (w == "false"@ || w == "0"@ || w == "no"@ || w == "off"@ || w.len() == 0) ==> parsed_like(
                SettingValueView::Bool(b),
                text,
            ) == SettingValueView::Bool(false)
        }),
{
    reveal_strlit("true");
    reveal_strlit("1");
    reveal_strlit("yes");
    reveal_strlit("on");
    reveal_strlit("false");
    reveal_strlit("0");
    reveal_strlit("no");
    reveal_strlit("off");
    assert("0"@ != "1"@) by {
        assert("0"@[0] != "1"@[0]);
    }
    assert("no"@ != "on"@) by {
        assert("no"@[0] != "on"@[0]);
    }
    assert("off"@ != "yes"@) by {
        assert("off"@[0] != "yes"@[0]);
    }
    let w = lowercase(trimmed(text));
    assert(parsed_like(SettingValueView::Bool(b), text) == SettingValueView::Bool(is_true_word(w)));
    assert("false"@.len() == 5 && "true"@.len() == 4 && "1"@.len() == 1 && "yes"@.len() == 3 && "on"@.len() == 2);
    assert("0"@.len() == 1 && "no"@.len() == 2 && "off"@.len() == 3);
    assert("false"@ != "true"@ && "false"@ != "1"@ && "false"@ != "yes"@ && "false"@ != "on"@);
    assert("0"@ != "true"@ && "0"@ != "yes"@ && "0"@ != "on"@);
    assert("no"@ != "true"@ && "no"@ != "1"@ && "no"@ != "yes"@);
    assert("off"@ != "true"@ && "off"@ != "1"@ && "off"@ != "on"@);
}

/// A value read for a setting keeps the setting's type: a number stays a number however
/// the text reads, and a string stays a string however much it looks like something else.
pub proof fn a_value_keeps_its_settings_type(template: SettingValueView, text: Seq<char>)
    ensures
        parsed_like(template, text) is Bool <==> template is Bool,
        parsed_like(template, text) is UInt <==> template is UInt,
        parsed_like(template, text) is SInt <==> template is SInt,
        parsed_like(template, text) is String <==> template is String,
        parsed_like(template, text) is List <==> template is List,
        template is String ==> parsed_like(template, text) == SettingValueView::String(trimmed(text)),
{
}

proof fn lemma_kept_items(pieces: Seq<Seq<char>>)
    ensures
        forall|k: int| 0 <= k < kept_items(pieces).len() ==> {
            &&& (#[trigger] kept_items(pieces)[k]).len() > 0
            &&& exists|p: int| 0 <= p < pieces.len() && kept_items(pieces)[k] == trimmed(pieces[p])
        },
    decreases pieces.len(),
{
    if pieces.len() > 0 {
        let d = pieces.drop_last();
        lemma_kept_items(d);
        let rest = kept_items(d);
        let r = kept_items(pieces);
        assert forall|k: int| 0 <= k < r.len() implies {
            &&& (#[trigger] r[k]).len() > 0
            &&& exists|p: int| 0 <= p < pieces.len() && r[k] == trimmed(pieces[p])
        } by {
            if k < rest.len() {
                assert(r[k] == rest[k]);
                let p = choose|p: int| 0 <= p < d.len() && rest[k] == trimmed(d[p]);
                assert(d[p] == pieces[p]);
            } else {
                assert(r[k] == trimmed(pieces.last()));
                assert(pieces.last() == pieces[pieces.len() - 1]);
            }
        }
    }
}

proof fn lemma_split_commas_no_comma(s: Seq<char>)
    ensures
        split_commas(s).len() >= 1,
        forall|p: int, k: int| 0 <= p < split_commas(s).len() && 0 <= k < split_commas(s)[p].len()
            ==> #[trigger] split_commas(s)[p][k] != ',',
        !s.contains(',') ==> split_commas(s) == seq![s],
    decreases s.len(),
{
    if s.len() > 0 {
        let d = s.drop_last();
        lemma_split_commas_no_comma(d);
        let q = split_commas(d);
        let r = split_commas(s);
        assert forall|p: int, k: int| 0 <= p < r.len() && 0 <= k < r[p].len() implies #[trigger] r[p][k] != ',' by {
            if s.last() == ',' {
                if p < q.len() {
                    assert(r[p] == q[p]);
                }
            } else {
                if p < q.len() - 1 {
                    assert(r[p] == q[p]);
                } else {
                    assert(r[p] == q.last().push(s.last()));
                    if k < q.last().len() {
                        assert(q.last() == q[q.len() - 1]);
                    }
                }
            }
        }
        if !s.contains(',') {
            assert(!d.contains(',')) by {
                if d.contains(',') {
                    let k = choose|k: int| 0 <= k < d.len() && d[k] == ',';
                    assert(s[k] == ',');
                }
            }
            assert(s.last() != ',') by {
                assert(s[s.len() - 1] == s.last());
            }
            assert(q == seq![d]);
            assert(d.push(s.last()) =~= s);
            assert(r =~= seq![s]);
        }
    } else {
        assert(s =~= Seq::<char>::empty());
    }
}

proof fn lemma_trimmed_piece(s: Seq<char>)
    ensures
        forall|k: int| 0 <= k < trimmed(s).len() ==> exists|m: int| 0 <= m < s.len() && #[trigger] trimmed(s)[k] == s[m],
{
    trimming_cuts_only_white_space_at_the_ends(s);
    let (i, j) = choose|i: int, j: int| 0 <= i <= j <= s.len() && trimmed(s) == s.subrange(i, j)
        && (forall|k: int| 0 <= k < i ==> is_white_space(#[trigger] s[k]))
        && (forall|k: int| j <= k < s.len() ==> is_white_space(#[trigger] s[k]));
    assert forall|k: int| 0 <= k < trimmed(s).len() implies exists|m: int| 0 <= m < s.len() && #[trigger] trimmed(s)[k] == s[m] by {
        assert(trimmed(s)[k] == s[i + k]);
    }
}

proof fn lemma_items_have_no_comma(t: Seq<char>)
    ensures
        forall|k: int| 0 <= k < list_items(t).len() ==> {
            &&& (#[trigger] list_items(t)[k]).len() > 0
            &&& !list_items(t)[k].contains(',')
        },
{
    let pieces = split_commas(t);
    lemma_split_commas_no_comma(t);
    lemma_kept_items(pieces);
    let items = list_items(t);
    assert forall|k: int| 0 <= k < items.len() implies {
        &&& (#[trigger] items[k]).len() > 0
        &&& !items[k].contains(',')
    } by {
        let p = choose|p: int| 0 <= p < pieces.len() && items[k] == trimmed(pieces[p]);
        lemma_trimmed_piece(pieces[p]);
        if items[k].contains(',') {
            let c = choose|c: int| 0 <= c < items[k].len() && items[k][c] == ',';
            let m = choose|m: int| 0 <= m < pieces[p].len() && trimmed(pieces[p])[c] == pieces[p][m];
            assert(pieces[p][m] != ',');
        }
    }
}

proof fn lemma_single_item(text: Seq<char>)
    requires
        !text.contains(','),
        trimmed(text).len() > 0,
    ensures
        list_items(trimmed(text)) == seq![trimmed(text)],
{
    let t = trimmed(text);
    lemma_trimmed_piece(text);
    assert(!t.contains(',')) by {
        if t.contains(',') {
            let c = choose|c: int| 0 <= c < t.len() && t[c] == ',';
            let m = choose|m: int| 0 <= m < text.len() && t[c] == text[m];
            assert(text.contains(','));
        }
    }
    lemma_split_commas_no_comma(t);
    lemma_trim_idempotent(text);
    let pieces = split_commas(t);
    assert(pieces == seq![t]);
    assert(pieces.drop_last() =~= Seq::<Seq<char>>::empty());
    assert(pieces.last() == t);
    assert(kept_items(pieces.drop_last()) == Seq::<Seq<char>>::empty());
    assert(trimmed(t) == t);
    assert(kept_items(pieces) =~= seq![t]);
}

/// A list setting holds only real items: each is non-empty and holds no comma, and text
/// without a comma is a single item (the text trimmed) unless it is blank.
pub proof fn list_items_are_real_items(text: Seq<char>)
    ensures
        forall|k: int| 0 <= k < list_items(trimmed(text)).len() ==> {
            &&& (#[trigger] list_items(trimmed(text))[k]).len() > 0
            &&& !list_items(trimmed(text))[k].contains(',')
        },
        !text.contains(',') && trimmed(text).len() > 0 ==> list_items(trimmed(text)) == seq![trimmed(text)],
{
    lemma_items_have_no_comma(trimmed(text));
    if !text.contains(',') && trimmed(text).len() > 0 {
        lemma_single_item(text);
    }
}

proof fn lemma_trim_idempotent(s: Seq<char>)
    ensures
        trimmed(trimmed(s)) == trimmed(s),
{
    let t = trimmed(s);
    trimming_cuts_only_white_space_at_the_ends(s);
    if t.len() > 0 {
        assert(trim_start(t) == t);
        assert(trim_end(t) == t);
    } else {
        assert(trim_start(t) == t);
        assert(trim_end(t) == t);
    }
}

} // verus!
