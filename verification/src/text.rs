//! Small text helpers: strings as sequences of characters.

use vstd::prelude::*;

verus! {

/// `String::push`: appends one character.
#[verifier::external_body]
pub(crate) fn push_char(s: &mut String, c: char)
    ensures
        final(s)@ == old(s)@.push(c),
{
    s.push(c);
}

/// The characters of `s`, in order.
pub fn to_chars(s: &str) -> (res: Vec<char>)
    ensures
        res@ == s@,
{
    let mut res: Vec<char> = Vec::new();
    for c in it: s.chars()
        invariant
            res@ == it.seq().take(it.index() as int),
            it.seq() == s@,
    {
        res.push(c);
        assert(res@ =~= it.seq().take(it.index() as int + 1));
    }
    assert(res@ =~= s@);
    res
}

/// A string holding exactly these characters.
pub fn from_chars(v: &[char]) -> (res: String)
    ensures
        res@ == v@,
{
    let mut res = String::new();
    let mut i: usize = 0;
    while i < v.len()
        invariant
            i <= v.len(),
            res@ == v@.take(i as int),
        decreases v.len() - i,
    {
        push_char(&mut res, v[i]);
        assert(res@ =~= v@.take(i as int + 1));
        i += 1;
    }
    assert(v@.take(v.len() as int) =~= v@);
    res
}

} // verus!

verus! {

/// Whether `pat` occurs in `s` starting at position `i`.
pub open spec fn occurs_at(s: Seq<char>, i: int, pat: Seq<char>) -> bool {
    0 <= i && i + pat.len() <= s.len() && s.subrange(i, i + pat.len()) == pat
}

/// Whether `pat` occurs anywhere in `s`.
pub open spec fn contains_text(s: Seq<char>, pat: Seq<char>) -> bool {
    exists|i: int| occurs_at(s, i, pat)
}

/// `s` with every occurrence of `pat` replaced by `rep`, scanning left to right without
/// overlaps, as `str::replace` does for a non-empty pattern.
pub open spec fn replace_all(s: Seq<char>, pat: Seq<char>, rep: Seq<char>) -> Seq<char>
    recommends
        pat.len() > 0,
    decreases s.len(),
{
    if s.len() == 0 || pat.len() == 0 {
        s
    } else if occurs_at(s, 0, pat) {
        rep + replace_all(s.skip(pat.len() as int), pat, rep)
    } else {
        seq![s[0]] + replace_all(s.drop_first(), pat, rep)
    }
}

/// Whether `pat` occurs in `v` at `i`.
pub(crate) fn matches_at(v: &Vec<char>, i: usize, pat: &Vec<char>) -> (res: bool)
    ensures
        res == occurs_at(v@, i as int, pat@),
{
    if i > v.len() || pat.len() > v.len() - i {
        return false;
    }
    let mut k: usize = 0;
    while k < pat.len()
        invariant
            i + pat.len() <= v.len(),
            k <= pat.len(),
            forall|j: int| 0 <= j < k ==> v@[i + j] == pat@[j],
        decreases pat.len() - k,
    {
        if v[i + k] != pat[k] {
            assert(v@.subrange(i as int, i + pat.len())[k as int] != pat@[k as int]);
            return false;
        }
        k += 1;
    }
    assert(v@.subrange(i as int, i + pat.len()) =~= pat@);
    true
}

/// Whether `pat` occurs anywhere in `text`.
pub fn contains_str(text: &str, pat: &str) -> (res: bool)
    ensures
        res == contains_text(text@, pat@),
{
    let v = to_chars(text);
    let p = to_chars(pat);
    if p.len() == 0 {
        assert(occurs_at(v@, 0, p@)) by {
            assert(v@.subrange(0, 0) =~= p@);
        }
        return true;
    }
    let mut i: usize = 0;
    while i < v.len()
        invariant
            v@ == text@,
            p@ == pat@,
            i <= v.len(),
            forall|j: int| 0 <= j < i ==> !occurs_at(v@, j, p@),
        decreases v.len() - i,
    {
        if matches_at(&v, i, &p) {
            return true;
        }
        i += 1;
    }
    false
}

proof fn lemma_replace_all_step(s: Seq<char>, pat: Seq<char>, rep: Seq<char>, i: int)
    requires
        pat.len() > 0,
        0 <= i < s.len(),
    ensures
        replace_all(s.skip(i), pat, rep) == if occurs_at(s, i, pat) {
            rep + replace_all(s.skip(i + pat.len()), pat, rep)
        } else {
            seq![s[i]] + replace_all(s.skip(i + 1), pat, rep)
        },
{
    let t = s.skip(i);
    assert(t.len() > 0);
    if occurs_at(s, i, pat) {
        assert(t.subrange(0, pat.len() as int) =~= s.subrange(i, i + pat.len()));
        assert(t.skip(pat.len() as int) =~= s.skip(i + pat.len()));
    } else {
        if i + pat.len() <= s.len() {
            assert(t.subrange(0, pat.len() as int) =~= s.subrange(i, i + pat.len()));
        }
        assert(t.drop_first() =~= s.skip(i + 1));
    }
}

/// `text` with every `pat` replaced by `rep`, for a non-empty pattern (as `str::replace`).
pub(crate) fn replace_str(text: &str, pat: &str, rep: &str) -> (res: String)
    requires
        pat@.len() > 0,
    ensures
        res@ == replace_all(text@, pat@, rep@),
{
    let v = to_chars(text);
    let p = to_chars(pat);
    let mut out = String::new();
    let mut i: usize = 0;
    assert(v@.skip(0) =~= v@);
    while i < v.len()
        invariant
            v@ == text@,
            p@ == pat@,
            p@.len() > 0,
            i <= v.len(),
            out@ + replace_all(v@.skip(i as int), p@, rep@) == replace_all(v@, p@, rep@),
        decreases v.len() - i,
    {
        proof { lemma_replace_all_step(v@, p@, rep@, i as int); }
        let ghost before = out@;
        if matches_at(&v, i, &p) {
            out.append(rep);
            assert(out@ + replace_all(v@.skip(i + p@.len()), p@, rep@) =~= before + replace_all(
                v@.skip(i as int),
                p@,
                rep@,
            ));
            i += p.len();
        } else {
            push_char(&mut out, v[i]);
            assert(out@ + replace_all(v@.skip(i + 1), p@, rep@) =~= before + replace_all(
                v@.skip(i as int),
                p@,
                rep@,
            ));
            i += 1;
        }
    }
    assert(v@.skip(i as int).len() == 0);
    assert(out@ + Seq::<char>::empty() =~= out@);
    out
}

/// The text `str::to_lowercase` makes of `s` (Unicode lower-casing, which can change the
/// length).
pub uninterp spec fn lowercase(s: Seq<char>) -> Seq<char>;

/// `str::to_lowercase`. Claimed: the result is the named `lowercase` of the text.
#[verifier::external_body]
pub(crate) fn to_lowercase(s: &str) -> (res: String)
    ensures
        res@ == lowercase(s@),
{
    s.to_lowercase()
}

} // verus!

verus! {

/// The character for a decimal digit.
pub open spec fn digit_char(d: nat) -> char {
    if d == 0 { '0' } else if d == 1 { '1' } else if d == 2 { '2' } else if d == 3 { '3' } else if d == 4 {
        '4'
    } else if d == 5 { '5' } else if d == 6 { '6' } else if d == 7 { '7' } else if d == 8 { '8' } else {
        '9'
    }
}

/// `n` written in decimal, without leading zeros.
pub open spec fn decimal(n: nat) -> Seq<char>
    decreases n,
{
    if n < 10 {
        seq![digit_char(n)]
    } else {
        decimal(n / 10).push(digit_char(n % 10))
    }
}

pub(crate) fn digit(d: u64) -> (res: char)
    requires
        d < 10,
    ensures
        res == digit_char(d as nat),
{
    if d == 0 { '0' } else if d == 1 { '1' } else if d == 2 { '2' } else if d == 3 { '3' } else if d == 4 {
        '4'
    } else if d == 5 { '5' } else if d == 6 { '6' } else if d == 7 { '7' } else if d == 8 { '8' } else {
        '9'
    }
}

/// Appends `n` in decimal to `out`.
pub fn push_decimal(out: &mut String, n: u64)
    ensures
        final(out)@ == old(out)@ + decimal(n as nat),
    decreases n,
{
    if n >= 10 {
        push_decimal(out, n / 10);
    }
    push_char(out, digit(n % 10));
    proof {
        if n >= 10 {
            assert(decimal(n as nat) == decimal((n / 10) as nat).push(digit_char((n % 10) as nat)));
        }
    }
    assert(out@ =~= old(out)@ + decimal(n as nat)) by {
        if n < 10 {
            assert(n % 10 == n);
        }
    }
}

/// Appends `n` in decimal, for values wider than 64 bits.
pub fn push_decimal_wide(out: &mut String, n: u128)
    ensures
        final(out)@ == old(out)@ + decimal(n as nat),
    decreases n,
{
    if n >= 10 {
        push_decimal_wide(out, n / 10);
    }
    push_char(out, digit((n % 10) as u64));
    proof {
        if n >= 10 {
            assert(decimal(n as nat) == decimal((n / 10) as nat).push(digit_char((n % 10) as nat)));
        }
    }
    assert(out@ =~= old(out)@ + decimal(n as nat)) by {
        if n < 10 {
            assert(n % 10 == n);
        }
    }
}

/// The first position of `c` in `s`.
pub open spec fn find_char(s: Seq<char>, c: char) -> Option<int>
    decreases s.len(),
{
    if s.len() == 0 {
        None
    } else if s[0] == c {
        Some(0)
    } else {
        match find_char(s.drop_first(), c) {
            Some(i) => Some(i + 1),
            None => None,
        }
    }
}

pub proof fn lemma_find_char(s: Seq<char>, c: char)
    ensures
        match find_char(s, c) {
            Some(i) => 0 <= i < s.len() && s[i] == c && forall|j: int| 0 <= j < i ==> s[j] != c,
            None => forall|j: int| 0 <= j < s.len() ==> s[j] != c,
        },
    decreases s.len(),
{
    if s.len() > 0 && s[0] != c {
        lemma_find_char(s.drop_first(), c);
        assert forall|j: int| 0 < j < s.len() implies s[j] == s.drop_first()[j - 1] by {}
    }
}

/// `find_char` is pinned down by its characterisation.
pub proof fn lemma_find_char_at(s: Seq<char>, c: char, i: int)
    requires
        0 <= i < s.len(),
        s[i] == c,
        forall|j: int| 0 <= j < i ==> s[j] != c,
    ensures
        find_char(s, c) == Some(i),
{
    lemma_find_char(s, c);
}

pub proof fn lemma_find_char_none(s: Seq<char>, c: char)
    requires
        forall|j: int| 0 <= j < s.len() ==> s[j] != c,
    ensures
        find_char(s, c) is None,
{
    lemma_find_char(s, c);
}

/// The first position where `pat` occurs in `s`.
pub open spec fn find_text(s: Seq<char>, pat: Seq<char>) -> Option<int>
    decreases s.len(),
{
    if occurs_at(s, 0, pat) {
        Some(0)
    } else if s.len() == 0 {
        None
    } else {
        match find_text(s.drop_first(), pat) {
            Some(i) => Some(i + 1),
            None => None,
        }
    }
}

proof fn lemma_occurs_shift(s: Seq<char>, pat: Seq<char>, j: int)
    requires
        s.len() > 0,
        0 <= j,
    ensures
        occurs_at(s.drop_first(), j, pat) == occurs_at(s, j + 1, pat),
{
    if j + pat.len() <= s.drop_first().len() {
        assert(s.drop_first().subrange(j, j + pat.len()) =~= s.subrange(j + 1, j + 1 + pat.len()));
    }
}

pub proof fn lemma_find_text(s: Seq<char>, pat: Seq<char>)
    ensures
        match find_text(s, pat) {
            Some(i) => 0 <= i && i + pat.len() <= s.len() && occurs_at(s, i, pat) && forall|j: int|
                0 <= j < i ==> !occurs_at(s, j, pat),
            None => forall|j: int| 0 <= j ==> !occurs_at(s, j, pat),
        },
    decreases s.len(),
{
    if !occurs_at(s, 0, pat) && s.len() > 0 {
        lemma_find_text(s.drop_first(), pat);
        assert forall|j: int| 0 < j implies occurs_at(s, j, pat) == occurs_at(s.drop_first(), j - 1, pat) by {
            lemma_occurs_shift(s, pat, j - 1);
        }
    }
}

/// The first position of `c` in `v` at or after `from`, as a position in `v`.
pub(crate) fn find_char_from(v: &Vec<char>, from: usize, c: char) -> (res: Option<usize>)
    requires
        from <= v.len(),
    ensures
        match res {
            Some(i) => from <= i < v.len() && find_char(v@.skip(from as int), c) == Some(i - from),
            None => find_char(v@.skip(from as int), c) is None,
        },
{
    let mut k = from;
    while k < v.len()
        invariant
            from <= k <= v.len(),
            forall|j: int| from <= j < k ==> v@[j] != c,
        decreases v.len() - k,
    {
        if v[k] == c {
            proof {
                lemma_find_char_at(v@.skip(from as int), c, k - from);
            }
            return Some(k);
        }
        k += 1;
    }
    proof {
        lemma_find_char_none(v@.skip(from as int), c);
    }
    None
}

/// The first position where `pat` occurs in `v` at or after `from`, as a position in `v`.
pub(crate) fn find_text_from(v: &Vec<char>, from: usize, pat: &Vec<char>) -> (res: Option<usize>)
    requires
        from <= v.len(),
        pat@.len() > 0,
    ensures
        match res {
            Some(i) => from <= i && i + pat@.len() <= v.len() && find_text(v@.skip(from as int), pat@)
                == Some(i - from),
            None => find_text(v@.skip(from as int), pat@) is None,
        },
{
    let ghost t = v@.skip(from as int);
    assert forall|j: int| 0 <= j implies #[trigger] occurs_at(t, j, pat@) == occurs_at(v@, from + j, pat@) by {
        if j + pat@.len() <= t.len() {
            assert(t.subrange(j, j + pat@.len()) =~= v@.subrange(from + j, from + j + pat@.len()));
        }
    }
    proof {
        lemma_find_text(t, pat@);
    }
    let mut k = from;
    while k < v.len()
        invariant
            from <= k <= v.len(),
            pat@.len() > 0,
            t == v@.skip(from as int),
            forall|j: int| 0 <= j ==> #[trigger] occurs_at(t, j, pat@) == occurs_at(v@, from + j, pat@),
            forall|j: int| from <= j < k ==> !occurs_at(v@, j, pat@),
            match find_text(t, pat@) {
                Some(i) => 0 <= i && i + pat@.len() <= t.len() && occurs_at(t, i, pat@) && forall|j: int|
                    0 <= j < i ==> !occurs_at(t, j, pat@),
                None => forall|j: int| 0 <= j ==> !occurs_at(t, j, pat@),
            },
        decreases v.len() - k,
    {
        if matches_at(v, k, pat) {
            proof {
                assert(occurs_at(t, k - from, pat@));
                match find_text(t, pat@) {
                    Some(i) => {
                        assert(occurs_at(t, i, pat@));
                        if i < k - from {
                            assert(occurs_at(v@, from + i, pat@));
                        }
                        assert(i == k - from);
                    },
                    None => {},
                }
            }
            return Some(k);
        }
        k += 1;
    }
    proof {
        match find_text(t, pat@) {
            Some(i) => {
                assert(occurs_at(t, i, pat@));
                assert(occurs_at(v@, from + i, pat@));
            },
            None => {},
        }
    }
    None
}

} // verus!
