//! Reading whole numbers typed by the user.
use crate::text::{decimal, digit_char, push_str};
use vstd::prelude::*;

verus! {

/// The characters that `char::is_whitespace` accepts: those with the Unicode
/// White_Space property.
pub open spec fn is_white_space(c: char) -> bool {
    ||| c == '\t' || c == '\n' || c == '\u{b}' || c == '\u{c}' || c == '\r' || c == ' '
    ||| c == '\u{85}' || c == '\u{a0}' || c == '\u{1680}'
    ||| '\u{2000}' <= c <= '\u{200a}'
    ||| c == '\u{2028}' || c == '\u{2029}' || c == '\u{202f}' || c == '\u{205f}' || c == '\u{3000}'
}

/// The text without its leading white space.
pub open spec fn trim_start(s: Seq<char>) -> Seq<char>
    decreases s.len(),
{
    if s.len() > 0 && is_white_space(s[0]) { trim_start(s.drop_first()) } else { s }
}

/// The text without its trailing white space.
pub open spec fn trim_end(s: Seq<char>) -> Seq<char>
    decreases s.len(),
{
    if s.len() > 0 && is_white_space(s.last()) { trim_end(s.drop_last()) } else { s }
}

/// The text without white space at either end.
pub open spec fn trimmed(s: Seq<char>) -> Seq<char> {
    trim_end(trim_start(s))
}

/// Every character is a decimal digit.
pub open spec fn all_digits(s: Seq<char>) -> bool {
    forall|i: int| 0 <= i < s.len() ==> '0' <= #[trigger] s[i] <= '9'
}

/// The number the decimal digits spell.
pub open spec fn digits_value(s: Seq<char>) -> nat
    decreases s.len(),
{
    if s.len() == 0 { 0 } else { digits_value(s.drop_last()) * 10 + ((s.last() as nat) - ('0' as nat)) as nat }
}

/// The digits of an unsigned number: the text after one optional `+`.
pub open spec fn unsigned_digits(t: Seq<char>) -> Seq<char> {
    if t.len() > 0 && t[0] == '+' { t.drop_first() } else { t }
}

/// The whole number that the text spells once trimmed, as Rust reads an unsigned
/// integer no larger than `limit`: an optional `+` and at least one digit.
pub open spec fn whole_number(s: Seq<char>, limit: nat) -> Option<nat> {
    let d = unsigned_digits(trimmed(s));
    if d.len() > 0 && all_digits(d) && digits_value(d) <= limit { Some(digits_value(d)) } else { None }
}

/// The characters of a string, in order.
pub fn chars_of(s: &str) -> (v: Vec<char>)
    ensures
        v@ == s@,
{
    broadcast use vstd::string::axiom_spec_iter;
    let mut v: Vec<char> = Vec::new();
    for c in it: s.chars()
        invariant
            v@ == it.seq().take(it.index() as int),
            it.seq() == s@,
    {
        v.push(c);
    }
    v
}

/// Whether the character has the Unicode White_Space property.
fn white_space(c: char) -> (r: bool)
    ensures
        r == is_white_space(c),
{
    c == '\t' || c == '\n' || c == '\u{b}' || c == '\u{c}' || c == '\r' || c == ' ' || c == '\u{85}' || c == '\u{a0}'
        || c == '\u{1680}' || ('\u{2000}' <= c && c <= '\u{200a}') || c == '\u{2028}' || c == '\u{2029}' || c == '\u{202f}'
        || c == '\u{205f}' || c == '\u{3000}'
}

proof fn lemma_trim_start(s: Seq<char>, i: int)
    requires
        0 <= i <= s.len(),
        forall|k: int| 0 <= k < i ==> is_white_space(#[trigger] s[k]),
    ensures
        trim_start(s) == trim_start(s.subrange(i, s.len() as int)),
    decreases i,
{
    if i > 0 {
        assert(is_white_space(s[0]));
        let r = s.drop_first();
        assert forall|k: int| 0 <= k < i - 1 implies is_white_space(#[trigger] r[k]) by {
            assert(r[k] == s[k + 1]);
        }
        assert(r.subrange(i - 1, r.len() as int) =~= s.subrange(i, s.len() as int));
        lemma_trim_start(r, i - 1);
    } else {
        assert(s.subrange(0, s.len() as int) =~= s);
    }
}

proof fn lemma_trim_end(s: Seq<char>, j: int)
    requires
        0 <= j <= s.len(),
        forall|k: int| j <= k < s.len() ==> is_white_space(#[trigger] s[k]),
    ensures
        trim_end(s) == trim_end(s.subrange(0, j)),
    decreases s.len() - j,
{
    if j < s.len() {
        assert(is_white_space(s[s.len() - 1]));
        let r = s.drop_last();
        assert forall|k: int| j <= k < r.len() implies is_white_space(#[trigger] r[k]) by {
            assert(r[k] == s[k]);
        }
        assert(r.subrange(0, j) =~= s.subrange(0, j));
        lemma_trim_end(r, j);
    } else {
        assert(s.subrange(0, j) =~= s);
    }
}

proof fn lemma_digits_grow(s: Seq<char>, k: int)
    requires
        0 <= k <= s.len(),
        all_digits(s),
    ensures
        digits_value(s.take(k)) <= digits_value(s),
    decreases s.len() - k,
{
    if k < s.len() {
        assert(s.take(k + 1).drop_last() =~= s.take(k));
        assert('0' <= s[k] <= '9');
        assert(s.take(k + 1).last() == s[k]);
        assert(digits_value(s.take(k)) <= digits_value(s.take(k + 1)));
        lemma_digits_grow(s, k + 1);
    } else {
        assert(s.take(k) =~= s);
    }
}

/// The whole number that the trimmed text spells, if it is at most `limit`.
pub fn parse_whole(s: &str, limit: u64) -> (r: Option<u64>)
    ensures
        r matches Some(v) ==> whole_number(s@, limit as nat) == Some(v as nat),
        r is None ==> whole_number(s@, limit as nat) is None,
{
    let v = chars_of(s);
    let ghost t = s@;
    let mut start: usize = 0;
    while start < v.len() && white_space(v[start])
        invariant
            start <= v@.len(),
            v@ == t,
            forall|k: int| 0 <= k < start ==> is_white_space(#[trigger] t[k]),
        decreases v@.len() - start,
    {
        start = start + 1;
    }
    proof { lemma_trim_start(t, start as int); }
    let ghost rest = t.subrange(start as int, t.len() as int);
    let mut end: usize = v.len();
    while end > start && white_space(v[end - 1])
        invariant
            start <= end <= v@.len(),
            v@ == t,
            rest == t.subrange(start as int, t.len() as int),
            forall|k: int| end <= k < t.len() ==> is_white_space(#[trigger] t[k]),
        decreases end,
    {
        end = end - 1;
    }
    proof {
        assert forall|k: int| end - start <= k < rest.len() implies is_white_space(#[trigger] rest[k]) by {
            assert(rest[k] == t[k + start]);
        }
        lemma_trim_end(rest, end - start);
        assert(rest.subrange(0, end - start) =~= t.subrange(start as int, end as int));
        if end > start {
            assert(!is_white_space(t[start as int]));
            assert(rest[0] == t[start as int]);
        } else {
            assert(rest.subrange(0, 0) =~= Seq::<char>::empty());
        }
    }
    let ghost tr = t.subrange(start as int, end as int);
    proof {
        if end > start {
            assert(trim_start(rest) == rest);
        } else {
            assert(trim_end(Seq::<char>::empty()) == Seq::<char>::empty());
        }
        assert(trimmed(t) == tr);
    }
    let mut i: usize = start;
    if i < end && v[i] == '+' {
        i = i + 1;
    }
    let ghost d = t.subrange(i as int, end as int);
    proof {
        assert(unsigned_digits(tr) =~= d);
    }
    if i == end {
        return None;
    }
    let mut value: u64 = 0;
    let mut k: usize = i;
    while k < end
        invariant
            i <= k <= end <= v@.len(),
            v@ == t,
            d == t.subrange(i as int, end as int),
            t == s@,
            unsigned_digits(trimmed(t)) == d,
            all_digits(d.take(k - i)),
            value == digits_value(d.take(k - i)),
            value <= limit,
        decreases end - k,
    {
        let c = v[k];
        if c < '0' || c > '9' {
            proof {
                assert(d[k - i] == c);
                assert(!('0' <= d[k - i] <= '9'));
                assert(!all_digits(d));
            }
            return None;
        }
        let digit: u64 = (c as u64) - ('0' as u64);
        proof {
            assert(d.take(k - i + 1).drop_last() =~= d.take(k - i));
            assert(d.take(k - i + 1).last() == c);
        }
        if digit > limit || value > (limit - digit) / 10 {
            proof {
                if digit <= limit {
                    assert(value * 10 + digit > limit) by (nonlinear_arith)
                        requires value > (limit - digit) / 10, digit <= limit;
                }
                assert(digits_value(d.take(k - i + 1)) == value * 10 + digit);
                if all_digits(d) {
                    lemma_digits_grow(d, k - i + 1);
                }
            }
            return None;
        }
        proof {
            assert(value * 10 + digit <= limit) by (nonlinear_arith)
                requires value <= (limit - digit) / 10, digit <= limit;
        }
        value = value * 10 + digit;
        k = k + 1;
    }
    proof { assert(d.take(d.len() as int) =~= d); }
    Some(value)
}


/// The message for a count that is not a whole number.
pub open spec fn count_message(label: Seq<char>) -> Seq<char> {
    label + " must be a non-negative whole number"@
}

/// Reads a count such as a number of draws: the trimmed text must be a whole
/// number that fits in `usize`.
pub fn parse_count(text: &str, label: &str) -> (r: Result<usize, String>)
    ensures
        r is Ok <==> whole_number(text@, usize::MAX as nat) is Some,
        r matches Ok(n) ==> whole_number(text@, usize::MAX as nat) == Some(n as nat),
        r matches Err(m) ==> m@ == count_message(label@),
{
    match parse_whole(text, usize::MAX as u64) {
        Some(v) => Ok(v as usize),
        None => {
            let mut m = String::new();
            push_str(&mut m, label);
            push_str(&mut m, " must be a non-negative whole number");
            proof { reveal_strlit(" must be a non-negative whole number"); }
            Err(m)
        },
    }
}

/// Reads a count that must be at least one.
pub fn parse_positive_count(text: &str, label: &str) -> (r: Result<usize, String>)
    ensures
        r is Ok <==> (whole_number(text@, usize::MAX as nat) matches Some(n) && n > 0),
        r matches Ok(n) ==> whole_number(text@, usize::MAX as nat) == Some(n as nat),
        r matches Err(m) ==> if whole_number(text@, usize::MAX as nat) is None {
            m@ == count_message(label@)
        } else {
            m@ == label@ + " must be greater than zero"@
        },
{
    let value = parse_count(text, label)?;
    if value == 0 {
        let mut m = String::new();
        push_str(&mut m, label);
        push_str(&mut m, " must be greater than zero");
        proof { reveal_strlit(" must be greater than zero"); }
        Err(m)
    } else {
        Ok(value)
    }
}

/// The message for a seed that is neither blank nor a whole number.
pub open spec fn seed_message() -> Seq<char> {
    "Random seed must be a non-negative whole number or blank."@
}

/// Reads a random seed: blank text asks for a fresh seed (`None`), otherwise the
/// trimmed text must be a whole number that fits in `u64`.
pub fn parse_seed(text: &str) -> (r: Result<Option<u64>, String>)
    ensures
        (forall|k: int| 0 <= k < text@.len() ==> is_white_space(#[trigger] text@[k])) ==> r == Ok::<Option<u64>, String>(None),
        !(forall|k: int| 0 <= k < text@.len() ==> is_white_space(#[trigger] text@[k])) ==> {
            &&& r is Ok <==> whole_number(text@, u64::MAX as nat) is Some
            &&& r matches Ok(v) ==> v matches Some(n) && whole_number(text@, u64::MAX as nat) == Some(n as nat)
            &&& r matches Err(m) ==> m@ == seed_message()
        },
{
    let v = chars_of(text);
    let mut k: usize = 0;
    while k < v.len() && white_space(v[k])
        invariant
            k <= v@.len(),
            v@ == text@,
            forall|q: int| 0 <= q < k ==> is_white_space(#[trigger] text@[q]),
        decreases v@.len() - k,
    {
        k = k + 1;
    }
    if k == v.len() {
        return Ok(None);
    }
    proof { assert(!is_white_space(text@[k as int])); }
    match parse_whole(text, u64::MAX) {
        Some(n) => Ok(Some(n)),
        None => {
            let m = String::from_str("Random seed must be a non-negative whole number or blank.");
            Err(m)
        },
    }
}


proof fn lemma_decimal_digits(n: nat)
    ensures
        decimal(n).len() > 0,
        all_digits(decimal(n)),
        digits_value(decimal(n)) == n,
        '0' <= decimal(n)[0] <= '9',
    decreases n,
{
    let d = digit_char(n % 10);
    assert((d as nat) - ('0' as nat) == n % 10);
    if n < 10 {
        let s = decimal(n);
        assert(s.drop_last() =~= Seq::<char>::empty());
        assert(s.last() == d);
        assert(digits_value(s) == digits_value(s.drop_last()) * 10 + ((s.last() as nat) - ('0' as nat)) as nat);
    } else {
        lemma_decimal_digits(n / 10);
        let s = decimal(n);
        let t = decimal(n / 10);
        assert(s.drop_last() =~= t);
        assert(s.last() == d);
        assert(n == (n / 10) * 10 + n % 10) by (nonlinear_arith);
        assert(digits_value(s) == digits_value(s.drop_last()) * 10 + ((s.last() as nat) - ('0' as nat)) as nat);
        assert(s[0] == t[0]);
        assert forall|i: int| 0 <= i < s.len() implies '0' <= #[trigger] s[i] <= '9' by {
            if i < t.len() { assert(s[i] == t[i]); }
        }
    }
}

/// A number written in decimal reads back as itself, whatever white space
/// surrounds it, as long as it is within the limit.
pub proof fn lemma_decimal_reads_back(n: nat, limit: nat, before: Seq<char>, after: Seq<char>)
    requires
        n <= limit,
        forall|i: int| 0 <= i < before.len() ==> is_white_space(#[trigger] before[i]),
        forall|i: int| 0 <= i < after.len() ==> is_white_space(#[trigger] after[i]),
    ensures
        whole_number(before + decimal(n) + after, limit) == Some(n),
{
    lemma_decimal_digits(n);
    let text = decimal(n);
    let s = before + text + after;
    assert forall|k: int| 0 <= k < before.len() implies is_white_space(#[trigger] s[k]) by {
        assert(s[k] == before[k]);
    }
    lemma_trim_start(s, before.len() as int);
    let rest = s.subrange(before.len() as int, s.len() as int);
    assert(rest =~= text + after);
    assert(rest[0] == text[0]);
    assert(!is_white_space(rest[0]));
    assert(trim_start(rest) == rest);
    assert forall|k: int| text.len() <= k < rest.len() implies is_white_space(#[trigger] rest[k]) by {
        assert(rest[k] == after[k - text.len()]);
    }
    lemma_trim_end(rest, text.len() as int);
    assert(rest.subrange(0, text.len() as int) =~= text);
    assert(text.last() == text[text.len() - 1]);
    assert('0' <= text[text.len() - 1] <= '9');
    assert(trim_end(text) == text);
    assert(trimmed(s) == text);
    assert(unsigned_digits(text) == text);
}

/// The whole number the text spells exactly as typed, with no white space
/// around it: an optional `+` and at least one digit, no larger than `limit`.
pub open spec fn plain_whole_number(s: Seq<char>, limit: nat) -> Option<nat> {
    let d = unsigned_digits(s);
    if d.len() > 0 && all_digits(d) && digits_value(d) <= limit { Some(digits_value(d)) } else { None }
}

/// Reads a plate size typed by the user, exactly as typed: white space around
/// the number makes it unreadable.
pub fn typed_plate_size(text: &str) -> (size: Option<usize>)
    ensures
        size matches Some(n) ==> plain_whole_number(text@, usize::MAX as nat) == Some(n as nat),
        size is None ==> plain_whole_number(text@, usize::MAX as nat) is None,
{
    let v = chars_of(text);
    let ghost s = text@;
    if v.len() == 0 {
        return None;
    }
    let last = v.len() - 1;
    if white_space(v[0]) || white_space(v[last]) {
        proof {
            let d = unsigned_digits(s);
            if d.len() > 0 && all_digits(d) {
                if is_white_space(s[0]) {
                    assert(s[0] != '+');
                    assert(d == s);
                    assert('0' <= d[0] <= '9');
                } else {
                    assert(d[d.len() - 1] == s[s.len() - 1]);
                    assert('0' <= d[d.len() - 1] <= '9');
                }
            }
        }
        return None;
    }
    proof {
        assert(trim_start(s) == s);
        assert(trim_end(s) == s);
    }
    match parse_whole(text, usize::MAX as u64) {
        Some(n) => Some(n as usize),
        None => None,
    }
}

} // verus!
