//! Decimal and list rendering of identifiers, used by error messages and addresses.
use vstd::prelude::*;

verus! {

/// The ASCII digit for `d`.
pub open spec fn digit_char(d: nat) -> char {
    if d == 0 { '0' } else if d == 1 { '1' } else if d == 2 { '2' } else if d == 3 { '3' }
    else if d == 4 { '4' } else if d == 5 { '5' } else if d == 6 { '6' } else if d == 7 { '7' }
    else if d == 8 { '8' } else { '9' }
}

/// The decimal notation of `n`, without leading zeros.
pub open spec fn decimal(n: nat) -> Seq<char>
    decreases n,
{
    if n < 10 {
        seq![digit_char(n)]
    } else {
        decimal(n / 10).push(digit_char(n % 10))
    }
}

/// `items` joined by `", "`.
pub open spec fn joined(items: Seq<Seq<char>>) -> Seq<char>
    decreases items.len(),
{
    if items.len() == 0 {
        Seq::empty()
    } else if items.len() == 1 {
        items[0]
    } else {
        joined(items.drop_last()) + ", "@ + items.last()
    }
}

/// A list of ids written as `[a, b, c]`.
pub open spec fn id_list(ids: Seq<u32>) -> Seq<char> {
    "["@ + joined(ids.map_values(|x: u32| decimal(x as nat))) + "]"@
}

/// A list of indices written as `[a, b, c]`.
pub open spec fn index_list(ids: Seq<usize>) -> Seq<char> {
    "["@ + joined(ids.map_values(|x: usize| decimal(x as nat))) + "]"@
}

fn digit_str(d: u64) -> (s: &'static str)
    requires
        d < 10,
    ensures
        s@ == seq![digit_char(d as nat)],
{
    proof {
        reveal_strlit("0");
        reveal_strlit("1");
        reveal_strlit("2");
        reveal_strlit("3");
        reveal_strlit("4");
        reveal_strlit("5");
        reveal_strlit("6");
        reveal_strlit("7");
        reveal_strlit("8");
        reveal_strlit("9");
    }
    if d == 0 { "0" } else if d == 1 { "1" } else if d == 2 { "2" } else if d == 3 { "3" }
    else if d == 4 { "4" } else if d == 5 { "5" } else if d == 6 { "6" } else if d == 7 { "7" }
    else if d == 8 { "8" } else { "9" }
}

/// Appends the decimal notation of `n` to `out`.
pub fn push_decimal(out: &mut String, n: u64)
    ensures
        final(out)@ == old(out)@ + decimal(n as nat),
    decreases n,
{
    if n < 10 {
        out.append(digit_str(n));
    } else {
        push_decimal(out, n / 10);
        out.append(digit_str(n % 10));
        assert(decimal(n as nat) == decimal((n / 10) as nat).push(digit_char((n % 10) as nat)));
    }
}

/// Appends `s` to `out`.
pub fn push_str(out: &mut String, s: &str)
    ensures
        final(out)@ == old(out)@ + s@,
{
    out.append(s);
}

/// Appends `items` written as `[a, b, c]`.
pub fn push_id_list(out: &mut String, ids: &Vec<u32>)
    ensures
        final(out)@ == old(out)@ + id_list(ids@),
{
    let ghost start = out@;
    let ghost items = ids@.map_values(|x: u32| decimal(x as nat));
    proof { reveal_strlit("["); reveal_strlit("]"); reveal_strlit(", "); }
    out.append("[");
    let mut i: usize = 0;
    while i < ids.len()
        invariant
            i <= ids@.len(),
            items == ids@.map_values(|x: u32| decimal(x as nat)),
            out@ == start + "["@ + joined(items.take(i as int)),
        decreases ids@.len() - i,
    {
        let ghost before = out@;
        if i > 0 {
            out.append(", ");
        }
        push_decimal(out, ids[i] as u64);
        proof {
            let t = items.take(i + 1);
            assert(t.drop_last() =~= items.take(i as int));
            assert(t.last() == decimal(ids@[i as int] as nat));
            if i == 0 {
                assert(items.take(0) =~= Seq::<Seq<char>>::empty());
                assert(joined(t) == t[0]);
            }
        }
        i = i + 1;
    }
    assert(items.take(ids@.len() as int) =~= items);
    out.append("]");
}

/// Appends `indices` written as `[a, b, c]`.
pub fn push_index_list(out: &mut String, ids: &Vec<usize>)
    ensures
        final(out)@ == old(out)@ + index_list(ids@),
{
    let ghost start = out@;
    let ghost items = ids@.map_values(|x: usize| decimal(x as nat));
    proof { reveal_strlit("["); reveal_strlit("]"); reveal_strlit(", "); }
    out.append("[");
    let mut i: usize = 0;
    while i < ids.len()
        invariant
            i <= ids@.len(),
            items == ids@.map_values(|x: usize| decimal(x as nat)),
            out@ == start + "["@ + joined(items.take(i as int)),
        decreases ids@.len() - i,
    {
        if i > 0 {
            out.append(", ");
        }
        push_decimal(out, ids[i] as u64);
        proof {
            let t = items.take(i + 1);
            assert(t.drop_last() =~= items.take(i as int));
            assert(t.last() == decimal(ids@[i as int] as nat));
            if i == 0 {
                assert(items.take(0) =~= Seq::<Seq<char>>::empty());
                assert(joined(t) == t[0]);
            }
        }
        i = i + 1;
    }
    assert(items.take(ids@.len() as int) =~= items);
    out.append("]");
}

} // verus!

verus! {

/// The text that Rust's `Debug` formatting produces for a string: the string in
/// double quotes, with quotes, backslashes and control characters escaped.
pub uninterp spec fn debug_text(s: Seq<char>) -> Seq<char>;

/// The text of `s` as Rust's `Debug` formatting renders it.
///
/// Trusted: calls `format!("{:?}", s)` from std; the contract only names the
/// result as a function of the string's characters and says nothing more of the
/// escaping rules.
#[verifier::external_body]
pub(crate) fn debug_str(s: &String) -> (text: String)
    ensures
        text@ == debug_text(s@),
{
    format!("{:?}", s)
}

/// Appends `s` as Rust's `Debug` formatting renders it.
pub fn push_debug_str(out: &mut String, s: &String)
    ensures
        final(out)@ == old(out)@ + debug_text(s@),
{
    let text = debug_str(s);
    out.append(text.as_str());
}

} // verus!
