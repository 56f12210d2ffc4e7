//! Decimal rendering and list joining for the human-readable texts of the library.

use vstd::prelude::*;

verus! {

/// Text of one decimal digit.
pub open spec fn digit_text(d: int) -> Seq<char> {
    if d == 0 {
        "0"@
    } else if d == 1 {
        "1"@
    } else if d == 2 {
        "2"@
    } else if d == 3 {
        "3"@
    } else if d == 4 {
        "4"@
    } else if d == 5 {
        "5"@
    } else if d == 6 {
        "6"@
    } else if d == 7 {
        "7"@
    } else if d == 8 {
        "8"@
    } else {
        "9"@
    }
}

/// Decimal text of a natural number (no leading zeros).
pub open spec fn decimal(n: nat) -> Seq<char>
    decreases n,
{
    if n < 10 {
        digit_text(n as int)
    } else {
        decimal(n / 10) + digit_text((n % 10) as int)
    }
}

/// `items` separated by `sep`.
pub open spec fn join(items: Seq<Seq<char>>, sep: Seq<char>) -> Seq<char>
    decreases items.len(),
{
    if items.len() == 0 {
        Seq::empty()
    } else if items.len() == 1 {
        items[0]
    } else {
        join(items.drop_last(), sep) + sep + items.last()
    }
}

/// Joining one more item appends the separator (when not first) and the item.
pub proof fn lemma_join_push(items: Seq<Seq<char>>, sep: Seq<char>, x: Seq<char>)
    ensures
        join(items.push(x), sep) == if items.len() == 0 {
            x
        } else {
            join(items, sep) + sep + x
        },
{
    assert(items.push(x).drop_last() =~= items);
}

fn digit_str(d: u64) -> (s: &'static str)
    requires
        d < 10,
    ensures
        s@ == digit_text(d as int),
{
    if d == 0 {
        "0"
    } else if d == 1 {
        "1"
    } else if d == 2 {
        "2"
    } else if d == 3 {
        "3"
    } else if d == 4 {
        "4"
    } else if d == 5 {
        "5"
    } else if d == 6 {
        "6"
    } else if d == 7 {
        "7"
    } else if d == 8 {
        "8"
    } else {
        "9"
    }
}

/// Appends the decimal text of `n`.
pub fn push_decimal(s: &mut String, n: u64)
    ensures
        final(s)@ == old(s)@ + decimal(n as nat),
    decreases n,
{
    if n >= 10 {
        push_decimal(s, n / 10);
    }
    s.append(digit_str(n % 10));
    assert(s@ =~= old(s)@ + decimal(n as nat));
}

/// Appends a literal.
pub fn push_str(s: &mut String, t: &str)
    ensures
        final(s)@ == old(s)@ + t@,
{
    s.append(t);
}

/// The decimal text of `n` as a new string.
pub fn decimal_string(n: u64) -> (s: String)
    ensures
        s@ == decimal(n as nat),
{
    let mut s = String::new();
    push_decimal(&mut s, n);
    assert(s@ =~= decimal(n as nat));
    s
}

/// Text of a list of ids, each written as `prefix` and its decimal number, separated by `sep`.
pub open spec fn id_list_text(ids: Seq<u8>, prefix: Seq<char>, sep: Seq<char>) -> Seq<char> {
    join(ids.map_values(|x: u8| prefix + decimal(x as nat)), sep)
}

/// Appends [`id_list_text`].
pub fn push_id_list(s: &mut String, ids: &Vec<u8>, prefix: &str, sep: &str)
    ensures
        final(s)@ == old(s)@ + id_list_text(ids@, prefix@, sep@),
{
    let ghost start = s@;
    let ghost f = |x: u8| prefix@ + decimal(x as nat);
    let mut i: usize = 0;
    while i < ids.len()
        invariant
            0 <= i <= ids@.len(),
            f == (|x: u8| prefix@ + decimal(x as nat)),
            s@ == start + join(ids@.take(i as int).map_values(f), sep@),
        decreases ids.len() - i,
    {
        let ghost before = s@;
        if i > 0 {
            push_str(s, sep);
        }
        push_str(s, prefix);
        push_decimal(s, ids[i] as u64);
        proof {
            let items = ids@.take(i as int).map_values(f);
            assert(ids@.take(i + 1).map_values(f) =~= items.push(f(ids@[i as int])));
            lemma_join_push(items, sep@, f(ids@[i as int]));
            if i == 0 {
                assert(s@ =~= start + f(ids@[i as int]));
            } else {
                assert(s@ =~= start + join(items, sep@) + sep@ + f(ids@[i as int]));
            }
        }
        i = i + 1;
    }
    assert(ids@.take(ids.len() as int) =~= ids@);
}


/// Lower-case form of a text, as `str::to_lowercase` computes it (Unicode rules).
pub uninterp spec fn lowercase(s: Seq<char>) -> Seq<char>;

/// Lower-cases a text with `str::to_lowercase`; the result is named [`lowercase`].
#[verifier::external_body]
pub(crate) fn to_lowercase(s: &str) -> (r: String)
    ensures
        r@ == lowercase(s@),
{
    s.to_lowercase()
}


/// Text of a string as `{:?}` formats it: in double quotes, with quotes, backslashes and
/// special characters escaped.
pub uninterp spec fn debug_text(s: Seq<char>) -> Seq<char>;

/// Formats a string with `{:?}`; the result is named [`debug_text`].
#[verifier::external_body]
pub(crate) fn debug_quote(s: &str) -> (r: String)
    ensures
        r@ == debug_text(s@),
{
    format!("{:?}", s)
}

} // verus!
