//! The text of the store's leaves: integers in decimal and vertex labels in
//! bijective base 26 (`a` is vertex 1, `z` is 26, `aa` is 27).

use vstd::prelude::*;
use vstd::string::*;

verus! {

pub open spec fn digit_char(d: nat) -> char {
    seq!['0', '1', '2', '3', '4', '5', '6', '7', '8', '9'][d as int]
}

/// Decimal digits of `n`, most significant first, with no leading zero.
pub open spec fn nat_text(n: nat) -> Seq<char>
    decreases n,
{
    if n < 10 {
        seq![digit_char(n)]
    } else {
        nat_text(n / 10).push(digit_char(n % 10))
    }
}

/// Decimal text of `n`, with a leading `-` when it is negative.
pub open spec fn int_text(n: int) -> Seq<char> {
    if n < 0 {
        seq!['-'] + nat_text((-n) as nat)
    } else {
        nat_text(n as nat)
    }
}

pub open spec fn letter(d: nat) -> char {
    seq!['a', 'b', 'c', 'd', 'e', 'f', 'g', 'h', 'i', 'j', 'k', 'l', 'm', 'n', 'o', 'p', 'q', 'r', 's', 't', 'u', 'v', 'w', 'x', 'y', 'z'][d as int]
}

/// The label of vertex `n` (vertices count from 1).
pub open spec fn label(n: nat) -> Seq<char>
    decreases n,
{
    if n == 0 {
        Seq::empty()
    } else {
        label(((n - 1) as nat) / 26).push(letter(((n - 1) as nat) % 26))
    }
}

proof fn lemma_nat_text_injective(a: nat, b: nat)
    requires
        nat_text(a) == nat_text(b),
    ensures
        a == b,
    decreases a,
{
    let da = nat_text(a);
    let db = nat_text(b);
    if a < 10 && b < 10 {
        assert(da[0] == db[0]);
    } else if a < 10 {
        lemma_nat_text_len(b / 10);
        assert(db.len() >= 2);
    } else if b < 10 {
        lemma_nat_text_len(a / 10);
        assert(da.len() >= 2);
    } else {
        assert(da.drop_last() == nat_text(a / 10));
        assert(db.drop_last() == nat_text(b / 10));
        assert(da.last() == db.last());
        lemma_nat_text_injective(a / 10, b / 10);
    }
}

proof fn lemma_nat_text_len(n: nat)
    ensures
        nat_text(n).len() >= 1,
        nat_text(n)[0] != '-',
    decreases n,
{
    if n >= 10 {
        lemma_nat_text_len(n / 10);
        assert(nat_text(n)[0] == nat_text(n / 10)[0]);
    }
}

/// Two integers with the same decimal text are equal.
pub proof fn lemma_int_text_injective(a: int, b: int)
    requires
        int_text(a) == int_text(b),
    ensures
        a == b,
{
    lemma_nat_text_len(if a < 0 { (-a) as nat } else { a as nat });
    lemma_nat_text_len(if b < 0 { (-b) as nat } else { b as nat });
    if a < 0 && b < 0 {
        assert(int_text(a).drop_first() == nat_text((-a) as nat));
        assert(int_text(b).drop_first() == nat_text((-b) as nat));
        lemma_nat_text_injective((-a) as nat, (-b) as nat);
    } else if a >= 0 && b >= 0 {
        lemma_nat_text_injective(a as nat, b as nat);
    } else if a < 0 {
        assert(int_text(a)[0] == '-');
    } else {
        assert(int_text(b)[0] == '-');
    }
}

/// Relies on the `Display` of `i64` (through `ToString`): decimal, with `-` for negatives.
#[verifier::external_body]
fn i64_to_text(n: i64) -> (r: String)
    ensures
        r@ == int_text(n as int),
{
    n.to_string()
}

/// Relies on `str::parse::<i64>`: it accepts the decimal text of every `i64`.
#[verifier::external_body]
fn parse_i64(s: &str) -> (r: Option<i64>)
    ensures
        forall|v: i64| s@ == int_text(v as int) ==> r == Some(v),
{
    s.parse::<i64>().ok()
}

/// The decimal text of `n`.
pub fn int_to_text(n: i64) -> (r: String)
    ensures
        r@ == int_text(n as int),
{
    i64_to_text(n)
}

/// The decimal text of `n`.
pub fn u64_to_text(n: u64) -> (r: String)
    ensures
        r@ == int_text(n as int),
{
    if n <= 0x7fff_ffff_ffff_ffff {
        return i64_to_text(n as i64);
    }
    let head = i64_to_text((n / 10) as i64);
    let d = (n % 10) as usize;
    let digits = "0123456789";
    proof {
        reveal_strlit("0123456789");
    }
    let tail = digits.substring_char(d, d + 1);
    proof {
        assert(tail@ == seq![digit_char(d as nat)]);
        assert(nat_text(n as nat) == nat_text((n / 10) as nat).push(digit_char((n % 10) as nat)));
    }
    let r = head.concat(tail);
    proof {
        assert(r@ =~= nat_text(n as nat));
    }
    r
}

/// Reads an integer written as `int_text` writes it.
pub fn text_to_int(s: &str) -> (r: Option<i64>)
    ensures
        r matches Some(v) ==> s@ == int_text(v as int),
        (exists|v: i64| s@ == int_text(v as int)) ==> r is Some,
{
    match parse_i64(s) {
        Some(v) => {
            let t = i64_to_text(v);
            let own = s.to_owned();
            if own == t {
                Some(v)
            } else {
                None
            }
        },
        None => None,
    }
}

/// The label of vertex `n`.
pub fn number_to_alphabet(n: usize) -> (r: String)
    ensures
        r@ == label(n as nat),
{
    let letters = "abcdefghijklmnopqrstuvwxyz";
    proof {
        reveal_strlit("abcdefghijklmnopqrstuvwxyz");
    }
    let mut result = String::new();
    let mut num = n;
    assert(label(n as nat) == label(num as nat) + result@);
    while num > 0
        invariant
            label(n as nat) == label(num as nat) + result@,
            letters@ == seq!['a', 'b', 'c', 'd', 'e', 'f', 'g', 'h', 'i', 'j', 'k', 'l', 'm', 'n', 'o', 'p', 'q', 'r', 's', 't', 'u', 'v', 'w', 'x', 'y', 'z'],
        decreases num,
    {
        let d = (num - 1) % 26;
        let piece = letters.substring_char(d, d + 1);
        assert(piece@ == seq![letter(d as nat)]);
        let rest = piece.to_owned().concat(result.as_str());
        proof {
            assert(label(num as nat) == label(((num - 1) / 26) as nat).push(letter(d as nat)));
            assert(rest@ == seq![letter(d as nat)] + result@);
            assert(label(num as nat) + result@ == label(((num - 1) / 26) as nat) + rest@);
        }
        result = rest;
        num = (num - 1) / 26;
    }
    result
}

} // verus!
