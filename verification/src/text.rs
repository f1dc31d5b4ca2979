use vstd::prelude::*;

verus! {

/// The decimal digits of a number, most significant first.
pub open spec fn decimal(n: nat) -> Seq<char>
    decreases n,
{
    if n < 10 {
        seq![(n + 48) as char]
    } else {
        decimal(n / 10).push(((n % 10) + 48) as char)
    }
}

/// `usize::to_string`: the documented `Display` of an unsigned integer, its
/// decimal digits. Claimed: the result is `decimal(n)`.
#[verifier::external_body]
pub(crate) fn decimal_text(n: usize) -> (res: String)
    ensures
        res@ == decimal(n as nat),
{
    n.to_string()
}


/// A string made of the characters of a literal.
pub fn owned(s: &str) -> (res: String)
    ensures
        res@ == s@,
{
    s.to_owned()
}

/// `a` followed by `b`.
pub fn joined(a: String, b: &str) -> (res: String)
    ensures
        res@ == a@ + b@,
{
    let mut r = a;
    r.append(b);
    r
}

/// Whether two strings hold the same characters.
pub fn same_text(a: &str, b: &str) -> (res: bool)
    ensures
        res == (a@ == b@),
{
    broadcast use vstd::utf8::encode_utf8_decode_utf8;
    let x = a.as_bytes();
    let y = b.as_bytes();
    proof {
        assert(x@ == vstd::utf8::encode_utf8(a@));
        assert(y@ == vstd::utf8::encode_utf8(b@));
    }
    if x.len() != y.len() {
        return false;
    }
    let mut i: usize = 0;
    while i < x.len()
        invariant
            x@.len() == y@.len(),
            x@ == vstd::utf8::encode_utf8(a@),
            y@ == vstd::utf8::encode_utf8(b@),
            i <= x@.len(),
            forall|j: int| 0 <= j < i ==> x@[j] == y@[j],
        decreases x@.len() - i,
    {
        if x[i] != y[i] {
            return false;
        }
        i = i + 1;
    }
    assert(x@ =~= y@);
    proof {
        vstd::utf8::encode_utf8_decode_utf8(a@);
        vstd::utf8::encode_utf8_decode_utf8(b@);
    }
    true
}

} // verus!
