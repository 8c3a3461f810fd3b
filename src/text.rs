use vstd::prelude::*;

verus! {

/// The characters of `s`, one per element.
pub fn chars_of(s: &str) -> (r: Vec<char>)
    ensures
        r@ == s@,
{
    let n = s.unicode_len();
    let mut out: Vec<char> = Vec::new();
    let mut i: usize = 0;
    while i < n
        invariant
            n == s@.len(),
            i <= n,
            out@ == s@.subrange(0, i as int),
        decreases n - i,
    {
        out.push(s.get_char(i));
        i = i + 1;
    }
    assert(out@ =~= s@);
    out
}

/// Whether `a` holds the first `len` characters of `b`, and nothing else.
pub fn text_eq_prefix(a: &str, b: &Vec<char>, len: usize) -> (r: bool)
    requires
        len <= b@.len(),
    ensures
        r == (a@ == b@.subrange(0, len as int)),
{
    let ac = chars_of(a);
    if ac.len() != len {
        return false;
    }
    let mut i: usize = 0;
    while i < len
        invariant
            ac@ == a@,
            ac@.len() == len,
            len <= b@.len(),
            i <= len,
            forall|k: int| 0 <= k < i ==> ac@[k] == b@[k],
        decreases len - i,
    {
        if ac[i] != b[i] {
            assert(a@[i as int] != b@.subrange(0, len as int)[i as int]);
            return false;
        }
        i = i + 1;
    }
    assert(a@ =~= b@.subrange(0, len as int));
    true
}

/// Whether `a` and `b` hold the same characters.
pub fn text_eq(a: &str, b: &str) -> (r: bool)
    ensures
        r == (a@ == b@),
{
    let bc = chars_of(b);
    assert(bc@.subrange(0, bc@.len() as int) =~= bc@);
    text_eq_prefix(a, &bc, bc.len())
}

/// An owned copy of an optional text.
pub fn clone_text(o: &Option<String>) -> (r: Option<String>)
    ensures
        r == *o,
{
    match o {
        Some(s) => Some(s.clone()),
        None => None,
    }
}

} // verus!
