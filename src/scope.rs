use vstd::prelude::*;

use crate::text::chars_of;

verus! {

/// The index of the first `/` at or after `i`, or -1.
pub open spec fn slash_from(s: Seq<char>, i: int) -> int
    decreases s.len() - i,
{
    if i < 0 || i >= s.len() {
        -1
    } else if s[i] == '/' {
        i
    } else {
        slash_from(s, i + 1)
    }
}

/// The scope of a package name: the text between a leading `@` and the
/// first `/`; none where the name has no such form.
pub open spec fn scope_of(package_name: Seq<char>) -> Option<Seq<char>> {
    if package_name.len() > 0 && package_name[0] == '@' && slash_from(package_name, 1) >= 1 {
        Some(package_name.subrange(1, slash_from(package_name, 1)))
    } else {
        None
    }
}

proof fn lemma_slash_from_bounds(s: Seq<char>, i: int)
    requires
        0 <= i,
    ensures
        slash_from(s, i) == -1 || (i <= slash_from(s, i) < s.len()),
    decreases s.len() - i,
{
    if i < s.len() && s[i] != '/' {
        lemma_slash_from_bounds(s, i + 1);
    }
}

/// The scope of `package_name`, without its `@`.
pub fn get_scope_name(package_name: &str) -> (r: Option<&str>)
    ensures
        match r {
            Some(s) => scope_of(package_name@) == Some(s@),
            None => scope_of(package_name@).is_none(),
        },
{
    let chars = chars_of(package_name);
    if chars.len() == 0 || chars[0] != '@' {
        return None;
    }
    proof {
        lemma_slash_from_bounds(chars@, 1);
    }
    let mut i: usize = 1;
    while i < chars.len() && chars[i] != '/'
        invariant
            1 <= i <= chars@.len(),
            slash_from(chars@, i as int) == slash_from(chars@, 1),
        decreases chars@.len() - i,
    {
        i = i + 1;
    }
    if i == chars.len() {
        None
    } else {
        Some(package_name.substring_char(1, i))
    }
}

} // verus!
