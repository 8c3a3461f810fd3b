use vstd::prelude::*;

use crate::text::chars_of;

verus! {

/// A character that ends the name of a placeholder: the closing brace, or one
/// of the characters whose presence makes the span an ordinary text.
pub open spec fn is_name_stop(c: char) -> bool {
    c == '}' || c == '$' || c == '{' || c == '\\'
}

/// The first index at or after `i` that holds a name stop, or `s.len()`.
pub open spec fn stop_from(s: Seq<char>, i: int) -> int
    decreases s.len() - i,
{
    if i >= s.len() {
        s.len() as int
    } else if is_name_stop(s[i]) {
        i
    } else {
        stop_from(s, i + 1)
    }
}

/// `${NAME}` starts at `i`: the name runs up to a `}` and holds no stop.
pub open spec fn placeholder_at(s: Seq<char>, i: int) -> bool {
    &&& 0 <= i
    &&& i + 1 < s.len()
    &&& s[i] == '$'
    &&& s[i + 1] == '{'
    &&& i + 2 <= stop_from(s, i + 2) < s.len()
    &&& s[stop_from(s, i + 2)] == '}'
}

/// A backslash followed by some character starts at `i`.
pub open spec fn escape_at(s: Seq<char>, i: int) -> bool {
    0 <= i && i + 1 < s.len() && s[i] == '\\'
}

/// The text emitted for a placeholder named `name` whose lookup gave `v`.
pub open spec fn placeholder_text(name: Seq<char>, v: Option<Seq<char>>) -> Seq<char> {
    match v {
        Some(value) => value,
        None => seq!['$', '{'] + name + seq!['}'],
    }
}

/// The names of the placeholders met when scanning `s` from `i`, in order.
pub open spec fn names_from(s: Seq<char>, i: int) -> Seq<Seq<char>>
    decreases s.len() - i,
{
    if i < 0 || i >= s.len() {
        Seq::empty()
    } else if escape_at(s, i) {
        names_from(s, i + 2)
    } else if placeholder_at(s, i) {
        let j = stop_from(s, i + 2);
        seq![s.subrange(i + 2, j)] + names_from(s, j + 1)
    } else {
        names_from(s, i + 1)
    }
}

/// The expansion of `s` from `i`, where `vals` holds, in order, what the
/// lookup gave for each placeholder that is met.
pub open spec fn expand_from(s: Seq<char>, i: int, vals: Seq<Option<Seq<char>>>) -> Seq<char>
    decreases s.len() - i,
{
    if i < 0 || i >= s.len() {
        Seq::empty()
    } else if escape_at(s, i) {
        seq![s[i + 1]] + expand_from(s, i + 2, vals)
    } else if placeholder_at(s, i) {
        let j = stop_from(s, i + 2);
        placeholder_text(s.subrange(i + 2, j), vals[0]) + expand_from(s, j + 1, vals.drop_first())
    } else {
        seq![s[i]] + expand_from(s, i + 1, vals)
    }
}

/// The placeholders of `s`, in the order in which expansion looks them up.
pub open spec fn placeholder_names(s: Seq<char>) -> Seq<Seq<char>> {
    names_from(s, 0)
}

/// The expansion of `s`, given the lookup results of its placeholders.
pub open spec fn expand_spec(s: Seq<char>, vals: Seq<Option<Seq<char>>>) -> Seq<char> {
    expand_from(s, 0, vals)
}

pub open spec fn opt_view(o: Option<String>) -> Option<Seq<char>> {
    match o {
        Some(v) => Some(v@),
        None => None,
    }
}

/// `v` is a value that the lookup `f` may return for `name`.
pub open spec fn lookup_gives<F: Fn(&str) -> Option<String>>(
    f: F,
    name: Seq<char>,
    v: Option<Seq<char>>,
) -> bool {
    exists|n: &str, o: Option<String>| n@ == name && f.ensures((n,), o) && opt_view(o) == v
}

/// `out` is the expansion of `s` for some set of answers that `f` gives.
pub open spec fn expands_to<F: Fn(&str) -> Option<String>>(
    f: F,
    s: Seq<char>,
    out: Seq<char>,
) -> bool {
    exists|vals: Seq<Option<Seq<char>>>|
        #![trigger expand_spec(s, vals)]
        vals.len() == placeholder_names(s).len() && (forall|k: int|
            0 <= k < vals.len() ==> lookup_gives(f, placeholder_names(s)[k], #[trigger] vals[k]))
            && out == expand_spec(s, vals)
}

proof fn lemma_stop_from_bounds(s: Seq<char>, i: int)
    requires
        0 <= i,
    ensures
        i <= s.len() ==> i <= stop_from(s, i) <= s.len(),
        forall|k: int| i <= k < stop_from(s, i) ==> !is_name_stop(#[trigger] s[k]),
        stop_from(s, i) < s.len() ==> is_name_stop(s[stop_from(s, i)]),
    decreases s.len() - i,
{
    if i < s.len() && !is_name_stop(s[i]) {
        lemma_stop_from_bounds(s, i + 1);
    }
}

/// `s` holds no backslash and no `$`.
pub open spec fn is_plain(s: Seq<char>) -> bool {
    forall|k: int| 0 <= k < s.len() ==> #[trigger] s[k] != '\\' && s[k] != '$'
}

/// `s` holds no backslash and no `${`.
pub open spec fn has_no_markup(s: Seq<char>) -> bool {
    &&& forall|k: int| 0 <= k < s.len() ==> #[trigger] s[k] != '\\'
    &&& forall|k: int| 0 <= k < s.len() - 1 ==> !(#[trigger] s[k] == '$' && s[k + 1] == '{')
}

proof fn lemma_expand_no_markup_from(s: Seq<char>, i: int, vals: Seq<Option<Seq<char>>>)
    requires
        0 <= i <= s.len(),
        has_no_markup(s),
    ensures
        expand_from(s, i, vals) == s.subrange(i, s.len() as int),
        names_from(s, i).len() == 0,
    decreases s.len() - i,
{
    if i < s.len() {
        assert(!escape_at(s, i));
        assert(!placeholder_at(s, i));
        lemma_expand_no_markup_from(s, i + 1, vals);
        assert(s.subrange(i, s.len() as int) =~= seq![s[i]] + s.subrange(i + 1, s.len() as int));
    } else {
        assert(s.subrange(i, s.len() as int) =~= Seq::<char>::empty());
    }
}

/// A text with no placeholder and no escape expands to itself, whatever the
/// lookup gives, and looks nothing up.
pub proof fn lemma_expand_no_markup(s: Seq<char>, vals: Seq<Option<Seq<char>>>)
    requires
        has_no_markup(s),
    ensures
        expand_spec(s, vals) == s,
        placeholder_names(s).len() == 0,
{
    lemma_expand_no_markup_from(s, 0, vals);
    assert(s.subrange(0, s.len() as int) =~= s);
}

proof fn lemma_expand_plain_from(s: Seq<char>, i: int, vals: Seq<Option<Seq<char>>>)
    requires
        0 <= i <= s.len(),
        is_plain(s.subrange(i, s.len() as int)),
    ensures
        expand_from(s, i, vals) == s.subrange(i, s.len() as int),
        names_from(s, i).len() == 0,
    decreases s.len() - i,
{
    if i < s.len() {
        assert(s.subrange(i, s.len() as int)[0] == s[i]);
        assert(!escape_at(s, i));
        assert(!placeholder_at(s, i));
        assert(is_plain(s.subrange(i + 1, s.len() as int))) by {
            assert forall|k: int| 0 <= k < s.len() - (i + 1) implies #[trigger] s.subrange(
                i + 1,
                s.len() as int,
            )[k] != '\\' && s.subrange(i + 1, s.len() as int)[k] != '$' by {
                assert(s.subrange(i + 1, s.len() as int)[k] == s.subrange(i, s.len() as int)[k + 1]);
            }
        }
        lemma_expand_plain_from(s, i + 1, vals);
        assert(s.subrange(i, s.len() as int) =~= seq![s[i]] + s.subrange(i + 1, s.len() as int));
    } else {
        assert(s.subrange(i, s.len() as int) =~= Seq::<char>::empty());
    }
}

/// An escaped placeholder is never expanded: `a\${name}b`, with `a`, `name`
/// and `b` free of backslashes and `$`, expands to `a${name}b` whatever the
/// lookup gives, and looks nothing up.
pub proof fn lemma_escaped_placeholder_kept(
    a: Seq<char>,
    name: Seq<char>,
    b: Seq<char>,
    vals: Seq<Option<Seq<char>>>,
)
    requires
        is_plain(a),
        is_plain(name),
        is_plain(b),
    ensures
        expand_spec(a + seq!['\\', '$', '{'] + name + seq!['}'] + b, vals) == a + seq!['$', '{'] + name
            + seq!['}'] + b,
        placeholder_names(a + seq!['\\', '$', '{'] + name + seq!['}'] + b).len() == 0,
{
    let s = a + seq!['\\', '$', '{'] + name + seq!['}'] + b;
    let tail = seq!['{'] + name + seq!['}'] + b;
    let n = a.len() as int;
    assert(s =~= a + (seq!['\\', '$'] + tail));
    assert(s.subrange(n + 2, s.len() as int) =~= tail);
    assert(is_plain(tail)) by {
        assert forall|k: int| 0 <= k < tail.len() implies #[trigger] tail[k] != '\\' && tail[k] != '$' by {
            if 1 <= k < 1 + name.len() {
                assert(tail[k] == name[k - 1]);
            } else if k > 1 + name.len() {
                assert(tail[k] == b[k - 2 - name.len()]);
            }
        }
    }
    lemma_expand_plain_from(s, n + 2, vals);
    assert(escape_at(s, n));
    assert(s[n + 1] == '$');
    assert(expand_from(s, n, vals) == seq!['$'] + tail);
    let prefix_plain = s.subrange(0, n);
    assert(prefix_plain =~= a);
    // the text before the escape is copied as it stands
    assert forall|i: int| 0 <= i <= n implies #[trigger] expand_from(s, i, vals) == a.subrange(i, n) + seq![
        '$',
    ] + tail && names_from(s, i).len() == 0 by {
        lemma_prefix_copied(s, a, i, n, vals, seq!['$'] + tail);
    }
    assert(a.subrange(0, n) =~= a);
    assert(expand_spec(s, vals) =~= a + seq!['$', '{'] + name + seq!['}'] + b);
}

/// Whatever a lookup answers, the expansion of a text with no placeholder and
/// no escape is the text itself.
pub proof fn lemma_lookup_cannot_change_plain_text<F: Fn(&str) -> Option<String>>(
    f: F,
    s: Seq<char>,
    out: Seq<char>,
)
    requires
        expands_to(f, s, out),
        has_no_markup(s),
    ensures
        out == s,
{
    let vals = choose|vals: Seq<Option<Seq<char>>>|
        #![trigger expand_spec(s, vals)]
        vals.len() == placeholder_names(s).len() && (forall|k: int|
            0 <= k < vals.len() ==> lookup_gives(f, placeholder_names(s)[k], #[trigger] vals[k]))
            && out == expand_spec(s, vals);
    lemma_expand_no_markup(s, vals);
}

/// Whatever a lookup answers, `a\${name}b` expands to `a${name}b` when `a`,
/// `name` and `b` hold no backslash and no `$`.
pub proof fn lemma_lookup_cannot_expand_escaped<F: Fn(&str) -> Option<String>>(
    f: F,
    a: Seq<char>,
    name: Seq<char>,
    b: Seq<char>,
    out: Seq<char>,
)
    requires
        expands_to(f, a + seq!['\\', '$', '{'] + name + seq!['}'] + b, out),
        is_plain(a),
        is_plain(name),
        is_plain(b),
    ensures
        out == a + seq!['$', '{'] + name + seq!['}'] + b,
{
    let s = a + seq!['\\', '$', '{'] + name + seq!['}'] + b;
    let vals = choose|vals: Seq<Option<Seq<char>>>|
        #![trigger expand_spec(s, vals)]
        vals.len() == placeholder_names(s).len() && (forall|k: int|
            0 <= k < vals.len() ==> lookup_gives(f, placeholder_names(s)[k], #[trigger] vals[k]))
            && out == expand_spec(s, vals);
    lemma_escaped_placeholder_kept(a, name, b, vals);
}

/// `v` written for a file: a backslash before each backslash and each `$`.
pub open spec fn escape_text(v: Seq<char>) -> Seq<char>
    decreases v.len(),
{
    if v.len() == 0 {
        Seq::empty()
    } else if v[0] == '\\' || v[0] == '$' {
        seq!['\\', v[0]] + escape_text(v.drop_first())
    } else {
        seq![v[0]] + escape_text(v.drop_first())
    }
}

proof fn lemma_escaped_suffix(s: Seq<char>, i: int, v: Seq<char>, vals: Seq<Option<Seq<char>>>)
    requires
        0 <= i <= s.len(),
        s.subrange(i, s.len() as int) == escape_text(v),
    ensures
        expand_from(s, i, vals) == v,
        names_from(s, i).len() == 0,
    decreases v.len(),
{
    let t = s.subrange(i, s.len() as int);
    if v.len() == 0 {
        assert(t.len() == 0);
    } else if v[0] == '\\' || v[0] == '$' {
        let rest = escape_text(v.drop_first());
        assert(t =~= seq!['\\', v[0]] + rest);
        assert(t[0] == s[i] && t[1] == s[i + 1]);
        assert(escape_at(s, i));
        assert(s.subrange(i + 2, s.len() as int) =~= rest) by {
            assert forall|k: int| 0 <= k < rest.len() implies s.subrange(i + 2, s.len() as int)[k] == rest[k] by {
                assert(t[k + 2] == s[i + 2 + k]);
            }
        }
        lemma_escaped_suffix(s, i + 2, v.drop_first(), vals);
        assert(v =~= seq![v[0]] + v.drop_first());
    } else {
        let rest = escape_text(v.drop_first());
        assert(t =~= seq![v[0]] + rest);
        assert(t[0] == s[i]);
        assert(!escape_at(s, i));
        assert(!placeholder_at(s, i));
        assert(s.subrange(i + 1, s.len() as int) =~= rest) by {
            assert forall|k: int| 0 <= k < rest.len() implies s.subrange(i + 1, s.len() as int)[k] == rest[k] by {
                assert(t[k + 1] == s[i + 1 + k]);
            }
        }
        lemma_escaped_suffix(s, i + 1, v.drop_first(), vals);
        assert(v =~= seq![v[0]] + v.drop_first());
    }
}

/// A value written with a backslash before each backslash and each `$`
/// reads back as itself, whatever the lookup gives, and looks nothing up.
pub proof fn lemma_escaped_text_reads_back(v: Seq<char>, vals: Seq<Option<Seq<char>>>)
    ensures
        expand_spec(escape_text(v), vals) == v,
        placeholder_names(escape_text(v)).len() == 0,
{
    let s = escape_text(v);
    assert(s.subrange(0, s.len() as int) =~= s);
    lemma_escaped_suffix(s, 0, v, vals);
}

proof fn lemma_prefix_copied(
    s: Seq<char>,
    a: Seq<char>,
    i: int,
    n: int,
    vals: Seq<Option<Seq<char>>>,
    rest: Seq<char>,
)
    requires
        0 <= i <= n,
        n == a.len(),
        n + 2 <= s.len(),
        s.subrange(0, n) == a,
        is_plain(a),
        expand_from(s, n, vals) == rest,
        names_from(s, n).len() == 0,
    ensures
        expand_from(s, i, vals) == a.subrange(i, n) + rest,
        names_from(s, i).len() == 0,
    decreases n - i,
{
    if i < n {
        assert(s[i] == a[i]);
        assert(!escape_at(s, i));
        assert(!placeholder_at(s, i));
        lemma_prefix_copied(s, a, i + 1, n, vals, rest);
        assert(a.subrange(i, n) =~= seq![a[i]] + a.subrange(i + 1, n));
    } else {
        assert(a.subrange(n, n) =~= Seq::<char>::empty());
    }
}

/// Finds the first name stop at or after `from`.
fn find_stop(chars: &Vec<char>, from: usize) -> (r: usize)
    requires
        from <= chars@.len(),
    ensures
        r == stop_from(chars@, from as int),
{
    proof {
        lemma_stop_from_bounds(chars@, from as int);
    }
    let mut k: usize = from;
    while k < chars.len() && !(chars[k] == '}' || chars[k] == '$' || chars[k] == '{'
        || chars[k] == '\\')
        invariant
            from <= k <= chars@.len(),
            stop_from(chars@, k as int) == stop_from(chars@, from as int),
        decreases chars@.len() - k,
    {
        k = k + 1;
    }
    k
}

/// Replaces each `${NAME}` of `input` by what `get_env_var` gives for `NAME`,
/// keeps the placeholder as written where it gives nothing, and emits the
/// character after each backslash as it stands.
pub fn expand_vars<F: Fn(&str) -> Option<String>>(input: &str, get_env_var: &F) -> (r: String)
    requires
        forall|n: &str| #[trigger] get_env_var.requires((n,)),
    ensures
        expands_to(*get_env_var, input@, r@),
{
    let ghost s = input@;
    let chars = chars_of(input);
    let n = chars.len();
    let mut out = String::new();
    let mut i: usize = 0;
    let ghost mut seen: Seq<Option<Seq<char>>> = Seq::empty();
    let ghost mut names: Seq<Seq<char>> = Seq::empty();
    assert(seen + Seq::<Option<Seq<char>>>::empty() == seen);
    assert forall|rest: Seq<Option<Seq<char>>>|
        #[trigger] expand_from(s, 0, seen + rest) == out@ + expand_from(s, 0, rest) by {
        assert(seen + rest =~= rest);
        assert(out@ + expand_from(s, 0, rest) =~= expand_from(s, 0, rest));
    }
    assert(placeholder_names(s) =~= names + names_from(s, 0));
    while i < n
        invariant
            n == s.len(),
            chars@ == s,
            input@ == s,
            i <= n,
            forall|m: &str| #[trigger] get_env_var.requires((m,)),
            forall|rest: Seq<Option<Seq<char>>>|
                #[trigger] expand_from(s, 0, seen + rest) == out@ + expand_from(s, i as int, rest),
            placeholder_names(s) == names + names_from(s, i as int),
            seen.len() == names.len(),
            forall|k: int|
                0 <= k < seen.len() ==> lookup_gives(*get_env_var, names[k], #[trigger] seen[k]),
        decreases n - i,
    {
        let ghost out0 = out@;
        let ghost seen0 = seen;
        let ghost names0 = names;
        let ghost i0 = i as int;
        if i + 1 < n && chars[i] == '\\' {
            out.append(input.substring_char(i + 1, i + 2));
            i = i + 2;
            assert forall|rest: Seq<Option<Seq<char>>>|
                #[trigger] expand_from(s, 0, seen + rest) == out@ + expand_from(s, i as int, rest) by {
                assert(expand_from(s, 0, seen0 + rest) == out0 + expand_from(s, i0, rest));
                assert(out@ + expand_from(s, i as int, rest) =~= out0 + expand_from(s, i0, rest));
            }
            assert(names0 + names_from(s, i0) == names + names_from(s, i as int));
        } else {
            let mut j: usize = i;
            let is_placeholder = if i + 1 < n && chars[i] == '$' && chars[i + 1] == '{' {
                j = find_stop(&chars, i + 2);
                j < n && chars[j] == '}'
            } else {
                false
            };
            proof {
                if i0 + 1 < n {
                    lemma_stop_from_bounds(s, i0 + 2);
                }
            }
            if is_placeholder {
                assert(placeholder_at(s, i0));
                let name = input.substring_char(i + 2, j);
                let v = get_env_var(name);
                let ghost gv = opt_view(v);
                assert(lookup_gives(*get_env_var, name@, gv));
                match v {
                    Some(value) => {
                        out.append(value.as_str());
                    },
                    None => {
                        out.append(input.substring_char(i, j + 1));
                        assert(input@.subrange(i as int, j + 1) =~= seq!['$', '{'] + name@ + seq!['}']);
                    },
                }
                i = j + 1;
                proof {
                    seen = seen0.push(gv);
                    names = names0.push(name@);
                    assert forall|rest: Seq<Option<Seq<char>>>|
                        #[trigger] expand_from(s, 0, seen + rest) == out@ + expand_from(s, i as int, rest) by {
                        let r2 = seq![gv] + rest;
                        assert(seen + rest =~= seen0 + r2);
                        assert(expand_from(s, 0, seen0 + r2) == out0 + expand_from(s, i0, r2));
                        assert(r2.drop_first() =~= rest);
                        assert(out@ + expand_from(s, i as int, rest) =~= out0 + expand_from(s, i0, r2));
                    }
                    assert(names0 + names_from(s, i0) =~= names + names_from(s, i as int));
                    assert forall|k: int|
                        0 <= k < seen.len() implies lookup_gives(*get_env_var, names[k], #[trigger] seen[k]) by {
                        if k < seen0.len() {
                            assert(seen[k] == seen0[k]);
                            assert(names[k] == names0[k]);
                        }
                    }
                }
            } else {
                assert(!placeholder_at(s, i0));
                out.append(input.substring_char(i, i + 1));
                i = i + 1;
                assert forall|rest: Seq<Option<Seq<char>>>|
                    #[trigger] expand_from(s, 0, seen + rest) == out@ + expand_from(s, i as int, rest) by {
                    assert(expand_from(s, 0, seen0 + rest) == out0 + expand_from(s, i0, rest));
                    assert(out@ + expand_from(s, i as int, rest) =~= out0 + expand_from(s, i0, rest));
                }
                assert(names0 + names_from(s, i0) == names + names_from(s, i as int));
            }
        }
    }
    assert(expand_from(s, 0, seen + Seq::empty()) == out@ + expand_from(s, n as int, Seq::empty()));
    assert(seen + Seq::<Option<Seq<char>>>::empty() =~= seen);
    assert(out@ + Seq::<char>::empty() =~= out@);
    assert(names + Seq::<Seq<char>>::empty() =~= names);
    assert(expand_spec(s, seen) == out@);
    out
}

} // verus!
