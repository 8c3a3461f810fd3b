use vstd::prelude::*;

use crate::config::{
    empty_config, find_key, first_value, keys_unique, NpmRc, RegistryConfig, RegistryConfigView,
};
use crate::expand::{expand_vars, expands_to, opt_view};
use crate::ini::{parse_ini, tokenize, IniEntry, NpmRcParseError, Span};
use crate::text::{chars_of, text_eq};

verus! {

/// What a record of the file sets.
#[derive(Clone, Copy, Debug, PartialEq, Eq, Structural)]
pub enum Directive {
    /// Nothing this library reads.
    Ignore,
    /// `registry=`: the global registry.
    Registry,
    /// `@name:registry=`: the registry of the scope `name`.
    Scope { name: Span },
    /// `//host/path/:field=`: one credential field below `host/path/`.
    Credential { host_path: Span, field: Span },
}

/// The settings as maps over character sequences.
#[verifier::ext_equal]
pub struct RcModel {
    pub registry: Option<Seq<char>>,
    pub scopes: Map<Seq<char>, Seq<char>>,
    pub configs: Map<Seq<char>, RegistryConfigView>,
}

/// Entries read as a map, the earliest entry of a key being the one that counts.
pub open spec fn entries_map<V: View>(entries: Seq<(String, V)>) -> Map<Seq<char>, V::V> {
    Map::new(|k: Seq<char>| first_value(entries, k).is_some(), |k: Seq<char>| first_value(entries, k).unwrap()@)
}

impl NpmRc {
    pub open spec fn model(self) -> RcModel {
        RcModel {
            registry: opt_view(self.registry),
            scopes: entries_map(self.scope_registries@),
            configs: entries_map(self.registry_configs@),
        }
    }
}

pub open spec fn empty_model() -> RcModel {
    RcModel { registry: None, scopes: Map::empty(), configs: Map::empty() }
}

/// The greatest index in `[a, e)` that holds `c`, or -1.
pub open spec fn last_char_in(s: Seq<char>, c: char, a: int, e: int) -> int
    decreases e - a,
{
    if e <= a {
        -1
    } else if s[e - 1] == c {
        e - 1
    } else {
        last_char_in(s, c, a, e - 1)
    }
}

pub open spec fn span_ok(s: Seq<char>, sp: Span) -> bool {
    sp.start <= sp.end <= s.len()
}

pub open spec fn span_text(s: Seq<char>, sp: Span) -> Seq<char> {
    s.subrange(sp.start as int, sp.end as int)
}

/// What the record `e` of the text `s` sets. A key is split at its last `:`;
/// a quoted key, and a key without a value, set nothing.
pub open spec fn classify(s: Seq<char>, e: IniEntry) -> Directive {
    match e {
        IniEntry::Section { .. } => Directive::Ignore,
        IniEntry::KeyValue { key_start, key_end, quoted_key, value } => {
            let ks = key_start as int;
            let ke = key_end as int;
            if quoted_key || value.is_none() || !span_ok(s, Span { start: key_start, end: key_end })
                || !span_ok(s, value.unwrap()) {
                Directive::Ignore
            } else {
                let c = last_char_in(s, ':', ks, ke);
                if c >= 0 {
                    if c > ks && s[ks] == '@' {
                        if s.subrange(c + 1, ke) == "registry"@ {
                            Directive::Scope { name: Span { start: (ks + 1) as usize, end: c as usize } }
                        } else {
                            Directive::Ignore
                        }
                    } else if c >= ks + 2 && s[ks] == '/' && s[ks + 1] == '/' {
                        Directive::Credential {
                            host_path: Span { start: (ks + 2) as usize, end: c as usize },
                            field: Span { start: (c + 1) as usize, end: key_end },
                        }
                    } else {
                        Directive::Ignore
                    }
                } else if s.subrange(ks, ke) == "registry"@ {
                    Directive::Registry
                } else {
                    Directive::Ignore
                }
            }
        },
    }
}

/// The raw text of the value of `e`.
pub open spec fn value_text(s: Seq<char>, e: IniEntry) -> Seq<char> {
    match e {
        IniEntry::KeyValue { value: Some(sp), .. } => span_text(s, sp),
        _ => Seq::empty(),
    }
}

/// `field` names one of the seven credential fields.
pub open spec fn is_credential_field(field: Seq<char>) -> bool {
    field == "_auth"@ || field == "_authToken"@ || field == "username"@ || field == "_password"@
        || field == "email"@ || field == "certfile"@ || field == "keyfile"@
}

/// `c` with the credential field named `field` set to `v`; an unknown name
/// leaves it as it is.
pub open spec fn set_field(c: RegistryConfigView, field: Seq<char>, v: Seq<char>) -> RegistryConfigView {
    if field == "_auth"@ {
        RegistryConfigView { auth: Some(v), ..c }
    } else if field == "_authToken"@ {
        RegistryConfigView { auth_token: Some(v), ..c }
    } else if field == "username"@ {
        RegistryConfigView { username: Some(v), ..c }
    } else if field == "_password"@ {
        RegistryConfigView { password: Some(v), ..c }
    } else if field == "email"@ {
        RegistryConfigView { email: Some(v), ..c }
    } else if field == "certfile"@ {
        RegistryConfigView { certfile: Some(v), ..c }
    } else if field == "keyfile"@ {
        RegistryConfigView { keyfile: Some(v), ..c }
    } else {
        c
    }
}

/// The settings `m` after the directive `d`, whose value expands to `v`. A
/// credential line with an unknown field name changes nothing.
pub open spec fn apply(m: RcModel, s: Seq<char>, d: Directive, v: Seq<char>) -> RcModel {
    match d {
        Directive::Ignore => m,
        Directive::Registry => RcModel { registry: Some(v), ..m },
        Directive::Scope { name } => RcModel { scopes: m.scopes.insert(span_text(s, name), v), ..m },
        Directive::Credential { host_path, field } => {
            let hp = span_text(s, host_path);
            let old = if m.configs.contains_key(hp) {
                m.configs[hp]
            } else {
                empty_config()
            };
            if is_credential_field(span_text(s, field)) {
                RcModel { configs: m.configs.insert(hp, set_field(old, span_text(s, field), v)), ..m }
            } else {
                m
            }
        },
    }
}

/// The settings that the first `n` records of `s` make, record `i` having
/// the expanded value `vals[i]`.
pub open spec fn build(s: Seq<char>, entries: Seq<IniEntry>, vals: Seq<Seq<char>>, n: int) -> RcModel
    decreases n,
{
    if n <= 0 {
        empty_model()
    } else {
        apply(build(s, entries, vals, n - 1), s, classify(s, entries[n - 1]), vals[n - 1])
    }
}

/// `vals` holds an expansion by `f` of the value of each record that sets something.
pub open spec fn values_expanded<F: Fn(&str) -> Option<String>>(
    f: F,
    s: Seq<char>,
    entries: Seq<IniEntry>,
    vals: Seq<Seq<char>>,
    n: int,
) -> bool {
    &&& vals.len() == n
    &&& forall|i: int|
        0 <= i < n && classify(s, entries[i]) != Directive::Ignore ==> expands_to(
            f,
            value_text(s, entries[i]),
            #[trigger] vals[i],
        )
}

/// `rc` holds the settings of the text `s`, its values expanded through `f`.
pub open spec fn read_from<F: Fn(&str) -> Option<String>>(f: F, s: Seq<char>, rc: NpmRc) -> bool {
    match tokenize(s) {
        Ok(entries) => exists|vals: Seq<Seq<char>>|
            #![trigger build(s, entries, vals, entries.len() as int)]
            values_expanded(f, s, entries, vals, entries.len() as int) && rc.model() == build(
                s,
                entries,
                vals,
                entries.len() as int,
            ),
        Err(_) => false,
    }
}

proof fn lemma_build_agree(s: Seq<char>, es: Seq<IniEntry>, v1: Seq<Seq<char>>, v2: Seq<Seq<char>>, n: int)
    requires
        forall|k: int| 0 <= k < n ==> v1[k] == v2[k],
    ensures
        build(s, es, v1, n) == build(s, es, v2, n),
    decreases n,
{
    if n > 0 {
        lemma_build_agree(s, es, v1, v2, n - 1);
    }
}

proof fn lemma_first_value_update<V>(entries: Seq<(String, V)>, i: int, x: (String, V), k: Seq<char>)
    requires
        0 <= i < entries.len(),
        entries[i].0@ == x.0@,
        forall|j: int| 0 <= j < i ==> #[trigger] entries[j].0@ != x.0@,
    ensures
        first_value(entries.update(i, x), k) == if k == x.0@ {
            Some(x.1)
        } else {
            first_value(entries, k)
        },
    decreases i,
{
    let u = entries.update(i, x);
    if i > 0 {
        assert(u.drop_first() =~= entries.drop_first().update(i - 1, x));
        assert(entries[0].0@ != x.0@);
        assert(u[0] == entries[0]);
        lemma_first_value_update(entries.drop_first(), i - 1, x, k);
    } else {
        assert(u.drop_first() =~= entries.drop_first());
        assert(u[0] == x);
    }
}

proof fn lemma_first_value_push<V>(entries: Seq<(String, V)>, x: (String, V), k: Seq<char>)
    ensures
        first_value(entries.push(x), k) == match first_value(entries, k) {
            Some(v) => Some(v),
            None => if k == x.0@ {
                Some(x.1)
            } else {
                None
            },
        },
    decreases entries.len(),
{
    let p = entries.push(x);
    if entries.len() > 0 {
        assert(p.drop_first() =~= entries.drop_first().push(x));
        assert(p[0] == entries[0]);
        lemma_first_value_push(entries.drop_first(), x, k);
    } else {
        assert(p[0] == x);
        assert(p.drop_first().len() == 0);
        assert(first_value(p.drop_first(), k).is_none());
        assert(first_value(entries, k).is_none());
    }
}

proof fn lemma_first_value_none<V>(entries: Seq<(String, V)>, k: Seq<char>)
    requires
        first_value(entries, k).is_none(),
    ensures
        forall|i: int| 0 <= i < entries.len() ==> #[trigger] entries[i].0@ != k,
    decreases entries.len(),
{
    if entries.len() > 0 {
        lemma_first_value_none(entries.drop_first(), k);
        assert forall|i: int| 0 <= i < entries.len() implies #[trigger] entries[i].0@ != k by {
            if i > 0 {
                assert(entries[i] == entries.drop_first()[i - 1]);
            }
        }
    }
}

/// Sets the entry of `key` to `value`, in place where it has one.
fn upsert<V: View>(entries: &mut Vec<(String, V)>, key: String, value: V)
    requires
        keys_unique(old(entries)@),
    ensures
        entries_map(final(entries)@) == entries_map(old(entries)@).insert(key@, value@),
        keys_unique(final(entries)@),
{
    let ghost k = key@;
    let ghost v = value@;
    let ghost before = entries@;
    let found = find_key(entries, key.as_str());
    match found {
        Some(i) => {
            let ghost x = (key, value);
            entries[i] = (key, value);
            assert(entries@ == before.update(i as int, x));
            assert(keys_unique(entries@)) by {
                assert forall|a: int, b: int| 0 <= a < b < entries@.len() implies #[trigger] entries@[a].0@
                    != #[trigger] entries@[b].0@ by {
                    assert(before[a].0@ != before[b].0@);
                    if a == i {
                        assert(entries@[a].0@ == before[a].0@);
                    }
                    if b == i {
                        assert(entries@[b].0@ == before[b].0@);
                    }
                }
            }
            assert forall|k2: Seq<char>|
                first_value(entries@, k2) == if k2 == k {
                    Some(x.1)
                } else {
                    first_value(before, k2)
                } by {
                lemma_first_value_update(before, i as int, x, k2);
            }
        },
        None => {
            let ghost x = (key, value);
            entries.push((key, value));
            assert forall|k2: Seq<char>|
                first_value(entries@, k2) == if k2 == k {
                    Some(x.1)
                } else {
                    first_value(before, k2)
                } by {
                lemma_first_value_push(before, x, k2);
            }
            proof {
                lemma_first_value_none(before, k);
            }
            assert(keys_unique(entries@)) by {
                assert forall|a: int, b: int| 0 <= a < b < entries@.len() implies #[trigger] entries@[a].0@
                    != #[trigger] entries@[b].0@ by {
                    if b == before.len() {
                        assert(before[a].0@ != k);
                    } else {
                        assert(entries@[a] == before[a] && entries@[b] == before[b]);
                    }
                }
            }
        },
    }
    assert(entries_map(entries@) =~= entries_map(before).insert(k, v));
}

proof fn lemma_last_char_in(s: Seq<char>, c: char, a: int, e: int)
    ensures
        last_char_in(s, c, a, e) == -1 || a <= last_char_in(s, c, a, e) < e,
    decreases e - a,
{
    if e > a && s[e - 1] != c {
        lemma_last_char_in(s, c, a, e - 1);
    }
}

fn find_last_char(s: &Vec<char>, c: char, a: usize, e: usize) -> (r: Option<usize>)
    requires
        a <= e <= s@.len(),
    ensures
        match r {
            Some(i) => i as int == last_char_in(s@, c, a as int, e as int) && a <= i < e,
            None => last_char_in(s@, c, a as int, e as int) == -1,
        },
{
    proof {
        lemma_last_char_in(s@, c, a as int, e as int);
    }
    let mut k: usize = e;
    while k > a
        invariant
            a <= k <= e <= s@.len(),
            last_char_in(s@, c, a as int, k as int) == last_char_in(s@, c, a as int, e as int),
        decreases k,
    {
        if s[k - 1] == c {
            return Some(k - 1);
        }
        k = k - 1;
    }
    None
}

/// What the record `e` of the text `input` sets.
pub fn classify_entry(input: &str, chars: &Vec<char>, e: IniEntry) -> (r: Directive)
    requires
        chars@ == input@,
    ensures
        r == classify(input@, e),
{
    let ghost s = input@;
    match e {
        IniEntry::Section { .. } => Directive::Ignore,
        IniEntry::KeyValue { key_start, key_end, quoted_key, value } => {
            let n = chars.len();
            let vsp = match value {
                Some(sp) => sp,
                None => {
                    return Directive::Ignore;
                },
            };
            if quoted_key || !(key_start <= key_end && key_end <= n) || !(vsp.start <= vsp.end
                && vsp.end <= n) {
                return Directive::Ignore;
            }
            let registry = "registry";
            match find_last_char(chars, ':', key_start, key_end) {
                Some(c) => {
                    if c > key_start && chars[key_start] == '@' {
                        if text_eq(input.substring_char(c + 1, key_end), registry) {
                            Directive::Scope { name: Span { start: key_start + 1, end: c } }
                        } else {
                            Directive::Ignore
                        }
                    } else if c - key_start >= 2 && chars[key_start] == '/' && chars[key_start + 1]
                        == '/' {
                        Directive::Credential {
                            host_path: Span { start: key_start + 2, end: c },
                            field: Span { start: c + 1, end: key_end },
                        }
                    } else {
                        Directive::Ignore
                    }
                },
                None => {
                    if text_eq(input.substring_char(key_start, key_end), registry) {
                        Directive::Registry
                    } else {
                        Directive::Ignore
                    }
                },
            }
        },
    }
}

/// Whether `field` names one of the seven credential fields.
pub fn is_known_field(field: &str) -> (r: bool)
    ensures
        r == is_credential_field(field@),
{
    text_eq(field, "_auth") || text_eq(field, "_authToken") || text_eq(field, "username") || text_eq(
        field,
        "_password",
    ) || text_eq(field, "email") || text_eq(field, "certfile") || text_eq(field, "keyfile")
}

/// Sets the credential field named `field` of `c` to `v`.
pub fn set_config_field(c: &mut RegistryConfig, field: &str, v: String)
    ensures
        final(c)@ == set_field(old(c)@, field@, v@),
{
    if text_eq(field, "_auth") {
        c.auth = Some(v);
    } else if text_eq(field, "_authToken") {
        c.auth_token = Some(v);
    } else if text_eq(field, "username") {
        c.username = Some(v);
    } else if text_eq(field, "_password") {
        c.password = Some(v);
    } else if text_eq(field, "email") {
        c.email = Some(v);
    } else if text_eq(field, "certfile") {
        c.certfile = Some(v);
    } else if text_eq(field, "keyfile") {
        c.keyfile = Some(v);
    }
}

impl NpmRc {
    /// Reads the registry and credential directives of the run-control text
    /// `input`, expanding `${NAME}` in their values through `get_env_var`.
    pub fn parse<F: Fn(&str) -> Option<String>>(input: &str, get_env_var: &F) -> (r: Result<
        NpmRc,
        NpmRcParseError,
    >)
        requires
            forall|n: &str| #[trigger] get_env_var.requires((n,)),
        ensures
            match r {
                Ok(rc) => read_from(*get_env_var, input@, rc) && rc.wf(),
                Err(e) => tokenize(input@) == Err::<Seq<IniEntry>, NpmRcParseError>(e),
            },
    {
        let ghost s = input@;
        let chars = chars_of(input);
        let entries = match parse_ini(&chars) {
            Ok(entries) => entries,
            Err(e) => {
                return Err(e);
            },
        };
        let ghost es = entries@;
        let mut rc = NpmRc { registry: None, scope_registries: Vec::new(), registry_configs: Vec::new() };
        let ghost mut vals: Seq<Seq<char>> = Seq::empty();
        assert(rc.model() =~= empty_model());
        let mut i: usize = 0;
        while i < entries.len()
            invariant
                chars@ == s,
                input@ == s,
                es == entries@,
                tokenize(s) == Ok::<Seq<IniEntry>, NpmRcParseError>(es),
                i <= es.len(),
                forall|m: &str| #[trigger] get_env_var.requires((m,)),
                values_expanded(*get_env_var, s, es, vals, i as int),
                rc.model() == build(s, es, vals, i as int),
                rc.wf(),
            decreases es.len() - i,
        {
            let e = entries[i];
            let d = classify_entry(input, &chars, e);
            proof {
                match e {
                    IniEntry::KeyValue { key_start, key_end, .. } => {
                        lemma_last_char_in(s, ':', key_start as int, key_end as int);
                    },
                    _ => {},
                }
            }
            let ghost m0 = rc.model();
            let ghost vals0 = vals;
            let ghost mut v: Seq<char> = Seq::empty();
            match d {
                Directive::Ignore => {},
                _ => {
                    let sp = match e {
                        IniEntry::KeyValue { value: Some(sp), .. } => sp,
                        _ => Span { start: 0, end: 0 },
                    };
                    let value = expand_vars(input.substring_char(sp.start, sp.end), get_env_var);
                    proof {
                        v = value@;
                    }
                    match d {
                        Directive::Registry => {
                            rc.registry = Some(value);
                        },
                        Directive::Scope { name } => {
                            let key = String::from_str(input.substring_char(name.start, name.end));
                            upsert(&mut rc.scope_registries, key, value);
                        },
                        Directive::Credential { host_path, field } => {
                            let name = input.substring_char(field.start, field.end);
                            if is_known_field(name) {
                                let hp = input.substring_char(host_path.start, host_path.end);
                                let mut c = match find_key(&rc.registry_configs, hp) {
                                    Some(k) => rc.registry_configs[k].1.duplicate(),
                                    None => RegistryConfig::empty(),
                                };
                                set_config_field(&mut c, name, value);
                                upsert(&mut rc.registry_configs, String::from_str(hp), c);
                            }
                        },
                        Directive::Ignore => {},
                    }
                },
            }
            proof {
                vals = vals0.push(v);
                assert(vals[i as int] == v);
                assert forall|k: int| 0 <= k < i implies #[trigger] vals[k] == vals0[k] by {}
                lemma_build_agree(s, es, vals, vals0, i as int);
            }
            assert(rc.model() =~= apply(m0, s, d, v));
            i = i + 1;
        }
        assert(build(s, es, vals, es.len() as int) == rc.model());
        assert(values_expanded(*get_env_var, s, es, vals, es.len() as int));
        assert(exists|vv: Seq<Seq<char>>|
            #![trigger build(s, es, vv, es.len() as int)]
            values_expanded(*get_env_var, s, es, vv, es.len() as int) && rc.model() == build(
                s,
                es,
                vv,
                es.len() as int,
            ));
        assert(read_from(*get_env_var, input@, rc));
        Ok(rc)
    }
}

} // verus!
