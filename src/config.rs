use vstd::prelude::*;

use crate::expand::opt_view;
use crate::text::{chars_of, clone_text, text_eq_prefix};

verus! {

/// The credentials that apply below one host and path.
#[derive(Debug, PartialEq, Eq)]
pub struct RegistryConfig {
    pub auth: Option<String>,
    pub auth_token: Option<String>,
    pub username: Option<String>,
    pub password: Option<String>,
    pub email: Option<String>,
    pub certfile: Option<String>,
    pub keyfile: Option<String>,
}

/// The fields of a [`RegistryConfig`] as character sequences.
pub struct RegistryConfigView {
    pub auth: Option<Seq<char>>,
    pub auth_token: Option<Seq<char>>,
    pub username: Option<Seq<char>>,
    pub password: Option<Seq<char>>,
    pub email: Option<Seq<char>>,
    pub certfile: Option<Seq<char>>,
    pub keyfile: Option<Seq<char>>,
}

impl View for RegistryConfig {
    type V = RegistryConfigView;

    open spec fn view(&self) -> RegistryConfigView {
        RegistryConfigView {
            auth: opt_view(self.auth),
            auth_token: opt_view(self.auth_token),
            username: opt_view(self.username),
            password: opt_view(self.password),
            email: opt_view(self.email),
            certfile: opt_view(self.certfile),
            keyfile: opt_view(self.keyfile),
        }
    }
}

/// A record with no field set.
pub open spec fn empty_config() -> RegistryConfigView {
    RegistryConfigView {
        auth: None,
        auth_token: None,
        username: None,
        password: None,
        email: None,
        certfile: None,
        keyfile: None,
    }
}

impl RegistryConfig {
    /// A record with no field set.
    pub fn empty() -> (r: RegistryConfig)
        ensures
            r@ == empty_config(),
    {
        RegistryConfig {
            auth: None,
            auth_token: None,
            username: None,
            password: None,
            email: None,
            certfile: None,
            keyfile: None,
        }
    }

    /// A field-by-field copy.
    pub fn duplicate(&self) -> (r: RegistryConfig)
        ensures
            r == *self,
    {
        RegistryConfig {
            auth: clone_text(&self.auth),
            auth_token: clone_text(&self.auth_token),
            username: clone_text(&self.username),
            password: clone_text(&self.password),
            email: clone_text(&self.email),
            certfile: clone_text(&self.certfile),
            keyfile: clone_text(&self.keyfile),
        }
    }
}

impl Clone for RegistryConfig {
    fn clone(&self) -> (r: RegistryConfig)
        ensures
            r == *self,
    {
        self.duplicate()
    }
}

impl Default for RegistryConfig {
    fn default() -> (r: RegistryConfig)
        ensures
            r@ == empty_config(),
    {
        RegistryConfig::empty()
    }
}

/// The value of the first entry keyed by `k`: entries act as a map in which
/// the earliest entry for a key is the one that counts.
pub open spec fn first_value<V>(entries: Seq<(String, V)>, k: Seq<char>) -> Option<V>
    decreases entries.len(),
{
    if entries.len() == 0 {
        None
    } else if entries[0].0@ == k {
        Some(entries[0].1)
    } else {
        first_value(entries.drop_first(), k)
    }
}

/// No two entries share a key.
pub open spec fn keys_unique<V>(entries: Seq<(String, V)>) -> bool {
    forall|i: int, j: int| 0 <= i < j < entries.len() ==> #[trigger] entries[i].0@ != #[trigger] entries[j].0@
}

/// The settings read from a run-control file, before resolution.
#[derive(Clone, Debug, Default, PartialEq, Eq)]
pub struct NpmRc {
    /// The `registry=` directive.
    pub registry: Option<String>,
    /// Scope name (no `@`) to registry URL, from `@scope:registry=` directives.
    pub scope_registries: Vec<(String, String)>,
    /// Host and path (no scheme, ending in `/`) to the credentials set there.
    pub registry_configs: Vec<(String, RegistryConfig)>,
}

/// The registry URL that `scope` uses: its own override, else the global
/// `registry`, else `fallback`.
pub open spec fn base_registry(rc: NpmRc, scope: Option<Seq<char>>, fallback: Seq<char>) -> Seq<char> {
    let scoped = match scope {
        Some(sc) => first_value(rc.scope_registries@, sc),
        None => None,
    };
    match scoped {
        Some(u) => u@,
        None => match rc.registry {
            Some(g) => g@,
            None => fallback,
        },
    }
}

/// `s` with a `/` added at its end unless it ends in one.
pub open spec fn with_trailing_slash(s: Seq<char>) -> Seq<char> {
    if s.len() > 0 && s.last() == '/' {
        s
    } else {
        s.push('/')
    }
}

/// The index of the first `//` at or after `i`, or -1.
pub open spec fn double_slash_from(s: Seq<char>, i: int) -> int
    decreases s.len() - i,
{
    if i < 0 || i + 1 >= s.len() {
        -1
    } else if s[i] == '/' && s[i + 1] == '/' {
        i
    } else {
        double_slash_from(s, i + 1)
    }
}

/// What follows the first `//` of `url`, if it holds one.
pub open spec fn strip_scheme(url: Seq<char>) -> Option<Seq<char>> {
    let p = double_slash_from(url, 0);
    if p < 0 {
        None
    } else {
        Some(url.subrange(p + 2, url.len() as int))
    }
}

/// The first key that the credential walk tries.
pub open spec fn start_key(host_path: Seq<char>, scope: Option<Seq<char>>) -> Seq<char> {
    match scope {
        Some(sc) => host_path + sc + seq!['/'],
        None => host_path,
    }
}

/// The greatest index below `e` that holds a `/`, or -1.
pub open spec fn last_slash_before(s: Seq<char>, e: int) -> int
    decreases e,
{
    if e <= 0 {
        -1
    } else if s[e - 1] == '/' {
        e - 1
    } else {
        last_slash_before(s, e - 1)
    }
}

/// The length of the parent of the key `s.subrange(0, len)`: the key cut
/// after the last `/` that comes before its final character; 0 where it has none.
pub open spec fn parent_len(s: Seq<char>, len: int) -> int {
    last_slash_before(s, len - 1) + 1
}

/// The credentials of the longest key among `s.subrange(0, len)` and its
/// parents that has a record.
pub open spec fn walk(configs: Seq<(String, RegistryConfig)>, s: Seq<char>, len: int) -> Option<
    RegistryConfig,
>
    decreases len,
{
    match first_value(configs, s.subrange(0, len)) {
        Some(c) => Some(c),
        None => {
            let p = parent_len(s, len);
            if 0 < p < len {
                walk(configs, s, p)
            } else {
                None
            }
        },
    }
}

/// What resolution yields for `scope` against `fallback`: the registry URL
/// and the credentials that apply there. Nothing where no record applies and
/// the URL is the fallback, both with their trailing `/`.
pub open spec fn resolve_spec(rc: NpmRc, scope: Option<Seq<char>>, fallback: Seq<char>) -> Option<
    (Seq<char>, RegistryConfigView),
> {
    let url = with_trailing_slash(base_registry(rc, scope, fallback));
    match strip_scheme(url) {
        None => None,
        Some(host_path) => {
            let key = start_key(host_path, scope);
            match walk(rc.registry_configs@, key, key.len() as int) {
                Some(c) => Some((url, c@)),
                None => if url == with_trailing_slash(fallback) {
                    None
                } else {
                    Some((url, empty_config()))
                },
            }
        },
    }
}

pub open spec fn opt_str_view(o: Option<&str>) -> Option<Seq<char>> {
    match o {
        Some(s) => Some(s@),
        None => None,
    }
}

pub open spec fn resolved_view(r: Option<(String, RegistryConfig)>) -> Option<
    (Seq<char>, RegistryConfigView),
> {
    match r {
        Some((u, c)) => Some((u@, c@)),
        None => None,
    }
}

/// `p` is one of the key lengths that the walk from `len` tries.
pub open spec fn on_walk(s: Seq<char>, len: int, p: int) -> bool
    decreases len,
{
    p == len || {
        let q = parent_len(s, len);
        0 < q < len && on_walk(s, q, p)
    }
}

proof fn lemma_on_walk_le(s: Seq<char>, len: int, p: int)
    requires
        on_walk(s, len, p),
    ensures
        p <= len,
    decreases len,
{
    if p != len {
        lemma_on_walk_le(s, parent_len(s, len), p);
    }
}

/// The most specific key wins: where the walk over the parents of a lookup
/// key reaches several keys that have credentials, the longest of them gives
/// the result, whatever the shorter ones hold.
pub proof fn lemma_longest_prefix_wins(
    configs: Seq<(String, RegistryConfig)>,
    s: Seq<char>,
    len: int,
    p: int,
)
    requires
        on_walk(s, len, p),
        first_value(configs, s.subrange(0, p)).is_some(),
        forall|q: int| on_walk(s, len, q) && q > p ==> first_value(configs, #[trigger] s.subrange(0, q)).is_none(),
    ensures
        walk(configs, s, len) == first_value(configs, s.subrange(0, p)),
    decreases len,
{
    if len != p {
        let q = parent_len(s, len);
        lemma_on_walk_le(s, q, p);
        assert(on_walk(s, len, len));
        assert(first_value(configs, s.subrange(0, len)).is_none());
        assert forall|r: int| on_walk(s, q, r) && r > p implies first_value(configs, #[trigger] s.subrange(0, r)).is_none() by {
            assert(on_walk(s, len, r));
        }
        lemma_longest_prefix_wins(configs, s, q, p);
    }
}

/// No prefix of `key` has a credential record.
pub open spec fn no_credentials_under(configs: Seq<(String, RegistryConfig)>, key: Seq<char>) -> bool {
    forall|q: int| 0 <= q <= key.len() ==> first_value(configs, #[trigger] key.subrange(0, q)).is_none()
}

/// With no record at any prefix of the key, the walk finds nothing.
pub proof fn lemma_walk_finds_nothing(configs: Seq<(String, RegistryConfig)>, s: Seq<char>, len: int)
    requires
        0 <= len <= s.len(),
        no_credentials_under(configs, s),
    ensures
        walk(configs, s, len).is_none(),
    decreases len,
{
    let q = parent_len(s, len);
    if 0 < q < len {
        lemma_walk_finds_nothing(configs, s, q);
    }
}

/// A scope with a registry of its own, and no credentials at any prefix of
/// its lookup key, resolves to that registry with an empty record, not to
/// nothing; unless that registry is the fallback itself.
pub proof fn lemma_scope_without_credentials(rc: NpmRc, scope: Seq<char>, fallback: Seq<char>)
    requires
        first_value(rc.scope_registries@, scope).is_some(),
        strip_scheme(with_trailing_slash(first_value(rc.scope_registries@, scope).unwrap()@)).is_some(),
        with_trailing_slash(first_value(rc.scope_registries@, scope).unwrap()@) != with_trailing_slash(
            fallback,
        ),
        no_credentials_under(
            rc.registry_configs@,
            start_key(
                strip_scheme(with_trailing_slash(first_value(rc.scope_registries@, scope).unwrap()@)).unwrap(),
                Some(scope),
            ),
        ),
    ensures
        resolve_spec(rc, Some(scope), fallback) == Some(
            (with_trailing_slash(first_value(rc.scope_registries@, scope).unwrap()@), empty_config()),
        ),
{
    let url = with_trailing_slash(first_value(rc.scope_registries@, scope).unwrap()@);
    let key = start_key(strip_scheme(url).unwrap(), Some(scope));
    lemma_walk_finds_nothing(rc.registry_configs@, key, key.len() as int);
}

/// A package of no configured scope, where the file sets no global
/// registry, resolves to nothing when the fallback has no credentials at
/// any prefix of the lookup key.
pub proof fn lemma_unconfigured_resolves_to_nothing(
    rc: NpmRc,
    scope: Option<Seq<char>>,
    fallback: Seq<char>,
)
    requires
        rc.registry.is_none(),
        match scope {
            Some(sc) => first_value(rc.scope_registries@, sc).is_none(),
            None => true,
        },
        strip_scheme(with_trailing_slash(fallback)).is_some() ==> no_credentials_under(
            rc.registry_configs@,
            start_key(strip_scheme(with_trailing_slash(fallback)).unwrap(), scope),
        ),
    ensures
        resolve_spec(rc, scope, fallback).is_none(),
{
    let url = with_trailing_slash(fallback);
    if strip_scheme(url).is_some() {
        let key = start_key(strip_scheme(url).unwrap(), scope);
        lemma_walk_finds_nothing(rc.registry_configs@, key, key.len() as int);
    }
}

proof fn lemma_first_value_skip<V>(entries: Seq<(String, V)>, i: int, k: Seq<char>)
    requires
        0 <= i < entries.len(),
    ensures
        first_value(entries.subrange(i, entries.len() as int), k) == if entries[i].0@ == k {
            Some(entries[i].1)
        } else {
            first_value(entries.subrange(i + 1, entries.len() as int), k)
        },
{
    assert(entries.subrange(i, entries.len() as int).drop_first() =~= entries.subrange(
        i + 1,
        entries.len() as int,
    ));
}

/// The index of the first entry keyed by the first `len` characters of `key`.
pub fn find_entry<V>(entries: &Vec<(String, V)>, key: &Vec<char>, len: usize) -> (r: Option<usize>)
    requires
        len <= key@.len(),
    ensures
        match r {
            Some(i) => i < entries@.len() && first_value(entries@, key@.subrange(0, len as int))
                == Some(entries@[i as int].1) && entries@[i as int].0@ == key@.subrange(0, len as int)
                && forall|j: int| 0 <= j < i ==> #[trigger] entries@[j].0@ != key@.subrange(0, len as int),
            None => first_value(entries@, key@.subrange(0, len as int)).is_none(),
        },
{
    let ghost k = key@.subrange(0, len as int);
    let ghost all = entries@;
    assert(all.subrange(0, all.len() as int) =~= all);
    let mut i: usize = 0;
    while i < entries.len()
        invariant
            len <= key@.len(),
            k == key@.subrange(0, len as int),
            all == entries@,
            i <= all.len(),
            first_value(all, k) == first_value(all.subrange(i as int, all.len() as int), k),
            forall|j: int| 0 <= j < i ==> #[trigger] all[j].0@ != k,
        decreases all.len() - i,
    {
        proof {
            lemma_first_value_skip(all, i as int, k);
        }
        if text_eq_prefix(entries[i].0.as_str(), key, len) {
            return Some(i);
        }
        i = i + 1;
    }
    assert(all.subrange(i as int, all.len() as int).len() == 0);
    None
}

/// The index of the first entry keyed by `key`.
pub fn find_key<V>(entries: &Vec<(String, V)>, key: &str) -> (r: Option<usize>)
    ensures
        match r {
            Some(i) => i < entries@.len() && first_value(entries@, key@) == Some(entries@[i as int].1)
                && entries@[i as int].0@ == key@ && forall|j: int|
                0 <= j < i ==> #[trigger] entries@[j].0@ != key@,
            None => first_value(entries@, key@).is_none(),
        },
{
    let kc = chars_of(key);
    assert(kc@.subrange(0, kc@.len() as int) =~= key@);
    find_entry(entries, &kc, kc.len())
}

proof fn lemma_double_slash_bounds(s: Seq<char>, i: int)
    requires
        0 <= i,
    ensures
        double_slash_from(s, i) == -1 || (i <= double_slash_from(s, i) && double_slash_from(s, i)
            + 1 < s.len()),
    decreases s.len() - i,
{
    if i + 1 < s.len() && !(s[i] == '/' && s[i + 1] == '/') {
        lemma_double_slash_bounds(s, i + 1);
    }
}

proof fn lemma_last_slash_bounds(s: Seq<char>, e: int)
    ensures
        -1 <= last_slash_before(s, e) < e || (e <= 0 && last_slash_before(s, e) == -1),
    decreases e,
{
    if e > 0 && s[e - 1] != '/' {
        lemma_last_slash_bounds(s, e - 1);
    }
}

/// Whether `a` is `b` with a `/` added at its end unless it ends in one.
fn eq_with_trailing_slash(a: &str, b: &str) -> (r: bool)
    ensures
        r == (a@ == with_trailing_slash(b@)),
{
    let mut bc = chars_of(b);
    if bc.len() == 0 || bc[bc.len() - 1] != '/' {
        bc.push('/');
    }
    assert(bc@ =~= with_trailing_slash(b@));
    assert(bc@.subrange(0, bc@.len() as int) =~= bc@);
    text_eq_prefix(a, &bc, bc.len())
}

/// The index of the first `//` in `s`, if any.
fn find_double_slash(s: &Vec<char>) -> (r: Option<usize>)
    ensures
        match r {
            Some(p) => p as int == double_slash_from(s@, 0) && p + 1 < s@.len(),
            None => double_slash_from(s@, 0) == -1,
        },
{
    proof {
        lemma_double_slash_bounds(s@, 0);
    }
    let mut i: usize = 0;
    while i < s.len() && i + 1 < s.len()
        invariant
            double_slash_from(s@, i as int) == double_slash_from(s@, 0),
            i <= s@.len(),
        decreases s@.len() - i,
    {
        if s[i] == '/' && s[i + 1] == '/' {
            return Some(i);
        }
        i = i + 1;
    }
    None
}

/// The length of the parent key of `s.subrange(0, len)`.
fn find_parent_len(s: &Vec<char>, len: usize) -> (r: usize)
    requires
        0 < len <= s@.len(),
    ensures
        r as int == parent_len(s@, len as int),
        r < len,
{
    proof {
        lemma_last_slash_bounds(s@, len - 1);
    }
    let mut e: usize = len - 1;
    while e > 0 && s[e - 1] != '/'
        invariant
            e < len <= s@.len(),
            last_slash_before(s@, e as int) == last_slash_before(s@, len - 1),
        decreases e,
    {
        e = e - 1;
    }
    e
}

impl NpmRc {
    /// Each scope and each host/path has at most one entry.
    pub open spec fn wf(self) -> bool {
        keys_unique(self.scope_registries@) && keys_unique(self.registry_configs@)
    }

    /// Resolves the registry URL and credentials for the package `package_name`,
    /// whose scope is the text between a leading `@` and the first `/`.
    pub fn registry_url_and_config_for_package(&self, package_name: &str, env_registry_url: &str) -> (r:
        Option<(String, RegistryConfig)>)
        ensures
            resolved_view(r) == resolve_spec(*self, crate::scope::scope_of(package_name@), env_registry_url@),
    {
        let maybe_scope_name = crate::scope::get_scope_name(package_name);
        self.registry_url_and_config_for_maybe_scope(maybe_scope_name, env_registry_url)
    }

    /// Resolves the registry URL and credentials for `maybe_scope_name`
    /// (no scope: the global settings), against the fallback `env_registry_url`.
    pub fn registry_url_and_config_for_maybe_scope(
        &self,
        maybe_scope_name: Option<&str>,
        env_registry_url: &str,
    ) -> (r: Option<(String, RegistryConfig)>)
        ensures
            resolved_view(r) == resolve_spec(*self, opt_str_view(maybe_scope_name), env_registry_url@),
    {
        let ghost scope = opt_str_view(maybe_scope_name);
        let scoped: Option<usize> = match maybe_scope_name {
            Some(sc) => find_key(&self.scope_registries, sc),
            None => None,
        };
        let base: &str = match scoped {
            Some(i) => self.scope_registries[i].1.as_str(),
            None => match &self.registry {
                Some(g) => g.as_str(),
                None => env_registry_url,
            },
        };
        assert(base@ == base_registry(*self, scope, env_registry_url@));
        let mut url_chars = chars_of(base);
        let normalized: String = if url_chars.len() > 0 && url_chars[url_chars.len() - 1] == '/' {
            String::from_str(base)
        } else {
            url_chars.push('/');
            let slash = "/";
            proof {
                reveal_strlit("/");
            }
            String::from_str(base).concat(slash)
        };
        let ghost url = with_trailing_slash(base@);
        assert(normalized@ =~= url);
        assert(url_chars@ =~= url);
        let p = match find_double_slash(&url_chars) {
            Some(p) => p,
            None => {
                return None;
            },
        };
        let mut key: Vec<char> = Vec::new();
        let ulen = url_chars.len();
        assert(p + 2 <= ulen);
        let mut i: usize = p + 2;
        while i < url_chars.len()
            invariant
                p + 2 <= i <= url_chars@.len(),
                key@ == url_chars@.subrange(p + 2, i as int),
            decreases url_chars@.len() - i,
        {
            key.push(url_chars[i]);
            i = i + 1;
        }
        if let Some(sc) = maybe_scope_name {
            let sc_chars = chars_of(sc);
            let mut k: usize = 0;
            let ghost key0 = key@;
            while k < sc_chars.len()
                invariant
                    k <= sc_chars@.len(),
                    key@ == key0 + sc_chars@.subrange(0, k as int),
                decreases sc_chars@.len() - k,
            {
                key.push(sc_chars[k]);
                k = k + 1;
            }
            key.push('/');
            assert(key@ =~= start_key(key0, scope));
        }
        let ghost start = key@;
        let ghost host_path = url.subrange(p + 2, url.len() as int);
        assert(strip_scheme(url) == Some(host_path));
        assert(start == start_key(host_path, scope));
        let mut len: usize = key.len();
        assert(key@.subrange(0, len as int) =~= key@);
        let ghost configs = self.registry_configs@;
        loop
            invariant
                key@ == start,
                configs == self.registry_configs@,
                len <= start.len(),
                strip_scheme(url) == Some(host_path),
                start == start_key(host_path, scope),
                normalized@ == url,
                url == with_trailing_slash(base_registry(*self, scope, env_registry_url@)),
                scope == opt_str_view(maybe_scope_name),
                walk(configs, start, len as int) == walk(configs, start, start.len() as int),
            ensures
                walk(configs, start, start.len() as int).is_none(),
            decreases len,
        {
            match find_entry(&self.registry_configs, &key, len) {
                Some(idx) => {
                    let found = self.registry_configs[idx].1.duplicate();
                    assert(walk(configs, start, len as int) == Some(configs[idx as int].1));
                    assert(walk(configs, start, start.len() as int) == Some(found));
                    assert(resolve_spec(*self, scope, env_registry_url@) == Some((url, found@)));
                    return Some((normalized, found));
                },
                None => {},
            }
            if len == 0 {
                assert(parent_len(start, 0) == 0);
                break;
            }
            let parent = find_parent_len(&key, len);
            if parent == 0 {
                break;
            }
            len = parent;
        }
        if eq_with_trailing_slash(normalized.as_str(), env_registry_url) {
            None
        } else {
            Some((normalized, RegistryConfig::empty()))
        }
    }
}

} // verus!
