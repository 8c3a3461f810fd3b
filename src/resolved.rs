use vstd::prelude::*;

use crate::config::{
    empty_config, find_key, first_value, keys_unique, resolve_spec, NpmRc, RegistryConfig, RegistryConfigView,
};
use crate::scope::{get_scope_name, scope_of};

verus! {

#[verifier::external_type_specification]
#[verifier::external_body]
pub struct ExUrlParseError(url::ParseError);

/// The serialization of the URL that `url::Url::parse` reads from a text;
/// none where it refuses the text.
pub uninterp spec fn url_serialization(s: Seq<char>) -> Option<Seq<char>>;

/// Relies on url::Url::parse, which accepts or refuses an absolute URL by its
/// text alone, and on Url::as_str, which gives the serialization of what it read.
#[verifier::external_body]
fn parse_url(s: &str) -> (r: Result<String, url::ParseError>)
    ensures
        match r {
            Ok(h) => url_serialization(s@) == Some(h@),
            Err(_) => url_serialization(s@).is_none(),
        },
{
    match url::Url::parse(s) {
        Ok(u) => Ok(u.as_str().to_string()),
        Err(e) => Err(e),
    }
}

/// An absolute URL, held as its serialization.
#[derive(Clone, Debug, PartialEq, Eq)]
pub struct RegistryUrl {
    href: String,
}

impl View for RegistryUrl {
    type V = Seq<char>;

    closed spec fn view(&self) -> Seq<char> {
        self.href@
    }
}

impl RegistryUrl {
    /// Reads an absolute URL from `s`.
    pub fn parse(s: &str) -> (r: Result<RegistryUrl, url::ParseError>)
        ensures
            match r {
                Ok(u) => url_serialization(s@) == Some(u@),
                Err(_) => url_serialization(s@).is_none(),
            },
    {
        match parse_url(s) {
            Ok(href) => Ok(RegistryUrl { href }),
            Err(e) => Err(e),
        }
    }

    /// The serialization of the URL.
    pub fn as_str(&self) -> (r: &str)
        ensures
            r@ == self@,
    {
        self.href.as_str()
    }

    /// A copy of the URL.
    pub fn duplicate(&self) -> (r: RegistryUrl)
        ensures
            r@ == self@,
    {
        RegistryUrl { href: self.href.clone() }
    }
}

/// A registry URL with the credentials that apply to it.
#[derive(Clone, Debug, PartialEq, Eq)]
pub struct RegistryConfigWithUrl {
    pub registry_url: RegistryUrl,
    pub config: RegistryConfig,
}

/// The resolution of every scope of a file, and of packages without a scope
/// of their own.
#[derive(Clone, Debug, PartialEq, Eq)]
pub struct ResolvedNpmRc {
    pub default_config: RegistryConfigWithUrl,
    pub scopes: Vec<(String, RegistryConfigWithUrl)>,
}

/// Why a file's settings could not be resolved.
#[derive(Debug, PartialEq, Eq)]
pub enum NpmRcResolveError {
    /// The registry of the scope leads to no URL.
    UnresolvedScope { scope: String },
    /// The registry URL of the scope is not a valid URL.
    InvalidScopeUrl { scope: String, source: url::ParseError },
    /// The registry URL for packages without a scope is not a valid URL.
    InvalidDefaultUrl { source: url::ParseError },
}

/// `entry` holds the resolution `res`: its URL read as a URL, its credentials.
pub open spec fn entry_holds(entry: RegistryConfigWithUrl, res: (Seq<char>, RegistryConfigView)) -> bool {
    url_serialization(res.0) == Some(entry.registry_url@) && entry.config@ == res.1
}

/// The scope `scope` resolves to a valid URL.
pub open spec fn scope_resolves(rc: NpmRc, scope: Seq<char>, env: Seq<char>) -> bool {
    match resolve_spec(rc, Some(scope), env) {
        Some(res) => url_serialization(res.0).is_some(),
        None => false,
    }
}

/// Packages without a scope of their own resolve to a valid URL, or to nothing.
pub open spec fn default_resolves(rc: NpmRc, env: Seq<char>) -> bool {
    match resolve_spec(rc, None, env) {
        Some(res) => url_serialization(res.0).is_some(),
        None => true,
    }
}

impl ResolvedNpmRc {
    /// The entry that applies to packages of the scope `scope`.
    pub open spec fn entry_for(self, scope: Option<Seq<char>>) -> RegistryConfigWithUrl {
        match scope {
            Some(sc) => match first_value(self.scopes@, sc) {
                Some(e) => e,
                None => self.default_config,
            },
            None => self.default_config,
        }
    }

    /// The registry URL of the package `package_name`.
    pub fn get_registry_url(&self, package_name: &str) -> (r: &RegistryUrl)
        ensures
            r@ == self.entry_for(scope_of(package_name@)).registry_url@,
    {
        let scope_name = match get_scope_name(package_name) {
            Some(s) => s,
            None => {
                return &self.default_config.registry_url;
            },
        };
        match find_key(&self.scopes, scope_name) {
            Some(i) => &self.scopes[i].1.registry_url,
            None => &self.default_config.registry_url,
        }
    }

    /// The credentials of the package `package_name`.
    pub fn get_registry_config(&self, package_name: &str) -> (r: &RegistryConfig)
        ensures
            *r == self.entry_for(scope_of(package_name@)).config,
    {
        let scope_name = match get_scope_name(package_name) {
            Some(s) => s,
            None => {
                return &self.default_config.config;
            },
        };
        match find_key(&self.scopes, scope_name) {
            Some(i) => &self.scopes[i].1.config,
            None => &self.default_config.config,
        }
    }

    /// The default registry URL, then the URL of each scope in turn.
    pub fn get_all_known_registries_urls(&self) -> (r: Vec<RegistryUrl>)
        ensures
            r@.len() == self.scopes@.len() + 1,
            r@[0]@ == self.default_config.registry_url@,
            forall|i: int|
                0 <= i < self.scopes@.len() ==> #[trigger] r@[i + 1]@
                    == self.scopes@[i].1.registry_url@,
    {
        let mut urls: Vec<RegistryUrl> = Vec::new();
        urls.push(self.default_config.registry_url.duplicate());
        let mut i: usize = 0;
        while i < self.scopes.len()
            invariant
                i <= self.scopes@.len(),
                urls@.len() == i + 1,
                urls@[0]@ == self.default_config.registry_url@,
                forall|j: int| 0 <= j < i ==> #[trigger] urls@[j + 1]@ == self.scopes@[j].1.registry_url@,
            decreases self.scopes@.len() - i,
        {
            urls.push(self.scopes[i].1.registry_url.duplicate());
            i = i + 1;
        }
        urls
    }
}

impl NpmRc {
    /// Resolves every scope of the file, and packages without a scope of
    /// their own, against the fallback registry `env_registry_url`.
    pub fn as_resolved(&self, env_registry_url: &RegistryUrl) -> (r: Result<
        ResolvedNpmRc,
        NpmRcResolveError,
    >)
        ensures
            r.is_ok() <==> (forall|i: int|
                0 <= i < self.scope_registries@.len() ==> scope_resolves(
                    *self,
                    #[trigger] self.scope_registries@[i].0@,
                    env_registry_url@,
                )) && default_resolves(*self, env_registry_url@),
            match r {
                Ok(res) => {
                    &&& keys_unique(self.scope_registries@) ==> keys_unique(res.scopes@)
                    &&& res.scopes@.len() == self.scope_registries@.len()
                    &&& forall|i: int|
                        0 <= i < res.scopes@.len() ==> {
                            &&& #[trigger] res.scopes@[i].0@ == self.scope_registries@[i].0@
                            &&& entry_holds(
                                res.scopes@[i].1,
                                resolve_spec(*self, Some(self.scope_registries@[i].0@), env_registry_url@).unwrap(),
                            )
                        }
                    &&& match resolve_spec(*self, None, env_registry_url@) {
                        Some(d) => entry_holds(res.default_config, d),
                        None => res.default_config.registry_url@ == env_registry_url@
                            && res.default_config.config@ == empty_config(),
                    }
                },
                Err(NpmRcResolveError::UnresolvedScope { scope }) => exists|i: int|
                    0 <= i < self.scope_registries@.len() && #[trigger] self.scope_registries@[i].0@
                        == scope@ && resolve_spec(*self, Some(scope@), env_registry_url@).is_none(),
                Err(NpmRcResolveError::InvalidScopeUrl { scope, .. }) => exists|i: int|
                    0 <= i < self.scope_registries@.len() && #[trigger] self.scope_registries@[i].0@
                        == scope@ && !scope_resolves(*self, scope@, env_registry_url@),
                Err(NpmRcResolveError::InvalidDefaultUrl { .. }) => !default_resolves(
                    *self,
                    env_registry_url@,
                ) && forall|i: int|
                    0 <= i < self.scope_registries@.len() ==> scope_resolves(
                        *self,
                        #[trigger] self.scope_registries@[i].0@,
                        env_registry_url@,
                    ),
            },
    {
        let ghost env = env_registry_url@;
        let mut scopes: Vec<(String, RegistryConfigWithUrl)> = Vec::new();
        let mut i: usize = 0;
        while i < self.scope_registries.len()
            invariant
                env == env_registry_url@,
                i <= self.scope_registries@.len(),
                scopes@.len() == i,
                forall|j: int|
                    0 <= j < i ==> scope_resolves(*self, #[trigger] self.scope_registries@[j].0@, env),
                forall|j: int|
                    0 <= j < i ==> {
                        &&& #[trigger] scopes@[j].0@ == self.scope_registries@[j].0@
                        &&& entry_holds(
                            scopes@[j].1,
                            resolve_spec(*self, Some(self.scope_registries@[j].0@), env).unwrap(),
                        )
                    },
            decreases self.scope_registries@.len() - i,
        {
            let scope = self.scope_registries[i].0.as_str();
            match self.registry_url_and_config_for_maybe_scope(Some(scope), env_registry_url.as_str()) {
                Some((url, config)) => match RegistryUrl::parse(url.as_str()) {
                    Ok(u) => {
                        scopes.push((String::from_str(scope), RegistryConfigWithUrl { registry_url: u, config }));
                    },
                    Err(e) => {
                        return Err(NpmRcResolveError::InvalidScopeUrl { scope: String::from_str(scope), source: e });
                    },
                },
                None => {
                    return Err(NpmRcResolveError::UnresolvedScope { scope: String::from_str(scope) });
                },
            }
            i = i + 1;
        }
        let default_config = match self.registry_url_and_config_for_maybe_scope(None, env_registry_url.as_str()) {
            Some((url, config)) => match RegistryUrl::parse(url.as_str()) {
                Ok(u) => RegistryConfigWithUrl { registry_url: u, config },
                Err(e) => {
                    return Err(NpmRcResolveError::InvalidDefaultUrl { source: e });
                },
            },
            None => RegistryConfigWithUrl {
                registry_url: env_registry_url.duplicate(),
                config: RegistryConfig::empty(),
            },
        };
        assert(keys_unique(self.scope_registries@) ==> keys_unique(scopes@)) by {
            if keys_unique(self.scope_registries@) {
                assert forall|a: int, b: int| 0 <= a < b < scopes@.len() implies #[trigger] scopes@[a].0@
                    != #[trigger] scopes@[b].0@ by {
                    assert(self.scope_registries@[a].0@ != self.scope_registries@[b].0@);
                }
            }
        }
        Ok(ResolvedNpmRc { default_config, scopes })
    }
}

} // verus!
