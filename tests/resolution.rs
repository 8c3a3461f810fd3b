use npmrc::config::{NpmRc, RegistryConfig};
use npmrc::expand::expand_vars;
use npmrc::ini::NpmRcParseError;
use npmrc::resolved::{NpmRcResolveError, RegistryUrl};
use npmrc::scope::get_scope_name;

fn no_env(_: &str) -> Option<String> {
    None
}

fn parse(text: &str) -> NpmRc {
    NpmRc::parse(text, &no_env).unwrap()
}

#[test]
fn scenario_scoped_token_and_global_registry() {
    let rc = parse(
        "@myorg:registry=https://example.com/myorg\n//example.com/:_authToken=T0\n//example.com/myorg/:_authToken=T1\nregistry=https://registry.npmjs.org/\n",
    );
    let (url, config) = rc
        .registry_url_and_config_for_package("@myorg/pkg", "https://deno.land/npm/")
        .unwrap();
    assert_eq!(url, "https://example.com/myorg/");
    assert_eq!(config.auth_token, Some("T1".to_string()));
    let (url, config) = rc
        .registry_url_and_config_for_package("other", "https://deno.land/npm/")
        .unwrap();
    assert_eq!(url, "https://registry.npmjs.org/");
    assert_eq!(config, RegistryConfig::default());
}

#[test]
fn scenario_escaped_scope_registry_kept() {
    let rc = NpmRc::parse("@a:registry=\\${VAR}\n@b:registry=${VAR}\n", &|name| {
        if name == "VAR" {
            Some("V".to_string())
        } else {
            None
        }
    })
    .unwrap();
    assert_eq!(
        rc.scope_registries,
        vec![
            ("a".to_string(), "${VAR}".to_string()),
            ("b".to_string(), "V".to_string())
        ]
    );
}

#[test]
fn longest_prefix_wins_over_shorter() {
    let rc = parse("//host.example/:_authToken=SHORT\n//host.example/a/b/:_authToken=LONG\n//host.example/a/:_authToken=MID\n@s:registry=https://host.example/a/b\n");
    let (url, config) = rc
        .registry_url_and_config_for_package("@s/x", "https://deno.land/npm/")
        .unwrap();
    assert_eq!(url, "https://host.example/a/b/");
    assert_eq!(config.auth_token, Some("LONG".to_string()));
    let (_, config) = rc
        .registry_url_and_config_for_maybe_scope(None, "https://host.example/a/b/c/")
        .unwrap();
    assert_eq!(config.auth_token, Some("LONG".to_string()));
    let (_, config) = rc
        .registry_url_and_config_for_maybe_scope(None, "https://host.example/a/z/")
        .unwrap();
    assert_eq!(config.auth_token, Some("MID".to_string()));
}

#[test]
fn scope_without_credentials_gets_empty_record() {
    let rc = parse("@s:registry=https://custom.example/reg\n//other.example/:_authToken=X\n");
    let (url, config) = rc
        .registry_url_and_config_for_package("@s/pkg", "https://deno.land/npm/")
        .unwrap();
    assert_eq!(url, "https://custom.example/reg/");
    assert_eq!(config, RegistryConfig::default());
}

#[test]
fn unconfigured_package_resolves_to_nothing() {
    let rc = parse("//other.example/:_authToken=X\n@s:registry=https://custom.example/\n");
    assert!(rc
        .registry_url_and_config_for_package("@t/pkg", "https://deno.land/npm/")
        .is_none());
    assert!(rc
        .registry_url_and_config_for_package("plain", "https://deno.land/npm/")
        .is_none());
}

#[test]
fn fallback_without_slash_still_means_nothing_configured() {
    let rc = parse("");
    assert!(rc
        .registry_url_and_config_for_package("plain", "https://deno.land/npm")
        .is_none());
    let rc = parse("registry=https://deno.land/npm/\n");
    assert!(rc
        .registry_url_and_config_for_package("plain", "https://deno.land/npm")
        .is_none());
}

#[test]
fn fallback_credentials_apply() {
    let rc = parse("//deno.land/npm/:_authToken=D\n");
    let (url, config) = rc
        .registry_url_and_config_for_package("plain", "https://deno.land/npm/")
        .unwrap();
    assert_eq!(url, "https://deno.land/npm/");
    assert_eq!(config.auth_token, Some("D".to_string()));
}

#[test]
fn registry_without_scheme_separator_resolves_to_nothing() {
    let rc = parse("registry=nothing-here\n");
    assert!(rc
        .registry_url_and_config_for_package("plain", "https://deno.land/npm/")
        .is_none());
}

#[test]
fn expansion_leaves_plain_text_alone() {
    let text = "https://example.com/a_b-c:d$e{f}";
    assert_eq!(expand_vars(text, &|_| Some("X".to_string())), text);
    assert_eq!(expand_vars("", &|_| Some("X".to_string())), "");
}

#[test]
fn expansion_never_expands_escaped_placeholder() {
    assert_eq!(expand_vars("a\\${X}b", &|_| Some("VALUE".to_string())), "a${X}b");
    assert_eq!(expand_vars("a\\${X}b", &|_| None), "a${X}b");
}

#[test]
fn expansion_edge_cases() {
    // a backslash escapes any character, and a trailing one stays
    assert_eq!(expand_vars("a\\bc\\", &no_env), "abc\\");
    // an unclosed placeholder is text
    assert_eq!(expand_vars("x${NAME", &|_| Some("V".to_string())), "x${NAME");
    // an empty name is looked up like any other
    assert_eq!(
        expand_vars("${}", &|n| if n.is_empty() { Some("E".to_string()) } else { None }),
        "E"
    );
    // a backslash inside the braces makes the span text
    assert_eq!(expand_vars("${A\\}B}", &|_| Some("V".to_string())), "${A}B}");
    // a value is inserted once, not expanded again
    assert_eq!(expand_vars("${A}", &|_| Some("${A}".to_string())), "${A}");
    // characters beyond ASCII are kept
    assert_eq!(expand_vars("é${K}ü", &|_| Some("ß".to_string())), "éßü");
}

#[test]
fn tokenizer_layout() {
    let rc = parse(
        "  registry = \"https://quoted.example/\"  \n# comment\n; comment\n[section]\n\"@q:registry\"=https://ignored.example/\n@r:registry='https://single.example/'\n//h.example/:unknown=1\nflag\n",
    );
    assert_eq!(rc.registry, Some("https://quoted.example/".to_string()));
    assert_eq!(
        rc.scope_registries,
        vec![("r".to_string(), "https://single.example/".to_string())]
    );
    assert!(rc.registry_configs.is_empty());
}

#[test]
fn unknown_credential_field_does_not_hide_shorter_prefix() {
    let rc = parse("//h.example/:_authToken=TOP\n//h.example/sub/:unknown=1\n@s:registry=https://h.example/sub\n");
    assert_eq!(
        rc.registry_configs,
        vec![(
            "h.example/".to_string(),
            RegistryConfig {
                auth_token: Some("TOP".to_string()),
                ..Default::default()
            }
        )]
    );
    let (url, config) = rc
        .registry_url_and_config_for_package("@s/pkg", "https://deno.land/npm/")
        .unwrap();
    assert_eq!(url, "https://h.example/sub/");
    assert_eq!(config.auth_token, Some("TOP".to_string()));
}

#[test]
fn scope_error_comes_before_default_error() {
    let env = RegistryUrl::parse("https://deno.land/npm/").unwrap();
    match parse("registry=foo//bar\n@b:registry=foo//baz\n").as_resolved(&env) {
        Err(NpmRcResolveError::InvalidScopeUrl { scope, .. }) => assert_eq!(scope, "b"),
        other => panic!("unexpected {:?}", other),
    }
}

#[test]
fn settings_and_views_can_be_copied() {
    let rc = parse("@s:registry=https://s.example/\n");
    assert_eq!(rc.clone(), rc);
    assert_eq!(NpmRc::default().registry, None);
    let resolved = rc
        .as_resolved(&RegistryUrl::parse("https://deno.land/npm/").unwrap())
        .unwrap();
    assert_eq!(resolved.clone(), resolved);
    assert_eq!(resolved.default_config.clone(), resolved.default_config);
}

#[test]
fn later_directive_replaces_earlier() {
    let rc = parse("registry=https://one.example/\nregistry=https://two.example/\n@s:registry=https://a.example/\n@s:registry=https://b.example/\n//h.example/:_authToken=A\n//h.example/:_authToken=B\n//h.example/:email=E\n");
    assert_eq!(rc.registry, Some("https://two.example/".to_string()));
    assert_eq!(
        rc.scope_registries,
        vec![("s".to_string(), "https://b.example/".to_string())]
    );
    assert_eq!(
        rc.registry_configs,
        vec![(
            "h.example/".to_string(),
            RegistryConfig {
                auth_token: Some("B".to_string()),
                email: Some("E".to_string()),
                ..Default::default()
            }
        )]
    );
}

#[test]
fn host_with_colon_splits_at_last_colon() {
    let rc = parse("//localhost:4873/:_authToken=LOCAL\nregistry=http://localhost:4873\n");
    let (url, config) = rc
        .registry_url_and_config_for_package("x", "https://deno.land/npm/")
        .unwrap();
    assert_eq!(url, "http://localhost:4873/");
    assert_eq!(config.auth_token, Some("LOCAL".to_string()));
}

#[test]
fn parse_errors() {
    assert_eq!(
        NpmRc::parse("registry=a\n[broken\n", &no_env),
        Err(NpmRcParseError::UnclosedSection { line: 2 })
    );
    assert_eq!(
        NpmRc::parse("\n\nregistry=\"https://x.example/\n", &no_env),
        Err(NpmRcParseError::UnclosedQuote { line: 3 })
    );
    assert_eq!(
        NpmRc::parse("\"key=1\n", &no_env),
        Err(NpmRcParseError::UnclosedQuote { line: 1 })
    );
}

#[test]
fn resolve_errors() {
    let env = RegistryUrl::parse("https://deno.land/npm/").unwrap();
    match parse("@a:registry=nothing-here\n").as_resolved(&env) {
        Err(NpmRcResolveError::UnresolvedScope { scope }) => assert_eq!(scope, "a"),
        other => panic!("unexpected {:?}", other),
    }
    match parse("@b:registry=foo//bar\n").as_resolved(&env) {
        Err(NpmRcResolveError::InvalidScopeUrl { scope, .. }) => assert_eq!(scope, "b"),
        other => panic!("unexpected {:?}", other),
    }
    match parse("registry=foo//bar\n").as_resolved(&env) {
        Err(NpmRcResolveError::InvalidDefaultUrl { .. }) => {}
        other => panic!("unexpected {:?}", other),
    }
}

#[test]
fn resolved_default_falls_back_to_env() {
    let env = RegistryUrl::parse("https://deno.land/npm/").unwrap();
    let resolved = parse("@s:registry=https://s.example/\n").as_resolved(&env).unwrap();
    assert_eq!(resolved.get_registry_url("plain").as_str(), "https://deno.land/npm/");
    assert_eq!(resolved.get_registry_url("@s/x").as_str(), "https://s.example/");
    assert_eq!(resolved.get_registry_url("@t/x").as_str(), "https://deno.land/npm/");
    assert_eq!(resolved.get_registry_config("plain"), &RegistryConfig::default());
    let urls: Vec<String> = resolved
        .get_all_known_registries_urls()
        .iter()
        .map(|u| u.as_str().to_string())
        .collect();
    assert_eq!(urls, vec!["https://deno.land/npm/", "https://s.example/"]);
}

#[test]
fn url_is_normalized_by_parser() {
    let u = RegistryUrl::parse("HTTPS://Example.COM").unwrap();
    assert_eq!(u.as_str(), "https://example.com/");
    assert!(RegistryUrl::parse("not a url").is_err());
}

#[test]
fn scope_names() {
    assert_eq!(get_scope_name("@scope/pkg"), Some("scope"));
    assert_eq!(get_scope_name("@scope/pkg/sub"), Some("scope"));
    assert_eq!(get_scope_name("@/pkg"), Some(""));
    assert_eq!(get_scope_name("@scope"), None);
    assert_eq!(get_scope_name("pkg"), None);
    assert_eq!(get_scope_name(""), None);
}

#[test]
fn escaped_value_reads_back_as_written() {
    let rc = NpmRc::parse("registry=a\\$b\\\\c\\${X}\n", &|_| Some("V".to_string())).unwrap();
    assert_eq!(rc.registry, Some("a$b\\c${X}".to_string()));
}
