use npmrc::config::{NpmRc, RegistryConfig};
use npmrc::expand::expand_vars;
use npmrc::resolved::{RegistryConfigWithUrl, RegistryUrl, ResolvedNpmRc};

fn s(v: &str) -> String {
    v.to_string()
}

#[test]
fn test_parse_basic() {
    let npm_rc = NpmRc::parse(
        r#"
@myorg:registry=https://example.com/myorg
@another:registry=https://example.com/another
@example:registry=https://example.com/example
//registry.npmjs.org/:_authToken=MYTOKEN
; would apply to both @myorg and @another
//example.com/:_authToken=MYTOKEN0
//example.com/:_auth=AUTH
//example.com/:username=USERNAME
//example.com/:_password=PASSWORD
//example.com/:email=EMAIL
//example.com/:certfile=CERTFILE
//example.com/:keyfile=KEYFILE
; would apply only to @myorg
//example.com/myorg/:_authToken=MYTOKEN1
; would apply only to @another
//example.com/another/:_authToken=MYTOKEN2
registry=https://registry.npmjs.org/
"#,
        &|_| None,
    )
    .unwrap();
    assert_eq!(
        npm_rc,
        NpmRc {
            registry: Some(s("https://registry.npmjs.org/")),
            scope_registries: vec![
                (s("myorg"), s("https://example.com/myorg")),
                (s("another"), s("https://example.com/another")),
                (s("example"), s("https://example.com/example")),
            ],
            registry_configs: vec![
                (
                    s("registry.npmjs.org/"),
                    RegistryConfig {
                        auth_token: Some(s("MYTOKEN")),
                        ..Default::default()
                    }
                ),
                (
                    s("example.com/"),
                    RegistryConfig {
                        auth: Some(s("AUTH")),
                        auth_token: Some(s("MYTOKEN0")),
                        username: Some(s("USERNAME")),
                        password: Some(s("PASSWORD")),
                        email: Some(s("EMAIL")),
                        certfile: Some(s("CERTFILE")),
                        keyfile: Some(s("KEYFILE")),
                    }
                ),
                (
                    s("example.com/myorg/"),
                    RegistryConfig {
                        auth_token: Some(s("MYTOKEN1")),
                        ..Default::default()
                    }
                ),
                (
                    s("example.com/another/"),
                    RegistryConfig {
                        auth_token: Some(s("MYTOKEN2")),
                        ..Default::default()
                    }
                ),
            ],
        }
    );

    // no matching scoped package
    {
        let (registry_url, config) = npm_rc
            .registry_url_and_config_for_package("test", "https://deno.land/npm/")
            .unwrap();
        assert_eq!(registry_url, "https://registry.npmjs.org/");
        assert_eq!(config.auth_token, Some(s("MYTOKEN")));
    }
    // matching scoped package
    {
        let (registry_url, config) = npm_rc
            .registry_url_and_config_for_package("@example/pkg", "https://deno.land/npm/")
            .unwrap();
        assert_eq!(registry_url, "https://example.com/example/");
        assert_eq!(config.auth_token, Some(s("MYTOKEN0")));
    }
    // matching scoped package with specific token
    {
        let (registry_url, config) = npm_rc
            .registry_url_and_config_for_package("@myorg/pkg", "https://deno.land/npm/")
            .unwrap();
        assert_eq!(registry_url, "https://example.com/myorg/");
        assert_eq!(config.auth_token, Some(s("MYTOKEN1")));
    }

    let resolved_npm_rc = npm_rc
        .as_resolved(&RegistryUrl::parse("https://deno.land/npm/").unwrap())
        .unwrap();
    assert_eq!(
        resolved_npm_rc,
        ResolvedNpmRc {
            default_config: RegistryConfigWithUrl {
                registry_url: RegistryUrl::parse("https://registry.npmjs.org/").unwrap(),
                config: RegistryConfig {
                    auth_token: Some(s("MYTOKEN")),
                    ..Default::default()
                },
            },
            scopes: vec![
                (
                    s("myorg"),
                    RegistryConfigWithUrl {
                        registry_url: RegistryUrl::parse("https://example.com/myorg/").unwrap(),
                        config: RegistryConfig {
                            auth_token: Some(s("MYTOKEN1")),
                            ..Default::default()
                        }
                    }
                ),
                (
                    s("another"),
                    RegistryConfigWithUrl {
                        registry_url: RegistryUrl::parse("https://example.com/another/").unwrap(),
                        config: RegistryConfig {
                            auth_token: Some(s("MYTOKEN2")),
                            ..Default::default()
                        }
                    }
                ),
                (
                    s("example"),
                    RegistryConfigWithUrl {
                        registry_url: RegistryUrl::parse("https://example.com/example/").unwrap(),
                        config: RegistryConfig {
                            auth: Some(s("AUTH")),
                            auth_token: Some(s("MYTOKEN0")),
                            username: Some(s("USERNAME")),
                            password: Some(s("PASSWORD")),
                            email: Some(s("EMAIL")),
                            certfile: Some(s("CERTFILE")),
                            keyfile: Some(s("KEYFILE")),
                        }
                    }
                ),
            ],
        }
    );

    assert_eq!(
        resolved_npm_rc.get_registry_url("@deno/test").as_str(),
        "https://registry.npmjs.org/"
    );
    assert_eq!(
        resolved_npm_rc
            .get_registry_config("@deno/test")
            .auth_token
            .as_ref()
            .unwrap(),
        "MYTOKEN"
    );

    assert_eq!(
        resolved_npm_rc.get_registry_url("@myorg/test").as_str(),
        "https://example.com/myorg/"
    );
    assert_eq!(
        resolved_npm_rc
            .get_registry_config("@myorg/test")
            .auth_token
            .as_ref()
            .unwrap(),
        "MYTOKEN1"
    );

    assert_eq!(
        resolved_npm_rc.get_registry_url("@another/test").as_str(),
        "https://example.com/another/"
    );
    assert_eq!(
        resolved_npm_rc
            .get_registry_config("@another/test")
            .auth_token
            .as_ref()
            .unwrap(),
        "MYTOKEN2"
    );

    assert_eq!(
        resolved_npm_rc.get_registry_url("@example/test").as_str(),
        "https://example.com/example/"
    );
    let config = resolved_npm_rc.get_registry_config("@example/test");
    assert_eq!(config.auth.as_ref().unwrap(), "AUTH");
    assert_eq!(config.auth_token.as_ref().unwrap(), "MYTOKEN0");
    assert_eq!(config.username.as_ref().unwrap(), "USERNAME");
    assert_eq!(config.password.as_ref().unwrap(), "PASSWORD");
    assert_eq!(config.email.as_ref().unwrap(), "EMAIL");
    assert_eq!(config.certfile.as_ref().unwrap(), "CERTFILE");
    assert_eq!(config.keyfile.as_ref().unwrap(), "KEYFILE");
}

#[test]
fn test_parse_env_vars() {
    let npm_rc = NpmRc::parse(
        r#"
@myorg:registry=${VAR_FOUND}
@another:registry=${VAR_NOT_FOUND}
@a:registry=\${VAR_FOUND}
//registry.npmjs.org/:_authToken=${VAR_FOUND}
registry=${VAR_FOUND}
"#,
        &|var_name| match var_name {
            "VAR_FOUND" => Some(s("SOME_VALUE")),
            _ => None,
        },
    )
    .unwrap();
    assert_eq!(
        npm_rc,
        NpmRc {
            registry: Some(s("SOME_VALUE")),
            scope_registries: vec![
                (s("myorg"), s("SOME_VALUE")),
                (s("another"), s("${VAR_NOT_FOUND}")),
                (s("a"), s("${VAR_FOUND}")),
            ],
            registry_configs: vec![(
                s("registry.npmjs.org/"),
                RegistryConfig {
                    auth_token: Some(s("SOME_VALUE")),
                    ..Default::default()
                }
            )],
        }
    )
}

#[test]
fn test_expand_vars() {
    assert_eq!(
        expand_vars("test${VAR}test", &|var_name| {
            match var_name {
                "VAR" => Some(s("VALUE")),
                _ => None,
            }
        }),
        "testVALUEtest"
    );
    assert_eq!(
        expand_vars("${A}${B}${C}", &|var_name| {
            match var_name {
                "A" => Some(s("1")),
                "B" => Some(s("2")),
                "C" => Some(s("3")),
                _ => None,
            }
        }),
        "123"
    );
    assert_eq!(
        expand_vars("test\\${VAR}test", &|var_name| {
            match var_name {
                "VAR" => Some(s("VALUE")),
                _ => None,
            }
        }),
        "test${VAR}test"
    );
    assert_eq!(
        // npm ignores values with $ in them
        expand_vars("test${VA$R}test", &|_| {
            unreachable!();
        }),
        "test${VA$R}test"
    );
    assert_eq!(
        // npm ignores values with { in them
        expand_vars("test${VA{R}test", &|_| {
            unreachable!();
        }),
        "test${VA{R}test"
    );
}

#[test]
fn test_scope_registry_url_only() {
    let npm_rc = NpmRc::parse(
        r#"
@example:registry=https://example.com/
"#,
        &|_| None,
    )
    .unwrap();
    {
        let (registry_url, config) = npm_rc
            .registry_url_and_config_for_package("@example/test", "https://deno.land/npm/")
            .unwrap();
        assert_eq!(registry_url, "https://example.com/");
        assert_eq!(config, RegistryConfig::default());
    }
    {
        assert!(npm_rc
            .registry_url_and_config_for_package("test", "https://deno.land/npm/")
            .is_none());
    }
}

#[test]
fn test_scope_with_auth() {
    let npm_rc = NpmRc::parse(
        r#"
@example:registry=https://example.com/
//example.com/example/:_authToken=MY_AUTH_TOKEN
"#,
        &|_| None,
    )
    .unwrap();
    {
        let (registry_url, config) = npm_rc
            .registry_url_and_config_for_package("@example/test", "https://deno.land/npm/")
            .unwrap();
        assert_eq!(registry_url, "https://example.com/");
        assert_eq!(
            config,
            RegistryConfig {
                auth_token: Some(s("MY_AUTH_TOKEN")),
                ..Default::default()
            }
        );
    }
}
