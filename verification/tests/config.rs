use anaphor::config::{
    chat_completions_url, default_max_chars, glm_endpoint, llm_endpoint, openai_compatible_endpoint,
    openrouter_endpoint, parse_usize, toml_string_assignment, v100_glm_api_key_from_str,
    ConfigError, EndpointEnv,
};

fn empty_env() -> EndpointEnv {
    EndpointEnv {
        provider: None,
        base_url: None,
        model: None,
        glm_model: None,
        anaphor_api_key: None,
        openai_api_key: None,
        zhipu_api_key: None,
        openrouter_api_key: None,
        v100_config: None,
    }
}

#[test]
fn builds_chat_completions_url() {
    assert_eq!(
        chat_completions_url("https://api.example.com/v1"),
        "https://api.example.com/v1/chat/completions"
    );
    assert_eq!(
        chat_completions_url("https://api.example.com/v1/chat/completions"),
        "https://api.example.com/v1/chat/completions"
    );
}

#[test]
fn chat_completions_url_trims_space_and_slashes() {
    assert_eq!(
        chat_completions_url("  https://api.example.com/v1//  "),
        "https://api.example.com/v1/chat/completions"
    );
    assert_eq!(chat_completions_url(""), "/chat/completions");
}

#[test]
fn reads_v100_glm_key() {
    let text = r#"
[providers.glm]
default_model = "GLM-5.1"

[providers.glm.auth]
key = "secret"

[providers.other.auth]
key = "ignored"
"#;

    assert_eq!(v100_glm_api_key_from_str(text).as_deref(), Some("secret"));
}

#[test]
fn v100_glm_key_needs_the_auth_table() {
    assert_eq!(v100_glm_api_key_from_str("key = \"top\"\n[providers.glm]\nkey = \"x\""), None);
    assert_eq!(v100_glm_api_key_from_str(""), None);
    assert_eq!(
        v100_glm_api_key_from_str("[providers.glm.auth]\r\nkey = ''\r\nkey = 'second' # note\r\n")
            .as_deref(),
        Some("second")
    );
}

#[test]
fn toml_assignment_reads_quoted_values() {
    assert_eq!(toml_string_assignment("key = \"abc\"", "key").as_deref(), Some("abc"));
    assert_eq!(toml_string_assignment("key='abc' # c", "key").as_deref(), Some("abc"));
    assert_eq!(toml_string_assignment("other = \"abc\"", "key"), None);
    assert_eq!(toml_string_assignment("key = \"\"", "key"), None);
    assert_eq!(toml_string_assignment("# key = \"abc\"", "key"), None);
    assert_eq!(toml_string_assignment("key abc", "key"), None);
    assert_eq!(toml_string_assignment("key = a=b", "key").as_deref(), Some("a=b"));
}

#[test]
fn parses_max_chars_like_std() {
    assert_eq!(parse_usize("30000"), Some(30000));
    assert_eq!(parse_usize("+12"), Some(12));
    assert_eq!(parse_usize("007"), Some(7));
    assert_eq!(parse_usize(""), None);
    assert_eq!(parse_usize("+"), None);
    assert_eq!(parse_usize("-1"), None);
    assert_eq!(parse_usize(" 5"), None);
    assert_eq!(parse_usize("12a"), None);
    assert_eq!(parse_usize("99999999999999999999999"), None);
    assert_eq!(parse_usize(&usize::MAX.to_string()), Some(usize::MAX));
    assert_eq!(default_max_chars(None), 30000);
    assert_eq!(default_max_chars(Some("1234".to_string())), 1234);
    assert_eq!(default_max_chars(Some("lots".to_string())), 30000);
}

#[test]
fn custom_provider_requires_anaphor_api_key() {
    let mut env = empty_env();
    env.openai_api_key = Some("openai-secret".to_string());
    env.base_url = Some("https://api.example.com/v1".to_string());

    let error = match openai_compatible_endpoint("custom", &env) {
        Ok(_) => panic!("custom provider accepted OPENAI_API_KEY"),
        Err(error) => error.message(),
    };
    assert!(error.contains("ANAPHOR_API_KEY"));

    env.anaphor_api_key = Some("custom-secret".to_string());
    let endpoint = openai_compatible_endpoint("custom", &env).unwrap();

    assert_eq!(endpoint.api_key, "custom-secret");
    assert_eq!(endpoint.chat_url, "https://api.example.com/v1/chat/completions");
}

#[test]
fn openai_provider_can_use_openai_api_key() {
    let mut env = empty_env();
    env.openai_api_key = Some("openai-secret".to_string());

    let endpoint = openai_compatible_endpoint("openai", &env).unwrap();

    assert_eq!(endpoint.api_key, "openai-secret");
    assert_eq!(endpoint.model, "gpt-4o-mini");
    assert_eq!(endpoint.chat_url, "https://api.openai.com/v1/chat/completions");
}

#[test]
fn openai_compatible_endpoint_errors() {
    let env = empty_env();
    assert_eq!(
        openai_compatible_endpoint("openai", &env).unwrap_err(),
        ConfigError::OpenAiKeyMissing
    );
    let mut env = empty_env();
    env.anaphor_api_key = Some("k".to_string());
    assert_eq!(
        openai_compatible_endpoint("custom", &env).unwrap_err(),
        ConfigError::BaseUrlMissing
    );
    env.base_url = Some("   ".to_string());
    assert_eq!(
        openai_compatible_endpoint("custom", &env).unwrap_err(),
        ConfigError::BaseUrlMissing
    );
    assert_eq!(
        ConfigError::BaseUrlMissing.message(),
        "ANAPHOR_BASE_URL environment variable not set"
    );
}

#[test]
fn openrouter_is_the_default_provider() {
    let mut env = empty_env();
    assert_eq!(llm_endpoint(&env).unwrap_err(), ConfigError::OpenRouterKeyMissing);
    env.openrouter_api_key = Some("or-key".to_string());
    let endpoint = llm_endpoint(&env).unwrap();
    assert_eq!(endpoint.provider, "openrouter");
    assert_eq!(endpoint.model, "openai/gpt-4o-mini");
    assert_eq!(endpoint.chat_url, "https://openrouter.ai/api/v1/chat/completions");
    assert_eq!(endpoint.api_key, "or-key");
    let direct = openrouter_endpoint(&env).unwrap();
    assert_eq!(direct.api_key, "or-key");
}

#[test]
fn base_url_alone_selects_custom_provider() {
    let mut env = empty_env();
    env.base_url = Some("https://llm.local/v1/".to_string());
    env.anaphor_api_key = Some("local".to_string());
    env.model = Some("m".to_string());
    let endpoint = llm_endpoint(&env).unwrap();
    assert_eq!(endpoint.provider, "custom");
    assert_eq!(endpoint.model, "m");
    assert_eq!(endpoint.chat_url, "https://llm.local/v1/chat/completions");
    env.provider = Some("OpenRouter".to_string());
    env.openrouter_api_key = Some("or".to_string());
    assert_eq!(llm_endpoint(&env).unwrap().provider, "openrouter");
}

#[test]
fn glm_provider_uses_config_file_key() {
    let mut env = empty_env();
    env.provider = Some("Z.AI".to_string());
    assert_eq!(llm_endpoint(&env).unwrap_err(), ConfigError::GlmKeyMissing);
    env.v100_config = Some("[providers.glm.auth]\nkey = \"from-file\"\n".to_string());
    let endpoint = llm_endpoint(&env).unwrap();
    assert_eq!(endpoint.provider, "glm");
    assert_eq!(endpoint.model, "glm-5.1");
    assert_eq!(endpoint.api_key, "from-file");
    assert_eq!(endpoint.chat_url, "https://api.z.ai/api/coding/paas/v4/chat/completions");
    env.zhipu_api_key = Some("zhipu".to_string());
    assert_eq!(glm_endpoint(&env).unwrap().api_key, "zhipu");
    env.anaphor_api_key = Some("anaphor".to_string());
    env.glm_model = Some("glm-x".to_string());
    let endpoint = glm_endpoint(&env).unwrap();
    assert_eq!(endpoint.api_key, "anaphor");
    assert_eq!(endpoint.model, "glm-x");
}

#[test]
fn unknown_provider_is_rejected() {
    let mut env = empty_env();
    env.provider = Some("Mystery".to_string());
    let err = llm_endpoint(&env).unwrap_err();
    assert_eq!(err, ConfigError::UnsupportedProvider("mystery".to_string()));
    assert_eq!(
        err.message(),
        "unsupported ANAPHOR_PROVIDER 'mystery'; use openrouter, glm, openai, or custom"
    );
}

#[test]
fn chat_url_is_stable() {
    for base in ["https://a.b/v1/", " /x ", "", "https://a.b/chat/completions/"] {
        let once = chat_completions_url(base);
        assert!(once.ends_with("/chat/completions"));
        assert_eq!(chat_completions_url(&once), once);
    }
}
