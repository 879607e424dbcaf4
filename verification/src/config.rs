//! Configuration: the context budget, and which LLM endpoint to call with
//! which key, resolved from the environment's values.
use vstd::prelude::*;

use crate::json::str_eq;
use crate::text::{
    ascii_lowercase, ascii_lowercase_vec, before_char, chars_of, find_char, has_suffix, lines,
    lines_of, push_str, split_once, split_once_vec, string_of, sub_vec, trim, trim_char,
    trim_char_vec, trim_end_char, trim_end_char_vec, trim_vec,
};
use crate::tools::{decimal, digit, has_content};
use crate::types::opt_view;

verus! {

/// The context budget used when none is configured.
pub const DEFAULT_MAX_CHARS: usize = 30000;

/// The chat completions endpoint of OpenRouter.
pub const OPENROUTER_CHAT_COMPLETIONS_URL: &'static str =
    "https://openrouter.ai/api/v1/chat/completions";

/// The base URL of the GLM coding API.
pub const GLM_BASE_URL: &'static str = "https://api.z.ai/api/coding/paas/v4";

/// The GLM model used when none is configured.
pub const GLM_DEFAULT_MODEL: &'static str = "glm-5.1";

/// Whether `c` is a decimal digit.
pub open spec fn is_digit(c: char) -> bool {
    '0' <= c && c <= '9'
}

/// The number that the decimal digits `s` spell.
pub open spec fn digits_value(s: Seq<char>) -> nat
    decreases s.len(),
{
    if s.len() == 0 {
        0
    } else {
        digits_value(s.drop_last()) * 10 + ((s.last() as nat) - 48) as nat
    }
}

/// The digits part of a number: `s` without one leading `+`.
pub open spec fn unsigned_digits(s: Seq<char>) -> Seq<char> {
    if s.len() > 0 && s[0] == '+' {
        s.drop_first()
    } else {
        s
    }
}

/// Whether every character of `d` is a decimal digit.
pub open spec fn all_digits(d: Seq<char>) -> bool {
    forall|i: int| 0 <= i < d.len() ==> is_digit(#[trigger] d[i])
}

/// What `str::parse::<usize>` gives: an optional `+`, then one or more
/// decimal digits whose value fits in `usize`.
pub open spec fn parsed_usize(s: Seq<char>) -> Option<usize> {
    if unsigned_digits(s).len() > 0 && all_digits(unsigned_digits(s)) && digits_value(
        unsigned_digits(s),
    ) <= usize::MAX {
        Some(digits_value(unsigned_digits(s)) as usize)
    } else {
        None
    }
}

proof fn lemma_digits_value_grows(s: Seq<char>, k: int)
    requires
        0 <= k <= s.len(),
        forall|i: int| 0 <= i < s.len() ==> is_digit(#[trigger] s[i]),
    ensures
        digits_value(s.take(k)) <= digits_value(s),
    decreases s.len(),
{
    if k < s.len() {
        assert(s.drop_last().take(k) == s.take(k));
        assert forall|i: int| 0 <= i < s.drop_last().len() implies is_digit(
            #[trigger] s.drop_last()[i],
        ) by {
            assert(s.drop_last()[i] == s[i]);
        }
        lemma_digits_value_grows(s.drop_last(), k);
    } else {
        assert(s.take(k) == s);
    }
}

/// Parses a decimal `usize` as `str::parse` does.
pub fn parse_usize(s: &str) -> (r: Option<usize>)
    ensures
        r == parsed_usize(s@),
{
    let v = chars_of(s);
    let ghost dd = unsigned_digits(s@);
    let d = if v.len() > 0 && v[0] == '+' {
        let t = sub_vec(&v, 1, v.len());
        assert(t@ == v@.drop_first());
        t
    } else {
        let t = sub_vec(&v, 0, v.len());
        assert(t@ == v@);
        t
    };
    assert(d@ == dd);
    if d.len() == 0 {
        return None;
    }
    let mut value: usize = 0;
    let mut i: usize = 0;
    assert(d@.take(0) =~= Seq::<char>::empty());
    while i < d.len()
        invariant
            0 < d@.len(),
            d@ == dd,
            dd == unsigned_digits(s@),
            i <= d@.len(),
            forall|j: int| 0 <= j < i ==> is_digit(#[trigger] d@[j]),
            value == digits_value(d@.take(i as int)),
        decreases d.len() - i,
    {
        let c = d[i];
        if !('0' <= c && c <= '9') {
            assert(!is_digit(dd[i as int]));
            assert(!all_digits(dd));
            assert(parsed_usize(s@) is None);
            return None;
        }
        let dig = (c as u32 - 48) as usize;
        assert(d@.take(i + 1).drop_last() == d@.take(i as int));
        assert(d@.take(i + 1).last() == c);
        assert(dig == (c as nat) - 48);
        assert(digits_value(d@.take(i + 1)) == value * 10 + dig);
        let next = match value.checked_mul(10) {
            Some(m) => m.checked_add(dig),
            None => None,
        };
        match next {
            Some(n) => {
                value = n;
            },
            None => {
                proof {
                    assert(value * 10 + dig > usize::MAX);
                    if all_digits(dd) {
                        lemma_digits_value_grows(d@, i + 1);
                        assert(digits_value(dd) > usize::MAX);
                    }
                    assert(parsed_usize(s@) is None);
                }
                return None;
            },
        }
        i = i + 1;
    }
    assert(d@.take(d@.len() as int) == d@);
    Some(value)
}

proof fn lemma_decimal_spells(n: nat)
    ensures
        decimal(n).len() > 0,
        all_digits(decimal(n)),
        digits_value(decimal(n)) == n,
    decreases n,
{
    if n < 10 {
        assert(digit(n) as nat == 48 + n);
        assert(decimal(n).drop_last() == Seq::<char>::empty());
        assert(digits_value(Seq::<char>::empty()) == 0);
    } else {
        lemma_decimal_spells(n / 10);
        let d = decimal(n / 10);
        assert(digit(n % 10) as nat == 48 + n % 10);
        assert(decimal(n).drop_last() == d);
        assert(decimal(n).last() == digit(n % 10));
        assert((n / 10) * 10 + n % 10 == n) by (nonlinear_arith);
        assert forall|i: int| 0 <= i < decimal(n).len() implies is_digit(
            #[trigger] decimal(n)[i],
        ) by {
            if i < d.len() {
                assert(decimal(n)[i] == d[i]);
            }
        }
    }
}

/// Reading back what was written: the decimal digits of any `usize`
/// parse to that number.
pub proof fn lemma_parse_usize_reads_decimal(n: usize)
    ensures
        parsed_usize(decimal(n as nat)) == Some(n),
{
    lemma_decimal_spells(n as nat);
    assert(is_digit(decimal(n as nat)[0]));
    assert(unsigned_digits(decimal(n as nat)) == decimal(n as nat));
}

/// The context budget for a configured value: the value when it parses as
/// a `usize`, `DEFAULT_MAX_CHARS` otherwise or when none is set.
pub fn default_max_chars(configured: Option<String>) -> (r: usize)
    ensures
        r == match configured {
            Some(v) => match parsed_usize(v@) {
                Some(n) => n,
                None => DEFAULT_MAX_CHARS,
            },
            None => DEFAULT_MAX_CHARS,
        },
{
    match configured {
        Some(v) => match parse_usize(v.as_str()) {
            Some(n) => n,
            None => DEFAULT_MAX_CHARS,
        },
        None => DEFAULT_MAX_CHARS,
    }
}

/// The chat completions URL for a base URL: trimmed, without trailing
/// slashes, and `/chat/completions` appended unless it already ends so.
pub open spec fn chat_url(base: Seq<char>) -> Seq<char> {
    let b = trim_end_char(trim(base), '/');
    if "/chat/completions"@.is_suffix_of(b) {
        b
    } else {
        b + "/chat/completions"@
    }
}

/// Builds the chat completions URL for an OpenAI-compatible base URL.
pub fn chat_completions_url(base_url: &str) -> (r: String)
    ensures
        r@ == chat_url(base_url@),
{
    let v = chars_of(base_url);
    let t = trim_vec(&v);
    let mut b = trim_end_char_vec(&t, '/');
    if !has_suffix(&b, "/chat/completions") {
        push_str(&mut b, "/chat/completions");
    }
    string_of(&b)
}

/// The value of `key` in one TOML line, when the line (comment removed)
/// assigns a non-empty, optionally quoted value to exactly that key.
pub open spec fn toml_value(line: Seq<char>, key: Seq<char>) -> Option<Seq<char>> {
    let l = trim(before_char(line, '#'));
    match split_once(l, '=') {
        None => None,
        Some((left, right)) => if trim(left) != key {
            None
        } else {
            let value = trim_char(trim_char(trim(right), '"'), '\'');
            if value.len() == 0 {
                None
            } else {
                Some(value)
            }
        },
    }
}

/// The value that `line` assigns to `key`, quotes removed; `None` when the
/// line assigns another key, nothing, or an empty value.
pub fn toml_string_assignment(line: &str, key: &str) -> (r: Option<String>)
    ensures
        opt_view(r) == toml_value(line@, key@),
{
    let v = chars_of(line);
    let hash = find_char(&v, '#');
    let head = sub_vec(&v, 0, hash);
    let l = trim_vec(&head);
    match split_once_vec(&l, '=') {
        None => None,
        Some((left, right)) => {
            let lt = trim_vec(&left);
            if !crate::text::chars_eq_str(&lt, key) {
                return None;
            }
            let rt = trim_vec(&right);
            let unquoted = trim_char_vec(&rt, '"');
            let value = trim_char_vec(&unquoted, '\'');
            if value.len() == 0 {
                None
            } else {
                Some(string_of(&value))
            }
        },
    }
}

/// The GLM key that the config lines `ls` give, reading on from a place
/// inside (`in_auth`) or outside the `[providers.glm.auth]` table: a table
/// header switches tables, and the first `key` assigned inside that table
/// is the key.
pub open spec fn glm_key_in(ls: Seq<Seq<char>>, in_auth: bool) -> Option<Seq<char>>
    decreases ls.len(),
{
    if ls.len() == 0 {
        None
    } else {
        let l = trim(ls[0]);
        if l.len() > 0 && l[0] == '[' {
            glm_key_in(ls.drop_first(), l == "[providers.glm.auth]"@)
        } else if in_auth && toml_value(l, "key"@) is Some {
            toml_value(l, "key"@)
        } else {
            glm_key_in(ls.drop_first(), in_auth)
        }
    }
}

/// The GLM key of a v100 config file.
pub open spec fn v100_glm_key(text: Seq<char>) -> Option<Seq<char>> {
    glm_key_in(lines(text), false)
}

/// Reads `providers.glm.auth.key` from the text of a v100 config file.
pub fn v100_glm_api_key_from_str(text: &str) -> (r: Option<String>)
    ensures
        opt_view(r) == v100_glm_key(text@),
{
    let tv = chars_of(text);
    let ls = lines_of(&tv);
    let ghost all = lines(text@);
    let mut in_glm_auth = false;
    let mut i: usize = 0;
    assert(all.skip(0) == all);
    while i < ls.len()
        invariant
            i <= ls@.len() == all.len(),
            all == lines(text@),
            forall|k: int| 0 <= k < ls@.len() ==> #[trigger] ls@[k]@ == all[k],
            glm_key_in(all, false) == glm_key_in(all.skip(i as int), in_glm_auth),
        decreases ls.len() - i,
    {
        assert(all.skip(i as int)[0] == all[i as int]);
        assert(all.skip(i as int).drop_first() == all.skip(i + 1));
        let line = trim_vec(&ls[i]);
        if line.len() > 0 && line[0] == '[' {
            in_glm_auth = crate::text::chars_eq_str(&line, "[providers.glm.auth]");
            i = i + 1;
            continue;
        }
        if in_glm_auth {
            let ls_line = string_of(&line);
            match toml_string_assignment(ls_line.as_str(), "key") {
                Some(value) => {
                    return Some(value);
                },
                None => {},
            }
        }
        i = i + 1;
    }
    None
}

/// The values of the environment that decide the LLM endpoint, each
/// `None` when unset, and the text of the v100 config file when it could
/// be read.
pub struct EndpointEnv {
    /// `ANAPHOR_PROVIDER`
    pub provider: Option<String>,
    /// `ANAPHOR_BASE_URL`
    pub base_url: Option<String>,
    /// `ANAPHOR_MODEL`
    pub model: Option<String>,
    /// `ANAPHOR_GLM_MODEL`
    pub glm_model: Option<String>,
    /// `ANAPHOR_API_KEY`
    pub anaphor_api_key: Option<String>,
    /// `OPENAI_API_KEY`
    pub openai_api_key: Option<String>,
    /// `ZHIPU_API_KEY`
    pub zhipu_api_key: Option<String>,
    /// `OPENROUTER_API_KEY`
    pub openrouter_api_key: Option<String>,
    /// The v100 config file's text.
    pub v100_config: Option<String>,
}

/// Where to send chat requests, with which model and key.
#[derive(Debug, Clone)]
pub struct LlmEndpoint {
    pub provider: String,
    pub model: String,
    pub chat_url: String,
    pub api_key: String,
}

/// An endpoint seen as character sequences.
pub ghost struct EndpointView {
    pub provider: Seq<char>,
    pub model: Seq<char>,
    pub chat_url: Seq<char>,
    pub api_key: Seq<char>,
}

impl View for LlmEndpoint {
    type V = EndpointView;

    open spec fn view(&self) -> EndpointView {
        EndpointView {
            provider: self.provider@,
            model: self.model@,
            chat_url: self.chat_url@,
            api_key: self.api_key@,
        }
    }
}

/// Why no endpoint could be configured.
#[derive(Debug, PartialEq, Eq)]
pub enum ConfigError {
    /// `ANAPHOR_PROVIDER` names no known provider (lowercased here).
    UnsupportedProvider(String),
    /// OpenRouter is used and `OPENROUTER_API_KEY` is unset.
    OpenRouterKeyMissing,
    /// A custom endpoint is used and `ANAPHOR_API_KEY` is unset.
    AnaphorKeyMissing,
    /// OpenAI is used and neither `ANAPHOR_API_KEY` nor `OPENAI_API_KEY` is set.
    OpenAiKeyMissing,
    /// An OpenAI-compatible endpoint has no base URL.
    BaseUrlMissing,
    /// GLM is used and no key is found.
    GlmKeyMissing,
}

/// A configuration error seen as character sequences.
pub ghost enum ConfigErrorView {
    UnsupportedProvider(Seq<char>),
    OpenRouterKeyMissing,
    AnaphorKeyMissing,
    OpenAiKeyMissing,
    BaseUrlMissing,
    GlmKeyMissing,
}

impl View for ConfigError {
    type V = ConfigErrorView;

    open spec fn view(&self) -> ConfigErrorView {
        match self {
            ConfigError::UnsupportedProvider(p) => ConfigErrorView::UnsupportedProvider(p@),
            ConfigError::OpenRouterKeyMissing => ConfigErrorView::OpenRouterKeyMissing,
            ConfigError::AnaphorKeyMissing => ConfigErrorView::AnaphorKeyMissing,
            ConfigError::OpenAiKeyMissing => ConfigErrorView::OpenAiKeyMissing,
            ConfigError::BaseUrlMissing => ConfigErrorView::BaseUrlMissing,
            ConfigError::GlmKeyMissing => ConfigErrorView::GlmKeyMissing,
        }
    }
}

/// The message shown for a configuration error.
pub open spec fn config_error_message(e: ConfigErrorView) -> Seq<char> {
    match e {
        ConfigErrorView::UnsupportedProvider(p) => "unsupported ANAPHOR_PROVIDER '"@ + p
            + "'; use openrouter, glm, openai, or custom"@,
        ConfigErrorView::OpenRouterKeyMissing =>
            "OPENROUTER_API_KEY environment variable not set"@,
        ConfigErrorView::AnaphorKeyMissing => "ANAPHOR_API_KEY environment variable not set"@,
        ConfigErrorView::OpenAiKeyMissing =>
            "ANAPHOR_API_KEY or OPENAI_API_KEY environment variable not set"@,
        ConfigErrorView::BaseUrlMissing => "ANAPHOR_BASE_URL environment variable not set"@,
        ConfigErrorView::GlmKeyMissing =>
            "GLM key not found; set ANAPHOR_API_KEY, ZHIPU_API_KEY, or configure providers.glm.auth.key in ~/.config/v100/config.toml"@,
    }
}

impl ConfigError {
    /// The message shown for this error.
    pub fn message(&self) -> (r: String)
        ensures
            r@ == config_error_message(self@),
    {
        match self {
            ConfigError::UnsupportedProvider(p) => {
                let mut v = chars_of("unsupported ANAPHOR_PROVIDER '");
                push_str(&mut v, p.as_str());
                push_str(&mut v, "'; use openrouter, glm, openai, or custom");
                string_of(&v)
            },
            ConfigError::OpenRouterKeyMissing =>
                "OPENROUTER_API_KEY environment variable not set".to_owned(),
            ConfigError::AnaphorKeyMissing =>
                "ANAPHOR_API_KEY environment variable not set".to_owned(),
            ConfigError::OpenAiKeyMissing =>
                "ANAPHOR_API_KEY or OPENAI_API_KEY environment variable not set".to_owned(),
            ConfigError::BaseUrlMissing =>
                "ANAPHOR_BASE_URL environment variable not set".to_owned(),
            ConfigError::GlmKeyMissing =>
                "GLM key not found; set ANAPHOR_API_KEY, ZHIPU_API_KEY, or configure providers.glm.auth.key in ~/.config/v100/config.toml".to_owned(),
        }
    }
}

/// The value of `o`, or `d` when it is unset.
pub open spec fn or_default(o: Option<String>, d: Seq<char>) -> Seq<char> {
    match o {
        Some(s) => s@,
        None => d,
    }
}

/// The first of two optional values that is set.
pub open spec fn first_set(a: Option<Seq<char>>, b: Option<Seq<char>>) -> Option<Seq<char>> {
    match a {
        Some(x) => Some(x),
        None => b,
    }
}

/// A resolved endpoint, or the error, as views.
pub open spec fn endpoint_result_view(r: Result<LlmEndpoint, ConfigError>) -> Result<
    EndpointView,
    ConfigErrorView,
> {
    match r {
        Ok(e) => Ok(e@),
        Err(e) => Err(e@),
    }
}

/// The OpenRouter endpoint: its key is required, the model defaults to
/// `openai/gpt-4o-mini`.
pub open spec fn openrouter_spec(env: EndpointEnv) -> Result<EndpointView, ConfigErrorView> {
    match env.openrouter_api_key {
        None => Err(ConfigErrorView::OpenRouterKeyMissing),
        Some(k) => Ok(
            EndpointView {
                provider: "openrouter"@,
                model: or_default(env.model, "openai/gpt-4o-mini"@),
                chat_url: OPENROUTER_CHAT_COMPLETIONS_URL@,
                api_key: k@,
            },
        ),
    }
}

/// The key of an OpenAI-compatible provider: `ANAPHOR_API_KEY`, and for
/// `openai` also `OPENAI_API_KEY` after it.
pub open spec fn openai_compatible_key_spec(provider: Seq<char>, env: EndpointEnv) -> Result<
    Seq<char>,
    ConfigErrorView,
> {
    if provider == "openai"@ {
        match first_set(opt_view(env.anaphor_api_key), opt_view(env.openai_api_key)) {
            Some(k) => Ok(k),
            None => Err(ConfigErrorView::OpenAiKeyMissing),
        }
    } else {
        match env.anaphor_api_key {
            Some(k) => Ok(k@),
            None => Err(ConfigErrorView::AnaphorKeyMissing),
        }
    }
}

/// An OpenAI-compatible endpoint: a key as above; the base URL from
/// `ANAPHOR_BASE_URL`, for `openai` by default the OpenAI API, and it must
/// not be blank; the model defaults to `gpt-4o-mini`.
pub open spec fn openai_compatible_spec(provider: Seq<char>, env: EndpointEnv) -> Result<
    EndpointView,
    ConfigErrorView,
> {
    match openai_compatible_key_spec(provider, env) {
        Err(e) => Err(e),
        Ok(k) => {
            let base = or_default(
                env.base_url,
                if provider == "openai"@ {
                    "https://api.openai.com/v1"@
                } else {
                    Seq::empty()
                },
            );
            if trim(base).len() == 0 {
                Err(ConfigErrorView::BaseUrlMissing)
            } else {
                Ok(
                    EndpointView {
                        provider: provider,
                        model: or_default(env.model, "gpt-4o-mini"@),
                        chat_url: chat_url(base),
                        api_key: k,
                    },
                )
            }
        },
    }
}

/// The key for GLM: `ANAPHOR_API_KEY`, then `ZHIPU_API_KEY`, then the v100
/// config file.
pub open spec fn glm_key_spec(env: EndpointEnv) -> Option<Seq<char>> {
    first_set(
        first_set(opt_view(env.anaphor_api_key), opt_view(env.zhipu_api_key)),
        match env.v100_config {
            Some(t) => v100_glm_key(t@),
            None => None,
        },
    )
}

/// The GLM endpoint: a key as above is required; base URL and model
/// default to the GLM coding API and `glm-5.1`.
pub open spec fn glm_spec(env: EndpointEnv) -> Result<EndpointView, ConfigErrorView> {
    match glm_key_spec(env) {
        None => Err(ConfigErrorView::GlmKeyMissing),
        Some(k) => Ok(
            EndpointView {
                provider: "glm"@,
                model: or_default(env.glm_model, GLM_DEFAULT_MODEL@),
                chat_url: chat_url(or_default(env.base_url, GLM_BASE_URL@)),
                api_key: k,
            },
        ),
    }
}

/// The endpoint for the environment: the provider named by
/// `ANAPHOR_PROVIDER` (ASCII case ignored, OpenRouter by default, and a
/// custom endpoint when only `ANAPHOR_BASE_URL` is set), or an error
/// naming an unknown provider.
pub open spec fn endpoint_spec(env: EndpointEnv) -> Result<EndpointView, ConfigErrorView> {
    let name = ascii_lowercase(or_default(env.provider, "openrouter"@));
    if name == "glm"@ || name == "zai"@ || name == "z-ai"@ || name == "z.ai"@ {
        glm_spec(env)
    } else if name == "openai"@ || name == "custom"@ {
        openai_compatible_spec(name, env)
    } else if name == "openrouter"@ {
        if env.provider is None && env.base_url is Some {
            openai_compatible_spec("custom"@, env)
        } else {
            openrouter_spec(env)
        }
    } else {
        Err(ConfigErrorView::UnsupportedProvider(name))
    }
}

fn clone_or(o: &Option<String>, d: &str) -> (r: String)
    ensures
        r@ == or_default(*o, d@),
{
    match o {
        Some(s) => s.clone(),
        None => d.to_owned(),
    }
}

/// Resolves the OpenRouter endpoint.
pub fn openrouter_endpoint(env: &EndpointEnv) -> (r: Result<LlmEndpoint, ConfigError>)
    ensures
        endpoint_result_view(r) == openrouter_spec(*env),
        r is Ok <==> env.openrouter_api_key is Some,
        env.openrouter_api_key is None ==> r == Err::<LlmEndpoint, ConfigError>(
            ConfigError::OpenRouterKeyMissing,
        ),
        r matches Ok(e) ==> {
            &&& e.provider@ == "openrouter"@
            &&& e.chat_url@ == OPENROUTER_CHAT_COMPLETIONS_URL@
            &&& e.api_key@ == env.openrouter_api_key->0@
            &&& e.model@ == match env.model {
                Some(m) => m@,
                None => "openai/gpt-4o-mini"@,
            }
        },
{
    match &env.openrouter_api_key {
        None => Err(ConfigError::OpenRouterKeyMissing),
        Some(k) => Ok(
            LlmEndpoint {
                provider: "openrouter".to_owned(),
                model: clone_or(&env.model, "openai/gpt-4o-mini"),
                chat_url: OPENROUTER_CHAT_COMPLETIONS_URL.to_owned(),
                api_key: k.clone(),
            },
        ),
    }
}

/// Picks the API key of an OpenAI-compatible provider.
pub fn openai_compatible_api_key(provider: &str, env: &EndpointEnv) -> (r: Result<
    String,
    ConfigError,
>)
    ensures
        match r {
            Ok(k) => openai_compatible_key_spec(provider@, *env) == Ok::<
                Seq<char>,
                ConfigErrorView,
            >(k@),
            Err(e) => openai_compatible_key_spec(provider@, *env) == Err::<
                Seq<char>,
                ConfigErrorView,
            >(e@),
        },
{
    if str_eq(provider, "openai") {
        match &env.anaphor_api_key {
            Some(k) => Ok(k.clone()),
            None => match &env.openai_api_key {
                Some(k) => Ok(k.clone()),
                None => Err(ConfigError::OpenAiKeyMissing),
            },
        }
    } else {
        match &env.anaphor_api_key {
            Some(k) => Ok(k.clone()),
            None => Err(ConfigError::AnaphorKeyMissing),
        }
    }
}

/// Resolves an OpenAI-compatible endpoint for `provider`.
pub fn openai_compatible_endpoint(provider: &str, env: &EndpointEnv) -> (r: Result<
    LlmEndpoint,
    ConfigError,
>)
    ensures
        endpoint_result_view(r) == openai_compatible_spec(provider@, *env),
        r matches Ok(e) ==> {
            &&& e.provider@ == provider@
            &&& e.model@ == match env.model {
                Some(m) => m@,
                None => "gpt-4o-mini"@,
            }
            &&& env.anaphor_api_key matches Some(k) ==> e.api_key@ == k@
        },
{
    let api_key = match openai_compatible_api_key(provider, env) {
        Ok(k) => k,
        Err(e) => {
            return Err(e);
        },
    };
    let base_url = match &env.base_url {
        Some(b) => b.clone(),
        None => if str_eq(provider, "openai") {
            "https://api.openai.com/v1".to_owned()
        } else {
            String::new()
        },
    };
    if !has_content(base_url.as_str()) {
        proof {
            lemma_trim_empty_iff_no_text(base_url@);
        }
        return Err(ConfigError::BaseUrlMissing);
    }
    proof {
        lemma_trim_empty_iff_no_text(base_url@);
    }
    Ok(
        LlmEndpoint {
            provider: provider.to_owned(),
            model: clone_or(&env.model, "gpt-4o-mini"),
            chat_url: chat_completions_url(base_url.as_str()),
            api_key,
        },
    )
}

/// A text trims to nothing exactly when it holds only whitespace.
pub proof fn lemma_trim_empty_iff_no_text(s: Seq<char>)
    ensures
        (trim(s).len() == 0) == !crate::tools::has_text(s),
{
    lemma_trim_start_empty(s);
    lemma_trim_end_len(crate::text::trim_start(s));
}

proof fn lemma_trim_start_empty(s: Seq<char>)
    ensures
        (crate::text::trim_start(s).len() == 0) == !crate::tools::has_text(s),
        crate::text::trim_start(s).len() > 0 ==> !crate::text::is_ws(
            crate::text::trim_start(s)[0],
        ),
    decreases s.len(),
{
    if s.len() > 0 && crate::text::is_ws(s[0]) {
        lemma_trim_start_empty(s.drop_first());
        if crate::tools::has_text(s) {
            let i = choose|i: int| 0 <= i < s.len() && !crate::text::is_ws(s[i]);
            assert(!crate::text::is_ws(s.drop_first()[i - 1]));
        }
        if crate::tools::has_text(s.drop_first()) {
            let i = choose|i: int|
                0 <= i < s.drop_first().len() && !crate::text::is_ws(s.drop_first()[i]);
            assert(!crate::text::is_ws(s[i + 1]));
        }
    } else if s.len() > 0 {
        assert(!crate::text::is_ws(s[0]));
    }
}

proof fn lemma_trim_end_len(s: Seq<char>)
    requires
        s.len() > 0 ==> !crate::text::is_ws(s[0]),
    ensures
        (crate::text::trim_end(s).len() == 0) == (s.len() == 0),
    decreases s.len(),
{
    if s.len() > 0 && crate::text::is_ws(s.last()) {
        if s.len() > 1 {
            assert(s.drop_last()[0] == s[0]);
            lemma_trim_end_len(s.drop_last());
        }
    }
}

/// Resolves the GLM endpoint.
pub fn glm_endpoint(env: &EndpointEnv) -> (r: Result<LlmEndpoint, ConfigError>)
    ensures
        endpoint_result_view(r) == glm_spec(*env),
        r matches Ok(e) ==> {
            &&& e.provider@ == "glm"@
            &&& e.model@ == match env.glm_model {
                Some(m) => m@,
                None => GLM_DEFAULT_MODEL@,
            }
        },
        env.anaphor_api_key matches Some(k) ==> r matches Ok(e) && e.api_key@ == k@,
{
    let key = match &env.anaphor_api_key {
        Some(k) => Some(k.clone()),
        None => match &env.zhipu_api_key {
            Some(k) => Some(k.clone()),
            None => match &env.v100_config {
                Some(t) => v100_glm_api_key_from_str(t.as_str()),
                None => None,
            },
        },
    };
    assert(opt_view(key) == glm_key_spec(*env));
    match key {
        None => Err(ConfigError::GlmKeyMissing),
        Some(api_key) => {
            let base_url = clone_or(&env.base_url, GLM_BASE_URL);
            Ok(
                LlmEndpoint {
                    provider: "glm".to_owned(),
                    model: clone_or(&env.glm_model, GLM_DEFAULT_MODEL),
                    chat_url: chat_completions_url(base_url.as_str()),
                    api_key,
                },
            )
        },
    }
}

/// Resolves the LLM endpoint that the environment configures.
pub fn llm_endpoint(env: &EndpointEnv) -> (r: Result<LlmEndpoint, ConfigError>)
    ensures
        endpoint_result_view(r) == endpoint_spec(*env),
        env.provider is None && env.base_url is None ==> {
            &&& (r is Ok <==> env.openrouter_api_key is Some)
            &&& r matches Ok(e) ==> {
                &&& e.provider@ == "openrouter"@
                &&& e.chat_url@ == OPENROUTER_CHAT_COMPLETIONS_URL@
                &&& e.api_key@ == env.openrouter_api_key->0@
                &&& e.model@ == match env.model {
                    Some(m) => m@,
                    None => "openai/gpt-4o-mini"@,
                }
            }
        },
{
    proof {
        if env.provider is None && env.base_url is None {
            lemma_default_provider_is_openrouter(*env);
        }
    }
    let raw = clone_or(&env.provider, "openrouter");
    let rv = chars_of(raw.as_str());
    let name = string_of(&ascii_lowercase_vec(&rv));
    let n = name.as_str();
    if str_eq(n, "glm") || str_eq(n, "zai") || str_eq(n, "z-ai") || str_eq(n, "z.ai") {
        glm_endpoint(env)
    } else if str_eq(n, "openai") || str_eq(n, "custom") {
        openai_compatible_endpoint(n, env)
    } else if str_eq(n, "openrouter") {
        if env.provider.is_none() && env.base_url.is_some() {
            openai_compatible_endpoint("custom", env)
        } else {
            openrouter_endpoint(env)
        }
    } else {
        Err(ConfigError::UnsupportedProvider(name))
    }
}

/// With neither a provider nor a base URL configured, the endpoint is
/// OpenRouter's.
pub proof fn lemma_default_provider_is_openrouter(env: EndpointEnv)
    requires
        env.provider is None,
        env.base_url is None,
    ensures
        endpoint_spec(env) == openrouter_spec(env),
{
    reveal_strlit("openrouter");
    reveal_strlit("glm");
    reveal_strlit("zai");
    reveal_strlit("z-ai");
    reveal_strlit("z.ai");
    reveal_strlit("openai");
    reveal_strlit("custom");
    assert(ascii_lowercase("openrouter"@) =~= "openrouter"@);
}

/// A chat completions URL always ends in `/chat/completions`.
pub proof fn lemma_chat_url_suffix(base: Seq<char>)
    ensures
        "/chat/completions"@.is_suffix_of(chat_url(base)),
{
    let b = trim_end_char(trim(base), '/');
    if !"/chat/completions"@.is_suffix_of(b) {
        let c = b + "/chat/completions"@;
        assert(c.subrange(c.len() - "/chat/completions"@.len(), c.len() as int)
            == "/chat/completions"@);
    }
}

/// Building the chat completions URL of a chat completions URL changes
/// nothing.
pub proof fn lemma_chat_url_idempotent(base: Seq<char>)
    ensures
        chat_url(chat_url(base)) == chat_url(base),
{
    reveal_strlit("/chat/completions");
    let t = trim(base);
    let b = trim_end_char(t, '/');
    let c = chat_url(base);
    lemma_chat_url_suffix(base);
    crate::text::lemma_trim_shape(base);
    crate::text::lemma_trim_end_char_shape(t, '/');
    assert(c.last() == 's') by {
        assert(c[c.len() - 1] == "/chat/completions"@[16]);
    }
    if b.len() > 0 {
        assert(c[0] == b[0]);
        assert(b[0] == t[0]);
    } else {
        assert(c == b + "/chat/completions"@ || c == b);
        assert(c[0] == '/');
    }
    crate::text::lemma_trim_stable(c);
    assert(trim_end_char(c, '/') == c);
}

} // verus!
