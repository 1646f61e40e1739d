//! The settings of the language-model and retrieval services: their defaults,
//! how command-line options update them, how keys are shown redacted, and
//! the file name a project's graph is saved under.
use crate::strs::{chars_of, owned, string_from_chars, string_from_range};
use crate::text::append_str;
use vstd::prelude::*;
use vstd::string::*;
use vstd::utf8::{encode_utf8, is_ascii_chars};

verus! {

/// One model service: where it is, which model, and its key.
pub struct ModelProvider {
    pub api_url: String,
    pub model: String,
    pub api_key: Option<String>,
}

/// The settings: the chat model, and the embedding and rerank services.
pub struct Config {
    pub api_url: String,
    pub model: String,
    pub api_key: Option<String>,
    pub embedding: Option<ModelProvider>,
    pub rerank: Option<ModelProvider>,
}

pub open spec fn opt_view(o: Option<String>) -> Option<Seq<char>> {
    match o {
        Some(s) => Some(s@),
        None => None,
    }
}

/// The provider seen through its texts.
pub open spec fn provider_view(p: ModelProvider) -> (Seq<char>, Seq<char>, Option<Seq<char>>) {
    (p.api_url@, p.model@, opt_view(p.api_key))
}

pub open spec fn opt_provider_view(o: Option<ModelProvider>) -> Option<(Seq<char>, Seq<char>, Option<Seq<char>>)> {
    match o {
        Some(p) => Some(provider_view(p)),
        None => None,
    }
}

pub open spec fn default_embedding_spec() -> (Seq<char>, Seq<char>, Option<Seq<char>>) {
    ("https://api.siliconflow.cn/v1/embeddings"@, "Qwen/Qwen3-Embedding-8B"@, None)
}

pub open spec fn default_rerank_spec() -> (Seq<char>, Seq<char>, Option<Seq<char>>) {
    ("https://api.siliconflow.cn/v1/rerank"@, "Qwen/Qwen3-Reranker-8B"@, None)
}

pub fn default_embedding() -> (p: ModelProvider)
    ensures
        provider_view(p) == default_embedding_spec(),
{
    ModelProvider {
        api_url: owned("https://api.siliconflow.cn/v1/embeddings"),
        model: owned("Qwen/Qwen3-Embedding-8B"),
        api_key: None,
    }
}

pub fn default_rerank() -> (p: ModelProvider)
    ensures
        provider_view(p) == default_rerank_spec(),
{
    ModelProvider {
        api_url: owned("https://api.siliconflow.cn/v1/rerank"),
        model: owned("Qwen/Qwen3-Reranker-8B"),
        api_key: None,
    }
}

/// The settings used when none are saved.
pub fn default_config() -> (c: Config)
    ensures
        c.api_url@ == "https://api.minimaxi.com/anthropic/v1/messages"@,
        c.model@ == "MiniMax-M2.7-highspeed"@,
        c.api_key is None,
        opt_provider_view(c.embedding) == Some(default_embedding_spec()),
        opt_provider_view(c.rerank) == Some(default_rerank_spec()),
{
    Config {
        api_url: owned("https://api.minimaxi.com/anthropic/v1/messages"),
        model: owned("MiniMax-M2.7-highspeed"),
        api_key: None,
        embedding: Some(default_embedding()),
        rerank: Some(default_rerank()),
    }
}

/// `new` where given, else `old`.
pub open spec fn pick(new: Option<Seq<char>>, old: Seq<char>) -> Seq<char> {
    match new {
        Some(v) => v,
        None => old,
    }
}

/// A provider after an update with the three options: untouched when none is
/// given; else the saved one (or the default when none is saved) with each
/// given option set.
pub open spec fn provider_update(
    old: Option<(Seq<char>, Seq<char>, Option<Seq<char>>)>,
    default: (Seq<char>, Seq<char>, Option<Seq<char>>),
    key: Option<Seq<char>>,
    model: Option<Seq<char>>,
    url: Option<Seq<char>>,
) -> Option<(Seq<char>, Seq<char>, Option<Seq<char>>)> {
    if key is None && model is None && url is None {
        old
    } else {
        let base = match old {
            Some(p) => p,
            None => default,
        };
        Some((pick(url, base.0), pick(model, base.1), if key is Some { key } else { base.2 }))
    }
}

fn take_or(new: Option<String>, old: String) -> (r: String)
    ensures
        r@ == pick(opt_view(new), old@),
{
    match new {
        Some(v) => v,
        None => old,
    }
}

fn update_provider(
    old: Option<ModelProvider>,
    default: ModelProvider,
    key: Option<String>,
    model: Option<String>,
    url: Option<String>,
) -> (r: Option<ModelProvider>)
    ensures
        opt_provider_view(r) == provider_update(
            opt_provider_view(old),
            provider_view(default),
            opt_view(key),
            opt_view(model),
            opt_view(url),
        ),
{
    if key.is_none() && model.is_none() && url.is_none() {
        old
    } else {
        let base = match old {
            Some(p) => p,
            None => default,
        };
        let api_key = match key {
            Some(k) => Some(k),
            None => base.api_key,
        };
        Some(ModelProvider { api_url: take_or(url, base.api_url), model: take_or(model, base.model), api_key })
    }
}

/// The options of the `config` command.
pub struct ConfigUpdate {
    pub api_key: Option<String>,
    pub model: Option<String>,
    pub api_url: Option<String>,
    pub embedding_key: Option<String>,
    pub embedding_model: Option<String>,
    pub embedding_url: Option<String>,
    pub rerank_key: Option<String>,
    pub rerank_model: Option<String>,
    pub rerank_url: Option<String>,
}

impl ConfigUpdate {
    /// Some option is given (else the command only shows the settings).
    pub fn any(&self) -> (b: bool)
        ensures
            b == (self.api_key is Some || self.model is Some || self.api_url is Some || self.embedding_key is Some
                || self.embedding_model is Some || self.embedding_url is Some || self.rerank_key is Some
                || self.rerank_model is Some || self.rerank_url is Some),
    {
        self.api_key.is_some() || self.model.is_some() || self.api_url.is_some() || self.embedding_key.is_some()
            || self.embedding_model.is_some() || self.embedding_url.is_some() || self.rerank_key.is_some()
            || self.rerank_model.is_some() || self.rerank_url.is_some()
    }
}

/// The settings with the given options applied: each given chat option
/// replaces its setting, and the embedding and rerank services are updated as
/// [`provider_update`] says.
pub fn update(config: Config, u: ConfigUpdate) -> (r: Config)
    ensures
        opt_view(r.api_key) == (if u.api_key is Some { opt_view(u.api_key) } else { opt_view(config.api_key) }),
        r.model@ == pick(opt_view(u.model), config.model@),
        r.api_url@ == pick(opt_view(u.api_url), config.api_url@),
        opt_provider_view(r.embedding) == provider_update(
            opt_provider_view(config.embedding),
            default_embedding_spec(),
            opt_view(u.embedding_key),
            opt_view(u.embedding_model),
            opt_view(u.embedding_url),
        ),
        opt_provider_view(r.rerank) == provider_update(
            opt_provider_view(config.rerank),
            default_rerank_spec(),
            opt_view(u.rerank_key),
            opt_view(u.rerank_model),
            opt_view(u.rerank_url),
        ),
{
    let api_key = match u.api_key {
        Some(k) => Some(k),
        None => config.api_key,
    };
    let embedding = update_provider(config.embedding, default_embedding(), u.embedding_key, u.embedding_model, u.embedding_url);
    let rerank = update_provider(config.rerank, default_rerank(), u.rerank_key, u.rerank_model, u.rerank_url);
    Config {
        api_url: take_or(u.api_url, config.api_url),
        model: take_or(u.model, config.model),
        api_key,
        embedding,
        rerank,
    }
}

/// A key as it is shown: `***` when it has ten bytes or fewer, else its first
/// six and last four characters around `...`.
pub open spec fn redact_spec(key: Seq<char>) -> Seq<char> {
    if encode_utf8(key).len() <= 10 {
        "***"@
    } else {
        key.take(6) + "..."@ + key.skip(key.len() - 4)
    }
}

/// A key shown without giving it away. The key is cut at byte positions, so
/// a longer key must be ASCII.
pub fn redact_key(key: &str) -> (r: String)
    requires
        encode_utf8(key@).len() <= 10 || is_ascii_chars(key@),
        encode_utf8(key@).len() <= usize::MAX,
    ensures
        r@ == redact_spec(key@),
{
    if key.len() <= 10 {
        assert(key.spec_bytes() == encode_utf8(key@));
        let r = owned("***");
        assert(r@ == redact_spec(key@));
        r
    } else {
        proof {
            vstd::string::is_ascii_spec_bytes(key);
            assert(is_ascii(key));
            assert(key.spec_bytes().len() == key@.len());
        }
        let v = chars_of(key);
        let n = v.len();
        let mut r = string_from_range(&v, 0, 6);
        append_str(&mut r, "...");
        let tail = string_from_range(&v, n - 4, n);
        append_str(&mut r, tail.as_str());
        assert(r@ =~= key@.take(6) + "..."@ + key@.skip(key@.len() - 4));
        assert(key.spec_bytes() == encode_utf8(key@));
        assert(r@ == redact_spec(key@));
        r
    }
}

/// The provider with its key redacted.
pub fn redacted_provider(p: &ModelProvider) -> (r: ModelProvider)
    requires
        p.api_key matches Some(k) ==> (encode_utf8(k@).len() <= 10 || is_ascii_chars(k@)) && encode_utf8(k@).len()
            <= usize::MAX,
    ensures
        r.api_url@ == p.api_url@,
        r.model@ == p.model@,
        match p.api_key {
            Some(k) => r.api_key matches Some(rk) && rk@ == redact_spec(k@),
            None => r.api_key is None,
        },
{
    ModelProvider {
        api_url: p.api_url.clone(),
        model: p.model.clone(),
        api_key: match &p.api_key {
            Some(k) => Some(redact_key(k.as_str())),
            None => None,
        },
    }
}

/// A character kept in a graph's file name: an ASCII letter or digit, `-` or `_`.
pub open spec fn file_name_char(c: char) -> char {
    if crate::strs::is_ascii_alnum(c) || c == '-' || c == '_' {
        c
    } else {
        '_'
    }
}

/// The file name (without extension) that a project's graph is saved under
/// when many projects are indexed: the project directory's name with every
/// other character turned into `_`, or `crabmap` when the directory has no
/// name that is text.
pub open spec fn graph_filename_spec(dir_name: Option<Seq<char>>) -> Seq<char> {
    let name = match dir_name {
        Some(n) => n,
        None => "crabmap"@,
    };
    name.map_values(|c: char| file_name_char(c))
}

pub fn graph_filename(dir_name: Option<&str>) -> (r: String)
    ensures
        r@ == graph_filename_spec(
            match dir_name {
                Some(n) => Some(n@),
                None => None,
            },
        ),
{
    let name = match dir_name {
        Some(n) => n,
        None => "crabmap",
    };
    let v = chars_of(name);
    let mut out: Vec<char> = Vec::new();
    let mut i: usize = 0;
    while i < v.len()
        invariant
            i <= v.len(),
            out@ == v@.take(i as int).map_values(|c: char| file_name_char(c)),
        decreases v.len() - i,
    {
        let c = v[i];
        let k = if crate::strs::char_is_ascii_alnum(c) || c == '-' || c == '_' {
            c
        } else {
            '_'
        };
        out.push(k);
        assert(v@.take(i + 1).map_values(|c: char| file_name_char(c)) =~= v@.take(i as int).map_values(
            |c: char| file_name_char(c),
        ).push(k));
        i = i + 1;
    }
    assert(v@.take(v.len() as int) =~= v@);
    string_from_chars(&out)
}

} // verus!
