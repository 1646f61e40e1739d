//! The question put to a language model about a code graph: the check of
//! the configured key, the prompt that frames the graph context, and the
//! answer read back from the model's reply.
use crate::helpers::{all_white, all_white_exec};
use crate::strs::{chars_of, owned};
use crate::text::{append_str, join, join_strings};
use vstd::prelude::*;

verus! {

/// The error given when no usable API key is configured.
pub open spec fn missing_key_message() -> Seq<char> {
    "codegraph config is missing api_key; run `codegraph config --api-key ...`"@
}

/// The API key to use: the configured one, unless it is absent or blank.
pub fn key_check(key: Option<&str>) -> (r: Result<String, String>)
    ensures
        match r {
            Ok(k) => key matches Some(s) && !all_white(s@) && k@ == s@,
            Err(m) => (key is None || all_white(key.unwrap()@)) && m@ == missing_key_message(),
        },
{
    match key {
        Some(k) => {
            let v = chars_of(k);
            if all_white_exec(&v) {
                Err(owned("codegraph config is missing api_key; run `codegraph config --api-key ...`"))
            } else {
                Ok(owned(k))
            }
        },
        None => Err(owned("codegraph config is missing api_key; run `codegraph config --api-key ...`")),
    }
}

/// The prompt: fixed instructions, then the question and each part of the
/// graph context (already written as pretty JSON) under its heading.
pub open spec fn prompt_text(
    question: Seq<char>,
    quality: Seq<char>,
    clusters: Seq<char>,
    retrieval: Seq<char>,
    facts: Seq<char>,
    guide: Seq<char>,
) -> Seq<char> {
    "你是一个 Rust 项目代码图谱导航助手。\n\n目标：\n- 根据 codegraph 的结构化上下文回答用户问题。\n- 优先给出“应该读哪些文件/符号、按什么顺序读、为什么”。\n- 如果图谱已经给出签名、枚举成员、结构字段、trait/impl 方法或文档，直接列出这些具体定义。\n- 不要把“回源码确认”当作默认回答；只有图谱没有给出足够事实时才提示继续读源码。\n- 输出中文。\n- 不要使用 emoji。\n- 保持简洁，先回答具体事实，再列出必要的阅读顺序和原因。\n\n用户问题：\n"@ + question + "\n\n图谱质量：\n"@ + quality + "\n\n功能簇：\n"@ + clusters + "\n\nRAG 检索结果：\n"@ + retrieval + "\n\n符号事实：\n"@ + facts + "\n\n导航上下文：\n"@ + guide + "\n"@
}

/// Builds the prompt for `question` from the rendered graph context.
pub fn build_prompt(
    question: &str,
    quality: &str,
    clusters: &str,
    retrieval: &str,
    facts: &str,
    guide: &str,
) -> (r: String)
    ensures
        r@ == prompt_text(question@, quality@, clusters@, retrieval@, facts@, guide@),
{
    let mut r = owned("你是一个 Rust 项目代码图谱导航助手。\n\n目标：\n- 根据 codegraph 的结构化上下文回答用户问题。\n- 优先给出“应该读哪些文件/符号、按什么顺序读、为什么”。\n- 如果图谱已经给出签名、枚举成员、结构字段、trait/impl 方法或文档，直接列出这些具体定义。\n- 不要把“回源码确认”当作默认回答；只有图谱没有给出足够事实时才提示继续读源码。\n- 输出中文。\n- 不要使用 emoji。\n- 保持简洁，先回答具体事实，再列出必要的阅读顺序和原因。\n\n用户问题：\n");
    append_str(&mut r, question);
    append_str(&mut r, "\n\n图谱质量：\n");
    append_str(&mut r, quality);
    append_str(&mut r, "\n\n功能簇：\n");
    append_str(&mut r, clusters);
    append_str(&mut r, "\n\nRAG 检索结果：\n");
    append_str(&mut r, retrieval);
    append_str(&mut r, "\n\n符号事实：\n");
    append_str(&mut r, facts);
    append_str(&mut r, "\n\n导航上下文：\n");
    append_str(&mut r, guide);
    append_str(&mut r, "\n");
    assert(r@ =~= prompt_text(question@, quality@, clusters@, retrieval@, facts@, guide@));
    r
}

/// One content block of the model's reply.
pub struct ContentBlock {
    pub kind: String,
    pub text: Option<String>,
}

/// The texts of the blocks of kind `text` that carry one, in order.
pub open spec fn block_texts(blocks: Seq<ContentBlock>) -> Seq<Seq<char>>
    decreases blocks.len(),
{
    if blocks.len() == 0 {
        Seq::empty()
    } else {
        let rest = block_texts(blocks.drop_last());
        let b = blocks.last();
        if b.kind@ == "text"@ && b.text is Some {
            rest.push(b.text.unwrap()@)
        } else {
            rest
        }
    }
}

/// The answer: those texts joined by newlines, or nothing when that is blank.
pub open spec fn answer_spec(blocks: Seq<ContentBlock>) -> Option<Seq<char>> {
    let a = join(block_texts(blocks), "\n"@);
    if all_white(a) {
        None
    } else {
        Some(a)
    }
}

/// The answer text of a reply, or `None` when it holds no text.
pub fn answer_text(blocks: &Vec<ContentBlock>) -> (r: Option<String>)
    ensures
        match r {
            Some(a) => answer_spec(blocks@) == Some(a@),
            None => answer_spec(blocks@) is None,
        },
{
    let mut texts: Vec<String> = Vec::new();
    let mut i: usize = 0;
    while i < blocks.len()
        invariant
            i <= blocks.len(),
            texts@.map_values(|s: String| s@) == block_texts(blocks@.take(i as int)),
        decreases blocks.len() - i,
    {
        assert(blocks@.take(i + 1).drop_last() =~= blocks@.take(i as int));
        let b = &blocks[i];
        let ghost before = texts@;
        if crate::strs::str_eq(b.kind.as_str(), "text") {
            match &b.text {
                Some(t) => {
                    texts.push(t.clone());
                    assert(texts@.map_values(|s: String| s@) =~= before.map_values(
                        |s: String| s@,
                    ).push(t@));
                },
                None => {},
            }
        }
        i = i + 1;
    }
    assert(blocks@.take(blocks.len() as int) =~= blocks@);
    let joined = join_strings(&texts, "\n");
    let v = chars_of(joined.as_str());
    if all_white_exec(&v) {
        None
    } else {
        Some(joined)
    }
}

} // verus!
