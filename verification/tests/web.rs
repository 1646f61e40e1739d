use crabmap::ask::{answer_text, build_prompt, key_check, ContentBlock};
use crabmap::web::{decode, parse_usize, query_value, route, Asset, Route};

fn chars(s: &str) -> Vec<char> {
    s.chars().collect()
}

#[test]
fn decode_turns_plus_and_percent_escapes_into_text() {
    assert_eq!(decode("a+b%20c"), "a b c");
    assert_eq!(decode("crabmap%3A%3Aindex_project"), "crabmap::index_project");
    assert_eq!(decode("%41%61"), "Aa");
}

#[test]
fn decode_keeps_a_bad_escape_sign_and_drops_what_follows_it() {
    assert_eq!(decode("%zzx"), "%x");
    assert_eq!(decode("ab%4"), "ab%");
    assert_eq!(decode("%"), "%");
    assert_eq!(decode("%+5"), "\u{5}");
}

#[test]
fn decode_reads_each_byte_of_other_text_as_a_char() {
    assert_eq!(decode("é"), "\u{c3}\u{a9}");
}

#[test]
fn parse_usize_reads_decimal_numbers_only() {
    assert_eq!(parse_usize("42"), Some(42));
    assert_eq!(parse_usize("+7"), Some(7));
    assert_eq!(parse_usize(""), None);
    assert_eq!(parse_usize("+"), None);
    assert_eq!(parse_usize("-1"), None);
    assert_eq!(parse_usize("4x"), None);
    assert_eq!(parse_usize("99999999999999999999999"), None);
}

#[test]
fn query_value_takes_the_last_pair_with_the_key() {
    let q = chars("name=a&limit=5&name=b%3A%3Ac&flag");
    assert_eq!(query_value(&q, "name"), Some("b::c".to_string()));
    assert_eq!(query_value(&q, "limit"), Some("5".to_string()));
    assert_eq!(query_value(&q, "flag"), None);
    assert_eq!(query_value(&q, "depth"), None);
}

#[test]
fn route_refuses_other_methods() {
    assert!(matches!(route("DELETE", "/api/status"), Route::MethodNotAllowed));
}

#[test]
fn route_reads_search_parameters_with_their_defaults() {
    match route("GET", "/api/search?q=index+project") {
        Route::Search { q, limit } => {
            assert_eq!(q, "index project");
            assert_eq!(limit, 50);
        }
        _ => panic!("expected a search"),
    }
    match route("GET", "/api/search?q=x&limit=7") {
        Route::Search { limit, .. } => assert_eq!(limit, 7),
        _ => panic!("expected a search"),
    }
    match route("GET", "/api/search?limit=many") {
        Route::Search { q, limit } => {
            assert_eq!(q, "");
            assert_eq!(limit, 50);
        }
        _ => panic!("expected a search"),
    }
}

#[test]
fn route_tells_callers_from_callees() {
    match route("GET", "/api/callers?name=helper&depth=3") {
        Route::Walk { name, outbound, depth, limit } => {
            assert_eq!(name, "helper");
            assert!(!outbound);
            assert_eq!(depth, 3);
            assert_eq!(limit, 100);
        }
        _ => panic!("expected a walk"),
    }
    match route("POST", "/api/callees?name=run") {
        Route::Walk { outbound, depth, .. } => {
            assert!(outbound);
            assert_eq!(depth, 2);
        }
        _ => panic!("expected a walk"),
    }
}

#[test]
fn route_finds_pages_and_api_calls() {
    assert!(matches!(route("GET", "/"), Route::Asset(Asset::Page)));
    assert!(matches!(route("GET", "/?x=1"), Route::Asset(Asset::Page)));
    assert!(matches!(route("GET", "/src/main.js"), Route::Asset(Asset::MainJs)));
    assert!(matches!(route("GET", "/styles/graph.css"), Route::Asset(Asset::GraphCss)));
    assert!(matches!(route("GET", "/api/status"), Route::Status));
    assert!(matches!(route("GET", "/api/graph"), Route::Graph));
    assert!(matches!(route("POST", "/api/reindex"), Route::Reindex));
    assert!(matches!(route("GET", "/api/nothing"), Route::NotFound));
    match route("GET", "/api/impact?name=a%3A%3Ab&limit=3") {
        Route::Impact { name, depth, limit } => {
            assert_eq!(name, "a::b");
            assert_eq!(depth, 2);
            assert_eq!(limit, 3);
        }
        _ => panic!("expected an impact query"),
    }
    match route("GET", "/api/symbol?name=run") {
        Route::Symbol { name } => assert_eq!(name, "run"),
        _ => panic!("expected a symbol query"),
    }
}

#[test]
fn key_check_refuses_a_missing_or_blank_key() {
    let message = "codegraph config is missing api_key; run `codegraph config --api-key ...`";
    assert_eq!(key_check(None), Err(message.to_string()));
    assert_eq!(key_check(Some(" \t")), Err(message.to_string()));
    assert_eq!(key_check(Some("sk-1")), Ok("sk-1".to_string()));
}

#[test]
fn build_prompt_puts_each_part_under_its_heading() {
    let p = build_prompt("Q?", "QUAL", "CLUS", "RAG", "FACTS", "GUIDE");
    assert!(p.starts_with("你是一个 Rust 项目代码图谱导航助手。"));
    assert!(p.contains("用户问题：\nQ?\n\n图谱质量：\nQUAL\n\n功能簇：\nCLUS\n\nRAG 检索结果：\nRAG\n\n符号事实：\nFACTS\n\n导航上下文：\nGUIDE\n"));
    assert!(p.ends_with("GUIDE\n"));
}

#[test]
fn answer_text_joins_text_blocks_and_refuses_a_blank_answer() {
    let blocks = vec![
        ContentBlock { kind: "thinking".to_string(), text: Some("hidden".to_string()) },
        ContentBlock { kind: "text".to_string(), text: Some("first".to_string()) },
        ContentBlock { kind: "text".to_string(), text: None },
        ContentBlock { kind: "text".to_string(), text: Some("second".to_string()) },
    ];
    assert_eq!(answer_text(&blocks), Some("first\nsecond".to_string()));
    let blank = vec![ContentBlock { kind: "text".to_string(), text: Some("  \n".to_string()) }];
    assert_eq!(answer_text(&blank), None);
    assert_eq!(answer_text(&Vec::new()), None);
}
