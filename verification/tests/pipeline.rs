use rag_cli_app::context::build_context;
use rag_cli_app::pipeline::LLMPipeline;
use rag_cli_app::pipeline::PipelineError;
use rag_cli_app::store::SearchResult;

#[test]
fn build_context_preserves_length_and_order() {
    let results = vec![
        SearchResult { score: 9, payload: Some(String::from("first")) },
        SearchResult { score: 7, payload: Some(String::from("second")) },
    ];
    let ctx = build_context("why?", &results);
    assert_eq!(ctx.user_prompt, "why?");
    assert_eq!(ctx.payloads, vec!["first", "second"]);
}

#[test]
fn build_context_degrades_missing_payload_to_placeholder() {
    let results = vec![
        SearchResult { score: 5, payload: Some(String::from("kept")) },
        SearchResult { score: 3, payload: None },
        SearchResult { score: 1, payload: Some(String::from("also kept")) },
    ];
    let ctx = build_context("q", &results);
    assert_eq!(ctx.payloads, vec!["kept", "{}", "also kept"]);
}

#[test]
fn execute_before_load_context_is_usage_error() {
    let mut pipe = LLMPipeline::new();
    pipe.register_template("query", "Answer from the excerpts.");
    assert!(matches!(pipe.execute("query"), Err(PipelineError::ContextNotLoaded)));
}

#[test]
fn execute_missing_template_is_usage_error() {
    let mut pipe = LLMPipeline::new();
    let no_results = Vec::new();
    pipe.load_context(build_context("q", &no_results));
    assert!(matches!(pipe.execute("query"), Err(PipelineError::MissingTemplate)));
}

#[test]
fn execute_renders_prompt_and_payloads_in_order() {
    let mut pipe = LLMPipeline::new();
    pipe.register_template("query", "TEMPLATE");
    let results = vec![
        SearchResult { score: 2, payload: Some(String::from("one")) },
        SearchResult { score: 1, payload: Some(String::from("two")) },
    ];
    pipe.load_context(build_context("ask", &results));
    let resp = pipe.execute("query").unwrap();
    assert_eq!(resp.content(), "TEMPLATE\nask\none\ntwo");
}

#[test]
fn execute_after_reloading_context_uses_latest() {
    let mut pipe = LLMPipeline::new();
    pipe.register_template("query", "T");
    let no_results = Vec::new();
    pipe.load_context(build_context("first", &no_results));
    pipe.load_context(build_context("second", &no_results));
    let resp = pipe.execute("query").unwrap();
    assert_eq!(resp.content(), "T\nsecond");
}
