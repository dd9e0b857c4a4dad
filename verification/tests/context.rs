use loli::context::{App, Context, ContextError};

fn app(input: Option<&str>, output: Option<&str>, client: Option<&str>) -> App {
    App {
        session: "s".to_string(),
        client: client.map(|c| c.to_string()),
        input_fifo: input.map(|c| c.to_string()),
        output_fifo: output.map(|c| c.to_string()),
        timestamp: Some(5),
    }
}

#[test]
fn context_needs_both_fifos() {
    let ctx = Context::new(&app(Some("/in"), Some("/out"), None), "/store").unwrap();
    assert_eq!(ctx.input_fifo, "/in");
    assert_eq!(ctx.output_fifo, "/out");
    assert_eq!(ctx.output_fifo_str, "/out");
    assert_eq!(ctx.store, "/store");
    assert_eq!(ctx.list_key, "global");
    assert_eq!(ctx.client, None);
    assert_eq!(ctx.timestamp, Some(5));
    let ctx = Context::new(&app(Some("/in"), Some("/out"), Some("client0")), "/store").unwrap();
    assert_eq!(ctx.list_key, "client0");
    assert_eq!(ctx.client.as_deref(), Some("client0"));
    let e = Context::new(&app(None, Some("/out"), None), "/store").unwrap_err();
    assert_eq!(e, ContextError::MissingFifos);
    assert_eq!(e.message(), "Missing one or both FIFOs");
    assert!(Context::new(&app(Some("/in"), None, None), "/store").is_err());
}

#[test]
fn context_commands() {
    let ctx = Context::new(&app(Some("/in"), Some("/out"), None), "/store").unwrap();
    assert_eq!(
        ctx.add_highlighters("global", "src/a.rs", true),
        "add-highlighter -override buffer/ ranges loli_global_srcars"
    );
    assert_eq!(
        ctx.add_highlighters("c", "b", false),
        "add-highlighter -override window/ ranges loli_c_b"
    );
    assert_eq!(
        ctx.get_value("buflist"),
        "echo -to-file /out %sh{\n                    echo $kak_quoted_buflist\n                }"
    );
    assert_eq!(
        ctx.get_option("loli_global_list"),
        "echo -to-file /out %sh{\n                    echo $kak_quoted_opt_loli_global_list\n                }"
    );
}

#[test]
fn context_reads_quoted_lists() {
    let ctx = Context::new(&app(Some("/in"), Some("/out"), None), "/store").unwrap();
    assert_eq!(
        ctx.get_str_list(&Some("'a' 'b c' 'd'".to_string())),
        vec!["a", "b c", "d"]
    );
    assert_eq!(ctx.get_str_list_option(&Some("'x'".to_string())), vec!["x"]);
    assert_eq!(ctx.get_str_list(&None), vec![""]);
    assert_eq!(ctx.get_str_list(&Some("'".to_string())), vec![""]);
    assert_eq!(ctx.get_str_list(&Some("'a' ' ' 'b'".to_string())), vec!["a", " ", "b"]);
}
