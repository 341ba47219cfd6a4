use topcoat::react::{
    add_preload, past_deadline, swr_json_key, ReactServerRenderer, SwrPreload, MEMORY_LIMIT,
    RENDER_TIMEOUT_MS, SWR_JSON_PREFIX,
};

const SERVER_RENDERER: &str = r#"
globalThis.topcoatReactRender = (props, fallback) =>
  `<label>${props.label}:${fallback["/api/products"].join(",")}</label>`;
"#;

#[test]
fn server_renders_props_and_swr_fallback() {
    let renderer = ReactServerRenderer::new(SERVER_RENDERER);
    let html = renderer
        .render(r#"{"label":"Products"}"#, r#"{"/api/products":[1,2]}"#)
        .unwrap();
    assert_eq!(html, "<label>Products:1,2</label>");
}

#[test]
fn server_render_errors_are_returned() {
    let renderer = ReactServerRenderer::new(
        "globalThis.topcoatReactRender = () => { throw new Error('render failed') }",
    );
    let error = renderer.render("{}", "{}").unwrap_err();
    assert!(error.contains("render failed"), "{error}");
}

#[test]
fn renderers_keep_their_source() {
    let renderer = ReactServerRenderer::new("globalThis.topcoatReactRender = () => '<input>'");
    assert_eq!(renderer.source(), "globalThis.topcoatReactRender = () => '<input>'");
    assert_eq!(renderer.render("{}", "{}").unwrap(), "<input>");
}

#[test]
fn a_run_is_interrupted_once_it_reaches_its_time_limit() {
    assert!(!past_deadline(999, 1000));
    assert!(past_deadline(1000, 1000));
    assert!(past_deadline(5000, 1000));
    assert!(past_deadline(0, 0));
}

#[test]
fn a_render_that_never_ends_is_interrupted() {
    let renderer = ReactServerRenderer::new(
        "globalThis.topcoatReactRender = () => { for (;;) {} }",
    );
    assert!(renderer.render("{}", "{}").is_err());
}

#[test]
fn the_render_job_carries_the_inputs_in_order_and_the_limits() {
    let renderer = ReactServerRenderer::new("bundle");
    let job = renderer.render_job("{\"p\":1}", "{\"f\":2}");
    assert_eq!(job.source, "bundle");
    assert_eq!(job.function, "topcoatReactRender");
    assert_eq!(job.props, "{\"p\":1}");
    assert_eq!(job.fallback, "{\"f\":2}");
    assert_eq!(job.memory_limit, 64 * 1024 * 1024);
    assert_eq!(job.memory_limit, MEMORY_LIMIT);
    assert_eq!(job.timeout_ms, 1000);
    assert_eq!(job.timeout_ms, RENDER_TIMEOUT_MS);
}

#[test]
fn props_come_first_and_the_fallback_second() {
    let renderer = ReactServerRenderer::new(
        "globalThis.topcoatReactRender = (a, b) => `${a.side}|${b.side}`",
    );
    let html = renderer.render(r#"{"side":"props"}"#, r#"{"side":"fallback"}"#).unwrap();
    assert_eq!(html, "props|fallback");
}

#[test]
fn swr_payload_keys_carry_the_prefix() {
    assert_eq!(swr_json_key("/api/products"), "@topcoat/swr//api/products");
    assert_eq!(swr_json_key(""), SWR_JSON_PREFIX);
}

#[test]
fn reused_swr_keys_are_deduplicated() {
    let mut preloads: Vec<SwrPreload<u32>> = Vec::new();
    let one = |key: &str, value: u32| SwrPreload {
        key: key.to_string(),
        json_key: swr_json_key(key),
        value,
    };
    assert!(add_preload(&mut preloads, one("/api/products", 1)));
    assert!(add_preload(&mut preloads, one("/api/other", 2)));
    assert!(!add_preload(&mut preloads, one("/api/products", 1)));
    assert_eq!(preloads.len(), 2);
    assert_eq!(preloads[0].key, "/api/products");
    assert_eq!(preloads[0].json_key, "@topcoat/swr//api/products");
    assert_eq!(preloads[1].value, 2);
}
