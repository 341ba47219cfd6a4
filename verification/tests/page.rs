use topcoat::page::{
    error_chunk, first_response, FirstResponse, LayoutFn, OwnedMethods, PageFn, PageWithLayouts,
    PassError, StreamingPage,
};
use topcoat::deferred::{DeferredKey, DeferredState, PollOutcome};
use topcoat::reconcile::SWAP_SCRIPT;

fn home(_cx: &str, body: &str) -> String {
    format!("page({body})")
}

fn root(_cx: &str, slot: String) -> String {
    format!("root[{slot}]")
}

fn settings(_cx: &str, slot: String) -> String {
    format!("settings[{slot}]")
}

#[test]
fn pages_keep_their_methods_path_and_render_function() {
    let page = PageFn::new(
        OwnedMethods::List(vec![http::Method::POST]),
        "/submit".to_string(),
        home as fn(&str, &str) -> String,
    );
    assert_eq!(page.path(), "/submit");
    assert!(matches!(page.methods(), OwnedMethods::List(m) if m == &vec![http::Method::POST]));
    assert_eq!(page.render("cx", "body"), "page(body)");
    let any = PageFn::const_new(OwnedMethods::Any, "/".to_string(), home as fn(&str, &str) -> String);
    assert!(matches!(any.methods(), OwnedMethods::Any));
}

#[test]
fn layouts_nest_from_the_most_specific_outward() {
    let page = PageFn::new(
        OwnedMethods::List(vec![http::Method::GET]),
        "/settings/profile".to_string(),
        home as fn(&str, &str) -> String,
    );
    let layouts = vec![
        LayoutFn::new("/".to_string(), root as fn(&str, String) -> String),
        LayoutFn::new("/settings".to_string(), settings as fn(&str, String) -> String),
    ];
    let routed = PageWithLayouts::new(page, layouts);
    assert_eq!(routed.path(), "/settings/profile");
    assert_eq!(routed.layouts()[1].path(), "/settings");
    assert_eq!(routed.render_view("cx", "b"), "root[settings[page(b)]]");
}

#[test]
fn a_page_without_layouts_renders_alone() {
    let page = PageFn::new(OwnedMethods::Any, "/".to_string(), home as fn(&str, &str) -> String);
    let routed: PageWithLayouts<_, fn(&str, String) -> String> = PageWithLayouts::new(page, vec![]);
    assert_eq!(routed.render_view("cx", "x"), "page(x)");
}

#[test]
fn streaming_starts_with_the_html_and_the_swap_script() {
    let (_, first, _) = StreamingPage::start("<p>loading</p>".to_string(), &mut DeferredState::<()>::new());
    assert_eq!(first, format!("<p>loading</p>{SWAP_SCRIPT}"));
    assert!(first.contains("data-topcoat-stream"));
}

#[test]
fn later_passes_stream_boundary_swaps() {
    let (mut stream, _, _) = StreamingPage::start(
        "<!--topcoat-boundary b--><p>loading</p><!--/topcoat-boundary b-->".to_string(),
        &mut DeferredState::<()>::new(),
    );
    let chunk = stream.next_chunk(Ok(
        "<!--topcoat-boundary b--><p>42</p><!--/topcoat-boundary b-->".to_string(),
    ));
    assert_eq!(chunk, "<template data-topcoat-swap=\"b\"><p>42</p></template>");
    let chunk = stream.next_chunk(Ok(
        "<!--topcoat-boundary b--><p>42</p><!--/topcoat-boundary b-->".to_string(),
    ));
    assert!(chunk.is_empty());
}

#[test]
fn redirects_after_streaming_become_navigation_instructions() {
    let (mut stream, _, _) = StreamingPage::start("<p>waiting</p>".to_string(), &mut DeferredState::<()>::new());
    let chunk = stream.next_chunk(Err(PassError::Redirect(Some("/target".to_string()))));
    assert_eq!(chunk, "<template data-topcoat-redirect=\"/target\"></template>");
}

#[test]
fn errors_after_streaming_become_root_swaps() {
    assert_eq!(
        error_chunk(&PassError::Failure(None)),
        "<template data-topcoat-swap=\"root\">internal server error</template>"
    );
    assert_eq!(
        error_chunk(&PassError::Redirect(None)),
        "<template data-topcoat-swap=\"root\">internal server error</template>"
    );
    assert_eq!(
        error_chunk(&PassError::Failure(Some("<h1>500</h1>".to_string()))),
        "<template data-topcoat-swap=\"root\"><h1>500</h1></template>"
    );
}

#[test]
fn failed_passes_keep_the_last_snapshot() {
    let (mut stream, _, _) = StreamingPage::start(
        "<!--topcoat-boundary b-->1<!--/topcoat-boundary b-->".to_string(),
        &mut DeferredState::<()>::new(),
    );
    stream.next_chunk(Err(PassError::Failure(None)));
    let chunk = stream.next_chunk(Ok(
        "<!--topcoat-boundary b-->2<!--/topcoat-boundary b-->".to_string(),
    ));
    assert_eq!(chunk, "<template data-topcoat-swap=\"b\">2</template>");
}

#[test]
fn a_stream_runs_until_its_futures_are_done_and_skips_empty_chunks() {
    let mut deferred: DeferredState<&str> = DeferredState::new();
    deferred.record_poll::<()>(DeferredKey(1), PollOutcome::Pending("first"));
    let (mut stream, _, futures) = StreamingPage::start(
        "<!--topcoat-boundary b-->wait<!--/topcoat-boundary b-->".to_string(),
        &mut deferred,
    );
    assert_eq!(futures, vec!["first"]);
    assert_eq!(stream.running(), 1);
    assert!(!stream.is_done());
    stream.begin_pass(&mut deferred, DeferredKey(1));
    assert!(!deferred.has_pending());
    // The pass discovers a second call and renders the same page: nothing to send.
    deferred.record_poll::<()>(DeferredKey(2), PollOutcome::Pending("second"));
    let (chunk, more) = stream.end_pass(
        &mut deferred,
        Ok("<!--topcoat-boundary b-->wait<!--/topcoat-boundary b-->".to_string()),
    );
    assert_eq!(chunk, None);
    assert_eq!(more, vec!["second"]);
    assert_eq!(stream.running(), 1);
    stream.begin_pass(&mut deferred, DeferredKey(2));
    let (chunk, more) = stream.end_pass(
        &mut deferred,
        Ok("<!--topcoat-boundary b-->done<!--/topcoat-boundary b-->".to_string()),
    );
    assert_eq!(chunk, Some("<template data-topcoat-swap=\"b\">done</template>".to_string()));
    assert!(more.is_empty());
    assert!(stream.is_done());
}

#[test]
fn pages_without_pending_work_are_sent_whole() {
    let mut deferred: DeferredState<&str> = DeferredState::new();
    deferred.record_poll(DeferredKey(1), PollOutcome::<u8, &str>::Ready(1));
    match first_response("<p>done</p>".to_string(), &mut deferred) {
        FirstResponse::Whole(body) => assert_eq!(body, "<p>done</p>"),
        FirstResponse::Streamed(..) => panic!("nothing is pending"),
    }
}

#[test]
fn pages_with_pending_work_are_streamed() {
    let mut deferred: DeferredState<&str> = DeferredState::new();
    deferred.record_poll::<()>(DeferredKey(1), PollOutcome::Pending("work"));
    match first_response("<p>wait</p>".to_string(), &mut deferred) {
        FirstResponse::Whole(_) => panic!("a call is pending"),
        FirstResponse::Streamed(stream, first, futures) => {
            assert_eq!(first, format!("<p>wait</p>{SWAP_SCRIPT}"));
            assert_eq!(futures, vec!["work"]);
            assert_eq!(stream.running(), 1);
        }
    }
}
