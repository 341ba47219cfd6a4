use topcoat::reconcile::{redirect_template, swap_template, Snapshot};

#[test]
fn changed_boundaries_become_swap_templates() {
    let first =
        Snapshot::parse("a<!--topcoat-boundary 1-->old<!--/topcoat-boundary 1-->z".into());
    let next =
        Snapshot::parse("a<!--topcoat-boundary 1-->new<!--/topcoat-boundary 1-->z".into());
    let (_, chunk) = first.reconcile(next);
    assert_eq!(chunk, "<template data-topcoat-swap=\"1\">new</template>");
}

#[test]
fn pages_without_boundaries_swap_the_root() {
    let first = Snapshot::parse("old".into());
    let next = Snapshot::parse("new".into());
    let (_, chunk) = first.reconcile(next);
    assert_eq!(chunk, "<template data-topcoat-swap=\"root\">new</template>");
}

#[test]
fn unchanged_html_emits_no_instruction() {
    let first = Snapshot::parse("same".into());
    let (_, chunk) = first.clone().reconcile(first);
    assert!(chunk.is_empty());
}

#[test]
fn nested_changes_only_swap_the_child() {
    let first = Snapshot::parse("<!--topcoat-boundary p-->before<!--topcoat-boundary c-->old<!--/topcoat-boundary c-->after<!--/topcoat-boundary p-->".into());
    let next = Snapshot::parse("<!--topcoat-boundary p-->before<!--topcoat-boundary c-->new<!--/topcoat-boundary c-->after<!--/topcoat-boundary p-->".into());
    let (_, chunk) = first.reconcile(next);
    assert_eq!(chunk, "<template data-topcoat-swap=\"c\">new</template>");
}

#[test]
fn swap_templates_escape_the_id() {
    assert_eq!(
        swap_template("a\"b<c&d", "<p>x</p>"),
        "<template data-topcoat-swap=\"a&quot;b&lt;c&amp;d\"><p>x</p></template>"
    );
}

#[test]
fn redirect_templates_escape_the_location() {
    assert_eq!(
        redirect_template("/target?a=1&b=\"2\""),
        "<template data-topcoat-redirect=\"/target?a=1&amp;b=&quot;2&quot;\"></template>"
    );
}

#[test]
fn added_top_level_boundaries_swap_the_root() {
    let first = Snapshot::parse("<p>loading</p>".into());
    let html = "<!--topcoat-boundary x-->done<!--/topcoat-boundary x-->";
    let next = Snapshot::parse(html.into());
    let (_, chunk) = first.reconcile(next);
    assert_eq!(
        chunk,
        format!("<template data-topcoat-swap=\"root\">{html}</template>")
    );
}

#[test]
fn removed_top_level_boundaries_swap_the_root() {
    let first = Snapshot::parse("<!--topcoat-boundary x-->a<!--/topcoat-boundary x-->".into());
    let next = Snapshot::parse("plain".into());
    let (_, chunk) = first.reconcile(next);
    assert_eq!(chunk, "<template data-topcoat-swap=\"root\">plain</template>");
}

#[test]
fn several_changed_boundaries_swap_in_id_order() {
    let first = Snapshot::parse(
        "<!--topcoat-boundary b-->1<!--/topcoat-boundary b--><!--topcoat-boundary a-->2<!--/topcoat-boundary a-->"
            .into(),
    );
    let next = Snapshot::parse(
        "<!--topcoat-boundary b-->3<!--/topcoat-boundary b--><!--topcoat-boundary a-->4<!--/topcoat-boundary a-->"
            .into(),
    );
    let (_, chunk) = first.reconcile(next);
    assert_eq!(
        chunk,
        "<template data-topcoat-swap=\"a\">4</template><template data-topcoat-swap=\"b\">3</template>"
    );
}

#[test]
fn changes_outside_boundaries_emit_nothing() {
    let first = Snapshot::parse("x<!--topcoat-boundary a-->1<!--/topcoat-boundary a-->".into());
    let next = Snapshot::parse("y<!--topcoat-boundary a-->1<!--/topcoat-boundary a-->".into());
    let (_, chunk) = first.reconcile(next);
    assert!(chunk.is_empty());
}

#[test]
fn parent_changes_swap_the_parent_with_its_children() {
    let first = Snapshot::parse("<!--topcoat-boundary p-->x<!--topcoat-boundary c-->1<!--/topcoat-boundary c--><!--/topcoat-boundary p-->".into());
    let next = Snapshot::parse("<!--topcoat-boundary p-->y<!--topcoat-boundary c-->1<!--/topcoat-boundary c--><!--/topcoat-boundary p-->".into());
    let (_, chunk) = first.reconcile(next);
    assert_eq!(
        chunk,
        "<template data-topcoat-swap=\"p\">y<!--topcoat-boundary c-->1<!--/topcoat-boundary c--></template>"
    );
}

#[test]
fn unmatched_markers_are_ignored() {
    let first = Snapshot::parse("<!--/topcoat-boundary q-->a<!--topcoat-boundary r-->".into());
    let next = Snapshot::parse("<!--/topcoat-boundary q-->b<!--topcoat-boundary r-->".into());
    let (_, chunk) = first.reconcile(next);
    assert_eq!(
        chunk,
        "<template data-topcoat-swap=\"root\"><!--/topcoat-boundary q-->b<!--topcoat-boundary r--></template>"
    );
}

#[test]
fn reconcile_returns_the_next_snapshot() {
    let first = Snapshot::parse("<!--topcoat-boundary a-->1<!--/topcoat-boundary a-->".into());
    let second = Snapshot::parse("<!--topcoat-boundary a-->2<!--/topcoat-boundary a-->".into());
    let third = Snapshot::parse("<!--topcoat-boundary a-->2<!--/topcoat-boundary a-->".into());
    let (current, chunk) = first.reconcile(second);
    assert_eq!(chunk, "<template data-topcoat-swap=\"a\">2</template>");
    let (_, chunk) = current.reconcile(third);
    assert!(chunk.is_empty());
}

#[test]
fn plain_ids_are_written_as_they_are() {
    assert_eq!(
        swap_template("plain-id_42", "x"),
        "<template data-topcoat-swap=\"plain-id_42\">x</template>"
    );
    assert_eq!(
        swap_template("&amp;", ""),
        "<template data-topcoat-swap=\"&amp;amp;\"></template>"
    );
}

#[test]
fn a_change_deep_inside_swaps_only_the_innermost_boundary() {
    let page = |inner: &str| {
        format!(
            "<html><!--topcoat-boundary g--><nav>menu</nav><!--topcoat-boundary p--><h1>t</h1>\
             <!--topcoat-boundary c-->{inner}<!--/topcoat-boundary c--><p>after</p>\
             <!--/topcoat-boundary p--><!--topcoat-boundary side-->x<!--/topcoat-boundary side-->\
             <!--/topcoat-boundary g--></html>"
        )
    };
    let (_, chunk) = Snapshot::parse(page("<b>old</b>")).reconcile(Snapshot::parse(page("<i>a much longer new text</i>")));
    assert_eq!(chunk, "<template data-topcoat-swap=\"c\"><i>a much longer new text</i></template>");
}

#[test]
fn a_boundary_with_text_around_it_is_read_back() {
    let page = |child: &str| {
        format!("<head>t</head><!--topcoat-boundary my id-->{child}<!--/topcoat-boundary my id--><footer>f --> x</footer>")
    };
    let (_, chunk) = Snapshot::parse(page("a")).reconcile(Snapshot::parse(page("b")));
    assert_eq!(chunk, "<template data-topcoat-swap=\"my id\">b</template>");
}

#[test]
fn an_empty_child_that_fills_in_swaps_only_the_child() {
    let page = |inner: &str| {
        format!(
            "<!--topcoat-boundary p--><h1>t</h1><!--topcoat-boundary c-->{inner}<!--/topcoat-boundary c--><!--/topcoat-boundary p-->"
        )
    };
    let (_, chunk) = Snapshot::parse(page("")).reconcile(Snapshot::parse(page("<p>42</p>")));
    assert_eq!(chunk, "<template data-topcoat-swap=\"c\"><p>42</p></template>");
    let (_, chunk) = Snapshot::parse(page("<p>42</p>")).reconcile(Snapshot::parse(page("")));
    assert_eq!(chunk, "<template data-topcoat-swap=\"c\"></template>");
}

#[test]
fn escaped_ids_are_undone_by_the_three_replaces() {
    for value in ["a\"b<c&d", "&lt;", "&amp;quot;", "plain", "<<\"&&"] {
        let chunk = swap_template(value, "");
        let escaped = chunk
            .strip_prefix("<template data-topcoat-swap=\"")
            .and_then(|rest| rest.strip_suffix("\"></template>"))
            .unwrap();
        assert!(!escaped.contains('"') && !escaped.contains('<'));
        let undone = escaped
            .replace("&lt;", "<")
            .replace("&quot;", "\"")
            .replace("&amp;", "&");
        assert_eq!(undone, value);
    }
}
