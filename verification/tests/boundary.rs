use topcoat::boundary::Boundary;
use topcoat::reconcile::Snapshot;

#[test]
fn boundaries_render_hex_identity_markers() {
    let boundary = Boundary::new(0xabc, "<p>42</p>".to_string());
    let id = "00000000000000000000000000000abc";
    assert_eq!(boundary.marker_id(), id);
    assert_eq!(
        boundary.render(),
        format!("<!--topcoat-boundary {id}--><p>42</p><!--/topcoat-boundary {id}-->")
    );
}

#[test]
fn the_id_matches_format_hex_padding() {
    let value: u128 = 0x0123_4567_89ab_cdef_fedc_ba98_7654_3210;
    assert_eq!(Boundary::new(value, String::new()).marker_id(), format!("{value:032x}"));
    assert_eq!(Boundary::new(u128::MAX, String::new()).marker_id(), format!("{:032x}", u128::MAX));
}

#[test]
fn rendered_boundaries_are_found_by_the_snapshot() {
    let first = Boundary::new(5, "<p>loading</p>".to_string()).render();
    let next = Boundary::new(5, "<p>42</p>".to_string()).render();
    let (_, chunk) = Snapshot::parse(first).reconcile(Snapshot::parse(next));
    assert_eq!(
        chunk,
        "<template data-topcoat-swap=\"00000000000000000000000000000005\"><p>42</p></template>"
    );
}

#[test]
fn rendered_nested_child_change_swaps_only_the_child() {
    let page = |inner: &str| {
        let child = Boundary::new(2, inner.to_string()).render();
        Boundary::new(1, format!("<main>{child}</main>")).render()
    };
    let (_, chunk) = Snapshot::parse(page("old")).reconcile(Snapshot::parse(page("new")));
    assert_eq!(
        chunk,
        "<template data-topcoat-swap=\"00000000000000000000000000000002\">new</template>"
    );
    let (_, same) = Snapshot::parse(page("old")).reconcile(Snapshot::parse(page("old")));
    assert!(same.is_empty());
}
