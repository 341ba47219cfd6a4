# topcoat

The streaming-render and reconciliation core of the Topcoat web framework,
written in Verus and proved against its contracts.

- `src/reconcile.rs`: reads the boundary markers of a rendered page into a
  snapshot (each boundary's content, parent and content hash) and turns two
  snapshots into the swap instructions the browser needs.
- `src/boundary.rs`: renders a boundary's markers around its child, and the
  laws that tie rendered boundaries to what a snapshot finds in them.
- `src/edit.rs`: what stays the same, in a page whose boundaries nest, when
  the text inside one boundary changes to other text that opens no comment:
  every boundary keeps its id and its parent, and every other boundary its
  hash.
- `src/deferred.rs`: the per-page record of deferred calls: which are
  pending, which futures still run, and what a render pass does for a call.
- `src/page.rs`: pages, their layouts, and the chunks of a streamed page.
- `src/memo.rs`: the table behind a process-wide memoized call site.
- `src/attr.rs`: the arguments of the `#[component]` attribute.
- `src/react.rs`: server rendering of React islands in QuickJS.
- `src/text.rs`: character-sequence helpers shared by the modules above.

`app/` holds what stays outside the verified library: polling futures,
driving a streamed response body, and the process-wide cache with its
type-erased keys and values.

Some parts of the framework are not here. They rest on the request context,
the view type, component identities and assets of crates that are not part
of this project: `PageWithLayouts::handle` beyond its decisions,
`deferred_state`, `defer`, `boundary`, `keyed_boundary`, the `Component`
trait, and the React island and component types (their preload
de-duplication is in `src/react.rs`). Checking that a page's path is a
well-formed route belongs to the path type of those crates too.
