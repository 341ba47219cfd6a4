//! Server rendering of React islands with a bundled `QuickJS` script.
//!
//! The script must assign a function to `globalThis.topcoatReactRender`; the
//! function receives the island's props and its SWR fallback object and
//! returns HTML. Rendering runs with a 64 MiB memory limit and is interrupted
//! after one second.
use vstd::prelude::*;
use rquickjs::CatchResultExt;

verus! {

#[verifier::external_type_specification]
#[verifier::external_body]
pub struct ExRuntime(rquickjs::Runtime);

#[verifier::external_type_specification]
#[verifier::external_body]
pub struct ExContext(rquickjs::Context);

#[verifier::external_type_specification]
#[verifier::external_body]
pub struct ExCtx<'js>(rquickjs::Ctx<'js>);

#[verifier::external_type_specification]
#[verifier::external_body]
pub struct ExFunction<'js>(rquickjs::Function<'js>);

#[verifier::external_type_specification]
#[verifier::external_body]
pub struct ExValue<'js>(rquickjs::Value<'js>);

#[verifier::external_type_specification]
#[verifier::external_body]
pub struct ExInstant(std::time::Instant);

#[verifier::external_type_specification]
#[verifier::external_body]
pub struct ExObject<'js>(rquickjs::Object<'js>);

/// The memory limit of the `QuickJS` runtime, in bytes.
pub const MEMORY_LIMIT: usize = 67108864;

/// How long one render may run, in milliseconds.
pub const RENDER_TIMEOUT_MS: u64 = 1000;

/// The global that the bundle assigns its render function to.
pub const RENDER_FUNCTION: &'static str = "topcoatReactRender";

/// A `QuickJS` bundle that renders one React component to HTML.
#[derive(Clone, Copy, Debug)]
pub struct ReactServerRenderer {
    source: &'static str,
}

impl View for ReactServerRenderer {
    type V = Seq<char>;

    closed spec fn view(&self) -> Seq<char> {
        self.source@
    }
}

/// `rquickjs::Runtime::new`: a fresh JavaScript runtime, or the message of
/// the error that prevented it. Nothing is claimed of the outcome.
#[verifier::external_body]
fn new_runtime() -> (r: Result<rquickjs::Runtime, String>) {
    rquickjs::Runtime::new().map_err(|error| error.to_string())
}

/// `rquickjs::Runtime::set_memory_limit` with the job's memory limit.
/// Nothing is claimed.
#[verifier::external_body]
fn set_memory_limit(runtime: &rquickjs::Runtime, job: &RenderJob) {
    runtime.set_memory_limit(job.memory_limit);
}

/// `std::time::Instant::now`: the current reading of the monotonic clock.
/// Nothing is claimed of it.
#[verifier::external_body]
fn clock_now() -> (r: std::time::Instant) {
    std::time::Instant::now()
}

/// `std::time::Instant::elapsed`: the time since `start`. Nothing is claimed
/// of it.
#[verifier::external_body]
fn elapsed_since(start: &std::time::Instant) -> (r: core::time::Duration) {
    start.elapsed()
}

/// `core::time::Duration::as_millis`: the whole milliseconds of `d`. Nothing
/// is claimed of it.
#[verifier::external_body]
fn whole_millis(d: &core::time::Duration) -> (r: u128) {
    d.as_millis()
}

/// A run that has lasted `elapsed_ms` milliseconds is over its time limit of
/// `timeout_ms` milliseconds once it has reached it.
pub fn past_deadline(elapsed_ms: u128, timeout_ms: u64) -> (r: bool)
    ensures
        r == (elapsed_ms >= timeout_ms),
{
    elapsed_ms >= timeout_ms as u128
}

/// Whether a run that started at `start` has reached its time limit; the
/// answer rests on the clock.
fn deadline_reached(start: &std::time::Instant, timeout_ms: u64) -> (r: bool) {
    let elapsed = elapsed_since(start);
    past_deadline(whole_millis(&elapsed), timeout_ms)
}

/// `rquickjs::Runtime::set_interrupt_handler`, with a handler that asks
/// `deadline_reached` for the run that started at `start`, with the job's
/// time limit. Nothing is claimed.
#[verifier::external_body]
fn set_deadline(runtime: &rquickjs::Runtime, start: std::time::Instant, job: &RenderJob) {
    let timeout_ms = job.timeout_ms;
    runtime.set_interrupt_handler(Some(Box::new(move || deadline_reached(&start, timeout_ms))));
}

/// `rquickjs::Context::full`: a context with all intrinsics, or the message
/// of the error that prevented it. Nothing is claimed of the outcome.
#[verifier::external_body]
fn full_context(runtime: &rquickjs::Runtime) -> (r: Result<rquickjs::Context, String>) {
    rquickjs::Context::full(runtime).map_err(|error| error.to_string())
}

/// `rquickjs::Context::with`, running `evaluate` on the context for the
/// job. Nothing is claimed of the outcome beyond what `evaluate` returns.
#[verifier::external_body]
fn with_context(context: &rquickjs::Context, job: &RenderJob) -> (r: Result<String, String>) {
    context.with(|ctx| evaluate(&ctx, job))
}

/// `rquickjs::Ctx::eval` of the job's script, its result discarded, with a
/// thrown exception caught and reported by its message. Nothing is claimed
/// of the outcome.
#[verifier::external_body]
fn eval_script<'js>(ctx: &rquickjs::Ctx<'js>, job: &RenderJob) -> (r: Result<(), String>) {
    ctx.eval::<(), _>(job.source).catch(ctx).map_err(|error| error.to_string())
}

/// `rquickjs::Ctx::globals`: the global object. Nothing is claimed of it.
#[verifier::external_body]
fn global_object<'js>(ctx: &rquickjs::Ctx<'js>) -> (r: rquickjs::Object<'js>) {
    ctx.globals()
}

/// `rquickjs::Object::get` of the job's render function property, as a
/// function, with a thrown exception caught and reported by its message.
/// Nothing is claimed of the outcome.
#[verifier::external_body]
fn get_function<'js>(ctx: &rquickjs::Ctx<'js>, object: &rquickjs::Object<'js>, job: &RenderJob) -> (r: Result<
    rquickjs::Function<'js>,
    String,
>) {
    object.get::<_, rquickjs::Function<'js>>(job.function).catch(ctx).map_err(|error| error.to_string())
}

/// `rquickjs::Ctx::json_parse` of the job's props, then of its fallback,
/// each thrown exception caught and reported by its message. Nothing is
/// claimed of the outcome.
#[verifier::external_body]
fn parse_arguments<'js>(ctx: &rquickjs::Ctx<'js>, job: &RenderJob) -> (r: Result<
    RenderArguments<'js>,
    String,
>) {
    let props = ctx.json_parse(job.props.as_str()).catch(ctx).map_err(|error| error.to_string())?;
    let fallback = ctx.json_parse(job.fallback.as_str()).catch(ctx).map_err(|error| error.to_string())?;
    Ok(RenderArguments { props, fallback })
}

/// `rquickjs::Function::call` with the parsed props, then the parsed
/// fallback, as its two arguments, converting the result to a string.
/// Nothing is claimed of the outcome.
#[verifier::external_body]
fn call_render<'js>(
    ctx: &rquickjs::Ctx<'js>,
    render: &rquickjs::Function<'js>,
    arguments: RenderArguments<'js>,
) -> (r: Result<String, String>) {
    render.call::<_, String>((arguments.props, arguments.fallback)).catch(ctx).map_err(|error| error.to_string())
}

/// Runs the job's bundle, looks up its render function, and calls it with
/// the parsed props and fallback; the first step that fails gives the error.
/// What each step gives rests on the JavaScript engine, so nothing is stated
/// of the result.
fn evaluate<'js>(ctx: &rquickjs::Ctx<'js>, job: &RenderJob) -> (r: Result<String, String>) {
    after_bundle(ctx, job, eval_script(ctx, job))
}

/// The rest of a render once the bundle ran: an exception while it ran is
/// the render's error, whatever else would follow.
fn after_bundle<'js>(ctx: &rquickjs::Ctx<'js>, job: &RenderJob, loaded: Result<(), String>) -> (r: Result<
    String,
    String,
>)
    ensures
        loaded matches Err(message) ==> r == Err::<String, String>(message),
{
    match loaded {
        Err(message) => Err(message),
        Ok(()) => {
            let globals = global_object(ctx);
            after_lookup(ctx, job, get_function(ctx, &globals, job))
        },
    }
}

/// The rest of a render once its render function was looked up: a missing
/// or unreadable function is the render's error.
fn after_lookup<'js>(
    ctx: &rquickjs::Ctx<'js>,
    job: &RenderJob,
    render: Result<rquickjs::Function<'js>, String>,
) -> (r: Result<String, String>)
    ensures
        render matches Err(message) ==> r == Err::<String, String>(message),
{
    match render {
        Err(message) => Err(message),
        Ok(function) => after_parse(ctx, &function, parse_arguments(ctx, job)),
    }
}

/// The rest of a render once its props and fallback were parsed: JSON that
/// does not parse is the render's error; otherwise the render function's
/// call gives the result.
fn after_parse<'js>(
    ctx: &rquickjs::Ctx<'js>,
    render: &rquickjs::Function<'js>,
    arguments: Result<RenderArguments<'js>, String>,
) -> (r: Result<String, String>)
    ensures
        arguments matches Err(message) ==> r == Err::<String, String>(message),
{
    match arguments {
        Err(message) => Err(message),
        Ok(arguments) => call_render(ctx, render, arguments),
    }
}

/// What one server render hands to `QuickJS`: the bundle, the global its
/// render function is read from, the JSON props and fallback, and the
/// memory and time limits of the run.
pub struct RenderJob {
    pub source: &'static str,
    pub function: &'static str,
    pub props: String,
    pub fallback: String,
    pub memory_limit: usize,
    pub timeout_ms: u64,
}

/// The props and the fallback of a render, parsed, in the order the render
/// function takes them.
pub struct RenderArguments<'js> {
    pub props: rquickjs::Value<'js>,
    pub fallback: rquickjs::Value<'js>,
}

impl ReactServerRenderer {
    /// Declares a trusted bundled script that assigns a render function to
    /// `globalThis.topcoatReactRender`.
    pub fn new(source: &'static str) -> (r: Self)
        ensures
            r@ == source@,
    {
        ReactServerRenderer { source }
    }

    /// The bundled script.
    pub fn source(&self) -> (r: &'static str)
        ensures
            r@ == self@,
    {
        self.source
    }

    /// The job that renders the component for JSON `props` and JSON
    /// `fallback`: this bundle, the global `topcoatReactRender`, a 64 MiB
    /// memory limit and a one-second time limit.
    pub fn render_job(&self, props: &str, fallback: &str) -> (j: RenderJob)
        ensures
            j.source@ == self@,
            j.function@ == RENDER_FUNCTION@,
            j.props@ == props@,
            j.fallback@ == fallback@,
            j.memory_limit == MEMORY_LIMIT,
            j.timeout_ms == RENDER_TIMEOUT_MS,
    {
        RenderJob {
            source: self.source,
            function: RENDER_FUNCTION,
            props: props.to_owned(),
            fallback: fallback.to_owned(),
            memory_limit: MEMORY_LIMIT,
            timeout_ms: RENDER_TIMEOUT_MS,
        }
    }

    /// Renders the component for JSON `props` and JSON `fallback`: runs
    /// `render_job(props, fallback)` in a fresh runtime. Returns the HTML, or
    /// the message of the error or the JavaScript exception that stopped it.
    /// Whether it succeeds rests on the engine, its limits and the clock, so
    /// nothing is stated of the result.
    pub fn render(self, props: &str, fallback: &str) -> (r: Result<String, String>) {
        let job = self.render_job(props, fallback);
        run_job(&job)
    }
}

/// Runs `job` in a fresh runtime limited by the job's memory and time limits.
fn run_job(job: &RenderJob) -> (r: Result<String, String>) {
    let runtime = new_runtime()?;
    set_memory_limit(&runtime, job);
    set_deadline(&runtime, clock_now(), job);
    let context = full_context(&runtime)?;
    with_context(&context, job)
}


/// The prefix of the JSON payload key under which an SWR preload is sent.
pub const SWR_JSON_PREFIX: &'static str = "@topcoat/swr/";

/// The JSON payload key for the SWR key `key`.
pub fn swr_json_key(key: &str) -> (r: String)
    ensures
        r@ == SWR_JSON_PREFIX@ + key@,
{
    let mut r = String::from_str(SWR_JSON_PREFIX);
    r.append(key);
    r
}

/// Data streamed into SWR's fallback cache before an island mounts: the SWR
/// key, the payload key it was sent under, and the value.
pub struct SwrPreload<V> {
    pub key: String,
    pub json_key: String,
    pub value: V,
}

/// Some preload among `preloads` has the SWR key `key`.
pub open spec fn has_preload_key<V>(preloads: Seq<SwrPreload<V>>, key: Seq<char>) -> bool {
    exists|i: int| 0 <= i < preloads.len() && (#[trigger] preloads[i]).key@ == key
}

/// Adds `preload` to an island's preloads unless one with its SWR key is
/// already there: reusing a key is deduplicated. Says whether it was added.
pub fn add_preload<V>(preloads: &mut Vec<SwrPreload<V>>, preload: SwrPreload<V>) -> (added: bool)
    ensures
        added == !has_preload_key(old(preloads)@, preload.key@),
        added ==> final(preloads)@ == old(preloads)@.push(preload),
        !added ==> final(preloads)@ == old(preloads)@,
{
    let mut i: usize = 0;
    while i < preloads.len()
        invariant
            i <= preloads@.len(),
            forall|j: int| 0 <= j < i ==> (#[trigger] preloads@[j]).key@ != preload.key@,
        decreases preloads@.len() - i,
    {
        if preloads[i].key == preload.key {
            assert(0 <= i < preloads@.len() && preloads@[i as int].key@ == preload.key@);
            return false;
        }
        i = i + 1;
    }
    preloads.push(preload);
    true
}

/// An island's preloads never hold two entries with one SWR key when they
/// are built with `add_preload`.
pub proof fn law_preload_keys_stay_distinct<V>(preloads: Seq<SwrPreload<V>>, preload: SwrPreload<V>)
    requires
        forall|i: int, j: int|
            0 <= i < j < preloads.len() ==> (#[trigger] preloads[i]).key@ != (#[trigger] preloads[j]).key@,
        !has_preload_key(preloads, preload.key@),
    ensures
        forall|i: int, j: int|
            0 <= i < j < preloads.push(preload).len() ==> (#[trigger] preloads.push(preload)[i]).key@
                != (#[trigger] preloads.push(preload)[j]).key@,
{
    let q = preloads.push(preload);
    assert forall|i: int, j: int| 0 <= i < j < q.len() implies (#[trigger] q[i]).key@ != (#[trigger] q[j]).key@ by {
        if j == preloads.len() {
            assert(q[i] == preloads[i]);
            assert(0 <= i < preloads.len() && preloads[i].key@ == preloads[i].key@);
        } else {
            assert(q[i] == preloads[i] && q[j] == preloads[j]);
        }
    }
}

} // verus!
