//! The arguments of the `#[component]` attribute: an optional
//! comma-separated list of the flags `boxed` and `rerender`.
use vstd::prelude::*;
use syn::parse::Parser;

verus! {

/// Arguments passed to the `#[component]` attribute itself.
#[derive(Debug, Clone, Copy)]
pub struct ComponentAttr {
    boxed: bool,
    rerender: bool,
}

/// The flags an attribute holds.
pub struct ComponentAttrView {
    pub boxed: bool,
    pub rerender: bool,
}

impl View for ComponentAttr {
    type V = ComponentAttrView;

    closed spec fn view(&self) -> ComponentAttrView {
        ComponentAttrView { boxed: self.boxed, rerender: self.rerender }
    }
}

/// Why the attribute's arguments were refused.
#[derive(Debug, Clone)]
pub enum ComponentAttrError {
    /// The arguments are not a comma-separated list of identifiers; the
    /// parser's message.
    Syntax(String),
    /// `boxed` was given twice.
    DuplicateBoxed,
    /// `rerender` was given twice.
    DuplicateRerender,
    /// An argument other than `boxed` and `rerender`.
    Unexpected(String),
}

/// Why arguments are refused, as values.
pub enum AttrFault {
    Syntax(Seq<char>),
    DuplicateBoxed,
    DuplicateRerender,
    Unexpected(Seq<char>),
}

impl View for ComponentAttrError {
    type V = AttrFault;

    closed spec fn view(&self) -> AttrFault {
        match self {
            ComponentAttrError::Syntax(m) => AttrFault::Syntax(m@),
            ComponentAttrError::DuplicateBoxed => AttrFault::DuplicateBoxed,
            ComponentAttrError::DuplicateRerender => AttrFault::DuplicateRerender,
            ComponentAttrError::Unexpected(a) => AttrFault::Unexpected(a@),
        }
    }
}

/// The message that reports a refusal.
pub open spec fn fault_message(f: AttrFault) -> Seq<char> {
    match f {
        AttrFault::Syntax(m) => m,
        AttrFault::DuplicateBoxed => "duplicate `boxed` argument"@,
        AttrFault::DuplicateRerender => "duplicate `rerender` argument"@,
        AttrFault::Unexpected(_) => "expected `boxed` or `rerender`"@,
    }
}

/// The arguments from index `i` on, read with the flags seen so far: each
/// argument sets its flag once; a repeated flag or any other argument is an
/// error, the first one met.
pub open spec fn args_from(args: Seq<Seq<char>>, i: int, boxed: bool, rerender: bool) -> Result<
    ComponentAttrView,
    AttrFault,
>
    decreases args.len() - i,
{
    if i < 0 || i >= args.len() {
        Ok(ComponentAttrView { boxed, rerender })
    } else if args[i] == "boxed"@ {
        if boxed {
            Err(AttrFault::DuplicateBoxed)
        } else {
            args_from(args, i + 1, true, rerender)
        }
    } else if args[i] == "rerender"@ {
        if rerender {
            Err(AttrFault::DuplicateRerender)
        } else {
            args_from(args, i + 1, boxed, true)
        }
    } else {
        Err(AttrFault::Unexpected(args[i]))
    }
}

/// The attribute that the arguments `args` give, or why they are refused.
pub open spec fn attr_from_args(args: Seq<Seq<char>>) -> Result<ComponentAttrView, AttrFault> {
    args_from(args, 0, false, false)
}

/// What `syn` parses `source` into as a comma-separated list of
/// identifiers (a trailing comma allowed): the identifiers, or its error
/// message.
pub uninterp spec fn syn_ident_list(source: Seq<char>) -> Result<Seq<Seq<char>>, Seq<char>>;

pub open spec fn strings_view(v: Seq<String>) -> Seq<Seq<char>> {
    v.map_values(|s: String| s@)
}

/// Parses `source` with `syn` as identifiers separated by commas
/// (`Punctuated::<Ident, Token![,]>::parse_terminated`). Claims that the
/// result is `syn_ident_list(source)`: each identifier as it prints, or the
/// error's message.
#[verifier::external_body]
fn parse_ident_list(source: &str) -> (r: Result<Vec<String>, String>)
    ensures
        match r {
            Ok(idents) => syn_ident_list(source@) == Ok::<Seq<Seq<char>>, Seq<char>>(
                strings_view(idents@),
            ),
            Err(message) => syn_ident_list(source@) == Err::<Seq<Seq<char>>, Seq<char>>(
                message@,
            ),
        },
{
    let parser = syn::punctuated::Punctuated::<syn::Ident, syn::token::Comma>::parse_terminated;
    match parser.parse_str(source) {
        Ok(idents) => Ok(idents.iter().map(|ident| ident.to_string()).collect()),
        Err(error) => Err(error.to_string()),
    }
}

impl ComponentAttr {
    /// Whether the generated `render` returns a boxed future.
    pub fn boxed(&self) -> (r: bool)
        ensures
            r == self@.boxed,
    {
        self.boxed
    }

    /// Whether async setup is split from a reusable final render expression.
    pub fn rerender(&self) -> (r: bool)
        ensures
            r == self@.rerender,
    {
        self.rerender
    }

    /// Reads the attribute from its arguments, in order.
    pub fn from_args(args: &Vec<String>) -> (r: Result<ComponentAttr, ComponentAttrError>)
        ensures
            match r {
                Ok(attr) => attr_from_args(strings_view(args@)) == Ok::<
                    ComponentAttrView,
                    AttrFault,
                >(attr@),
                Err(e) => attr_from_args(strings_view(args@)) == Err::<ComponentAttrView, AttrFault>(
                    e@,
                ),
            },
    {
        let ghost sv = strings_view(args@);
        let boxed_name = String::from_str("boxed");
        let rerender_name = String::from_str("rerender");
        let mut attr = ComponentAttr { boxed: false, rerender: false };
        let mut i: usize = 0;
        while i < args.len()
            invariant
                i <= args@.len(),
                sv == strings_view(args@),
                boxed_name@ == "boxed"@,
                rerender_name@ == "rerender"@,
                attr_from_args(sv) == args_from(sv, i as int, attr.boxed, attr.rerender),
            decreases args.len() - i,
        {
            let arg = &args[i];
            assert(sv[i as int] == arg@);
            if *arg == boxed_name {
                if attr.boxed {
                    return Err(ComponentAttrError::DuplicateBoxed);
                }
                attr.boxed = true;
            } else if *arg == rerender_name {
                if attr.rerender {
                    return Err(ComponentAttrError::DuplicateRerender);
                }
                attr.rerender = true;
            } else {
                return Err(ComponentAttrError::Unexpected(arg.clone()));
            }
            i = i + 1;
        }
        Ok(attr)
    }

    /// Parses the attribute's arguments from source text.
    pub fn parse_str(source: &str) -> (r: Result<ComponentAttr, ComponentAttrError>)
        ensures
            match syn_ident_list(source@) {
                Err(message) => r matches Err(e) && e@ == AttrFault::Syntax(message),
                Ok(args) => match r {
                    Ok(attr) => attr_from_args(args) == Ok::<ComponentAttrView, AttrFault>(attr@),
                    Err(e) => attr_from_args(args) == Err::<ComponentAttrView, AttrFault>(e@),
                },
            },
    {
        match parse_ident_list(source) {
            Err(message) => Err(ComponentAttrError::Syntax(message)),
            Ok(args) => Self::from_args(&args),
        }
    }
}

impl ComponentAttrError {
    /// The message that reports this refusal.
    pub fn message(&self) -> (r: String)
        ensures
            r@ == fault_message(self@),
    {
        match self {
            ComponentAttrError::Syntax(m) => m.clone(),
            ComponentAttrError::DuplicateBoxed => String::from_str("duplicate `boxed` argument"),
            ComponentAttrError::DuplicateRerender => String::from_str(
                "duplicate `rerender` argument",
            ),
            ComponentAttrError::Unexpected(_) => String::from_str("expected `boxed` or `rerender`"),
        }
    }
}

/// The number of times `a` occurs in `args` from index `i` on.
pub open spec fn count_from(args: Seq<Seq<char>>, a: Seq<char>, i: int) -> nat
    decreases args.len() - i,
{
    if i < 0 || i >= args.len() {
        0
    } else {
        (if args[i] == a {
            1nat
        } else {
            0nat
        }) + count_from(args, a, i + 1)
    }
}

/// Arguments are accepted exactly when each is `boxed` or `rerender` and
/// neither occurs twice; a flag is set exactly when its name occurs.
pub proof fn law_attr_accepts_each_flag_once(args: Seq<Seq<char>>)
    ensures
        attr_from_args(args) is Ok <==> ((forall|i: int|
            0 <= i < args.len() ==> #[trigger] args[i] == "boxed"@ || args[i] == "rerender"@)
            && count_from(args, "boxed"@, 0) <= 1 && count_from(args, "rerender"@, 0) <= 1),
        attr_from_args(args) matches Ok(v) ==> (v.boxed <==> count_from(args, "boxed"@, 0) == 1)
            && (v.rerender <==> count_from(args, "rerender"@, 0) == 1),
{
    lemma_args_from(args, 0, false, false);
}

proof fn lemma_args_from(args: Seq<Seq<char>>, i: int, boxed: bool, rerender: bool)
    requires
        0 <= i <= args.len(),
    ensures
        args_from(args, i, boxed, rerender) is Ok <==> ((forall|j: int|
            i <= j < args.len() ==> #[trigger] args[j] == "boxed"@ || args[j] == "rerender"@)
            && (if boxed {
            0nat
        } else {
            1nat
        }) >= count_from(args, "boxed"@, i) && (if rerender {
            0nat
        } else {
            1nat
        }) >= count_from(args, "rerender"@, i)),
        args_from(args, i, boxed, rerender) matches Ok(v) ==> (v.boxed <==> (boxed || count_from(
            args,
            "boxed"@,
            i,
        ) == 1)) && (v.rerender <==> (rerender || count_from(args, "rerender"@, i) == 1)),
    decreases args.len() - i,
{
    let b: Seq<char> = "boxed"@;
    let r: Seq<char> = "rerender"@;
    assert(b != r) by {
        reveal_strlit("boxed");
        reveal_strlit("rerender");
        assert(b.len() != r.len());
    }
    if i < args.len() {
        if args[i] == b {
            if !boxed {
                lemma_args_from(args, i + 1, true, rerender);
            }
        } else if args[i] == r {
            if !rerender {
                lemma_args_from(args, i + 1, boxed, true);
            }
        }
    }
}

} // verus!
