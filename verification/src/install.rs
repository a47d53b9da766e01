//! Installing the bootloader itself through a debug adapter, by driving an
//! external programmer from per-target templates.
//!
//! Commands are run argv-exact, never through a shell. The only text
//! transformation is the substitution of `{image}` and `{port}`; any other
//! `{...}` is rejected instead of guessed at.

use vstd::prelude::*;
use vstd::string::*;

use crate::text::{
    chars_of, debug_str, is_before, is_blank, is_whitespace, push_decimal, push_signed,
    text_of,
};

verus! {

/// Why a target cannot be turned into commands. `S` is text.
#[derive(Debug)]
pub enum PlanError<S = String> {
    /// A `{` in the template argument is never closed.
    Unclosed { arg: S },
    /// The template argument needs a port and none was given.
    NeedsPort { arg: S },
    /// The template argument has a placeholder that does not exist.
    Unknown { name: S, arg: S },
    /// A port was given and the target has no place for one.
    NoPortSlot { port: S },
}

impl View for PlanError {
    type V = PlanError<Seq<char>>;

    open spec fn view(&self) -> PlanError<Seq<char>> {
        match self {
            PlanError::Unclosed { arg } => PlanError::Unclosed { arg: arg@ },
            PlanError::NeedsPort { arg } => PlanError::NeedsPort { arg: arg@ },
            PlanError::Unknown { name, arg } => PlanError::Unknown { name: name@, arg: arg@ },
            PlanError::NoPortSlot { port } => PlanError::NoPortSlot { port: port@ },
        }
    }
}

/// Where `c` first stands in `s`; its length if nowhere.
pub open spec fn find_char(s: Seq<char>, c: char) -> int
    decreases s.len(),
{
    if s.len() == 0 || s[0] == c {
        0
    } else {
        1 + find_char(s.skip(1), c)
    }
}

/// What a placeholder in the argument `arg` stands for, and whether it is the
/// port.
pub open spec fn placeholder(
    name: Seq<char>,
    arg: Seq<char>,
    image: Seq<char>,
    port: Option<Seq<char>>,
) -> Result<(Seq<char>, bool), PlanError<Seq<char>>> {
    if name == "image"@ {
        Ok((image, false))
    } else if name == "port"@ {
        match port {
            Some(p) => Ok((p, true)),
            None => Err(PlanError::NeedsPort { arg }),
        }
    } else {
        Err(PlanError::Unknown { name, arg })
    }
}

/// `out` and what follows it, or the error.
pub open spec fn joined(
    out: Seq<char>,
    used: bool,
    rest: Result<(Seq<char>, bool), PlanError<Seq<char>>>,
) -> Result<(Seq<char>, bool), PlanError<Seq<char>>> {
    match rest {
        Ok((s, u)) => Ok((out + s, used || u)),
        Err(e) => Err(e),
    }
}

/// The rest of the template argument `arg` with its placeholders substituted,
/// and whether the port was among them; or the error of the first bad one.
pub open spec fn expanded(
    arg: Seq<char>,
    rest: Seq<char>,
    image: Seq<char>,
    port: Option<Seq<char>>,
) -> Result<(Seq<char>, bool), PlanError<Seq<char>>>
    decreases rest.len(),
{
    if rest.len() == 0 {
        Ok((seq![], false))
    } else if rest[0] != '{' {
        joined(seq![rest[0]], false, expanded(arg, rest.skip(1), image, port))
    } else {
        let close = find_char(rest, '}');
        if close >= rest.len() || close < 1 {
            Err(PlanError::Unclosed { arg })
        } else {
            match placeholder(rest.subrange(1, close), arg, image, port) {
                Err(e) => Err(e),
                Ok((text, used)) => joined(
                    text,
                    used,
                    expanded(arg, rest.skip(close + 1), image, port),
                ),
            }
        }
    }
}

/// The view of an optional text.
pub open spec fn opt_text(port: Option<&str>) -> Option<Seq<char>> {
    match port {
        Some(p) => Some(p@),
        None => None,
    }
}

/// The first place of `c` in `chars` from `from` on.
fn find_from(chars: &Vec<char>, from: usize, c: char) -> (r: usize)
    requires
        from <= chars@.len(),
    ensures
        from <= r <= chars@.len(),
        r - from == find_char(chars@.skip(from as int), c),
        r < chars@.len() ==> chars@[r as int] == c,
{
    let mut i: usize = from;
    while i < chars.len() && chars[i] != c
        invariant
            from <= i <= chars@.len(),
            find_char(chars@.skip(from as int), c) == i - from + find_char(
                chars@.skip(i as int),
                c,
            ),
        decreases chars@.len() - i,
    {
        proof {
            assert(chars@.skip(i as int).skip(1) =~= chars@.skip(i + 1));
        }
        i = i + 1;
    }
    i
}

/// Joining twice is joining once.
proof fn lemma_joined(
    a: Seq<char>,
    ua: bool,
    b: Seq<char>,
    ub: bool,
    rest: Result<(Seq<char>, bool), PlanError<Seq<char>>>,
)
    ensures
        joined(a, ua, joined(b, ub, rest)) == joined(a + b, ua || ub, rest),
{
    if let Ok((s, u)) = rest {
        assert(a + (b + s) =~= a + b + s);
    }
}

/// Substitutes `{image}` and `{port}` inside one argument and records whether
/// the port was used. Anything else in braces is rejected: a typo passed
/// through would reach the programmer and fail there with a far worse message.
fn expand_one(
    arg: &str,
    image: &str,
    port: Option<&str>,
    port_consumed: &mut bool,
) -> (r: Result<String, PlanError>)
    ensures
        match expanded(arg@, arg@, image@, opt_text(port)) {
            Ok((text, used)) => r is Ok && r->Ok_0@ == text && *final(port_consumed) == (*old(
                port_consumed,
            ) || used),
            Err(e) => r is Err && r->Err_0@ == e,
        },
{
    let chars: Vec<char> = chars_of(arg);
    let mut out = String::new();
    let mut used: bool = false;
    let mut i: usize = 0;
    let ghost whole = expanded(arg@, arg@, image@, opt_text(port));
    proof {
        assert(chars@.skip(0) =~= arg@);
        assert(whole == joined(out@, used, expanded(arg@, chars@.skip(0), image@, opt_text(port))))
            by {
            if let Ok((s, u)) = whole {
                assert(out@ + s =~= s);
            }
        }
    }
    while i < chars.len()
        invariant
            i <= chars@.len(),
            chars@ == arg@,
            whole == expanded(arg@, arg@, image@, opt_text(port)),
            whole == joined(
                out@,
                used,
                expanded(arg@, chars@.skip(i as int), image@, opt_text(port)),
            ),
        decreases chars@.len() - i,
    {
        let ghost rest = chars@.skip(i as int);
        if chars[i] != '{' {
            let c: char = chars[i];
            proof {
                assert(rest[0] == c);
                assert(rest.skip(1) =~= chars@.skip(i + 1));
                lemma_joined(
                    out@,
                    used,
                    seq![c],
                    false,
                    expanded(arg@, chars@.skip(i + 1), image@, opt_text(port)),
                );
                assert(out@ + seq![c] =~= out@.push(c));
            }
            out.push(c);
            i = i + 1;
        } else {
            let close: usize = find_from(&chars, i, '}');
            if close == chars.len() {
                return Err(PlanError::Unclosed { arg: arg.to_owned() });
            }
            proof {
                assert(close > i);
                assert(rest.subrange(1, close - i) =~= chars@.subrange(i + 1, close as int));
                assert(rest.skip(close - i + 1) =~= chars@.skip(close + 1));
            }
            let name: String = text_of(&chars, i + 1, close);
            let ghost tail = expanded(arg@, chars@.skip(close + 1), image@, opt_text(port));
            if name == "image".to_owned() {
                proof {
                    lemma_joined(out@, used, image@, false, tail);
                }
                out.append(image);
            } else if name == "port".to_owned() {
                match port {
                    None => {
                        return Err(PlanError::NeedsPort { arg: arg.to_owned() });
                    },
                    Some(p) => {
                        proof {
                            lemma_joined(out@, used, p@, true, tail);
                        }
                        out.append(p);
                        used = true;
                    },
                }
            } else {
                return Err(PlanError::Unknown { name, arg: arg.to_owned() });
            }
            i = close + 1;
        }
    }
    proof {
        assert(chars@.skip(i as int) =~= Seq::<char>::empty());
        assert(out@ + Seq::<char>::empty() =~= out@);
    }
    if used {
        *port_consumed = true;
    }
    Ok(out)
}

/// The texts of a list of strings.
pub open spec fn texts(list: Seq<String>) -> Seq<Seq<char>> {
    list.map_values(|s: String| s@)
}

/// A list of template arguments with their placeholders substituted, and
/// whether the port was among them; or the error of the first bad one.
pub open spec fn all_expanded(
    args: Seq<Seq<char>>,
    image: Seq<char>,
    port: Option<Seq<char>>,
) -> Result<(Seq<Seq<char>>, bool), PlanError<Seq<char>>>
    decreases args.len(),
{
    if args.len() == 0 {
        Ok((seq![], false))
    } else {
        match all_expanded(args.drop_last(), image, port) {
            Err(e) => Err(e),
            Ok((head, used)) => match expanded(args.last(), args.last(), image, port) {
                Err(e) => Err(e),
                Ok((text, u)) => Ok((head.push(text), used || u)),
            },
        }
    }
}

/// A bad argument fails every list that starts with it.
proof fn lemma_args_fail(
    args: Seq<Seq<char>>,
    n: int,
    image: Seq<char>,
    port: Option<Seq<char>>,
    e: PlanError<Seq<char>>,
)
    requires
        0 <= n <= args.len(),
        all_expanded(args.take(n), image, port) == Err::<
            (Seq<Seq<char>>, bool),
            PlanError<Seq<char>>,
        >(e),
    ensures
        all_expanded(args, image, port) == Err::<(Seq<Seq<char>>, bool), PlanError<Seq<char>>>(
            e,
        ),
    decreases args.len(),
{
    if n == args.len() {
        assert(args.take(n) =~= args);
    } else {
        assert(args.drop_last().take(n) =~= args.take(n));
        lemma_args_fail(args.drop_last(), n, image, port, e);
    }
}

/// Substitutes inside `args[from..]`.
fn expand_args(
    args: &Vec<String>,
    from: usize,
    image: &str,
    port: Option<&str>,
    port_consumed: &mut bool,
) -> (r: Result<Vec<String>, PlanError>)
    requires
        from <= args@.len(),
    ensures
        match all_expanded(texts(args@.skip(from as int)), image@, opt_text(port)) {
            Ok((list, used)) => r is Ok && texts(r->Ok_0@) == list && *final(port_consumed) == (
            *old(port_consumed) || used),
            Err(e) => r is Err && r->Err_0@ == e,
        },
{
    let mut out: Vec<String> = Vec::new();
    let ghost all = texts(args@.skip(from as int));
    let ghost mut so_far = false;
    let mut i: usize = from;
    proof {
        assert(all.take(0) =~= Seq::<Seq<char>>::empty());
        assert(texts(out@) =~= Seq::<Seq<char>>::empty());
    }
    while i < args.len()
        invariant
            from <= i <= args@.len(),
            all == texts(args@.skip(from as int)),
            all.len() == args@.len() - from,
            *port_consumed == (*old(port_consumed) || so_far),
            all_expanded(all.take(i - from), image@, opt_text(port)) == Ok::<
                (Seq<Seq<char>>, bool),
                PlanError<Seq<char>>,
            >((texts(out@), so_far)),
        decreases args@.len() - i,
    {
        let ghost head = all.take(i - from + 1);
        let arg: &str = args[i].as_str();
        proof {
            assert(head.drop_last() =~= all.take(i - from));
            assert(head.last() == arg@);
        }
        match expand_one(arg, image, port, port_consumed) {
            Err(e) => {
                proof {
                    lemma_args_fail(all, i - from + 1, image@, opt_text(port), e@);
                }
                return Err(e);
            },
            Ok(text) => {
                proof {
                    assert(texts(out@.push(text)) =~= texts(out@).push(text@));
                    so_far = so_far || expanded(
                        arg@,
                        arg@,
                        image@,
                        opt_text(port),
                    )->Ok_0.1;
                }
                out.push(text);
            },
        }
        i = i + 1;
    }
    proof {
        assert(all.take(i - from) =~= all);
    }
    Ok(out)
}

/// One programmer recipe. `args` may embed `{image}` and `{port}`; each entry
/// of `pre` runs first under the same rules, its first element being the tool.
#[derive(Debug)]
pub struct Target {
    /// The programmer to run.
    pub tool: String,
    /// Its template arguments.
    pub args: Vec<String>,
    /// Commands to run before it.
    pub pre: Vec<Vec<String>>,
    /// The flag that introduces a port, if the template has no place for one.
    pub port_arg: Option<String>,
}

/// A target as a value of specifications.
pub ghost struct TargetSpec {
    pub tool: Seq<char>,
    pub args: Seq<Seq<char>>,
    pub pre: Seq<Seq<Seq<char>>>,
    pub port_arg: Option<Seq<char>>,
}

impl View for Target {
    type V = TargetSpec;

    open spec fn view(&self) -> TargetSpec {
        TargetSpec {
            tool: self.tool@,
            args: texts(self.args@),
            pre: self.pre@.map_values(|step: Vec<String>| texts(step@)),
            port_arg: match self.port_arg {
                Some(flag) => Some(flag@),
                None => None,
            },
        }
    }
}

/// One fully expanded command, ready to run argv-exact.
#[derive(Debug, PartialEq, Eq)]
pub struct Invocation {
    /// The program.
    pub tool: String,
    /// Its arguments.
    pub args: Vec<String>,
}

/// A command as a value of specifications.
pub ghost struct InvocationSpec {
    pub tool: Seq<char>,
    pub args: Seq<Seq<char>>,
}

impl View for Invocation {
    type V = InvocationSpec;

    open spec fn view(&self) -> InvocationSpec {
        InvocationSpec { tool: self.tool@, args: texts(self.args@) }
    }
}

/// Every step before the main one names its tool.
pub open spec fn plannable(t: TargetSpec) -> bool {
    forall|k: int| 0 <= k < t.pre.len() ==> (#[trigger] t.pre[k]).len() > 0
}

/// The commands of the steps before the main one, and whether the port was
/// used; or the error of the first bad one. The tool of a step is literal.
pub open spec fn pre_plan(
    pre: Seq<Seq<Seq<char>>>,
    image: Seq<char>,
    port: Option<Seq<char>>,
) -> Result<(Seq<InvocationSpec>, bool), PlanError<Seq<char>>>
    decreases pre.len(),
{
    if pre.len() == 0 {
        Ok((seq![], false))
    } else {
        match pre_plan(pre.drop_last(), image, port) {
            Err(e) => Err(e),
            Ok((head, used)) => match all_expanded(pre.last().skip(1), image, port) {
                Err(e) => Err(e),
                Ok((args, u)) => Ok(
                    (head.push(InvocationSpec { tool: pre.last()[0], args }), used || u),
                ),
            },
        }
    }
}

/// The commands of a target: the steps before, then the main tool. A port
/// that no placeholder used is appended behind the target's port flag.
pub open spec fn plan_result(
    t: TargetSpec,
    image: Seq<char>,
    port: Option<Seq<char>>,
) -> Result<Seq<InvocationSpec>, PlanError<Seq<char>>> {
    match pre_plan(t.pre, image, port) {
        Err(e) => Err(e),
        Ok((head, used_before)) => match all_expanded(t.args, image, port) {
            Err(e) => Err(e),
            Ok((args, used_here)) => match (port, t.port_arg) {
                (Some(p), Some(flag)) if !used_before && !used_here => Ok(
                    head.push(InvocationSpec { tool: t.tool, args: args.push(flag).push(p) }),
                ),
                (Some(p), None) if !used_before && !used_here => Err(
                    PlanError::NoPortSlot { port: p },
                ),
                _ => Ok(head.push(InvocationSpec { tool: t.tool, args })),
            },
        },
    }
}

/// The commands of a list.
pub open spec fn commands(list: Seq<Invocation>) -> Seq<InvocationSpec> {
    list.map_values(|i: Invocation| i@)
}

/// A bad step fails every list that starts with it.
proof fn lemma_pre_fail(
    pre: Seq<Seq<Seq<char>>>,
    n: int,
    image: Seq<char>,
    port: Option<Seq<char>>,
    e: PlanError<Seq<char>>,
)
    requires
        0 <= n <= pre.len(),
        pre_plan(pre.take(n), image, port) == Err::<
            (Seq<InvocationSpec>, bool),
            PlanError<Seq<char>>,
        >(e),
    ensures
        pre_plan(pre, image, port) == Err::<(Seq<InvocationSpec>, bool), PlanError<Seq<char>>>(e),
    decreases pre.len(),
{
    if n == pre.len() {
        assert(pre.take(n) =~= pre);
    } else {
        assert(pre.drop_last().take(n) =~= pre.take(n));
        lemma_pre_fail(pre.drop_last(), n, image, port, e);
    }
}

/// Expands a target into the commands to run, with placeholder substitution
/// and port injection.
///
/// # Errors
///
/// See [`PlanError`]; the first argument that cannot be expanded decides.
pub fn plan(target: &Target, image: &str, port: Option<&str>) -> (r: Result<
    Vec<Invocation>,
    PlanError,
>)
    requires
        plannable(target@),
    ensures
        match plan_result(target@, image@, opt_text(port)) {
            Ok(list) => r is Ok && commands(r->Ok_0@) == list,
            Err(e) => r is Err && r->Err_0@ == e,
        },
{
    let mut port_consumed: bool = false;
    let mut out: Vec<Invocation> = Vec::new();
    let ghost pre = target@.pre;
    let mut i: usize = 0;
    proof {
        assert(pre.take(0) =~= Seq::<Seq<Seq<char>>>::empty());
        assert(commands(out@) =~= Seq::<InvocationSpec>::empty());
    }
    while i < target.pre.len()
        invariant
            i <= target.pre@.len(),
            pre == target@.pre,
            pre.len() == target.pre@.len(),
            plannable(target@),
            pre_plan(pre.take(i as int), image@, opt_text(port)) == Ok::<
                (Seq<InvocationSpec>, bool),
                PlanError<Seq<char>>,
            >((commands(out@), port_consumed)),
        decreases target.pre@.len() - i,
    {
        let step: &Vec<String> = &target.pre[i];
        let ghost head = pre.take(i + 1);
        proof {
            assert(head.drop_last() =~= pre.take(i as int));
            assert(head.last() == texts(step@));
            assert(pre[i as int].len() == step@.len());
            assert(texts(step@).skip(1) =~= texts(step@.skip(1)));
        }
        match expand_args(step, 1, image, port, &mut port_consumed) {
            Err(e) => {
                proof {
                    lemma_pre_fail(pre, i + 1, image@, opt_text(port), e@);
                }
                return Err(e);
            },
            Ok(args) => {
                let inv: Invocation = Invocation { tool: step[0].clone(), args };
                proof {
                    assert(commands(out@.push(inv)) =~= commands(out@).push(inv@));
                }
                out.push(inv);
            },
        }
        i = i + 1;
    }
    proof {
        assert(pre.take(i as int) =~= pre);
        assert(target.args@.skip(0) =~= target.args@);
    }
    let mut args: Vec<String> = match expand_args(
        &target.args,
        0,
        image,
        port,
        &mut port_consumed,
    ) {
        Err(e) => {
            return Err(e);
        },
        Ok(args) => args,
    };
    if let Some(p) = port {
        if !port_consumed {
            match &target.port_arg {
                None => {
                    return Err(PlanError::NoPortSlot { port: p.to_owned() });
                },
                Some(flag) => {
                    let ghost before = args@;
                    args.push(flag.clone());
                    args.push(p.to_owned());
                    proof {
                        assert(texts(args@) =~= texts(before).push(flag@).push(p@));
                    }
                },
            }
        }
    }
    let inv: Invocation = Invocation { tool: target.tool.clone(), args };
    proof {
        assert(commands(out@.push(inv)) =~= commands(out@).push(inv@));
    }
    out.push(inv);
    Ok(out)
}

/// The targets of an `install.toml`, by name in the order of strings.
#[derive(Debug)]
pub struct InstallConfig {
    targets: Vec<(String, Target)>,
}

/// The names of a list of targets.
pub open spec fn names(entries: Seq<(Seq<char>, TargetSpec)>) -> Seq<Seq<char>> {
    entries.map_values(|e: (Seq<char>, TargetSpec)| e.0)
}

/// Each name comes before the next, so none occurs twice.
pub open spec fn ordered(entries: Seq<(Seq<char>, TargetSpec)>) -> bool {
    forall|i: int, j: int|
        0 <= i < j < entries.len() ==> crate::text::before(
            (#[trigger] entries[i]).0,
            (#[trigger] entries[j]).0,
        )
}

/// The target of that name, if there is one.
pub open spec fn lookup(entries: Seq<(Seq<char>, TargetSpec)>, name: Seq<char>) -> Option<
    TargetSpec,
>
    decreases entries.len(),
{
    if entries.len() == 0 {
        None
    } else if entries.last().0 == name {
        Some(entries.last().1)
    } else {
        lookup(entries.drop_last(), name)
    }
}

impl View for InstallConfig {
    type V = Seq<(Seq<char>, TargetSpec)>;

    closed spec fn view(&self) -> Seq<(Seq<char>, TargetSpec)> {
        self.targets@.map_values(|e: (String, Target)| (e.0@, e.1@))
    }
}

/// What [`InstallConfig::target`] says of a name that there is no target of.
pub open spec fn no_target_message(
    name: Seq<char>,
    source: Seq<char>,
    entries: Seq<(Seq<char>, TargetSpec)>,
) -> Seq<char> {
    "no target "@ + crate::text::debug_text(name) + " in "@ + source + " — available: "@
        + crate::text::join(names(entries), ", "@) + " (add a [targets."@ + name
        + "] table to define it)"@
}

/// Whether a text is nothing but white space.
pub open spec fn blank(s: Seq<char>) -> bool {
    crate::text::trimmed(s).len() == 0
}

/// Whether a step names no tool.
pub open spec fn bad_step(step: Seq<Seq<char>>) -> bool {
    step.len() == 0 || blank(step[0])
}

/// Whether a target names a tool, and so does each of its steps.
pub open spec fn usable(t: TargetSpec) -> bool {
    !blank(t.tool) && forall|k: int| 0 <= k < t.pre.len() ==> !bad_step(#[trigger] t.pre[k])
}

/// The number of the first step that names no tool; their count if there is
/// none.
pub open spec fn first_bad(pre: Seq<Seq<Seq<char>>>) -> int
    decreases pre.len(),
{
    if pre.len() == 0 {
        0
    } else if first_bad(pre.drop_last()) < pre.len() - 1 {
        first_bad(pre.drop_last())
    } else if bad_step(pre.last()) {
        pre.len() - 1
    } else {
        pre.len() as int
    }
}

/// What is said of a target that is not usable.
pub open spec fn defect_message(source: Seq<char>, name: Seq<char>, t: TargetSpec) -> Seq<char> {
    if blank(t.tool) {
        source + ": targets."@ + name
            + ": tool is empty — name the programmer executable to run (e.g. \"avrdude\" or \"probe-rs\")"@
    } else {
        source + ": targets."@ + name + ": pre["@ + crate::text::decimal(
            first_bad(t.pre) as nat,
        )
            + "] is empty — each pre step is an argv list starting with the tool to run, e.g. [\"avrdude\", \"-U\", \"bootsize:w:8:m\"]"@
    }
}

/// What [`InstallConfig::check`] says: of the first target that is not
/// usable, if there is one.
pub open spec fn check_result(
    entries: Seq<(Seq<char>, TargetSpec)>,
    source: Seq<char>,
) -> Option<Seq<char>>
    decreases entries.len(),
{
    if entries.len() == 0 {
        None
    } else {
        match check_result(entries.drop_last(), source) {
            Some(m) => Some(m),
            None => if usable(entries.last().1) {
                None
            } else {
                Some(defect_message(source, entries.last().0, entries.last().1))
            },
        }
    }
}

/// The first bad step, in other words.
proof fn lemma_first_bad(pre: Seq<Seq<Seq<char>>>)
    ensures
        0 <= first_bad(pre) <= pre.len(),
        forall|k: int| 0 <= k < first_bad(pre) ==> !bad_step(#[trigger] pre[k]),
        first_bad(pre) < pre.len() ==> bad_step(pre[first_bad(pre)]),
    decreases pre.len(),
{
    if pre.len() > 0 {
        let head = pre.drop_last();
        lemma_first_bad(head);
        assert forall|k: int| 0 <= k < first_bad(pre) implies !bad_step(#[trigger] pre[k]) by {
            if k < head.len() {
                assert(head[k] == pre[k]);
            }
        }
    }
}

/// What is said of a list starts with what is said of its front.
proof fn lemma_check_front(entries: Seq<(Seq<char>, TargetSpec)>, n: int, source: Seq<char>)
    requires
        0 <= n <= entries.len(),
        check_result(entries.take(n), source) is Some,
    ensures
        check_result(entries, source) == check_result(entries.take(n), source),
    decreases entries.len(),
{
    if n == entries.len() {
        assert(entries.take(n) =~= entries);
    } else {
        assert(entries.drop_last().take(n) =~= entries.take(n));
        lemma_check_front(entries.drop_last(), n, source);
    }
}

/// Names in order are found where they stand, and nowhere else.
proof fn lemma_lookup(entries: Seq<(Seq<char>, TargetSpec)>, name: Seq<char>)
    requires
        ordered(entries),
    ensures
        forall|i: int|
            0 <= i < entries.len() && (#[trigger] entries[i]).0 == name ==> lookup(entries, name)
                == Some(entries[i].1),
        (forall|i: int| 0 <= i < entries.len() ==> (#[trigger] entries[i]).0 != name) ==> lookup(
            entries,
            name,
        ) is None,
    decreases entries.len(),
{
    if entries.len() > 0 {
        let head = entries.drop_last();
        assert(ordered(head));
        lemma_lookup(head, name);
        assert forall|i: int|
            0 <= i < entries.len() && (#[trigger] entries[i]).0 == name implies lookup(
            entries,
            name,
        ) == Some(entries[i].1) by {
            if i < head.len() {
                assert(head[i] == entries[i]);
                crate::text::law_text_order_is_total(entries[i].0, entries.last().0);
            }
        }
        if forall|i: int| 0 <= i < entries.len() ==> (#[trigger] entries[i]).0 != name {
            assert(forall|i: int| 0 <= i < head.len() ==> (#[trigger] head[i]).0 != name) by {
                assert forall|i: int| 0 <= i < head.len() implies (#[trigger] head[i]).0
                    != name by {
                    assert(head[i] == entries[i]);
                }
            }
        }
    }
}

impl InstallConfig {
    #[verifier::type_invariant]
    spec fn inv(self) -> bool {
        ordered(self@)
    }

    /// A configuration without targets.
    pub fn new() -> (r: Self)
        ensures
            r@ == Seq::<(Seq<char>, TargetSpec)>::empty(),
    {
        let targets: Vec<(String, Target)> = Vec::new();
        proof {
            assert(targets@.map_values(|e: (String, Target)| (e.0@, e.1@)) =~= Seq::<
                (Seq<char>, TargetSpec),
            >::empty());
        }
        InstallConfig { targets }
    }

    /// The configuration with one more target; one of the same name is
    /// replaced.
    pub fn with_target(self, name: String, target: Target) -> (r: Self)
        ensures
            ordered(r@),
            forall|n: Seq<char>| #[trigger]
                lookup(r@, n) == (if n == name@ {
                    Some(target@)
                } else {
                    lookup(self@, n)
                }),
    {
        proof {
            use_type_invariant(&self);
        }
        let ghost old_entries = self@;
        let ghost added = (name@, target@);
        let mut targets: Vec<(String, Target)> = self.targets;
        let mut at: usize = 0;
        while at < targets.len() && is_before(targets[at].0.as_str(), name.as_str())
            invariant
                at <= targets@.len(),
                targets@.map_values(|e: (String, Target)| (e.0@, e.1@)) == old_entries,
                forall|i: int|
                    0 <= i < at ==> crate::text::before((#[trigger] old_entries[i]).0, name@),
            decreases targets@.len() - at,
        {
            proof {
                assert(old_entries[at as int].0 == targets@[at as int].0@);
            }
            at = at + 1;
        }
        proof {
            if at < targets@.len() {
                assert(old_entries[at as int].0 == targets@[at as int].0@);
            }
        }
        if at < targets.len() && targets[at].0 == name {
            targets.set(at, (name, target));
            proof {
                assert(targets@.map_values(|e: (String, Target)| (e.0@, e.1@))
                    =~= old_entries.update(at as int, added));
                lemma_replaced(old_entries, at as int, added);
            }
        } else {
            targets.insert(at, (name, target));
            proof {
                assert(targets@.map_values(|e: (String, Target)| (e.0@, e.1@))
                    =~= old_entries.insert(at as int, added));
                lemma_inserted(old_entries, at as int, added);
            }
        }
        InstallConfig { targets }
    }

    /// Looks up a target by name; the error lists every available target, in
    /// the order of strings. `source` names the file in it.
    pub fn target(&self, name: &str, source: &str) -> (r: Result<&Target, String>)
        ensures
            ordered(self@),
            match lookup(self@, name@) {
                Some(t) => r is Ok && r->Ok_0@ == t,
                None => r is Err && r->Err_0@ == no_target_message(name@, source@, self@),
            },
    {
        proof {
            use_type_invariant(self);
            lemma_lookup(self@, name@);
        }
        let wanted: String = name.to_owned();
        let mut i: usize = 0;
        while i < self.targets.len()
            invariant
                i <= self.targets@.len(),
                wanted@ == name@,
                ordered(self@),
                self@.len() == self.targets@.len(),
                forall|j: int| 0 <= j < i ==> (#[trigger] self@[j]).0 != name@,
                forall|j: int|
                    0 <= j < self@.len() && (#[trigger] self@[j]).0 == name@ ==> lookup(
                        self@,
                        name@,
                    ) == Some(self@[j].1),
            decreases self.targets@.len() - i,
        {
            let entry: &(String, Target) = &self.targets[i];
            proof {
                assert(self@[i as int] == (entry.0@, entry.1@));
            }
            if entry.0 == wanted {
                return Ok(&entry.1);
            }
            i = i + 1;
        }
        let mut out = String::new();
        out.append("no target ");
        out.append(debug_str(name).as_str());
        out.append(" in ");
        out.append(source);
        out.append(" — available: ");
        self.push_names(&mut out);
        out.append(" (add a [targets.");
        out.append(name);
        out.append("] table to define it)");
        proof {
            assert(out@ =~= no_target_message(name@, source@, self@));
        }
        Err(out)
    }

    /// Appends the names of all targets.
    fn push_names(&self, out: &mut String)
        ensures
            final(out)@ == old(out)@ + crate::text::join(names(self@), ", "@),
    {
        let ghost all = names(self@);
        let mut i: usize = 0;
        proof {
            assert(all.take(0) =~= Seq::<Seq<char>>::empty());
            assert(old(out)@ + Seq::<char>::empty() =~= old(out)@);
        }
        while i < self.targets.len()
            invariant
                i <= self.targets@.len(),
                all == names(self@),
                all.len() == self.targets@.len(),
                out@ == old(out)@ + crate::text::join(all.take(i as int), ", "@),
            decreases self.targets@.len() - i,
        {
            let ghost head = all.take(i + 1);
            proof {
                assert(head.drop_last() =~= all.take(i as int));
                assert(head.last() == self.targets@[i as int].0@);
            }
            if i > 0 {
                out.append(", ");
            }
            out.append(self.targets[i].0.as_str());
            proof {
                assert(out@ =~= old(out)@ + crate::text::join(head, ", "@));
            }
            i = i + 1;
        }
        proof {
            assert(all.take(i as int) =~= all);
        }
    }

    /// Checks the rules on values: every target names a tool, and so does the
    /// front of each of its steps. `source` names the file in the error.
    ///
    /// # Errors
    ///
    /// What is wrong with the first target that breaks a rule.
    pub fn check(&self, source: &str) -> (r: Result<(), String>)
        ensures
            match check_result(self@, source@) {
                None => r is Ok,
                Some(m) => r is Err && r->Err_0@ == m,
            },
            r is Ok ==> forall|name: Seq<char>|
                (#[trigger] lookup(self@, name)) matches Some(t) ==> plannable(t),
    {
        let mut i: usize = 0;
        proof {
            assert(self@.take(0) =~= Seq::<(Seq<char>, TargetSpec)>::empty());
        }
        while i < self.targets.len()
            invariant
                i <= self.targets@.len(),
                self@.len() == self.targets@.len(),
                check_result(self@.take(i as int), source@) is None,
            decreases self.targets@.len() - i,
        {
            let entry: &(String, Target) = &self.targets[i];
            let ghost head = self@.take(i + 1);
            proof {
                assert(head.drop_last() =~= self@.take(i as int));
                assert(head.last() == (entry.0@, entry.1@));
            }
            if let Some(m) = check_target(entry.0.as_str(), &entry.1, source) {
                proof {
                    lemma_check_front(self@, i + 1, source@);
                }
                return Err(m);
            }
            i = i + 1;
        }
        proof {
            assert(self@.take(i as int) =~= self@);
            assert forall|name: Seq<char>|
                (#[trigger] lookup(self@, name)) is Some implies plannable(
                lookup(self@, name)->0,
            ) by {
                lemma_lookup_is_an_entry(self@, name);
                let k = choose|k: int|
                    0 <= k < self@.len() && lookup(self@, name) == Some(#[trigger] self@[k].1);
                law_checked_targets_are_usable(self@, source@, k);
            }
        }
        Ok(())
    }
}

/// A target that was found is one of the list.
proof fn lemma_lookup_is_an_entry(entries: Seq<(Seq<char>, TargetSpec)>, name: Seq<char>)
    ensures
        lookup(entries, name) is Some ==> exists|k: int|
            0 <= k < entries.len() && lookup(entries, name) == Some(#[trigger] entries[k].1),
    decreases entries.len(),
{
    if entries.len() > 0 {
        if entries.last().0 == name {
            assert(lookup(entries, name) == Some(entries[entries.len() - 1].1));
        } else {
            lemma_lookup_is_an_entry(entries.drop_last(), name);
            if lookup(entries, name) is Some {
                let k = choose|k: int|
                    0 <= k < entries.len() - 1 && lookup(entries.drop_last(), name) == Some(
                        #[trigger] entries.drop_last()[k].1,
                    );
                assert(entries[k] == entries.drop_last()[k]);
                assert(lookup(entries, name) == Some(entries[k].1));
            }
        }
    }
}

/// What is wrong with a target, if anything.
fn check_target(name: &str, target: &Target, source: &str) -> (r: Option<String>)
    ensures
        usable(target@) ==> r is None,
        !usable(target@) ==> r is Some && r->0@ == defect_message(source@, name@, target@),
{
    let mut out: String = source.to_owned();
    out.append(": targets.");
    out.append(name);
    if is_blank(target.tool.as_str()) {
        out.append(
            ": tool is empty — name the programmer executable to run (e.g. \"avrdude\" or \"probe-rs\")",
        );
        return Some(out);
    }
    let ghost pre = target@.pre;
    proof {
        lemma_first_bad(pre);
    }
    let mut i: usize = 0;
    while i < target.pre.len()
        invariant
            i <= target.pre@.len(),
            pre == target@.pre,
            pre.len() == target.pre@.len(),
            !blank(target@.tool),
            out@ == source@ + ": targets."@ + name@,
            0 <= first_bad(pre) <= pre.len(),
            first_bad(pre) < pre.len() ==> bad_step(pre[first_bad(pre)]),
            forall|k: int| 0 <= k < first_bad(pre) ==> !bad_step(#[trigger] pre[k]),
            forall|k: int| 0 <= k < i ==> !bad_step(#[trigger] pre[k]),
        decreases target.pre@.len() - i,
    {
        let step: &Vec<String> = &target.pre[i];
        proof {
            assert(pre[i as int] == texts(step@));
        }
        let bad: bool = if step.len() == 0 {
            true
        } else {
            is_blank(step[0].as_str())
        };
        if bad {
            proof {
                assert(first_bad(pre) == i);
            }
            out.append(": pre[");
            push_decimal(&mut out, i as u64);
            out.append(
                "] is empty — each pre step is an argv list starting with the tool to run, e.g. [\"avrdude\", \"-U\", \"bootsize:w:8:m\"]",
            );
            return Some(out);
        }
        i = i + 1;
    }
    None
}

/// A target that takes the place of one of the same name.
proof fn lemma_replaced(
    entries: Seq<(Seq<char>, TargetSpec)>,
    at: int,
    added: (Seq<char>, TargetSpec),
)
    requires
        ordered(entries),
        0 <= at < entries.len(),
        entries[at].0 == added.0,
    ensures
        ordered(entries.update(at, added)),
        forall|n: Seq<char>| #[trigger]
            lookup(entries.update(at, added), n) == (if n == added.0 {
                Some(added.1)
            } else {
                lookup(entries, n)
            }),
{
    let all = entries.update(at, added);
    assert forall|i: int, j: int| 0 <= i < j < all.len() implies crate::text::before(
        (#[trigger] all[i]).0,
        (#[trigger] all[j]).0,
    ) by {
        assert(all[i].0 == entries[i].0);
        assert(all[j].0 == entries[j].0);
    }
    assert forall|n: Seq<char>| #[trigger] lookup(all, n) == (if n == added.0 {
        Some(added.1)
    } else {
        lookup(entries, n)
    }) by {
        lemma_lookup(all, n);
        lemma_lookup(entries, n);
        if n == added.0 {
            assert(all[at].0 == n);
        } else if exists|i: int| 0 <= i < entries.len() && (#[trigger] entries[i]).0 == n {
            let i = choose|i: int| 0 <= i < entries.len() && (#[trigger] entries[i]).0 == n;
            assert(all[i] == entries[i]);
        } else {
            assert forall|i: int| 0 <= i < all.len() implies (#[trigger] all[i]).0 != n by {
                assert(all[i].0 == entries[i].0);
            }
        }
    }
}

/// A target of a new name at the place where it belongs.
proof fn lemma_inserted(
    entries: Seq<(Seq<char>, TargetSpec)>,
    at: int,
    added: (Seq<char>, TargetSpec),
)
    requires
        ordered(entries),
        0 <= at <= entries.len(),
        forall|i: int|
            0 <= i < at ==> crate::text::before((#[trigger] entries[i]).0, added.0),
        at < entries.len() ==> !crate::text::before(entries[at].0, added.0) && entries[at].0
            != added.0,
    ensures
        ordered(entries.insert(at, added)),
        forall|n: Seq<char>| #[trigger]
            lookup(entries.insert(at, added), n) == (if n == added.0 {
                Some(added.1)
            } else {
                lookup(entries, n)
            }),
{
    let all = entries.insert(at, added);
    assert forall|i: int| at <= i < entries.len() implies crate::text::before(
        added.0,
        (#[trigger] entries[i]).0,
    ) by {
        crate::text::law_text_order_is_total(added.0, entries[at].0);
        if i > at {
            crate::text::law_text_order_is_transitive(added.0, entries[at].0, entries[i].0);
        }
    }
    assert forall|i: int, j: int| 0 <= i < j < all.len() implies crate::text::before(
        (#[trigger] all[i]).0,
        (#[trigger] all[j]).0,
    ) by {
        let a = if i < at {
            i
        } else {
            i - 1
        };
        let b = if j < at {
            j
        } else {
            j - 1
        };
        if i != at {
            assert(all[i] == entries[a]);
        }
        if j != at {
            assert(all[j] == entries[b]);
        }
    }
    assert forall|n: Seq<char>| #[trigger] lookup(all, n) == (if n == added.0 {
        Some(added.1)
    } else {
        lookup(entries, n)
    }) by {
        lemma_lookup(all, n);
        lemma_lookup(entries, n);
        if n == added.0 {
            assert(all[at].0 == n);
        } else if exists|i: int| 0 <= i < entries.len() && (#[trigger] entries[i]).0 == n {
            let i = choose|i: int| 0 <= i < entries.len() && (#[trigger] entries[i]).0 == n;
            if i < at {
                assert(all[i] == entries[i]);
            } else {
                assert(all[i + 1] == entries[i]);
            }
        } else {
            assert forall|i: int| 0 <= i < all.len() implies (#[trigger] all[i]).0 != n by {
                if i < at {
                    assert(all[i] == entries[i]);
                } else if i > at {
                    assert(all[i] == entries[i - 1]);
                }
            }
        }
    }
}

/// What [`PlanError::message`] says.
pub open spec fn plan_error_message(e: PlanError<Seq<char>>) -> Seq<char> {
    match e {
        PlanError::Unclosed { arg } => "unclosed '{' in template argument "@
            + crate::text::debug_text(arg)
            + " — placeholders are {image} and {port}; fix the argument in install.toml"@,
        PlanError::NeedsPort { arg } => "template argument "@ + crate::text::debug_text(arg)
            + " needs a port — pass --port <dev> (e.g. --port /dev/ttyACM0)"@,
        PlanError::Unknown { name, arg } => "unknown placeholder {"@ + name
            + "} in template argument "@ + crate::text::debug_text(arg)
            + " — only {image} and {port} are substituted; fix install.toml"@,
        PlanError::NoPortSlot { port } => "this target does not accept a port: its template has no {port} placeholder and no port_arg — add one of them to the target in install.toml, or drop --port (got "@
            + crate::text::debug_text(port) + ")"@,
    }
}

impl PlanError {
    /// The error in words.
    pub fn message(&self) -> (r: String)
        ensures
            r@ == plan_error_message(self@),
    {
        let mut out = String::new();
        match self {
            PlanError::Unclosed { arg } => {
                out.append("unclosed '{' in template argument ");
                out.append(debug_str(arg.as_str()).as_str());
                out.append(
                    " — placeholders are {image} and {port}; fix the argument in install.toml",
                );
            },
            PlanError::NeedsPort { arg } => {
                out.append("template argument ");
                out.append(debug_str(arg.as_str()).as_str());
                out.append(" needs a port — pass --port <dev> (e.g. --port /dev/ttyACM0)");
            },
            PlanError::Unknown { name, arg } => {
                out.append("unknown placeholder {");
                out.append(name.as_str());
                out.append("} in template argument ");
                out.append(debug_str(arg.as_str()).as_str());
                out.append(" — only {image} and {port} are substituted; fix install.toml");
            },
            PlanError::NoPortSlot { port } => {
                out.append(
                    "this target does not accept a port: its template has no {port} placeholder and no port_arg — add one of them to the target in install.toml, or drop --port (got ",
                );
                out.append(debug_str(port.as_str()).as_str());
                out.append(")");
            },
        }
        proof {
            assert(out@ =~= plan_error_message(self@));
        }
        out
    }
}

/// Whether an argument is shown in quotes: it is empty or has white space.
pub open spec fn shown_quoted(arg: Seq<char>) -> bool {
    arg.len() == 0 || exists|i: int|
        0 <= i < arg.len() && crate::text::whitespace(#[trigger] arg[i])
}

/// How an argument is shown.
pub open spec fn shown(arg: Seq<char>) -> Seq<char> {
    if shown_quoted(arg) {
        crate::text::debug_text(arg)
    } else {
        arg
    }
}

/// Quotes an argument for display only: arguments with white space, and empty
/// ones, are shown quoted so that a shown command has an unambiguous number of
/// arguments.
pub fn display_arg(arg: &str) -> (r: String)
    ensures
        r@ == shown(arg@),
{
    let chars: Vec<char> = chars_of(arg);
    if chars.len() == 0 {
        return debug_str(arg);
    }
    let mut i: usize = 0;
    while i < chars.len()
        invariant
            i <= chars@.len(),
            chars@ == arg@,
            forall|j: int| 0 <= j < i ==> !crate::text::whitespace(#[trigger] arg@[j]),
        decreases chars@.len() - i,
    {
        if is_whitespace(chars[i]) {
            proof {
                assert(crate::text::whitespace(arg@[i as int]));
            }
            return debug_str(arg);
        }
        i = i + 1;
    }
    arg.to_owned()
}

/// A command as it is shown before it runs.
pub open spec fn shown_command(c: InvocationSpec) -> Seq<char> {
    "+ "@ + c.tool + " "@ + crate::text::join(c.args.map_values(|a: Seq<char>| shown(a)), " "@)
}

/// The line that shows a command before it runs.
pub fn echo_line(inv: &Invocation) -> (r: String)
    ensures
        r@ == shown_command(inv@),
{
    let mut out = String::new();
    out.append("+ ");
    out.append(inv.tool.as_str());
    out.append(" ");
    let ghost head = out@;
    let ghost all = inv@.args.map_values(|a: Seq<char>| shown(a));
    let mut i: usize = 0;
    proof {
        assert(all.take(0) =~= Seq::<Seq<char>>::empty());
        assert(head + Seq::<char>::empty() =~= head);
        assert(head =~= "+ "@ + inv@.tool + " "@);
    }
    while i < inv.args.len()
        invariant
            i <= inv.args@.len(),
            all == inv@.args.map_values(|a: Seq<char>| shown(a)),
            all.len() == inv.args@.len(),
            head == "+ "@ + inv@.tool + " "@,
            out@ == head + crate::text::join(all.take(i as int), " "@),
        decreases inv.args@.len() - i,
    {
        let ghost part = all.take(i + 1);
        proof {
            assert(part.drop_last() =~= all.take(i as int));
            assert(part.last() == shown(inv.args@[i as int]@));
        }
        if i > 0 {
            out.append(" ");
        }
        out.append(display_arg(inv.args[i].as_str()).as_str());
        proof {
            assert(out@ =~= head + crate::text::join(part, " "@));
        }
        i = i + 1;
    }
    proof {
        assert(all.take(i as int) =~= all);
    }
    out
}

/// The parts of a text between its colons.
pub open spec fn colon_parts(s: Seq<char>) -> Seq<Seq<char>>
    decreases s.len(),
{
    if s.len() == 0 {
        seq![seq![]]
    } else {
        let head = colon_parts(s.drop_last());
        if s.last() == ':' {
            head.push(seq![])
        } else {
            head.drop_last().push(head.last().push(s.last()))
        }
    }
}

/// The path of `tool` in the directory `dir`.
pub open spec fn in_dir(dir: Seq<char>, tool: Seq<char>) -> Seq<char> {
    if dir.last() == '/' {
        dir + tool
    } else {
        dir.push('/') + tool
    }
}

/// The paths of `tool` in those directories, empty entries left out.
pub open spec fn in_dirs(dirs: Seq<Seq<char>>, tool: Seq<char>) -> Seq<Seq<char>>
    decreases dirs.len(),
{
    if dirs.len() == 0 {
        seq![]
    } else if dirs.last().len() == 0 {
        in_dirs(dirs.drop_last(), tool)
    } else {
        in_dirs(dirs.drop_last(), tool).push(in_dir(dirs.last(), tool))
    }
}

/// The files that `tool` may be, in the order in which they are tried: one
/// with a slash is that very file, any other is searched on the path.
pub open spec fn tool_candidates(tool: Seq<char>, path_var: Seq<char>) -> Seq<Seq<char>> {
    if tool.contains('/') {
        seq![tool]
    } else {
        in_dirs(colon_parts(path_var), tool)
    }
}

/// What is said of a tool that was not found.
pub open spec fn no_tool_message(tool: Seq<char>) -> Seq<char> {
    if tool.contains('/') {
        tool + " does not exist or is not executable — fix the tool path in install.toml"@
    } else {
        crate::text::debug_text(tool)
            + " not found on PATH — install it first:\n  avrdude:   apt install avrdude       (or dnf/pacman/brew equivalent)\n  probe-rs:  cargo install probe-rs-tools   (https://probe.rs)\n  openocd:   apt install openocd\nor point the target's tool at an absolute path in install.toml"@
    }
}

/// Whether `f` may answer `b` of the file `path`.
pub open spec fn answers<F: Fn(&str) -> bool>(f: F, path: Seq<char>, b: bool) -> bool {
    exists|s: &str| s@ == path && call_ensures(f, (s,), b)
}

/// Asks for one file.
fn ask<F: Fn(&str) -> bool>(f: &F, path: &str) -> (r: bool)
    requires
        forall|s: &str| #[trigger] call_requires(*f, (s,)),
    ensures
        answers(*f, path@, r),
{
    f(path)
}

/// The files that `tool`, which has no slash, may be.
fn search_path(tool: &str, path_var: &str) -> (r: Vec<String>)
    ensures
        texts(r@) == in_dirs(colon_parts(path_var@), tool@),
{
    let chars: Vec<char> = chars_of(path_var);
    let mut out: Vec<String> = Vec::new();
    let mut start: usize = 0;
    let mut i: usize = 0;
    proof {
        assert(path_var@.take(0) =~= Seq::<char>::empty());
        assert(colon_parts(path_var@.take(0)).drop_last() =~= Seq::<Seq<char>>::empty());
        assert(chars@.subrange(0, 0) =~= Seq::<char>::empty());
        assert(texts(out@) =~= Seq::<Seq<char>>::empty());
    }
    while i < chars.len()
        invariant
            start <= i <= chars@.len(),
            chars@ == path_var@,
            colon_parts(path_var@.take(i as int)).len() >= 1,
            colon_parts(path_var@.take(i as int)).last() == chars@.subrange(
                start as int,
                i as int,
            ),
            texts(out@) == in_dirs(colon_parts(path_var@.take(i as int)).drop_last(), tool@),
        decreases chars@.len() - i,
    {
        let ghost before = colon_parts(path_var@.take(i as int));
        let ghost next = colon_parts(path_var@.take(i + 1));
        proof {
            assert(path_var@.take(i + 1).drop_last() =~= path_var@.take(i as int));
            assert(path_var@.take(i + 1).last() == chars@[i as int]);
        }
        if chars[i] == ':' {
            push_candidate(&mut out, &chars, start, i, tool);
            proof {
                assert(next.drop_last() =~= before);
            }
            start = i + 1;
            proof {
                assert(chars@.subrange(start as int, i + 1) =~= Seq::<char>::empty());
            }
        } else {
            proof {
                assert(next.drop_last() =~= before.drop_last());
                assert(chars@.subrange(start as int, i + 1) =~= chars@.subrange(
                    start as int,
                    i as int,
                ).push(chars@[i as int]));
            }
        }
        i = i + 1;
    }
    proof {
        assert(path_var@.take(i as int) =~= path_var@);
    }
    push_candidate(&mut out, &chars, start, i, tool);
    out
}

/// Appends the path of `tool` in the directory `chars[from..to]`, if that is
/// not empty.
fn push_candidate(
    out: &mut Vec<String>,
    chars: &Vec<char>,
    from: usize,
    to: usize,
    tool: &str,
)
    requires
        from <= to <= chars@.len(),
    ensures
        texts(final(out)@) == (if from == to {
            texts(old(out)@)
        } else {
            texts(old(out)@).push(in_dir(chars@.subrange(from as int, to as int), tool@))
        }),
{
    if from == to {
        return;
    }
    let mut path: String = text_of(chars, from, to);
    if chars[to - 1] != '/' {
        path.push('/');
    }
    path.append(tool);
    proof {
        assert(texts(old(out)@.push(path)) =~= texts(old(out)@).push(path@));
    }
    out.push(path);
}

/// Does the text have a slash in it?
fn has_slash(s: &str) -> (r: bool)
    ensures
        r == s@.contains('/'),
{
    let chars: Vec<char> = chars_of(s);
    let mut i: usize = 0;
    while i < chars.len()
        invariant
            i <= chars@.len(),
            chars@ == s@,
            forall|j: int| 0 <= j < i ==> s@[j] != '/',
        decreases chars@.len() - i,
    {
        if chars[i] == '/' {
            proof {
                assert(s@[i as int] == '/');
            }
            return true;
        }
        i = i + 1;
    }
    false
}

/// Whether `path` may be what `tool` is found to be: `f` says yes to it, and
/// no to every file that is tried before it.
pub open spec fn resolves_to<F: Fn(&str) -> bool>(
    f: F,
    tool: Seq<char>,
    path_var: Seq<char>,
    path: Seq<char>,
) -> bool {
    exists|i: int|
        0 <= i < tool_candidates(tool, path_var).len() && path == #[trigger] tool_candidates(
            tool,
            path_var,
        )[i] && answers(f, path, true) && forall|j: int|
            0 <= j < i ==> answers(f, #[trigger] tool_candidates(tool, path_var)[j], false)
}

/// Whether `tool` may be found.
pub open spec fn resolvable<F: Fn(&str) -> bool>(
    f: F,
    tool: Seq<char>,
    path_var: Seq<char>,
) -> bool {
    exists|path: Seq<char>| resolves_to(f, tool, path_var, path)
}

/// Whether `tool` may be found nowhere: `f` says no to every candidate.
pub open spec fn unresolved<F: Fn(&str) -> bool>(
    f: F,
    tool: Seq<char>,
    path_var: Seq<char>,
) -> bool {
    forall|j: int|
        0 <= j < tool_candidates(tool, path_var).len() ==> answers(
            f,
            #[trigger] tool_candidates(tool, path_var)[j],
            false,
        )
}

/// Resolves `tool` against the given search path.
fn resolve<F: Fn(&str) -> bool>(tool: &str, path_var: &str, is_executable: &F) -> (r: Result<
    String,
    String,
>)
    requires
        forall|s: &str| #[trigger] call_requires(*is_executable, (s,)),
    ensures
        match r {
            Ok(path) => resolves_to(*is_executable, tool@, path_var@, path@),
            Err(m) => m@ == no_tool_message(tool@) && unresolved(
                *is_executable,
                tool@,
                path_var@,
            ),
        },
{
    let slash: bool = has_slash(tool);
    let list: Vec<String> = if slash {
        let mut one: Vec<String> = Vec::new();
        one.push(tool.to_owned());
        one
    } else {
        search_path(tool, path_var)
    };
    let ghost all = tool_candidates(tool@, path_var@);
    proof {
        assert(texts(list@) =~= all);
    }
    let mut i: usize = 0;
    while i < list.len()
        invariant
            i <= list@.len(),
            all == tool_candidates(tool@, path_var@),
            texts(list@) == all,
            forall|s: &str| #[trigger] call_requires(*is_executable, (s,)),
            forall|j: int| 0 <= j < i ==> answers(*is_executable, #[trigger] all[j], false),
        decreases list@.len() - i,
    {
        proof {
            assert(all[i as int] == list@[i as int]@);
        }
        if ask(is_executable, list[i].as_str()) {
            return Ok(list[i].clone());
        }
        i = i + 1;
    }
    let mut out = String::new();
    if slash {
        out.append(tool);
        out.append(" does not exist or is not executable — fix the tool path in install.toml");
    } else {
        out.append(debug_str(tool).as_str());
        out.append(
            " not found on PATH — install it first:\n  avrdude:   apt install avrdude       (or dnf/pacman/brew equivalent)\n  probe-rs:  cargo install probe-rs-tools   (https://probe.rs)\n  openocd:   apt install openocd\nor point the target's tool at an absolute path in install.toml",
        );
    }
    proof {
        assert(out@ =~= no_tool_message(tool@));
    }
    Err(out)
}

/// Resolves `tool` against the given search path, asking `is_executable` of
/// one file after the other: the first that it says yes to is the result.
///
/// # Errors
///
/// What to do about it, if it says no to every candidate.
pub fn resolve_tool_in<F: Fn(&str) -> bool>(
    tool: &str,
    path_var: &str,
    is_executable: F,
) -> (r: Result<String, String>)
    requires
        forall|s: &str| #[trigger] call_requires(is_executable, (s,)),
    ensures
        match r {
            Ok(path) => resolves_to(is_executable, tool@, path_var@, path@),
            Err(m) => m@ == no_tool_message(tool@) && unresolved(is_executable, tool@, path_var@),
        },
{
    resolve(tool, path_var, &is_executable)
}

/// Why an install cannot start. `S` is text.
#[derive(Debug)]
pub enum InstallError<S = String> {
    /// The target cannot be expanded.
    Plan(PlanError<S>),
    /// A tool was not found; what to do about it.
    Tool(S),
}

impl View for InstallError {
    type V = InstallError<Seq<char>>;

    open spec fn view(&self) -> InstallError<Seq<char>> {
        match self {
            InstallError::Plan(e) => InstallError::Plan(e@),
            InstallError::Tool(m) => InstallError::Tool(m@),
        }
    }
}

impl InstallError {
    /// The error in words.
    pub fn message(&self) -> (r: String)
        ensures
            r@ == (match self@ {
                InstallError::Plan(e) => plan_error_message(e),
                InstallError::Tool(m) => m,
            }),
    {
        match self {
            InstallError::Plan(e) => e.message(),
            InstallError::Tool(m) => m.clone(),
        }
    }
}

/// Whether command `i` may be the first whose tool is found nowhere.
pub open spec fn first_missing<F: Fn(&str) -> bool>(
    f: F,
    list: Seq<InvocationSpec>,
    path_var: Seq<char>,
    i: int,
) -> bool {
    &&& 0 <= i < list.len()
    &&& unresolved(f, list[i].tool, path_var)
    &&& forall|j: int| 0 <= j < i ==> resolvable(f, (#[trigger] list[j]).tool, path_var)
}

/// Finds the file of every command's tool.
fn find_tools<F: Fn(&str) -> bool>(
    invocations: &Vec<Invocation>,
    path_var: &str,
    is_executable: &F,
) -> (r: Result<Vec<String>, String>)
    requires
        forall|s: &str| #[trigger] call_requires(*is_executable, (s,)),
    ensures
        match r {
            Ok(exes) => exes@.len() == invocations@.len() && forall|i: int|
                0 <= i < exes@.len() ==> resolves_to(
                    *is_executable,
                    (#[trigger] commands(invocations@)[i]).tool,
                    path_var@,
                    exes@[i]@,
                ),
            Err(m) => exists|i: int|
                #[trigger] first_missing(*is_executable, commands(invocations@), path_var@, i)
                    && m@ == no_tool_message(commands(invocations@)[i].tool),
        },
{
    let ghost list = commands(invocations@);
    let mut exes: Vec<String> = Vec::new();
    let mut i: usize = 0;
    while i < invocations.len()
        invariant
            i <= invocations@.len(),
            exes@.len() == i,
            list == commands(invocations@),
            forall|s: &str| #[trigger] call_requires(*is_executable, (s,)),
            forall|j: int|
                0 <= j < i ==> resolves_to(
                    *is_executable,
                    (#[trigger] list[j]).tool,
                    path_var@,
                    exes@[j]@,
                ),
        decreases invocations@.len() - i,
    {
        match resolve(invocations[i].tool.as_str(), path_var, is_executable) {
            Err(m) => {
                proof {
                    assert forall|j: int| 0 <= j < i implies resolvable(
                        *is_executable,
                        (#[trigger] list[j]).tool,
                        path_var@,
                    ) by {
                        assert(resolves_to(*is_executable, list[j].tool, path_var@, exes@[j]@));
                    }
                    assert(first_missing(*is_executable, list, path_var@, i as int));
                }
                return Err(m);
            },
            Ok(exe) => {
                exes.push(exe);
            },
        }
        i = i + 1;
    }
    Ok(exes)
}

/// Expands a target and finds the file of every tool that it runs, all before
/// the first command: a broken template or a missing tool never leaves the
/// device half programmed. The result is the commands and, in the same order,
/// their files.
///
/// # Errors
///
/// See [`InstallError`]; of several missing tools the first one is named.
pub fn prepare<F: Fn(&str) -> bool>(
    target: &Target,
    image: &str,
    port: Option<&str>,
    path_var: &str,
    is_executable: F,
) -> (r: Result<(Vec<Invocation>, Vec<String>), InstallError>)
    requires
        plannable(target@),
        forall|s: &str| #[trigger] call_requires(is_executable, (s,)),
    ensures
        match plan_result(target@, image@, opt_text(port)) {
            Err(e) => r is Err && r->Err_0@ == InstallError::Plan(e),
            Ok(list) => match r {
                Ok((invocations, exes)) => commands(invocations@) == list && exes@.len()
                    == list.len() && forall|i: int|
                    0 <= i < list.len() ==> resolves_to(
                        is_executable,
                        (#[trigger] list[i]).tool,
                        path_var@,
                        exes@[i]@,
                    ),
                Err(e) => exists|i: int|
                    #[trigger] first_missing(is_executable, list, path_var@, i) && e@
                        == InstallError::Tool(no_tool_message(list[i].tool)),
            },
        },
{
    let invocations: Vec<Invocation> = match plan(target, image, port) {
        Err(e) => return Err(InstallError::Plan(e)),
        Ok(list) => list,
    };
    match find_tools(&invocations, path_var, &is_executable) {
        Err(m) => Err(InstallError::Tool(m)),
        Ok(exes) => Ok((invocations, exes)),
    }
}

/// How a command ended.
#[derive(Debug, Clone, Copy, PartialEq, Eq)]
pub enum Exit {
    /// It returned this code; zero is success.
    Code(i32),
    /// A signal ended it.
    Signal,
}

/// What an install does next.
#[derive(Debug, Clone, Copy, PartialEq, Eq)]
pub enum RunStep {
    /// Start the command of this number.
    Start(usize),
    /// Give up: the last command did not succeed.
    Failed,
    /// Every command has succeeded.
    Finished,
}

/// Whether a command ended well; none ran yet counts as well.
pub open spec fn went_well(last: Option<Exit>) -> bool {
    match last {
        None => true,
        Some(Exit::Code(code)) => code == 0,
        Some(Exit::Signal) => false,
    }
}

/// What comes next in a run of `total` commands of which `done` have ended,
/// the last of them in `last`: commands run in order, and the first one that
/// does not succeed stops the run.
pub fn next_step(total: usize, done: usize, last: Option<Exit>) -> (r: RunStep)
    ensures
        r == RunStep::Failed <==> !went_well(last),
        went_well(last) && done < total ==> r == RunStep::Start(done),
        went_well(last) && done >= total ==> r == RunStep::Finished,
{
    let well: bool = match last {
        None => true,
        Some(Exit::Code(code)) => code == 0,
        Some(Exit::Signal) => false,
    };
    if !well {
        RunStep::Failed
    } else if done < total {
        RunStep::Start(done)
    } else {
        RunStep::Finished
    }
}

/// What is said of a command that failed.
pub open spec fn failure_message(exe: Seq<char>, code: Option<i32>) -> Seq<char> {
    match code {
        Some(code) => exe + " failed with exit status "@ + crate::text::signed_decimal(code as int)
            + " — its output above says why; fix that and re-run"@,
        None => exe + " was killed by a signal"@,
    }
}

/// What to say of a command that did not succeed; there is no exit code where
/// a signal ended it.
pub fn run_failure(exe: &str, code: Option<i32>) -> (r: String)
    ensures
        r@ == failure_message(exe@, code),
{
    let mut out: String = exe.to_owned();
    match code {
        Some(code) => {
            out.append(" failed with exit status ");
            push_signed(&mut out, code);
            out.append(" — its output above says why; fix that and re-run");
        },
        None => {
            out.append(" was killed by a signal");
        },
    }
    out
}

/// A checked configuration can be planned: each of its targets names a tool,
/// and so does the front of every step.
pub proof fn law_checked_targets_are_usable(
    entries: Seq<(Seq<char>, TargetSpec)>,
    source: Seq<char>,
    i: int,
)
    requires
        check_result(entries, source) is None,
        0 <= i < entries.len(),
    ensures
        usable(entries[i].1),
        plannable(entries[i].1),
    decreases entries.len(),
{
    if i < entries.len() - 1 {
        law_checked_targets_are_usable(entries.drop_last(), source, i);
        assert(entries.drop_last()[i] == entries[i]);
    }
}

/// A template without a brace is passed on as it is.
pub proof fn law_plain_argument_is_literal(
    arg: Seq<char>,
    rest: Seq<char>,
    image: Seq<char>,
    port: Option<Seq<char>>,
)
    requires
        !rest.contains('{'),
    ensures
        expanded(arg, rest, image, port) == Ok::<(Seq<char>, bool), PlanError<Seq<char>>>(
            (rest, false),
        ),
    decreases rest.len(),
{
    if rest.len() > 0 {
        let tail = rest.skip(1);
        assert(rest.contains(rest[0]));
        assert(!tail.contains('{')) by {
            if tail.contains('{') {
                let i = choose|i: int| 0 <= i < tail.len() && tail[i] == '{';
                assert(rest[i + 1] == '{');
            }
        }
        law_plain_argument_is_literal(arg, tail, image, port);
        assert(seq![rest[0]] + tail =~= rest);
    } else {
        assert(rest =~= Seq::<char>::empty());
    }
}

/// Substitution keeps the number of arguments, and uses a port only where one
/// was given.
proof fn lemma_expanded_shape(args: Seq<Seq<char>>, image: Seq<char>, port: Option<Seq<char>>)
    ensures
        all_expanded(args, image, port) matches Ok((list, used)) ==> list.len() == args.len() && (
        used ==> port is Some),
    decreases args.len(),
{
    if args.len() > 0 {
        lemma_expanded_shape(args.drop_last(), image, port);
        lemma_port_given(args.last(), args.last(), image, port);
    }
}

/// A port is used only where one was given.
proof fn lemma_port_given(
    arg: Seq<char>,
    rest: Seq<char>,
    image: Seq<char>,
    port: Option<Seq<char>>,
)
    ensures
        expanded(arg, rest, image, port) matches Ok((_, used)) ==> (used ==> port is Some),
    decreases rest.len(),
{
    if rest.len() > 0 {
        if rest[0] != '{' {
            lemma_port_given(arg, rest.skip(1), image, port);
        } else {
            let close = find_char(rest, '}');
            if 1 <= close < rest.len() {
                lemma_port_given(arg, rest.skip(close + 1), image, port);
            }
        }
    }
}

/// The commands of the steps have the shape of the steps.
proof fn lemma_pre_shape(pre: Seq<Seq<Seq<char>>>, image: Seq<char>, port: Option<Seq<char>>)
    requires
        forall|k: int| 0 <= k < pre.len() ==> (#[trigger] pre[k]).len() > 0,
    ensures
        pre_plan(pre, image, port) matches Ok((list, used)) ==> {
            &&& list.len() == pre.len()
            &&& used ==> port is Some
            &&& forall|k: int|
                0 <= k < list.len() ==> (#[trigger] list[k]).tool == pre[k][0]
                    && list[k].args.len() == pre[k].len() - 1
        },
    decreases pre.len(),
{
    if pre.len() > 0 {
        lemma_pre_shape(pre.drop_last(), image, port);
        lemma_expanded_shape(pre.last().skip(1), image, port);
        if let Ok((list, _)) = pre_plan(pre, image, port) {
            let head = pre_plan(pre.drop_last(), image, port)->Ok_0.0;
            assert forall|k: int| 0 <= k < list.len() implies (#[trigger] list[k]).tool
                == pre[k][0] && list[k].args.len() == pre[k].len() - 1 by {
                if k < head.len() {
                    assert(list[k] == head[k]);
                    assert(pre.drop_last()[k] == pre[k]);
                }
            }
        }
    }
}

/// A plan is one command per step and then the main one, each with its own
/// tool taken literally. Every argument list keeps its length, but for the
/// flag and the port that the main one ends with where a port was given and
/// no placeholder took it. Without a port nothing is added.
pub proof fn law_plan_keeps_the_steps(
    t: TargetSpec,
    image: Seq<char>,
    port: Option<Seq<char>>,
)
    requires
        plannable(t),
    ensures
        plan_result(t, image, port) matches Ok(list) ==> {
            &&& list.len() == t.pre.len() + 1
            &&& forall|k: int|
                0 <= k < t.pre.len() ==> (#[trigger] list[k]).tool == t.pre[k][0]
                    && list[k].args.len() == t.pre[k].len() - 1
            &&& list.last().tool == t.tool
            &&& port is None ==> list.last().args.len() == t.args.len()
            &&& list.last().args.len() == t.args.len() || (list.last().args.len()
                == t.args.len() + 2 && port == Some(list.last().args.last()) && t.port_arg == Some(
                list.last().args[t.args.len() as int],
            ))
        },
{
    lemma_pre_shape(t.pre, image, port);
    lemma_expanded_shape(t.args, image, port);
    if let Ok(list) = plan_result(t, image, port) {
        let head = pre_plan(t.pre, image, port)->Ok_0.0;
        assert forall|k: int| 0 <= k < t.pre.len() implies (#[trigger] list[k]).tool
            == t.pre[k][0] && list[k].args.len() == t.pre[k].len() - 1 by {
            assert(list[k] == head[k]);
        }
    }
}

/// Where a character first stands.
proof fn lemma_find_char(s: Seq<char>, c: char)
    ensures
        0 <= find_char(s, c) <= s.len(),
        find_char(s, c) < s.len() ==> s[find_char(s, c)] == c,
        forall|i: int| 0 <= i < find_char(s, c) ==> s[i] != c,
    decreases s.len(),
{
    if s.len() > 0 && s[0] != c {
        lemma_find_char(s.skip(1), c);
        assert forall|i: int| 0 <= i < find_char(s, c) implies s[i] != c by {
            if i > 0 {
                assert(s.skip(1)[i - 1] == s[i]);
            }
        }
    }
}

/// A front without a brace is passed on, whatever follows it.
proof fn lemma_plain_front(
    arg: Seq<char>,
    plain: Seq<char>,
    rest: Seq<char>,
    image: Seq<char>,
    port: Option<Seq<char>>,
)
    requires
        !plain.contains('{'),
    ensures
        match expanded(arg, rest, image, port) {
            Ok((s, u)) => expanded(arg, plain + rest, image, port) == Ok::<
                (Seq<char>, bool),
                PlanError<Seq<char>>,
            >((plain + s, u)),
            Err(e) => expanded(arg, plain + rest, image, port) == Err::<
                (Seq<char>, bool),
                PlanError<Seq<char>>,
            >(e),
        },
    decreases plain.len(),
{
    if plain.len() == 0 {
        assert(plain + rest =~= rest);
        if let Ok((s, u)) = expanded(arg, rest, image, port) {
            assert(plain + s =~= s);
        }
    } else {
        let tail = plain.skip(1);
        assert(plain.contains(plain[0]));
        assert(!tail.contains('{')) by {
            if tail.contains('{') {
                let i = choose|i: int| 0 <= i < tail.len() && tail[i] == '{';
                assert(plain[i + 1] == '{');
            }
        }
        lemma_plain_front(arg, tail, rest, image, port);
        assert((plain + rest).skip(1) =~= tail + rest);
        if let Ok((s, u)) = expanded(arg, rest, image, port) {
            assert(seq![plain[0]] + (tail + s) =~= plain + s);
        }
    }
}

/// What a text in braces does.
proof fn lemma_in_braces(
    arg: Seq<char>,
    name: Seq<char>,
    rest: Seq<char>,
    image: Seq<char>,
    port: Option<Seq<char>>,
)
    requires
        !name.contains('}'),
    ensures
        expanded(arg, seq!['{'] + name + seq!['}'] + rest, image, port) == (match placeholder(
            name,
            arg,
            image,
            port,
        ) {
            Err(e) => Err::<(Seq<char>, bool), PlanError<Seq<char>>>(e),
            Ok((text, used)) => joined(text, used, expanded(arg, rest, image, port)),
        }),
{
    let all = seq!['{'] + name + seq!['}'] + rest;
    let close = find_char(all, '}');
    lemma_find_char(all, '}');
    assert(all[name.len() as int + 1] == '}');
    assert(close == name.len() + 1) by {
        if close < name.len() + 1 {
            assert(close >= 1);
            assert(name[close - 1] == '}');
        }
    }
    assert(all.subrange(1, close) =~= name);
    assert(all.skip(close + 1) =~= rest);
}

/// Substitution, from the left: text without an opening brace is passed on;
/// `{image}` gives way to the image and `{port}` to the port, and both to
/// nothing else; what follows is substituted by itself.
pub proof fn law_placeholders_give_way(
    arg: Seq<char>,
    plain: Seq<char>,
    rest: Seq<char>,
    image: Seq<char>,
    p: Seq<char>,
)
    requires
        !plain.contains('{'),
    ensures
        ({
            let some = Some(p);
            match expanded(arg, rest, image, some) {
                Ok((s, u)) => {
                    &&& expanded(arg, plain + "{image}"@ + rest, image, some) == Ok::<
                        (Seq<char>, bool),
                        PlanError<Seq<char>>,
                    >((plain + image + s, u))
                    &&& expanded(arg, plain + "{port}"@ + rest, image, some) == Ok::<
                        (Seq<char>, bool),
                        PlanError<Seq<char>>,
                    >((plain + p + s, true))
                },
                Err(e) => {
                    &&& expanded(arg, plain + "{image}"@ + rest, image, some) == Err::<
                        (Seq<char>, bool),
                        PlanError<Seq<char>>,
                    >(e)
                    &&& expanded(arg, plain + "{port}"@ + rest, image, some) == Err::<
                        (Seq<char>, bool),
                        PlanError<Seq<char>>,
                    >(e)
                },
            }
        }),
        expanded(arg, plain + "{port}"@ + rest, image, None) == Err::<
            (Seq<char>, bool),
            PlanError<Seq<char>>,
        >(PlanError::NeedsPort { arg }),
        match expanded(arg, rest, image, None) {
            Ok((s, u)) => expanded(arg, plain + "{image}"@ + rest, image, None) == Ok::<
                (Seq<char>, bool),
                PlanError<Seq<char>>,
            >((plain + image + s, u)),
            Err(e) => expanded(arg, plain + "{image}"@ + rest, image, None) == Err::<
                (Seq<char>, bool),
                PlanError<Seq<char>>,
            >(e),
        },
{
    reveal_strlit("image");
    reveal_strlit("port");
    reveal_strlit("{image}");
    reveal_strlit("{port}");
    let some = Some(p);
    let i = seq!['{'] + "image"@ + seq!['}'] + rest;
    let q = seq!['{'] + "port"@ + seq!['}'] + rest;
    assert(!"image"@.contains('}'));
    assert(!"port"@.contains('}'));
    assert("image"@[0] != "port"@[0]);
    lemma_in_braces(arg, "image"@, rest, image, some);
    lemma_in_braces(arg, "port"@, rest, image, some);
    lemma_in_braces(arg, "image"@, rest, image, None);
    lemma_in_braces(arg, "port"@, rest, image, None);
    lemma_plain_front(arg, plain, i, image, some);
    lemma_plain_front(arg, plain, q, image, some);
    lemma_plain_front(arg, plain, i, image, None);
    lemma_plain_front(arg, plain, q, image, None);
    assert(plain + "{image}"@ + rest =~= plain + i);
    assert(plain + "{port}"@ + rest =~= plain + q);
    if let Ok((s, u)) = expanded(arg, rest, image, some) {
        assert(plain + (image + s) =~= plain + image + s);
        assert(plain + (p + s) =~= plain + p + s);
    }
    if let Ok((s, u)) = expanded(arg, rest, image, None) {
        assert(plain + (image + s) =~= plain + image + s);
    }
}

/// Any other name in braces is refused, and so is a brace that nothing closes.
pub proof fn law_other_braces_are_refused(
    arg: Seq<char>,
    plain: Seq<char>,
    name: Seq<char>,
    rest: Seq<char>,
    image: Seq<char>,
    port: Option<Seq<char>>,
)
    requires
        !plain.contains('{'),
        !name.contains('}'),
    ensures
        name != "image"@ && name != "port"@ ==> expanded(
            arg,
            plain + seq!['{'] + name + seq!['}'] + rest,
            image,
            port,
        ) == Err::<(Seq<char>, bool), PlanError<Seq<char>>>(PlanError::Unknown { name, arg }),
        expanded(arg, plain + seq!['{'] + name, image, port) == Err::<
            (Seq<char>, bool),
            PlanError<Seq<char>>,
        >(PlanError::Unclosed { arg }),
{
    let whole = seq!['{'] + name + seq!['}'] + rest;
    let open = seq!['{'] + name;
    lemma_in_braces(arg, name, rest, image, port);
    lemma_plain_front(arg, plain, whole, image, port);
    assert(plain + seq!['{'] + name + seq!['}'] + rest =~= plain + whole);
    lemma_find_char(open, '}');
    let close = find_char(open, '}');
    assert(close == open.len()) by {
        if close < open.len() {
            assert(close >= 1);
            assert(name[close - 1] == '}');
        }
    }
    lemma_plain_front(arg, plain, open, image, port);
    assert(plain + seq!['{'] + name =~= plain + open);
}

/// Whether every argument can be substituted.
pub open spec fn all_fit(args: Seq<Seq<char>>, image: Seq<char>, port: Option<Seq<char>>) -> bool {
    forall|k: int|
        0 <= k < args.len() ==> expanded(#[trigger] args[k], args[k], image, port) is Ok
}

/// Whether an argument takes the port.
pub open spec fn takes_port(arg: Seq<char>, image: Seq<char>, port: Option<Seq<char>>) -> bool {
    expanded(arg, arg, image, port) matches Ok((_, used)) && used
}

/// Whether one of the arguments takes the port.
pub open spec fn one_takes_port(
    args: Seq<Seq<char>>,
    image: Seq<char>,
    port: Option<Seq<char>>,
) -> bool {
    exists|k: int| 0 <= k < args.len() && takes_port(#[trigger] args[k], image, port)
}

/// Arguments are substituted one by one, each in its own place: there are as
/// many as before, and each is what that argument alone comes to. One without
/// a brace stays as it is. The port counts as used if one of them takes it.
/// Where one cannot be substituted, the first of these gives the error.
pub proof fn law_arguments_are_expanded_in_place(
    args: Seq<Seq<char>>,
    image: Seq<char>,
    port: Option<Seq<char>>,
)
    ensures
        match all_expanded(args, image, port) {
            Ok((out, used)) => {
                &&& all_fit(args, image, port)
                &&& out.len() == args.len()
                &&& forall|k: int|
                    0 <= k < args.len() ==> #[trigger] out[k] == expanded(
                        args[k],
                        args[k],
                        image,
                        port,
                    )->Ok_0.0
                &&& forall|k: int|
                    0 <= k < args.len() && !args[k].contains('{') ==> #[trigger] out[k] == args[k]
                &&& used <==> one_takes_port(args, image, port)
            },
            Err(e) => exists|k: int|
                0 <= k < args.len() && expanded(#[trigger] args[k], args[k], image, port) == Err::<
                    (Seq<char>, bool),
                    PlanError<Seq<char>>,
                >(e) && all_fit(args.take(k), image, port),
        },
    decreases args.len(),
{
    if args.len() > 0 {
        let front = args.drop_last();
        let n = args.len() - 1;
        law_arguments_are_expanded_in_place(front, image, port);
        assert(front =~= args.take(n));
        match all_expanded(front, image, port) {
            Err(e) => {
                let k = choose|k: int|
                    0 <= k < front.len() && expanded(#[trigger] front[k], front[k], image, port)
                        == Err::<(Seq<char>, bool), PlanError<Seq<char>>>(e) && all_fit(
                        front.take(k),
                        image,
                        port,
                    );
                assert(front[k] == args[k]);
                assert(front.take(k) =~= args.take(k));
                assert(expanded(args[k], args[k], image, port) == Err::<
                    (Seq<char>, bool),
                    PlanError<Seq<char>>,
                >(e));
            },
            Ok((head, used)) => match expanded(args.last(), args.last(), image, port) {
                Err(e) => {
                    assert(expanded(args[n], args[n], image, port) == Err::<
                        (Seq<char>, bool),
                        PlanError<Seq<char>>,
                    >(e));
                },
                Ok((text, u)) => {
                    let out = all_expanded(args, image, port)->Ok_0.0;
                    assert forall|k: int| 0 <= k < args.len() implies #[trigger] out[k]
                        == expanded(args[k], args[k], image, port)->Ok_0.0 && expanded(
                        args[k],
                        args[k],
                        image,
                        port,
                    ) is Ok by {
                        if k < n {
                            assert(front[k] == args[k]);
                            assert(out[k] == head[k]);
                        }
                    }
                    assert(all_fit(args, image, port)) by {
                        assert forall|k: int| 0 <= k < args.len() implies expanded(
                            #[trigger] args[k],
                            args[k],
                            image,
                            port,
                        ) is Ok by {
                            assert(out[k] == out[k]);
                        }
                    }
                    assert forall|k: int|
                        0 <= k < args.len() && !args[k].contains('{') implies #[trigger] out[k]
                        == args[k] by {
                        law_plain_argument_is_literal(args[k], args[k], image, port);
                    }
                    if one_takes_port(front, image, port) {
                        let k = choose|k: int|
                            0 <= k < front.len() && takes_port(#[trigger] front[k], image, port);
                        assert(takes_port(args[k], image, port));
                    }
                    if u {
                        assert(takes_port(args[n], image, port));
                    }
                    if one_takes_port(args, image, port) {
                        let k = choose|k: int|
                            0 <= k < args.len() && takes_port(#[trigger] args[k], image, port);
                        if k < n {
                            assert(takes_port(front[k], image, port));
                        }
                    }
                },
            },
        }
    }
}

/// Whether a step before the main one takes the port.
pub open spec fn step_takes_port(
    pre: Seq<Seq<Seq<char>>>,
    image: Seq<char>,
    port: Option<Seq<char>>,
) -> bool {
    exists|s: int|
        0 <= s < pre.len() && one_takes_port((#[trigger] pre[s]).skip(1), image, port)
}

/// Whether every argument of the steps can be substituted.
pub open spec fn steps_fit(
    pre: Seq<Seq<Seq<char>>>,
    image: Seq<char>,
    port: Option<Seq<char>>,
) -> bool {
    forall|s: int| 0 <= s < pre.len() ==> all_fit((#[trigger] pre[s]).skip(1), image, port)
}

/// The steps before the main one, in place.
proof fn lemma_steps_in_place(
    pre: Seq<Seq<Seq<char>>>,
    image: Seq<char>,
    port: Option<Seq<char>>,
)
    ensures
        match pre_plan(pre, image, port) {
            Ok((list, used)) => {
                &&& steps_fit(pre, image, port)
                &&& list.len() == pre.len()
                &&& used <==> step_takes_port(pre, image, port)
                &&& forall|s: int|
                    0 <= s < pre.len() ==> (#[trigger] list[s]).tool == pre[s][0]
                        && all_expanded(pre[s].skip(1), image, port) is Ok && list[s].args
                        == all_expanded(pre[s].skip(1), image, port)->Ok_0.0
            },
            Err(e) => !steps_fit(pre, image, port) && exists|s: int|
                0 <= s < pre.len() && steps_fit(pre.take(s), image, port) && all_expanded(
                    (#[trigger] pre[s]).skip(1),
                    image,
                    port,
                ) == Err::<(Seq<Seq<char>>, bool), PlanError<Seq<char>>>(e),
        },
    decreases pre.len(),
{
    if pre.len() > 0 {
        let front = pre.drop_last();
        let n = pre.len() - 1;
        lemma_steps_in_place(front, image, port);
        law_arguments_are_expanded_in_place(pre.last().skip(1), image, port);
        assert(front =~= pre.take(n));
        match pre_plan(front, image, port) {
            Err(e) => {
                let s = choose|s: int|
                    0 <= s < front.len() && steps_fit(front.take(s), image, port) && all_expanded(
                        (#[trigger] front[s]).skip(1),
                        image,
                        port,
                    ) == Err::<(Seq<Seq<char>>, bool), PlanError<Seq<char>>>(e);
                assert(front[s] == pre[s]);
                assert(front.take(s) =~= pre.take(s));
                assert(!steps_fit(pre, image, port)) by {
                    let t = choose|t: int|
                        0 <= t < front.len() && !all_fit((#[trigger] front[t]).skip(1), image, port);
                    assert(!all_fit(pre[t].skip(1), image, port));
                }
                assert(all_expanded(pre[s].skip(1), image, port) == Err::<
                    (Seq<Seq<char>>, bool),
                    PlanError<Seq<char>>,
                >(e));
            },
            Ok((head, used)) => match all_expanded(pre.last().skip(1), image, port) {
                Err(e) => {
                    let last = pre[n].skip(1);
                    let k = choose|k: int|
                        0 <= k < last.len() && expanded(#[trigger] last[k], last[k], image, port)
                            == Err::<(Seq<char>, bool), PlanError<Seq<char>>>(e) && all_fit(
                            last.take(k),
                            image,
                            port,
                        );
                    assert(!all_fit(last, image, port)) by {
                        assert(expanded(last[k], last[k], image, port) is Err);
                    }
                    assert(all_expanded(pre[n].skip(1), image, port) == Err::<
                        (Seq<Seq<char>>, bool),
                        PlanError<Seq<char>>,
                    >(e));
                },
                Ok((args, u)) => {
                    let list = pre_plan(pre, image, port)->Ok_0.0;
                    assert forall|s: int| 0 <= s < pre.len() implies (#[trigger] list[s]).tool
                        == pre[s][0] && all_expanded(pre[s].skip(1), image, port) is Ok
                        && list[s].args == all_expanded(
                        pre[s].skip(1),
                        image,
                        port,
                    )->Ok_0.0 by {
                        if s < n {
                            assert(front[s] == pre[s]);
                            assert(list[s] == head[s]);
                        }
                    }
                    assert forall|s: int| 0 <= s < pre.len() implies all_fit(
                        (#[trigger] pre[s]).skip(1),
                        image,
                        port,
                    ) by {
                        if s < n {
                            assert(front[s] == pre[s]);
                        }
                    }
                    if step_takes_port(front, image, port) {
                        let s = choose|s: int|
                            0 <= s < front.len() && one_takes_port(
                                (#[trigger] front[s]).skip(1),
                                image,
                                port,
                            );
                        assert(one_takes_port(pre[s].skip(1), image, port));
                    }
                    if u {
                        assert(one_takes_port(pre[n].skip(1), image, port));
                    }
                    if step_takes_port(pre, image, port) {
                        let s = choose|s: int|
                            0 <= s < pre.len() && one_takes_port(
                                (#[trigger] pre[s]).skip(1),
                                image,
                                port,
                            );
                        if s < n {
                            assert(one_takes_port(front[s].skip(1), image, port));
                        }
                    }
                },
            },
        }
    }
}

/// What a plan is made of. There is one command for each step and then the
/// main one. Argument `k` of each is what argument `k` of its template comes
/// to alone, and one without a brace stands unchanged at its place. Behind the
/// arguments of the main command stand the port flag and the port, if and only
/// if a port was given that no placeholder of any command takes.
pub proof fn law_plan_is_expanded_in_place(
    t: TargetSpec,
    image: Seq<char>,
    port: Option<Seq<char>>,
)
    requires
        plannable(t),
    ensures
        plan_result(t, image, port) matches Ok(list) ==> {
            let main = list.last();
            let n = t.args.len();
            &&& list.len() == t.pre.len() + 1
            &&& forall|s: int, k: int|
                0 <= s < t.pre.len() && 0 <= k < t.pre[s].len() - 1 ==> (
                #[trigger] list[s].args[k]) == expanded(
                    t.pre[s][k + 1],
                    t.pre[s][k + 1],
                    image,
                    port,
                )->Ok_0.0 && (!t.pre[s][k + 1].contains('{') ==> list[s].args[k]
                    == t.pre[s][k + 1])
            &&& forall|s: int|
                0 <= s < t.pre.len() ==> (#[trigger] list[s]).args.len() == t.pre[s].len() - 1
                    && list[s].tool == t.pre[s][0]
            &&& main.tool == t.tool
            &&& forall|k: int|
                0 <= k < n ==> (#[trigger] main.args[k]) == expanded(
                    t.args[k],
                    t.args[k],
                    image,
                    port,
                )->Ok_0.0 && (!t.args[k].contains('{') ==> main.args[k] == t.args[k])
            &&& if port is None || step_takes_port(t.pre, image, port) || one_takes_port(
                t.args,
                image,
                port,
            ) {
                main.args.len() == n
            } else {
                &&& main.args.len() == n + 2
                &&& t.port_arg == Some(main.args[n as int])
                &&& port == Some(main.args[n as int + 1])
            }
        },
        plan_result(t, image, port) is Ok <==> steps_fit(t.pre, image, port) && all_fit(
            t.args,
            image,
            port,
        ) && (port is None || t.port_arg is Some || step_takes_port(t.pre, image, port)
            || one_takes_port(t.args, image, port)),
        steps_fit(t.pre, image, port) && all_fit(t.args, image, port) && plan_result(
            t,
            image,
            port,
        ) is Err ==> plan_result(t, image, port)->Err_0 == (PlanError::NoPortSlot { port: port->0 }),
{
    lemma_steps_in_place(t.pre, image, port);
    law_arguments_are_expanded_in_place(t.args, image, port);
    if all_expanded(t.args, image, port) is Err {
        let e = all_expanded(t.args, image, port)->Err_0;
        let k = choose|k: int|
            0 <= k < t.args.len() && expanded(#[trigger] t.args[k], t.args[k], image, port) == Err::<
                (Seq<char>, bool),
                PlanError<Seq<char>>,
            >(e) && all_fit(t.args.take(k), image, port);
        assert(expanded(t.args[k], t.args[k], image, port) is Err);
        assert(!all_fit(t.args, image, port));
    }
    if let Ok(list) = plan_result(t, image, port) {
        let head = pre_plan(t.pre, image, port)->Ok_0.0;
        let args = all_expanded(t.args, image, port)->Ok_0.0;
        assert forall|s: int| 0 <= s < t.pre.len() implies (#[trigger] list[s]).args.len()
            == t.pre[s].len() - 1 && list[s].tool == t.pre[s][0] by {
            assert(list[s] == head[s]);
            law_arguments_are_expanded_in_place(t.pre[s].skip(1), image, port);
        }
        assert forall|s: int, k: int|
            0 <= s < t.pre.len() && 0 <= k < t.pre[s].len() - 1 implies (
        #[trigger] list[s].args[k]) == expanded(
            t.pre[s][k + 1],
            t.pre[s][k + 1],
            image,
            port,
        )->Ok_0.0 && (!t.pre[s][k + 1].contains('{') ==> list[s].args[k] == t.pre[s][k + 1]) by {
            assert(list[s] == head[s]);
            law_arguments_are_expanded_in_place(t.pre[s].skip(1), image, port);
            assert(t.pre[s].skip(1)[k] == t.pre[s][k + 1]);
        }
        let main = list.last();
        assert forall|k: int| 0 <= k < t.args.len() implies (#[trigger] main.args[k]) == expanded(
            t.args[k],
            t.args[k],
            image,
            port,
        )->Ok_0.0 && (!t.args[k].contains('{') ==> main.args[k] == t.args[k]) by {
            assert(main.args[k] == args[k]);
        }
    }
}

/// A target is found under its name and under no other.
pub proof fn law_lookup_finds_the_name(entries: Seq<(Seq<char>, TargetSpec)>, i: int, name: Seq<char>)
    requires
        ordered(entries),
        0 <= i < entries.len(),
    ensures
        lookup(entries, entries[i].0) == Some(entries[i].1),
        lookup(entries, name) is None <==> forall|j: int|
            0 <= j < entries.len() ==> (#[trigger] entries[j]).0 != name,
{
    lemma_lookup_none(entries, name);
    lemma_lookup_at(entries, i);
}

/// Nothing is found where no entry has the name.
proof fn lemma_lookup_none(entries: Seq<(Seq<char>, TargetSpec)>, name: Seq<char>)
    ensures
        lookup(entries, name) is None <==> forall|j: int|
            0 <= j < entries.len() ==> (#[trigger] entries[j]).0 != name,
    decreases entries.len(),
{
    if entries.len() > 0 {
        let front = entries.drop_last();
        lemma_lookup_none(front, name);
        assert(entries[entries.len() - 1] == entries.last());
        if lookup(entries, name) is None {
            assert forall|j: int| 0 <= j < entries.len() implies (#[trigger] entries[j]).0 != name by {
                if j < front.len() {
                    assert(front[j] == entries[j]);
                }
            }
        } else if lookup(front, name) is Some {
            let j = choose|j: int| 0 <= j < front.len() && (#[trigger] front[j]).0 == name;
            assert(entries[j].0 == name);
        }
    }
}

/// An entry is found under its own name.
proof fn lemma_lookup_at(entries: Seq<(Seq<char>, TargetSpec)>, i: int)
    requires
        ordered(entries),
        0 <= i < entries.len(),
    ensures
        lookup(entries, entries[i].0) == Some(entries[i].1),
    decreases entries.len(),
{
    let front = entries.drop_last();
    let n = entries.len() - 1;
    if i < n {
        assert(ordered(front)) by {
            assert forall|a: int, b: int| 0 <= a < b < front.len() implies crate::text::before(
                (#[trigger] front[a]).0,
                (#[trigger] front[b]).0,
            ) by {
                assert(front[a] == entries[a] && front[b] == entries[b]);
            }
        }
        lemma_lookup_at(front, i);
        assert(front[i] == entries[i]);
        assert(crate::text::before(entries[i].0, entries[n].0));
        crate::text::law_text_order_is_total(entries[i].0, entries[n].0);
    }
}

/// Targets pass the check if and only if every one is usable; else the first
/// that is not is complained of, and nothing that follows it matters.
pub proof fn law_first_unusable_target_is_told(
    entries: Seq<(Seq<char>, TargetSpec)>,
    source: Seq<char>,
    i: int,
)
    ensures
        check_result(entries, source) is None <==> forall|j: int|
            0 <= j < entries.len() ==> usable((#[trigger] entries[j]).1),
        0 <= i < entries.len() && !usable(entries[i].1) && (forall|j: int|
            0 <= j < i ==> usable((#[trigger] entries[j]).1)) ==> check_result(entries, source)
            == Some(defect_message(source, entries[i].0, entries[i].1)),
    decreases entries.len(),
{
    if entries.len() > 0 {
        let front = entries.drop_last();
        let n = entries.len() - 1;
        law_first_unusable_target_is_told(front, source, i);
        assert(entries[n] == entries.last());
        assert forall|j: int| 0 <= j < n implies front[j] == entries[j] by {}
        if check_result(entries, source) is None {
            assert forall|j: int| 0 <= j < entries.len() implies usable(
                (#[trigger] entries[j]).1,
            ) by {
                if j < n {
                    assert(usable(front[j].1));
                }
            }
        }
        if forall|j: int| 0 <= j < entries.len() ==> usable((#[trigger] entries[j]).1) {
            assert forall|j: int| 0 <= j < front.len() implies usable((#[trigger] front[j]).1) by {
                assert(usable(entries[j].1));
            }
        }
        if 0 <= i < entries.len() && !usable(entries[i].1) && (forall|j: int|
            0 <= j < i ==> usable((#[trigger] entries[j]).1)) {
            if i < n {
                assert(front[i] == entries[i]);
                assert forall|j: int| 0 <= j < i implies usable((#[trigger] front[j]).1) by {
                    assert(usable(entries[j].1));
                }
            } else {
                assert forall|j: int| 0 <= j < front.len() implies usable(
                    (#[trigger] front[j]).1,
                ) by {
                    assert(usable(entries[j].1));
                }
            }
        }
    }
}

/// The parts between colons hold none, and with one between each two they are
/// the text again.
pub proof fn law_colons_part_the_path(s: Seq<char>)
    ensures
        colon_parts(s).len() >= 1,
        crate::text::join(colon_parts(s), seq![':']) == s,
        forall|k: int| 0 <= k < colon_parts(s).len() ==> !(#[trigger] colon_parts(s)[k]).contains(':'),
    decreases s.len(),
{
    let parts = colon_parts(s);
    let sep = seq![':'];
    if s.len() == 0 {
        assert(crate::text::join(parts, sep) =~= s);
    } else {
        let front = s.drop_last();
        let head = colon_parts(front);
        law_colons_part_the_path(front);
        assert(s =~= front.push(s.last()));
        if s.last() == ':' {
            assert(parts.drop_last() =~= head);
            assert(crate::text::join(parts, sep) =~= front + sep + Seq::<char>::empty());
            assert(front + sep + Seq::<char>::empty() =~= s);
            assert forall|k: int| 0 <= k < parts.len() implies !(#[trigger] parts[k]).contains(':') by {
                if k < head.len() {
                    assert(parts[k] == head[k]);
                }
            }
        } else {
            assert(parts.drop_last() =~= head.drop_last());
            assert(parts.last() == head.last().push(s.last()));
            if head.len() == 1 {
                assert(head.last() == front);
                assert(crate::text::join(parts, sep) =~= s);
            } else {
                let before = crate::text::join(head.drop_last(), sep) + sep;
                assert(front == before + head.last());
                assert(crate::text::join(parts, sep) == before + parts.last());
                assert(before + head.last().push(s.last()) =~= (before + head.last()).push(
                    s.last(),
                ));
            }
            assert forall|k: int| 0 <= k < parts.len() implies !(#[trigger] parts[k]).contains(':') by {
                if k < head.len() - 1 {
                    assert(parts[k] == head[k]);
                } else {
                    assert(head[k] == head.last());
                    if parts[k].contains(':') {
                        let i = choose|i: int| 0 <= i < parts[k].len() && parts[k][i] == ':';
                        assert(head.last()[i] == ':');
                    }
                }
            }
        }
    }
}

/// Which files a tool may be. One with a slash is that file alone. Any other
/// is looked for in each directory of the path that is not empty, in their
/// order: the directory, one slash between, and the tool.
pub proof fn law_where_tools_are_looked_for(
    tool: Seq<char>,
    a: Seq<Seq<char>>,
    b: Seq<Seq<char>>,
    dir: Seq<char>,
    path_var: Seq<char>,
)
    ensures
        tool.contains('/') ==> tool_candidates(tool, path_var) == seq![tool],
        !tool.contains('/') ==> tool_candidates(tool, path_var) == in_dirs(
            colon_parts(path_var),
            tool,
        ),
        in_dirs(a + b, tool) == in_dirs(a, tool) + in_dirs(b, tool),
        in_dirs(seq![], tool) == Seq::<Seq<char>>::empty(),
        in_dirs(seq![seq![]], tool) == Seq::<Seq<char>>::empty(),
        in_dirs(seq![dir.push('/')], tool) == seq![dir + seq!['/'] + tool],
        dir.len() > 0 && dir.last() != '/' ==> in_dirs(seq![dir], tool) == seq![
            dir + seq!['/'] + tool,
        ],
    decreases b.len(),
{
    let none = seq![Seq::<char>::empty()];
    assert(none.drop_last() =~= seq![]);
    let slash = seq![dir.push('/')];
    assert(slash.drop_last() =~= seq![]);
    assert(dir.push('/') + tool =~= dir + seq!['/'] + tool);
    assert(in_dirs(slash.drop_last(), tool) =~= seq![]);
    assert(in_dirs(slash, tool) =~= seq![dir + seq!['/'] + tool]);
    let plain = seq![dir];
    assert(plain.drop_last() =~= seq![]);
    assert(in_dirs(plain.drop_last(), tool) =~= seq![]);
    if dir.len() > 0 && dir.last() != '/' {
        assert(in_dirs(plain, tool) =~= seq![dir + seq!['/'] + tool]);
    }
    if b.len() == 0 {
        assert(a + b =~= a);
        assert(in_dirs(a, tool) + in_dirs(b, tool) =~= in_dirs(a, tool));
    } else {
        law_where_tools_are_looked_for(tool, a, b.drop_last(), dir, path_var);
        assert((a + b).drop_last() =~= a + b.drop_last());
        assert(in_dirs(a + b, tool) =~= in_dirs(a, tool) + in_dirs(b, tool));
    }
}

/// The step that is complained of is the first that names no tool.
pub proof fn law_first_bad_step(pre: Seq<Seq<Seq<char>>>, k: int)
    ensures
        0 <= k < pre.len() && bad_step(pre[k]) && (forall|j: int|
            0 <= j < k ==> !bad_step(#[trigger] pre[j])) ==> first_bad(pre) == k,
        (forall|j: int| 0 <= j < pre.len() ==> !bad_step(#[trigger] pre[j])) ==> first_bad(pre)
            == pre.len(),
{
    lemma_first_bad(pre);
}

/// A text names no tool if and only if every character of it is white space.
pub proof fn law_what_is_blank(s: Seq<char>)
    ensures
        blank(s) <==> forall|i: int| 0 <= i < s.len() ==> crate::text::whitespace(#[trigger] s[i]),
{
    let (a, b) = crate::text::law_trimming_takes_white_space_only(s);
    if a < b {
        assert(!crate::text::whitespace(s[a]));
    }
}

/// Arguments are shown as they are, but in quotes where a reader could not
/// tell their ends: those without a character and those with white space.
pub proof fn law_how_arguments_are_shown(arg: Seq<char>, k: int)
    ensures
        arg.len() == 0 ==> shown(arg) == crate::text::debug_text(arg),
        0 <= k < arg.len() && crate::text::whitespace(arg[k]) ==> shown(arg)
            == crate::text::debug_text(arg),
        arg.len() > 0 && (forall|i: int|
            0 <= i < arg.len() ==> !crate::text::whitespace(#[trigger] arg[i])) ==> shown(arg)
            == arg,
{
}

/// Which targets are usable: those whose tool has a character that is not
/// white space, and so does the first argument of each step.
pub proof fn law_which_targets_are_usable(t: TargetSpec)
    ensures
        usable(t) <==> {
            &&& exists|i: int| 0 <= i < t.tool.len() && !crate::text::whitespace(#[trigger] t.tool[i])
            &&& forall|k: int|
                0 <= k < t.pre.len() ==> (#[trigger] t.pre[k]).len() > 0 && exists|i: int|
                    0 <= i < t.pre[k][0].len() && !crate::text::whitespace(
                        #[trigger] t.pre[k][0][i],
                    )
        },
{
    law_what_is_blank(t.tool);
    assert forall|k: int| 0 <= k < t.pre.len() implies (bad_step(#[trigger] t.pre[k]) <==> t.pre[k].len()
        == 0 || !(exists|i: int|
        0 <= i < t.pre[k][0].len() && !crate::text::whitespace(#[trigger] t.pre[k][0][i]))) by {
        law_what_is_blank(t.pre[k][0]);
    }
}

} // verus!
