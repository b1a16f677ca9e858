//! Parsing a flat argument list into command specifications.
//!
//! The first argument of an invocation is a separator token; the remaining
//! arguments are split into groups at each occurrence of that token.  Each
//! group may start with an explicit label token (trailing `/`, no `=`),
//! followed by environment-override tokens (containing `=`), then the program
//! and its arguments.  A group whose program token is missing or empty
//! yields no command.

use vstd::prelude::*;
use vstd::string::StrSliceExecFns;

use crate::strutil::contains_char;
use crate::strutil::ends_with_char;
use crate::strutil::find_char;
use crate::strutil::str_eq;
use crate::strutil::strip_trailing;
use crate::strutil::strip_trailing_run;

verus! {

/// One requested command: display label, environment overrides applied on
/// top of the inherited environment, the program to invoke, and its
/// arguments.
pub struct CommandSpec {
    pub label: String,
    pub environment_overrides: Vec<(String, String)>,
    pub program: String,
    pub arguments: Vec<String>,
}

/// The mathematical image of a `CommandSpec`: every string as a character
/// sequence.
#[verifier::ext_equal]
pub ghost struct CommandSpecView {
    pub label: Seq<char>,
    pub environment_overrides: Seq<(Seq<char>, Seq<char>)>,
    pub program: Seq<char>,
    pub arguments: Seq<Seq<char>>,
}

impl View for CommandSpec {
    type V = CommandSpecView;

    open spec fn view(&self) -> CommandSpecView {
        CommandSpecView {
            label: self.label@,
            environment_overrides: self.environment_overrides.deep_view(),
            program: self.program@,
            arguments: self.arguments.deep_view(),
        }
    }
}

impl DeepView for CommandSpec {
    type V = CommandSpecView;

    open spec fn deep_view(&self) -> CommandSpecView {
        self.view()
    }
}

/// A token consumed as an environment override: it contains `=`.
pub open spec fn is_env_token(t: Seq<char>) -> bool {
    t.contains('=')
}

/// A group's first token names the command's label when it ends in `/` and
/// holds no `=`.
pub open spec fn is_label_token(t: Seq<char>) -> bool {
    t.len() > 0 && t.last() == '/' && !t.contains('=')
}

/// Whether a group starts with an explicit label token.
pub open spec fn has_explicit_label(g: Seq<Seq<char>>) -> bool {
    g.len() > 0 && is_label_token(g[0])
}

/// The group without its explicit label token, if it has one.
pub open spec fn group_body(g: Seq<Seq<char>>) -> Seq<Seq<char>> {
    if has_explicit_label(g) {
        g.drop_first()
    } else {
        g
    }
}

/// How many leading tokens of a group body are environment overrides.
pub open spec fn env_token_count(b: Seq<Seq<char>>) -> int
    decreases b.len(),
{
    if b.len() == 0 || !is_env_token(b[0]) {
        0
    } else {
        1 + env_token_count(b.drop_first())
    }
}

/// The override count never exceeds the group body's length.
pub proof fn lemma_env_token_count_bounds(b: Seq<Seq<char>>)
    ensures
        0 <= env_token_count(b) <= b.len(),
    decreases b.len(),
{
    if !(b.len() == 0 || !is_env_token(b[0])) {
        lemma_env_token_count_bounds(b.drop_first());
    }
}

/// `env_token_count` is the unique boundary: every token before it is an
/// override and the token at it (if any) is not.
pub proof fn lemma_env_token_count_eq(b: Seq<Seq<char>>, n: int)
    requires
        0 <= n <= b.len(),
        forall|j: int| 0 <= j < n ==> is_env_token(b[j]),
        n == b.len() || !is_env_token(b[n]),
    ensures
        env_token_count(b) == n,
    decreases b.len(),
{
    if n == 0 {
    } else {
        assert(is_env_token(b[0]));
        assert forall|j: int| 0 <= j < n - 1 implies is_env_token(b.drop_first()[j]) by {
            assert(b.drop_first()[j] == b[j + 1]);
        }
        if n - 1 < b.drop_first().len() {
            assert(b.drop_first()[n - 1] == b[n]);
        }
        lemma_env_token_count_eq(b.drop_first(), n - 1);
    }
}

/// Index of the first occurrence of `c` in `t`.
pub open spec fn first_index_of(t: Seq<char>, c: char) -> int
    decreases t.len(),
{
    if t.len() == 0 {
        0
    } else if t[0] == c {
        0
    } else {
        1 + first_index_of(t.drop_first(), c)
    }
}

/// When `t[n]` is the first occurrence of `c`, `first_index_of` returns `n`.
pub proof fn lemma_first_index_of_eq(t: Seq<char>, c: char, n: int)
    requires
        0 <= n < t.len(),
        t[n] == c,
        forall|j: int| 0 <= j < n ==> t[j] != c,
    ensures
        first_index_of(t, c) == n,
    decreases t.len(),
{
    if n > 0 {
        assert forall|j: int| 0 <= j < n - 1 implies t.drop_first()[j] != c by {
            assert(t.drop_first()[j] == t[j + 1]);
        }
        assert(t.drop_first()[n - 1] == t[n]);
        lemma_first_index_of_eq(t.drop_first(), c, n - 1);
    }
}

/// The name/value pair read from one override token, split at its first `=`.
pub open spec fn env_pair(t: Seq<char>) -> (Seq<char>, Seq<char>) {
    let i = first_index_of(t, '=');
    (t.subrange(0, i), t.subrange(i + 1, t.len() as int))
}

/// The names of a sequence of overrides.
pub open spec fn pair_keys(ps: Seq<(Seq<char>, Seq<char>)>) -> Seq<Seq<char>> {
    ps.map_values(|p: (Seq<char>, Seq<char>)| p.0)
}

/// Keep only the first override for each name, in order of appearance.
pub open spec fn dedup_keys(ps: Seq<(Seq<char>, Seq<char>)>) -> Seq<(Seq<char>, Seq<char>)>
    decreases ps.len(),
{
    if ps.len() == 0 {
        ps
    } else {
        let rest = dedup_keys(ps.drop_last());
        if pair_keys(ps.drop_last()).contains(ps.last().0) {
            rest
        } else {
            rest.push(ps.last())
        }
    }
}

/// Membership in a sequence extended by one element.
proof fn lemma_push_contains(s: Seq<Seq<char>>, x: Seq<char>, k: Seq<char>)
    ensures
        s.push(x).contains(k) <==> (s.contains(k) || k == x),
{
    if s.contains(k) {
        let i = choose|i: int| 0 <= i < s.len() && s[i] == k;
        assert(s.push(x)[i] == k);
    }
    if k == x {
        assert(s.push(x)[s.len() as int] == k);
    }
    if s.push(x).contains(k) {
        let i = choose|i: int| 0 <= i < s.push(x).len() && s.push(x)[i] == k;
        if i < s.len() {
            assert(s[i] == k);
        }
    }
}

/// Deduplication keeps exactly the names that were present.
pub proof fn lemma_dedup_keys_membership(ps: Seq<(Seq<char>, Seq<char>)>, k: Seq<char>)
    ensures
        pair_keys(dedup_keys(ps)).contains(k) <==> pair_keys(ps).contains(k),
    decreases ps.len(),
{
    if ps.len() > 0 {
        let prev = ps.drop_last();
        lemma_dedup_keys_membership(prev, k);
        let rest = dedup_keys(prev);
        assert(pair_keys(ps) =~= pair_keys(prev).push(ps.last().0));
        lemma_push_contains(pair_keys(prev), ps.last().0, k);
        if pair_keys(prev).contains(ps.last().0) {
            assert(dedup_keys(ps) == rest);
            lemma_dedup_keys_membership(prev, ps.last().0);
        } else {
            assert(dedup_keys(ps) == rest.push(ps.last()));
            assert(pair_keys(dedup_keys(ps)) =~= pair_keys(rest).push(ps.last().0));
            lemma_push_contains(pair_keys(rest), ps.last().0, k);
        }
    }
}

/// The overrides of a group body: its leading `=` tokens, split into pairs,
/// first occurrence of each name winning.
pub open spec fn overrides_of(b: Seq<Seq<char>>) -> Seq<(Seq<char>, Seq<char>)> {
    dedup_keys(b.subrange(0, env_token_count(b)).map_values(|t: Seq<char>| env_pair(t)))
}

/// The parsed image of one command group: `None` when the group has no
/// program token, or an empty one — every command a group yields names a
/// non-empty program — otherwise the command it describes.
pub open spec fn parse_group_spec(g: Seq<Seq<char>>) -> Option<CommandSpecView> {
    let body = group_body(g);
    let n = env_token_count(body);
    if n >= body.len() || body[n].len() == 0 {
        None
    } else {
        let program = body[n];
        Some(
            CommandSpecView {
                label: if has_explicit_label(g) {
                    strip_trailing(g[0], '/')
                } else {
                    program
                },
                environment_overrides: overrides_of(body),
                program: program,
                arguments: body.subrange(n + 1, body.len() as int),
            },
        )
    }
}

/// Whether `envs` already holds an override named `key`.
fn has_key(envs: &Vec<(String, String)>, key: &str) -> (r: bool)
    ensures
        r == pair_keys(envs.deep_view()).contains(key@),
{
    let mut i: usize = 0;
    while i < envs.len()
        invariant
            i <= envs.len(),
            forall|j: int| 0 <= j < i ==> envs.deep_view()[j].0 != key@,
        decreases envs.len() - i,
    {
        if str_eq(envs[i].0.as_str(), key) {
            proof {
                assert(pair_keys(envs.deep_view())[i as int] == key@);
            }
            return true;
        }
        i = i + 1;
    }
    proof {
        assert forall|j: int| 0 <= j < envs.deep_view().len() implies pair_keys(envs.deep_view())[j]
            != key@ by {
            assert(pair_keys(envs.deep_view())[j] == envs.deep_view()[j].0);
        }
    }
    false
}

/// Split one override token at its first `=` into name and value.
fn split_env_token(t: &str) -> (r: (String, String))
    requires
        t@.contains('='),
    ensures
        (r.0@, r.1@) == env_pair(t@),
{
    let len = t.unicode_len();
    let i = match find_char(t, '=') {
        Some(i) => i,
        None => {
            proof {
                assert(false);
            }
            0
        },
    };
    proof {
        lemma_first_index_of_eq(t@, '=', i as int);
    }
    let key = t.substring_char(0, i);
    let val = t.substring_char(i + 1, len);
    (String::from_str(key), String::from_str(val))
}

impl CommandSpec {
    /// Parse one group of tokens into a command specification, if the group
    /// names a non-empty program.
    pub fn parse(group: &[String]) -> (r: Option<CommandSpec>)
        ensures
            match r {
                Some(c) => parse_group_spec(group.deep_view()) == Some(c@),
                None => parse_group_spec(group.deep_view()) is None,
            },
    {
        let ghost g = group.deep_view();
        let glen = group.len();
        proof {
            assert(g.len() == glen);
        }

        let explicit = glen > 0 && ends_with_char(group[0].as_str(), '/') && !contains_char(
            group[0].as_str(),
            '=',
        );
        let start: usize = if explicit {
            1
        } else {
            0
        };
        proof {
            assert(explicit == has_explicit_label(g));
            assert(group_body(g) =~= g.subrange(start as int, glen as int));
        }
        let ghost body = group_body(g);

        let mut envs: Vec<(String, String)> = Vec::new();
        let mut i: usize = start;
        while i < glen && contains_char(group[i].as_str(), '=')
            invariant
                glen == group.len(),
                g == group.deep_view(),
                start <= i <= glen,
                forall|j: int| start <= j < i ==> is_env_token(g[j]),
                envs.deep_view() == dedup_keys(
                    g.subrange(start as int, i as int).map_values(|t: Seq<char>| env_pair(t)),
                ),
            decreases glen - i,
        {
            let ghost prev = g.subrange(start as int, i as int).map_values(
                |t: Seq<char>| env_pair(t),
            );
            let (key, val) = split_env_token(group[i].as_str());
            let present = has_key(&envs, key.as_str());
            proof {
                lemma_dedup_keys_membership(prev, key@);
                assert(g.subrange(start as int, (i + 1) as int).map_values(
                    |t: Seq<char>| env_pair(t),
                ) =~= prev.push(env_pair(g[i as int])));
                assert(prev.push(env_pair(g[i as int])).drop_last() =~= prev);
                assert(env_pair(g[i as int]) == (key@, val@));
            }
            if !present {
                envs.push((key, val));
                proof {
                    assert(envs.deep_view() =~= dedup_keys(prev).push((key@, val@)));
                }
            }
            i = i + 1;
        }
        proof {
            lemma_env_token_count_eq(body, i - start);
            assert(body.subrange(0, (i - start) as int) =~= g.subrange(start as int, i as int));
            if i < glen {
                assert(body[i - start] == g[i as int]);
            }
        }

        if i >= glen {
            return None;
        }
        if group[i].as_str().is_empty() {
            return None;
        }

        let program = group[i].clone();
        let label = if explicit {
            strip_trailing_run(group[0].as_str(), '/')
        } else {
            program.clone()
        };

        let mut arguments: Vec<String> = Vec::new();
        let mut k: usize = i + 1;
        while k < glen
            invariant
                glen == group.len(),
                g == group.deep_view(),
                i + 1 <= k <= glen,
                arguments.deep_view() == g.subrange((i + 1) as int, k as int),
            decreases glen - k,
        {
            let ghost prev_args = arguments.deep_view();
            arguments.push(group[k].clone());
            proof {
                assert(arguments.deep_view() =~= prev_args.push(g[k as int]));
                assert(prev_args.push(g[k as int]) =~= g.subrange((i + 1) as int, (k + 1) as int));
            }
            k = k + 1;
        }

        let c = CommandSpec { label, environment_overrides: envs, program, arguments };
        proof {
            let n = env_token_count(body);
            assert(n == i - start);
            assert(body[n] == g[i as int]);
            assert(body.subrange(n + 1, body.len() as int) =~= g.subrange(
                (i + 1) as int,
                glen as int,
            ));
            assert(c@ =~= parse_group_spec(g).unwrap());
        }
        Some(c)
    }
}

/// Groups of `ts` delimited by tokens equal to `sep`.  An empty token list
/// is one empty group; each separator ends the group before it.
pub open spec fn split_groups(ts: Seq<Seq<char>>, sep: Seq<char>) -> Seq<Seq<Seq<char>>>
    decreases ts.len(),
{
    if ts.len() == 0 {
        seq![Seq::empty()]
    } else if ts.last() == sep {
        split_groups(ts.drop_last(), sep).push(Seq::empty())
    } else {
        let r = split_groups(ts.drop_last(), sep);
        r.update(r.len() - 1, r.last().push(ts.last()))
    }
}

/// Splitting always yields at least one group.
pub proof fn lemma_split_groups_nonempty(ts: Seq<Seq<char>>, sep: Seq<char>)
    ensures
        split_groups(ts, sep).len() >= 1,
    decreases ts.len(),
{
    if ts.len() > 0 {
        lemma_split_groups_nonempty(ts.drop_last(), sep);
    }
}

/// The command specifications parsed from a sequence of groups, in order;
/// groups without a program token contribute nothing.
pub open spec fn parsed_specs(gs: Seq<Seq<Seq<char>>>) -> Seq<CommandSpecView>
    decreases gs.len(),
{
    if gs.len() == 0 {
        Seq::empty()
    } else {
        let rest = parsed_specs(gs.drop_last());
        match parse_group_spec(gs.last()) {
            Some(c) => rest.push(c),
            None => rest,
        }
    }
}

/// All commands named by the tokens after the separator argument.
pub open spec fn commands_of(ts: Seq<Seq<char>>, sep: Seq<char>) -> Seq<CommandSpecView> {
    parsed_specs(split_groups(ts, sep))
}

/// Parse every group of `rest`, delimited by `separator`, into command
/// specifications.
pub fn parse_commands(separator: &String, rest: &[String]) -> (r: Vec<CommandSpec>)
    ensures
        r.deep_view() == commands_of(rest.deep_view(), separator@),
{
    let ghost ts = rest.deep_view();
    let ghost sep = separator@;
    let mut commands: Vec<CommandSpec> = Vec::new();
    let mut cur: Vec<String> = Vec::new();
    let ghost mut done: Seq<Seq<Seq<char>>> = Seq::empty();
    let mut i: usize = 0;
    proof {
        assert(cur.deep_view() =~= Seq::<Seq<char>>::empty());
        assert(ts.subrange(0, 0) =~= Seq::<Seq<char>>::empty());
        assert(split_groups(ts.subrange(0, 0), sep) =~= done.push(cur.deep_view()));
    }
    while i < rest.len()
        invariant
            ts == rest.deep_view(),
            sep == separator@,
            i <= rest.len(),
            split_groups(ts.subrange(0, i as int), sep) == done.push(cur.deep_view()),
            commands.deep_view() == parsed_specs(done),
        decreases rest.len() - i,
    {
        let ghost prefix = ts.subrange(0, i as int);
        proof {
            assert(ts.subrange(0, (i + 1) as int).drop_last() =~= prefix);
            assert(ts.subrange(0, (i + 1) as int).last() == ts[i as int]);
        }
        if str_eq(rest[i].as_str(), separator.as_str()) {
            proof {
                assert(split_groups(ts.subrange(0, (i + 1) as int), sep) == split_groups(
                    prefix,
                    sep,
                ).push(Seq::empty()));
            }
            let cur_slice = cur.as_slice();
            let finished = CommandSpec::parse(cur_slice);
            proof {
                assert(cur_slice.deep_view() =~= cur.deep_view());
                let newdone = done.push(cur.deep_view());
                assert(newdone.drop_last() =~= done);
            }
            match finished {
                Some(c) => {
                    let ghost prev_cmds = commands.deep_view();
                    commands.push(c);
                    proof {
                        assert(commands.deep_view() =~= prev_cmds.push(c@));
                    }
                },
                None => {},
            }
            proof {
                done = done.push(cur.deep_view());
            }
            cur = Vec::new();
            proof {
                assert(cur.deep_view() =~= Seq::<Seq<char>>::empty());
            }
        } else {
            let ghost prev_cur = cur.deep_view();
            proof {
                lemma_split_groups_nonempty(prefix, sep);
                let r0 = split_groups(prefix, sep);
                assert(r0.last() == prev_cur);
                assert(split_groups(ts.subrange(0, (i + 1) as int), sep) =~= done.push(
                    prev_cur.push(ts[i as int]),
                ));
            }
            cur.push(rest[i].clone());
            proof {
                assert(cur.deep_view() =~= prev_cur.push(ts[i as int]));
            }
        }
        i = i + 1;
    }
    proof {
        assert(ts.subrange(0, rest.len() as int) =~= ts);
    }
    let cur_slice = cur.as_slice();
    let finished = CommandSpec::parse(cur_slice);
    proof {
        assert(cur_slice.deep_view() =~= cur.deep_view());
        let all = done.push(cur.deep_view());
        assert(all.drop_last() =~= done);
    }
    match finished {
        Some(c) => {
            let ghost prev_cmds = commands.deep_view();
            commands.push(c);
            proof {
                assert(commands.deep_view() =~= prev_cmds.push(c@));
            }
        },
        None => {},
    }
    commands
}

/// Splitting a token list in which the separator never occurs yields that
/// list as the single group.
pub proof fn lemma_split_no_separator(ts: Seq<Seq<char>>, sep: Seq<char>)
    requires
        forall|i: int| 0 <= i < ts.len() ==> ts[i] != sep,
    ensures
        split_groups(ts, sep) == seq![ts],
    decreases ts.len(),
{
    if ts.len() == 0 {
        assert(ts =~= Seq::<Seq<char>>::empty());
        assert(split_groups(ts, sep) =~= seq![ts]);
    } else {
        assert forall|i: int| 0 <= i < ts.drop_last().len() implies ts.drop_last()[i] != sep by {
            assert(ts.drop_last()[i] == ts[i]);
        }
        lemma_split_no_separator(ts.drop_last(), sep);
        assert(ts.last() != sep);
        assert(ts.drop_last().push(ts.last()) =~= ts);
        let r = split_groups(ts.drop_last(), sep);
        assert(r == seq![ts.drop_last()]);
        assert(r.len() == 1);
        assert(r[0] == ts.drop_last());
        assert(split_groups(ts, sep) == r.update(0, r.last().push(ts.last())));
        assert(split_groups(ts, sep) =~= seq![ts]);
    }
}

/// A group with no program token contributes no command; when it is the
/// only group, the whole invocation names nothing to run and is a usage
/// error.
pub proof fn lemma_only_group_without_program(ts: Seq<Seq<char>>, sep: Seq<char>)
    requires
        forall|i: int| 0 <= i < ts.len() ==> ts[i] != sep,
        parse_group_spec(ts) is None,
    ensures
        commands_of(ts, sep).len() == 0,
{
    lemma_split_no_separator(ts, sep);
    let gs = seq![ts];
    assert(gs.drop_last() =~= Seq::<Seq<Seq<char>>>::empty());
    assert(parsed_specs(Seq::<Seq<Seq<char>>>::empty()).len() == 0);
    assert(gs.last() == ts);
    assert(parse_group_spec(gs.last()) is None);
    assert(parsed_specs(gs).len() == 0);
}

/// Label defaulting: a group without an explicit label token is labelled by
/// its program string.
pub proof fn lemma_label_defaulting(g: Seq<Seq<char>>)
    requires
        !has_explicit_label(g),
        parse_group_spec(g) is Some,
    ensures
        parse_group_spec(g).unwrap().label == parse_group_spec(g).unwrap().program,
{
}

/// An explicit label token names the command: the label is that token with
/// its trailing slashes removed.
pub proof fn lemma_explicit_label(g: Seq<Seq<char>>)
    requires
        has_explicit_label(g),
        parse_group_spec(g) is Some,
    ensures
        parse_group_spec(g).unwrap().label == strip_trailing(g[0], '/'),
{
}

/// Every command a group yields has a non-empty program: a group whose
/// token in program position is the empty string is excluded like any other
/// malformed group.
pub proof fn lemma_program_nonempty(g: Seq<Seq<char>>, c: CommandSpecView)
    requires
        parse_group_spec(g) == Some(c),
    ensures
        c.program.len() > 0,
{
}

/// Deduplication leaves no two overrides with the same name.
proof fn lemma_dedup_keys_distinct(ps: Seq<(Seq<char>, Seq<char>)>, i: int, j: int)
    requires
        0 <= i < j < dedup_keys(ps).len(),
    ensures
        dedup_keys(ps)[i].0 != dedup_keys(ps)[j].0,
    decreases ps.len(),
{
    if ps.len() > 0 {
        let prev = ps.drop_last();
        let rest = dedup_keys(prev);
        if pair_keys(prev).contains(ps.last().0) {
            lemma_dedup_keys_distinct(prev, i, j);
        } else {
            if j < rest.len() {
                lemma_dedup_keys_distinct(prev, i, j);
            } else {
                assert(dedup_keys(ps)[j] == ps.last());
                assert(dedup_keys(ps)[i] == rest[i]);
                if rest[i].0 == ps.last().0 {
                    assert(pair_keys(rest)[i] == ps.last().0);
                    lemma_dedup_keys_membership(prev, ps.last().0);
                }
            }
        }
    }
}

/// Override names are unique within one command: no two environment
/// overrides of a parsed command share a name.
pub proof fn lemma_override_keys_unique(g: Seq<Seq<char>>, c: CommandSpecView, i: int, j: int)
    requires
        parse_group_spec(g) == Some(c),
        0 <= i < j < c.environment_overrides.len(),
    ensures
        c.environment_overrides[i].0 != c.environment_overrides[j].0,
{
    let body = group_body(g);
    let ps = body.subrange(0, env_token_count(body)).map_values(|t: Seq<char>| env_pair(t));
    lemma_dedup_keys_distinct(ps, i, j);
}

/// Every element deduplication keeps was an element of the original.
proof fn lemma_dedup_elements(ps: Seq<(Seq<char>, Seq<char>)>, k: int)
    requires
        0 <= k < dedup_keys(ps).len(),
    ensures
        exists|j: int| 0 <= j < ps.len() && ps[j] == dedup_keys(ps)[k],
    decreases ps.len(),
{
    if ps.len() > 0 {
        let prev = ps.drop_last();
        let rest = dedup_keys(prev);
        if !pair_keys(prev).contains(ps.last().0) && k == rest.len() {
            assert(ps[ps.len() - 1] == dedup_keys(ps)[k]);
        } else {
            lemma_dedup_elements(prev, k);
            let j = choose|j: int| 0 <= j < prev.len() && prev[j] == rest[k];
            assert(ps[j] == dedup_keys(ps)[k]);
        }
    }
}

/// Environment overrides are private to their command: every override of a
/// parsed command is read from a token of that command's own group.
pub proof fn lemma_overrides_from_own_group(g: Seq<Seq<char>>, c: CommandSpecView, k: int)
    requires
        parse_group_spec(g) == Some(c),
        0 <= k < c.environment_overrides.len(),
    ensures
        exists|j: int|
            0 <= j < group_body(g).len() && env_pair(group_body(g)[j])
                == c.environment_overrides[k],
{
    let body = group_body(g);
    let n = env_token_count(body);
    let ps = body.subrange(0, n).map_values(|t: Seq<char>| env_pair(t));
    lemma_env_token_count_bounds(body);
    lemma_dedup_elements(ps, k);
    let j = choose|j: int| 0 <= j < ps.len() && ps[j] == dedup_keys(ps)[k];
    assert(ps[j] == env_pair(body.subrange(0, n)[j]));
    assert(body.subrange(0, n)[j] == body[j]);
    assert(env_pair(body[j]) == c.environment_overrides[k]);
}

/// Round trip from a parsed command to its printed lines: the prefix of any
/// line rendered for the command, read back up to the label's length, is the
/// explicit label (trailing slashes stripped) when the group gave one, and
/// the program string otherwise.
pub proof fn lemma_printed_prefix_round_trip(
    g: Seq<Seq<char>>,
    c: CommandSpecView,
    width: int,
    marker: Seq<char>,
    text: Seq<char>,
)
    requires
        parse_group_spec(g) == Some(c),
        c.label.len() <= width,
    ensures
        crate::render::output_line(c.label, width, marker, text).subrange(
            0,
            c.label.len() as int,
        ) == if has_explicit_label(g) {
            strip_trailing(g[0], '/')
        } else {
            c.program
        },
{
    crate::render::lemma_line_prefix_is_label(c.label, width, marker, text);
    if has_explicit_label(g) {
        lemma_explicit_label(g);
    } else {
        lemma_label_defaulting(g);
    }
}

/// Whether the first argument asks for the usage text.
pub open spec fn help_requested(ts: Seq<Seq<char>>) -> bool {
    ts.len() > 0 && (ts[0] == "--help"@ || ts[0] == "-h"@)
}

/// The commands named by a full argument list: the first token is the
/// separator, the rest are the groups.
pub open spec fn requested_commands(ts: Seq<Seq<char>>) -> Seq<CommandSpecView> {
    if ts.len() == 0 {
        Seq::empty()
    } else {
        commands_of(ts.drop_first(), ts[0])
    }
}

/// What one invocation should do: print the usage text and succeed, print
/// the usage text and fail, or run the given commands.
pub enum RunPlan {
    /// Help was requested: print the usage text, exit successfully.
    Help,
    /// No separator or no valid command group: print the usage text, exit
    /// with a failure code.
    Usage,
    /// Run these commands concurrently.
    Execute(Vec<CommandSpec>),
}

/// Decide what an invocation with these arguments (the program name already
/// removed) should do.
pub fn plan_run(args: &Vec<String>) -> (r: RunPlan)
    ensures
        r is Help <==> help_requested(args.deep_view()),
        r is Usage <==> (!help_requested(args.deep_view()) && requested_commands(
            args.deep_view(),
        ).len() == 0),
        r matches RunPlan::Execute(cmds) ==> cmds.deep_view() == requested_commands(
            args.deep_view(),
        ) && cmds.len() > 0,
{
    let ghost ts = args.deep_view();
    if args.len() == 0 {
        return RunPlan::Usage;
    }
    let separator = &args[0];
    if str_eq(separator.as_str(), "--help") || str_eq(separator.as_str(), "-h") {
        return RunPlan::Help;
    }
    let (_, rest) = args.as_slice().split_at(1);
    proof {
        assert(rest.deep_view() =~= ts.drop_first());
    }
    let commands = parse_commands(separator, rest);
    if commands.len() == 0 {
        proof {
            assert(commands.deep_view().len() == 0);
        }
        RunPlan::Usage
    } else {
        proof {
            assert(commands.deep_view().len() == commands.len());
        }
        RunPlan::Execute(commands)
    }
}

/// The longest label length among the given commands.
pub open spec fn max_label_len(cs: Seq<CommandSpecView>) -> int
    decreases cs.len(),
{
    if cs.len() == 0 {
        0
    } else {
        let rest = max_label_len(cs.drop_last());
        if cs.last().label.len() > rest {
            cs.last().label.len() as int
        } else {
            rest
        }
    }
}

/// Every label fits within the maximum label length.
pub proof fn lemma_max_label_len_ge(cs: Seq<CommandSpecView>, i: int)
    requires
        0 <= i < cs.len(),
    ensures
        cs[i].label.len() <= max_label_len(cs),
    decreases cs.len(),
{
    if i < cs.len() - 1 {
        lemma_max_label_len_ge(cs.drop_last(), i);
    }
}

/// Compute the width every label is padded to: the length of the longest
/// label across all commands.
pub fn max_label_width(commands: &Vec<CommandSpec>) -> (r: usize)
    ensures
        r == max_label_len(commands.deep_view()),
{
    let ghost cs = commands.deep_view();
    let mut width: usize = 0;
    let mut i: usize = 0;
    proof {
        assert(cs.subrange(0, 0) =~= Seq::<CommandSpecView>::empty());
    }
    while i < commands.len()
        invariant
            cs == commands.deep_view(),
            i <= commands.len(),
            width == max_label_len(cs.subrange(0, i as int)),
        decreases commands.len() - i,
    {
        proof {
            assert(cs.subrange(0, (i + 1) as int).drop_last() =~= cs.subrange(0, i as int));
            assert(cs.subrange(0, (i + 1) as int).last() == cs[i as int]);
        }
        let len = commands[i].label.as_str().unicode_len();
        proof {
            assert(cs[i as int].label == commands@[i as int].label@);
        }
        if len > width {
            width = len;
        }
        i = i + 1;
    }
    proof {
        assert(cs.subrange(0, commands.len() as int) =~= cs);
    }
    width
}

} // verus!
