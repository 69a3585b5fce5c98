//! What programs of two common shapes print: assignments followed by
//! prints of the variables, and a chain of branches.
use vstd::prelude::*;
use crate::token::Kind;
use crate::ast::Node;
use crate::codegen::{CodegenError, LowerState};
use crate::codegen::{find_var, flush_spec, initial_state, lower_assign_spec, lower_assigned_spec};
use crate::codegen::{lower_list_spec, lower_print_spec, lower_spec, lower_stmt_spec, lower_value_spec};
use crate::correct::lemma_lowered_program_means_the_same;
use crate::ir::Output;
use crate::meaning::{Held, World};
use crate::meaning::{meaning, printed, run_branch, run_list, run_stmt, shown, start_world, value_in};

verus! {

/// Running a list of statements from an index on is running the first of
/// them and then the rest.
pub proof fn lemma_run_list_step(stmts: Seq<Node>, from: int, w: World)
    requires
        0 <= from < stmts.len(),
    ensures
        run_list(stmts, from, w) == match run_stmt(stmts[from], w) {
            Some(w1) => run_list(stmts, from + 1, w1),
            None => None,
        },
{
}

/// Running the second of two lists behind the first, from an index in the
/// second on.
pub proof fn lemma_run_list_behind(a: Seq<Node>, b: Seq<Node>, k: int, w: World)
    requires
        0 <= k,
    ensures
        run_list(a + b, a.len() + k, w) == run_list(b, k, w),
    decreases b.len() - k,
{
    if k < b.len() {
        assert((a + b)[a.len() + k] == b[k]);
        match run_stmt(b[k], w) {
            Some(w1) => {
                lemma_run_list_behind(a, b, k + 1, w1);
            },
            None => {},
        }
    }
}

/// Running two lists one behind the other is running the first and then,
/// in the state that it ends in, the second.
pub proof fn lemma_run_list_concat(a: Seq<Node>, b: Seq<Node>, from: int, w: World)
    requires
        0 <= from <= a.len(),
    ensures
        run_list(a + b, from, w) == match run_list(a, from, w) {
            Some(w1) => run_list(b, 0, w1),
            None => None,
        },
    decreases a.len() - from,
{
    if from < a.len() {
        assert((a + b)[from] == a[from]);
        match run_stmt(a[from], w) {
            Some(w1) => {
                lemma_run_list_concat(a, b, from + 1, w1);
            },
            None => {},
        }
    } else {
        lemma_run_list_behind(a, b, 0, w);
    }
}

/// Whether every statement of the list is an assignment to a variable.
pub open spec fn only_assignments(stmts: Seq<Node>) -> bool {
    forall|i: int|
        0 <= i < stmts.len() ==> (#[trigger] stmts[i] matches Node::Assign(target, _) && *target is Ident)
}

/// The print statements that print the variables of the given names, in
/// order.
pub open spec fn prints_of(names: Seq<Seq<char>>) -> Seq<Node> {
    Seq::new(names.len(), |j: int| Node::Print(Box::new(Node::Ident(names[j], Kind::Ident))))
}

/// What printing the variables of the given names from index `from` on
/// prints, where they hold what `env` says.
pub open spec fn shown_all(env: Map<Seq<char>, Held>, names: Seq<Seq<char>>, from: int) -> Seq<
    Output,
>
    decreases names.len() - from,
{
    if from < 0 || from >= names.len() {
        Seq::empty()
    } else {
        shown(env[names[from]]) + shown_all(env, names, from + 1)
    }
}

/// Assignments print nothing.
pub proof fn lemma_assignments_print_nothing(stmts: Seq<Node>, from: int, w: World)
    requires
        only_assignments(stmts),
        0 <= from,
        run_list(stmts, from, w) is Some,
    ensures
        run_list(stmts, from, w).unwrap().out == w.out,
    decreases stmts.len() - from,
{
    if from < stmts.len() {
        let w1 = run_stmt(stmts[from], w).unwrap();
        assert(stmts[from] is Assign);
        lemma_assignments_print_nothing(stmts, from + 1, w1);
    }
}

/// Prints of variables print what the variables hold, in order, and change
/// no variable.
pub proof fn lemma_prints_show(names: Seq<Seq<char>>, from: int, w: World)
    requires
        0 <= from,
        forall|j: int| 0 <= j < names.len() ==> w.env.dom().contains(#[trigger] names[j]),
    ensures
        run_list(prints_of(names), from, w) is Some,
        from < names.len() ==> run_list(prints_of(names), from, w).unwrap().env == w.env,
        run_list(prints_of(names), from, w).unwrap().out == w.out + shown_all(w.env, names, from),
    decreases names.len() - from,
{
    if from < names.len() {
        let node = prints_of(names)[from];
        assert(w.env.dom().contains(names[from]));
        assert(printed(Node::Ident(names[from], Kind::Ident), w.env) == Some(
            shown(w.env[names[from]]),
        ));
        let w1 = run_stmt(node, w).unwrap();
        assert(w1.env == w.env);
        lemma_prints_show(names, from + 1, w1);
        assert(w.out + shown(w.env[names[from]]) + shown_all(w.env, names, from + 1) =~= w.out
            + shown_all(w.env, names, from));
    } else {
        assert(w.out + Seq::<Output>::empty() =~= w.out);
    }
}

/// A program of assignments followed by prints of assigned variables
/// prints the assigned values in the order of the prints. Where the
/// assignments leave the variables holding what `env` says, every printed
/// variable among them, the program means, and the program that it is
/// lowered to prints when it runs, what the variables hold: one after the
/// other as the prints name them.
pub proof fn lemma_assigned_values_are_printed(assigns: Seq<Node>, names: Seq<Seq<char>>)
    requires
        only_assignments(assigns),
        run_list(assigns, 0, start_world()) is Some,
        forall|j: int|
            0 <= j < names.len() ==> run_list(assigns, 0, start_world()).unwrap().env.dom().contains(
                #[trigger] names[j],
            ),
    ensures
        meaning(assigns + prints_of(names)) == Some(
            shown_all(run_list(assigns, 0, start_world()).unwrap().env, names, 0),
        ),
        lower_spec(assigns + prints_of(names)) is Ok && lower_spec(
            assigns + prints_of(names),
        ).unwrap().fits() ==> lower_spec(assigns + prints_of(names)).unwrap().run() == Some(
            shown_all(run_list(assigns, 0, start_world()).unwrap().env, names, 0),
        ),
{
    let w = run_list(assigns, 0, start_world()).unwrap();
    let program = assigns + prints_of(names);
    lemma_assignments_print_nothing(assigns, 0, start_world());
    lemma_run_list_concat(assigns, prints_of(names), 0, start_world());
    lemma_prints_show(names, 0, w);
    assert(w.out + shown_all(w.env, names, 0) =~= shown_all(w.env, names, 0));
    if lower_spec(program) is Ok && lower_spec(program).unwrap().fits() {
        lemma_lowered_program_means_the_same(program);
    }
}

/// Whether a chain is given as it should: one body for each condition, at
/// least one condition.
pub open spec fn is_chain(conds: Seq<Node>, bodies: Seq<Seq<Node>>) -> bool {
    conds.len() >= 1 && bodies.len() == conds.len()
}

/// The statements of a chain of branches: an `if` with the first condition
/// and body, an `else if` for each further condition, and the `else` with
/// the last body, where there is one.
pub open spec fn chain_of(conds: Seq<Node>, bodies: Seq<Seq<Node>>, last: Option<Seq<Node>>) -> Seq<
    Node,
> {
    Seq::new(
        if last is Some {
            conds.len() + 1
        } else {
            conds.len()
        },
        |i: int|
            if i == 0 {
                Node::If(Box::new(conds[0]), bodies[0])
            } else if i < conds.len() {
                Node::ElseIf(Box::new(conds[i]), bodies[i])
            } else {
                Node::Else(last.unwrap())
            },
    )
}

/// The index of the first condition from `from` on that is not zero, or
/// the number of conditions where all are zero; none where a condition
/// before that has no value.
pub open spec fn first_taken(conds: Seq<Node>, env: Map<Seq<char>, Held>, from: int) -> Option<int>
    decreases conds.len() - from,
{
    if from < 0 || from >= conds.len() {
        Some(conds.len() as int)
    } else {
        match value_in(conds[from], env) {
            None => None,
            Some(v) => if v != 0 {
                Some(from)
            } else {
                first_taken(conds, env, from + 1)
            },
        }
    }
}

/// The state after the one body of a chain that runs.
pub open spec fn after_body(body: Seq<Node>, w: World) -> Option<World> {
    match run_list(body, 0, w.with_closed(false)) {
        Some(w1) => Some(w1.with_closed(true)),
        None => None,
    }
}

/// The state after a chain, from branch `from` on, of which no branch
/// before has run: the body of the first branch whose condition is not
/// zero runs; where there is none the body of the `else` runs, if there is
/// one; and nothing else happens.
pub open spec fn chain_outcome(
    conds: Seq<Node>,
    bodies: Seq<Seq<Node>>,
    last: Option<Seq<Node>>,
    w: World,
    from: int,
) -> Option<World> {
    match first_taken(conds, w.env, from) {
        None => None,
        Some(k) => if k < conds.len() {
            after_body(bodies[k], w)
        } else {
            match last {
                Some(body) => after_body(body, w),
                None => Some(w.with_closed(false)),
            }
        },
    }
}

/// Once a chain is closed, the branches that follow do nothing.
pub proof fn lemma_closed_chain_is_passed(
    conds: Seq<Node>,
    bodies: Seq<Seq<Node>>,
    last: Option<Seq<Node>>,
    from: int,
    w: World,
)
    requires
        is_chain(conds, bodies),
        1 <= from,
        w.closed,
    ensures
        run_list(chain_of(conds, bodies, last), from, w) == Some(w),
    decreases chain_of(conds, bodies, last).len() - from,
{
    let chain = chain_of(conds, bodies, last);
    if from < chain.len() {
        assert(run_stmt(chain[from], w) == Some(w));
        lemma_closed_chain_is_passed(conds, bodies, last, from + 1, w);
    }
}

/// An open chain from branch `from` on runs the body of its first branch
/// whose condition is not zero, or that of its `else`.
pub proof fn lemma_open_chain(
    conds: Seq<Node>,
    bodies: Seq<Seq<Node>>,
    last: Option<Seq<Node>>,
    from: int,
    w: World,
)
    requires
        is_chain(conds, bodies),
        1 <= from <= conds.len(),
        !w.closed,
    ensures
        run_list(chain_of(conds, bodies, last), from, w) == chain_outcome(
            conds,
            bodies,
            last,
            w,
            from,
        ),
    decreases conds.len() - from,
{
    let chain = chain_of(conds, bodies, last);
    assert(w.with_closed(false) == w);
    if from < conds.len() {
        assert(chain[from] == Node::ElseIf(Box::new(conds[from]), bodies[from]));
        assert(run_stmt(chain[from], w) == run_branch(conds[from], bodies[from], w));
        match value_in(conds[from], w.env) {
            None => {},
            Some(v) => {
                if v != 0 {
                    match run_list(bodies[from], 0, w) {
                        Some(w1) => {
                            lemma_closed_chain_is_passed(
                                conds,
                                bodies,
                                last,
                                from + 1,
                                w1.with_closed(true),
                            );
                        },
                        None => {},
                    }
                } else {
                    lemma_open_chain(conds, bodies, last, from + 1, w);
                }
            },
        }
    } else {
        match last {
            Some(body) => {
                assert(chain[from] == Node::Else(body));
                match run_list(body, 0, w) {
                    Some(w1) => {
                        assert(run_list(chain, from + 1, w1.with_closed(true)) == Some(
                            w1.with_closed(true),
                        ));
                    },
                    None => {},
                }
            },
            None => {},
        }
    }
}

/// Of a chain of branches exactly one body runs, or none. In any state,
/// the chain `if`, `else if`, ..., `else` runs the body of the first branch
/// whose condition is not zero; where all conditions are zero it runs the
/// body of the `else`, if the chain has one, and else nothing. Nothing but
/// that one body changes the state, and the chain is left the same way
/// whichever body ran: what follows the chain runs in the state that the
/// body leaves.
pub proof fn lemma_chain_runs_one_body(
    conds: Seq<Node>,
    bodies: Seq<Seq<Node>>,
    last: Option<Seq<Node>>,
    behind: Seq<Node>,
    w: World,
)
    requires
        is_chain(conds, bodies),
    ensures
        run_list(chain_of(conds, bodies, last), 0, w) == chain_outcome(conds, bodies, last, w, 0),
        run_list(chain_of(conds, bodies, last) + behind, 0, w) == match chain_outcome(
            conds,
            bodies,
            last,
            w,
            0,
        ) {
            Some(w1) => run_list(behind, 0, w1),
            None => None,
        },
{
    let chain = chain_of(conds, bodies, last);
    let w0 = w.with_closed(false);
    assert(chain[0] == Node::If(Box::new(conds[0]), bodies[0]));
    assert(run_stmt(chain[0], w) == run_branch(conds[0], bodies[0], w0));
    lemma_run_list_step(chain, 0, w);
    match value_in(conds[0], w.env) {
        None => {},
        Some(v) => {
            if v != 0 {
                match run_list(bodies[0], 0, w0) {
                    Some(w1) => {
                        lemma_closed_chain_is_passed(conds, bodies, last, 1, w1.with_closed(true));
                    },
                    None => {},
                }
            } else {
                lemma_open_chain(conds, bodies, last, 1, w0);
            }
        },
    }
    lemma_run_list_concat(chain, behind, 0, w);
}

/// The assignments of the integers `values` to the variables `names`, one
/// for one and in order.
pub open spec fn int_assignments(names: Seq<Seq<char>>, values: Seq<i32>) -> Seq<Node> {
    Seq::new(
        names.len(),
        |i: int|
            Node::Assign(
                Box::new(Node::Ident(names[i], Kind::Int)),
                Box::new(Node::Int(values[i])),
            ),
    )
}

/// The names of the variables that `picks` names by their indices.
pub open spec fn picked(names: Seq<Seq<char>>, picks: Seq<int>) -> Seq<Seq<char>> {
    Seq::new(picks.len(), |k: int| names[picks[k]])
}

/// The integers that `picks` names by their indices, each as it is printed.
pub open spec fn picked_values(values: Seq<i32>, picks: Seq<int>) -> Seq<Output> {
    Seq::new(picks.len(), |k: int| Output::Int(values[picks[k]]))
}

/// Whether no name occurs twice.
pub open spec fn distinct(names: Seq<Seq<char>>) -> bool {
    forall|i: int, j: int| 0 <= i < j < names.len() ==> #[trigger] names[i] != #[trigger] names[j]
}

/// Whether every pick names one of `n` variables.
pub open spec fn picks_within(picks: Seq<int>, n: int) -> bool {
    forall|k: int| 0 <= k < picks.len() ==> 0 <= #[trigger] picks[k] < n
}

/// Whether the first `upto` of the variables hold the integers assigned to
/// them.
pub open spec fn holds_first(
    env: Map<Seq<char>, Held>,
    names: Seq<Seq<char>>,
    values: Seq<i32>,
    upto: int,
) -> bool {
    forall|i: int|
        0 <= i < upto ==> env.dom().contains(#[trigger] names[i]) && env[names[i]] == Held::Int(
            values[i],
        )
}

/// Assignments of integers to distinct variables leave each variable
/// holding its integer, and print nothing.
pub proof fn lemma_int_assignments_run(
    names: Seq<Seq<char>>,
    values: Seq<i32>,
    from: int,
    w: World,
)
    requires
        names.len() == values.len(),
        distinct(names),
        0 <= from <= names.len(),
        holds_first(w.env, names, values, from),
    ensures
        run_list(int_assignments(names, values), from, w) is Some,
        holds_first(
            run_list(int_assignments(names, values), from, w).unwrap().env,
            names,
            values,
            names.len() as int,
        ),
        run_list(int_assignments(names, values), from, w).unwrap().out == w.out,
    decreases names.len() - from,
{
    let stmts = int_assignments(names, values);
    if from < names.len() {
        let w1 = World {
            env: w.env.insert(names[from], Held::Int(values[from])),
            out: w.out,
            closed: false,
        };
        assert(run_stmt(stmts[from], w) == Some(w1));
        assert forall|i: int| 0 <= i < from + 1 implies w1.env.dom().contains(#[trigger] names[i])
            && w1.env[names[i]] == Held::Int(values[i]) by {
            if i < from {
                assert(names[i] != names[from]);
            }
        }
        lemma_int_assignments_run(names, values, from + 1, w1);
    }
}

/// What the picked variables show is the picked integers.
pub proof fn lemma_shown_picked(
    env: Map<Seq<char>, Held>,
    names: Seq<Seq<char>>,
    values: Seq<i32>,
    picks: Seq<int>,
    from: int,
)
    requires
        names.len() == values.len(),
        picks_within(picks, names.len() as int),
        holds_first(env, names, values, names.len() as int),
        0 <= from <= picks.len(),
    ensures
        shown_all(env, picked(names, picks), from) == picked_values(values, picks).skip(from),
    decreases picks.len() - from,
{
    let all = picked_values(values, picks);
    if from < picks.len() {
        lemma_shown_picked(env, names, values, picks, from + 1);
        let i = picks[from];
        assert(env[names[i]] == Held::Int(values[i]));
        assert(picked(names, picks)[from] == names[i]);
        assert(shown(Held::Int(values[i])) + all.skip(from + 1) =~= all.skip(from));
    } else {
        assert(all.skip(from) =~= Seq::<Output>::empty());
    }
}

/// Whether every variable of the table is an integer, and the first `upto`
/// of the names are in it.
pub open spec fn table_holds_first(s: LowerState, names: Seq<Seq<char>>, upto: int) -> bool {
    &&& forall|name: Seq<char>| #[trigger] s.vars.contains_key(name) ==> s.vars[name].kind == Kind::Int
    &&& forall|i: int| 0 <= i < upto ==> s.vars.contains_key(#[trigger] names[i])
}

/// Assignments of integers followed by prints of assigned variables can
/// always be lowered.
pub proof fn lemma_int_assignments_lower(
    names: Seq<Seq<char>>,
    values: Seq<i32>,
    picks: Seq<int>,
    from: int,
    s: LowerState,
)
    requires
        names.len() == values.len(),
        picks_within(picks, names.len() as int),
        0 <= from <= names.len() + picks.len(),
        table_holds_first(
            s,
            names,
            if from < names.len() {
                from
            } else {
                names.len() as int
            },
        ),
    ensures
        lower_list_spec(
            s,
            int_assignments(names, values) + prints_of(picked(names, picks)),
            from,
            Seq::empty(),
        ) is Ok,
    decreases names.len() + picks.len() - from,
{
    let program = int_assignments(names, values) + prints_of(picked(names, picks));
    let none = Seq::<usize>::empty();
    let n = names.len() as int;
    assert(flush_spec(s, none) == s);
    if from < n {
        let name = names[from];
        assert(program[from] == int_assignments(names, values)[from]);
        let s1 = lower_value_spec(s, Node::Int(values[from])).unwrap();
        assert(lower_assigned_spec(s, Node::Int(values[from])) == Ok::<
            (LowerState, Kind),
            CodegenError,
        >((s1, Kind::Int)));
        assert(s1.vars == s.vars);
        assert(lower_assign_spec(
            s,
            Node::Ident(name, Kind::Int),
            Node::Int(values[from]),
        ) is Ok);
        let s2 = lower_assign_spec(s, Node::Ident(name, Kind::Int), Node::Int(values[from])).unwrap();
        assert(lower_stmt_spec(s, none, program[from]) == Ok::<
            (LowerState, Seq<usize>),
            CodegenError,
        >((s2, none)));
        assert(s2.vars.contains_key(name));
        assert forall|other: Seq<char>| #[trigger] s2.vars.contains_key(other) implies s2.vars[other].kind
            == Kind::Int by {
            if other != name {
                assert(s.vars.contains_key(other));
            }
        }
        assert forall|i: int| 0 <= i < from + 1 implies s2.vars.contains_key(#[trigger] names[i]) by {
            if i < from {
                assert(s.vars.contains_key(names[i]));
            }
        }
        lemma_int_assignments_lower(names, values, picks, from + 1, s2);
    } else if from < n + picks.len() {
        let k = from - n;
        let name = names[picks[k]];
        assert(program[from] == prints_of(picked(names, picks))[k]);
        assert(picked(names, picks)[k] == name);
        assert(s.vars.contains_key(names[picks[k]]));
        assert(find_var(s.vars, name) is Some);
        let s2 = lower_print_spec(s, Node::Ident(name, Kind::Ident)).unwrap();
        assert(lower_stmt_spec(s, none, program[from]) == Ok::<
            (LowerState, Seq<usize>),
            CodegenError,
        >((s2, none)));
        assert(s2.vars == s.vars);
        lemma_int_assignments_lower(names, values, picks, from + 1, s2);
    }
}

/// A program of assignments of integers to distinct variables, followed by
/// prints of some of those variables, prints the assigned integers in the
/// order of the prints. The program always means that and can always be
/// lowered, and the program that it is lowered to prints exactly that when
/// it runs: for each print, in order, the integer assigned to its variable.
pub proof fn lemma_assigned_integers_are_printed(
    names: Seq<Seq<char>>,
    values: Seq<i32>,
    picks: Seq<int>,
)
    requires
        names.len() == values.len(),
        distinct(names),
        picks_within(picks, names.len() as int),
    ensures
        meaning(int_assignments(names, values) + prints_of(picked(names, picks))) == Some(
            picked_values(values, picks),
        ),
        lower_spec(int_assignments(names, values) + prints_of(picked(names, picks))) is Ok,
        lower_spec(
            int_assignments(names, values) + prints_of(picked(names, picks)),
        ).unwrap().fits() ==> lower_spec(
            int_assignments(names, values) + prints_of(picked(names, picks)),
        ).unwrap().run() == Some(picked_values(values, picks)),
{
    let assigns = int_assignments(names, values);
    let printed_names = picked(names, picks);
    let program = assigns + prints_of(printed_names);
    lemma_int_assignments_run(names, values, 0, start_world());
    let w = run_list(assigns, 0, start_world()).unwrap();
    assert(only_assignments(assigns));
    assert forall|j: int| 0 <= j < printed_names.len() implies w.env.dom().contains(
        #[trigger] printed_names[j],
    ) by {
        assert(w.env.dom().contains(names[picks[j]]));
    }
    lemma_assigned_values_are_printed(assigns, printed_names);
    lemma_shown_picked(w.env, names, values, picks, 0);
    assert(picked_values(values, picks).skip(0) =~= picked_values(values, picks));
    lemma_int_assignments_lower(names, values, picks, 0, initial_state());
}

/// Of a chain of branches in a program exactly one body runs, or none,
/// when the lowered program runs. Where statements `before` a chain leave
/// the state `w`, the chain runs in `w` the one body that its conditions
/// choose, and the statements `behind` it run in the state that the body
/// leaves, the program that the whole is lowered to prints exactly what
/// those steps print: what was printed before the chain, what the chosen
/// body prints, and what the statements behind the chain print, whichever
/// body ran.
pub proof fn lemma_lowered_chain_runs_one_body(
    before: Seq<Node>,
    conds: Seq<Node>,
    bodies: Seq<Seq<Node>>,
    last: Option<Seq<Node>>,
    behind: Seq<Node>,
)
    requires
        is_chain(conds, bodies),
        lower_spec(before + (chain_of(conds, bodies, last) + behind)) is Ok,
        lower_spec(before + (chain_of(conds, bodies, last) + behind)).unwrap().fits(),
        run_list(before, 0, start_world()) is Some,
        chain_outcome(conds, bodies, last, run_list(before, 0, start_world()).unwrap(), 0) is Some,
        run_list(
            behind,
            0,
            chain_outcome(
                conds,
                bodies,
                last,
                run_list(before, 0, start_world()).unwrap(),
                0,
            ).unwrap(),
        ) is Some,
    ensures
        lower_spec(before + (chain_of(conds, bodies, last) + behind)).unwrap().run() == Some(
            run_list(
                behind,
                0,
                chain_outcome(
                    conds,
                    bodies,
                    last,
                    run_list(before, 0, start_world()).unwrap(),
                    0,
                ).unwrap(),
            ).unwrap().out,
        ),
{
    let chain = chain_of(conds, bodies, last);
    let program = before + (chain + behind);
    let w = run_list(before, 0, start_world()).unwrap();
    lemma_run_list_concat(before, chain + behind, 0, start_world());
    lemma_chain_runs_one_body(conds, bodies, last, behind, w);
    lemma_lowered_program_means_the_same(program);
}

} // verus!
