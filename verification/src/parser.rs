//! Tree builder: turns a balanced token range into the nested instruction
//! tree. Its contract is a round trip: rendering the tree back to tokens
//! reproduces the input range exactly.

use vstd::prelude::*;

use crate::syntax::balanced;
use crate::syntax::delta;
use crate::syntax::depth;
use crate::syntax::lemma_depth_add;
use crate::syntax::lemma_depth_snoc;
use crate::token::Command;
use crate::token::Token;

verus! {

broadcast use vstd::seq::group_seq_axioms, vstd::std_specs::vec::group_vec_axioms;

/// The token spelling of one instruction: a loop renders as its body
/// between one loop-start and one loop-end token.
pub open spec fn render_cmd(c: Command) -> Seq<Token>
    decreases c,
{
    match c {
        Command::Right => seq![Token::Right],
        Command::Left => seq![Token::Left],
        Command::Inc => seq![Token::Inc],
        Command::Dec => seq![Token::Dec],
        Command::Out => seq![Token::Out],
        Command::In => seq![Token::In],
        Command::Loop { commands } => seq![Token::Begin] + render_cmds(commands@) + seq![
            Token::End,
        ],
    }
}

/// The token spelling of an instruction sequence, in order.
pub open spec fn render_cmds(cmds: Seq<Command>) -> Seq<Token>
    decreases cmds,
{
    if cmds.len() == 0 {
        Seq::empty()
    } else {
        render_cmd(cmds[0]) + render_cmds(cmds.drop_first())
    }
}

/// Rendering one more instruction appends its spelling.
pub proof fn lemma_render_cmds_snoc(cmds: Seq<Command>, c: Command)
    ensures
        render_cmds(cmds.push(c)) == render_cmds(cmds) + render_cmd(c),
    decreases cmds.len(),
{
    let s1 = cmds.push(c);
    if cmds.len() == 0 {
        assert(s1.len() == 1 && s1[0] == c);
        assert(s1.drop_first() =~= Seq::<Command>::empty());
        assert(render_cmds(s1.drop_first()) =~= Seq::<Token>::empty());
        assert(render_cmds(s1) == render_cmd(c) + render_cmds(s1.drop_first()));
        assert(render_cmds(cmds) =~= Seq::<Token>::empty());
        assert(render_cmds(s1) =~= render_cmds(cmds) + render_cmd(c));
    } else {
        assert(s1.len() == cmds.len() + 1 && s1[0] == cmds[0]);
        assert(s1.drop_first() =~= cmds.drop_first().push(c));
        lemma_render_cmds_snoc(cmds.drop_first(), c);
        assert(render_cmds(s1) == render_cmd(cmds[0]) + render_cmds(s1.drop_first()));
        assert(render_cmds(cmds) == render_cmd(cmds[0]) + render_cmds(cmds.drop_first()));
        assert(render_cmds(s1) =~= render_cmds(cmds) + render_cmd(c));
    }
}

/// How many instructions a token sequence spells at nesting depth zero,
/// starting from `d` open loops: every token seen outside a loop counts
/// one, except a loop-end; a loop-start outside a loop counts the whole
/// loop it opens, whose remaining tokens are then nested and count
/// nothing.
pub open spec fn top_count(toks: Seq<Token>, d: int) -> nat
    decreases toks.len(),
{
    if toks.len() == 0 {
        0
    } else {
        let here: nat = if d == 0 && toks[0] != Token::End {
            1
        } else {
            0
        };
        here + top_count(toks.drop_first(), d + delta(toks[0]))
    }
}

/// The spelling of one instruction opens exactly as many loops as it
/// closes, and never closes one it did not open.
pub proof fn lemma_render_cmd_balanced(c: Command)
    ensures
        depth(render_cmd(c)) == 0,
        forall|k: int|
            0 <= k <= render_cmd(c).len() ==> depth(
                #[trigger] render_cmd(c).subrange(0, k),
            ) >= 0,
    decreases c,
{
    match c {
        Command::Loop { commands } => {
            let inner = render_cmds(commands@);
            let rc = render_cmd(c);
            lemma_render_cmds_balanced(commands@);
            assert(seq![Token::Begin].drop_first() =~= Seq::<Token>::empty());
            assert(depth(seq![Token::Begin].drop_first()) == 0);
            assert(depth(seq![Token::Begin]) == 1);
            assert(seq![Token::End].drop_first() =~= Seq::<Token>::empty());
            assert(depth(seq![Token::End].drop_first()) == 0);
            assert(depth(seq![Token::End]) == -1);
            lemma_depth_add(seq![Token::Begin], inner);
            lemma_depth_add(seq![Token::Begin] + inner, seq![Token::End]);
            assert(rc == seq![Token::Begin] + inner + seq![Token::End]);
            assert(depth(rc) == 0);
            assert forall|k: int| 0 <= k <= rc.len() implies depth(
                #[trigger] rc.subrange(0, k),
            ) >= 0 by {
                if k == 0 {
                    assert(rc.subrange(0, 0) =~= Seq::<Token>::empty());
                } else if k <= 1 + inner.len() {
                    assert(rc.subrange(0, k) =~= seq![Token::Begin] + inner.subrange(0, k - 1));
                    lemma_depth_add(seq![Token::Begin], inner.subrange(0, k - 1));
                    assert(depth(inner.subrange(0, k - 1)) >= 0);
                } else {
                    assert(rc.subrange(0, k) =~= rc);
                }
            }
        },
        _ => {
            let rc = render_cmd(c);
            assert(rc.len() == 1 && delta(rc[0]) == 0);
            assert(rc.drop_first() =~= Seq::<Token>::empty());
            assert(depth(rc.drop_first()) == 0);
            assert(depth(rc) == 0);
            assert forall|k: int| 0 <= k <= rc.len() implies depth(
                #[trigger] rc.subrange(0, k),
            ) >= 0 by {
                if k == 0 {
                    assert(rc.subrange(0, 0) =~= Seq::<Token>::empty());
                } else {
                    assert(rc.subrange(0, k) =~= rc);
                }
            }
        },
    }
}

/// Law: the spelling of any instruction sequence is a balanced token
/// sequence — what the parser accepts is exactly what trees spell.
pub proof fn lemma_render_cmds_balanced(cmds: Seq<Command>)
    ensures
        depth(render_cmds(cmds)) == 0,
        forall|k: int|
            0 <= k <= render_cmds(cmds).len() ==> depth(
                #[trigger] render_cmds(cmds).subrange(0, k),
            ) >= 0,
        balanced(render_cmds(cmds)),
    decreases cmds,
{
    if cmds.len() == 0 {
        assert(render_cmds(cmds) == Seq::<Token>::empty());
        assert forall|k: int| 0 <= k <= render_cmds(cmds).len() implies depth(
            #[trigger] render_cmds(cmds).subrange(0, k),
        ) >= 0 by {
            assert(render_cmds(cmds).subrange(0, k) =~= Seq::<Token>::empty());
        }
    } else {
        let rc = render_cmd(cmds[0]);
        let rest = render_cmds(cmds.drop_first());
        lemma_render_cmd_balanced(cmds[0]);
        lemma_render_cmds_balanced(cmds.drop_first());
        assert(render_cmds(cmds) == rc + rest);
        lemma_depth_add(rc, rest);
        assert forall|k: int| 0 <= k <= render_cmds(cmds).len() implies depth(
            #[trigger] render_cmds(cmds).subrange(0, k),
        ) >= 0 by {
            if k <= rc.len() {
                assert(render_cmds(cmds).subrange(0, k) =~= rc.subrange(0, k));
                assert(depth(rc.subrange(0, k)) >= 0);
            } else {
                assert(render_cmds(cmds).subrange(0, k) =~= rc + rest.subrange(0, k - rc.len()));
                lemma_depth_add(rc, rest.subrange(0, k - rc.len()));
                assert(depth(rest.subrange(0, k - rc.len())) >= 0);
            }
        }
    }
}

/// Walking a segment whose prefixes never close the enclosing loop
/// contributes nothing to the count at depth zero.
proof fn lemma_top_count_shift(toks: Seq<Token>, rest: Seq<Token>, d: int)
    requires
        d >= 1,
        forall|k: int| 0 <= k <= toks.len() ==> d + depth(#[trigger] toks.subrange(0, k)) >= 1,
    ensures
        top_count(toks + rest, d) == top_count(rest, d + depth(toks)),
    decreases toks.len(),
{
    if toks.len() == 0 {
        assert(toks + rest =~= rest);
    } else {
        let t = toks[0];
        let dr = toks.drop_first();
        assert((toks + rest).len() > 0 && (toks + rest)[0] == t);
        assert((toks + rest).drop_first() =~= dr + rest);
        assert(toks.subrange(0, 1).drop_first() =~= Seq::<Token>::empty());
        assert(depth(toks.subrange(0, 1).drop_first()) == 0);
        assert(toks.subrange(0, 1)[0] == t);
        assert(depth(toks.subrange(0, 1)) == delta(t));
        assert(d + delta(t) >= 1);
        assert forall|k: int| 0 <= k <= dr.len() implies (d + delta(t)) + depth(
            #[trigger] dr.subrange(0, k),
        ) >= 1 by {
            assert(toks.subrange(0, k + 1) =~= toks.subrange(0, 1) + dr.subrange(0, k));
            lemma_depth_add(toks.subrange(0, 1), dr.subrange(0, k));
            assert(d + depth(toks.subrange(0, k + 1)) >= 1);
        }
        lemma_top_count_shift(dr, rest, d + delta(t));
        assert(depth(toks) == delta(t) + depth(dr));
        assert(top_count(toks + rest, d) == top_count(dr + rest, d + delta(t)));
    }
}

/// Law: a token sequence spelling an instruction sequence has exactly one
/// top-level instruction per non-nested token group — so the parser's
/// output length equals the number of instructions the input spells at
/// depth zero, and, applied to any loop body, the body's length equals
/// the count strictly between its bracket pair.
pub proof fn lemma_render_count(cmds: Seq<Command>)
    ensures
        top_count(render_cmds(cmds), 0) == cmds.len(),
    decreases cmds.len(),
{
    if cmds.len() == 0 {
        assert(top_count(render_cmds(cmds), 0) == 0);
    } else {
        let c = cmds[0];
        let rest = render_cmds(cmds.drop_first());
        lemma_render_count(cmds.drop_first());
        match c {
            Command::Loop { commands } => {
                let inner = render_cmds(commands@);
                let whole = render_cmds(cmds);
                assert(render_cmd(c) == seq![Token::Begin] + inner + seq![Token::End]);
                assert(whole == (seq![Token::Begin] + inner + seq![Token::End]) + rest);
                assert(whole =~= seq![Token::Begin] + (inner + (seq![Token::End] + rest)));
                assert(whole.len() > 0 && whole[0] == Token::Begin);
                assert(whole.drop_first() =~= inner + (seq![Token::End] + rest));
                assert(top_count(whole, 0) == 1 + top_count(inner + (seq![Token::End] + rest), 1));
                lemma_render_cmds_balanced(commands@);
                lemma_top_count_shift(inner, seq![Token::End] + rest, 1);
                let er = seq![Token::End] + rest;
                assert(er.len() > 0 && er[0] == Token::End);
                assert(er.drop_first() =~= rest);
                assert(top_count(er, 1) == top_count(rest, 0));
            },
            _ => {
                let whole = render_cmds(cmds);
                let rc = render_cmd(c);
                assert(rc.len() == 1 && delta(rc[0]) == 0 && rc[0] != Token::End);
                assert(whole == rc + rest);
                assert(whole.len() > 0 && whole[0] == rc[0]);
                assert(whole.drop_first() =~= rest);
                assert(top_count(whole, 0) == 1 + top_count(rest, 0));
            },
        }
    }
}

/// Builds the instruction tree of the balanced token range `[from, to)`.
/// A loop-start opens a nested scan for its matching loop-end; the body
/// between them is parsed recursively. The tree renders back to exactly
/// the given range; a loop-end at the top level cannot occur in a
/// balanced range, so no instruction is ever produced for one.
pub fn parse(tokens: &[Token], from: usize, to: usize) -> (commands: Vec<Command>)
    requires
        from <= to <= tokens@.len(),
        balanced(tokens@.subrange(from as int, to as int)),
    ensures
        render_cmds(commands@) == tokens@.subrange(from as int, to as int),
    decreases to - from,
{
    let ghost whole = tokens@.subrange(from as int, to as int);
    let mut commands: Vec<Command> = Vec::new();

    let mut i = from;
    while i != to
        invariant
            from <= i <= to <= tokens@.len(),
            whole == tokens@.subrange(from as int, to as int),
            balanced(whole),
            depth(tokens@.subrange(from as int, i as int)) == 0,
            render_cmds(commands@) == tokens@.subrange(from as int, i as int),
        decreases to - i,
    {
        let ghost done = tokens@.subrange(from as int, i as int);
        proof {
            assert(tokens@.subrange(from as int, i + 1 as int) =~= done.push(tokens@[i as int]));
            lemma_depth_snoc(done, tokens@[i as int]);
        }
        let token = &tokens[i];
        match token {
            Token::Right => {
                proof {
                    lemma_render_cmds_snoc(commands@, Command::Right);
                }
                commands.push(Command::Right);
            },
            Token::Left => {
                proof {
                    lemma_render_cmds_snoc(commands@, Command::Left);
                }
                commands.push(Command::Left);
            },
            Token::Inc => {
                proof {
                    lemma_render_cmds_snoc(commands@, Command::Inc);
                }
                commands.push(Command::Inc);
            },
            Token::Dec => {
                proof {
                    lemma_render_cmds_snoc(commands@, Command::Dec);
                }
                commands.push(Command::Dec);
            },
            Token::Out => {
                proof {
                    lemma_render_cmds_snoc(commands@, Command::Out);
                }
                commands.push(Command::Out);
            },
            Token::In => {
                proof {
                    lemma_render_cmds_snoc(commands@, Command::In);
                }
                commands.push(Command::In);
            },
            Token::Begin => {
                let loop_from = i + 1;
                let mut counter: usize = 1;
                let mut j = i + 1;
                while counter != 0
                    invariant
                        from <= i < j <= to <= tokens@.len(),
                        whole == tokens@.subrange(from as int, to as int),
                        balanced(whole),
                        depth(tokens@.subrange(from as int, i as int)) == 0,
                        tokens@[i as int] == Token::Begin,
                        counter <= j - i,
                        counter as int == depth(tokens@.subrange(from as int, j as int)),
                        forall|k: int|
                            i < k < j ==> depth(
                                #[trigger] tokens@.subrange(from as int, k),
                            ) >= 1,
                        counter == 0 ==> j >= i + 2 && tokens@[j - 1 as int] == Token::End
                            && depth(tokens@.subrange(from as int, j - 1 as int)) == 1,
                    decreases to - j,
                {
                    proof {
                        if j == to {
                            assert(tokens@.subrange(from as int, j as int) == whole);
                        }
                        assert(tokens@.subrange(from as int, j + 1 as int) =~= tokens@.subrange(
                            from as int,
                            j as int,
                        ).push(tokens@[j as int]));
                        lemma_depth_snoc(tokens@.subrange(from as int, j as int), tokens@[j as int]);
                    }
                    if matches!(tokens[j], Token::End) {
                        counter = counter - 1;
                    } else if matches!(tokens[j], Token::Begin) {
                        counter = counter + 1;
                    }
                    j = j + 1;
                }
                let loop_to = j - 1;

                proof {
                    // The body between the brackets is itself balanced.
                    let body_toks = tokens@.subrange(loop_from as int, loop_to as int);
                    assert(tokens@.subrange(from as int, loop_from as int) =~= done.push(
                        Token::Begin,
                    ));
                    lemma_depth_snoc(done, Token::Begin);
                    assert(depth(tokens@.subrange(from as int, loop_from as int)) == 1);
                    assert(tokens@.subrange(from as int, loop_to as int) =~= tokens@.subrange(
                        from as int,
                        loop_from as int,
                    ) + body_toks);
                    lemma_depth_add(tokens@.subrange(from as int, loop_from as int), body_toks);
                    assert(depth(body_toks) == 0);
                    assert forall|k: int| 0 <= k <= body_toks.len() implies depth(
                        #[trigger] body_toks.subrange(0, k),
                    ) >= 0 by {
                        assert(tokens@.subrange(from as int, loop_from + k) =~= tokens@.subrange(
                            from as int,
                            loop_from as int,
                        ) + body_toks.subrange(0, k));
                        lemma_depth_add(
                            tokens@.subrange(from as int, loop_from as int),
                            body_toks.subrange(0, k),
                        );
                        if k < body_toks.len() {
                            assert(depth(tokens@.subrange(from as int, loop_from + k)) >= 1);
                        } else {
                            assert(loop_from + k == loop_to);
                        }
                    }
                    assert(balanced(body_toks));
                }

                let body = parse(tokens, loop_from, loop_to);

                proof {
                    lemma_render_cmds_snoc(commands@, Command::Loop { commands: body });
                    assert(render_cmd(Command::Loop { commands: body }) == seq![Token::Begin]
                        + render_cmds(body@) + seq![Token::End]);
                    assert(render_cmds(commands@) + (seq![Token::Begin] + tokens@.subrange(
                        loop_from as int,
                        loop_to as int,
                    ) + seq![Token::End]) =~= tokens@.subrange(from as int, j as int));
                }
                commands.push(Command::Loop { commands: body });
                i = loop_to;
            },
            Token::End => {
                proof {
                    // A loop-end here would close a loop that was never
                    // opened, which balance of the whole range rules out.
                    assert(whole.subrange(0, i + 1 - from) =~= tokens@.subrange(
                        from as int,
                        i + 1 as int,
                    ));
                    assert(depth(whole.subrange(0, i + 1 - from)) < 0);
                    assert(false);
                }
            },
        }
        i = i + 1;
    }
    proof {
        assert(tokens@.subrange(from as int, to as int) =~= tokens@.subrange(from as int, i as int));
    }
    commands
}

} // verus!
