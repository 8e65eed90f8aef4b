//! What the lines mean that are typed into the shell.

use vstd::prelude::*;
use super::exec::{run_waited, PipelineRun, RunAction};
use super::parse::{line_stages, operator, pipeline_tokens, runnable, skip_spaces, space, token_at, tokens, word_end, written_stages_parse_back, ParseError, StageView, Token};

verus! {

/// A byte that can be part of a word: no blank and none of `|`, `<` and `>`.
pub open spec fn plain(b: u8) -> bool {
    b != 0x20 && b != 0x09 && b != 0x0d && b != 0x7c && b != 0x3c && b != 0x3e
}

/// A word that can be typed as it is.
pub open spec fn plain_word(w: Seq<u8>) -> bool {
    w.len() > 0 && forall|i: int| 0 <= i < w.len() ==> plain(#[trigger] w[i])
}

/// How a token is typed.
pub open spec fn typed_token(t: Token) -> Seq<u8> {
    match t {
        Token::Word(w) => w,
        Token::Pipe => seq![0x7cu8],
        Token::Less => seq![0x3cu8],
        Token::Great => seq![0x3eu8],
        Token::GreatGreat => seq![0x3eu8, 0x3e],
    }
}

/// How tokens are typed: with a blank after each.
pub open spec fn typed_tokens(t: Seq<Token>) -> Seq<u8>
    decreases t.len(),
{
    if t.len() == 0 {
        Seq::empty()
    } else {
        typed_token(t[0]).push(0x20) + typed_tokens(t.skip(1))
    }
}

/// Every word can be typed as it is.
pub open spec fn plain_tokens(t: Seq<Token>) -> bool {
    forall|i: int| 0 <= i < t.len() ==> (#[trigger] t[i] matches Token::Word(w) ==> plain_word(w))
}

proof fn lemma_word_end(b: Seq<u8>, i: int, e: int)
    requires
        0 <= i <= e < b.len(),
        forall|k: int| i <= k < e ==> plain(#[trigger] b[k]),
        b[e] == 0x20,
    ensures
        word_end(b, i) == e,
    decreases e - i,
{
    if i < e {
        assert(plain(b[i]));
        lemma_word_end(b, i + 1, e);
    }
}

proof fn lemma_skips(b: Seq<u8>, i: int)
    requires
        0 <= i < b.len(),
        b[i] == 0x20,
    ensures
        skip_spaces(b, i) == skip_spaces(b, i + 1),
{
}

proof fn lemma_same_tokens(b: Seq<u8>, i: int, j: int)
    requires
        0 <= i <= b.len(),
        0 <= j <= b.len(),
        skip_spaces(b, i) == skip_spaces(b, j),
        skip_spaces(b, i) >= i,
        skip_spaces(b, j) >= j,
    ensures
        tokens(b, i) == tokens(b, j),
{
    let s = skip_spaces(b, i);
    lemma_skip_stops(b, i);
    if s < b.len() {
        assert(!space(b[s]));
        lemma_word_moves(b, s);
        let (t, n) = token_at(b, i)->Some_0;
        assert(token_at(b, j) == token_at(b, i));
        assert(i < n && j < n);
    }
}

proof fn lemma_word_moves(b: Seq<u8>, i: int)
    requires
        0 <= i <= b.len(),
    ensures
        i <= word_end(b, i) <= b.len(),
        i < b.len() && !space(b[i]) && !operator(b[i]) ==> i < word_end(b, i),
    decreases b.len() - i,
{
    if i < b.len() && !space(b[i]) && !operator(b[i]) {
        lemma_word_moves(b, i + 1);
    }
}

proof fn lemma_skip_stops(b: Seq<u8>, i: int)
    requires
        0 <= i <= b.len(),
    ensures
        i <= skip_spaces(b, i) <= b.len(),
        skip_spaces(b, i) < b.len() ==> !space(b[skip_spaces(b, i)]),
    decreases b.len() - i,
{
    if i < b.len() && space(b[i]) {
        lemma_skip_stops(b, i + 1);
    }
}

proof fn lemma_read_back(head: Seq<u8>, t: Seq<Token>)
    requires
        plain_tokens(t),
    ensures
        tokens(head + typed_tokens(t), head.len() as int) == t,
    decreases t.len(),
{
    let b = head + typed_tokens(t);
    let i = head.len() as int;
    if t.len() == 0 {
        assert(b =~= head);
        assert(tokens(b, i) =~= t);
    } else {
        let w = typed_token(t[0]);
        let e = i + w.len();
        let rest = typed_tokens(t.skip(1));
        let front = head + w.push(0x20);
        assert(b =~= front + rest);
        assert(b[e] == 0x20);
        assert forall|k: int| 0 <= k < t.skip(1).len() implies (#[trigger] t.skip(1)[k] matches Token::Word(
            v,
        ) ==> plain_word(v)) by {
            assert(t.skip(1)[k] == t[k + 1]);
        }
        lemma_read_back(front, t.skip(1));
        assert(front.len() == e + 1);
        assert(t[0] matches Token::Word(v) ==> plain_word(v));
        assert forall|k: int| 0 <= k < w.len() implies b[i + k] == #[trigger] w[k] by {}
        assert(w.len() > 0);
        assert(b[i] == w[0]);
        assert(skip_spaces(b, i) == i);
        if t[0] is Word {
            assert forall|k: int| i <= k < e implies plain(#[trigger] b[k]) by {
                assert(b[k] == w[k - i]);
            }
            lemma_word_end(b, i, e);
            assert(b.subrange(i, e) =~= w);
        }
        if t[0] is GreatGreat {
            assert(b[i + 1] == w[1]);
        }
        assert(token_at(b, i) == Some((t[0], e)));
        lemma_skips(b, e);
        lemma_skip_stops(b, e);
        lemma_skip_stops(b, e + 1);
        lemma_same_tokens(b, e, e + 1);
        assert(tokens(b, i) == seq![t[0]] + tokens(b, e));
        assert(seq![t[0]] + t.skip(1) =~= t);
    }
}

/// Tokens that are typed with blanks between them are read as these tokens: `|`, `<`,
/// `>` and `>>` stand for themselves, everything else is a word.
pub proof fn typed_tokens_are_read(t: Seq<Token>)
    requires
        plain_tokens(t),
    ensures
        tokens(typed_tokens(t), 0) == t,
{
    let none = Seq::<u8>::empty();
    assert(none + typed_tokens(t) =~= typed_tokens(t));
    lemma_read_back(none, t);
}

/// A pipeline that is typed is the pipeline that runs: its stages in order, each with
/// its words as arguments, reading from the file after `<`, and writing to the one
/// after `>` or, at its end, `>>`.
pub proof fn typed_pipeline_runs(stages: Seq<StageView>)
    requires
        1 <= stages.len() <= 8,
        forall|i: int| 0 <= i < stages.len() ==> runnable(#[trigger] stages[i]),
        plain_tokens(pipeline_tokens(stages)),
    ensures
        line_stages(typed_tokens(pipeline_tokens(stages))) == Ok::<Seq<StageView>, ParseError>(stages),
{
    typed_tokens_are_read(pipeline_tokens(stages));
    written_stages_parse_back(stages, Seq::empty());
    assert(Seq::<StageView>::empty() + stages =~= stages);
    assert(stages[0].args.len() > 0);
    assert(pipeline_tokens(stages).len() > 0);
}

/// A word right before an operator, or two operators in a row, need no blank.
pub proof fn operators_end_words(w: Seq<u8>, op: u8, rest: Seq<u8>)
    requires
        plain_word(w),
        op == 0x7c || op == 0x3c || op == 0x3e,
    ensures
        token_at(w.push(op) + rest, 0) == Some((Token::Word(w), w.len() as int)),
        token_at(w.push(op) + rest, w.len() as int) matches Some((t, _)) && match t {
            Token::Pipe => op == 0x7c,
            Token::Less => op == 0x3c,
            Token::Great => op == 0x3e && !(rest.len() > 0 && rest[0] == 0x3e),
            Token::GreatGreat => op == 0x3e && rest.len() > 0 && rest[0] == 0x3e,
            Token::Word(_) => false,
        },
{
    let b = w.push(op) + rest;
    assert forall|k: int| 0 <= k < w.len() implies plain(#[trigger] b[k]) by {
        assert(b[k] == w[k]);
    }
    assert(plain(b[0]));
    lemma_ends_at_operator(b, 0, w.len() as int);
    assert(b.subrange(0, w.len() as int) =~= w);
    assert(b[w.len() as int] == op);
    if rest.len() > 0 {
        assert(b[w.len() as int + 1] == rest[0]);
    }
}

proof fn lemma_ends_at_operator(b: Seq<u8>, i: int, e: int)
    requires
        0 <= i <= e < b.len(),
        forall|k: int| i <= k < e ==> plain(#[trigger] b[k]),
        b[e] == 0x7c || b[e] == 0x3c || b[e] == 0x3e,
    ensures
        word_end(b, i) == e,
    decreases e - i,
{
    if i < e {
        assert(plain(b[i]));
        lemma_ends_at_operator(b, i + 1, e);
    }
}

proof fn lemma_waits(
    runs: Seq<PipelineRun>,
    pids: Seq<i64>,
    statuses: Seq<i32>,
    next: Seq<RunAction>,
    j: int,
    n: int,
)
    requires
        runs.len() == pids.len() + 1,
        statuses.len() == pids.len(),
        next.len() == pids.len(),
        runs[0].pids@.len() == pids.len(),
        runs[0].reaped == 0,
        runs[0].pids@.len() == runs[0].stages,
        runs[0].stages >= 1,
        pids.len() <= usize::MAX,
        forall|k: int| 0 <= k < pids.len() ==> #[trigger] pids[k] > 0,
        forall|k: int|
            0 <= k < pids.len() ==> run_waited(
                #[trigger] runs[k],
                runs[k + 1],
                pids[k],
                statuses[k],
                next[k],
            ),
        0 <= j < pids.len(),
        pids[j] == runs[0].pids@.last(),
        forall|k: int| 0 <= k < pids.len() && k != j ==> #[trigger] pids[k] != pids[j],
        0 <= n <= pids.len(),
    ensures
        runs[n].pids == runs[0].pids,
        runs[n].stages == runs[0].stages,
        runs[n].reaped == n,
        n > j ==> runs[n].last_status == statuses[j],
        n > 0 && n < pids.len() ==> next[n - 1] == RunAction::Wait,
    decreases n,
{
    if n > 0 {
        lemma_waits(runs, pids, statuses, next, j, n - 1);
        assert(run_waited(
            runs[n - 1],
            runs[n - 1 + 1],
            pids[n - 1],
            statuses[n - 1],
            next[n - 1],
        ));
        assert(pids[n - 1] > 0);
        if n - 1 != j {
            assert(pids[n - 1] != pids[j]);
        }
    }
}

/// A pipeline ends once all its stages have, in whatever order they do, and its result
/// is that of its last stage: the code that it passed, or 1 if it did not exit.
pub proof fn pipeline_ends_with_its_last_stage(
    runs: Seq<PipelineRun>,
    pids: Seq<i64>,
    statuses: Seq<i32>,
    next: Seq<RunAction>,
    j: int,
    k: int,
)
    requires
        runs.len() == pids.len() + 1,
        statuses.len() == pids.len(),
        next.len() == pids.len(),
        runs[0].pids@.len() == pids.len(),
        runs[0].reaped == 0,
        runs[0].pids@.len() == runs[0].stages,
        runs[0].stages >= 1,
        pids.len() <= usize::MAX,
        forall|i: int| 0 <= i < pids.len() ==> #[trigger] pids[i] > 0,
        forall|i: int|
            0 <= i < pids.len() ==> run_waited(
                #[trigger] runs[i],
                runs[i + 1],
                pids[i],
                statuses[i],
                next[i],
            ),
        0 <= j < pids.len(),
        pids[j] == runs[0].pids@.last(),
        forall|i: int| 0 <= i < pids.len() && i != j ==> #[trigger] pids[i] != pids[j],
    ensures
        0 <= k < pids.len() - 1 ==> next[k] == RunAction::Wait,
        next.last() == RunAction::Finish(
            if statuses[j] & 0x7f == 0 {
                (statuses[j] >> 8) & 0xff
            } else {
                1
            },
        ),
{
    if 0 <= k < pids.len() - 1 {
        lemma_waits(runs, pids, statuses, next, j, k + 1);
    }
    let n = pids.len() as int;
    lemma_waits(runs, pids, statuses, next, j, n - 1);
    lemma_waits(runs, pids, statuses, next, j, n);
    assert(run_waited(runs[n - 1], runs[n - 1 + 1], pids[n - 1], statuses[n - 1], next[n - 1]));
    assert(pids[n - 1] > 0);
}

} // verus!
