//! Command lines: stages joined by `|`, each a program with its arguments and
//! redirections.
//!
//! The operators `|`, `>`, `>>` and `<` need no spaces around them. There is no
//! quoting, and nothing is expanded.

use vstd::prelude::*;
use vstd::string::*;
use vstd::utf8::*;

verus! {

/// Most arguments of a stage, the program included.
pub const MAX_ARGS: usize = 16;

/// Most stages of a line.
pub const MAX_PIPELINE_STAGES: usize = 8;

#[derive(Clone, Copy, PartialEq, Eq, Debug, Structural)]
pub enum RedirectKind {
    /// No redirection.
    Nothing,
    /// `>`: the file is emptied first.
    Out,
    /// `>>`: what the file holds stays.
    OutAppend,
    /// `<`: the file is read.
    In,
}

/// One program of a line.
#[derive(Clone, Copy, Debug, PartialEq, Eq)]
pub struct Stage<'a> {
    pub argv: [&'a str; MAX_ARGS],
    pub argc: usize,
    /// Where `>` or `>>` leads.
    pub redirect_out: Option<(&'a str, RedirectKind)>,
    /// Where `<` comes from.
    pub redirect_in: Option<&'a str>,
}

/// A line: the stages that are joined by `|`.
#[derive(Clone, Copy, Debug, PartialEq, Eq)]
pub struct Pipeline<'a> {
    pub stages: [Stage<'a>; MAX_PIPELINE_STAGES],
    pub stage_count: usize,
}

/// Why a line cannot be run.
#[derive(Debug, PartialEq, Eq, Clone, Copy, Structural)]
pub enum ParseError {
    /// There is nothing on the line.
    Empty,
    TooManyStages,
    TooManyArgs,
    /// A pipe has no command before it, or the only stage has none.
    EmptyStage,
    /// No file name follows a redirection.
    MissingRedirectTarget,
    /// The line ends after a pipe without a command.
    TrailingPipe,
}

impl ParseError {
    pub fn message(&self) -> (r: &'static str)
        ensures
            r@ == (match *self {
                ParseError::Empty => "empty"@,
                ParseError::TooManyStages => "too many pipeline stages"@,
                ParseError::TooManyArgs => "too many arguments"@,
                ParseError::EmptyStage => "syntax error: empty command between pipes"@,
                ParseError::MissingRedirectTarget => "syntax error: missing redirection target"@,
                ParseError::TrailingPipe => "syntax error: pipeline ends with '|'"@,
            }),
    {
        match self {
            ParseError::Empty => "empty",
            ParseError::TooManyStages => "too many pipeline stages",
            ParseError::TooManyArgs => "too many arguments",
            ParseError::EmptyStage => "syntax error: empty command between pipes",
            ParseError::MissingRedirectTarget => "syntax error: missing redirection target",
            ParseError::TrailingPipe => "syntax error: pipeline ends with '|'",
        }
    }
}

/// What a stage says.
pub struct StageView {
    pub args: Seq<Seq<u8>>,
    pub out: Option<(Seq<u8>, RedirectKind)>,
    pub input: Option<Seq<u8>>,
}

impl StageView {
    pub open spec fn blank() -> StageView {
        StageView { args: Seq::empty(), out: None, input: None }
    }
}

/// The bytes of each string.
pub open spec fn str_bytes(v: Seq<&str>) -> Seq<Seq<u8>> {
    v.map_values(|s: &str| s.spec_bytes())
}

impl<'a> View for Stage<'a> {
    type V = StageView;

    open spec fn view(&self) -> StageView {
        StageView {
            args: str_bytes(self.argv@.take(self.argc as int)),
            out: match self.redirect_out {
                Some((path, kind)) => Some((path.spec_bytes(), kind)),
                None => None,
            },
            input: match self.redirect_in {
                Some(path) => Some(path.spec_bytes()),
                None => None,
            },
        }
    }
}

impl<'a> Stage<'a> {
    pub open spec fn wf(&self) -> bool {
        self.argc <= MAX_ARGS
    }

    /// A stage that says nothing yet.
    pub fn empty() -> (r: Self)
        ensures
            r.wf(),
            r.argc == 0,
            r@ == StageView::blank(),
            forall|i: int| 0 <= i < 16 ==> (#[trigger] r.argv@[i])@ == ""@,
    {
        let r = Stage { argv: ["";16], argc: 0, redirect_out: None, redirect_in: None };
        assert(str_bytes(r.argv@.take(0)) =~= Seq::<Seq<u8>>::empty());
        r
    }

    /// The arguments, the program first.
    pub fn args(&self) -> (r: &[&'a str])
        requires
            self.wf(),
        ensures
            r@ == self.argv@.take(self.argc as int),
    {
        vstd::slice::slice_subrange(self.argv.as_slice(), 0, self.argc)
    }
}

/// What each stage says.
pub open spec fn stage_views(v: Seq<Stage>) -> Seq<StageView> {
    v.map_values(|s: Stage| s@)
}

impl<'a> View for Pipeline<'a> {
    type V = Seq<StageView>;

    open spec fn view(&self) -> Seq<StageView> {
        stage_views(self.stages@.take(self.stage_count as int))
    }
}

impl<'a> Pipeline<'a> {
    pub open spec fn wf(&self) -> bool {
        &&& self.stage_count <= MAX_PIPELINE_STAGES
        &&& forall|i: int| 0 <= i < self.stage_count ==> (#[trigger] self.stages@[i]).wf()
    }

    /// The stages that the line has.
    pub fn stages(&self) -> (r: &[Stage<'a>])
        requires
            self.wf(),
        ensures
            r@ == self.stages@.take(self.stage_count as int),
    {
        vstd::slice::slice_subrange(self.stages.as_slice(), 0, self.stage_count)
    }
}

/// A piece of a line.
pub enum Token {
    Word(Seq<u8>),
    Pipe,
    Great,
    GreatGreat,
    Less,
}

pub open spec fn space(b: u8) -> bool {
    b == 0x20 || b == 0x09 || b == 0x0d
}

/// `|`, `>` or `<`.
pub open spec fn operator(b: u8) -> bool {
    b == 0x7c || b == 0x3e || b == 0x3c
}

/// Where the spaces at `i` end.
pub open spec fn skip_spaces(b: Seq<u8>, i: int) -> int
    decreases b.len() - i,
{
    if 0 <= i < b.len() && space(b[i]) {
        skip_spaces(b, i + 1)
    } else {
        i
    }
}

/// Where the word at `i` ends: at a space, an operator or the end of the line.
pub open spec fn word_end(b: Seq<u8>, i: int) -> int
    decreases b.len() - i,
{
    if 0 <= i < b.len() && !space(b[i]) && !operator(b[i]) {
        word_end(b, i + 1)
    } else {
        i
    }
}

/// The first token from `i` on, and where it ends.
pub open spec fn token_at(b: Seq<u8>, i: int) -> Option<(Token, int)> {
    let s = skip_spaces(b, i);
    if s >= b.len() {
        None
    } else if b[s] == 0x7c {
        Some((Token::Pipe, s + 1))
    } else if b[s] == 0x3c {
        Some((Token::Less, s + 1))
    } else if b[s] == 0x3e {
        if s + 1 < b.len() && b[s + 1] == 0x3e {
            Some((Token::GreatGreat, s + 2))
        } else {
            Some((Token::Great, s + 1))
        }
    } else {
        Some((Token::Word(b.subrange(s, word_end(b, s))), word_end(b, s)))
    }
}

/// The tokens of a line from `i` on.
pub open spec fn tokens(b: Seq<u8>, i: int) -> Seq<Token>
    decreases b.len() - i,
{
    match token_at(b, i) {
        Some((t, n)) => if i < n <= b.len() {
            seq![t] + tokens(b, n)
        } else {
            Seq::empty()
        },
        None => Seq::empty(),
    }
}

proof fn lemma_skip_spaces(b: Seq<u8>, i: int)
    requires
        0 <= i <= b.len(),
    ensures
        i <= skip_spaces(b, i) <= b.len(),
        skip_spaces(b, i) < b.len() ==> !space(b[skip_spaces(b, i)]),
    decreases b.len() - i,
{
    if i < b.len() && space(b[i]) {
        lemma_skip_spaces(b, i + 1);
    }
}

proof fn lemma_word_end(b: Seq<u8>, i: int)
    requires
        0 <= i <= b.len(),
    ensures
        i <= word_end(b, i) <= b.len(),
        word_end(b, i) < b.len() ==> space(b[word_end(b, i)]) || operator(b[word_end(b, i)]),
    decreases b.len() - i,
{
    if i < b.len() && !space(b[i]) && !operator(b[i]) {
        lemma_word_end(b, i + 1);
    }
}

/// A token ends behind where it starts.
proof fn lemma_token_at(b: Seq<u8>, i: int)
    requires
        0 <= i <= b.len(),
    ensures
        token_at(b, i) matches Some((t, n)) ==> i < n <= b.len(),
{
    lemma_skip_spaces(b, i);
    let s = skip_spaces(b, i);
    if s < b.len() {
        lemma_word_end(b, s);
    }
}

/// A character of one byte starts and ends where that byte does.
proof fn lemma_ascii_boundary(b: Seq<u8>, i: int)
    requires
        valid_utf8(b),
        0 <= i < b.len(),
        b[i] < 0x80,
    ensures
        is_char_boundary(b, i),
        is_char_boundary(b, i + 1),
    decreases b.len(),
{
    is_char_boundary_iff_not_is_continuation_byte(b, i);
    let k = length_of_first_scalar(b);
    let rest = pop_first_scalar(b);
    if i == 0 {
        is_char_boundary_start_end_of_seq(rest);
        reveal_with_fuel(is_char_boundary, 2);
    } else {
        reveal_with_fuel(is_char_boundary, 2);
        if i >= k {
            assert(rest[i - k] == b[i]);
            lemma_ascii_boundary(rest, i - k);
        }
    }
}

/// A piece of a line, as it stands there.
#[derive(Debug, PartialEq, Eq, Clone, Copy)]
enum Tok<'a> {
    Word(&'a str),
    Pipe,
    Great,
    GreatGreat,
    Less,
}

impl<'a> View for Tok<'a> {
    type V = Token;

    closed spec fn view(&self) -> Token {
        match *self {
            Tok::Word(w) => Token::Word(w.spec_bytes()),
            Tok::Pipe => Token::Pipe,
            Tok::Great => Token::Great,
            Tok::GreatGreat => Token::GreatGreat,
            Tok::Less => Token::Less,
        }
    }
}

fn is_space(b: u8) -> (r: bool)
    ensures
        r == space(b),
{
    b == 0x20 || b == 0x09 || b == 0x0d
}

fn is_op(b: u8) -> (r: bool)
    ensures
        r == operator(b),
{
    b == 0x7c || b == 0x3e || b == 0x3c
}

/// The part of `line` from byte `from` to byte `to`.
fn str_slice<'a>(line: &'a str, from: usize, to: usize) -> (r: &'a str)
    requires
        from <= to <= line.spec_bytes().len(),
        is_char_boundary(line.spec_bytes(), from as int),
        is_char_boundary(line.spec_bytes(), to as int),
    ensures
        r.spec_bytes() == line.spec_bytes().subrange(from as int, to as int),
{
    let (head, _) = line.split_at(to);
    proof {
        let b = line.spec_bytes();
        encode_utf8_valid_utf8(line@);
        encode_utf8_valid_utf8(head@);
        lemma_boundary_in_prefix(b, from as int, to as int);
    }
    let (_, tail) = head.split_at(from);
    assert(tail.spec_bytes() =~= line.spec_bytes().subrange(from as int, to as int));
    tail
}

/// A boundary of a text is one of any prefix that reaches it.
proof fn lemma_boundary_in_prefix(b: Seq<u8>, i: int, n: int)
    requires
        valid_utf8(b),
        0 <= i <= n <= b.len(),
        is_char_boundary(b, i),
        is_char_boundary(b, n),
    ensures
        valid_utf8(b.subrange(0, n)),
        is_char_boundary(b.subrange(0, n), i),
{
    valid_utf8_split(b, n);
    let head = b.subrange(0, n);
    is_char_boundary_start_end_of_seq(head);
    if i < n {
        is_char_boundary_iff_not_is_continuation_byte(b, i);
        is_char_boundary_iff_not_is_continuation_byte(head, i);
    }
}

/// The first token from byte `i` of `line` on, and where it ends.
fn next_token<'a>(line: &'a str, i: usize) -> (r: Option<(Tok<'a>, usize)>)
    requires
        i <= line.spec_bytes().len(),
        is_char_boundary(line.spec_bytes(), i as int),
    ensures
        match (r, token_at(line.spec_bytes(), i as int)) {
            (Some((t, n)), Some((t1, n1))) => {
                &&& t@ == t1
                &&& n == n1
                &&& i < n <= line.spec_bytes().len()
                &&& is_char_boundary(line.spec_bytes(), n as int)
            },
            (None, None) => true,
            _ => false,
        },
{
    let b = line.as_bytes();
    let mut s: usize = i;
    proof {
        encode_utf8_valid_utf8(line@);
    }
    while s < b.len() && is_space(b[s])
        invariant
            i <= s <= b@.len(),
            b@ == line.spec_bytes(),
            valid_utf8(b@),
            is_char_boundary(b@, s as int),
            skip_spaces(b@, i as int) == skip_spaces(b@, s as int),
        decreases b@.len() - s,
    {
        proof {
            lemma_ascii_boundary(b@, s as int);
        }
        s += 1;
    }
    if s >= b.len() {
        return None;
    }
    let c: u8 = b[s];
    if c == 0x7c {
        proof {
            lemma_ascii_boundary(b@, s as int);
        }
        return Some((Tok::Pipe, s + 1));
    }
    if c == 0x3c {
        proof {
            lemma_ascii_boundary(b@, s as int);
        }
        return Some((Tok::Less, s + 1));
    }
    if c == 0x3e {
        proof {
            lemma_ascii_boundary(b@, s as int);
        }
        if s + 1 < b.len() && b[s + 1] == 0x3e {
            proof {
                lemma_ascii_boundary(b@, s + 1);
            }
            return Some((Tok::GreatGreat, s + 2));
        }
        return Some((Tok::Great, s + 1));
    }
    let mut e: usize = s;
    while e < b.len() && !is_space(b[e]) && !is_op(b[e])
        invariant
            s <= e <= b@.len(),
            b@ == line.spec_bytes(),
            word_end(b@, s as int) == word_end(b@, e as int),
        decreases b@.len() - e,
    {
        e += 1;
    }
    proof {
        lemma_word_end(b@, s as int);
        if e < b@.len() {
            lemma_ascii_boundary(b@, e as int);
        } else {
            is_char_boundary_start_end_of_seq(b@);
        }
    }
    Some((Tok::Word(str_slice(line, s, e)), e))
}

/// The stages of a line of which the tokens `t` are left, after the stages
/// `done` and what there is of stage `cur`.
pub open spec fn parsed(t: Seq<Token>, done: Seq<StageView>, cur: StageView) -> Result<
    Seq<StageView>,
    ParseError,
>
    decreases t.len(),
{
    if t.len() == 0 {
        if cur.args.len() == 0 {
            if done.len() > 0 {
                Err(ParseError::TrailingPipe)
            } else {
                Err(ParseError::EmptyStage)
            }
        } else if done.len() == 8 {
            Err(ParseError::TooManyStages)
        } else {
            Ok(done.push(cur))
        }
    } else {
        match t[0] {
            Token::Word(w) => if cur.args.len() == 16 {
                Err(ParseError::TooManyArgs)
            } else {
                parsed(t.skip(1), done, StageView { args: cur.args.push(w), ..cur })
            },
            Token::Pipe => if cur.args.len() == 0 {
                Err(ParseError::EmptyStage)
            } else if done.len() == 8 {
                Err(ParseError::TooManyStages)
            } else {
                parsed(t.skip(1), done.push(cur), StageView::blank())
            },
            redirect => if t.len() > 1 && t[1] is Word {
                let path = t[1]->Word_0;
                let next = match redirect {
                    Token::Great => StageView { out: Some((path, RedirectKind::Out)), ..cur },
                    Token::GreatGreat => StageView {
                        out: Some((path, RedirectKind::OutAppend)),
                        ..cur
                    },
                    _ => StageView { input: Some(path), ..cur },
                };
                parsed(t.skip(2), done, next)
            } else {
                Err(ParseError::MissingRedirectTarget)
            },
        }
    }
}

/// The stages of a line.
pub open spec fn line_stages(b: Seq<u8>) -> Result<Seq<StageView>, ParseError> {
    let t = tokens(b, 0);
    if t.len() == 0 {
        Err(ParseError::Empty)
    } else {
        parsed(t, Seq::empty(), StageView::blank())
    }
}

/// The tokens from `i` on, one by one.
proof fn lemma_tokens(b: Seq<u8>, i: int)
    requires
        0 <= i <= b.len(),
    ensures
        match token_at(b, i) {
            Some((t, n)) => {
                &&& tokens(b, i).len() == 1 + tokens(b, n).len()
                &&& tokens(b, i)[0] == t
                &&& tokens(b, i).skip(1) == tokens(b, n)
            },
            None => tokens(b, i).len() == 0,
        },
{
    lemma_token_at(b, i);
    if let Some((t, n)) = token_at(b, i) {
        assert(tokens(b, i).skip(1) =~= tokens(b, n));
    }
}

/// Parse a line.
pub fn parse_line<'a>(line: &'a str) -> (r: Result<Pipeline<'a>, ParseError>)
    ensures
        match (r, line_stages(line.spec_bytes())) {
            (Ok(p), Ok(stages)) => p.wf() && p@ == stages && p.stage_count > 0,
            (Err(e), Err(e1)) => e == e1,
            _ => false,
        },
        r matches Ok(p) ==> {
            &&& forall|i: int, j: int|
                0 <= i < 8 && p.stages@[i].argc <= j < 16 ==> (
                #[trigger] p.stages@[i].argv@[j])@ == ""@
            &&& forall|i: int|
                p.stage_count <= i < 8 ==> (#[trigger] p.stages@[i])@ == StageView::blank()
                    && p.stages@[i].argc == 0
        },
{
    let ghost b = line.spec_bytes();
    let mut pipeline = Pipeline { stages: [Stage::empty();8], stage_count: 0 };
    let mut cur: Stage<'a> = Stage::empty();
    let mut any_token = false;
    let mut i: usize = 0;
    assert(stage_views(pipeline.stages@.take(0)) =~= Seq::<StageView>::empty());
    proof {
        encode_utf8_valid_utf8(line@);
        is_char_boundary_start_end_of_seq(b);
    }
    loop
        invariant
            b == line.spec_bytes(),
            i <= b.len(),
            is_char_boundary(b, i as int),
            pipeline.wf(),
            cur.wf(),
            !any_token ==> i == 0,
            any_token ==> tokens(b, 0).len() > 0,
            parsed(tokens(b, i as int), pipeline@, cur@) == parsed(
                tokens(b, 0),
                Seq::empty(),
                StageView::blank(),
            ),
            forall|j: int| cur.argc <= j < 16 ==> (#[trigger] cur.argv@[j])@ == ""@,
            forall|k: int, j: int|
                0 <= k < 8 && pipeline.stages@[k].argc <= j < 16 ==> (
                #[trigger] pipeline.stages@[k].argv@[j])@ == ""@,
            forall|k: int|
                pipeline.stage_count <= k < 8 ==> (#[trigger] pipeline.stages@[k])@
                    == StageView::blank() && pipeline.stages@[k].argc == 0,
        ensures
            tokens(b, i as int).len() == 0,
        decreases b.len() - i,
    {
        proof {
            lemma_tokens(b, i as int);
        }
        let ghost left = tokens(b, i as int);
        match next_token(line, i) {
            None => {
                break;
            },
            Some((tok, next)) => {
                proof {
                    if !any_token {
                        assert(tokens(b, 0).len() > 0);
                    }
                    lemma_tokens(b, next as int);
                }
                i = next;
                any_token = true;
                match tok {
                    Tok::Word(w) => {
                        if cur.argc == MAX_ARGS {
                            return Err(ParseError::TooManyArgs);
                        }
                        let ghost before = cur;
                        cur.argv[cur.argc] = w;
                        cur.argc = cur.argc + 1;
                        assert(str_bytes(cur.argv@.take(cur.argc as int)) =~= str_bytes(
                            before.argv@.take(before.argc as int),
                        ).push(w.spec_bytes()));
                    },
                    Tok::Pipe => {
                        if cur.argc == 0 {
                            return Err(ParseError::EmptyStage);
                        }
                        if pipeline.stage_count == MAX_PIPELINE_STAGES {
                            return Err(ParseError::TooManyStages);
                        }
                        let ghost before = pipeline;
                        pipeline.stages[pipeline.stage_count] = cur;
                        pipeline.stage_count = pipeline.stage_count + 1;
                        assert(pipeline@ =~= before@.push(cur@));
                        cur = Stage::empty();
                    },
                    redirect => {
                        let (target, after): (&'a str, usize) = match next_token(line, i) {
                            Some((Tok::Word(w), after)) => (w, after),
                            _ => return Err(ParseError::MissingRedirectTarget),
                        };
                        proof {
                            assert(left.skip(2) =~= left.skip(1).skip(1));
                        }
                        i = after;
                        match redirect {
                            Tok::Great => {
                                cur.redirect_out = Some((target, RedirectKind::Out));
                            },
                            Tok::GreatGreat => {
                                cur.redirect_out = Some((target, RedirectKind::OutAppend));
                            },
                            _ => {
                                cur.redirect_in = Some(target);
                            },
                        }
                    },
                }
            },
        }
    }
    if !any_token {
        return Err(ParseError::Empty);
    }
    if cur.argc == 0 {
        return Err(
            if pipeline.stage_count > 0 {
                ParseError::TrailingPipe
            } else {
                ParseError::EmptyStage
            },
        );
    }
    if pipeline.stage_count == MAX_PIPELINE_STAGES {
        return Err(ParseError::TooManyStages);
    }
    let ghost before = pipeline;
    pipeline.stages[pipeline.stage_count] = cur;
    pipeline.stage_count = pipeline.stage_count + 1;
    assert(pipeline@ =~= before@.push(cur@));
    Ok(pipeline)
}

/// A stage that can be run: it has a program, and no more arguments than fit.
pub open spec fn runnable(s: StageView) -> bool {
    &&& 1 <= s.args.len() <= 16
    &&& s.out matches Some((path, kind)) ==> kind == RedirectKind::Out || kind
        == RedirectKind::OutAppend
}

proof fn lemma_parsed_runnable(t: Seq<Token>, done: Seq<StageView>, cur: StageView)
    requires
        done.len() <= 8,
        forall|i: int| 0 <= i < done.len() ==> runnable(#[trigger] done[i]),
        cur.args.len() <= 16,
        cur.out matches Some((path, kind)) ==> kind == RedirectKind::Out || kind
            == RedirectKind::OutAppend,
    ensures
        parsed(t, done, cur) matches Ok(stages) ==> {
            &&& 1 <= stages.len() <= 8
            &&& forall|i: int| 0 <= i < stages.len() ==> runnable(#[trigger] stages[i])
        },
    decreases t.len(),
{
    if t.len() > 0 {
        match t[0] {
            Token::Word(w) => {
                if cur.args.len() < 16 {
                    lemma_parsed_runnable(
                        t.skip(1),
                        done,
                        StageView { args: cur.args.push(w), ..cur },
                    );
                }
            },
            Token::Pipe => {
                if cur.args.len() > 0 && done.len() < 8 {
                    lemma_parsed_runnable(t.skip(1), done.push(cur), StageView::blank());
                }
            },
            redirect => {
                if t.len() > 1 && t[1] is Word {
                    let path = t[1]->Word_0;
                    let next = match redirect {
                        Token::Great => StageView { out: Some((path, RedirectKind::Out)), ..cur },
                        Token::GreatGreat => StageView {
                            out: Some((path, RedirectKind::OutAppend)),
                            ..cur
                        },
                        _ => StageView { input: Some(path), ..cur },
                    };
                    lemma_parsed_runnable(t.skip(2), done, next);
                }
            },
        }
    }
}

/// A line that parses has at least one stage, and each of its stages has a
/// program to run.
pub proof fn parsed_lines_can_run(b: Seq<u8>)
    ensures
        line_stages(b) matches Ok(stages) ==> {
            &&& 1 <= stages.len() <= 8
            &&& forall|i: int| 0 <= i < stages.len() ==> runnable(#[trigger] stages[i])
        },
{
    lemma_parsed_runnable(tokens(b, 0), Seq::empty(), StageView::blank());
}

/// The arguments of a stage as tokens.
pub open spec fn word_tokens(args: Seq<Seq<u8>>) -> Seq<Token> {
    args.map_values(|w: Seq<u8>| Token::Word(w))
}

/// A stage as tokens: its arguments, then where it reads from and writes to.
pub open spec fn stage_tokens(s: StageView) -> Seq<Token> {
    word_tokens(s.args) + (match s.input {
        Some(path) => seq![Token::Less, Token::Word(path)],
        None => Seq::empty(),
    }) + (match s.out {
        Some((path, RedirectKind::OutAppend)) => seq![Token::GreatGreat, Token::Word(path)],
        Some((path, _)) => seq![Token::Great, Token::Word(path)],
        None => Seq::empty(),
    })
}

/// Stages as tokens, with a pipe after each but the last.
pub open spec fn pipeline_tokens(stages: Seq<StageView>) -> Seq<Token>
    decreases stages.len(),
{
    if stages.len() <= 1 {
        stage_tokens(stages[0])
    } else {
        stage_tokens(stages[0]) + seq![Token::Pipe] + pipeline_tokens(stages.skip(1))
    }
}

proof fn lemma_words_parse(
    args: Seq<Seq<u8>>,
    rest: Seq<Token>,
    done: Seq<StageView>,
    cur: StageView,
)
    requires
        cur.args.len() + args.len() <= 16,
    ensures
        parsed(word_tokens(args) + rest, done, cur) == parsed(
            rest,
            done,
            StageView { args: cur.args + args, ..cur },
        ),
    decreases args.len(),
{
    let t = word_tokens(args) + rest;
    if args.len() == 0 {
        assert(t =~= rest);
        assert(cur.args + args =~= cur.args);
    } else {
        assert(t.skip(1) =~= word_tokens(args.skip(1)) + rest);
        let next = StageView { args: cur.args.push(args[0]), ..cur };
        lemma_words_parse(args.skip(1), rest, done, next);
        assert(next.args + args.skip(1) =~= cur.args + args);
    }
}

proof fn lemma_stage_parses(s: StageView, rest: Seq<Token>, done: Seq<StageView>)
    requires
        runnable(s),
    ensures
        parsed(stage_tokens(s) + rest, done, StageView::blank()) == parsed(rest, done, s),
{
    let ins = match s.input {
        Some(path) => seq![Token::Less, Token::Word(path)],
        None => Seq::empty(),
    };
    let outs = match s.out {
        Some((path, RedirectKind::OutAppend)) => seq![Token::GreatGreat, Token::Word(path)],
        Some((path, _)) => seq![Token::Great, Token::Word(path)],
        None => Seq::empty(),
    };
    let words = word_tokens(s.args);
    let t1 = ins + (outs + rest);
    let t2 = outs + rest;
    assert(stage_tokens(s) + rest =~= words + t1);
    lemma_words_parse(s.args, t1, done, StageView::blank());
    assert(StageView::blank().args + s.args =~= s.args);
    let c1 = StageView { args: s.args, out: None, input: None };
    let c2 = StageView { args: s.args, out: None, input: s.input };
    if s.input is Some {
        assert(t1.skip(2) =~= t2);
        assert(t1[0] == ins[0] && t1[1] == ins[1]);
    } else {
        assert(t1 =~= t2);
    }
    assert(parsed(t1, done, c1) == parsed(t2, done, c2));
    if s.out is Some {
        assert(t2.skip(2) =~= rest);
        assert(t2[0] == outs[0] && t2[1] == outs[1]);
    } else {
        assert(t2 =~= rest);
    }
}

/// Stages that can be run, written down one after the other, parse into
/// themselves.
pub proof fn written_stages_parse_back(stages: Seq<StageView>, done: Seq<StageView>)
    requires
        1 <= stages.len(),
        done.len() + stages.len() <= 8,
        forall|i: int| 0 <= i < stages.len() ==> runnable(#[trigger] stages[i]),
    ensures
        parsed(pipeline_tokens(stages), done, StageView::blank()) == Ok::<
            Seq<StageView>,
            ParseError,
        >(done + stages),
    decreases stages.len(),
{
    let s = stages[0];
    if stages.len() == 1 {
        let none = Seq::<Token>::empty();
        assert(pipeline_tokens(stages) =~= stage_tokens(s) + none);
        lemma_stage_parses(s, none, done);
        assert(done.push(s) =~= done + stages);
    } else {
        let after = pipeline_tokens(stages.skip(1));
        let rest = seq![Token::Pipe] + after;
        assert(pipeline_tokens(stages) =~= stage_tokens(s) + rest);
        lemma_stage_parses(s, rest, done);
        assert(rest.skip(1) =~= after);
        assert forall|i: int| 0 <= i < stages.skip(1).len() implies runnable(
            #[trigger] stages.skip(1)[i],
        ) by {
            assert(runnable(stages[i + 1]));
        }
        written_stages_parse_back(stages.skip(1), done.push(s));
        assert(done.push(s) + stages.skip(1) =~= done + stages);
    }
}

} // verus!
