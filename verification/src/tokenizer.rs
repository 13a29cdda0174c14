//! Lexing source bytes into tokens and grouping tokens into loop trees.

use vstd::prelude::*;

verus! {

/// One recognized operator symbol of the source text.
#[derive(Debug, PartialEq, Eq, Copy, Clone)]
pub enum Token {
    IncrementPtr,
    DecrementPtr,
    Increment,
    Decrement,
    Output,
    Input,
    JumpFwd,
    JumpBack,
}

/// One of the six operations that a leaf of the tree can hold.
#[derive(Debug, PartialEq, Eq, Copy, Clone)]
pub enum Instruction {
    IncrementPtr,
    DecrementPtr,
    Increment,
    Decrement,
    Output,
    Input,
}

/// A node of a program: a single operation, or the body of one loop.
#[derive(Debug, PartialEq)]
pub enum Tree {
    Instruction(Instruction),
    Block(Vec<Tree>),
}

/// The mathematical value of a [`Tree`]: the same shape over sequences.
pub ghost enum TreeView {
    Instruction(Instruction),
    Block(Seq<TreeView>),
}

/// The value of one tree.
pub open spec fn tree_view(t: Tree) -> TreeView
    decreases t,
{
    match t {
        Tree::Instruction(i) => TreeView::Instruction(i),
        Tree::Block(body) => TreeView::Block(trees_view(body@)),
    }
}

/// The values of a sequence of trees, in order.
pub open spec fn trees_view(trees: Seq<Tree>) -> Seq<TreeView>
    decreases trees,
{
    if trees.len() == 0 {
        Seq::empty()
    } else {
        trees_view(trees.drop_last()).push(tree_view(trees.last()))
    }
}

impl View for Tree {
    type V = TreeView;

    open spec fn view(&self) -> TreeView {
        tree_view(*self)
    }
}

/// The token that a character stands for, if it is one of the eight operators.
pub open spec fn token_of_char(c: char) -> Option<Token> {
    if c == '>' {
        Some(Token::IncrementPtr)
    } else if c == '<' {
        Some(Token::DecrementPtr)
    } else if c == '+' {
        Some(Token::Increment)
    } else if c == '-' {
        Some(Token::Decrement)
    } else if c == '.' {
        Some(Token::Output)
    } else if c == ',' {
        Some(Token::Input)
    } else if c == '[' {
        Some(Token::JumpFwd)
    } else if c == ']' {
        Some(Token::JumpBack)
    } else {
        None
    }
}

/// The tokens of a byte sequence: each operator byte gives its token, in
/// order, and every other byte gives nothing.
pub open spec fn tokenize_spec(bytes: Seq<u8>) -> Seq<Token>
    decreases bytes.len(),
{
    if bytes.len() == 0 {
        Seq::empty()
    } else {
        match token_of_char(bytes.last() as char) {
            Some(t) => tokenize_spec(bytes.drop_last()).push(t),
            None => tokenize_spec(bytes.drop_last()),
        }
    }
}

impl Token {
    /// Recognizes one character: `Ok` with its token for the eight
    /// operators, `Err` for anything else.
    pub fn try_from(value: char) -> (r: Result<Token, ()>)
        ensures
            r.ok() == token_of_char(value),
    {
        match value {
            '>' => Ok(Token::IncrementPtr),
            '<' => Ok(Token::DecrementPtr),
            '+' => Ok(Token::Increment),
            '-' => Ok(Token::Decrement),
            '.' => Ok(Token::Output),
            ',' => Ok(Token::Input),
            '[' => Ok(Token::JumpFwd),
            ']' => Ok(Token::JumpBack),
            _ => Err(()),
        }
    }
}

/// Lexes a whole source text. Bytes that are no operator are comments and
/// are skipped; no input is an error.
pub fn tokenize(s: &[u8]) -> (tokens: Vec<Token>)
    ensures
        tokens@ == tokenize_spec(s@),
{
    let mut buf: Vec<Token> = Vec::new();
    let mut i: usize = 0;
    while i < s.len()
        invariant
            i <= s.len(),
            buf@ == tokenize_spec(s@.take(i as int)),
        decreases s.len() - i,
    {
        proof {
            assert(s@.take(i + 1).drop_last() =~= s@.take(i as int));
        }
        if let Ok(t) = Token::try_from(s[i] as char) {
            buf.push(t);
        }
        i += 1;
    }
    proof {
        assert(s@.take(i as int) =~= s@);
    }
    buf
}

/// The instruction that a token stands for; the two brackets stand for none.
pub open spec fn instruction_of(t: Token) -> Option<Instruction> {
    match t {
        Token::IncrementPtr => Some(Instruction::IncrementPtr),
        Token::DecrementPtr => Some(Instruction::DecrementPtr),
        Token::Increment => Some(Instruction::Increment),
        Token::Decrement => Some(Instruction::Decrement),
        Token::Output => Some(Instruction::Output),
        Token::Input => Some(Instruction::Input),
        Token::JumpFwd => None,
        Token::JumpBack => None,
    }
}

/// The bracket depth after reading `t` at depth `depth`.
pub open spec fn depth_after(t: Token, depth: int) -> int {
    match t {
        Token::JumpFwd => depth + 1,
        Token::JumpBack => depth - 1,
        _ => depth,
    }
}

/// How many tokens at the front of `tokens` belong to the loop body that is
/// open at bracket depth `depth`: those before the closing bracket that
/// brings the depth to zero, or all of them where no such bracket comes.
pub open spec fn body_len(tokens: Seq<Token>, depth: int) -> nat
    decreases tokens.len(),
{
    if tokens.len() == 0 || depth_after(tokens[0], depth) < 1 {
        0
    } else {
        1 + body_len(tokens.drop_first(), depth_after(tokens[0], depth))
    }
}

/// A loop body is never longer than the tokens it is taken from.
pub proof fn lemma_body_len_bound(tokens: Seq<Token>, depth: int)
    ensures
        body_len(tokens, depth) <= tokens.len(),
    decreases tokens.len(),
{
    if tokens.len() != 0 && depth_after(tokens[0], depth) >= 1 {
        lemma_body_len_bound(tokens.drop_first(), depth_after(tokens[0], depth));
    }
}

/// The program that a token sequence stands for. A non-bracket token is a
/// leaf. An opening bracket takes the tokens up to its matching closing
/// bracket (or to the end, where none matches) as the body of a block, and
/// the program goes on behind that closing bracket. A closing bracket that
/// closes nothing is skipped.
pub open spec fn parse_spec(tokens: Seq<Token>) -> Seq<TreeView>
    decreases tokens.len(),
{
    if tokens.len() == 0 {
        Seq::empty()
    } else {
        let rest = tokens.drop_first();
        match tokens[0] {
            Token::JumpBack => parse_spec(rest),
            Token::JumpFwd => {
                let n = body_len(rest, 1);
                proof {
                    lemma_body_len_bound(rest, 1);
                }
                seq![TreeView::Block(parse_spec(rest.take(n as int)))] + parse_spec(
                    rest.skip(after_body(rest)),
                )
            },
            t => seq![TreeView::Instruction(instruction_of(t).unwrap())] + parse_spec(rest),
        }
    }
}

/// Where the program goes on in `rest`, the tokens behind an opening
/// bracket: behind the matching closing bracket, or at the end.
pub open spec fn after_body(rest: Seq<Token>) -> int {
    if body_len(rest, 1) < rest.len() {
        body_len(rest, 1) as int + 1
    } else {
        rest.len() as int
    }
}

/// The value of a sequence of trees has one entry for each tree.
pub proof fn lemma_trees_view_index(trees: Seq<Tree>, i: int)
    requires
        0 <= i < trees.len(),
    ensures
        trees_view(trees).len() == trees.len(),
        trees_view(trees)[i] == tree_view(trees[i]),
    decreases trees.len(),
{
    lemma_trees_view_len(trees);
    if i < trees.len() - 1 {
        lemma_trees_view_index(trees.drop_last(), i);
    }
}

/// The value of a sequence of trees is as long as the sequence.
pub proof fn lemma_trees_view_len(trees: Seq<Tree>)
    ensures
        trees_view(trees).len() == trees.len(),
    decreases trees.len(),
{
    if trees.len() != 0 {
        lemma_trees_view_len(trees.drop_last());
    }
}

/// Appending one tree appends its value.
pub proof fn lemma_trees_view_push(trees: Seq<Tree>, t: Tree)
    ensures
        trees_view(trees.push(t)) == trees_view(trees).push(t@),
{
    assert(trees.push(t).drop_last() =~= trees);
}

impl Token {
    /// The instruction that this token stands for; `None` for a bracket.
    pub fn instruction(self) -> (r: Option<Instruction>)
        ensures
            r == instruction_of(self),
    {
        match self {
            Token::IncrementPtr => Some(Instruction::IncrementPtr),
            Token::DecrementPtr => Some(Instruction::DecrementPtr),
            Token::Increment => Some(Instruction::Increment),
            Token::Decrement => Some(Instruction::Decrement),
            Token::Output => Some(Instruction::Output),
            Token::Input => Some(Instruction::Input),
            Token::JumpFwd => None,
            Token::JumpBack => None,
        }
    }
}

impl Tree {
    /// Groups a token sequence into a program, as [`parse_spec`] says.
    pub fn parse(tokens: &[Token]) -> (trees: Vec<Tree>)
        ensures
            trees_view(trees@) == parse_spec(tokens@),
        decreases tokens.len(),
    {
        let mut buf: Vec<Tree> = Vec::new();
        let mut i: usize = 0;
        proof {
            assert(tokens@.skip(0) =~= tokens@);
            assert(trees_view(buf@) + parse_spec(tokens@) =~= parse_spec(tokens@));
        }
        while i < tokens.len()
            invariant
                i <= tokens.len(),
                parse_spec(tokens@) == trees_view(buf@) + parse_spec(tokens@.skip(i as int)),
            decreases tokens.len() - i,
        {
            let t = tokens[i];
            let ghost from = tokens@.skip(i as int);
            let ghost rest = from.drop_first();
            let ghost before = trees_view(buf@);
            proof {
                assert(from[0] == t);
                assert(rest =~= tokens@.skip(i + 1));
            }
            i += 1;
            match t {
                Token::JumpFwd => {
                    let mut body: Vec<Token> = Vec::new();
                    let mut depth: usize = 1;
                    let mut closed = false;
                    let start = i;
                    while !closed && i < tokens.len()
                        invariant
                            1 <= start <= i <= tokens.len(),
                            rest == tokens@.skip(start as int),
                            body@ == rest.take(body@.len() as int),
                            body@.len() <= rest.len(),
                            closed ==> body_len(rest, 1) == body@.len() && i == start + body@.len()
                                + 1,
                            !closed ==> i == start + body@.len() && 1 <= depth <= 1 + body@.len()
                                && body_len(rest, 1) == body@.len() + body_len(
                                tokens@.skip(i as int),
                                depth as int,
                            ),
                        decreases tokens.len() - i + (if closed { 0int } else { 1int }),
                    {
                        let token = tokens[i];
                        proof {
                            assert(tokens@.skip(i as int).drop_first() =~= tokens@.skip(i + 1));
                            assert(rest.take(body@.len() as int + 1) =~= rest.take(
                                body@.len() as int,
                            ).push(token));
                        }
                        i += 1;
                        match token {
                            Token::JumpFwd => {
                                depth += 1;
                            },
                            Token::JumpBack => {
                                depth -= 1;
                            },
                            _ => {},
                        }
                        if depth < 1 {
                            closed = true;
                        } else {
                            body.push(token);
                        }
                    }
                    proof {
                        assert(body@ =~= rest.take(body_len(rest, 1) as int));
                        assert(tokens@.skip(i as int) =~= rest.skip(after_body(rest)));
                    }
                    let inner = Tree::parse(body.as_slice());
                    let block = Tree::Block(inner);
                    proof {
                        lemma_trees_view_push(buf@, block);
                        assert(before + (seq![block@] + parse_spec(tokens@.skip(i as int)))
                            =~= before.push(block@) + parse_spec(tokens@.skip(i as int)));
                    }
                    buf.push(block);
                },
                Token::JumpBack => {},
                _ => {
                    if let Some(op) = t.instruction() {
                        let leaf = Tree::Instruction(op);
                        proof {
                            lemma_trees_view_push(buf@, leaf);
                            assert(before + (seq![leaf@] + parse_spec(rest)) =~= before.push(leaf@)
                                + parse_spec(rest));
                        }
                        buf.push(leaf);
                    }
                },
            }
        }
        proof {
            assert(tokens@.skip(i as int) =~= Seq::<Token>::empty());
            assert(trees_view(buf@) + Seq::<TreeView>::empty() =~= trees_view(buf@));
        }
        buf
    }
}

/// The instructions of a token sequence in order, brackets left out.
pub open spec fn instructions_of(tokens: Seq<Token>) -> Seq<Instruction>
    decreases tokens.len(),
{
    if tokens.len() == 0 {
        Seq::empty()
    } else {
        match instruction_of(tokens[0]) {
            Some(i) => seq![i] + instructions_of(tokens.drop_first()),
            None => instructions_of(tokens.drop_first()),
        }
    }
}

/// The leaves of one tree, left to right.
pub open spec fn leaves(t: TreeView) -> Seq<Instruction>
    decreases t,
{
    match t {
        TreeView::Instruction(i) => seq![i],
        TreeView::Block(body) => flatten(body),
    }
}

/// The leaves of a program, left to right.
pub open spec fn flatten(trees: Seq<TreeView>) -> Seq<Instruction>
    decreases trees,
{
    if trees.len() == 0 {
        Seq::empty()
    } else {
        leaves(trees[0]) + flatten(trees.drop_first())
    }
}

/// Lexing does not depend on how the text is cut into pieces: the tokens of
/// two pieces joined are those of the first, then those of the second.
pub proof fn lemma_tokenize_concat(a: Seq<u8>, b: Seq<u8>)
    ensures
        tokenize_spec(a + b) == tokenize_spec(a) + tokenize_spec(b),
    decreases b.len(),
{
    if b.len() == 0 {
        assert(a + b =~= a);
        assert(tokenize_spec(a) + tokenize_spec(b) =~= tokenize_spec(a));
    } else {
        lemma_tokenize_concat(a, b.drop_last());
        assert((a + b).drop_last() =~= a + b.drop_last());
        assert((a + b).last() == b.last());
        match token_of_char(b.last() as char) {
            Some(t) => {
                assert((tokenize_spec(a) + tokenize_spec(b.drop_last())).push(t) =~= tokenize_spec(
                    a,
                ) + tokenize_spec(b.drop_last()).push(t));
            },
            None => {},
        }
    }
}

/// Text without any operator character lexes to no token and parses to the
/// empty program.
pub proof fn lemma_comment_is_empty_program(bytes: Seq<u8>)
    requires
        forall|i: int| 0 <= i < bytes.len() ==> token_of_char(bytes[i] as char).is_none(),
    ensures
        tokenize_spec(bytes) == Seq::<Token>::empty(),
        parse_spec(tokenize_spec(bytes)) == Seq::<TreeView>::empty(),
    decreases bytes.len(),
{
    if bytes.len() != 0 {
        lemma_comment_is_empty_program(bytes.drop_last());
    }
}

/// The instructions of two sequences joined are those of the first, then
/// those of the second.
pub proof fn lemma_instructions_of_concat(a: Seq<Token>, b: Seq<Token>)
    ensures
        instructions_of(a + b) == instructions_of(a) + instructions_of(b),
    decreases a.len(),
{
    if a.len() == 0 {
        assert(a + b =~= b);
        assert(instructions_of(a) + instructions_of(b) =~= instructions_of(b));
    } else {
        lemma_instructions_of_concat(a.drop_first(), b);
        assert((a + b).drop_first() =~= a.drop_first() + b);
        assert((a + b)[0] == a[0]);
        match instruction_of(a[0]) {
            Some(i) => {
                assert(seq![i] + (instructions_of(a.drop_first()) + instructions_of(b)) =~= (seq![i]
                    + instructions_of(a.drop_first())) + instructions_of(b));
            },
            None => {},
        }
    }
}

/// Where a loop body ends before the end of the tokens, the token behind it
/// is a closing bracket.
pub proof fn lemma_body_ends_at_jump_back(tokens: Seq<Token>, depth: int)
    requires
        depth >= 1,
        body_len(tokens, depth) < tokens.len(),
    ensures
        tokens[body_len(tokens, depth) as int] == Token::JumpBack,
    decreases tokens.len(),
{
    if depth_after(tokens[0], depth) >= 1 {
        lemma_body_ends_at_jump_back(tokens.drop_first(), depth_after(tokens[0], depth));
    }
}

/// Brackets nest instructions and never reorder them: the leaves of the
/// parsed program, read left to right, are the instructions of the tokens in
/// their order. This holds of every token sequence, balanced or not.
pub proof fn lemma_parse_keeps_instruction_order(tokens: Seq<Token>)
    ensures
        flatten(parse_spec(tokens)) == instructions_of(tokens),
    decreases tokens.len(),
{
    if tokens.len() != 0 {
        let rest = tokens.drop_first();
        match tokens[0] {
            Token::JumpBack => {
                lemma_parse_keeps_instruction_order(rest);
            },
            Token::JumpFwd => {
                let n = body_len(rest, 1) as int;
                lemma_body_len_bound(rest, 1);
                let body = rest.take(n);
                let tail = rest.skip(after_body(rest));
                let block = TreeView::Block(parse_spec(body));
                lemma_parse_keeps_instruction_order(body);
                lemma_parse_keeps_instruction_order(tail);
                assert((seq![block] + parse_spec(tail)).drop_first() =~= parse_spec(tail));
                let program = seq![block] + parse_spec(tail);
                assert(parse_spec(tokens) == program);
                assert(program[0] == block);
                assert(flatten(program) == leaves(block) + flatten(program.drop_first()));
                assert(leaves(block) == flatten(parse_spec(body)));
                assert(instructions_of(tokens) == instructions_of(rest));
                if n < rest.len() {
                    lemma_body_ends_at_jump_back(rest, 1);
                    let close = seq![Token::JumpBack];
                    assert(rest =~= body + (close + tail));
                    lemma_instructions_of_concat(body, close + tail);
                    lemma_instructions_of_concat(close, tail);
                    assert(instructions_of(close.drop_first()) =~= Seq::<Instruction>::empty());
                    assert(instructions_of(close) =~= Seq::<Instruction>::empty());
                    assert(instructions_of(close) + instructions_of(tail) =~= instructions_of(
                        tail,
                    ));
                } else {
                    assert(rest =~= body);
                    assert(tail =~= Seq::<Token>::empty());
                    assert(instructions_of(body) + instructions_of(tail) =~= instructions_of(
                        body,
                    ));
                }
            },
            t => {
                lemma_parse_keeps_instruction_order(rest);
                let leaf = TreeView::Instruction(instruction_of(t).unwrap());
                assert((seq![leaf] + parse_spec(rest)).drop_first() =~= parse_spec(rest));
                assert(flatten(parse_spec(tokens)) == leaves(leaf) + flatten(parse_spec(rest)));
            },
        }
    }
}

} // verus!
