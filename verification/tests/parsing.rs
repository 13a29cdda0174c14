use bf_rs::tokenizer::{tokenize, Instruction, Token, Tree};

fn leaf(i: Instruction) -> Tree {
    Tree::Instruction(i)
}

fn flatten(trees: &[Tree], out: &mut Vec<Instruction>) {
    for t in trees {
        match t {
            Tree::Instruction(i) => out.push(*i),
            Tree::Block(body) => flatten(body, out),
        }
    }
}

#[test]
fn empty_tokens_parse_to_empty_program() {
    assert_eq!(Tree::parse(&[]), Vec::<Tree>::new());
}

#[test]
fn comment_only_source_parses_to_empty_program() {
    assert_eq!(Tree::parse(&tokenize(b"nothing to see here")), Vec::<Tree>::new());
}

#[test]
fn each_plain_token_becomes_its_leaf() {
    assert_eq!(
        Tree::parse(&tokenize(b"><+-.,")),
        vec![
            leaf(Instruction::IncrementPtr),
            leaf(Instruction::DecrementPtr),
            leaf(Instruction::Increment),
            leaf(Instruction::Decrement),
            leaf(Instruction::Output),
            leaf(Instruction::Input),
        ]
    );
}

#[test]
fn brackets_become_a_block() {
    assert_eq!(
        Tree::parse(&tokenize(b"+[-]>")),
        vec![
            leaf(Instruction::Increment),
            Tree::Block(vec![leaf(Instruction::Decrement)]),
            leaf(Instruction::IncrementPtr),
        ]
    );
}

#[test]
fn nested_brackets_nest_blocks() {
    assert_eq!(
        Tree::parse(&tokenize(b"[>[-]<[+[.]]],")),
        vec![
            Tree::Block(vec![
                leaf(Instruction::IncrementPtr),
                Tree::Block(vec![leaf(Instruction::Decrement)]),
                leaf(Instruction::DecrementPtr),
                Tree::Block(vec![
                    leaf(Instruction::Increment),
                    Tree::Block(vec![leaf(Instruction::Output)]),
                ]),
            ]),
            leaf(Instruction::Input),
        ]
    );
}

#[test]
fn loop_of_loops_only() {
    assert_eq!(
        Tree::parse(&tokenize(b"[[][]]")),
        vec![Tree::Block(vec![Tree::Block(vec![]), Tree::Block(vec![])])]
    );
}

#[test]
fn empty_loop_is_an_empty_block() {
    assert_eq!(Tree::parse(&[Token::JumpFwd, Token::JumpBack]), vec![Tree::Block(vec![])]);
}

#[test]
fn closing_bracket_that_closes_nothing_is_skipped() {
    assert_eq!(
        Tree::parse(&tokenize(b"]+]]-")),
        vec![leaf(Instruction::Increment), leaf(Instruction::Decrement)]
    );
}

#[test]
fn opening_bracket_without_match_takes_the_rest() {
    assert_eq!(
        Tree::parse(&tokenize(b"+[->")),
        vec![
            leaf(Instruction::Increment),
            Tree::Block(vec![leaf(Instruction::Decrement), leaf(Instruction::IncrementPtr)]),
        ]
    );
    assert_eq!(
        Tree::parse(&tokenize(b"[[+]")),
        vec![Tree::Block(vec![Tree::Block(vec![leaf(Instruction::Increment)])])]
    );
    assert_eq!(Tree::parse(&tokenize(b"[")), vec![Tree::Block(vec![])]);
}

#[test]
fn deep_nesting_is_kept() {
    let depth = 200;
    let mut source = vec![b'['; depth];
    source.push(b'+');
    source.extend(vec![b']'; depth]);
    let mut trees = Tree::parse(&tokenize(&source));
    for _ in 0..depth {
        assert_eq!(trees.len(), 1);
        trees = match trees.pop() {
            Some(Tree::Block(body)) => body,
            other => panic!("expected a block, found {:?}", other),
        };
    }
    assert_eq!(trees, vec![leaf(Instruction::Increment)]);
}

#[test]
fn leaves_keep_the_order_of_the_tokens() {
    let source = b"+[>-[.<]],]>[[+]-";
    let mut leaves = Vec::new();
    flatten(&Tree::parse(&tokenize(source)), &mut leaves);
    assert_eq!(
        leaves,
        vec![
            Instruction::Increment,
            Instruction::IncrementPtr,
            Instruction::Decrement,
            Instruction::Output,
            Instruction::DecrementPtr,
            Instruction::Input,
            Instruction::IncrementPtr,
            Instruction::Increment,
            Instruction::Decrement,
        ]
    );
}
