//! The serialized shape of a program: every leaf is the name of its
//! instruction, every block is the list of its children.

use crate::tokenizer::{lemma_trees_view_push, trees_view, Instruction, Tree, TreeView};
use vstd::prelude::*;

verus! {

/// A serialized value: a bare name, or an ordered list of values.
#[derive(Debug, PartialEq)]
pub enum Shape {
    Name(String),
    List(Vec<Shape>),
}

/// The mathematical value of a [`Shape`].
pub ghost enum ShapeView {
    Name(Seq<char>),
    List(Seq<ShapeView>),
}

/// The value of one shape.
pub open spec fn shape_view(s: Shape) -> ShapeView
    decreases s,
{
    match s {
        Shape::Name(n) => ShapeView::Name(n@),
        Shape::List(items) => ShapeView::List(shapes_view(items@)),
    }
}

/// The values of a sequence of shapes, in order.
pub open spec fn shapes_view(shapes: Seq<Shape>) -> Seq<ShapeView>
    decreases shapes,
{
    if shapes.len() == 0 {
        Seq::empty()
    } else {
        shapes_view(shapes.drop_last()).push(shape_view(shapes.last()))
    }
}

impl View for Shape {
    type V = ShapeView;

    open spec fn view(&self) -> ShapeView {
        shape_view(*self)
    }
}

/// The name under which an instruction is written.
pub open spec fn name_of(i: Instruction) -> Seq<char> {
    match i {
        Instruction::IncrementPtr => "increment-pointer"@,
        Instruction::DecrementPtr => "decrement-pointer"@,
        Instruction::Increment => "increment-cell"@,
        Instruction::Decrement => "decrement-cell"@,
        Instruction::Output => "output"@,
        Instruction::Input => "input"@,
    }
}

/// The instruction that a name stands for, if it is one of the six names.
pub open spec fn instruction_named(name: Seq<char>) -> Option<Instruction> {
    if name == "increment-pointer"@ {
        Some(Instruction::IncrementPtr)
    } else if name == "decrement-pointer"@ {
        Some(Instruction::DecrementPtr)
    } else if name == "increment-cell"@ {
        Some(Instruction::Increment)
    } else if name == "decrement-cell"@ {
        Some(Instruction::Decrement)
    } else if name == "output"@ {
        Some(Instruction::Output)
    } else if name == "input"@ {
        Some(Instruction::Input)
    } else {
        None
    }
}

/// The serialized shape of one tree.
pub open spec fn encode_spec(t: TreeView) -> ShapeView
    decreases t,
{
    match t {
        TreeView::Instruction(i) => ShapeView::Name(name_of(i)),
        TreeView::Block(body) => ShapeView::List(encode_all_spec(body)),
    }
}

/// The serialized shapes of a sequence of trees, in order.
pub open spec fn encode_all_spec(trees: Seq<TreeView>) -> Seq<ShapeView>
    decreases trees,
{
    if trees.len() == 0 {
        Seq::empty()
    } else {
        encode_all_spec(trees.drop_last()).push(encode_spec(trees.last()))
    }
}

/// The tree that a shape stands for: a known name is a leaf, a list whose
/// items all stand for trees is a block, and nothing else is a tree.
pub open spec fn decode_spec(s: ShapeView) -> Option<TreeView>
    decreases s,
{
    match s {
        ShapeView::Name(n) => match instruction_named(n) {
            Some(i) => Some(TreeView::Instruction(i)),
            None => None,
        },
        ShapeView::List(items) => match decode_all_spec(items) {
            Some(body) => Some(TreeView::Block(body)),
            None => None,
        },
    }
}

/// The trees that a sequence of shapes stands for, if each stands for one.
pub open spec fn decode_all_spec(shapes: Seq<ShapeView>) -> Option<Seq<TreeView>>
    decreases shapes,
{
    if shapes.len() == 0 {
        Some(Seq::empty())
    } else {
        match (decode_all_spec(shapes.drop_last()), decode_spec(shapes.last())) {
            (Some(front), Some(t)) => Some(front.push(t)),
            _ => None,
        }
    }
}

/// The six names are six different strings.
pub proof fn lemma_names_differ(a: Instruction, b: Instruction)
    ensures
        name_of(a) == name_of(b) ==> a == b,
        instruction_named(name_of(a)) == Some(a),
{
    reveal_strlit("increment-pointer");
    reveal_strlit("decrement-pointer");
    reveal_strlit("increment-cell");
    reveal_strlit("decrement-cell");
    reveal_strlit("output");
    reveal_strlit("input");
    assert("increment-pointer"@ != "decrement-pointer"@) by {
        assert("increment-pointer"@[0] != "decrement-pointer"@[0]);
    }
    assert("increment-pointer"@ != "increment-cell"@) by {
        assert("increment-pointer"@.len() != "increment-cell"@.len());
    }
    assert("increment-pointer"@ != "decrement-cell"@) by {
        assert("increment-pointer"@.len() != "decrement-cell"@.len());
    }
    assert("increment-pointer"@ != "output"@) by {
        assert("increment-pointer"@.len() != "output"@.len());
    }
    assert("increment-pointer"@ != "input"@) by {
        assert("increment-pointer"@.len() != "input"@.len());
    }
    assert("decrement-pointer"@ != "increment-cell"@) by {
        assert("decrement-pointer"@.len() != "increment-cell"@.len());
    }
    assert("decrement-pointer"@ != "decrement-cell"@) by {
        assert("decrement-pointer"@.len() != "decrement-cell"@.len());
    }
    assert("decrement-pointer"@ != "output"@) by {
        assert("decrement-pointer"@.len() != "output"@.len());
    }
    assert("decrement-pointer"@ != "input"@) by {
        assert("decrement-pointer"@.len() != "input"@.len());
    }
    assert("increment-cell"@ != "decrement-cell"@) by {
        assert("increment-cell"@[0] != "decrement-cell"@[0]);
    }
    assert("increment-cell"@ != "output"@) by {
        assert("increment-cell"@.len() != "output"@.len());
    }
    assert("increment-cell"@ != "input"@) by {
        assert("increment-cell"@.len() != "input"@.len());
    }
    assert("decrement-cell"@ != "output"@) by {
        assert("decrement-cell"@.len() != "output"@.len());
    }
    assert("decrement-cell"@ != "input"@) by {
        assert("decrement-cell"@.len() != "input"@.len());
    }
    assert("output"@ != "input"@) by {
        assert("output"@.len() != "input"@.len());
    }
}

/// Decoding what was encoded gives the tree back, at any nesting depth.
pub proof fn lemma_decode_encode(t: TreeView)
    ensures
        decode_spec(encode_spec(t)) == Some(t),
    decreases t,
{
    match t {
        TreeView::Instruction(i) => {
            lemma_names_differ(i, i);
        },
        TreeView::Block(body) => {
            lemma_decode_encode_all(body);
        },
    }
}

/// Decoding what was encoded gives the program back.
pub proof fn lemma_decode_encode_all(trees: Seq<TreeView>)
    ensures
        decode_all_spec(encode_all_spec(trees)) == Some(trees),
    decreases trees,
{
    if trees.len() != 0 {
        let shapes = encode_all_spec(trees);
        lemma_decode_encode_all(trees.drop_last());
        lemma_decode_encode(trees.last());
        assert(shapes.drop_last() =~= encode_all_spec(trees.drop_last()));
        assert(shapes.last() == encode_spec(trees.last()));
        assert(trees.drop_last().push(trees.last()) =~= trees);
    }
}

/// Appending one shape appends its value.
pub proof fn lemma_shapes_view_push(shapes: Seq<Shape>, s: Shape)
    ensures
        shapes_view(shapes.push(s)) == shapes_view(shapes).push(s@),
{
    assert(shapes.push(s).drop_last() =~= shapes);
}

/// The value of a sequence of shapes has one entry for each shape.
pub proof fn lemma_shapes_view_index(shapes: Seq<Shape>, i: int)
    requires
        0 <= i < shapes.len(),
    ensures
        shapes_view(shapes).len() == shapes.len(),
        shapes_view(shapes)[i] == shape_view(shapes[i]),
    decreases shapes.len(),
{
    lemma_shapes_view_len(shapes);
    if i < shapes.len() - 1 {
        lemma_shapes_view_index(shapes.drop_last(), i);
    }
}

/// The value of a sequence of shapes is as long as the sequence.
pub proof fn lemma_shapes_view_len(shapes: Seq<Shape>)
    ensures
        shapes_view(shapes).len() == shapes.len(),
    decreases shapes.len(),
{
    if shapes.len() != 0 {
        lemma_shapes_view_len(shapes.drop_last());
    }
}

/// One item that stands for no tree spoils the whole list.
pub proof fn lemma_decode_all_fails(shapes: Seq<ShapeView>, i: int)
    requires
        0 <= i < shapes.len(),
        decode_spec(shapes[i]).is_none(),
    ensures
        decode_all_spec(shapes).is_none(),
    decreases shapes.len(),
{
    if i < shapes.len() - 1 {
        lemma_decode_all_fails(shapes.drop_last(), i);
    }
}

/// The name under which an instruction is written.
pub fn instruction_name(i: Instruction) -> (name: &'static str)
    ensures
        name@ == name_of(i),
{
    match i {
        Instruction::IncrementPtr => "increment-pointer",
        Instruction::DecrementPtr => "decrement-pointer",
        Instruction::Increment => "increment-cell",
        Instruction::Decrement => "decrement-cell",
        Instruction::Output => "output",
        Instruction::Input => "input",
    }
}

/// Whether `name` is spelled exactly as `word`.
fn is_word(name: &String, word: &str) -> (same: bool)
    ensures
        same == (name@ == word@),
{
    let other = word.to_owned();
    *name == other
}

/// Looks an instruction up by its name.
pub fn instruction_from_name(name: &String) -> (r: Option<Instruction>)
    ensures
        r == instruction_named(name@),
{
    if is_word(name, "increment-pointer") {
        Some(Instruction::IncrementPtr)
    } else if is_word(name, "decrement-pointer") {
        Some(Instruction::DecrementPtr)
    } else if is_word(name, "increment-cell") {
        Some(Instruction::Increment)
    } else if is_word(name, "decrement-cell") {
        Some(Instruction::Decrement)
    } else if is_word(name, "output") {
        Some(Instruction::Output)
    } else if is_word(name, "input") {
        Some(Instruction::Input)
    } else {
        None
    }
}

/// Serializes one tree.
pub fn encode(tree: &Tree) -> (s: Shape)
    ensures
        s@ == encode_spec(tree@),
    decreases *tree,
{
    match tree {
        Tree::Instruction(i) => Shape::Name(instruction_name(*i).to_owned()),
        Tree::Block(body) => Shape::List(encode_all(body.as_slice())),
    }
}

/// Serializes a program, tree by tree.
pub fn encode_all(trees: &[Tree]) -> (shapes: Vec<Shape>)
    ensures
        shapes_view(shapes@) == encode_all_spec(trees_view(trees@)),
    decreases trees@,
{
    let mut out: Vec<Shape> = Vec::new();
    let mut j: usize = 0;
    proof {
        assert(trees@.take(0) =~= Seq::<Tree>::empty());
    }
    while j < trees.len()
        invariant
            j <= trees.len(),
            shapes_view(out@) == encode_all_spec(trees_view(trees@.take(j as int))),
        decreases trees.len() - j,
    {
        let s = encode(&trees[j]);
        proof {
            let front = trees@.take(j as int);
            assert(trees@.take(j + 1) =~= front.push(trees@[j as int]));
            lemma_trees_view_push(front, trees@[j as int]);
            lemma_shapes_view_push(out@, s);
            assert(trees_view(front).push(trees@[j as int]@).drop_last() =~= trees_view(front));
        }
        out.push(s);
        j += 1;
    }
    proof {
        assert(trees@.take(j as int) =~= trees@);
    }
    out
}

/// Reads one tree back. `None` where the shape holds a name that is none of
/// the six, at any depth.
pub fn decode(shape: &Shape) -> (r: Option<Tree>)
    ensures
        match r {
            Some(t) => decode_spec(shape@) == Some(t@),
            None => decode_spec(shape@).is_none(),
        },
    decreases *shape,
{
    match shape {
        Shape::Name(n) => match instruction_from_name(n) {
            Some(i) => Some(Tree::Instruction(i)),
            None => None,
        },
        Shape::List(items) => match decode_all(items.as_slice()) {
            Some(body) => Some(Tree::Block(body)),
            None => None,
        },
    }
}

/// Reads a program back, item by item. `None` where any item is no tree.
pub fn decode_all(shapes: &[Shape]) -> (r: Option<Vec<Tree>>)
    ensures
        match r {
            Some(trees) => decode_all_spec(shapes_view(shapes@)) == Some(trees_view(trees@)),
            None => decode_all_spec(shapes_view(shapes@)).is_none(),
        },
    decreases shapes@,
{
    let mut out: Vec<Tree> = Vec::new();
    let mut j: usize = 0;
    proof {
        assert(shapes@.take(0) =~= Seq::<Shape>::empty());
    }
    while j < shapes.len()
        invariant
            j <= shapes.len(),
            decode_all_spec(shapes_view(shapes@.take(j as int))) == Some(trees_view(out@)),
        decreases shapes.len() - j,
    {
        match decode(&shapes[j]) {
            Some(t) => {
                proof {
                    let front = shapes@.take(j as int);
                    assert(shapes@.take(j + 1) =~= front.push(shapes@[j as int]));
                    lemma_shapes_view_push(front, shapes@[j as int]);
                    lemma_trees_view_push(out@, t);
                    assert(shapes_view(front).push(shapes@[j as int]@).drop_last() =~= shapes_view(
                        front,
                    ));
                }
                out.push(t);
            },
            None => {
                proof {
                    lemma_shapes_view_index(shapes@, j as int);
                    lemma_decode_all_fails(shapes_view(shapes@), j as int);
                }
                return None;
            },
        }
        j += 1;
    }
    proof {
        assert(shapes@.take(j as int) =~= shapes@);
    }
    Some(out)
}

} // verus!
