use vstd::prelude::*;

use crate::text::string_push;
use vstd::std_specs::iter::IteratorSpec;

verus! {

/// One of the eight Brainfuck commands.
#[derive(Debug, Clone, Copy, PartialEq, Eq, Structural)]
pub enum BFToken {
    Left,
    Right,
    Inc,
    Dec,
    Write,
    Read,
    BeginLoop,
    EndLoop,
}

/// The character that spells a token in Brainfuck source.
pub open spec fn token_char(t: BFToken) -> char {
    match t {
        BFToken::Left => '<',
        BFToken::Right => '>',
        BFToken::Inc => '+',
        BFToken::Dec => '-',
        BFToken::Write => '.',
        BFToken::Read => ',',
        BFToken::BeginLoop => '[',
        BFToken::EndLoop => ']',
    }
}

/// The token a character spells, if any.
pub open spec fn char_token(c: char) -> Option<BFToken> {
    if c == '<' {
        Some(BFToken::Left)
    } else if c == '>' {
        Some(BFToken::Right)
    } else if c == '+' {
        Some(BFToken::Inc)
    } else if c == '-' {
        Some(BFToken::Dec)
    } else if c == '.' {
        Some(BFToken::Write)
    } else if c == ',' {
        Some(BFToken::Read)
    } else if c == '[' {
        Some(BFToken::BeginLoop)
    } else if c == ']' {
        Some(BFToken::EndLoop)
    } else {
        None
    }
}

/// The tokens of a text: every character that spells a token, in order; all others are skipped.
pub open spec fn tokenize_spec(s: Seq<char>) -> Seq<BFToken>
    decreases s.len(),
{
    if s.len() == 0 {
        Seq::empty()
    } else {
        let rest = tokenize_spec(s.drop_last());
        match char_token(s.last()) {
            Some(t) => rest.push(t),
            None => rest,
        }
    }
}

/// The text spelled by a sequence of tokens.
pub open spec fn stringify_spec(tokens: Seq<BFToken>) -> Seq<char> {
    tokens.map_values(|t: BFToken| token_char(t))
}

impl BFToken {
    pub fn to_char(&self) -> (c: char)
        ensures
            c == token_char(*self),
    {
        match self {
            BFToken::Left => '<',
            BFToken::Right => '>',
            BFToken::Inc => '+',
            BFToken::Dec => '-',
            BFToken::Write => '.',
            BFToken::Read => ',',
            BFToken::BeginLoop => '[',
            BFToken::EndLoop => ']',
        }
    }

    pub fn from_char(character: char) -> (r: Option<Self>)
        ensures
            r == char_token(character),
    {
        match character {
            '<' => Some(BFToken::Left),
            '>' => Some(BFToken::Right),
            '+' => Some(BFToken::Inc),
            '-' => Some(BFToken::Dec),
            '.' => Some(BFToken::Write),
            ',' => Some(BFToken::Read),
            '[' => Some(BFToken::BeginLoop),
            ']' => Some(BFToken::EndLoop),
            _ => None,
        }
    }
}

/// Reading a token back from the character that spells it gives the token.
pub proof fn lemma_char_roundtrip(t: BFToken)
    ensures
        char_token(token_char(t)) == Some(t),
{
}

/// Tokenizing the text spelled by a sequence of tokens gives the same sequence back.
pub proof fn lemma_tokenize_stringify(tokens: Seq<BFToken>)
    ensures
        tokenize_spec(stringify_spec(tokens)) == tokens,
    decreases tokens.len(),
{
    if tokens.len() > 0 {
        let s = stringify_spec(tokens);
        assert(s.drop_last() =~= stringify_spec(tokens.drop_last()));
        lemma_tokenize_stringify(tokens.drop_last());
        lemma_char_roundtrip(tokens.last());
        assert(tokens.drop_last().push(tokens.last()) =~= tokens);
    }
}

pub fn tokenize_bf(text: &str) -> (r: Vec<BFToken>)
    ensures
        r@ == tokenize_spec(text@),
{
    broadcast use vstd::string::group_string_axioms;

    broadcast use vstd::string::group_string_axioms;

    let mut result: Vec<BFToken> = Vec::new();
    let ghost mut n: int = 0;
    for c in it: text.chars()
        invariant
            it.seq() == text@,
            n == it.index(),
            result@ == tokenize_spec(text@.take(it.index() as int)),
    {
        assert(text@.take(it.index() + 1).drop_last() =~= text@.take(it.index() as int));
        proof { n = n + 1; }
        match BFToken::from_char(c) {
            Some(t) => result.push(t),
            None => {},
        }
    }
    assert(text@.take(n) =~= text@);
    result
}

pub fn stringify_bf_tokens(tokens: &[BFToken]) -> (r: String)
    ensures
        r@ == stringify_spec(tokens@),
{
    let mut result = String::new();
    let mut i: usize = 0;
    while i < tokens.len()
        invariant
            i <= tokens@.len(),
            result@ == stringify_spec(tokens@.take(i as int)),
        decreases tokens@.len() - i,
    {
        let c = tokens[i].to_char();
        string_push(&mut result, c);
        assert(tokens@.take(i + 1) =~= tokens@.take(i as int).push(tokens@[i as int]));
        i = i + 1;
    }
    assert(tokens@.take(i as int) =~= tokens@);
    result
}

/// A Brainfuck program as a tree: runs of moves and additions are merged, loops nest.
#[derive(Debug)]
pub enum BFTree {
    Move(isize),
    Add(u8),
    Write,
    Read,
    Loop(Vec<BFTree>),
}

/// The mathematical model of a [`BFTree`].
pub enum SpecBFTree {
    Move(int),
    Add(u8),
    Write,
    Read,
    Loop(Seq<SpecBFTree>),
}

impl View for BFTree {
    type V = SpecBFTree;

    open spec fn view(&self) -> SpecBFTree
        decreases self,
    {
        match self {
            BFTree::Move(amount) => SpecBFTree::Move(*amount as int),
            BFTree::Add(amount) => SpecBFTree::Add(*amount),
            BFTree::Write => SpecBFTree::Write,
            BFTree::Read => SpecBFTree::Read,
            BFTree::Loop(body) => SpecBFTree::Loop(trees_view(body@)),
        }
    }
}

/// The models of a sequence of trees.
pub open spec fn trees_view(trees: Seq<BFTree>) -> Seq<SpecBFTree>
    decreases trees,
{
    Seq::new(
        trees.len(),
        |i: int|
            if 0 <= i < trees.len() {
                trees[i]@
            } else {
                SpecBFTree::Write
            },
    )
}

/// `n` copies of `t`.
pub open spec fn repeat_token(t: BFToken, n: nat) -> Seq<BFToken> {
    Seq::new(n, |i: int| t)
}

impl SpecBFTree {
    /// The tokens a tree prints as.
    pub open spec fn spec_tokens(self) -> Seq<BFToken>
        decreases self,
    {
        match self {
            SpecBFTree::Move(amount) => if amount < 0 {
                repeat_token(BFToken::Left, (-amount) as nat)
            } else {
                repeat_token(BFToken::Right, amount as nat)
            },
            SpecBFTree::Add(amount) => if amount > 127 {
                repeat_token(BFToken::Dec, (256 - amount) as nat)
            } else {
                repeat_token(BFToken::Inc, amount as nat)
            },
            SpecBFTree::Write => seq![BFToken::Write],
            SpecBFTree::Read => seq![BFToken::Read],
            SpecBFTree::Loop(body) => seq![BFToken::BeginLoop] + trees_tokens(body) + seq![
                BFToken::EndLoop,
            ],
        }
    }

    /// Every move of the tree has a size that an `isize` holds.
    pub open spec fn wf(self) -> bool
        decreases self,
    {
        match self {
            SpecBFTree::Move(amount) => isize::MIN < amount <= isize::MAX,
            SpecBFTree::Loop(body) => trees_wf(body),
            _ => true,
        }
    }
}

/// The tokens a sequence of trees prints as.
pub open spec fn trees_tokens(trees: Seq<SpecBFTree>) -> Seq<BFToken>
    decreases trees,
{
    if trees.len() == 0 {
        Seq::empty()
    } else {
        trees_tokens(trees.drop_last()) + trees.last().spec_tokens()
    }
}

/// Every tree of the sequence is well formed.
pub open spec fn trees_wf(trees: Seq<SpecBFTree>) -> bool
    decreases trees,
{
    if trees.len() == 0 {
        true
    } else {
        trees_wf(trees.drop_last()) && trees.last().wf()
    }
}

/// A well-formed sequence has well-formed trees at every index.
pub proof fn lemma_trees_wf_index(trees: Seq<SpecBFTree>, i: int)
    requires
        trees_wf(trees),
        0 <= i < trees.len(),
    ensures
        trees[i].wf(),
    decreases trees.len(),
{
    if i < trees.len() - 1 {
        lemma_trees_wf_index(trees.drop_last(), i);
    }
}

/// Printing a sequence of trees prints the first ones, then the last.
pub proof fn lemma_trees_tokens_take(trees: Seq<SpecBFTree>, i: int)
    requires
        0 <= i < trees.len(),
    ensures
        trees_tokens(trees.take(i + 1)) == trees_tokens(trees.take(i)) + trees[i].spec_tokens(),
{
    assert(trees.take(i + 1).drop_last() =~= trees.take(i));
}

fn push_repeat(result: &mut Vec<BFToken>, t: BFToken, n: usize)
    ensures
        final(result)@ == old(result)@ + repeat_token(t, n as nat),
{
    let mut i: usize = 0;
    while i < n
        invariant
            i <= n,
            result@ == old(result)@ + repeat_token(t, i as nat),
        decreases n - i,
    {
        result.push(t);
        i = i + 1;
        assert(result@ =~= old(result)@ + repeat_token(t, i as nat));
    }
}

impl BFTree {
    fn to_tokens_impl(&self, result: &mut Vec<BFToken>)
        requires
            self@.wf(),
        ensures
            final(result)@ == old(result)@ + self@.spec_tokens(),
        decreases self,
    {
        match self {
            BFTree::Move(amount) => {
                if *amount < 0 {
                    push_repeat(result, BFToken::Left, (-*amount) as usize);
                } else {
                    push_repeat(result, BFToken::Right, *amount as usize);
                }
            },
            BFTree::Add(amount) => {
                if *amount > 127 {
                    push_repeat(result, BFToken::Dec, (255 - *amount + 1) as usize);
                } else {
                    push_repeat(result, BFToken::Inc, *amount as usize);
                }
            },
            BFTree::Write => result.push(BFToken::Write),
            BFTree::Read => result.push(BFToken::Read),
            BFTree::Loop(vec) => {
                result.push(BFToken::BeginLoop);
                let ghost start = result@;
                let ghost body = trees_view(vec@);
                assert(self@ == SpecBFTree::Loop(body));
                let mut i: usize = 0;
                while i < vec.len()
                    invariant
                        i <= vec@.len(),
                        body == trees_view(vec@),
                        trees_wf(body),
                        *self == BFTree::Loop(*vec),
                        result@ == start + trees_tokens(body.take(i as int)),
                    decreases vec@.len() - i,
                {
                    proof {
                        lemma_trees_wf_index(body, i as int);
                        lemma_trees_tokens_take(body, i as int);
                        broadcast use vstd::std_specs::vec::axiom_vec_index_decreases;

                        assert(decreases_to!(*vec => vec[i as int]));
                        assert(decreases_to!(*self => self->Loop_0));
                    }
                    vec[i].to_tokens_impl(result);
                    i = i + 1;
                }
                assert(body.take(i as int) =~= body);
                result.push(BFToken::EndLoop);
            },
        }
    }

    pub fn to_tokens(&self) -> (r: Vec<BFToken>)
        requires
            self@.wf(),
        ensures
            r@ == self@.spec_tokens(),
    {
        let mut result = Vec::new();
        self.to_tokens_impl(&mut result);
        result
    }
}

impl Clone for BFTree {
    fn clone(&self) -> (r: Self)
        ensures
            r@ == self@,
        decreases self,
    {
        match self {
            BFTree::Move(a) => BFTree::Move(*a),
            BFTree::Add(a) => BFTree::Add(*a),
            BFTree::Write => BFTree::Write,
            BFTree::Read => BFTree::Read,
            BFTree::Loop(body) => {
                let r = BFTree::Loop(clone_trees(body));
                assert(r@ == self@) by {
                    assert(trees_view(body@) =~= self@->Loop_0);
                }
                r
            },
        }
    }
}

/// A copy of a sequence of trees.
pub fn clone_trees(trees: &Vec<BFTree>) -> (r: Vec<BFTree>)
    ensures
        trees_view(r@) == trees_view(trees@),
    decreases trees,
{
    let mut result: Vec<BFTree> = Vec::new();
    let mut i: usize = 0;
    while i < trees.len()
        invariant
            i <= trees@.len(),
            result@.len() == i,
            forall|k: int| 0 <= k < i ==> (#[trigger] result@[k])@ == trees@[k]@,
        decreases trees@.len() - i,
    {
        proof {
            broadcast use vstd::std_specs::vec::axiom_vec_index_decreases;

            assert(decreases_to!(*trees => trees[i as int]));
        }
        result.push(trees[i].clone());
        i = i + 1;
    }
    assert(trees_view(result@) =~= trees_view(trees@));
    result
}

/// Appends a move by `d` to parsed trees, merging it into a move that ends them.
pub open spec fn merge_move(acc: Seq<SpecBFTree>, d: int) -> Seq<SpecBFTree> {
    if acc.len() > 0 && acc.last() is Move {
        acc.drop_last().push(SpecBFTree::Move(acc.last()->Move_0 + d))
    } else {
        acc.push(SpecBFTree::Move(d))
    }
}

/// Appends an addition of `d` to parsed trees, merging it (modulo 256) into an addition that ends them.
pub open spec fn merge_add(acc: Seq<SpecBFTree>, d: u8) -> Seq<SpecBFTree> {
    if acc.len() > 0 && acc.last() is Add {
        acc.drop_last().push(SpecBFTree::Add(((acc.last()->Add_0 + d) % 256) as u8))
    } else {
        acc.push(SpecBFTree::Add(d))
    }
}

/// Parses `tokens` from position `i` on, after the trees `acc`, up to an unmatched `]` or the end.
/// Gives the trees and the position where parsing stopped.
pub open spec fn parse_from(tokens: Seq<BFToken>, i: int, acc: Seq<SpecBFTree>) -> (Seq<SpecBFTree>, int)
    decreases tokens.len() - i,
{
    if i < 0 || i >= tokens.len() {
        (acc, i)
    } else {
        match tokens[i] {
            BFToken::Left => parse_from(tokens, i + 1, merge_move(acc, -1)),
            BFToken::Right => parse_from(tokens, i + 1, merge_move(acc, 1)),
            BFToken::Inc => parse_from(tokens, i + 1, merge_add(acc, 1)),
            BFToken::Dec => parse_from(tokens, i + 1, merge_add(acc, 255)),
            BFToken::Write => parse_from(tokens, i + 1, acc.push(SpecBFTree::Write)),
            BFToken::Read => parse_from(tokens, i + 1, acc.push(SpecBFTree::Read)),
            BFToken::BeginLoop => {
                let inner = parse_from(tokens, i + 1, Seq::empty());
                let j = if inner.1 > i {
                    inner.1
                } else {
                    i + 1
                };
                let next = acc.push(SpecBFTree::Loop(inner.0));
                if j + 1 >= tokens.len() {
                    (next, j + 1)
                } else {
                    parse_from(tokens, j + 1, next)
                }
            },
            BFToken::EndLoop => (acc, i),
        }
    }
}

/// Parsing never stops before where it started.
pub proof fn lemma_parse_from_advances(tokens: Seq<BFToken>, i: int, acc: Seq<SpecBFTree>)
    ensures
        parse_from(tokens, i, acc).1 >= i,
    decreases tokens.len() - i,
{
    if 0 <= i < tokens.len() {
        match tokens[i] {
            BFToken::Left => lemma_parse_from_advances(tokens, i + 1, merge_move(acc, -1)),
            BFToken::Right => lemma_parse_from_advances(tokens, i + 1, merge_move(acc, 1)),
            BFToken::Inc => lemma_parse_from_advances(tokens, i + 1, merge_add(acc, 1)),
            BFToken::Dec => lemma_parse_from_advances(tokens, i + 1, merge_add(acc, 255)),
            BFToken::Write => lemma_parse_from_advances(tokens, i + 1, acc.push(SpecBFTree::Write)),
            BFToken::Read => lemma_parse_from_advances(tokens, i + 1, acc.push(SpecBFTree::Read)),
            BFToken::BeginLoop => {
                let inner = parse_from(tokens, i + 1, Seq::empty());
                let j = if inner.1 > i {
                    inner.1
                } else {
                    i + 1
                };
                if j + 1 < tokens.len() {
                    lemma_parse_from_advances(tokens, j + 1, acc.push(SpecBFTree::Loop(inner.0)));
                }
            },
            BFToken::EndLoop => {},
        }
    }
}

/// The error of parsing Brainfuck.
#[derive(Debug, Clone, Copy, PartialEq, Eq, Structural)]
pub enum BFParseError {
    UnmatchedBrackets,
}

impl BFParseError {
    /// The text that describes the error.
    pub fn to_string(&self) -> (r: String)
        ensures
            r@ == "unmatched brackets"@,
    {
        let mut r = String::new();
        crate::text::append_text(&mut r, "unmatched brackets");
        assert(r@ =~= "unmatched brackets"@);
        r
    }
}

/// Where the pointer stands after the trees run from cell `pos`, whatever the cells hold:
/// `None` where a move could leave the tape or a loop could end on another cell than it began on.
pub open spec fn trees_path(trees: Seq<SpecBFTree>, pos: int) -> Option<int>
    decreases trees,
{
    if trees.len() == 0 {
        Some(pos)
    } else {
        match trees_path(trees.drop_last(), pos) {
            Some(p) => tree_path(trees.last(), p),
            None => None,
        }
    }
}

/// Where the pointer stands after one tree runs from cell `pos`; see [`trees_path`].
pub open spec fn tree_path(tree: SpecBFTree, pos: int) -> Option<int>
    decreases tree,
{
    match tree {
        SpecBFTree::Move(amount) => if 0 <= pos + amount < TAPE_LEN {
            Some(pos + amount)
        } else {
            None
        },
        SpecBFTree::Loop(body) => if trees_path(body, pos) == Some(pos) {
            Some(pos)
        } else {
            None
        },
        _ => Some(pos),
    }
}

/// One more tree continues the path where the others left the pointer.
pub proof fn lemma_trees_path_push(trees: Seq<SpecBFTree>, tree: SpecBFTree, pos: int)
    ensures
        trees_path(trees.push(tree), pos) == match trees_path(trees, pos) {
            Some(p) => tree_path(tree, p),
            None => None,
        },
{
    assert(trees.push(tree).drop_last() =~= trees);
    assert(trees.push(tree).last() == tree);
}

/// A Brainfuck program: a sequence of trees.
#[derive(Debug)]
pub struct BFProgram(pub Vec<BFTree>);

impl View for BFProgram {
    type V = Seq<SpecBFTree>;

    open spec fn view(&self) -> Seq<SpecBFTree> {
        trees_view(self.0@)
    }
}

impl Clone for BFProgram {
    fn clone(&self) -> (r: Self)
        ensures
            r@ == self@,
    {
        BFProgram(clone_trees(&self.0))
    }
}

impl BFProgram {
    pub fn new() -> (r: Self)
        ensures
            r@ == Seq::<SpecBFTree>::empty(),
    {
        BFProgram(Vec::new())
    }

    /// Adds a tree at the end of the program.
    pub fn push_instruction(&mut self, instruction: BFTree)
        ensures
            final(self)@ == old(self)@.push(instruction@),
    {
        self.0.push(instruction);
        assert(trees_view(self.0@) =~= trees_view(old(self).0@).push(instruction@));
    }

    pub fn append(&mut self, rhs: BFProgram)
        ensures
            final(self)@ == old(self)@ + rhs@,
    {
        let ghost added = rhs@;
        let mut rhs = rhs;
        self.0.append(&mut rhs.0);
        assert(trees_view(self.0@) =~= old(self)@ + added);
    }

    fn parse_bf_tokens_impl(tokens: &[BFToken], index: &mut usize) -> (r: Vec<BFTree>)
        requires
            tokens@.len() < isize::MAX,
            *old(index) <= tokens@.len(),
        ensures
            (trees_view(r@), *final(index) as int) == parse_from(tokens@, *old(index) as int, Seq::empty()),
            *final(index) <= 2 * tokens@.len() + 1 - *old(index),
        decreases tokens@.len() - *old(index),
    {
        let ghost start = *index as int;
        let mut result: Vec<BFTree> = Vec::new();
        assert(trees_view(result@) =~= Seq::<SpecBFTree>::empty());
        while *index < tokens.len()
            invariant_except_break
                tokens@.len() < isize::MAX,
                start == *old(index),
                start <= tokens@.len(),
                start <= *index <= 2 * tokens@.len() + 1 - start,
                parse_from(tokens@, *index as int, trees_view(result@)) == parse_from(tokens@, start, Seq::empty()),
                result@.len() > 0 && result@.last() is Move ==> {
                    let k = result@.last()->Move_0;
                    -(*index as int) <= k <= *index as int
                },
            ensures
                parse_from(tokens@, *index as int, trees_view(result@)) == parse_from(tokens@, start, Seq::empty()),
                parse_from(tokens@, *index as int, trees_view(result@)) == (trees_view(result@), *index as int),
                *index <= 2 * tokens@.len() + 1 - start,
            decreases 2 * tokens@.len() + 2 - *index,
        {
            let i = *index;
            let ghost acc = trees_view(result@);
            let n = result.len();
            match tokens[i] {
                BFToken::Left | BFToken::Right => {
                    let last: Option<isize> = if n > 0 {
                        match &result[n - 1] {
                            BFTree::Move(m) => Some(*m),
                            _ => None,
                        }
                    } else {
                        None
                    };
                    let d: isize = if tokens[i] == BFToken::Left { -1 } else { 1 };
                    match last {
                        Some(m) => result.set(n - 1, BFTree::Move(m + d)),
                        None => result.push(BFTree::Move(d)),
                    }
                    assert(trees_view(result@) =~= merge_move(acc, d as int));
                },
                BFToken::Inc | BFToken::Dec => {
                    let last: Option<u8> = if n > 0 {
                        match &result[n - 1] {
                            BFTree::Add(a) => Some(*a),
                            _ => None,
                        }
                    } else {
                        None
                    };
                    let inc = tokens[i] == BFToken::Inc;
                    match last {
                        Some(a) => {
                            let b = if inc {
                                a.wrapping_add(1)
                            } else {
                                a.wrapping_sub(1)
                            };
                            result.set(n - 1, BFTree::Add(b));
                        },
                        None => result.push(BFTree::Add(if inc { 1 } else { 255 })),
                    }
                    assert(trees_view(result@) =~= merge_add(acc, if inc { 1u8 } else { 255u8 }));
                },
                BFToken::Write => {
                    result.push(BFTree::Write);
                    assert(trees_view(result@) =~= acc.push(SpecBFTree::Write));
                },
                BFToken::Read => {
                    result.push(BFTree::Read);
                    assert(trees_view(result@) =~= acc.push(SpecBFTree::Read));
                },
                BFToken::BeginLoop => {
                    *index = *index + 1;
                    let loop_body = Self::parse_bf_tokens_impl(tokens, index);
                    proof {
                        lemma_parse_from_advances(tokens@, i + 1, Seq::empty());
                    }
                    let t = BFTree::Loop(loop_body);
                    result.push(t);
                    assert(trees_view(result@) =~= acc.push(t@));
                },
                BFToken::EndLoop => {
                    break ;
                },
            }
            *index = *index + 1;
        }
        result
    }

    /// Parses a token sequence into trees; `Err` exactly when its brackets do not match.
    pub fn parse_bf_tokens(tokens: &[BFToken]) -> (r: Result<Self, BFParseError>)
        requires
            tokens@.len() < isize::MAX,
        ensures
            match r {
                Ok(p) => parse_from(tokens@, 0, Seq::empty()) == (p@, tokens@.len() as int),
                Err(e) => e == BFParseError::UnmatchedBrackets && parse_from(tokens@, 0, Seq::empty()).1
                    != tokens@.len(),
            },
    {
        let mut index: usize = 0;
        let result = Self::parse_bf_tokens_impl(tokens, &mut index);
        if index != tokens.len() {
            Err(BFParseError::UnmatchedBrackets)
        } else {
            Ok(Self(result))
        }
    }

    /// Parses Brainfuck source: its tokens, as [`BFProgram::parse_bf_tokens`] parses them.
    pub fn parse(script: &str) -> (r: Result<Self, BFParseError>)
        requires
            tokenize_spec(script@).len() < isize::MAX,
        ensures
            match r {
                Ok(p) => parse_from(tokenize_spec(script@), 0, Seq::empty()) == (
                    p@,
                    tokenize_spec(script@).len() as int,
                ),
                Err(e) => e == BFParseError::UnmatchedBrackets && parse_from(
                    tokenize_spec(script@),
                    0,
                    Seq::empty(),
                ).1 != tokenize_spec(script@).len(),
            },
    {
        let tokens = tokenize_bf(script);
        Self::parse_bf_tokens(tokens.as_slice())
    }

    fn to_bf_tokens_impl(&self, result: &mut Vec<BFToken>)
        requires
            trees_wf(self@),
        ensures
            final(result)@ == old(result)@ + trees_tokens(self@),
    {
        let ghost start = result@;
        let mut i: usize = 0;
        while i < self.0.len()
            invariant
                i <= self.0@.len(),
                trees_wf(self@),
                result@ == start + trees_tokens(self@.take(i as int)),
            decreases self.0@.len() - i,
        {
            proof {
                lemma_trees_wf_index(self@, i as int);
                lemma_trees_tokens_take(self@, i as int);
            }
            self.0[i].to_tokens_impl(result);
            i = i + 1;
        }
        assert(self@.take(i as int) =~= self@);
    }

    pub fn to_bf_tokens(&self) -> (r: Vec<BFToken>)
        requires
            trees_wf(self@),
        ensures
            r@ == trees_tokens(self@),
    {
        let mut result = Vec::new();
        self.to_bf_tokens_impl(&mut result);
        result
    }

    /// The Brainfuck source text of the program.
    pub fn to_string(&self) -> (r: String)
        requires
            trees_wf(self@),
        ensures
            r@ == stringify_spec(trees_tokens(self@)),
    {
        let tokens = self.to_bf_tokens();
        stringify_bf_tokens(tokens.as_slice())
    }
}

/// The number of cells on the tape of the interpreter.
pub const TAPE_LEN: usize = 30000;

/// One operation of a flattened Brainfuck program.
#[derive(Debug, Clone, Copy, PartialEq, Eq, Structural)]
pub enum BFOp {
    Move(isize),
    Add(u8),
    Write,
    Read,
    /// Jumps to the given position when the current cell is zero.
    JumpIfZero(usize),
    /// Jumps to the given position when the current cell is not zero.
    JumpIfNonZero(usize),
}

/// The flat code of trees whose first operation stands at position `offset`:
/// a loop becomes a jump over its body when the cell is zero, its body, and a jump back into
/// its body when the cell is not zero.
pub open spec fn flatten_trees(trees: Seq<SpecBFTree>, offset: int) -> Seq<BFOp>
    decreases trees,
{
    if trees.len() == 0 {
        Seq::empty()
    } else {
        let first = flatten_trees(trees.drop_last(), offset);
        first + flatten_tree(trees.last(), offset + first.len())
    }
}

/// The flat code of one tree whose first operation stands at position `offset`.
pub open spec fn flatten_tree(tree: SpecBFTree, offset: int) -> Seq<BFOp>
    decreases tree,
{
    match tree {
        SpecBFTree::Move(amount) => seq![BFOp::Move(amount as isize)],
        SpecBFTree::Add(amount) => seq![BFOp::Add(amount)],
        SpecBFTree::Write => seq![BFOp::Write],
        SpecBFTree::Read => seq![BFOp::Read],
        SpecBFTree::Loop(body) => {
            let inner = flatten_trees(body, offset + 1);
            seq![BFOp::JumpIfZero((offset + inner.len() + 2) as usize)] + inner + seq![
                BFOp::JumpIfNonZero((offset + 1) as usize),
            ]
        },
    }
}

/// The number of operations a sequence of trees flattens to.
pub open spec fn trees_len_bound(trees: Seq<SpecBFTree>) -> nat
    decreases trees,
{
    if trees.len() == 0 {
        0
    } else {
        trees_len_bound(trees.drop_last()) + tree_len_bound(trees.last())
    }
}

/// The number of operations a tree flattens to.
pub open spec fn tree_len_bound(tree: SpecBFTree) -> nat
    decreases tree,
{
    match tree {
        SpecBFTree::Loop(body) => trees_len_bound(body) + 2,
        _ => 1,
    }
}

proof fn lemma_flatten_len(trees: Seq<SpecBFTree>, offset: int)
    ensures
        flatten_trees(trees, offset).len() == trees_len_bound(trees),
    decreases trees,
{
    if trees.len() > 0 {
        lemma_flatten_len(trees.drop_last(), offset);
        lemma_flatten_tree_len(trees.last(), offset + flatten_trees(trees.drop_last(), offset).len());
    }
}

proof fn lemma_flatten_tree_len(tree: SpecBFTree, offset: int)
    ensures
        flatten_tree(tree, offset).len() == tree_len_bound(tree),
    decreases tree,
{
    if let SpecBFTree::Loop(body) = tree {
        lemma_flatten_len(body, offset + 1);
    }
}

proof fn lemma_len_bound_take(trees: Seq<SpecBFTree>, i: int)
    requires
        0 <= i < trees.len(),
    ensures
        trees_len_bound(trees.take(i)) + tree_len_bound(trees[i]) <= trees_len_bound(trees),
    decreases trees.len(),
{
    if i < trees.len() - 1 {
        assert(trees.drop_last().take(i) =~= trees.take(i));
        lemma_len_bound_take(trees.drop_last(), i);
    } else {
        assert(trees.drop_last() =~= trees.take(i));
    }
}

proof fn lemma_len_bound_loop(body: Seq<SpecBFTree>)
    ensures
        tree_len_bound(SpecBFTree::Loop(body)) == trees_len_bound(body) + 2,
{
}

/// What running Brainfuck acts on: the tape, where the pointer stands, the bytes of input not
/// read yet, and the bytes printed so far.
pub struct BFState {
    pub tape: Map<int, u8>,
    pub pointer: int,
    pub input: Seq<u8>,
    pub output: Seq<u8>,
}

/// The byte in a cell of the tape; zero for one never written.
pub open spec fn tape_cell(tape: Map<int, u8>, i: int) -> u8 {
    if tape.contains_key(i) {
        tape[i]
    } else {
        0
    }
}

/// The state after one tree, where it ends within `fuel` rounds of each loop it runs; `None`
/// where the pointer would leave the tape, a loop needs more rounds, or a byte is read from
/// empty input.
pub open spec fn run_bf_tree(t: SpecBFTree, st: BFState, fuel: nat) -> Option<BFState>
    decreases fuel, 0nat,
{
    match t {
        SpecBFTree::Move(d) => if 0 <= st.pointer + d < TAPE_LEN {
            Some(BFState { pointer: st.pointer + d, ..st })
        } else {
            None
        },
        SpecBFTree::Add(v) => Some(
            BFState { tape: st.tape.insert(st.pointer, ((tape_cell(st.tape, st.pointer) + v) % 256) as u8), ..st },
        ),
        SpecBFTree::Write => Some(BFState { output: st.output.push(tape_cell(st.tape, st.pointer)), ..st }),
        SpecBFTree::Read => if st.input.len() == 0 {
            None
        } else {
            Some(BFState { tape: st.tape.insert(st.pointer, st.input[0]), input: st.input.drop_first(), ..st })
        },
        SpecBFTree::Loop(body) => if tape_cell(st.tape, st.pointer) == 0 {
            Some(st)
        } else if fuel == 0 {
            None
        } else {
            match run_bf_trees(body, st, (fuel - 1) as nat) {
                Some(next) => run_bf_tree(t, next, (fuel - 1) as nat),
                None => None,
            }
        },
    }
}

/// The state after the trees, in order; `None` where one of them gives none.
pub open spec fn run_bf_trees(s: Seq<SpecBFTree>, st: BFState, fuel: nat) -> Option<BFState>
    decreases fuel, s.len(),
{
    if s.len() == 0 {
        Some(st)
    } else {
        match run_bf_trees(s.drop_last(), st, fuel) {
            Some(mid) => run_bf_tree(s.last(), mid, fuel),
            None => None,
        }
    }
}

/// Running one tree, or two one after the other, as a sequence.
#[verifier::spinoff_prover]
pub proof fn lemma_run_bf_short(x: SpecBFTree, y: SpecBFTree, st: BFState, fuel: nat)
    ensures
        run_bf_trees(seq![x], st, fuel) == run_bf_tree(x, st, fuel),
        run_bf_trees(seq![x, y], st, fuel) == match run_bf_tree(x, st, fuel) {
            Some(mid) => run_bf_tree(y, mid, fuel),
            None => None,
        },
{
    let one = seq![x];
    let two = seq![x, y];
    assert(one.drop_last() =~= Seq::<SpecBFTree>::empty());
    assert(one.last() == x);
    assert(run_bf_trees(Seq::<SpecBFTree>::empty(), st, fuel) == Some(st));
    assert(run_bf_trees(one, st, fuel) == match run_bf_trees(one.drop_last(), st, fuel) {
        Some(mid) => run_bf_tree(one.last(), mid, fuel),
        None => None,
    });
    assert(two.drop_last() =~= one);
    assert(two.last() == y);
    assert(run_bf_trees(two, st, fuel) == match run_bf_trees(two.drop_last(), st, fuel) {
        Some(mid) => run_bf_tree(two.last(), mid, fuel),
        None => None,
    });
}

/// Running two sequences of trees one after the other is running them joined.
pub proof fn lemma_run_bf_append(a: Seq<SpecBFTree>, b: Seq<SpecBFTree>, st: BFState, fuel: nat)
    ensures
        run_bf_trees(a + b, st, fuel) == match run_bf_trees(a, st, fuel) {
            Some(mid) => run_bf_trees(b, mid, fuel),
            None => None,
        },
    decreases b.len(),
{
    if b.len() == 0 {
        assert(a + b =~= a);
    } else {
        lemma_run_bf_append(a, b.drop_last(), st, fuel);
        assert((a + b).drop_last() =~= a + b.drop_last());
        assert((a + b).last() == b.last());
    }
}

/// The interpreter's machine between steps, with the input still to be given: its tape, where
/// the pointer stands, the bytes of input not given yet, and the bytes printed so far.
pub struct BFMachine {
    pub tape: Seq<u8>,
    pub pointer: int,
    pub input: Seq<u8>,
    pub output: Seq<u8>,
}

/// One step of the interpreter on the flat code at `pc`: where it goes on, and the machine
/// after; `None` where the pointer is off the tape or would leave it, `pc` is outside the code,
/// or a byte is read from empty input.
pub open spec fn machine_step(code: Seq<BFOp>, pc: int, m: BFMachine) -> Option<(int, BFMachine)> {
    if !(0 <= m.pointer < TAPE_LEN) || !(0 <= pc < code.len()) || m.tape.len() != TAPE_LEN {
        None
    } else {
        let p = m.pointer;
        let c = m.tape[p];
        match code[pc] {
            BFOp::Move(d) => if 0 <= p + d < TAPE_LEN {
                Some((pc + 1, BFMachine { pointer: p + d, ..m }))
            } else {
                None
            },
            BFOp::Add(v) => Some((pc + 1, BFMachine { tape: m.tape.update(p, ((c + v) % 256) as u8), ..m })),
            BFOp::Write => Some((pc + 1, BFMachine { output: m.output.push(c), ..m })),
            BFOp::Read => if m.input.len() == 0 {
                None
            } else {
                Some((pc + 1, BFMachine { tape: m.tape.update(p, m.input[0]), input: m.input.drop_first(), ..m }))
            },
            BFOp::JumpIfZero(t) => Some((if c == 0 { t as int } else { pc + 1 }, m)),
            BFOp::JumpIfNonZero(t) => Some((if c != 0 { t as int } else { pc + 1 }, m)),
        }
    }
}

/// `n` steps from `pc` with machine `m` lead to `pc2` with machine `m2`.
pub open spec fn steps_reach(code: Seq<BFOp>, pc: int, m: BFMachine, n: nat, pc2: int, m2: BFMachine) -> bool
    decreases n,
{
    if n == 0 {
        pc == pc2 && m == m2
    } else {
        match machine_step(code, pc, m) {
            Some((pc1, m1)) => steps_reach(code, pc1, m1, (n - 1) as nat, pc2, m2),
            None => false,
        }
    }
}

/// Steps that lead somewhere, then steps from there, lead on.
pub proof fn lemma_steps_chain(
    code: Seq<BFOp>,
    pc: int,
    m: BFMachine,
    n1: nat,
    pc1: int,
    m1: BFMachine,
    n2: nat,
    pc2: int,
    m2: BFMachine,
)
    requires
        steps_reach(code, pc, m, n1, pc1, m1),
        steps_reach(code, pc1, m1, n2, pc2, m2),
    ensures
        steps_reach(code, pc, m, n1 + n2, pc2, m2),
    decreases n1,
{
    if n1 > 0 {
        let (pa, ma) = machine_step(code, pc, m)->Some_0;
        lemma_steps_chain(code, pa, ma, (n1 - 1) as nat, pc1, m1, n2, pc2, m2);
        assert((n1 + n2 - 1) as nat == ((n1 - 1) as nat + n2) as nat);
    }
}

/// The machine is in the state that a run of the trees describes.
pub open spec fn machine_matches(m: BFMachine, st: BFState) -> bool {
    &&& m.tape.len() == TAPE_LEN
    &&& m.pointer == st.pointer
    &&& forall|i: int| 0 <= i < TAPE_LEN ==> #[trigger] m.tape[i] == tape_cell(st.tape, i)
    &&& m.input == st.input
    &&& m.output == st.output
}

/// The code holds `w` from position `o` on.
pub open spec fn code_at(code: Seq<BFOp>, o: int, w: Seq<BFOp>) -> bool {
    0 <= o && o + w.len() <= code.len() && code.subrange(o, o + w.len()) == w
}

/// Interpreting the flat code of well-formed trees, standing at its first operation, does what
/// running the trees does: where they end, the interpreter reaches the end of their code, in a
/// machine in the state they end in.
pub proof fn lemma_flat_runs_like_trees(s: Seq<SpecBFTree>, code: Seq<BFOp>, o: int, st: BFState, m: BFMachine, fuel: nat)
    requires
        trees_wf(s),
        code_at(code, o, flatten_trees(s, o)),
        code.len() < usize::MAX,
        machine_matches(m, st),
        0 <= st.pointer < TAPE_LEN,
        run_bf_trees(s, st, fuel) is Some,
    ensures
        exists|n: nat, m2: BFMachine|
            #[trigger] steps_reach(code, o, m, n, o + flatten_trees(s, o).len(), m2) && machine_matches(m2, run_bf_trees(s, st, fuel)->Some_0)
                && 0 <= m2.pointer < TAPE_LEN,
    decreases fuel, s.len(), 2nat,
{
    let whole = flatten_trees(s, o);
    if s.len() == 0 {
        assert(steps_reach(code, o, m, 0, o + whole.len(), m));
    } else {
        let prev = s.drop_last();
        let first = flatten_trees(prev, o);
        let o2 = o + first.len();
        let last = flatten_tree(s.last(), o2);
        assert(whole == first + last);
        assert(code.subrange(o, o + first.len()) =~= first) by {
            assert(code.subrange(o, o + whole.len()).subrange(0, first.len() as int) =~= first);
        }
        assert(code.subrange(o2, o2 + last.len()) =~= last) by {
            assert(code.subrange(o, o + whole.len()).subrange(first.len() as int, whole.len() as int) =~= last);
        }
        lemma_flat_runs_like_trees(prev, code, o, st, m, fuel);
        let mid = run_bf_trees(prev, st, fuel)->Some_0;
        let (n1, m1) = choose|n: nat, m2: BFMachine|
            #[trigger] steps_reach(code, o, m, n, o + first.len(), m2) && machine_matches(m2, mid) && 0 <= m2.pointer < TAPE_LEN;
        lemma_flat_runs_like_tree(s.last(), code, o2, mid, m1, fuel);
        let (n2, m2) = choose|n: nat, m3: BFMachine|
            #[trigger] steps_reach(code, o2, m1, n, o2 + last.len(), m3) && machine_matches(m3, run_bf_tree(s.last(), mid, fuel)->Some_0)
                && 0 <= m3.pointer < TAPE_LEN;
        lemma_steps_chain(code, o, m, n1, o2, m1, n2, o2 + last.len(), m2);
    }
}

/// Interpreting the flat code of one well-formed tree does what running the tree does.
proof fn lemma_flat_runs_like_tree(t: SpecBFTree, code: Seq<BFOp>, o: int, st: BFState, m: BFMachine, fuel: nat)
    requires
        t.wf(),
        code_at(code, o, flatten_tree(t, o)),
        code.len() < usize::MAX,
        machine_matches(m, st),
        0 <= st.pointer < TAPE_LEN,
        run_bf_tree(t, st, fuel) is Some,
    ensures
        exists|n: nat, m2: BFMachine|
            #[trigger] steps_reach(code, o, m, n, o + flatten_tree(t, o).len(), m2) && machine_matches(m2, run_bf_tree(t, st, fuel)->Some_0)
                && 0 <= m2.pointer < TAPE_LEN,
    decreases fuel, 0nat, 1nat,
{
    let w = flatten_tree(t, o);
    assert(code[o] == w[0]) by {
        assert(code.subrange(o, o + w.len())[0] == code[o]);
    }
    let after = run_bf_tree(t, st, fuel)->Some_0;
    match t {
        SpecBFTree::Loop(body) => {
            lemma_flat_runs_like_loop(body, code, o, st, m, fuel);
        },
        _ => {
            let (pc1, m1) = machine_step(code, o, m)->Some_0;
            assert(pc1 == o + 1);
            assert(machine_matches(m1, after)) by {
                assert forall|i: int| 0 <= i < TAPE_LEN implies #[trigger] m1.tape[i] == tape_cell(after.tape, i) by {
                    assert(m.tape[i] == tape_cell(st.tape, i));
                }
            }
            assert(steps_reach(code, pc1, m1, 0, o + 1, m1));
            assert(steps_reach(code, o, m, 1, o + w.len(), m1));
        },
    }
}

/// Interpreting the flat code of a loop, standing at its first jump, does what running the loop
/// does.
proof fn lemma_flat_runs_like_loop(body: Seq<SpecBFTree>, code: Seq<BFOp>, o: int, st: BFState, m: BFMachine, fuel: nat)
    requires
        trees_wf(body),
        code_at(code, o, flatten_tree(SpecBFTree::Loop(body), o)),
        code.len() < usize::MAX,
        machine_matches(m, st),
        0 <= st.pointer < TAPE_LEN,
        run_bf_tree(SpecBFTree::Loop(body), st, fuel) is Some,
    ensures
        exists|n: nat, m2: BFMachine|
            #[trigger] steps_reach(code, o, m, n, o + flatten_tree(SpecBFTree::Loop(body), o).len(), m2) && machine_matches(
                m2,
                run_bf_tree(SpecBFTree::Loop(body), st, fuel)->Some_0,
            ) && 0 <= m2.pointer < TAPE_LEN,
    decreases fuel, 0nat, 0nat,
{
    let t = SpecBFTree::Loop(body);
    let inner = flatten_trees(body, o + 1);
    let w = flatten_tree(t, o);
    let end = o + w.len();
    assert(w.len() == inner.len() + 2);
    assert(code[o] == BFOp::JumpIfZero((o + inner.len() + 2) as usize)) by {
        assert(code.subrange(o, o + w.len())[0] == code[o]);
    }
    assert(code[o + 1 + inner.len()] == BFOp::JumpIfNonZero((o + 1) as usize)) by {
        assert(code.subrange(o, o + w.len())[1 + inner.len() as int] == code[o + 1 + inner.len()]);
    }
    assert(code_at(code, o + 1, inner)) by {
        assert(code.subrange(o + 1, o + 1 + inner.len()) =~= code.subrange(o, o + w.len()).subrange(1, 1 + inner.len() as int));
        assert(w.subrange(1, 1 + inner.len() as int) =~= inner);
    }
    let c = m.tape[st.pointer];
    assert(c == tape_cell(st.tape, st.pointer));
    if c == 0 {
        assert(steps_reach(code, end, m, 0, end, m));
        assert(steps_reach(code, o, m, 1, end, m));
    } else {
        assert(steps_reach(code, o, m, 1, o + 1, m)) by {
            assert(steps_reach(code, o + 1, m, 0, o + 1, m));
        }
        let f = (fuel - 1) as nat;
        lemma_flat_runs_like_trees(body, code, o + 1, st, m, f);
        let next = run_bf_trees(body, st, f)->Some_0;
        let (n1, m1) = choose|n: nat, m2: BFMachine|
            #[trigger] steps_reach(code, o + 1, m, n, o + 1 + inner.len(), m2) && machine_matches(m2, next) && 0 <= m2.pointer < TAPE_LEN;
        lemma_steps_chain(code, o, m, 1, o + 1, m, n1, o + 1 + inner.len(), m1);
        let c1 = m1.tape[next.pointer];
        assert(c1 == tape_cell(next.tape, next.pointer));
        if c1 == 0 {
            assert(steps_reach(code, end, m1, 0, end, m1));
            assert(steps_reach(code, o + 1 + inner.len(), m1, 1, end, m1));
            lemma_steps_chain(code, o, m, 1 + n1, o + 1 + inner.len(), m1, 1, end, m1);
        } else {
            lemma_flat_runs_like_loop(body, code, o, next, m1, f);
            let (n3, m3) = choose|n: nat, m2: BFMachine|
                #[trigger] steps_reach(code, o, m1, n, end, m2) && machine_matches(m2, run_bf_tree(t, next, f)->Some_0)
                    && 0 <= m2.pointer < TAPE_LEN;
            assert(n3 > 0);
            assert(machine_step(code, o, m1) == Some((o + 1, m1)));
            assert(steps_reach(code, o + 1, m1, (n3 - 1) as nat, end, m3));
            assert(machine_step(code, o + 1 + inner.len(), m1) == Some((o + 1, m1)));
            assert(steps_reach(code, o + 1 + inner.len(), m1, n3, end, m3));
            lemma_steps_chain(code, o, m, 1 + n1, o + 1 + inner.len(), m1, n3, end, m3);
        }
    }
}

/// What the interpreter asks of its caller after one step.
#[derive(Debug, Clone, Copy, PartialEq, Eq, Structural)]
pub enum BFAction {
    /// Go on at the given position.
    Continue(usize),
    /// Print the byte, then go on at the given position.
    Output(u8, usize),
    /// Give a byte of input, then call the step again at the same position.
    NeedInput,
    /// The pointer left the tape.
    OutOfTape,
}

/// The Brainfuck machine: a tape of bytes and a pointer into it.
pub struct BFInterpreter {
    pub tape: Vec<u8>,
    pub pointer: usize,
}

impl BFInterpreter {
    /// The tape holds exactly [`TAPE_LEN`] cells.
    pub open spec fn wf(&self) -> bool {
        self.tape@.len() == TAPE_LEN
    }

    pub fn new() -> (r: Self)
        ensures
            r.wf(),
            r.pointer == 0,
            forall|i: int| 0 <= i < TAPE_LEN ==> r.tape@[i] == 0,
    {
        let tape = vec![0u8; TAPE_LEN];
        BFInterpreter { tape, pointer: 0 }
    }

    /// Runs the operation at `pc`. `input` is the byte given for a read, if one was asked for.
    pub fn step(&mut self, code: &[BFOp], pc: usize, input: Option<u8>) -> (r: BFAction)
        requires
            old(self).wf(),
            pc < code@.len(),
            code@.len() < usize::MAX,
        ensures
            final(self).wf(),
            old(self).pointer >= TAPE_LEN ==> r == BFAction::OutOfTape && *final(self) == *old(self),
            old(self).pointer < TAPE_LEN ==> {
                let p = old(self).pointer as int;
                let cell = old(self).tape@[p];
                match code@[pc as int] {
                    BFOp::Move(amount) => if 0 <= p + amount < TAPE_LEN {
                        r == BFAction::Continue((pc + 1) as usize) && final(self).pointer == p + amount
                            && final(self).tape@ == old(self).tape@
                    } else {
                        r == BFAction::OutOfTape && *final(self) == *old(self)
                    },
                    BFOp::Add(amount) => r == BFAction::Continue((pc + 1) as usize)
                        && final(self).pointer == p
                        && final(self).tape@ == old(self).tape@.update(p, ((cell + amount) % 256) as u8),
                    BFOp::Write => r == BFAction::Output(cell, (pc + 1) as usize) && *final(self)
                        == *old(self),
                    BFOp::Read => match input {
                        Some(b) => r == BFAction::Continue((pc + 1) as usize) && final(self).pointer
                            == p && final(self).tape@ == old(self).tape@.update(p, b),
                        None => r == BFAction::NeedInput && *final(self) == *old(self),
                    },
                    BFOp::JumpIfZero(target) => *final(self) == *old(self) && r == BFAction::Continue(
                        if cell == 0 {
                            target
                        } else {
                            (pc + 1) as usize
                        },
                    ),
                    BFOp::JumpIfNonZero(target) => *final(self) == *old(self) && r
                        == BFAction::Continue(
                        if cell != 0 {
                            target
                        } else {
                            (pc + 1) as usize
                        },
                    ),
                }
            },
            ({
                let m = BFMachine {
                    tape: old(self).tape@,
                    pointer: old(self).pointer as int,
                    input: match input {
                        Some(b) => seq![b],
                        None => Seq::<u8>::empty(),
                    },
                    output: Seq::<u8>::empty(),
                };
                match machine_step(code@, pc as int, m) {
                    Some((pc2, m2)) => final(self).tape@ == m2.tape && final(self).pointer == m2.pointer && r == if m2.output.len() > 0 {
                        BFAction::Output(m2.output[0], pc2 as usize)
                    } else {
                        BFAction::Continue(pc2 as usize)
                    },
                    None => r == BFAction::OutOfTape || r == BFAction::NeedInput,
                }
            }),
    {
        if self.pointer >= TAPE_LEN {
            return BFAction::OutOfTape;
        }
        let p = self.pointer;
        let cell = self.tape[p];
        match code[pc] {
            BFOp::Move(amount) => {
                let target: i128 = p as i128 + amount as i128;
                if 0 <= target && target < TAPE_LEN as i128 {
                    self.pointer = target as usize;
                    BFAction::Continue(pc + 1)
                } else {
                    BFAction::OutOfTape
                }
            },
            BFOp::Add(amount) => {
                self.tape.set(p, cell.wrapping_add(amount));
                BFAction::Continue(pc + 1)
            },
            BFOp::Write => BFAction::Output(cell, pc + 1),
            BFOp::Read => match input {
                Some(b) => {
                    self.tape.set(p, b);
                    BFAction::Continue(pc + 1)
                },
                None => BFAction::NeedInput,
            },
            BFOp::JumpIfZero(target) => {
                if cell == 0 {
                    BFAction::Continue(target)
                } else {
                    BFAction::Continue(pc + 1)
                }
            },
            BFOp::JumpIfNonZero(target) => {
                if cell != 0 {
                    BFAction::Continue(target)
                } else {
                    BFAction::Continue(pc + 1)
                }
            },
        }
    }
}

/// The flat code of a sequence of trees whose first operation stands at `offset`, appended to `code`.
fn flatten_impl(trees: &Vec<BFTree>, code: &mut Vec<BFOp>)
    requires
        old(code)@.len() + trees_len_bound(trees_view(trees@)) < usize::MAX,
    ensures
        final(code)@ == old(code)@ + flatten_trees(trees_view(trees@), old(code)@.len() as int),
    decreases trees,
{
    let ghost start = code@;
    let ghost tv = trees_view(trees@);
    let mut i: usize = 0;
    while i < trees.len()
        invariant
            i <= trees@.len(),
            tv == trees_view(trees@),
            start.len() + trees_len_bound(tv) < usize::MAX,
            code@ == start + flatten_trees(tv.take(i as int), start.len() as int),
        decreases trees@.len() - i,
    {
        proof {
            assert(tv.take(i + 1).drop_last() =~= tv.take(i as int));
            lemma_flatten_len(tv.take(i as int), start.len() as int);
            lemma_len_bound_take(tv, i as int);
            broadcast use vstd::std_specs::vec::axiom_vec_index_decreases;

            assert(decreases_to!(*trees => trees[i as int]));
        }
        let here = code.len();
        let ghost prefix = flatten_trees(tv.take(i as int), start.len() as int);
        assert(flatten_trees(tv.take(i + 1), start.len() as int) == prefix + flatten_tree(
            tv[i as int],
            start.len() + prefix.len() as int,
        ));
        match &trees[i] {
            BFTree::Move(a) => code.push(BFOp::Move(*a)),
            BFTree::Add(a) => code.push(BFOp::Add(*a)),
            BFTree::Write => code.push(BFOp::Write),
            BFTree::Read => code.push(BFOp::Read),
            BFTree::Loop(body) => {
                proof {
                    assert(decreases_to!(trees[i as int] => trees[i as int]->Loop_0));
                    lemma_len_bound_loop(trees_view(body@));
                    assert(tv[i as int] == SpecBFTree::Loop(trees_view(body@)));
                }
                code.push(BFOp::JumpIfZero(0));
                flatten_impl(body, code);
                proof {
                    lemma_flatten_len(trees_view(body@), here as int + 1);
                }
                let end = code.len();
                code.set(here, BFOp::JumpIfZero(end + 1));
                code.push(BFOp::JumpIfNonZero(here + 1));
            },
        }
        i = i + 1;
        assert(code@ =~= start + flatten_trees(tv.take(i as int), start.len() as int));
    }
    assert(tv.take(i as int) =~= tv);
}

impl BFProgram {
    /// The flat code of the program, which [`BFInterpreter::step`] runs from position 0.
    pub fn flatten(&self) -> (r: Vec<BFOp>)
        requires
            trees_len_bound(self@) < usize::MAX,
        ensures
            r@ == flatten_trees(self@, 0),
            r@.len() == trees_len_bound(self@),
            trees_wf(self@) ==> forall|st: BFState, m: BFMachine, fuel: nat|
                #![trigger machine_matches(m, st), run_bf_trees(self@, st, fuel)]
                machine_matches(m, st) && 0 <= st.pointer < TAPE_LEN && run_bf_trees(self@, st, fuel) is Some
                    ==> exists|n: nat, m2: BFMachine|
                    #[trigger] steps_reach(r@, 0, m, n, r@.len() as int, m2) && machine_matches(m2, run_bf_trees(self@, st, fuel)->Some_0),
    {
        let mut code: Vec<BFOp> = Vec::new();
        flatten_impl(&self.0, &mut code);
        proof {
            lemma_flatten_len(self@, 0);
            assert(code@ =~= flatten_trees(self@, 0));
            if trees_wf(self@) {
                assert forall|st: BFState, m: BFMachine, fuel: nat|
                    #![trigger machine_matches(m, st), run_bf_trees(self@, st, fuel)]
                    machine_matches(m, st) && 0 <= st.pointer < TAPE_LEN && run_bf_trees(self@, st, fuel) is Some
                        implies exists|n: nat, m2: BFMachine|
                        #[trigger] steps_reach(code@, 0, m, n, code@.len() as int, m2) && machine_matches(m2, run_bf_trees(self@, st, fuel)->Some_0) by {
                    assert(code@.subrange(0, code@.len() as int) =~= code@);
                    lemma_flat_runs_like_trees(self@, code@, 0, st, m, fuel);
                }
            }
        }
        code
    }
}

} // verus!

verus! {

/// Whether two neighbouring trees would be merged into one when parsed: two moves, or two
/// additions.
pub open spec fn merges(a: SpecBFTree, b: SpecBFTree) -> bool {
    (a is Move && b is Move) || (a is Add && b is Add)
}

/// The tree is in the form parsing gives: no move by zero, no addition of zero, moves that an
/// `isize` holds, and loops whose bodies are in that form.
pub open spec fn tree_canonical(x: SpecBFTree) -> bool
    decreases x,
{
    match x {
        SpecBFTree::Move(k) => k != 0 && isize::MIN < k <= isize::MAX,
        SpecBFTree::Add(a) => a != 0,
        SpecBFTree::Loop(body) => trees_canonical(body),
        _ => true,
    }
}

/// The trees are in the form parsing gives: each of them is, and no two neighbours merge.
pub open spec fn trees_canonical(t: Seq<SpecBFTree>) -> bool
    decreases t,
{
    if t.len() == 0 {
        true
    } else {
        trees_canonical(t.drop_last()) && tree_canonical(t.last()) && (t.len() >= 2 ==> !merges(
            t[t.len() - 2],
            t.last(),
        ))
    }
}

/// `w` stands in `tokens` from position `i` on.
pub open spec fn tokens_at(tokens: Seq<BFToken>, i: int, w: Seq<BFToken>) -> bool {
    0 <= i && i + w.len() <= tokens.len() && tokens.subrange(i, i + w.len()) == w
}

#[verifier::spinoff_prover]
proof fn lemma_run_move(tokens: Seq<BFToken>, i: int, n: nat, acc: Seq<SpecBFTree>, m: int, t: BFToken, d: int)
    requires
        (t == BFToken::Right && d == 1) || (t == BFToken::Left && d == -1),
        0 <= i,
        i + n <= tokens.len(),
        forall|k: int| 0 <= k < n ==> #[trigger] tokens[i + k] == t,
    ensures
        parse_from(tokens, i, acc.push(SpecBFTree::Move(m))) == parse_from(
            tokens,
            i + n,
            acc.push(SpecBFTree::Move(m + n * d)),
        ),
    decreases n,
{
    if n > 0 {
        assert(tokens[i + 0] == t);
        assert(merge_move(acc.push(SpecBFTree::Move(m)), d) =~= acc.push(SpecBFTree::Move(m + d)));
        assert forall|k: int| 0 <= k < n - 1 implies #[trigger] tokens[(i + 1) + k] == t by {
            assert(tokens[i + (k + 1)] == t);
        }
        lemma_run_move(tokens, i + 1, (n - 1) as nat, acc, m + d, t, d);
        assert(m + d + (n - 1) * d == m + n * d) by (nonlinear_arith);
    }
}

#[verifier::spinoff_prover]
proof fn lemma_run_inc(tokens: Seq<BFToken>, i: int, n: nat, acc: Seq<SpecBFTree>, m: u8)
    requires
        m + n <= 255,
        0 <= i,
        i + n <= tokens.len(),
        forall|k: int| 0 <= k < n ==> #[trigger] tokens[i + k] == BFToken::Inc,
    ensures
        parse_from(tokens, i, acc.push(SpecBFTree::Add(m))) == parse_from(
            tokens,
            i + n,
            acc.push(SpecBFTree::Add((m + n) as u8)),
        ),
    decreases n,
{
    if n > 0 {
        assert(tokens[i + 0] == BFToken::Inc);
        assert(((m + 1u8) % 256) as u8 == (m + 1) as u8);
        assert(merge_add(acc.push(SpecBFTree::Add(m)), 1) =~= acc.push(SpecBFTree::Add((m + 1) as u8)));
        assert forall|k: int| 0 <= k < n - 1 implies #[trigger] tokens[(i + 1) + k] == BFToken::Inc by {
            assert(tokens[i + (k + 1)] == BFToken::Inc);
        }
        lemma_run_inc(tokens, i + 1, (n - 1) as nat, acc, (m + 1) as u8);
    }
}

#[verifier::spinoff_prover]
proof fn lemma_run_dec(tokens: Seq<BFToken>, i: int, n: nat, acc: Seq<SpecBFTree>, m: u8)
    requires
        n <= m,
        0 <= i,
        i + n <= tokens.len(),
        forall|k: int| 0 <= k < n ==> #[trigger] tokens[i + k] == BFToken::Dec,
    ensures
        parse_from(tokens, i, acc.push(SpecBFTree::Add(m))) == parse_from(
            tokens,
            i + n,
            acc.push(SpecBFTree::Add((m - n) as u8)),
        ),
    decreases n,
{
    if n > 0 {
        assert(tokens[i + 0] == BFToken::Dec);
        assert(((m + 255u8) % 256) as u8 == (m - 1) as u8);
        assert(merge_add(acc.push(SpecBFTree::Add(m)), 255) =~= acc.push(SpecBFTree::Add((m - 1) as u8)));
        assert forall|k: int| 0 <= k < n - 1 implies #[trigger] tokens[(i + 1) + k] == BFToken::Dec by {
            assert(tokens[i + (k + 1)] == BFToken::Dec);
        }
        lemma_run_dec(tokens, i + 1, (n - 1) as nat, acc, (m - 1) as u8);
    }
}

proof fn lemma_parse_tree(tokens: Seq<BFToken>, i: int, acc: Seq<SpecBFTree>, x: SpecBFTree)
    requires
        tree_canonical(x),
        tokens_at(tokens, i, x.spec_tokens()),
        acc.len() > 0 ==> !merges(acc.last(), x),
    ensures
        parse_from(tokens, i, acc) == parse_from(tokens, i + x.spec_tokens().len(), acc.push(x)),
    decreases x, 0int,
{
    let w = x.spec_tokens();
    assert forall|k: int| 0 <= k < w.len() implies #[trigger] tokens[i + k] == w[k] by {
        assert(tokens.subrange(i, i + w.len())[k] == tokens[i + k]);
    }
    match x {
        SpecBFTree::Move(k) => {
            if k > 0 {
                assert(tokens[i + 0] == BFToken::Right);
                assert(merge_move(acc, 1) =~= acc.push(SpecBFTree::Move(1)));
                assert forall|q: int| 0 <= q < k - 1 implies #[trigger] tokens[(i + 1) + q] == BFToken::Right by {
                    assert(tokens[i + (q + 1)] == w[q + 1]);
                }
                lemma_run_move(tokens, i + 1, (k - 1) as nat, acc, 1, BFToken::Right, 1);
            } else {
                assert(tokens[i + 0] == BFToken::Left);
                assert(merge_move(acc, -1) =~= acc.push(SpecBFTree::Move(-1)));
                assert forall|q: int| 0 <= q < -k - 1 implies #[trigger] tokens[(i + 1) + q] == BFToken::Left by {
                    assert(tokens[i + (q + 1)] == w[q + 1]);
                }
                lemma_run_move(tokens, i + 1, (-k - 1) as nat, acc, -1, BFToken::Left, -1);
            }
        },
        SpecBFTree::Add(a) => {
            if a > 127 {
                assert(tokens[i + 0] == BFToken::Dec);
                assert(merge_add(acc, 255) =~= acc.push(SpecBFTree::Add(255)));
                assert forall|q: int| 0 <= q < 255 - a implies #[trigger] tokens[(i + 1) + q] == BFToken::Dec by {
                    assert(tokens[i + (q + 1)] == w[q + 1]);
                }
                lemma_run_dec(tokens, i + 1, (255 - a) as nat, acc, 255);
            } else {
                assert(tokens[i + 0] == BFToken::Inc);
                assert(merge_add(acc, 1) =~= acc.push(SpecBFTree::Add(1)));
                assert forall|q: int| 0 <= q < a - 1 implies #[trigger] tokens[(i + 1) + q] == BFToken::Inc by {
                    assert(tokens[i + (q + 1)] == w[q + 1]);
                }
                lemma_run_inc(tokens, i + 1, (a - 1) as nat, acc, 1);
            }
        },
        SpecBFTree::Write => {
            assert(tokens[i + 0] == BFToken::Write);
        },
        SpecBFTree::Read => {
            assert(tokens[i + 0] == BFToken::Read);
        },
        SpecBFTree::Loop(body) => {
            let b = trees_tokens(body);
            assert(tokens[i + 0] == BFToken::BeginLoop);
            assert(tokens_at(tokens, i + 1, b)) by {
                assert(tokens.subrange(i + 1, i + 1 + b.len()) =~= b) by {
                    assert forall|q: int| 0 <= q < b.len() implies #[trigger] tokens.subrange(i + 1, i + 1 + b.len())[q] == b[q] by {
                        assert(tokens[i + (q + 1)] == w[q + 1]);
                    }
                }
            }
            lemma_parse_trees(tokens, i + 1, Seq::empty(), body);
            let e = i + 1 + b.len();
            assert(tokens[i + (1 + b.len())] == w[1 + b.len() as int]);
            assert(tokens[e] == BFToken::EndLoop);
            assert(Seq::<SpecBFTree>::empty() + body =~= body);
            assert(parse_from(tokens, i + 1, Seq::empty()) == (body, e));
        },
    }
}

proof fn lemma_parse_trees(tokens: Seq<BFToken>, i: int, acc: Seq<SpecBFTree>, t: Seq<SpecBFTree>)
    requires
        trees_canonical(t),
        tokens_at(tokens, i, trees_tokens(t)),
        t.len() > 0 && acc.len() > 0 ==> !merges(acc.last(), t[0]),
    ensures
        parse_from(tokens, i, acc) == parse_from(tokens, i + trees_tokens(t).len(), acc + t),
    decreases t, 1int,
{
    if t.len() == 0 {
        assert(acc + t =~= acc);
    } else {
        let u = t.drop_last();
        let x = t.last();
        let a = trees_tokens(u);
        let c = x.spec_tokens();
        assert(tokens_at(tokens, i, a)) by {
            assert(tokens.subrange(i, i + a.len()) =~= tokens.subrange(i, i + a.len() + c.len()).subrange(0, a.len() as int));
            assert((a + c).subrange(0, a.len() as int) =~= a);
        }
        assert(tokens_at(tokens, i + a.len(), c)) by {
            assert(tokens.subrange(i + a.len(), i + a.len() + c.len()) =~= tokens.subrange(i, i + a.len() + c.len()).subrange(
                a.len() as int,
                (a.len() + c.len()) as int,
            ));
            assert((a + c).subrange(a.len() as int, (a.len() + c.len()) as int) =~= c);
        }
        if u.len() > 0 {
            assert(u[0] == t[0]);
        }
        lemma_parse_trees(tokens, i, acc, u);
        if u.len() > 0 {
            assert((acc + u).last() == t[t.len() - 2]);
        } else {
            assert(acc + u =~= acc);
        }
        lemma_parse_tree(tokens, i + a.len(), acc + u, x);
        assert((acc + u).push(x) =~= acc + t);
    }
}

/// Printing a program in the form parsing gives, and parsing the text back, gives the program:
/// `BFProgram::parse` of `BFProgram::to_string` is the program itself.
pub proof fn lemma_print_parse_roundtrip(p: Seq<SpecBFTree>)
    requires
        trees_canonical(p),
    ensures
        tokenize_spec(stringify_spec(trees_tokens(p))) == trees_tokens(p),
        parse_from(tokenize_spec(stringify_spec(trees_tokens(p))), 0, Seq::empty()) == (
            p,
            trees_tokens(p).len() as int,
        ),
{
    let tokens = trees_tokens(p);
    lemma_tokenize_stringify(tokens);
    assert(tokens.subrange(0, tokens.len() as int) =~= tokens);
    lemma_parse_trees(tokens, 0, Seq::empty(), p);
    assert(Seq::<SpecBFTree>::empty() + p =~= p);
}

} // verus!

verus! {

/// How a token changes the nesting of loops: `[` opens one, `]` closes one.
pub open spec fn bracket_delta(t: BFToken) -> int {
    match t {
        BFToken::BeginLoop => 1,
        BFToken::EndLoop => -1,
        _ => 0,
    }
}

/// How many more loops the tokens from position `i` up to `k` open than they close.
pub open spec fn depth(tokens: Seq<BFToken>, i: int, k: int) -> int
    decreases k - i,
{
    if k <= i {
        0
    } else {
        bracket_delta(tokens[i]) + depth(tokens, i + 1, k)
    }
}

/// Every `]` closes a `[` before it, and every `[` is closed.
pub open spec fn brackets_balanced(tokens: Seq<BFToken>) -> bool {
    &&& forall|k: int| 0 <= k <= tokens.len() ==> #[trigger] depth(tokens, 0, k) >= 0
    &&& depth(tokens, 0, tokens.len() as int) == 0
}

proof fn lemma_depth_split(tokens: Seq<BFToken>, i: int, m: int, k: int)
    requires
        i <= m <= k,
    ensures
        depth(tokens, i, k) == depth(tokens, i, m) + depth(tokens, m, k),
    decreases m - i,
{
    if i < m {
        lemma_depth_split(tokens, i + 1, m, k);
    }
}

/// Where parsing from `i` stops: at the first `]` that closes nothing opened after `i`, or,
/// where there is none, past the end by the number of loops left open.
proof fn lemma_parse_stop(tokens: Seq<BFToken>, i: int, acc: Seq<SpecBFTree>)
    requires
        0 <= i <= tokens.len(),
    ensures
        ({
            let r = parse_from(tokens, i, acc).1;
            &&& r >= i
            &&& r < tokens.len() ==> tokens[r] == BFToken::EndLoop && depth(tokens, i, r) == 0 && forall|
                k: int,
            | i <= k <= r ==> #[trigger] depth(tokens, i, k) >= 0
            &&& r >= tokens.len() ==> r == tokens.len() + depth(tokens, i, tokens.len() as int) && forall|
                k: int,
            | i <= k <= tokens.len() ==> #[trigger] depth(tokens, i, k) >= 0
        }),
    decreases tokens.len() - i,
{
    let n = tokens.len() as int;
    if i == n {
        assert forall|k: int| i <= k <= n implies #[trigger] depth(tokens, i, k) >= 0 by {
            assert(k == i);
        }
    } else {
        assert(depth(tokens, i, i) == 0);
        match tokens[i] {
            BFToken::EndLoop => {
                assert forall|k: int| i <= k <= i implies #[trigger] depth(tokens, i, k) >= 0 by {}
            },
            BFToken::BeginLoop => {
                lemma_parse_stop(tokens, i + 1, Seq::empty());
                let q = parse_from(tokens, i + 1, Seq::empty()).1;
                let next = acc.push(SpecBFTree::Loop(parse_from(tokens, i + 1, Seq::empty()).0));
                if q < n {
                    lemma_depth_split(tokens, i + 1, q, q + 1);
                    assert(depth(tokens, q + 1, q + 1) == 0);
                    assert(depth(tokens, q, q + 1) == -1);
                    assert(depth(tokens, i, q + 1) == 0);
                    assert forall|k: int| i <= k <= q + 1 implies #[trigger] depth(tokens, i, k) >= 0 by {
                        if i < k <= q {
                            assert(depth(tokens, i + 1, k) >= 0);
                        }
                    }
                    if q + 1 < n {
                        lemma_parse_stop(tokens, q + 1, next);
                        let r = parse_from(tokens, q + 1, next).1;
                        assert(parse_from(tokens, i, acc).1 == r);
                        assert forall|k: int| q + 1 <= k <= n implies depth(tokens, i, k) == depth(tokens, q + 1, k) by {
                            lemma_depth_split(tokens, i, q + 1, k);
                        }
                        if r < n {
                            assert(depth(tokens, i, r) == depth(tokens, q + 1, r));
                            assert forall|k: int| i <= k <= r implies #[trigger] depth(tokens, i, k) >= 0 by {
                                if k > q + 1 {
                                    assert(depth(tokens, i, k) == depth(tokens, q + 1, k));
                                    assert(depth(tokens, q + 1, k) >= 0);
                                }
                            }
                        } else {
                            assert(depth(tokens, i, n) == depth(tokens, q + 1, n));
                            assert forall|k: int| i <= k <= n implies #[trigger] depth(tokens, i, k) >= 0 by {
                                if k > q + 1 {
                                    assert(depth(tokens, i, k) == depth(tokens, q + 1, k));
                                    assert(depth(tokens, q + 1, k) >= 0);
                                }
                            }
                        }
                    } else {
                        assert(q + 1 == n);
                    }
                } else {
                    assert forall|k: int| i <= k <= n implies #[trigger] depth(tokens, i, k) >= 0 by {
                        if k > i {
                            assert(depth(tokens, i + 1, k) >= 0);
                        }
                    }
                }
            },
            _ => {
                let a = parse_from(tokens, i, acc);
                let acc2 = match tokens[i] {
                    BFToken::Left => merge_move(acc, -1),
                    BFToken::Right => merge_move(acc, 1),
                    BFToken::Inc => merge_add(acc, 1),
                    BFToken::Dec => merge_add(acc, 255),
                    BFToken::Write => acc.push(SpecBFTree::Write),
                    _ => acc.push(SpecBFTree::Read),
                };
                assert(a == parse_from(tokens, i + 1, acc2));
                lemma_parse_stop(tokens, i + 1, acc2);
                assert forall|k: int| i + 1 <= k <= n implies depth(tokens, i, k) == depth(tokens, i + 1, k) by {}
                assert forall|k: int| i <= k <= n && depth(tokens, i + 1, k) >= 0 implies #[trigger] depth(tokens, i, k) >= 0 by {
                    if k > i {
                        assert(depth(tokens, i, k) == depth(tokens, i + 1, k));
                    }
                }
            },
        }
    }
}

/// Parsing Brainfuck reads every token exactly when its brackets balance: the parser answers
/// `Err(UnmatchedBrackets)` exactly on the token sequences whose brackets do not.
pub proof fn lemma_parse_ok_iff_balanced(tokens: Seq<BFToken>)
    ensures
        (parse_from(tokens, 0, Seq::empty()).1 == tokens.len()) <==> brackets_balanced(tokens),
{
    lemma_parse_stop(tokens, 0, Seq::empty());
    let n = tokens.len() as int;
    let r = parse_from(tokens, 0, Seq::empty()).1;
    if r < n {
        lemma_depth_split(tokens, 0, r, r + 1);
        assert(depth(tokens, r + 1, r + 1) == 0);
        assert(depth(tokens, r, r + 1) == -1);
        assert(depth(tokens, 0, r + 1) < 0);
    }
}

} // verus!
