use vstd::prelude::*;
use crate::node::Node;
use crate::operator::Operator;

verus! {

/// Why a text is not a formula in postfix notation.
#[derive(Clone, Copy, Debug, PartialEq, Eq, Structural)]
pub enum ParseError {
    /// The text is empty.
    EmptyInput,
    /// A character is none of `A`–`Z`, `0`, `1`, `!`, `&`, `|`, `^`, `>`, `=`.
    InvalidToken,
    /// An operator found fewer operands than it takes.
    InsufficientOperands,
    /// More than one formula was left when the text had been read.
    TrailingOperands,
}

/// Whether `token` names a variable.
pub open spec fn is_letter(token: char) -> bool {
    'A' <= token && token <= 'Z'
}

/// The operand stack after one more token.
///
/// A letter pushes its variable and `0` or `1` a constant; `!` replaces the
/// top of the stack with its negation; a binary operator replaces the two
/// topmost formulas with their combination, the lower one as left operand.
pub open spec fn push_token(stack: Seq<Node>, token: char) -> Result<Seq<Node>, ParseError> {
    if is_letter(token) {
        Ok(stack.push(Node::Variable(token)))
    } else if token == '1' {
        Ok(stack.push(Node::Constant(true)))
    } else if token == '0' {
        Ok(stack.push(Node::Constant(false)))
    } else {
        match Operator::of_token(token) {
            None => Err(ParseError::InvalidToken),
            Some(op) => if op is Not {
                if stack.len() < 1 {
                    Err(ParseError::InsufficientOperands)
                } else {
                    Ok(stack.drop_last().push(Node::negation(stack.last())))
                }
            } else {
                if stack.len() < 2 {
                    Err(ParseError::InsufficientOperands)
                } else {
                    Ok(
                        stack.take(stack.len() - 2).push(
                            Node::binary(op, stack[stack.len() - 2], stack[stack.len() - 1]),
                        ),
                    )
                }
            },
        }
    }
}

/// The operand stack after the tokens of `tokens`, read from left to right,
/// or the error of the first token that cannot be applied.
pub open spec fn push_tokens(stack: Seq<Node>, tokens: Seq<char>) -> Result<
    Seq<Node>,
    ParseError,
>
    decreases tokens.len(),
{
    if tokens.len() == 0 {
        Ok(stack)
    } else {
        match push_token(stack, tokens[0]) {
            Ok(next) => push_tokens(next, tokens.drop_first()),
            Err(e) => Err(e),
        }
    }
}

/// The formula that `text` denotes in postfix notation.
///
/// The empty text is `EmptyInput`. Otherwise the tokens are applied to an
/// empty stack from left to right; the first one that cannot be applied
/// gives `InvalidToken` or `InsufficientOperands`. When all are read, one
/// formula must be left: more are `TrailingOperands`.
pub open spec fn parse(text: Seq<char>) -> Result<Node, ParseError> {
    if text.len() == 0 {
        Err(ParseError::EmptyInput)
    } else {
        match push_tokens(Seq::empty(), text) {
            Err(e) => Err(e),
            Ok(stack) => if stack.len() == 1 {
                Ok(stack[0])
            } else {
                Err(ParseError::TrailingOperands)
            },
        }
    }
}

/// The formulas of a stack in postfix notation, one after the other.
pub open spec fn stack_rpn(stack: Seq<Node>) -> Seq<char>
    decreases stack.len(),
{
    if stack.len() == 0 {
        Seq::empty()
    } else {
        stack_rpn(stack.drop_last()) + stack.last().rpn()
    }
}

/// The letters that occur in the formulas of a stack.
pub open spec fn stack_letters(stack: Seq<Node>) -> Set<char>
    decreases stack.len(),
{
    if stack.len() == 0 {
        Set::empty()
    } else {
        stack_letters(stack.drop_last()).union(stack.last().letters())
    }
}

/// Whether every formula of a stack is well formed.
pub open spec fn stack_well_formed(stack: Seq<Node>) -> bool {
    forall|i: int| 0 <= i < stack.len() ==> (#[trigger] stack[i]).well_formed()
}

/// The letters among the characters of `tokens`.
pub open spec fn letter_set(tokens: Seq<char>) -> Set<char> {
    Set::new(|c: char| is_letter(c) && tokens.contains(c))
}

/// One token adds itself to the postfix text of the stack, keeps the stack
/// well formed, and adds itself to the letters of the stack if it is one.
pub proof fn lemma_push_token(stack: Seq<Node>, token: char)
    requires
        push_token(stack, token) is Ok,
    ensures
        stack_rpn(push_token(stack, token)->Ok_0) == stack_rpn(stack).push(token),
        stack_well_formed(stack) ==> stack_well_formed(push_token(stack, token)->Ok_0),
        stack_letters(push_token(stack, token)->Ok_0) == if is_letter(token) {
            stack_letters(stack).insert(token)
        } else {
            stack_letters(stack)
        },
        push_token(stack, token)->Ok_0.len() >= 1,
{
    let next = push_token(stack, token)->Ok_0;
    let n = stack.len() as int;
    if is_letter(token) || token == '1' || token == '0' {
        assert(next.drop_last() =~= stack);
        assert(stack_letters(next) =~= if is_letter(token) {
            stack_letters(stack).insert(token)
        } else {
            stack_letters(stack)
        });
    } else {
        let op = Operator::of_token(token)->0;
        if op is Not {
            assert(next.drop_last() =~= stack.drop_last());
        } else {
            let below = stack.take(n - 2);
            assert(next.drop_last() =~= below);
            assert(stack.drop_last().drop_last() =~= below);
            reveal_with_fuel(stack_rpn, 3);
            reveal_with_fuel(stack_letters, 3);
        }
    }
}

/// A run of tokens adds itself to the postfix text of the stack, keeps the
/// stack well formed, and adds its letters to those of the stack.
pub proof fn lemma_push_tokens(stack: Seq<Node>, tokens: Seq<char>)
    requires
        push_tokens(stack, tokens) is Ok,
    ensures
        stack_rpn(push_tokens(stack, tokens)->Ok_0) == stack_rpn(stack) + tokens,
        stack_well_formed(stack) ==> stack_well_formed(push_tokens(stack, tokens)->Ok_0),
        stack_letters(push_tokens(stack, tokens)->Ok_0) == stack_letters(stack).union(
            letter_set(tokens),
        ),
        tokens.len() > 0 ==> push_tokens(stack, tokens)->Ok_0.len() >= 1,
    decreases tokens.len(),
{
    let out = push_tokens(stack, tokens)->Ok_0;
    if tokens.len() == 0 {
        assert(stack_rpn(out) =~= stack_rpn(stack) + tokens);
    } else {
        let next = push_token(stack, tokens[0])->Ok_0;
        let rest = tokens.drop_first();
        lemma_push_token(stack, tokens[0]);
        lemma_push_tokens(next, rest);
        assert forall|c: char| letter_set(tokens).contains(c) == (letter_set(rest).contains(c)
            || (is_letter(tokens[0]) && c == tokens[0])) by {
            if rest.contains(c) {
                let i = choose|i: int| 0 <= i < rest.len() && rest[i] == c;
                assert(tokens[i + 1] == c);
            }
            if tokens.contains(c) {
                let i = choose|i: int| 0 <= i < tokens.len() && tokens[i] == c;
                if i > 0 {
                    assert(rest[i - 1] == c);
                }
            }
        }
        if rest.len() == 0 {
            assert(out == next);
        }
    }
}

/// Reading a text that is made of two parts is reading the first part and
/// then the second.
pub proof fn lemma_push_tokens_add(stack: Seq<Node>, first: Seq<char>, second: Seq<char>)
    ensures
        push_tokens(stack, first + second) == match push_tokens(stack, first) {
            Ok(next) => push_tokens(next, second),
            Err(e) => Err(e),
        },
    decreases first.len(),
{
    if first.len() == 0 {
        assert(first + second =~= second);
    } else {
        assert((first + second).drop_first() =~= first.drop_first() + second);
        match push_token(stack, first[0]) {
            Ok(next) => {
                lemma_push_tokens_add(next, first.drop_first(), second);
            },
            Err(_) => {},
        }
    }
}

/// Reading the postfix notation of a formula puts the formula on the stack.
pub proof fn lemma_push_rpn(stack: Seq<Node>, node: Node)
    requires
        node.well_formed(),
        forall|name: char| #[trigger] node.letters().contains(name) ==> is_letter(name),
    ensures
        push_tokens(stack, node.rpn()) == Ok::<Seq<Node>, ParseError>(stack.push(node)),
    decreases node,
{
    reveal_with_fuel(push_tokens, 2);
    match node {
        Node::Variable(name) => {
            assert(node.letters().contains(name));
        },
        Node::Constant(_) => {
            assert(node.rpn().drop_first() =~= Seq::<char>::empty());
        },
        Node::UnaryExpr { op, child } => {
            assert(node.letters() == child.letters());
            lemma_push_rpn(stack, *child);
            let last = seq![op.token()];
            assert(node.rpn() =~= child.rpn() + last);
            lemma_push_tokens_add(stack, child.rpn(), last);
            assert(stack.push(*child).drop_last() =~= stack);
        },
        Node::BinaryExpr { op, lhs, rhs } => {
            assert forall|name: char| #[trigger] lhs.letters().contains(name) implies is_letter(
                name,
            ) by {
                assert(node.letters().contains(name));
            }
            assert forall|name: char| #[trigger] rhs.letters().contains(name) implies is_letter(
                name,
            ) by {
                assert(node.letters().contains(name));
            }
            lemma_push_rpn(stack, *lhs);
            lemma_push_rpn(stack.push(*lhs), *rhs);
            let last = seq![op.token()];
            assert(node.rpn() =~= lhs.rpn() + (rhs.rpn() + last));
            lemma_push_tokens_add(stack, lhs.rpn(), rhs.rpn() + last);
            lemma_push_tokens_add(stack.push(*lhs), rhs.rpn(), last);
            let full = stack.push(*lhs).push(*rhs);
            assert(full.take(full.len() - 2) =~= stack);
        },
    }
}

/// A well-formed formula over the letters `A`–`Z` is what its postfix
/// notation parses to.
pub proof fn lemma_rpn_parse(node: Node)
    requires
        node.well_formed(),
        forall|name: char| #[trigger] node.letters().contains(name) ==> is_letter(name),
    ensures
        parse(node.rpn()) == Ok::<Node, ParseError>(node),
{
    lemma_push_rpn(Seq::empty(), node);
    lemma_rpn_not_empty(node);
}

/// The postfix notation of a formula is not empty.
proof fn lemma_rpn_not_empty(node: Node)
    ensures
        node.rpn().len() > 0,
{
}

/// Writing a parsed formula in postfix notation gives back the text it was
/// read from; the formula is well formed, and its letters are those of the
/// text.
pub proof fn lemma_parse_rpn(text: Seq<char>)
    requires
        parse(text) is Ok,
    ensures
        parse(text)->Ok_0.rpn() == text,
        parse(text)->Ok_0.well_formed(),
        parse(text)->Ok_0.letters() == letter_set(text),
{
    lemma_push_tokens(Seq::empty(), text);
    let stack = push_tokens(Seq::empty(), text)->Ok_0;
    reveal_with_fuel(stack_rpn, 2);
    reveal_with_fuel(stack_letters, 2);
    assert(stack_letters(stack) =~= stack[0].letters());
}

/// The letters of a text with one more character.
pub proof fn lemma_letter_set_push(tokens: Seq<char>, token: char)
    ensures
        letter_set(tokens.push(token)) == if is_letter(token) {
            letter_set(tokens).insert(token)
        } else {
            letter_set(tokens)
        },
{
    let longer = tokens.push(token);
    assert forall|c: char| longer.contains(c) == (tokens.contains(c) || c == token) by {
        if tokens.contains(c) {
            let i = choose|i: int| 0 <= i < tokens.len() && tokens[i] == c;
            assert(longer[i] == c);
        }
        if c == token {
            assert(longer[tokens.len() as int] == c);
        }
    }
    assert(letter_set(longer) =~= if is_letter(token) {
        letter_set(tokens).insert(token)
    } else {
        letter_set(tokens)
    });
}

} // verus!
