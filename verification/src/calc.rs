//! The grammar of a calculator: numbers, the four operations and
//! parentheses. The text is read into a tree; what the numbers are worth is
//! left to the caller.
use vstd::prelude::*;
use crate::text::{chars_of, string_of};

verus! {

/// The four operations.
#[derive(Debug, PartialEq, Eq, Clone, Copy)]
pub enum Operator {
    Add,
    Substract,
    Multiply,
    Divide,
}

/// An expression as it was read: a number by its text, an expression in
/// parentheses, or an operation on two expressions.
#[derive(Debug, PartialEq, Eq)]
pub enum Node {
    Value(String),
    SubNode(Box<Node>),
    Binary(Operator, Box<Node>, Box<Node>),
}

/// The mathematical tree that a `Node` stands for.
pub enum Expr {
    Value(Seq<char>),
    SubNode(Box<Expr>),
    Binary(Operator, Box<Expr>, Box<Expr>),
}

impl Node {
    /// The mathematical tree of this node.
    pub open spec fn expr(self) -> Expr
        decreases self,
    {
        match self {
            Node::Value(s) => Expr::Value(s@),
            Node::SubNode(n) => Expr::SubNode(Box::new(n.expr())),
            Node::Binary(op, a, b) => Expr::Binary(op, Box::new(a.expr()), Box::new(b.expr())),
        }
    }
}

impl View for Node {
    type V = Expr;

    open spec fn view(&self) -> Expr {
        self.expr()
    }
}

/// How tightly an operation binds: multiplication and division more tightly
/// than addition and subtraction.
pub open spec fn binds(op: Operator) -> nat {
    match op {
        Operator::Multiply | Operator::Divide => 2,
        _ => 1,
    }
}

/// `first op second`, where `second` was read as far to the right as it
/// goes: where the operation at the top of `second` binds no more tightly
/// than `op`, `op` is applied within its left operand first.
pub open spec fn combined(op: Operator, first: Expr, second: Expr) -> Expr
    decreases second,
{
    match second {
        Expr::Binary(op2, v21, v22) => if binds(op) >= binds(op2) {
            Expr::Binary(op2, Box::new(combined(op, first, *v21)), v22)
        } else {
            Expr::Binary(op, Box::new(first), Box::new(second))
        },
        _ => Expr::Binary(op, Box::new(first), Box::new(second)),
    }
}

/// A character of a number: a digit or the point.
pub open spec fn of_number(c: char) -> bool {
    c == '.' || ('0' <= c && c <= '9')
}

/// The place where the run of characters of a number that begins at `p`
/// ends.
pub open spec fn run_end(chars: Seq<char>, p: int) -> int
    decreases chars.len() - p,
{
    if 0 <= p < chars.len() && of_number(chars[p]) {
        run_end(chars, p + 1)
    } else {
        p
    }
}

/// The place where the text of a number that begins at `pos` ends: a minus
/// sign may come first, then the run of digits and points.
pub open spec fn number_end(chars: Seq<char>, pos: int) -> int {
    if 0 <= pos < chars.len() && chars[pos] == '-' {
        run_end(chars, pos + 1)
    } else {
        run_end(chars, pos)
    }
}

/// How many of the first `upto` characters are points, and how many are
/// digits.
pub open spec fn tally(text: Seq<char>, upto: int) -> (nat, nat)
    decreases upto,
{
    if upto <= 0 {
        (0, 0)
    } else {
        let (points, digits) = tally(text, upto - 1);
        if text[upto - 1] == '.' {
            (points + 1, digits)
        } else if '0' <= text[upto - 1] && text[upto - 1] <= '9' {
            (points, digits + 1)
        } else {
            (points, digits)
        }
    }
}

/// Whether a text of a minus sign, digits and points is a number: it has a
/// digit and no second point.
pub open spec fn is_number(text: Seq<char>) -> bool {
    tally(text, text.len() as int).0 <= 1 && tally(text, text.len() as int).1 >= 1
}

/// The number read at `pos`, with the place after it.
pub open spec fn value_at(chars: Seq<char>, pos: int) -> Option<(int, Expr)> {
    let end = number_end(chars, pos);
    if end > pos && is_number(chars.subrange(pos, end)) {
        Some((end, Expr::Value(chars.subrange(pos, end))))
    } else {
        None
    }
}

/// The operation read at `pos`, with the place after it.
pub open spec fn operator_at(chars: Seq<char>, pos: int) -> Option<(int, Operator)> {
    if pos < 0 || pos >= chars.len() {
        None
    } else if chars[pos] == '+' {
        Some((pos + 1, Operator::Add))
    } else if chars[pos] == '-' {
        Some((pos + 1, Operator::Substract))
    } else if chars[pos] == '*' {
        Some((pos + 1, Operator::Multiply))
    } else if chars[pos] == '/' {
        Some((pos + 1, Operator::Divide))
    } else {
        None
    }
}

/// The expression read at `pos`, with the place after it: an operand, and
/// if an operation follows it, the expression after that operation,
/// combined with the operand.
pub open spec fn expression_at(chars: Seq<char>, pos: int) -> Option<(int, Expr)>
    decreases chars.len() - pos, 1int,
{
    match start_at(chars, pos) {
        Some((p1, first)) => match operator_at(chars, p1) {
            Some((p2, op)) => if pos < p2 {
                match expression_at(chars, p2) {
                    Some((p3, second)) => Some((p3, combined(op, first, second))),
                    None => None,
                }
            } else {
                None
            },
            None => Some((p1, first)),
        },
        None => None,
    }
}

/// The operand read at `pos`, with the place after it: an expression in
/// parentheses, or a number.
pub open spec fn start_at(chars: Seq<char>, pos: int) -> Option<(int, Expr)>
    decreases chars.len() - pos, 0int,
{
    if 0 <= pos < chars.len() && chars[pos] == '(' {
        match expression_at(chars, pos + 1) {
            Some((p, e)) => if 0 <= p < chars.len() && chars[p] == ')' {
                Some((p + 1, Expr::SubNode(Box::new(e))))
            } else {
                None
            },
            None => None,
        }
    } else {
        value_at(chars, pos)
    }
}

/// The test that a character is no space.
pub open spec fn no_space() -> spec_fn(char) -> bool {
    |c: char| c != ' '
}

/// The text without its spaces.
pub open spec fn unspaced(s: Seq<char>) -> Seq<char> {
    s.filter(no_space())
}

/// The run of a number ends at or after its beginning, within the text.
proof fn lemma_run_end(chars: Seq<char>, p: int)
    requires
        0 <= p <= chars.len(),
    ensures
        p <= run_end(chars, p) <= chars.len(),
    decreases chars.len() - p,
{
    if p < chars.len() && of_number(chars[p]) {
        lemma_run_end(chars, p + 1);
    }
}

/// What is read ends after its beginning, within the text.
proof fn lemma_reads_forward(chars: Seq<char>, pos: int)
    requires
        0 <= pos <= chars.len(),
    ensures
        match expression_at(chars, pos) {
            Some((p, _)) => pos < p <= chars.len(),
            None => true,
        },
        match start_at(chars, pos) {
            Some((p, _)) => pos < p <= chars.len(),
            None => true,
        },
    decreases chars.len() - pos,
{
    if pos < chars.len() && chars[pos] == '(' {
        lemma_reads_forward(chars, pos + 1);
    } else {
        if pos < chars.len() && chars[pos] == '-' {
            lemma_run_end(chars, pos + 1);
        } else {
            lemma_run_end(chars, pos);
        }
    }
    match start_at(chars, pos) {
        Some((p1, first)) => match operator_at(chars, p1) {
            Some((p2, op)) => {
                lemma_reads_forward(chars, p2);
            },
            None => {},
        },
        None => {},
    }
}

/// Reads the expression that the text holds, spaces left out. `None` where
/// the text does not begin with an expression; what follows the expression
/// is not looked at.
pub fn parse(txt: &str) -> (r: Option<Node>)
    ensures
        match (r, expression_at(unspaced(txt@), 0)) {
            (Some(n), Some((_, e))) => n@ == e,
            (None, None) => true,
            _ => false,
        },
{
    let all = chars_of(txt);
    let mut chars: Vec<char> = Vec::new();
    let mut i: usize = 0;
    while i < all.len()
        invariant
            i <= all.len(),
            chars@ == unspaced(all@.take(i as int)),
        decreases all.len() - i,
    {
        proof {
            let t = all@.take(i as int);
            assert(all@.take(i + 1) =~= t.push(all@[i as int]));
            t.lemma_filter_push(all@[i as int], no_space());
        }
        if all[i] != ' ' {
            chars.push(all[i]);
        }
        i += 1;
    }
    proof {
        assert(all@.take(all@.len() as int) =~= all@);
    }
    match parse_expression(&chars, 0) {
        Some((_, n)) => Some(n),
        None => None,
    }
}

/// Reads an expression at `pos`.
fn parse_expression(chars: &Vec<char>, pos: usize) -> (r: Option<(usize, Node)>)
    requires
        pos <= chars@.len(),
    ensures
        match (r, expression_at(chars@, pos as int)) {
            (Some((p, n)), Some((q, e))) => p == q && n@ == e && pos < p <= chars@.len(),
            (None, None) => true,
            _ => false,
        },
    decreases chars@.len() - pos, 1int,
{
    proof {
        lemma_reads_forward(chars@, pos as int);
    }
    match parse_start(chars, pos) {
        Some((new_pos, first)) => {
            match parse_operator(chars, new_pos) {
                Some((new_pos2, op)) => {
                    if let Some((new_pos3, second)) = parse_expression(chars, new_pos2) {
                        Some((new_pos3, combine(op, first, second)))
                    } else {
                        None
                    }
                },
                None => Some((new_pos, first)),
            }
        },
        None => None,
    }
}

/// Puts `op` between `first` and `second`, by how tightly the operations
/// bind.
fn combine(op: Operator, first: Node, second: Node) -> (r: Node)
    ensures
        r@ == combined(op, first@, second@),
    decreases second,
{
    match second {
        Node::Binary(op2, v21, v22) => if precedence(&op) >= precedence(&op2) {
            Node::Binary(op2, Box::new(combine(op, first, *v21)), v22)
        } else {
            Node::Binary(op, Box::new(first), Box::new(Node::Binary(op2, v21, v22)))
        },
        Node::Value(s) => Node::Binary(op, Box::new(first), Box::new(Node::Value(s))),
        Node::SubNode(n) => Node::Binary(op, Box::new(first), Box::new(Node::SubNode(n))),
    }
}

/// How tightly the operation binds.
fn precedence(op: &Operator) -> (r: usize)
    ensures
        r == binds(*op),
{
    match op {
        Operator::Multiply | Operator::Divide => 2,
        _ => 1,
    }
}

/// Reads an operand at `pos`.
fn parse_start(chars: &Vec<char>, pos: usize) -> (r: Option<(usize, Node)>)
    requires
        pos <= chars@.len(),
    ensures
        match (r, start_at(chars@, pos as int)) {
            (Some((p, n)), Some((q, e))) => p == q && n@ == e && pos < p <= chars@.len(),
            (None, None) => true,
            _ => false,
        },
    decreases chars@.len() - pos, 0int,
{
    proof {
        lemma_reads_forward(chars@, pos as int);
    }
    match start_parenthesis(chars, pos) {
        Some(new_pos) => {
            let r = parse_expression(chars, new_pos);
            end_parenthesis(chars, r)
        },
        None => parse_value(chars, pos),
    }
}

/// The place after an opening parenthesis at `pos`.
fn start_parenthesis(chars: &Vec<char>, pos: usize) -> (r: Option<usize>)
    ensures
        match r {
            Some(p) => p == pos + 1 && pos < chars@.len() && chars@[pos as int] == '(',
            None => !(pos < chars@.len() && chars@[pos as int] == '('),
        },
{
    if pos < chars.len() && chars[pos] == '(' {
        Some(pos + 1)
    } else {
        None
    }
}

/// Closes the expression in parentheses that has been read.
fn end_parenthesis(chars: &Vec<char>, wrapped: Option<(usize, Node)>) -> (r: Option<(usize, Node)>)
    ensures
        match (wrapped, r) {
            (Some((pos, node)), Some((p, n))) => pos < chars@.len() && chars@[pos as int] == ')'
                && p == pos + 1 && n@ == Expr::SubNode(Box::new(node@)),
            (Some((pos, node)), None) => !(pos < chars@.len() && chars@[pos as int] == ')'),
            (None, Some(_)) => false,
            (None, None) => true,
        },
{
    match wrapped {
        Some((pos, node)) => if pos < chars.len() && chars[pos] == ')' {
            Some((pos + 1, Node::SubNode(Box::new(node))))
        } else {
            None
        },
        None => None,
    }
}

/// Reads a number at `pos`.
fn parse_value(chars: &Vec<char>, pos: usize) -> (r: Option<(usize, Node)>)
    requires
        pos <= chars@.len(),
    ensures
        match (r, value_at(chars@, pos as int)) {
            (Some((p, n)), Some((q, e))) => p == q && n@ == e && pos < p <= chars@.len(),
            (None, None) => true,
            _ => false,
        },
{
    let mut new_pos = pos;
    if new_pos < chars.len() && chars[new_pos] == '-' {
        new_pos = new_pos + 1;
    }
    while new_pos < chars.len() && (chars[new_pos] == '.' || (chars[new_pos] >= '0'
        && chars[new_pos] <= '9'))
        invariant
            pos <= new_pos <= chars@.len(),
            run_end(chars@, new_pos as int) == number_end(chars@, pos as int),
        decreases chars@.len() - new_pos,
    {
        new_pos = new_pos + 1;
    }
    if new_pos > pos {
        let mut text: Vec<char> = Vec::new();
        let mut points: usize = 0;
        let mut digits: usize = 0;
        let mut k: usize = pos;
        let ghost whole = chars@.subrange(pos as int, new_pos as int);
        while k < new_pos
            invariant
                pos <= k <= new_pos <= chars@.len(),
                whole == chars@.subrange(pos as int, new_pos as int),
                text@ == whole.take(k - pos),
                (points as nat, digits as nat) == tally(whole, k - pos),
                points <= k - pos,
                digits <= k - pos,
            decreases new_pos - k,
        {
            let c = chars[k];
            proof {
                assert(whole[k - pos] == c);
                assert(whole.take(k + 1 - pos) =~= whole.take(k - pos).push(c));
            }
            if c == '.' {
                points += 1;
            } else if c >= '0' && c <= '9' {
                digits += 1;
            }
            text.push(c);
            k += 1;
        }
        proof {
            assert(whole.take(whole.len() as int) =~= whole);
        }
        if points <= 1 && digits >= 1 {
            Some((new_pos, Node::Value(string_of(&text))))
        } else {
            None
        }
    } else {
        None
    }
}

/// Reads an operation at `pos`.
fn parse_operator(chars: &Vec<char>, pos: usize) -> (r: Option<(usize, Operator)>)
    ensures
        match (r, operator_at(chars@, pos as int)) {
            (Some((p, op)), Some((q, o))) => p == q && op == o,
            (None, None) => true,
            _ => false,
        },
{
    if pos >= chars.len() {
        None
    } else if chars[pos] == '+' {
        Some((pos + 1, Operator::Add))
    } else if chars[pos] == '-' {
        Some((pos + 1, Operator::Substract))
    } else if chars[pos] == '*' {
        Some((pos + 1, Operator::Multiply))
    } else if chars[pos] == '/' {
        Some((pos + 1, Operator::Divide))
    } else {
        None
    }
}

} // verus!
