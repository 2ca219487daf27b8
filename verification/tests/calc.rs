use interview::calc::{parse, Node, Operator};

fn value(s: &str) -> Box<Node> {
    Box::new(Node::Value(String::from(s)))
}

#[test]
fn test_parse_value() {
    assert_eq!(Some(Node::Value(String::from("2"))), parse("2"));
    assert_eq!(Some(Node::Value(String::from("-.25"))), parse(" -.25 "));
    assert_eq!(Some(Node::Value(String::from("12"))), parse("1 2"));
    assert_eq!(None, parse(""));
    assert_eq!(None, parse("-"));
    assert_eq!(None, parse("."));
    assert_eq!(None, parse("1.2.3"));
    assert_eq!(None, parse("+1"));
}

#[test]
fn test_parse_precedence() {
    assert_eq!(
        Some(Node::Binary(
            Operator::Add,
            value("2"),
            Box::new(Node::Binary(Operator::Divide, value("3"), value("4")))
        )),
        parse("2+3/4")
    );
    assert_eq!(
        Some(Node::Binary(
            Operator::Substract,
            Box::new(Node::Binary(Operator::Multiply, value("2"), value("3"))),
            value("4")
        )),
        parse("2*3-4")
    );
    assert_eq!(
        Some(Node::Binary(
            Operator::Add,
            Box::new(Node::Binary(
                Operator::Substract,
                value("1"),
                Box::new(Node::Binary(
                    Operator::Divide,
                    Box::new(Node::Binary(Operator::Multiply, value("5"), value("2"))),
                    value("20")
                ))
            )),
            value("1")
        )),
        parse("1 - 5 * 2 / 20 + 1")
    );
}

#[test]
fn test_parse_parentheses() {
    assert_eq!(
        Some(Node::Binary(
            Operator::Multiply,
            value("2"),
            Box::new(Node::SubNode(Box::new(Node::Binary(
                Operator::Add,
                value("3"),
                value("4")
            ))))
        )),
        parse("2*(3+4)")
    );
    assert_eq!(None, parse("(2"));
    assert_eq!(None, parse("2+"));
    assert_eq!(Some(Node::Value(String::from("2"))), parse("2)"));
    assert_eq!(
        Some(Node::Binary(
            Operator::Substract,
            Box::new(Node::Binary(Operator::Multiply, value("2"), value("-3"))),
            value("-4")
        )),
        parse("2*-3--4")
    );
}

fn eval_term(t: &Node) -> f64 {
    match t {
        Node::Value(v) => v.parse().unwrap(),
        Node::SubNode(t) => eval_term(t),
        Node::Binary(Operator::Add, t1, t2) => eval_term(t1) + eval_term(t2),
        Node::Binary(Operator::Substract, t1, t2) => eval_term(t1) - eval_term(t2),
        Node::Binary(Operator::Multiply, t1, t2) => eval_term(t1) * eval_term(t2),
        Node::Binary(Operator::Divide, t1, t2) => eval_term(t1) / eval_term(t2),
    }
}

fn eval(txt: &str) -> f64 {
    match parse(txt) {
        Some(t) => eval_term(&t),
        None => panic!("Cannot parse {}", txt),
    }
}

#[test]
fn test_eval() {
    assert_eq!(2.0, eval("2"));
    assert_eq!(4.0, eval("2+2"));
    assert_eq!(11.0 / 4.0, eval("2+3/4"));
    assert_eq!(2.0, eval("2*3-4"));
    assert_eq!(89.0 / 6.0, eval("2*(3+4)+5/6"));
    assert_eq!(14.0, eval("2 * (3 -1) + 2 * 5"));
    assert_eq!(7000.0, eval("2 * (3 + (4 * 5 + (6 * 7) * 8) - 9) * 10"));
    assert_eq!(-9.0 / 4.0, eval("2*-3--4+-.25"));
    assert_eq!(1.5, eval("1 - 5 * 2 / 20 + 1"));
    assert_eq!(3.5, eval("2 * (3 + ((5) / (7 - 11)))"));
}
