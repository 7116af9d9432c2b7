use roketok::config::{CharPred, Configuration, TokenConfiguration};
use roketok::iter::StreamIterator;
use roketok::Tokenizer;

#[derive(Clone, Copy, Debug, PartialEq)]
enum Kind {
    Letter,
    Invalid,
}

impl Default for Kind {
    fn default() -> Self {
        Kind::Invalid
    }
}

#[test]
fn cursor_walks_and_records() {
    let mut it = StreamIterator::new("ab\nc");
    assert_eq!(it.position(), 0);
    assert_eq!(it.peek(), Some('a'));
    assert_eq!(it.last(), None);

    assert_eq!(it.next(), Some('a'));
    assert_eq!(it.position(), 1);
    assert_eq!(it.last(), Some('a'));
    assert_eq!(it.peek(), Some('b'));
    assert_eq!((it.record().row(), it.record().col()), (1, 1));

    assert_eq!(it.next(), Some('b'));
    assert_eq!((it.record().row(), it.record().col()), (1, 2));

    assert_eq!(it.next(), Some('\n'));
    assert_eq!((it.record().row(), it.record().col()), (2, 0));

    assert_eq!(it.next(), Some('c'));
    assert_eq!((it.record().row(), it.record().col()), (2, 1));

    assert_eq!(it.next(), None);
    assert_eq!(it.peek(), None);
    assert_eq!(it.position(), 4);
}

#[test]
fn cursor_grabs_ranges() {
    let it = StreamIterator::new("hello");
    assert_eq!(it.grab(0, 5), "hello");
    assert_eq!(it.grab(1, 3), "el");
    assert_eq!(it.grab(2, 2), "");
}

#[test]
fn empty_input_builds_nothing() {
    let config = Configuration::<Kind>::new();
    let mut tokenizer = Tokenizer::new(&config, "");
    assert_eq!(tokenizer.build().len(), 0);
}

#[test]
fn whitespace_only_builds_nothing() {
    let config = Configuration::new().add_tokens(vec![(
        TokenConfiguration::Rule(CharPred::Alphabetic, CharPred::Nothing),
        Kind::Letter,
    )]);
    let mut tokenizer = Tokenizer::new(&config, " \t\r\n ");
    assert_eq!(tokenizer.build().len(), 0);
    let mut tokenizer = Tokenizer::new(&config, " \t\r\n ");
    assert_eq!(tokenizer.scan().len(), 0);
}

#[test]
fn any_of_predicate() {
    let config = Configuration::new().add_tokens(vec![(
        TokenConfiguration::Rule(
            CharPred::AnyOf(vec!['_', 'x']),
            CharPred::AnyOf(vec!['_', 'x', 'y']),
        ),
        Kind::Letter,
    )]);
    let mut tokenizer = Tokenizer::new(&config, "_xy z");
    let tokens = tokenizer.scan();
    assert_eq!(tokens.len(), 2);
    assert_eq!(tokens[0].value, "_xy");
    assert_eq!(tokens[0].kind, Kind::Letter);
    assert_eq!(tokens[1].value, "z");
    assert_eq!(tokens[1].kind, Kind::Invalid);
}

#[test]
fn add_tokens_keeps_order() {
    let config = Configuration::new()
        .add_tokens(vec![(
            TokenConfiguration::Rule(CharPred::Alphabetic, CharPred::Nothing),
            Kind::Letter,
        )])
        .add_tokens(vec![(
            TokenConfiguration::Rule(CharPred::Alphanumeric, CharPred::Nothing),
            Kind::Invalid,
        )]);
    let mut tokenizer = Tokenizer::new(&config, "a");
    let tree = tokenizer.build();
    assert_eq!(tree.len(), 1);
    match &tree[0] {
        roketok::tokens::TreeNode::Leaf(tok) => assert_eq!(tok.kind, Kind::Letter),
        _ => panic!("expected a leaf"),
    }
}
