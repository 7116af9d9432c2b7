use roketok::config::{CharPred, Configuration, TokenConfiguration};
use roketok::tokens::{Token, TreeNode};
use roketok::Tokenizer;

#[derive(Clone, Copy, Debug, PartialEq)]
enum Kind {
    Letter,
    Number,
    Eq,
    FatArrow,
    One,
    AddEq,
    Paren,
    Invalid,
}

impl Default for Kind {
    fn default() -> Self {
        Kind::Invalid
    }
}

fn leaf(node: &TreeNode<Kind>) -> &Token<Kind> {
    match node {
        TreeNode::Leaf(tok) => tok,
        TreeNode::Branch(_) => panic!("expected a leaf"),
    }
}

#[test]
fn fallback_kind() {
    let config = Configuration::<Kind>::new();
    let mut tokenizer = Tokenizer::new(&config, "x");
    let tree = tokenizer.build();
    assert_eq!(tree.len(), 1);
    let tok = leaf(&tree[0]);
    assert_eq!(tok.value, "x");
    assert_eq!(tok.kind, Kind::Invalid);
    assert_eq!(tok.record.row(), 1);
    assert_eq!(tok.record.col(), 1);
}

#[test]
fn position_tracking() {
    let config = Configuration::new().add_tokens(vec![(
        TokenConfiguration::Rule(CharPred::Alphabetic, CharPred::Nothing),
        Kind::Letter,
    )]);
    let mut tokenizer = Tokenizer::new(&config, "a\nb");
    let tree = tokenizer.build();
    assert_eq!(tree.len(), 2);
    let first = leaf(&tree[0]);
    let second = leaf(&tree[1]);
    assert_eq!(first.value, "a");
    assert_eq!((first.record.row(), first.record.col()), (1, 1));
    assert_eq!(second.value, "b");
    assert_eq!((second.record.row(), second.record.col()), (2, 1));
}

#[test]
fn longest_match() {
    let config = Configuration::new().add_tokens(vec![
        (TokenConfiguration::Boring(vec!['=']), Kind::Eq),
        (TokenConfiguration::Boring(vec!['=', '>']), Kind::FatArrow),
    ]);
    let mut tokenizer = Tokenizer::new(&config, "=>");
    let tokens = tokenizer.scan();
    assert_eq!(tokens.len(), 1);
    assert_eq!(tokens[0].value, "=>");
    assert_eq!(tokens[0].kind, Kind::FatArrow);
}

#[test]
fn rule_precedence() {
    let config = Configuration::new().add_tokens(vec![
        (
            TokenConfiguration::Rule(CharPred::Digit, CharPred::Nothing),
            Kind::Number,
        ),
        (TokenConfiguration::Boring(vec!['1']), Kind::One),
    ]);
    let mut tokenizer = Tokenizer::new(&config, "1");
    let tree = tokenizer.build();
    assert_eq!(tree.len(), 1);
    assert_eq!(leaf(&tree[0]).kind, Kind::Number);

    let mut tokenizer = Tokenizer::new(&config, "1");
    let tokens = tokenizer.scan();
    assert_eq!(tokens.len(), 1);
    assert_eq!(tokens[0].kind, Kind::Number);
}

#[test]
fn branch_round_trip() {
    let config = Configuration::new().add_tokens(vec![
        (
            TokenConfiguration::Branch(vec!['('], vec![')']),
            Kind::Paren,
        ),
        (
            TokenConfiguration::Rule(CharPred::Alphabetic, CharPred::Alphanumeric),
            Kind::Letter,
        ),
    ]);
    let mut tokenizer = Tokenizer::new(&config, "(a)");
    let tree = tokenizer.build();
    assert_eq!(tree.len(), 1);
    match &tree[0] {
        TreeNode::Branch(branch) => {
            assert_eq!(branch.value.0, "(");
            assert_eq!(branch.value.1, ")");
            assert!(branch.has_end);
            assert_eq!(branch.kind, Kind::Paren);
            assert_eq!(branch.stream.len(), 1);
            let child = leaf(&branch.stream[0]);
            assert_eq!(child.value, "a");
            assert_eq!(child.kind, Kind::Letter);
        }
        TreeNode::Leaf(_) => panic!("expected a branch"),
    }
}

#[test]
fn unterminated_branch() {
    let config = Configuration::new().add_tokens(vec![
        (
            TokenConfiguration::Branch(vec!['('], vec![')']),
            Kind::Paren,
        ),
        (
            TokenConfiguration::Rule(CharPred::Alphabetic, CharPred::Alphanumeric),
            Kind::Letter,
        ),
    ]);
    let mut tokenizer = Tokenizer::new(&config, "(a");
    let tree = tokenizer.build();
    assert_eq!(tree.len(), 1);
    match &tree[0] {
        TreeNode::Branch(branch) => {
            assert_eq!(branch.value.0, "(");
            assert_eq!(branch.value.1, "?");
            assert!(!branch.has_end);
            assert_eq!(branch.stream.len(), 1);
            assert_eq!(leaf(&branch.stream[0]).value, "a");
        }
        TreeNode::Leaf(_) => panic!("expected a branch"),
    }
}

#[test]
fn nested_branches() {
    let config = Configuration::new().add_tokens(vec![(
        TokenConfiguration::Branch(vec!['('], vec![')']),
        Kind::Paren,
    )]);
    let mut tokenizer = Tokenizer::new(&config, "((a))");
    let tree = tokenizer.build();
    assert_eq!(tree.len(), 1);
    match &tree[0] {
        TreeNode::Branch(outer) => {
            assert!(outer.has_end);
            assert_eq!(outer.stream.len(), 1);
            match &outer.stream[0] {
                TreeNode::Branch(inner) => {
                    assert!(inner.has_end);
                    assert_eq!(inner.stream.len(), 1);
                    let child = leaf(&inner.stream[0]);
                    assert_eq!(child.value, "a");
                    assert_eq!(child.kind, Kind::Invalid);
                }
                TreeNode::Leaf(_) => panic!("expected the inner branch"),
            }
        }
        TreeNode::Leaf(_) => panic!("expected the outer branch"),
    }
}

#[test]
fn multi_character_literal() {
    let config = Configuration::new()
        .add_tokens(vec![(TokenConfiguration::Boring(vec!['+', '=']), Kind::AddEq)]);
    let mut tokenizer = Tokenizer::new(&config, "+=x");
    let tree = tokenizer.build();
    assert_eq!(tree.len(), 2);
    assert_eq!(leaf(&tree[0]).value, "+=");
    assert_eq!(leaf(&tree[0]).kind, Kind::AddEq);
    assert_eq!(leaf(&tree[1]).value, "x");
    assert_eq!(leaf(&tree[1]).kind, Kind::Invalid);
}

#[test]
fn literal_prefix_not_taken_alone() {
    // The two-character literal fails halfway; the cursor falls back
    // and the single characters come out as fallback tokens.
    let config = Configuration::new()
        .add_tokens(vec![(TokenConfiguration::Boring(vec!['+', '=']), Kind::AddEq)]);
    let mut tokenizer = Tokenizer::new(&config, "+-");
    let tree = tokenizer.build();
    assert_eq!(tree.len(), 2);
    assert_eq!(leaf(&tree[0]).value, "+");
    assert_eq!(leaf(&tree[0]).kind, Kind::Invalid);
    assert_eq!(leaf(&tree[1]).value, "-");
    assert_eq!(leaf(&tree[1]).kind, Kind::Invalid);
}

#[test]
fn determinism() {
    let config = Configuration::new().add_tokens(vec![
        (
            TokenConfiguration::Branch(vec!['('], vec![')']),
            Kind::Paren,
        ),
        (
            TokenConfiguration::Rule(CharPred::Alphabetic, CharPred::Alphanumeric),
            Kind::Letter,
        ),
        (TokenConfiguration::Boring(vec!['=']), Kind::Eq),
    ]);
    let contents = "foo = (bar baz)\nqux";
    let mut first = Tokenizer::new(&config, contents);
    let mut second = Tokenizer::new(&config, contents);
    let tree_a = first.build();
    let tree_b = second.build();
    assert_eq!(render(&tree_a), render(&tree_b));
}

fn render(tree: &[TreeNode<Kind>]) -> String {
    let mut out = String::new();
    for node in tree {
        match node {
            TreeNode::Leaf(tok) => {
                out.push_str(&format!(
                    "L({:?},{},{},{})",
                    tok.kind,
                    tok.value,
                    tok.record.row(),
                    tok.record.col()
                ));
            }
            TreeNode::Branch(branch) => {
                out.push_str(&format!(
                    "B({:?},{},{},{},[{}])",
                    branch.kind,
                    branch.value.0,
                    branch.value.1,
                    branch.has_end,
                    render(&branch.stream)
                ));
            }
        }
    }
    out
}

#[test]
fn progress_consumes_every_character() {
    // Every non-whitespace character of the input ends up in exactly
    // one produced token.
    let config = Configuration::new().add_tokens(vec![(
        TokenConfiguration::Rule(CharPred::Alphabetic, CharPred::Nothing),
        Kind::Letter,
    )]);
    let contents = "a b\nc#";
    let mut tokenizer = Tokenizer::new(&config, contents);
    let tree = tokenizer.build();
    let total: usize = tree.iter().map(|n| leaf(n).value.chars().count()).sum();
    let non_blank = contents.chars().filter(|c| !c.is_whitespace()).count();
    assert_eq!(total, non_blank);
    assert_eq!(tree.len(), 4);
}

#[test]
fn rule_runs_in_flat_mode() {
    let config = Configuration::new().add_tokens(vec![(
        TokenConfiguration::Rule(CharPred::Alphabetic, CharPred::Alphanumeric),
        Kind::Letter,
    )]);
    let mut tokenizer = Tokenizer::new(&config, "ab1 cd");
    let tokens = tokenizer.scan();
    assert_eq!(tokens.len(), 2);
    assert_eq!(tokens[0].value, "ab1");
    assert_eq!((tokens[0].record.row(), tokens[0].record.col()), (1, 1));
    assert_eq!(tokens[1].value, "cd");
    assert_eq!((tokens[1].record.row(), tokens[1].record.col()), (1, 5));
}

#[test]
fn symbol_run_decomposition() {
    let config = Configuration::new()
        .add_tokens(vec![(TokenConfiguration::Boring(vec!['=']), Kind::Eq)]);
    let mut tokenizer = Tokenizer::new(&config, "=@#");
    let tokens = tokenizer.scan();
    assert_eq!(tokens.len(), 2);
    assert_eq!(tokens[0].value, "=");
    assert_eq!(tokens[0].kind, Kind::Eq);
    assert_eq!((tokens[0].record.row(), tokens[0].record.col()), (1, 1));
    assert_eq!(tokens[1].value, "@#");
    assert_eq!(tokens[1].kind, Kind::Invalid);
    assert_eq!((tokens[1].record.row(), tokens[1].record.col()), (1, 2));
}

#[test]
fn longest_match_ties_take_the_earlier_entry() {
    let config = Configuration::new().add_tokens(vec![
        (TokenConfiguration::Boring(vec!['=']), Kind::Eq),
        (TokenConfiguration::Boring(vec!['=']), Kind::One),
    ]);
    let mut tokenizer = Tokenizer::new(&config, "=");
    let tokens = tokenizer.scan();
    assert_eq!(tokens.len(), 1);
    assert_eq!(tokens[0].kind, Kind::Eq);
}

#[test]
fn branch_closes_on_text_regardless_of_kind() {
    // The end delimiter is recognised purely by its rendered text:
    // here the closing leaf comes out of the literal entry with its
    // own kind, and still closes the branch.
    let config = Configuration::new().add_tokens(vec![
        (
            TokenConfiguration::Branch(vec!['('], vec![')']),
            Kind::Paren,
        ),
        (TokenConfiguration::Boring(vec![')']), Kind::Eq),
    ]);
    let mut tokenizer = Tokenizer::new(&config, "(x)");
    let tree = tokenizer.build();
    assert_eq!(tree.len(), 1);
    match &tree[0] {
        TreeNode::Branch(branch) => {
            assert!(branch.has_end);
            assert_eq!(branch.value.1, ")");
            assert_eq!(branch.stream.len(), 1);
            assert_eq!(leaf(&branch.stream[0]).value, "x");
        }
        TreeNode::Leaf(_) => panic!("expected a branch"),
    }
}

#[test]
fn flat_mode_ignores_branch_entries() {
    // The flat tokenizer decomposes symbol runs by literal entries
    // alone; a branch delimiter is not a literal and falls back to
    // the default kind.
    let config = Configuration::new().add_tokens(vec![(
        TokenConfiguration::Branch(vec!['('], vec![')']),
        Kind::Paren,
    )]);
    let mut tokenizer = Tokenizer::new(&config, "(");
    let tokens = tokenizer.scan();
    assert_eq!(tokens.len(), 1);
    assert_eq!(tokens[0].value, "(");
    assert_eq!(tokens[0].kind, Kind::Invalid);
}

#[test]
fn repeated_longest_match_decomposition() {
    let config = Configuration::new().add_tokens(vec![
        (TokenConfiguration::Boring(vec!['=']), Kind::Eq),
        (TokenConfiguration::Boring(vec!['=', '=']), Kind::AddEq),
        (TokenConfiguration::Boring(vec!['=', '>']), Kind::FatArrow),
    ]);
    let mut tokenizer = Tokenizer::new(&config, "==>=");
    let tokens = tokenizer.scan();
    // After "==", no literal prefixes ">=": the entire remainder
    // becomes one default-kind token and decomposition stops.
    assert_eq!(tokens.len(), 2);
    assert_eq!(tokens[0].value, "==");
    assert_eq!(tokens[0].kind, Kind::AddEq);
    assert_eq!(tokens[1].value, ">=");
    assert_eq!(tokens[1].kind, Kind::Invalid);
}

#[test]
fn flat_mode_tracks_rows() {
    let config = Configuration::new()
        .add_tokens(vec![(TokenConfiguration::Boring(vec!['=']), Kind::Eq)]);
    let mut tokenizer = Tokenizer::new(&config, "=\n=");
    let tokens = tokenizer.scan();
    assert_eq!(tokens.len(), 2);
    assert_eq!((tokens[0].record.row(), tokens[0].record.col()), (1, 1));
    assert_eq!((tokens[1].record.row(), tokens[1].record.col()), (2, 1));
}
