use vstd::prelude::*;

verus! {

/// Whitespace as the tokenizer skips it between tokens: space, tab,
/// newline and carriage return.
pub open spec fn blank(c: char) -> bool {
    c == ' ' || c == '\t' || c == '\n' || c == '\r'
}

/// Exec check for `blank`.
pub fn is_blank(c: char) -> (r: bool)
    ensures
        r == blank(c),
{
    c == ' ' || c == '\t' || c == '\n' || c == '\r'
}

/// A character class used by predicate rules. Classification is over
/// single code units: only the ASCII ranges count as letters or
/// digits.
#[derive(Debug, Clone)]
pub enum CharPred {
    /// An ASCII letter.
    Alphabetic,
    /// An ASCII letter or digit.
    Alphanumeric,
    /// An ASCII decimal digit.
    Digit,
    /// Any of the listed characters.
    AnyOf(Vec<char>),
    /// No character at all; as the continuation class it limits a rule
    /// to single-character matches.
    Nothing,
}

/// What `CharPred` accepts.
pub open spec fn pred_accepts(p: CharPred, c: char) -> bool {
    match p {
        CharPred::Alphabetic => ('a' <= c && c <= 'z') || ('A' <= c && c <= 'Z'),
        CharPred::Alphanumeric => ('a' <= c && c <= 'z') || ('A' <= c && c <= 'Z') || ('0' <= c
            && c <= '9'),
        CharPred::Digit => '0' <= c && c <= '9',
        CharPred::AnyOf(list) => list@.contains(c),
        CharPred::Nothing => false,
    }
}

impl CharPred {
    /// Whether this class accepts `c`.
    #[verifier::loop_isolation(false)]
    pub fn accepts(&self, c: char) -> (r: bool)
        ensures
            r == pred_accepts(*self, c),
    {
        match self {
            CharPred::Alphabetic => ('a' <= c && c <= 'z') || ('A' <= c && c <= 'Z'),
            CharPred::Alphanumeric => ('a' <= c && c <= 'z') || ('A' <= c && c <= 'Z') || ('0'
                <= c && c <= '9'),
            CharPred::Digit => '0' <= c && c <= '9',
            CharPred::AnyOf(list) => {
                let mut i: usize = 0;
                while i < list.len()
                    invariant
                        i <= list.len(),
                        forall|k: int| 0 <= k < i ==> list@[k] != c,
                    decreases list.len() - i,
                {
                    if list[i] == c {
                        proof {
                            assert(list@.contains(c));
                        }
                        return true;
                    }
                    i = i + 1;
                }
                false
            },
            CharPred::Nothing => false,
        }
    }
}

/// One entry of the rule table: what a token looks like.
#[derive(Debug, Clone)]
pub enum TokenConfiguration {
    /// A fixed character sequence, matched character by character.
    Boring(Vec<char>),

    /// A start and an end delimiter; a match of the start literal opens
    /// a nested branch in the token tree that the end literal closes.
    Branch(Vec<char>, Vec<char>),

    /// A predicate-driven rule: the first class decides whether a run
    /// begins at the current character, the second how far it extends.
    Rule(CharPred, CharPred),
}

/// An ordered rule table: entries are tried first to last, paired each
/// with the token kind it produces.
#[derive(Debug, Clone)]
pub struct Configuration<K>(pub(crate) Vec<(TokenConfiguration, K)>);

impl<K> View for Configuration<K> {
    type V = Seq<(TokenConfiguration, K)>;

    open(crate) spec fn view(&self) -> Seq<(TokenConfiguration, K)> {
        self.0@
    }
}

impl<K> Configuration<K> {
    /// An empty rule table.
    pub fn new() -> (c: Configuration<K>)
        ensures
            c@ == Seq::<(TokenConfiguration, K)>::empty(),
    {
        Configuration(Vec::new())
    }

    /// Appends entries to the table, keeping their order.
    pub fn add_tokens(self, tokens: Vec<(TokenConfiguration, K)>) -> (c: Configuration<K>)
        ensures
            c@ == self@ + tokens@,
    {
        let Configuration(mut entries) = self;
        let mut tokens = tokens;
        entries.append(&mut tokens);
        Configuration(entries)
    }
}

} // verus!
