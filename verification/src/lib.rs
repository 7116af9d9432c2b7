use vstd::prelude::*;
use vstd::string::StrSliceExecFns;
use vstd::string::StringExecFns;

/// The (row, column) value attached to each token.
pub mod record;

/// The cursor over the input characters.
pub mod iter;

/// The rule table and its entries.
pub mod config;

/// Tokens and the token tree.
pub mod tokens;

/// The mathematical model of a tokenization run.
pub mod model;

use crate::config::{Configuration, TokenConfiguration};
use crate::iter::{advance_pos, lemma_advance_pos, start_pos, IterModel, Pos, StreamIterator};
use crate::model::{
    best_boring_from, build_from, collect_children, decompose, entry_lit, entry_rule_rest,
    entry_rule_starts, first_rule, lit_match, lit_prefix_at, lit_stop, rule_starts, run_stop,
    scan_from, sym_stop, tokenize_at, try_entries,
};
use crate::record::Record;
use crate::tokens::{
    lemma_nodes_view_push, node_view, nodes_view, tokens_view, Branch, Token, TreeNode,
};

verus! {

/// What a tokenization run is a function of: the characters, the
/// position reached so far, the rule table, and the kind carried by
/// fallback tokens.
pub ghost struct TokenizerModel<K> {
    pub s: Seq<char>,
    pub pos: Pos,
    pub table: Seq<(TokenConfiguration, K)>,
    pub fallback: K,
}

impl<K> TokenizerModel<K> {
    /// Bounds every reachable tokenizer state obeys.
    pub open spec fn wf(self) -> bool {
        (IterModel { s: self.s, pos: self.pos }).wf()
    }
}

/// Compares a string with a character sequence.
fn string_eq_chars(s: &String, v: &Vec<char>) -> (r: bool)
    ensures
        r == (s@ == v@),
{
    let n = s.as_str().unicode_len();
    if n != v.len() {
        return false;
    }
    let mut i: usize = 0;
    while i < n
        invariant
            i <= n,
            n == s@.len(),
            n == v@.len(),
            forall|j: int| 0 <= j < i ==> s@[j] == v@[j],
        decreases n - i,
    {
        if s.as_str().get_char(i) != v[i] {
            return false;
        }
        i = i + 1;
    }
    proof {
        assert(s@ =~= v@);
    }
    true
}

/// Walks the input characters and, driven by a rule table, produces a
/// token tree: each table entry is tried in order at each position,
/// matched delimiters open nested branches, and unmatched characters
/// fall back to single tokens of the default kind.
pub struct Tokenizer<'items, K: Default + Copy> {
    config: &'items Configuration<K>,
    iter: StreamIterator,
    fallback: K,
}

impl<'items, K: Default + Copy> View for Tokenizer<'items, K> {
    type V = TokenizerModel<K>;

    closed spec fn view(&self) -> TokenizerModel<K> {
        TokenizerModel {
            s: self.iter@.s,
            pos: self.iter@.pos,
            table: self.config@,
            fallback: self.fallback,
        }
    }
}

impl<'items, K: Default + Copy> Tokenizer<'items, K> {
    /// A tokenizer over `contents`, driven by the given rule table.
    /// The kind of fallback tokens is fixed here, once, as the kind
    /// type's default value.
    pub fn new(config: &'items Configuration<K>, contents: &str) -> (t: Tokenizer<'items, K>)
        requires
            contents@.len() < usize::MAX,
        ensures
            t@.s == contents@,
            t@.pos == start_pos(),
            t@.table == config@,
            t@.wf(),
    {
        Tokenizer { config, iter: StreamIterator::new(contents), fallback: K::default() }
    }

    /// Tries to match the literal `chars` beginning at the character
    /// consumed last; on success the cursor is advanced past the
    /// literal, on failure it is left where it was.
    #[verifier::loop_isolation(false)]
    fn matches(&mut self, chars: &Vec<char>) -> (r: bool)
        requires
            old(self)@.wf(),
            1 <= old(self)@.pos.at,
        ensures
            final(self)@.wf(),
            final(self)@.s == old(self)@.s,
            final(self)@.table == old(self)@.table,
            final(self)@.fallback == old(self)@.fallback,
            r == lit_match(old(self)@.s, chars@, old(self)@.pos),
            r ==> final(self)@.pos == lit_stop(old(self)@.s, chars@, old(self)@.pos),
            !r ==> final(self)@.pos == old(self)@.pos,
    {
        let ghost s = self@.s;
        let ghost p0 = self@.pos;
        let n = chars.len();
        if n == 0 {
            return false;
        }
        let pos = self.iter.position();
        let len = self.iter.len();
        if n > len - (pos - 1) {
            proof {
                assert(!lit_match(s, chars@, p0));
            }
            return false;
        }
        let mut k: usize = 0;
        while k < n
            invariant
                k <= n,
                forall|j: int| 0 <= j < k ==> s[p0.at - 1 + j] == chars@[j],
            decreases n - k,
        {
            if self.iter.char_at(pos - 1 + k) != chars[k] {
                proof {
                    if lit_match(s, chars@, p0) {
                        assert(s.subrange(p0.at - 1, p0.at - 1 + chars@.len())[k as int] == s[p0.at
                            - 1 + k]);
                    }
                }
                return false;
            }
            k = k + 1;
        }
        proof {
            assert(s.subrange(p0.at - 1, p0.at - 1 + chars@.len()) =~= chars@);
        }
        let mut steps: usize = 0;
        while steps < n - 1
            invariant
                steps <= n - 1,
                self@.s == s,
                self@.table == old(self)@.table,
                self@.fallback == old(self)@.fallback,
                self@.wf(),
                self@.pos == advance_pos(s, p0, steps as nat),
                self@.pos.at == p0.at + steps,
            decreases n - 1 - steps,
        {
            proof {
                crate::iter::lemma_advance_pos_snoc(s, p0, steps as nat);
                lemma_advance_pos(s, p0, steps as nat);
            }
            let _ = self.iter.next();
            steps = steps + 1;
        }
        true
    }

    /// One step of the matcher, entered with one character consumed:
    /// tries each table entry in order and returns the produced node,
    /// advancing the cursor past everything the node covers.
    #[verifier::loop_isolation(false)]
    fn tokenize(&mut self) -> (node: TreeNode<K>)
        requires
            old(self)@.wf(),
            1 <= old(self)@.pos.at,
        ensures
            final(self)@.wf(),
            final(self)@.s == old(self)@.s,
            final(self)@.table == old(self)@.table,
            final(self)@.fallback == old(self)@.fallback,
            node_view(node) == tokenize_at(
                old(self)@.s,
                old(self)@.table,
                old(self)@.pos,
                old(self)@.fallback,
            ).0,
            final(self)@.pos == tokenize_at(
                old(self)@.s,
                old(self)@.table,
                old(self)@.pos,
                old(self)@.fallback,
            ).1,
            old(self)@.pos.at <= final(self)@.pos.at,
        decreases old(self)@.s.len() - old(self)@.pos.at,
    {
        let ghost s = self@.s;
        let ghost p0 = self@.pos;
        let ghost table = self@.table;
        let ghost d = self@.fallback;
        let start = self.iter.position() - 1;
        let cfg = self.config;
        let n_entries = cfg.0.len();
        let mut i: usize = 0;
        while i < n_entries
            invariant
                i <= n_entries,
                self@ == old(self)@,
                try_entries(s, table, 0, p0, d) == try_entries(s, table, i as int, p0, d),
            decreases n_entries - i,
        {
            let entry = &cfg.0[i];
            match &entry.0 {
                TokenConfiguration::Rule(first, rest) => {
                    let record = self.iter.record();
                    let c0 = self.iter.last().unwrap();
                    if first.accepts(c0) {
                        loop
                            invariant
                                self@.s == s,
                                self@.table == table,
                                self@.fallback == d,
                                self@.wf(),
                                p0.at <= self@.pos.at,
                                run_stop(s, *rest, self@.pos) == run_stop(s, *rest, p0),
                            decreases s.len() - self@.pos.at,
                        {
                            let pk = self.iter.peek();
                            let cont = match pk {
                                Some(c) => rest.accepts(c),
                                None => false,
                            };
                            if !cont {
                                break ;
                            }
                            let _ = self.iter.next();
                        }
                        let stop = self.iter.position();
                        let value = self.iter.grab(start, stop);
                        return TreeNode::Leaf(Token { value, kind: entry.1, record });
                    }
                },
                TokenConfiguration::Boring(lit) => {
                    let record = self.iter.record();
                    if self.matches(lit) {
                        proof {
                            lemma_advance_pos(s, p0, (lit@.len() - 1) as nat);
                            assert(s.subrange(p0.at - 1, self@.pos.at) =~= lit@);
                        }
                        let stop = self.iter.position();
                        let value = self.iter.grab(start, stop);
                        return TreeNode::Leaf(Token { value, kind: entry.1, record });
                    }
                },
                TokenConfiguration::Branch(open_chars, close_chars) => {
                    let record = self.iter.record();
                    if self.matches(open_chars) {
                        proof {
                            lemma_advance_pos(s, p0, (open_chars@.len() - 1) as nat);
                            assert(s.subrange(p0.at - 1, self@.pos.at) =~= open_chars@);
                        }
                        let stop = self.iter.position();
                        let start_value = self.iter.grab(start, stop);
                        let ghost inner = self@.pos;
                        let mut stream: Vec<TreeNode<K>> = Vec::new();
                        let mut end_token: Option<Token<K>> = None;
                        loop
                            invariant
                                self@.s == s,
                                self@.table == table,
                                self@.fallback == d,
                                self@.wf(),
                                inner.at <= self@.pos.at,
                                end_token is None,
                                ({
                                    let full = collect_children(s, table, close_chars@, inner, d);
                                    let rest = collect_children(
                                        s,
                                        table,
                                        close_chars@,
                                        self@.pos,
                                        d,
                                    );
                                    full.0 == nodes_view(stream@) + rest.0 && full.1 == rest.1
                                        && full.2 == rest.2
                                }),
                            decreases s.len() - self@.pos.at,
                        {
                            let ghost cur = self@.pos;
                            let nx = self.iter.next();
                            if nx.is_none() {
                                break ;
                            }
                            let c = nx.unwrap();
                            if crate::config::is_blank(c) {
                                continue ;
                            }
                            let token = self.tokenize();
                            let is_end = match &token {
                                TreeNode::Leaf(tok) => string_eq_chars(&tok.value, close_chars),
                                _ => false,
                            };
                            if is_end {
                                match token {
                                    TreeNode::Leaf(tok) => {
                                        end_token = Some(tok);
                                    },
                                    _ => (),
                                }
                                break ;
                            }
                            proof {
                                lemma_nodes_view_push(stream@, token);
                                let rest = collect_children(s, table, close_chars@, cur, d);
                                let rest2 = collect_children(s, table, close_chars@, self@.pos, d);
                                assert(rest.0 =~= seq![node_view(token)] + rest2.0);
                                assert(nodes_view(stream@) + rest.0 =~= nodes_view(
                                    stream@.push(token),
                                ) + rest2.0);
                            }
                            stream.push(token);
                        }
                        let has_end = end_token.is_some();
                        let end_value = match end_token {
                            Some(tok) => tok.value,
                            None => {
                                let q = String::from_str("?");
                                proof {
                                    reveal_strlit("?");
                                    assert(q@ =~= seq!['?']);
                                }
                                q
                            },
                        };
                        return TreeNode::Branch(
                            Branch {
                                value: (start_value, end_value),
                                kind: entry.1,
                                stream,
                                record,
                                has_end,
                            },
                        );
                    }
                },
            }
            i = i + 1;
        }
        let record = self.iter.record();
        let c = self.iter.last().unwrap();
        let mut value = String::new();
        value.push(c);
        proof {
            assert(value@ =~= seq![s[p0.at - 1]]);
        }
        TreeNode::Leaf(Token { value, kind: self.fallback, record })
    }

    /// Builds the token tree: whitespace is skipped between tokens,
    /// the matcher is driven until the stream runs out, and every
    /// produced node is collected in order. The result is exactly the
    /// tree the model assigns to the remaining input, and the whole
    /// input is consumed.
    #[verifier::loop_isolation(false)]
    pub fn build(&mut self) -> (stream: Vec<TreeNode<K>>)
        requires
            old(self)@.wf(),
        ensures
            final(self)@.wf(),
            final(self)@.s == old(self)@.s,
            final(self)@.table == old(self)@.table,
            final(self)@.fallback == old(self)@.fallback,
            nodes_view(stream@) == build_from(
                old(self)@.s,
                old(self)@.table,
                old(self)@.pos,
                old(self)@.fallback,
            ),
            final(self)@.pos.at == old(self)@.s.len(),
    {
        let ghost s = self@.s;
        let ghost p_start = self@.pos;
        let ghost table = self@.table;
        let ghost d = self@.fallback;
        let mut stream: Vec<TreeNode<K>> = Vec::new();
        loop
            invariant
                self@.s == s,
                self@.table == table,
                self@.fallback == d,
                self@.wf(),
                p_start.at <= self@.pos.at,
                build_from(s, table, p_start, d) == nodes_view(stream@) + build_from(
                    s,
                    table,
                    self@.pos,
                    d,
                ),
            decreases s.len() - self@.pos.at,
        {
            let ghost cur = self@.pos;
            let nx = self.iter.next();
            if nx.is_none() {
                break ;
            }
            let c = nx.unwrap();
            if crate::config::is_blank(c) {
                continue ;
            }
            let token = self.tokenize();
            proof {
                lemma_nodes_view_push(stream@, token);
                assert(build_from(s, table, cur, d) =~= seq![node_view(token)] + build_from(
                    s,
                    table,
                    self@.pos,
                    d,
                ));
                assert(nodes_view(stream@) + build_from(s, table, cur, d) =~= nodes_view(
                    stream@.push(token),
                ) + build_from(s, table, self@.pos, d));
            }
            stream.push(token);
        }
        proof {
            assert(build_from(s, table, self@.pos, d) =~= Seq::<
                crate::tokens::SpecNode<K>,
            >::empty());
            assert(nodes_view(stream@) + build_from(s, table, self@.pos, d) =~= nodes_view(
                stream@,
            ));
        }
        stream
    }

    /// The first predicate rule of the table that opens a run at `c`,
    /// if any.
    #[verifier::loop_isolation(false)]
    fn find_rule(&self, c: char) -> (r: Option<usize>)
        ensures
            match r {
                Some(i) => rule_starts(self@.table, c) && i as int == first_rule(self@.table, c, 0)
                    && (i as int) < self@.table.len() && entry_rule_starts(
                    self@.table[i as int],
                    c,
                ),
                None => !rule_starts(self@.table, c),
            },
    {
        let cfg = self.config;
        let n = cfg.0.len();
        let mut i: usize = 0;
        while i < n
            invariant
                i <= n,
                first_rule(self@.table, c, 0) == first_rule(self@.table, c, i as int),
                forall|k: int| 0 <= k < i ==> !entry_rule_starts(#[trigger] self@.table[k], c),
            decreases n - i,
        {
            let is_rule = match &cfg.0[i].0 {
                TokenConfiguration::Rule(first, _) => first.accepts(c),
                _ => false,
            };
            if is_rule {
                return Some(i);
            }
            i = i + 1;
        }
        None
    }

    /// Whether the text of `lit` prefixes the characters from offset
    /// `j` up to `b`.
    #[verifier::loop_isolation(false)]
    fn lit_prefix_check(&self, lit: &Vec<char>, j: usize, b: usize) -> (r: bool)
        requires
            j <= b,
            b as int <= self@.s.len(),
        ensures
            r == lit_prefix_at(self@.s, lit@, j as int, b as int),
    {
        let n = lit.len();
        if n == 0 || n > b - j {
            return false;
        }
        let mut k: usize = 0;
        while k < n
            invariant
                k <= n,
                forall|t: int| 0 <= t < k ==> self@.s[j + t] == lit@[t],
            decreases n - k,
        {
            if self.iter.char_at(j + k) != lit[k] {
                proof {
                    if lit_prefix_at(self@.s, lit@, j as int, b as int) {
                        assert(self@.s.subrange(j as int, j + lit@.len())[k as int] == self@.s[j
                            + k]);
                    }
                }
                return false;
            }
            k = k + 1;
        }
        proof {
            assert(self@.s.subrange(j as int, j + lit@.len()) =~= lit@);
        }
        true
    }

    /// The longest literal entry whose text prefixes the characters
    /// from `j` up to `b`; of equally long ones, the earliest.
    #[verifier::loop_isolation(false)]
    fn best_boring(&self, j: usize, b: usize) -> (r: Option<usize>)
        requires
            j <= b,
            b as int <= self@.s.len(),
        ensures
            match r {
                Some(i) => i as int == best_boring_from(
                    self@.table,
                    self@.s,
                    j as int,
                    b as int,
                    0,
                ) && (i as int) < self@.table.len() && lit_prefix_at(
                    self@.s,
                    entry_lit(self@.table[i as int]),
                    j as int,
                    b as int,
                ),
                None => best_boring_from(self@.table, self@.s, j as int, b as int, 0)
                    == self@.table.len(),
            },
    {
        let cfg = self.config;
        let n = cfg.0.len();
        let mut best: Option<usize> = None;
        let mut best_len: usize = 0;
        let mut i: usize = n;
        while i > 0
            invariant
                i <= n,
                match best {
                    Some(bi) => bi as int == best_boring_from(
                        self@.table,
                        self@.s,
                        j as int,
                        b as int,
                        i as int,
                    ) && (bi as int) < n && best_len as int == entry_lit(
                        self@.table[bi as int],
                    ).len() && lit_prefix_at(
                        self@.s,
                        entry_lit(self@.table[bi as int]),
                        j as int,
                        b as int,
                    ),
                    None => best_boring_from(self@.table, self@.s, j as int, b as int, i as int)
                        == n,
                },
            decreases i,
        {
            i = i - 1;
            let cand: Option<usize> = match &cfg.0[i].0 {
                TokenConfiguration::Boring(lit) => {
                    if self.lit_prefix_check(lit, j, b) {
                        Some(lit.len())
                    } else {
                        None
                    }
                },
                _ => None,
            };
            match cand {
                Some(cl) => {
                    if best.is_some() && best_len > cl {
                    } else {
                        best = Some(i);
                        best_len = cl;
                    }
                },
                None => {},
            }
        }
        best
    }

    /// Produces the flat token sequence: whitespace is skipped, a
    /// predicate rule takes the run it opens, and any other stretch of
    /// symbol characters is collected whole and decomposed into the
    /// longest matching literal tokens, the undecomposable remainder
    /// falling back to one token of the default kind. The result is
    /// exactly the sequence the model assigns to the remaining input,
    /// and the whole input is consumed.
    #[verifier::loop_isolation(false)]
    pub fn scan(&mut self) -> (tokens: Vec<Token<K>>)
        requires
            old(self)@.wf(),
        ensures
            final(self)@.wf(),
            final(self)@.s == old(self)@.s,
            final(self)@.table == old(self)@.table,
            final(self)@.fallback == old(self)@.fallback,
            tokens_view(tokens@) == scan_from(
                old(self)@.s,
                old(self)@.table,
                old(self)@.pos,
                old(self)@.fallback,
            ),
            final(self)@.pos.at == old(self)@.s.len(),
    {
        let ghost s = self@.s;
        let ghost p_start = self@.pos;
        let ghost table = self@.table;
        let ghost d = self@.fallback;
        let cfg = self.config;
        let mut tokens: Vec<Token<K>> = Vec::new();
        loop
            invariant
                self@.s == s,
                self@.table == table,
                self@.fallback == d,
                self@.wf(),
                scan_from(s, table, p_start, d) == tokens_view(tokens@) + scan_from(
                    s,
                    table,
                    self@.pos,
                    d,
                ),
            decreases s.len() - self@.pos.at,
        {
            let ghost cur = self@.pos;
            let nx = self.iter.next();
            if nx.is_none() {
                break ;
            }
            let c = nx.unwrap();
            if crate::config::is_blank(c) {
                continue ;
            }
            let ghost p1 = self@.pos;
            let record0 = self.iter.record();
            let start = self.iter.position() - 1;
            match self.find_rule(c) {
                Some(ri) => {
                    let entry = &cfg.0[ri];
                    match &entry.0 {
                        TokenConfiguration::Rule(first, rest) => {
                            loop
                                invariant
                                    self@.s == s,
                                    self@.table == table,
                                    self@.fallback == d,
                                    self@.wf(),
                                    p1.at <= self@.pos.at,
                                    run_stop(s, *rest, self@.pos) == run_stop(s, *rest, p1),
                                decreases s.len() - self@.pos.at,
                            {
                                let pk = self.iter.peek();
                                let cont = match pk {
                                    Some(c2) => rest.accepts(c2),
                                    None => false,
                                };
                                if !cont {
                                    break ;
                                }
                                let _ = self.iter.next();
                            }
                            let stop = self.iter.position();
                            let value = self.iter.grab(start, stop);
                            let tok = Token { value, kind: entry.1, record: record0 };
                            proof {
                                let ghost full = scan_from(s, table, cur, d);
                                let ghost rest_scan = scan_from(s, table, self@.pos, d);
                                assert(entry_rule_rest(table[ri as int]) == *rest);
                                assert(full =~= seq![tok@] + rest_scan);
                                assert(tokens_view(tokens@.push(tok)) =~= tokens_view(
                                    tokens@,
                                ).push(tok@));
                                assert(tokens_view(tokens@) + full =~= tokens_view(
                                    tokens@.push(tok),
                                ) + rest_scan);
                            }
                            tokens.push(tok);
                        },
                        _ => {
                            proof {
                                assert(false);
                            }
                        },
                    }
                },
                None => {
                    let ghost mut steps: int = 1;
                    proof {
                        crate::iter::lemma_advance_pos_snoc(s, cur, 0);
                    }
                    loop
                        invariant
                            self@.s == s,
                            self@.table == table,
                            self@.fallback == d,
                            self@.wf(),
                            1 <= steps,
                            self@.pos == advance_pos(s, cur, steps as nat),
                            self@.pos.at == cur.at + steps,
                            sym_stop(s, table, self@.pos.at) == sym_stop(s, table, cur.at),
                        decreases s.len() - self@.pos.at,
                    {
                        let pk = self.iter.peek();
                        let cont = match pk {
                            Some(c2) => {
                                if crate::config::is_blank(c2) {
                                    false
                                } else {
                                    self.find_rule(c2).is_none()
                                }
                            },
                            None => false,
                        };
                        if !cont {
                            break ;
                        }
                        proof {
                            crate::iter::lemma_advance_pos_snoc(s, cur, steps as nat);
                        }
                        let _ = self.iter.next();
                        proof {
                            steps = steps + 1;
                        }
                    }
                    let b = self.iter.position();
                    let ghost after_run = self@.pos;
                    let row0 = record0.row();
                    let col0 = record0.col();
                    proof {
                        assert(b as int == sym_stop(s, table, cur.at));
                        assert(scan_from(s, table, cur, d) =~= decompose(
                            s,
                            table,
                            cur.at,
                            b as int,
                            p1.row,
                            p1.col,
                            d,
                        ) + scan_from(s, table, after_run, d));
                    }
                    let mut j = start;
                    while j < b
                        invariant
                            start <= j <= b,
                            b as int <= s.len(),
                            row0 as int == p1.row,
                            col0 as int == p1.col,
                            col0 as int <= start + 1,
                            start as int == cur.at,
                            scan_from(s, table, p_start, d) == tokens_view(tokens@) + decompose(
                                s,
                                table,
                                j as int,
                                b as int,
                                row0 as int,
                                col0 + (j - start),
                                d,
                            ) + scan_from(s, table, after_run, d),
                        decreases b - j,
                    {
                        let col_j = col0 + (j - start);
                        match self.best_boring(j, b) {
                            Some(bi) => {
                                let entry = &cfg.0[bi];
                                let lit_len = match &entry.0 {
                                    TokenConfiguration::Boring(lit) => lit.len(),
                                    _ => {
                                        proof {
                                            assert(false);
                                        }
                                        0
                                    },
                                };
                                let value = self.iter.grab(j, j + lit_len);
                                let tok = Token {
                                    value,
                                    kind: entry.1,
                                    record: Record { pos: (row0, col_j) },
                                };
                                proof {
                                    assert(value@ =~= entry_lit(table[bi as int]));
                                    assert(tokens_view(tokens@.push(tok)) =~= tokens_view(
                                        tokens@,
                                    ).push(tok@));
                                    assert(tokens_view(tokens@) + decompose(
                                        s,
                                        table,
                                        j as int,
                                        b as int,
                                        row0 as int,
                                        col_j as int,
                                        d,
                                    ) =~= tokens_view(tokens@.push(tok)) + decompose(
                                        s,
                                        table,
                                        j + lit_len,
                                        b as int,
                                        row0 as int,
                                        col_j + lit_len,
                                        d,
                                    ));
                                }
                                tokens.push(tok);
                                j = j + lit_len;
                            },
                            None => {
                                let value = self.iter.grab(j, b);
                                let tok = Token {
                                    value,
                                    kind: self.fallback,
                                    record: Record { pos: (row0, col_j) },
                                };
                                proof {
                                    assert(tokens_view(tokens@.push(tok)) =~= tokens_view(
                                        tokens@,
                                    ).push(tok@));
                                    assert(decompose(
                                        s,
                                        table,
                                        b as int,
                                        b as int,
                                        row0 as int,
                                        col_j + (b - j),
                                        d,
                                    ) =~= Seq::<crate::tokens::SpecToken<K>>::empty());
                                    assert(tokens_view(tokens@) + decompose(
                                        s,
                                        table,
                                        j as int,
                                        b as int,
                                        row0 as int,
                                        col_j as int,
                                        d,
                                    ) =~= tokens_view(tokens@.push(tok)) + decompose(
                                        s,
                                        table,
                                        b as int,
                                        b as int,
                                        row0 as int,
                                        col_j + (b - j),
                                        d,
                                    ));
                                }
                                tokens.push(tok);
                                j = b;
                            },
                        }
                    }
                    proof {
                        assert(decompose(
                            s,
                            table,
                            b as int,
                            b as int,
                            row0 as int,
                            col0 + (b - start),
                            d,
                        ) =~= Seq::<crate::tokens::SpecToken<K>>::empty());
                    }
                },
            }
        }
        proof {
            assert(scan_from(s, table, self@.pos, d) =~= Seq::<
                crate::tokens::SpecToken<K>,
            >::empty());
            assert(tokens_view(tokens@) + scan_from(s, table, self@.pos, d) =~= tokens_view(
                tokens@,
            ));
        }
        tokens
    }
}

/// Determinism of the tree builder: two `build` runs from equal
/// tokenizer states produce identical token trees, since each result
/// is exactly the tree the model assigns to that state.
pub proof fn lemma_build_deterministic<K>(
    t1: TokenizerModel<K>,
    t2: TokenizerModel<K>,
    r1: Seq<crate::tokens::SpecNode<K>>,
    r2: Seq<crate::tokens::SpecNode<K>>,
)
    requires
        t1 == t2,
        r1 == build_from(t1.s, t1.table, t1.pos, t1.fallback),
        r2 == build_from(t2.s, t2.table, t2.pos, t2.fallback),
    ensures
        r1 == r2,
{
}

/// Determinism of the flat tokenizer: two `scan` runs from equal
/// tokenizer states produce identical token sequences.
pub proof fn lemma_scan_deterministic<K>(
    t1: TokenizerModel<K>,
    t2: TokenizerModel<K>,
    r1: Seq<crate::tokens::SpecToken<K>>,
    r2: Seq<crate::tokens::SpecToken<K>>,
)
    requires
        t1 == t2,
        r1 == scan_from(t1.s, t1.table, t1.pos, t1.fallback),
        r2 == scan_from(t2.s, t2.table, t2.pos, t2.fallback),
    ensures
        r1 == r2,
{
}

} // verus!

