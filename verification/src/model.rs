use vstd::prelude::*;
use crate::config::{blank, pred_accepts, CharPred, TokenConfiguration};
use crate::iter::{advance_pos, lemma_advance_pos_at, start_pos, step_pos, Pos};
use crate::tokens::{SpecBranch, SpecNode, SpecToken};

verus! {

/// Where a predicate run stops: starting from `p`, whose previous
/// character already passed the rule's first test, the cursor advances
/// while `rest` keeps accepting the next character.
pub open spec fn run_stop(s: Seq<char>, rest: CharPred, p: Pos) -> Pos
    decreases s.len() - p.at,
{
    if p.at < s.len() && pred_accepts(rest, s[p.at]) {
        run_stop(s, rest, step_pos(s, p))
    } else {
        p
    }
}

/// Whether the literal `lit` matches the characters beginning at
/// `p.at - 1`, the one consumed last.
pub open spec fn lit_match(s: Seq<char>, lit: Seq<char>, p: Pos) -> bool {
    &&& lit.len() >= 1
    &&& p.at - 1 + lit.len() <= s.len()
    &&& s.subrange(p.at - 1, p.at - 1 + lit.len()) == lit
}

/// The position after consuming the remainder of a matched literal
/// (its first character was already consumed).
pub open spec fn lit_stop(s: Seq<char>, lit: Seq<char>, p: Pos) -> Pos {
    advance_pos(s, p, (lit.len() - 1) as nat)
}

/// The token the matcher falls back on when no entry matches: the
/// single character consumed last, carrying the default kind.
pub open spec fn fallback_token<K>(s: Seq<char>, p: Pos, d: K) -> SpecToken<K> {
    SpecToken { value: seq![s[p.at - 1]], kind: d, record: (p.row, p.col) }
}

/// One step of the matcher: the entries of `table` from index `i` on
/// are tried in order at position `p` (one character consumed); the
/// result is the produced node and the position after it.
pub open spec fn try_entries<K>(
    s: Seq<char>,
    table: Seq<(TokenConfiguration, K)>,
    i: int,
    p: Pos,
    d: K,
) -> (SpecNode<K>, Pos)
    decreases s.len() - p.at, 1int, table.len() - i,
{
    if i < 0 || i >= table.len() {
        (SpecNode::Leaf(fallback_token(s, p, d)), p)
    } else {
        let kind = table[i].1;
        match table[i].0 {
            TokenConfiguration::Rule(first, rest) => {
                if pred_accepts(first, s[p.at - 1]) {
                    let stop = run_stop(s, rest, p);
                    (
                        SpecNode::Leaf(
                            SpecToken {
                                value: s.subrange(p.at - 1, stop.at),
                                kind: kind,
                                record: (p.row, p.col),
                            },
                        ),
                        stop,
                    )
                } else {
                    try_entries(s, table, i + 1, p, d)
                }
            },
            TokenConfiguration::Boring(lit) => {
                if lit_match(s, lit@, p) {
                    (
                        SpecNode::Leaf(
                            SpecToken { value: lit@, kind: kind, record: (p.row, p.col) },
                        ),
                        lit_stop(s, lit@, p),
                    )
                } else {
                    try_entries(s, table, i + 1, p, d)
                }
            },
            TokenConfiguration::Branch(start_lit, end_lit) => {
                if lit_match(s, start_lit@, p) {
                    let inner = lit_stop(s, start_lit@, p);
                    if p.at <= inner.at <= s.len() {
                        let t = collect_children(s, table, end_lit@, inner, d);
                        (
                            SpecNode::Branch(
                                SpecBranch {
                                    value: (
                                        start_lit@,
                                        match t.1 {
                                            Some(tok) => tok.value,
                                            None => seq!['?'],
                                        },
                                    ),
                                    kind: kind,
                                    stream: t.0,
                                    record: (p.row, p.col),
                                    has_end: t.1 is Some,
                                },
                            ),
                            t.2,
                        )
                    } else {
                        (SpecNode::Leaf(fallback_token(s, p, d)), p)
                    }
                } else {
                    try_entries(s, table, i + 1, p, d)
                }
            },
        }
    }
}

/// The matcher at position `p`, whose character at `p.at - 1` has just
/// been consumed: the produced tree node and the position after it.
pub open spec fn tokenize_at<K>(
    s: Seq<char>,
    table: Seq<(TokenConfiguration, K)>,
    p: Pos,
    d: K,
) -> (SpecNode<K>, Pos)
    decreases s.len() - p.at, 2int, 0int,
{
    try_entries(s, table, 0, p, d)
}

/// Collects the nodes of an open branch: whitespace is skipped, the
/// matcher is driven, and the branch closes at the first produced leaf
/// whose text equals the end literal, or at the end of the stream.
/// Returns the children, the closing token if one was found, and the
/// stop position.
pub open spec fn collect_children<K>(
    s: Seq<char>,
    table: Seq<(TokenConfiguration, K)>,
    end_lit: Seq<char>,
    p: Pos,
    d: K,
) -> (Seq<SpecNode<K>>, Option<SpecToken<K>>, Pos)
    decreases s.len() - p.at, 0int, 0int,
{
    if p.at >= s.len() {
        (Seq::empty(), None::<SpecToken<K>>, p)
    } else {
        let c = s[p.at];
        let p1 = step_pos(s, p);
        if blank(c) {
            collect_children(s, table, end_lit, p1, d)
        } else {
            let t = tokenize_at(s, table, p1, d);
            if t.0 matches SpecNode::Leaf(tok) && tok.value == end_lit {
                (Seq::empty(), match t.0 { SpecNode::Leaf(tok) => Some(tok), _ => None }, t.1)
            } else if p.at < t.1.at <= s.len() {
                let rest = collect_children(s, table, end_lit, t.1, d);
                (seq![t.0] + rest.0, rest.1, rest.2)
            } else {
                (seq![t.0], None::<SpecToken<K>>, t.1)
            }
        }
    }
}

/// The tree builder from position `p`: whitespace is skipped, the
/// matcher is driven, and the produced nodes are collected until the
/// stream runs out.
pub open spec fn build_from<K>(
    s: Seq<char>,
    table: Seq<(TokenConfiguration, K)>,
    p: Pos,
    d: K,
) -> Seq<SpecNode<K>>
    decreases s.len() - p.at, 3int, 0int,
{
    if p.at >= s.len() {
        Seq::empty()
    } else {
        let c = s[p.at];
        let p1 = step_pos(s, p);
        if blank(c) {
            build_from(s, table, p1, d)
        } else {
            let t = tokenize_at(s, table, p1, d);
            if p.at < t.1.at <= s.len() {
                seq![t.0] + build_from(s, table, t.1, d)
            } else {
                seq![t.0]
            }
        }
    }
}

/// The whole token tree of `s` under `table`, with `d` the kind
/// carried by unmatched fallback tokens.
pub open spec fn spec_tree<K>(s: Seq<char>, table: Seq<(TokenConfiguration, K)>, d: K) -> Seq<
    SpecNode<K>,
> {
    build_from(s, table, start_pos(), d)
}

/// Whether a table entry is a predicate rule that opens a run at `c`.
pub open spec fn entry_rule_starts<K>(e: (TokenConfiguration, K), c: char) -> bool {
    match e.0 {
        TokenConfiguration::Rule(first, _) => pred_accepts(first, c),
        _ => false,
    }
}

/// The continuation class of a predicate rule entry.
pub open spec fn entry_rule_rest<K>(e: (TokenConfiguration, K)) -> CharPred {
    match e.0 {
        TokenConfiguration::Rule(_, rest) => rest,
        _ => CharPred::Nothing,
    }
}

/// The text of a literal entry.
pub open spec fn entry_lit<K>(e: (TokenConfiguration, K)) -> Seq<char> {
    match e.0 {
        TokenConfiguration::Boring(lit) => lit@,
        _ => Seq::empty(),
    }
}

/// Whether some predicate rule of the table opens a run at `c`.
pub open spec fn rule_starts<K>(table: Seq<(TokenConfiguration, K)>, c: char) -> bool {
    exists|i: int| 0 <= i < table.len() && entry_rule_starts(#[trigger] table[i], c)
}

/// The index of the first predicate rule, from `i` on, that opens a
/// run at `c`; the table length if there is none.
pub open spec fn first_rule<K>(table: Seq<(TokenConfiguration, K)>, c: char, i: int) -> int
    decreases table.len() - i,
{
    if i < 0 || i >= table.len() {
        table.len() as int
    } else if entry_rule_starts(table[i], c) {
        i
    } else {
        first_rule(table, c, i + 1)
    }
}

/// Where a symbol run ends: the first offset at or after `i` whose
/// character is whitespace, opens a predicate rule, or is past the
/// end.
pub open spec fn sym_stop<K>(s: Seq<char>, table: Seq<(TokenConfiguration, K)>, i: int) -> int
    decreases s.len() - i,
{
    if 0 <= i < s.len() && !blank(s[i]) && !rule_starts(table, s[i]) {
        sym_stop(s, table, i + 1)
    } else {
        i
    }
}

/// Whether `lit` is a (non-empty) prefix of the characters from `j` up
/// to the run boundary `b`.
pub open spec fn lit_prefix_at(s: Seq<char>, lit: Seq<char>, j: int, b: int) -> bool {
    &&& 1 <= lit.len()
    &&& j + lit.len() <= b
    &&& s.subrange(j, j + lit.len()) == lit
}

/// Among the literal entries from `i` on whose text prefixes the
/// characters from `j` up to `b`: the index of the longest one, the
/// earliest of equally long ones; the table length if there is none.
pub open spec fn best_boring_from<K>(
    table: Seq<(TokenConfiguration, K)>,
    s: Seq<char>,
    j: int,
    b: int,
    i: int,
) -> int
    decreases table.len() - i,
{
    if i < 0 || i >= table.len() {
        table.len() as int
    } else {
        let later = best_boring_from(table, s, j, b, i + 1);
        if table[i].0 matches TokenConfiguration::Boring(lit) && lit_prefix_at(s, lit@, j, b) {
            if later < table.len() && entry_lit(table[later]).len() > entry_lit(table[i]).len() {
                later
            } else {
                i
            }
        } else {
            later
        }
    }
}

/// Decomposes the symbol run `s[j..b)` into the longest sequence of
/// literal tokens: the longest prefixing literal is taken at each
/// step, and if none prefixes the remainder, the whole remainder
/// becomes one fallback token. `row` and `col` locate the character
/// at offset `j`.
pub open spec fn decompose<K>(
    s: Seq<char>,
    table: Seq<(TokenConfiguration, K)>,
    j: int,
    b: int,
    row: int,
    col: int,
    d: K,
) -> Seq<SpecToken<K>>
    decreases b - j,
{
    if j >= b {
        Seq::empty()
    } else {
        let i = best_boring_from(table, s, j, b, 0);
        if i >= table.len() {
            seq![SpecToken { value: s.subrange(j, b), kind: d, record: (row, col) }]
        } else {
            let len = entry_lit(table[i]).len() as int;
            if 1 <= len && j + len <= b {
                seq![
                    SpecToken { value: entry_lit(table[i]), kind: table[i].1, record: (row, col) },
                ] + decompose(s, table, j + len, b, row, col + len, d)
            } else {
                seq![SpecToken { value: s.subrange(j, b), kind: d, record: (row, col) }]
            }
        }
    }
}

/// The flat tokenizer from position `p`: whitespace is skipped, a
/// predicate rule takes the run it opens, and any other stretch of
/// symbol characters is collected whole and decomposed by longest
/// literal match.
pub open spec fn scan_from<K>(
    s: Seq<char>,
    table: Seq<(TokenConfiguration, K)>,
    p: Pos,
    d: K,
) -> Seq<SpecToken<K>>
    decreases s.len() - p.at,
{
    if p.at >= s.len() {
        Seq::empty()
    } else {
        let c = s[p.at];
        let p1 = step_pos(s, p);
        if blank(c) {
            scan_from(s, table, p1, d)
        } else if rule_starts(table, c) {
            let i = first_rule(table, c, 0);
            let stop = run_stop(s, entry_rule_rest(table[i]), p1);
            let tok = SpecToken {
                value: s.subrange(p.at, stop.at),
                kind: table[i].1,
                record: (p1.row, p1.col),
            };
            if p.at < stop.at <= s.len() {
                seq![tok] + scan_from(s, table, stop, d)
            } else {
                seq![tok]
            }
        } else {
            let b = sym_stop(s, table, p.at);
            let toks = decompose(s, table, p.at, b, p1.row, p1.col, d);
            let pb = advance_pos(s, p, (b - p.at) as nat);
            if p.at < pb.at <= s.len() {
                toks + scan_from(s, table, pb, d)
            } else {
                toks
            }
        }
    }
}

/// The whole flat token sequence of `s` under `table`, with `d` the
/// kind carried by fallback tokens.
pub open spec fn spec_scan<K>(s: Seq<char>, table: Seq<(TokenConfiguration, K)>, d: K) -> Seq<
    SpecToken<K>,
> {
    scan_from(s, table, start_pos(), d)
}

/// The number of characters a node's tokens carry: its text, and for
/// a branch both delimiters (the end one only if it was really found)
/// and everything below.
pub open spec fn node_size<K>(n: SpecNode<K>) -> int
    decreases n,
{
    match n {
        SpecNode::Leaf(t) => t.value.len() as int,
        SpecNode::Branch(b) => b.value.0.len() + (if b.has_end {
            b.value.1.len() as int
        } else {
            0
        }) + nodes_size(b.stream),
    }
}

/// The number of characters a sequence of nodes carries.
pub open spec fn nodes_size<K>(ns: Seq<SpecNode<K>>) -> int
    decreases ns,
{
    if ns.len() == 0 {
        0
    } else {
        nodes_size(ns.drop_last()) + node_size(ns.last())
    }
}

/// How many characters of `s[from..to)` are not whitespace.
pub open spec fn nonblank_count(s: Seq<char>, from: int, to: int) -> int
    decreases to - from,
{
    if from >= to {
        0
    } else {
        (if blank(s[from]) {
            0int
        } else {
            1int
        }) + nonblank_count(s, from + 1, to)
    }
}

/// A character class that accepts no whitespace.
pub open spec fn pred_blank_free(p: CharPred) -> bool {
    forall|c: char| blank(c) ==> !pred_accepts(p, c)
}

/// A literal without whitespace characters.
pub open spec fn lit_blank_free(lit: Seq<char>) -> bool {
    forall|k: int| 0 <= k < lit.len() ==> !blank(lit[k])
}

/// A table entry that cannot take a whitespace character.
pub open spec fn entry_blank_free<K>(e: (TokenConfiguration, K)) -> bool {
    match e.0 {
        TokenConfiguration::Rule(first, rest) => pred_blank_free(first) && pred_blank_free(rest),
        TokenConfiguration::Boring(lit) => lit_blank_free(lit@),
        TokenConfiguration::Branch(start_lit, end_lit) => lit_blank_free(start_lit@)
            && lit_blank_free(end_lit@),
    }
}

/// A table none of whose entries can take a whitespace character.
pub open spec fn table_blank_free<K>(table: Seq<(TokenConfiguration, K)>) -> bool {
    forall|i: int| 0 <= i < table.len() ==> entry_blank_free(#[trigger] table[i])
}

/// Counting non-whitespace characters splits at any midpoint.
pub proof fn lemma_nonblank_split(s: Seq<char>, a: int, b: int, c: int)
    requires
        a <= b <= c,
    ensures
        nonblank_count(s, a, c) == nonblank_count(s, a, b) + nonblank_count(s, b, c),
    decreases b - a,
{
    if a < b {
        lemma_nonblank_split(s, a + 1, b, c);
    }
}

/// A stretch without whitespace counts whole.
pub proof fn lemma_nonblank_full(s: Seq<char>, a: int, b: int)
    requires
        a <= b,
        forall|k: int| a <= k < b ==> !blank(s[k]),
    ensures
        nonblank_count(s, a, b) == b - a,
    decreases b - a,
{
    if a < b {
        lemma_nonblank_full(s, a + 1, b);
    }
}

/// A predicate run stays within the stream and every character it
/// takes is accepted by the continuation class.
pub proof fn lemma_run_stop_chars(s: Seq<char>, rest: CharPred, p: Pos)
    ensures
        run_stop(s, rest, p).at >= p.at,
        p.at <= s.len() ==> run_stop(s, rest, p).at <= s.len(),
        forall|k: int|
            p.at <= k < run_stop(s, rest, p).at ==> pred_accepts(rest, #[trigger] s[k]),
    decreases s.len() - p.at,
{
    if p.at < s.len() && pred_accepts(rest, s[p.at]) {
        lemma_run_stop_chars(s, rest, step_pos(s, p));
    }
}

/// The characters a node sequence carries, split off at the front.
pub proof fn lemma_nodes_size_cons<K>(x: SpecNode<K>, r: Seq<SpecNode<K>>)
    ensures
        nodes_size(seq![x] + r) == node_size(x) + nodes_size(r),
    decreases r.len(),
{
    reveal_with_fuel(nodes_size, 2);
    if r.len() == 0 {
        assert(seq![x] + r =~= seq![x]);
        assert(seq![x].drop_last() =~= Seq::<SpecNode<K>>::empty());
    } else {
        assert((seq![x] + r).drop_last() =~= seq![x] + r.drop_last());
        assert((seq![x] + r).last() == r.last());
        lemma_nodes_size_cons(x, r.drop_last());
    }
}

/// Size accounting for one matcher step: the produced node carries
/// the consumed first character plus exactly the non-whitespace
/// characters up to the stop position.
pub proof fn lemma_try_entries_sizes<K>(
    s: Seq<char>,
    table: Seq<(TokenConfiguration, K)>,
    i: int,
    p: Pos,
    d: K,
)
    requires
        table_blank_free(table),
        1 <= p.at <= s.len(),
        !blank(s[p.at - 1]),
    ensures
        p.at <= try_entries(s, table, i, p, d).1.at <= s.len(),
        node_size(try_entries(s, table, i, p, d).0) == 1 + nonblank_count(
            s,
            p.at,
            try_entries(s, table, i, p, d).1.at,
        ),
    decreases s.len() - p.at, 1int, table.len() - i,
{
    if 0 <= i < table.len() {
        match table[i].0 {
            TokenConfiguration::Rule(first, rest) => {
                if pred_accepts(first, s[p.at - 1]) {
                    lemma_run_stop_chars(s, rest, p);
                    let stop = run_stop(s, rest, p);
                    assert forall|k: int| p.at <= k < stop.at implies !blank(s[k]) by {
                        assert(pred_accepts(rest, s[k]));
                    }
                    lemma_nonblank_full(s, p.at, stop.at);
                } else {
                    lemma_try_entries_sizes(s, table, i + 1, p, d);
                }
            },
            TokenConfiguration::Boring(lit) => {
                if lit_match(s, lit@, p) {
                    lemma_advance_pos_at(s, p, (lit@.len() - 1) as nat);
                    let stop = lit_stop(s, lit@, p);
                    assert forall|k: int| p.at <= k < stop.at implies !blank(s[k]) by {
                        assert(s.subrange(p.at - 1, p.at - 1 + lit@.len())[k - (p.at - 1)] == s[k]);
                        assert(s[k] == lit@[k - (p.at - 1)]);
                    }
                    lemma_nonblank_full(s, p.at, stop.at);
                } else {
                    lemma_try_entries_sizes(s, table, i + 1, p, d);
                }
            },
            TokenConfiguration::Branch(start_lit, end_lit) => {
                if lit_match(s, start_lit@, p) {
                    lemma_advance_pos_at(s, p, (start_lit@.len() - 1) as nat);
                    let inner = lit_stop(s, start_lit@, p);
                    assert forall|k: int| p.at <= k < inner.at implies !blank(s[k]) by {
                        assert(s.subrange(p.at - 1, p.at - 1 + start_lit@.len())[k - (p.at - 1)]
                            == s[k]);
                        assert(s[k] == start_lit@[k - (p.at - 1)]);
                    }
                    lemma_nonblank_full(s, p.at, inner.at);
                    lemma_collect_children_sizes(s, table, end_lit@, inner, d);
                    let t = collect_children(s, table, end_lit@, inner, d);
                    lemma_nonblank_split(s, p.at, inner.at, t.2.at);
                } else {
                    lemma_try_entries_sizes(s, table, i + 1, p, d);
                }
            },
        }
    }
}

/// Size accounting for the matcher entered at `p`.
pub proof fn lemma_tokenize_at_sizes<K>(
    s: Seq<char>,
    table: Seq<(TokenConfiguration, K)>,
    p: Pos,
    d: K,
)
    requires
        table_blank_free(table),
        1 <= p.at <= s.len(),
        !blank(s[p.at - 1]),
    ensures
        p.at <= tokenize_at(s, table, p, d).1.at <= s.len(),
        node_size(tokenize_at(s, table, p, d).0) == 1 + nonblank_count(
            s,
            p.at,
            tokenize_at(s, table, p, d).1.at,
        ),
    decreases s.len() - p.at, 2int, 0int,
{
    lemma_try_entries_sizes(s, table, 0, p, d);
}

/// Size accounting for a branch body: the children and the closing
/// token together carry exactly the non-whitespace characters between
/// the entry and the stop position.
pub proof fn lemma_collect_children_sizes<K>(
    s: Seq<char>,
    table: Seq<(TokenConfiguration, K)>,
    end_lit: Seq<char>,
    p: Pos,
    d: K,
)
    requires
        table_blank_free(table),
        0 <= p.at <= s.len(),
    ensures
        p.at <= collect_children(s, table, end_lit, p, d).2.at <= s.len(),
        nodes_size(collect_children(s, table, end_lit, p, d).0) + (match collect_children(
            s,
            table,
            end_lit,
            p,
            d,
        ).1 {
            Some(tok) => tok.value.len() as int,
            None => 0,
        }) == nonblank_count(s, p.at, collect_children(s, table, end_lit, p, d).2.at),
    decreases s.len() - p.at, 0int, 0int,
{
    if p.at >= s.len() {
    } else {
        let c = s[p.at];
        let p1 = step_pos(s, p);
        if blank(c) {
            lemma_collect_children_sizes(s, table, end_lit, p1, d);
        } else {
            lemma_tokenize_at_sizes(s, table, p1, d);
            let t = tokenize_at(s, table, p1, d);
            if t.0 matches SpecNode::Leaf(tok) && tok.value == end_lit {
            } else {
                lemma_collect_children_sizes(s, table, end_lit, t.1, d);
                let rest = collect_children(s, table, end_lit, t.1, d);
                lemma_nodes_size_cons(t.0, rest.0);
                lemma_nonblank_split(s, p1.at, t.1.at, rest.2.at);
            }
        }
    }
}

/// Size accounting for the tree builder: from `p` on, the produced
/// nodes carry exactly the remaining non-whitespace characters.
pub proof fn lemma_build_from_sizes<K>(
    s: Seq<char>,
    table: Seq<(TokenConfiguration, K)>,
    p: Pos,
    d: K,
)
    requires
        table_blank_free(table),
        0 <= p.at <= s.len(),
    ensures
        nodes_size(build_from(s, table, p, d)) == nonblank_count(s, p.at, s.len() as int),
    decreases s.len() - p.at, 3int, 0int,
{
    if p.at >= s.len() {
    } else {
        let c = s[p.at];
        let p1 = step_pos(s, p);
        if blank(c) {
            lemma_build_from_sizes(s, table, p1, d);
        } else {
            lemma_tokenize_at_sizes(s, table, p1, d);
            let t = tokenize_at(s, table, p1, d);
            lemma_build_from_sizes(s, table, t.1, d);
            lemma_nodes_size_cons(t.0, build_from(s, table, t.1, d));
            lemma_nonblank_split(s, p1.at, t.1.at, s.len() as int);
        }
    }
}

/// Progress, counted: under a table that cannot take whitespace, the
/// characters carried by all emitted tokens add up exactly to the
/// number of non-whitespace characters of the input.
pub proof fn lemma_tree_carries_every_character<K>(
    s: Seq<char>,
    table: Seq<(TokenConfiguration, K)>,
    d: K,
)
    requires
        table_blank_free(table),
    ensures
        nodes_size(spec_tree(s, table, d)) == nonblank_count(s, 0, s.len() as int),
{
    lemma_build_from_sizes(s, table, start_pos(), d);
}

/// A predicate run never moves the cursor backwards.
pub proof fn lemma_run_stop_consumes(s: Seq<char>, rest: CharPred, p: Pos)
    ensures
        run_stop(s, rest, p).at >= p.at,
    decreases s.len() - p.at,
{
    if p.at < s.len() && pred_accepts(rest, s[p.at]) {
        lemma_run_stop_consumes(s, rest, step_pos(s, p));
    }
}

/// Trying the table entries never moves the cursor backwards.
pub proof fn lemma_try_entries_consumes<K>(
    s: Seq<char>,
    table: Seq<(TokenConfiguration, K)>,
    i: int,
    p: Pos,
    d: K,
)
    ensures
        try_entries(s, table, i, p, d).1.at >= p.at,
    decreases s.len() - p.at, 1int, table.len() - i,
{
    if 0 <= i < table.len() {
        match table[i].0 {
            TokenConfiguration::Rule(first, rest) => {
                if pred_accepts(first, s[p.at - 1]) {
                    lemma_run_stop_consumes(s, rest, p);
                } else {
                    lemma_try_entries_consumes(s, table, i + 1, p, d);
                }
            },
            TokenConfiguration::Boring(lit) => {
                if lit_match(s, lit@, p) {
                    lemma_advance_pos_at(s, p, (lit@.len() - 1) as nat);
                } else {
                    lemma_try_entries_consumes(s, table, i + 1, p, d);
                }
            },
            TokenConfiguration::Branch(start_lit, end_lit) => {
                if lit_match(s, start_lit@, p) {
                    lemma_advance_pos_at(s, p, (start_lit@.len() - 1) as nat);
                    let inner = lit_stop(s, start_lit@, p);
                    if p.at <= inner.at <= s.len() {
                        lemma_collect_children_consumes(s, table, end_lit@, inner, d);
                    }
                } else {
                    lemma_try_entries_consumes(s, table, i + 1, p, d);
                }
            },
        }
    }
}

/// Progress: one step of the matcher, entered right after a character
/// was consumed, never moves the cursor backwards; together with that
/// first character, every tokenization step consumes at least one
/// character.
pub proof fn lemma_tokenize_at_consumes<K>(
    s: Seq<char>,
    table: Seq<(TokenConfiguration, K)>,
    p: Pos,
    d: K,
)
    ensures
        tokenize_at(s, table, p, d).1.at >= p.at,
    decreases s.len() - p.at, 2int, 0int,
{
    lemma_try_entries_consumes(s, table, 0, p, d);
}

/// Collecting the children of a branch never moves the cursor
/// backwards.
pub proof fn lemma_collect_children_consumes<K>(
    s: Seq<char>,
    table: Seq<(TokenConfiguration, K)>,
    end_lit: Seq<char>,
    p: Pos,
    d: K,
)
    ensures
        collect_children(s, table, end_lit, p, d).2.at >= p.at,
    decreases s.len() - p.at, 0int, 0int,
{
    if p.at < s.len() {
        let p1 = step_pos(s, p);
        if blank(s[p.at]) {
            lemma_collect_children_consumes(s, table, end_lit, p1, d);
        } else {
            lemma_tokenize_at_consumes(s, table, p1, d);
            let t = tokenize_at(s, table, p1, d);
            if t.0 matches SpecNode::Leaf(tok) && tok.value == end_lit {
            } else if p.at < t.1.at <= s.len() {
                lemma_collect_children_consumes(s, table, end_lit, t.1, d);
            }
        }
    }
}

} // verus!
