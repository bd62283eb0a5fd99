use vstd::prelude::*;
use vstd::string::StringExecFns;
use crate::dfa::{DFAutomata, Transition};
use crate::nfa::{Edge, NFAutomata};
use crate::symbols::{BinaryOperator, Symbol, UnaryOperator};
use crate::tree::{tree_size, LexTree};

verus! {

/// The decimal digit `d`.
pub open spec fn digit(d: nat) -> char {
    if d == 0 {
        '0'
    } else if d == 1 {
        '1'
    } else if d == 2 {
        '2'
    } else if d == 3 {
        '3'
    } else if d == 4 {
        '4'
    } else if d == 5 {
        '5'
    } else if d == 6 {
        '6'
    } else if d == 7 {
        '7'
    } else if d == 8 {
        '8'
    } else {
        '9'
    }
}

/// The decimal digits of `n`, most significant first.
pub open spec fn decimal(n: nat) -> Seq<char>
    decreases n,
{
    if n < 10 {
        seq![digit(n)]
    } else {
        decimal(n / 10).push(digit(n % 10))
    }
}

/// Relies on `ToString` for `usize` (through its `Display`): the decimal
/// digits, most significant first, with no sign or padding.
#[verifier::external_body]
fn decimal_text(n: usize) -> (r: String)
    ensures
        r@ == decimal(n as nat),
{
    n.to_string()
}

/// Relies on `ToString` for `char`: the string of that one character.
#[verifier::external_body]
fn char_text(c: char) -> (r: String)
    ensures
        r@ == seq![c],
{
    c.to_string()
}

/// The start of each diagram line.
pub open spec fn indent() -> Seq<char> {
    "\n        "@
}

/// An HTML page that renders a Mermaid diagram.
pub open spec fn html_page(header: Seq<char>, content: Seq<char>) -> Seq<char> {
    "\n<!DOCTYPE html>\n<html lang=\"en\"><head><meta charset=\"utf-8\" /></head>\n  <body>\n    <pre class=\"mermaid\">\n      "@
        + header + content
        + "\n    </pre>\n    <script type=\"module\">\n      import mermaid from 'https://cdn.jsdelivr.net/npm/mermaid@9/dist/mermaid.esm.min.mjs';\n      mermaid.initialize({ startOnLoad: true });\n    </script>\n  </body>\n</html>\n        "@
}

fn html(header: &str, content: &str) -> (r: String)
    ensures
        r@ == html_page(header@, content@),
{
    let mut page = String::from_str(
        "\n<!DOCTYPE html>\n<html lang=\"en\"><head><meta charset=\"utf-8\" /></head>\n  <body>\n    <pre class=\"mermaid\">\n      ",
    );
    page.append(header);
    page.append(content);
    page.append(
        "\n    </pre>\n    <script type=\"module\">\n      import mermaid from 'https://cdn.jsdelivr.net/npm/mermaid@9/dist/mermaid.esm.min.mjs';\n      mermaid.initialize({ startOnLoad: true });\n    </script>\n  </body>\n</html>\n        ",
    );
    page
}

/// The line of state `id`; the accepting state gets a double circle.
pub open spec fn nfa_node_line(id: nat, accepting: nat) -> Seq<char> {
    if id == accepting {
        indent() + decimal(id) + "((("@ + decimal(id) + ")))"@
    } else {
        indent() + decimal(id) + "(("@ + decimal(id) + "))"@
    }
}

/// The lines of states `0..k`.
pub open spec fn nfa_nodes(accepting: nat, k: nat) -> Seq<char>
    decreases k,
{
    if k == 0 {
        seq![]
    } else {
        nfa_nodes(accepting, (k - 1) as nat) + nfa_node_line((k - 1) as nat, accepting)
    }
}

/// The line of an edge; epsilon loops are not drawn.
pub open spec fn nfa_edge_line(e: Edge) -> Seq<char> {
    match e.1 {
        Symbol::Character(x) => indent() + decimal(e.0 as nat) + " -->|\""@ + seq![x] + "\"| "@ + decimal(e.2 as nat),
        Symbol::Epsilon => if e.0 != e.2 {
            indent() + decimal(e.0 as nat) + " -->|ε| "@ + decimal(e.2 as nat)
        } else {
            seq![]
        },
    }
}

pub open spec fn nfa_edge_lines(edges: Seq<Edge>) -> Seq<char>
    decreases edges.len(),
{
    if edges.len() == 0 {
        seq![]
    } else {
        nfa_edge_lines(edges.drop_last()) + nfa_edge_line(edges.last())
    }
}

/// A Mermaid graph of an NFA.
pub struct NFAVisualizer {
    mermaid: String,
}

impl NFAVisualizer {
    pub closed spec fn text(&self) -> Seq<char> {
        self.mermaid@
    }

    /// The diagram of the states, then of the edges in order.
    pub fn new(automata: &NFAutomata) -> (r: NFAVisualizer)
        requires
            automata.well_formed(),
        ensures
            r.text() == nfa_nodes(automata.accepting() as nat, (automata.last() + 1) as nat) + nfa_edge_lines(automata.edges()),
    {
        let mut mermaid = String::new();
        let last = automata.last_state();
        let accepting = automata.acceptance_state();
        let mut id: usize = 0;
        while id <= last
            invariant
                last == automata.last(),
                last < usize::MAX,
                accepting == automata.accepting(),
                id <= last + 1,
                mermaid@ == nfa_nodes(accepting as nat, id as nat),
            decreases last + 1 - id,
        {
            let number = decimal_text(id);
            mermaid.append("\n        ");
            mermaid.append(number.as_str());
            if id == accepting {
                mermaid.append("(((");
                mermaid.append(number.as_str());
                mermaid.append(")))");
            } else {
                mermaid.append("((");
                mermaid.append(number.as_str());
                mermaid.append("))");
            }
            proof {
                assert(mermaid@ =~= nfa_nodes(accepting as nat, (id + 1) as nat));
            }
            id += 1;
        }
        let ghost nodes = mermaid@;
        let edges = automata.transitions();
        let mut i: usize = 0;
        while i < edges.len()
            invariant
                edges@ == automata.edges(),
                i <= edges@.len(),
                mermaid@ == nodes + nfa_edge_lines(edges@.subrange(0, i as int)),
            decreases edges@.len() - i,
        {
            let (from, symbol, to) = edges[i];
            let ghost before = mermaid@;
            match symbol {
                Symbol::Character(x) => {
                    mermaid.append("\n        ");
                    mermaid.append(decimal_text(from).as_str());
                    mermaid.append(" -->|\"");
                    mermaid.append(char_text(x).as_str());
                    mermaid.append("\"| ");
                    mermaid.append(decimal_text(to).as_str());
                },
                Symbol::Epsilon => {
                    if from != to {
                        mermaid.append("\n        ");
                        mermaid.append(decimal_text(from).as_str());
                        mermaid.append(" -->|ε| ");
                        mermaid.append(decimal_text(to).as_str());
                    }
                },
            }
            proof {
                let sub = edges@.subrange(0, i + 1);
                assert(sub.drop_last() =~= edges@.subrange(0, i as int));
                assert(before + nfa_edge_line(edges@[i as int]) =~= mermaid@);
            }
            i += 1;
        }
        assert(edges@.subrange(0, i as int) =~= edges@);
        NFAVisualizer { mermaid }
    }

    /// The Mermaid text.
    pub fn mermaid(&self) -> (r: &str)
        ensures
            r@ == self.text(),
    {
        self.mermaid.as_str()
    }

    /// The HTML page that renders the diagram.
    pub fn graph(&self) -> (r: String)
        ensures
            r@ == html_page("graph LR"@, self.text()),
    {
        html("graph LR", self.mermaid.as_str())
    }
}

/// The line of tree node `id`; leaves with a character are highlighted.
pub open spec fn description_line(id: nat, label: Seq<char>, terminal: bool) -> Seq<char> {
    indent() + decimal(id) + "((\""@ + label + "\")) "@ + if terminal {
        indent() + "style "@ + decimal(id) + " fill:#f9f "@
    } else {
        seq![]
    }
}

pub open spec fn connection_line(from: nat, to: nat) -> Seq<char> {
    indent() + decimal(from) + " --> "@ + decimal(to) + " "@
}

pub open spec fn unary_label(op: UnaryOperator) -> Seq<char> {
    match op {
        UnaryOperator::Kleene => "*"@,
        UnaryOperator::Maybe => "?"@,
        UnaryOperator::Many => "+"@,
    }
}

pub open spec fn binary_label(op: BinaryOperator) -> Seq<char> {
    match op {
        BinaryOperator::Concat => "."@,
        BinaryOperator::Or => "|"@,
    }
}

/// The diagram of `t` drawn from node number `id` in pre-order, and the
/// last node number used.
pub open spec fn tree_text(t: LexTree, id: nat) -> (Seq<char>, nat)
    decreases t,
{
    match t {
        LexTree::Leaf { value: Symbol::Character(x) } => (description_line(id, seq![x], true), id),
        LexTree::Leaf { value: Symbol::Epsilon } => (description_line(id, "ε"@, false), id),
        LexTree::Unary { value, child } => {
            let (c, last) = tree_text(*child, id + 1);
            (description_line(id, unary_label(value), false) + connection_line(id, id + 1) + c, last)
        },
        LexTree::Binary { value, left_child, right_child } => {
            let (l, last1) = tree_text(*left_child, id + 1);
            let (r, last2) = tree_text(*right_child, last1 + 1);
            (
                description_line(id, binary_label(value), false) + connection_line(id, id + 1) + l + connection_line(
                    id,
                    last1 + 1,
                ) + r,
                last2,
            )
        },
    }
}

proof fn lemma_tree_text_ids(t: LexTree, id: nat)
    ensures
        id <= tree_text(t, id).1 < id + tree_size(t),
    decreases t,
{
    match t {
        LexTree::Leaf { .. } => {},
        LexTree::Unary { child, .. } => lemma_tree_text_ids(*child, id + 1),
        LexTree::Binary { left_child, right_child, .. } => {
            lemma_tree_text_ids(*left_child, id + 1);
            lemma_tree_text_ids(*right_child, tree_text(*left_child, id + 1).1 + 1);
        },
    }
}

/// A Mermaid flowchart of a syntax tree, nodes numbered in pre-order.
pub struct LexTreeVisualizer {
    last_id: usize,
    mermaid: String,
}

impl LexTreeVisualizer {
    pub closed spec fn text(&self) -> Seq<char> {
        self.mermaid@
    }

    pub fn new(node: &LexTree) -> (r: LexTreeVisualizer)
        requires
            tree_size(*node) < usize::MAX,
        ensures
            r.text() == tree_text(*node, 0).0,
    {
        let mut visualizer = LexTreeVisualizer { last_id: 0, mermaid: String::new() };
        proof { lemma_tree_text_ids(*node, 0); }
        visualizer.visit(node);
        assert(visualizer.mermaid@ =~= tree_text(*node, 0).0);
        visualizer
    }

    fn add_description(&mut self, id: usize, description: &str, is_terminal: bool)
        ensures
            final(self).mermaid@ == old(self).mermaid@ + description_line(id as nat, description@, is_terminal),
            final(self).last_id == old(self).last_id,
    {
        let number = decimal_text(id);
        self.mermaid.append("\n        ");
        self.mermaid.append(number.as_str());
        self.mermaid.append("((\"");
        self.mermaid.append(description);
        self.mermaid.append("\")) ");
        if is_terminal {
            self.mermaid.append("\n        ");
            self.mermaid.append("style ");
            self.mermaid.append(number.as_str());
            self.mermaid.append(" fill:#f9f ");
        }
        assert(self.mermaid@ =~= old(self).mermaid@ + description_line(id as nat, description@, is_terminal));
    }

    fn add_connection(&mut self, from: usize, to: usize)
        ensures
            final(self).mermaid@ == old(self).mermaid@ + connection_line(from as nat, to as nat),
            final(self).last_id == old(self).last_id,
    {
        self.mermaid.append("\n        ");
        self.mermaid.append(decimal_text(from).as_str());
        self.mermaid.append(" --> ");
        self.mermaid.append(decimal_text(to).as_str());
        self.mermaid.append(" ");
        assert(self.mermaid@ =~= old(self).mermaid@ + connection_line(from as nat, to as nat));
    }

    #[verifier::spinoff_prover]
    #[verifier::rlimit(50)]
    fn visit(&mut self, node: &LexTree)
        requires
            old(self).last_id + tree_size(*node) <= usize::MAX,
        ensures
            final(self).mermaid@ == old(self).mermaid@ + tree_text(*node, old(self).last_id as nat).0,
            final(self).last_id == tree_text(*node, old(self).last_id as nat).1,
        decreases node,
    {
        let id = self.last_id;
        let ghost start = self.mermaid@;
        proof { lemma_tree_text_ids(*node, id as nat); }
        match node {
            LexTree::Unary { value, child } => {
                let description = match value {
                    UnaryOperator::Kleene => "*",
                    UnaryOperator::Maybe => "?",
                    UnaryOperator::Many => "+",
                };
                self.add_description(id, description, false);
                self.last_id = id + 1;
                self.add_connection(id, self.last_id);
                self.visit(child);
                assert(self.mermaid@ =~= start + tree_text(*node, id as nat).0);
            },
            LexTree::Binary { value, left_child, right_child } => {
                let description = match value {
                    BinaryOperator::Concat => ".",
                    BinaryOperator::Or => "|",
                };
                self.add_description(id, description, false);
                self.last_id = id + 1;
                self.add_connection(id, self.last_id);
                proof { lemma_tree_text_ids(**left_child, (id + 1) as nat); }
                self.visit(left_child);
                self.last_id = self.last_id + 1;
                self.add_connection(id, self.last_id);
                self.visit(right_child);
                assert(self.mermaid@ =~= start + tree_text(*node, id as nat).0);
            },
            LexTree::Leaf { value } => {
                match value {
                    Symbol::Character(x) => {
                        let label = char_text(*x);
                        self.add_description(id, label.as_str(), true);
                    },
                    Symbol::Epsilon => {
                        self.add_description(id, "ε", false);
                    },
                }
            },
        }
    }

    /// The Mermaid text.
    pub fn mermaid(&self) -> (r: &str)
        ensures
            r@ == self.text(),
    {
        self.mermaid.as_str()
    }

    /// The HTML page that renders the diagram.
    pub fn graph(&self) -> (r: String)
        ensures
            r@ == html_page("flowchart TD"@, self.text()),
    {
        html("flowchart TD", self.mermaid.as_str())
    }
}

/// The characters of the transitions from `from` to `to`, in list order.
pub open spec fn pair_chars(t: Seq<Transition>, from: usize, to: usize) -> Seq<char>
    decreases t.len(),
{
    if t.len() == 0 {
        seq![]
    } else {
        pair_chars(t.drop_last(), from, to) + if t.last().0 == from && t.last().2 == to {
            seq![t.last().1]
        } else {
            seq![]
        }
    }
}

/// The characters separated by commas.
pub open spec fn joined(cs: Seq<char>) -> Seq<char>
    decreases cs.len(),
{
    if cs.len() <= 1 {
        cs
    } else {
        joined(cs.drop_last()) + seq![',', cs.last()]
    }
}

/// Where `x` goes in `s`: before the first character greater than it.
pub open spec fn insert_at(s: Seq<char>, x: char) -> int
    decreases s.len(),
{
    if s.len() == 0 {
        0
    } else if (x as u32) < (s[0] as u32) {
        0
    } else {
        1 + insert_at(s.skip(1), x)
    }
}

pub open spec fn insert_sorted(s: Seq<char>, x: char) -> Seq<char> {
    s.take(insert_at(s, x)) + seq![x] + s.skip(insert_at(s, x))
}

/// The characters in ascending order.
pub open spec fn sort_chars(cs: Seq<char>) -> Seq<char>
    decreases cs.len(),
{
    if cs.len() == 0 {
        cs
    } else {
        insert_sorted(sort_chars(cs.drop_last()), cs.last())
    }
}

pub open spec fn ascending(s: Seq<char>) -> bool {
    forall|i: int, j: int| 0 <= i < j < s.len() ==> (s[i] as u32) <= (s[j] as u32)
}

proof fn lemma_insert_at(s: Seq<char>, x: char)
    ensures
        0 <= insert_at(s, x) <= s.len(),
        forall|j: int| 0 <= j < insert_at(s, x) ==> !((x as u32) < (#[trigger] s[j] as u32)),
        insert_at(s, x) < s.len() ==> (x as u32) < (s[insert_at(s, x)] as u32),
    decreases s.len(),
{
    if s.len() > 0 && !((x as u32) < (s[0] as u32)) {
        lemma_insert_at(s.skip(1), x);
        assert forall|j: int| 0 <= j < insert_at(s, x) implies !((x as u32) < (#[trigger] s[j] as u32)) by {
            if j > 0 {
                assert(s[j] == s.skip(1)[j - 1]);
            }
        }
    }
}

/// Sorting gives ascending characters, as many as there were.
pub proof fn lemma_sort_chars(cs: Seq<char>)
    ensures
        ascending(sort_chars(cs)),
        sort_chars(cs).len() == cs.len(),
    decreases cs.len(),
{
    if cs.len() > 0 {
        let s = sort_chars(cs.drop_last());
        let x = cs.last();
        lemma_sort_chars(cs.drop_last());
        lemma_insert_at(s, x);
        let k = insert_at(s, x);
        let r = insert_sorted(s, x);
        assert forall|i: int, j: int| 0 <= i < j < r.len() implies (r[i] as u32) <= (r[j] as u32) by {
            if j < k {
                assert(r[i] == s[i] && r[j] == s[j]);
            } else if j == k {
                assert(r[j] == x);
                assert(r[i] == s[i]);
            } else if i < k {
                assert(r[i] == s[i] && r[j] == s[j - 1]);
            } else if i == k {
                assert(r[i] == x && r[j] == s[j - 1]);
                assert((s[k] as u32) <= (s[j - 1] as u32) || j - 1 == k);
            } else {
                assert(r[i] == s[i - 1] && r[j] == s[j - 1]);
            }
        }
    }
}

/// One arrow for all transitions from `from` to `to`, if there are any,
/// its characters in ascending order.
pub open spec fn dfa_arrow(t: Seq<Transition>, from: usize, to: usize) -> Seq<char> {
    let cs = pair_chars(t, from, to);
    if cs.len() == 0 {
        seq![]
    } else {
        indent() + decimal(from as nat) + " -->|\""@ + joined(sort_chars(cs)) + "\"| "@ + decimal(to as nat)
    }
}

/// The arrows from `from` to the states `0..k`.
pub open spec fn dfa_arrows_from(t: Seq<Transition>, from: usize, k: nat) -> Seq<char>
    decreases k,
{
    if k == 0 {
        seq![]
    } else {
        dfa_arrows_from(t, from, (k - 1) as nat) + dfa_arrow(t, from, (k - 1) as usize)
    }
}

/// The arrows from the states `0..k` to the states `0..width`.
pub open spec fn dfa_arrows(t: Seq<Transition>, width: nat, k: nat) -> Seq<char>
    decreases k,
{
    if k == 0 {
        seq![]
    } else {
        dfa_arrows(t, width, (k - 1) as nat) + dfa_arrows_from(t, (k - 1) as usize, width)
    }
}

/// The line of state `id`; accepting states get a double circle.
pub open spec fn dfa_node_line(id: nat, accepting: bool) -> Seq<char> {
    if accepting {
        indent() + decimal(id) + "((("@ + decimal(id) + ")))"@
    } else {
        indent() + decimal(id) + "(("@ + decimal(id) + "))"@
    }
}

pub open spec fn dfa_nodes(d: DFAutomata, k: nat) -> Seq<char>
    decreases k,
{
    if k == 0 {
        seq![]
    } else {
        dfa_nodes(d, (k - 1) as nat) + dfa_node_line((k - 1) as nat, d.is_accepting((k - 1) as usize))
    }
}

/// A Mermaid graph of a DFA: one arrow per pair of states, labelled with
/// its characters.
pub struct DFAVisualizer {
    mermaid: String,
}

impl DFAVisualizer {
    pub closed spec fn text(&self) -> Seq<char> {
        self.mermaid@
    }

    /// The characters of the transitions from `from` to `to`, in list order.
    fn pair_labels(transitions: &Vec<Transition>, from: usize, to: usize) -> (r: Vec<char>)
        ensures
            r@ == pair_chars(transitions@, from, to),
    {
        let mut cs: Vec<char> = Vec::new();
        let mut i: usize = 0;
        while i < transitions.len()
            invariant
                i <= transitions@.len(),
                cs@ == pair_chars(transitions@.subrange(0, i as int), from, to),
            decreases transitions@.len() - i,
        {
            let (a, c, b) = transitions[i];
            proof {
                assert(transitions@.subrange(0, i + 1).drop_last() =~= transitions@.subrange(0, i as int));
            }
            if a == from && b == to {
                cs.push(c);
            }
            proof {
                assert(cs@ =~= pair_chars(transitions@.subrange(0, i + 1), from, to));
            }
            i += 1;
        }
        assert(transitions@.subrange(0, i as int) =~= transitions@);
        cs
    }

    /// `sorted` with `x` put before its first greater character.
    fn insert_char(sorted: &Vec<char>, x: char) -> (r: Vec<char>)
        ensures
            r@ == insert_sorted(sorted@, x),
    {
        proof { lemma_insert_at(sorted@, x); }
        let ghost k = insert_at(sorted@, x);
        let mut pos: usize = 0;
        while pos < sorted.len() && !((x as u32) < (sorted[pos] as u32))
            invariant
                pos <= k,
                0 <= k <= sorted@.len(),
                forall|j: int| 0 <= j < k ==> !((x as u32) < (#[trigger] sorted@[j] as u32)),
                k < sorted@.len() ==> (x as u32) < (sorted@[k] as u32),
            decreases sorted@.len() - pos,
        {
            pos += 1;
        }
        let mut r: Vec<char> = Vec::new();
        let mut i: usize = 0;
        while i < pos
            invariant
                pos == k,
                i <= pos,
                pos <= sorted@.len(),
                r@ == sorted@.take(i as int),
            decreases pos - i,
        {
            r.push(sorted[i]);
            proof { assert(r@ =~= sorted@.take(i + 1)); }
            i += 1;
        }
        r.push(x);
        let mut j: usize = pos;
        while j < sorted.len()
            invariant
                pos == k,
                pos <= j <= sorted@.len(),
                r@ == sorted@.take(k) + seq![x] + sorted@.subrange(k, j as int),
            decreases sorted@.len() - j,
        {
            r.push(sorted[j]);
            proof { assert(r@ =~= sorted@.take(k) + seq![x] + sorted@.subrange(k, j + 1)); }
            j += 1;
        }
        assert(sorted@.subrange(k, j as int) =~= sorted@.skip(k));
        r
    }

    /// The arrow from `from` to `to`.
    fn arrow(transitions: &Vec<Transition>, from: usize, to: usize) -> (r: String)
        ensures
            r@ == dfa_arrow(transitions@, from, to),
    {
        let cs = DFAVisualizer::pair_labels(transitions, from, to);
        if cs.len() == 0 {
            return String::new();
        }
        let mut sorted: Vec<char> = Vec::new();
        let mut i: usize = 0;
        while i < cs.len()
            invariant
                i <= cs@.len(),
                sorted@ == sort_chars(cs@.take(i as int)),
            decreases cs@.len() - i,
        {
            proof {
                assert(cs@.take(i + 1).drop_last() =~= cs@.take(i as int));
            }
            sorted = DFAVisualizer::insert_char(&sorted, cs[i]);
            i += 1;
        }
        assert(cs@.take(i as int) =~= cs@);
        let mut label = String::new();
        let mut k: usize = 0;
        while k < sorted.len()
            invariant
                k <= sorted@.len(),
                label@ == joined(sorted@.take(k as int)),
            decreases sorted@.len() - k,
        {
            let ghost before = sorted@.take(k as int);
            if k > 0 {
                label.append(",");
                proof { reveal_strlit(","); }
            }
            label.append(char_text(sorted[k]).as_str());
            proof {
                let after = sorted@.take(k + 1);
                assert(after.drop_last() =~= before);
                if k == 0 {
                    assert(joined(after) =~= seq![sorted@[0]]);
                }
                assert(label@ =~= joined(after));
            }
            k += 1;
        }
        assert(sorted@.take(k as int) =~= sorted@);
        let mut line = String::from_str("\n        ");
        line.append(decimal_text(from).as_str());
        line.append(" -->|\"");
        line.append(label.as_str());
        line.append("\"| ");
        line.append(decimal_text(to).as_str());
        line
    }

    /// The diagram of the states, then of the arrows by source and target.
    pub fn new(automata: &DFAutomata) -> (r: DFAVisualizer)
        requires
            automata.well_formed(),
        ensures
            r.text() == dfa_nodes(*automata, automata.state_count()) + dfa_arrows(
                automata.trans(),
                automata.state_count(),
                automata.state_count(),
            ),
    {
        let mut mermaid = String::new();
        let last = automata.last_state();
        let accepting = automata.acceptance_states();
        let n = last + 1;
        let mut id: usize = 0;
        while id < n
            invariant
                automata.well_formed(),
                last == automata.last(),
                n == last + 1,
                accepting@ == automata.accepting_map(),
                id <= n,
                mermaid@ == dfa_nodes(*automata, id as nat),
            decreases n - id,
        {
            let number = decimal_text(id);
            mermaid.append("\n        ");
            mermaid.append(number.as_str());
            if accepting[id] {
                mermaid.append("(((");
                mermaid.append(number.as_str());
                mermaid.append(")))");
            } else {
                mermaid.append("((");
                mermaid.append(number.as_str());
                mermaid.append("))");
            }
            proof {
                assert(mermaid@ =~= dfa_nodes(*automata, (id + 1) as nat));
            }
            id += 1;
        }
        let ghost nodes = mermaid@;
        let transitions = automata.transitions();
        let mut from: usize = 0;
        while from < n
            invariant
                n == automata.last() + 1,
                transitions@ == automata.trans(),
                from <= n,
                mermaid@ == nodes + dfa_arrows(transitions@, n as nat, from as nat),
            decreases n - from,
        {
            let ghost row_start = mermaid@;
            let mut to: usize = 0;
            while to < n
                invariant
                    from < n,
                    to <= n,
                    mermaid@ == row_start + dfa_arrows_from(transitions@, from, to as nat),
                decreases n - to,
            {
                let line = DFAVisualizer::arrow(transitions, from, to);
                mermaid.append(line.as_str());
                proof {
                    assert(mermaid@ =~= row_start + dfa_arrows_from(transitions@, from, (to + 1) as nat));
                }
                to += 1;
            }
            proof {
                assert(mermaid@ =~= nodes + dfa_arrows(transitions@, n as nat, (from + 1) as nat));
            }
            from += 1;
        }
        DFAVisualizer { mermaid }
    }

    /// The Mermaid text.
    pub fn mermaid(&self) -> (r: &str)
        ensures
            r@ == self.text(),
    {
        self.mermaid.as_str()
    }

    /// The HTML page that renders the diagram.
    pub fn graph(&self) -> (r: String)
        ensures
            r@ == html_page("graph LR"@, self.text()),
    {
        html("graph LR", self.mermaid.as_str())
    }
}

} // verus!
