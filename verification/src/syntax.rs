//! Syntax trees of source files, as tree-sitter parses them: every node in
//! document order (a parent before its descendants), each with its kind,
//! text, first line (counted from 0), depth below the root, the field it
//! fills in its parent and whether the grammar names it.

use vstd::prelude::*;
use crate::text::{str_eq, views};

verus! {

/// One node of a syntax tree.
pub struct SyntaxNode {
    pub kind: String,
    pub text: String,
    pub row: usize,
    pub depth: usize,
    pub field: Option<String>,
    pub named: bool,
}

/// What a node holds, as values: kind, text, row, depth, field, named.
pub type SyntaxView = (Seq<char>, Seq<char>, usize, usize, Option<Seq<char>>, bool);

pub open spec fn node_view(n: SyntaxNode) -> SyntaxView {
    (n.kind@, n.text@, n.row, n.depth, crate::text::opt_view(n.field), n.named)
}

pub open spec fn syntax_views(s: Seq<SyntaxNode>) -> Seq<SyntaxView> {
    s.map_values(|n: SyntaxNode| node_view(n))
}

/// The nodes tree-sitter's Python grammar gives for `source`.
pub uninterp spec fn python_syntax(source: Seq<char>) -> Seq<SyntaxView>;

/// The nodes tree-sitter's TypeScript grammar gives for `source`.
pub uninterp spec fn typescript_syntax(source: Seq<char>) -> Seq<SyntaxView>;

/// The nodes tree-sitter's TSX grammar gives for `source`.
pub uninterp spec fn tsx_syntax(source: Seq<char>) -> Seq<SyntaxView>;

/// Parses `source` with `tree_sitter_python::LANGUAGE` and lists its nodes
/// by `TreeCursor::goto_descendant`, each with `Node::kind`,
/// `Node::utf8_text`, the row of `Node::start_position`, the cursor's
/// `depth` and `field_name`, and `Node::is_named`. `None` when the parser
/// gives no tree.
#[verifier::external_body]
pub(crate) fn parse_python(source: &str) -> (r: Option<Vec<SyntaxNode>>)
    ensures
        r matches Some(t) ==> syntax_views(t@) == python_syntax(source@),
{
    let mut parser = tree_sitter::Parser::new();
    parser.set_language(&tree_sitter_python::LANGUAGE.into()).ok()?;
    let tree = parser.parse(source, None)?;
    let mut cursor = tree.walk();
    Some((0..tree.root_node().descendant_count()).map(|i| {
        cursor.goto_descendant(i);
        let n = cursor.node();
        SyntaxNode { kind: n.kind().into(), text: n.utf8_text(source.as_bytes()).unwrap_or_default().into(),
            row: n.start_position().row, depth: cursor.depth() as usize, field: cursor.field_name().map(String::from), named: n.is_named() }
    }).collect())
}

/// The same with `tree_sitter_typescript::LANGUAGE_TYPESCRIPT`.
#[verifier::external_body]
pub(crate) fn parse_typescript(source: &str) -> (r: Option<Vec<SyntaxNode>>)
    ensures
        r matches Some(t) ==> syntax_views(t@) == typescript_syntax(source@),
{
    let mut parser = tree_sitter::Parser::new();
    parser.set_language(&tree_sitter_typescript::LANGUAGE_TYPESCRIPT.into()).ok()?;
    let tree = parser.parse(source, None)?;
    let mut cursor = tree.walk();
    Some((0..tree.root_node().descendant_count()).map(|i| {
        cursor.goto_descendant(i);
        let n = cursor.node();
        SyntaxNode { kind: n.kind().into(), text: n.utf8_text(source.as_bytes()).unwrap_or_default().into(),
            row: n.start_position().row, depth: cursor.depth() as usize, field: cursor.field_name().map(String::from), named: n.is_named() }
    }).collect())
}

/// The same with `tree_sitter_typescript::LANGUAGE_TSX`.
#[verifier::external_body]
pub(crate) fn parse_tsx(source: &str) -> (r: Option<Vec<SyntaxNode>>)
    ensures
        r matches Some(t) ==> syntax_views(t@) == tsx_syntax(source@),
{
    let mut parser = tree_sitter::Parser::new();
    parser.set_language(&tree_sitter_typescript::LANGUAGE_TSX.into()).ok()?;
    let tree = parser.parse(source, None)?;
    let mut cursor = tree.walk();
    Some((0..tree.root_node().descendant_count()).map(|i| {
        cursor.goto_descendant(i);
        let n = cursor.node();
        SyntaxNode { kind: n.kind().into(), text: n.utf8_text(source.as_bytes()).unwrap_or_default().into(),
            row: n.start_position().row, depth: cursor.depth() as usize, field: cursor.field_name().map(String::from), named: n.is_named() }
    }).collect())
}

/// The children of node `a` among the nodes from `k` on: those one level
/// deeper, up to the first node not below `a`.
pub open spec fn children_from(ns: Seq<SyntaxView>, a: int, k: int) -> Seq<int>
    decreases ns.len() - k,
{
    if k < 0 || k >= ns.len() || a < 0 || a >= ns.len() || ns[k].3 <= ns[a].3 {
        Seq::empty()
    } else {
        (if ns[k].3 == ns[a].3 + 1 { seq![k] } else { Seq::<int>::empty() }) + children_from(ns, a, k + 1)
    }
}

/// The children of node `a`, in order.
pub open spec fn children(ns: Seq<SyntaxView>, a: int) -> Seq<int> {
    children_from(ns, a, a + 1)
}

/// The children of node `a`, in order.
pub fn child_nodes(ns: &Vec<SyntaxNode>, a: usize) -> (r: Vec<usize>)
    requires
        a < ns@.len(),
    ensures
        r@.map_values(|k: usize| k as int) == children(syntax_views(ns@), a as int),
        forall|j: int| 0 <= j < r@.len() ==> a < #[trigger] r@[j] < ns@.len(),
{
    let ghost vs = syntax_views(ns@);
    let mut out: Vec<usize> = Vec::new();
    let count = ns.len();
    let mut k: usize = a + 1;
    let ghost all = children(vs, a as int);
    proof {
        assert(out@.map_values(|k: usize| k as int) + children_from(vs, a as int, k as int) =~= all);
    }
    while k < ns.len()
        invariant
            a < ns@.len(),
            a < k <= ns@.len(),
            vs == syntax_views(ns@),
            all == children(vs, a as int),
            out@.map_values(|k: usize| k as int) + children_from(vs, a as int, k as int) == all,
            forall|j: int| 0 <= j < out@.len() ==> a < #[trigger] out@[j] < k,
        decreases ns@.len() - k,
    {
        proof {
            assert(vs[k as int].3 == ns@[k as int].depth);
            assert(vs[a as int].3 == ns@[a as int].depth);
        }
        if ns[k].depth <= ns[a].depth {
            proof {
                assert(children_from(vs, a as int, k as int) == Seq::<int>::empty());
                assert(out@.map_values(|k: usize| k as int) + Seq::<int>::empty() =~= out@.map_values(|k: usize| k as int));
            }
            return out;
        }
        let ghost before = out@.map_values(|k: usize| k as int);
        if ns[k].depth - 1 == ns[a].depth {
            out.push(k);
            proof {
                assert(out@.map_values(|k: usize| k as int) =~= before.push(k as int));
                assert(before + children_from(vs, a as int, k as int)
                    =~= before.push(k as int) + children_from(vs, a as int, k + 1));
            }
        } else {
            proof {
                assert(before + children_from(vs, a as int, k as int) =~= before + children_from(vs, a as int, k + 1));
            }
        }
        k = k + 1;
    }
    proof {
        assert(children_from(vs, a as int, k as int) == Seq::<int>::empty());
        assert(out@.map_values(|k: usize| k as int) + Seq::<int>::empty() =~= out@.map_values(|k: usize| k as int));
    }
    out
}

/// The nodes of `cs` that fill the field `f`.
pub open spec fn with_field(ns: Seq<SyntaxView>, cs: Seq<int>, f: Seq<char>) -> Seq<int>
    decreases cs.len(),
{
    if cs.len() == 0 {
        Seq::empty()
    } else {
        with_field(ns, cs.drop_last(), f) + if ns[cs.last()].4 == Some(f) { seq![cs.last()] } else { Seq::<int>::empty() }
    }
}

/// The first child of `a` that fills the field `f`, as
/// `Node::child_by_field_name` finds it.
pub open spec fn field_child(ns: Seq<SyntaxView>, a: int, f: Seq<char>) -> Option<int> {
    let cs = with_field(ns, children(ns, a), f);
    if cs.len() > 0 { Some(cs[0]) } else { None }
}

/// The named children of `a` that are not comments.
pub open spec fn arguments_of(ns: Seq<SyntaxView>, cs: Seq<int>) -> Seq<int>
    decreases cs.len(),
{
    if cs.len() == 0 {
        Seq::empty()
    } else {
        arguments_of(ns, cs.drop_last()) + if ns[cs.last()].5 && ns[cs.last()].0 != "comment"@ { seq![cs.last()] } else { Seq::<int>::empty() }
    }
}

/// The first argument of a call's argument list: comments between the
/// parentheses are named nodes too, and are passed over.
pub open spec fn first_argument(ns: Seq<SyntaxView>, a: int) -> Option<int> {
    let cs = arguments_of(ns, children(ns, a));
    if cs.len() > 0 { Some(cs[0]) } else { None }
}

/// The nodes of `cs` that the grammar names.
pub open spec fn named_of(ns: Seq<SyntaxView>, cs: Seq<int>) -> Seq<int>
    decreases cs.len(),
{
    if cs.len() == 0 {
        Seq::empty()
    } else {
        named_of(ns, cs.drop_last()) + if ns[cs.last()].5 { seq![cs.last()] } else { Seq::<int>::empty() }
    }
}

/// The indices of `cs` that fill field `f`, in order.
pub fn field_nodes(ns: &Vec<SyntaxNode>, cs: &Vec<usize>, f: &str) -> (r: Vec<usize>)
    requires
        forall|j: int| 0 <= j < cs@.len() ==> #[trigger] cs@[j] < ns@.len(),
    ensures
        r@.map_values(|k: usize| k as int) == with_field(syntax_views(ns@), cs@.map_values(|k: usize| k as int), f@),
        forall|j: int| 0 <= j < r@.len() ==> #[trigger] r@[j] < ns@.len(),
{
    let ghost vs = syntax_views(ns@);
    let ghost ci = cs@.map_values(|k: usize| k as int);
    let mut out: Vec<usize> = Vec::new();
    let mut j: usize = 0;
    while j < cs.len()
        invariant
            j <= cs@.len(),
            vs == syntax_views(ns@),
            ci == cs@.map_values(|k: usize| k as int),
            forall|q: int| 0 <= q < cs@.len() ==> #[trigger] cs@[q] < ns@.len(),
            out@.map_values(|k: usize| k as int) == with_field(vs, ci.take(j as int), f@),
            forall|q: int| 0 <= q < out@.len() ==> #[trigger] out@[q] < ns@.len(),
        decreases cs@.len() - j,
    {
        let k = cs[j];
        proof {
            assert(ci.take(j + 1).drop_last() =~= ci.take(j as int));
            assert(ci.take(j + 1).last() == k as int);
            assert(vs[k as int].4 == crate::text::opt_view(ns@[k as int].field));
        }
        let ghost before = out@.map_values(|k: usize| k as int);
        let hit = match &ns[k].field {
            Some(name) => str_eq(name.as_str(), f),
            None => false,
        };
        if hit {
            out.push(k);
            proof {
                assert(out@.map_values(|k: usize| k as int) =~= before + seq![k as int]);
            }
        } else {
            proof {
                assert(before + Seq::<int>::empty() =~= before);
            }
        }
        j = j + 1;
    }
    proof {
        assert(ci.take(cs@.len() as int) =~= ci);
    }
    out
}

/// The first child of `a` that fills field `f`.
pub fn field_child_node(ns: &Vec<SyntaxNode>, a: usize, f: &str) -> (r: Option<usize>)
    requires
        a < ns@.len(),
    ensures
        match r {
            Some(k) => field_child(syntax_views(ns@), a as int, f@) == Some(k as int) && k < ns@.len(),
            None => field_child(syntax_views(ns@), a as int, f@) is None,
        },
{
    let cs = child_nodes(ns, a);
    let fs = field_nodes(ns, &cs, f);
    proof {
        assert(fs@.map_values(|k: usize| k as int).len() == fs@.len());
    }
    if fs.len() > 0 {
        proof {
            assert(fs@.map_values(|k: usize| k as int)[0] == fs@[0] as int);
        }
        Some(fs[0])
    } else {
        None
    }
}

/// The first non-comment named child of `a`.
pub fn first_argument_node(ns: &Vec<SyntaxNode>, a: usize) -> (r: Option<usize>)
    requires
        a < ns@.len(),
    ensures
        match r {
            Some(k) => first_argument(syntax_views(ns@), a as int) == Some(k as int) && k < ns@.len(),
            None => first_argument(syntax_views(ns@), a as int) is None,
        },
{
    let ghost vs = syntax_views(ns@);
    let cs = child_nodes(ns, a);
    let ghost ci = cs@.map_values(|k: usize| k as int);
    let mut j: usize = 0;
    while j < cs.len()
        invariant
            j <= cs@.len(),
            a < ns@.len(),
            vs == syntax_views(ns@),
            ci == cs@.map_values(|k: usize| k as int),
            ci == children(vs, a as int),
            forall|q: int| 0 <= q < cs@.len() ==> a < #[trigger] cs@[q] < ns@.len(),
            arguments_of(vs, ci.take(j as int)).len() == 0,
        decreases cs@.len() - j,
    {
        let k = cs[j];
        proof {
            assert(ci.take(j + 1).drop_last() =~= ci.take(j as int));
            assert(ci.take(j + 1).last() == k as int);
            assert(vs[k as int].0 == ns@[k as int].kind@);
            assert(vs[k as int].5 == ns@[k as int].named);
        }
        if ns[k].named && !str_eq(ns[k].kind.as_str(), "comment") {
            proof {
                lemma_arguments_prefix(vs, ci, j as int + 1);
                assert(arguments_of(vs, ci.take(j + 1)) =~= seq![k as int]);
            }
            return Some(k);
        }
        proof {
            assert(arguments_of(vs, ci.take(j + 1)) =~= arguments_of(vs, ci.take(j as int)));
        }
        j = j + 1;
    }
    proof {
        assert(ci.take(cs@.len() as int) =~= ci);
    }
    None
}

/// What the arguments of a prefix are, the whole list starts with.
proof fn lemma_arguments_prefix(ns: Seq<SyntaxView>, cs: Seq<int>, n: int)
    requires
        0 <= n <= cs.len(),
    ensures
        arguments_of(ns, cs).len() >= arguments_of(ns, cs.take(n)).len(),
        forall|q: int| 0 <= q < arguments_of(ns, cs.take(n)).len() ==> #[trigger] arguments_of(ns, cs)[q] == arguments_of(ns, cs.take(n))[q],
    decreases cs.len() - n,
{
    if n < cs.len() {
        lemma_arguments_prefix(ns, cs, n + 1);
        assert(cs.take(n + 1).drop_last() =~= cs.take(n));
    } else {
        assert(cs.take(n) =~= cs);
    }
}

/// The named children of `a`, in order.
pub fn named_child_nodes(ns: &Vec<SyntaxNode>, a: usize) -> (r: Vec<usize>)
    requires
        a < ns@.len(),
    ensures
        r@.map_values(|k: usize| k as int) == named_of(syntax_views(ns@), children(syntax_views(ns@), a as int)),
        forall|j: int| 0 <= j < r@.len() ==> a < #[trigger] r@[j] < ns@.len(),
{
    let ghost vs = syntax_views(ns@);
    let cs = child_nodes(ns, a);
    let ghost ci = cs@.map_values(|k: usize| k as int);
    let mut out: Vec<usize> = Vec::new();
    let mut j: usize = 0;
    while j < cs.len()
        invariant
            j <= cs@.len(),
            a < ns@.len(),
            vs == syntax_views(ns@),
            ci == cs@.map_values(|k: usize| k as int),
            ci == children(vs, a as int),
            forall|q: int| 0 <= q < cs@.len() ==> a < #[trigger] cs@[q] < ns@.len(),
            out@.map_values(|k: usize| k as int) == named_of(vs, ci.take(j as int)),
            forall|q: int| 0 <= q < out@.len() ==> a < #[trigger] out@[q] < ns@.len(),
        decreases cs@.len() - j,
    {
        let k = cs[j];
        proof {
            assert(ci.take(j + 1).drop_last() =~= ci.take(j as int));
            assert(ci.take(j + 1).last() == k as int);
            assert(vs[k as int].5 == ns@[k as int].named);
        }
        let ghost before = out@.map_values(|k: usize| k as int);
        if ns[k].named {
            out.push(k);
            proof {
                assert(out@.map_values(|k: usize| k as int) =~= before + seq![k as int]);
            }
        } else {
            proof {
                assert(before + Seq::<int>::empty() =~= before);
            }
        }
        j = j + 1;
    }
    proof {
        assert(ci.take(cs@.len() as int) =~= ci);
    }
    out
}

/// The line a node starts on, counted from 1 (as far as `usize` goes).
pub open spec fn line_of(n: SyntaxView) -> usize {
    if n.2 < usize::MAX { (n.2 + 1) as usize } else { n.2 }
}

pub fn node_line(n: &SyntaxNode) -> (r: usize)
    ensures
        r == line_of(node_view(*n)),
{
    if n.row < usize::MAX { n.row + 1 } else { n.row }
}

} // verus!
