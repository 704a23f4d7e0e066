//! The imports of a Python file or a TypeScript/JavaScript file, read from
//! its syntax tree.

use vstd::prelude::*;
use crate::packages::{Facts, Import};
use crate::compiler::CodeEdge;
use crate::extraction::{extraction_fits, package_extraction, parsed_kind, Extraction};
use crate::repository::Repository;
use crate::syntax::{
    arguments_of, child_nodes, children, field_child, field_child_node, first_argument, first_argument_node, line_of,
    named_child_nodes, named_of, node_line, node_view, parse_python, parse_tsx, parse_typescript, python_syntax, syntax_views, tsx_syntax, typescript_syntax, with_field, field_nodes,
    SyntaxNode, SyntaxView,
};
use crate::text::{cat2, chars_of, is_space, is_space_exec, str_eq, string_of, views};

verus! {

/// What an import holds, as values: line, specifier, whether for types only.
pub open spec fn import_view(i: Import) -> (usize, Seq<char>, bool) {
    (i.line, i.specifier@, i.type_only)
}

/// What a file's imports are, as values: the imports, and the dynamic
/// imports of computed modules (line and expression).
pub open spec fn facts_view(f: Facts) -> (Seq<(usize, Seq<char>, bool)>, Seq<(usize, Seq<char>)>) {
    (f.imports@.map_values(|i: Import| import_view(i)), f.unresolved@.map_values(|u: (usize, String)| (u.0, u.1@)))
}

/// The text without white space, as `split_whitespace().collect()` gives it.
pub open spec fn without_space(s: Seq<char>) -> Seq<char>
    decreases s.len(),
{
    if s.len() == 0 {
        Seq::empty()
    } else {
        without_space(s.drop_last()) + if is_space(s.last()) { Seq::<char>::empty() } else { seq![s.last()] }
    }
}

fn without_space_exec(s: &str) -> (r: String)
    ensures
        r@ == without_space(s@),
{
    let c = chars_of(s);
    let mut out: Vec<char> = Vec::new();
    let mut i: usize = 0;
    while i < c.len()
        invariant
            i <= c@.len(),
            c@ == s@,
            out@ == without_space(c@.take(i as int)),
        decreases c@.len() - i,
    {
        proof {
            assert(c@.take(i + 1).drop_last() =~= c@.take(i as int));
        }
        if !is_space_exec(c[i]) {
            out.push(c[i]);
            proof {
                assert(out@ =~= without_space(c@.take(i as int)) + seq![c@[i as int]]);
            }
        } else {
            proof {
                assert(without_space(c@.take(i as int)) + Seq::<char>::empty() =~= without_space(c@.take(i as int)));
            }
        }
        i = i + 1;
    }
    proof {
        assert(c@.take(c@.len() as int) =~= c@);
    }
    string_of(out.as_slice())
}

/// One import or dynamic import found so far, and the open ancestors of the
/// node reached: each with whether its children are read and whether the
/// imports below it exist for type checkers only.
pub struct WalkView {
    pub imports: Seq<(usize, Seq<char>, bool)>,
    pub unresolved: Seq<(usize, Seq<char>)>,
    pub stack: Seq<(int, bool, bool)>,
}

/// The ancestors left open when the walk reaches a node at depth `d`.
pub open spec fn popped(ns: Seq<SyntaxView>, st: Seq<(int, bool, bool)>, d: usize) -> Seq<(int, bool, bool)>
    decreases st.len(),
{
    if st.len() > 0 && ns[st.last().0].3 >= d {
        popped(ns, st.drop_last(), d)
    } else {
        st
    }
}

/// The value of a plain Python string literal; none for f-strings and
/// anything else.
pub open spec fn python_literal(ns: Seq<SyntaxView>, c: int) -> Option<Seq<char>> {
    if ns[c].0 != "string"@ {
        None
    } else {
        python_parts(ns, named_of(ns, children(ns, c)), named_of(ns, children(ns, c)).len() as int)
    }
}

pub open spec fn python_parts(ns: Seq<SyntaxView>, ps: Seq<int>, n: int) -> Option<Seq<char>>
    decreases n,
{
    if n <= 0 {
        Some(Seq::empty())
    } else {
        match python_parts(ns, ps, n - 1) {
            None => None,
            Some(v) => {
                let k = ps[n - 1];
                if ns[k].0 == "string_start"@ || ns[k].0 == "string_end"@ {
                    Some(v)
                } else if ns[k].0 == "string_content"@ {
                    Some(v + ns[k].1)
                } else {
                    None
                }
            },
        }
    }
}

/// `if TYPE_CHECKING:` and `if typing.TYPE_CHECKING:`.
pub open spec fn type_checking(ns: Seq<SyntaxView>, a: int) -> bool {
    match field_child(ns, a, "condition"@) {
        Some(c) => ns[c].1 == "TYPE_CHECKING"@ || ns[c].1 == "typing.TYPE_CHECKING"@,
        None => false,
    }
}

/// The modules an `import a, b as c` statement names.
pub open spec fn imported_names(ns: Seq<SyntaxView>, names: Seq<int>, n: int, line: usize, t: bool) -> Seq<(usize, Seq<char>, bool)>
    decreases n,
{
    if n <= 0 {
        Seq::empty()
    } else {
        let c = names[n - 1];
        let module = if ns[c].0 == "aliased_import"@ { field_child(ns, c, "name"@) } else { Some(c) };
        imported_names(ns, names, n - 1, line, t) + match module {
            Some(m) => seq![(line, without_space(ns[m].1), t)],
            None => Seq::empty(),
        }
    }
}

/// What a Python node adds: the modules of an import statement, that of a
/// `from … import`, and those of `importlib.import_module` and
/// `__import__` calls (their expression when it is no plain string).
pub open spec fn python_node(ns: Seq<SyntaxView>, i: int, t: bool) -> (Seq<(usize, Seq<char>, bool)>, Seq<(usize, Seq<char>)>) {
    let line = line_of(ns[i]);
    if ns[i].0 == "import_statement"@ {
        let names = with_field(ns, children(ns, i), "name"@);
        (imported_names(ns, names, names.len() as int, line, t), Seq::empty())
    } else if ns[i].0 == "import_from_statement"@ {
        match field_child(ns, i, "module_name"@) {
            Some(m) => (seq![(line, without_space(ns[m].1), t)], Seq::empty()),
            None => (Seq::empty(), Seq::empty()),
        }
    } else if ns[i].0 == "call"@ {
        let dynamic = match field_child(ns, i, "function"@) {
            Some(f) => ns[f].1 == "importlib.import_module"@ || ns[f].1 == "__import__"@,
            None => false,
        };
        if dynamic {
            let literal = match field_child(ns, i, "arguments"@) {
                Some(a) => match first_argument(ns, a) {
                    Some(x) => python_literal(ns, x),
                    None => None,
                },
                None => None,
            };
            match literal {
                Some(v) => (seq![(line, v, t)], Seq::empty()),
                None => (Seq::empty(), seq![(line, ns[i].1)]),
            }
        } else {
            (Seq::empty(), Seq::empty())
        }
    } else {
        (Seq::empty(), Seq::empty())
    }
}

/// Import statements hold nothing more to read below them.
pub open spec fn python_stops(kind: Seq<char>) -> bool {
    kind == "import_statement"@ || kind == "import_from_statement"@ || kind == "future_import_statement"@
}

/// The walk after node `i`: a node is read when its parent's children are
/// (the root always is) and the grammar names it; it is for type checkers
/// only below its parent, or when it is the consequence of an
/// `if TYPE_CHECKING:` parent.
pub open spec fn python_step(ns: Seq<SyntaxView>, w: WalkView, i: int) -> WalkView {
    let st = popped(ns, w.stack, ns[i].3);
    let read = if st.len() == 0 { i == 0 } else { st.last().1 && ns[i].5 };
    let t = if st.len() == 0 {
        false
    } else {
        st.last().2 || (ns[st.last().0].0 == "if_statement"@ && type_checking(ns, st.last().0)
            && field_child(ns, st.last().0, "consequence"@) == Some(i))
    };
    let found = if read { python_node(ns, i, t) } else { (Seq::empty(), Seq::empty()) };
    WalkView {
        imports: w.imports + found.0,
        unresolved: w.unresolved + found.1,
        stack: st.push((i, read && !python_stops(ns[i].0), t)),
    }
}

pub open spec fn python_walk(ns: Seq<SyntaxView>, n: int) -> WalkView
    decreases n,
{
    if n <= 0 {
        WalkView { imports: Seq::empty(), unresolved: Seq::empty(), stack: Seq::empty() }
    } else {
        python_step(ns, python_walk(ns, n - 1), n - 1)
    }
}

/// The imports of a Python file with the syntax tree `ns`.
pub open spec fn python_facts_of(ns: Seq<SyntaxView>) -> (Seq<(usize, Seq<char>, bool)>, Seq<(usize, Seq<char>)>) {
    let w = python_walk(ns, ns.len() as int);
    (w.imports, w.unresolved)
}

pub open spec fn stack_view(s: Seq<(usize, bool, bool)>) -> Seq<(int, bool, bool)> {
    s.map_values(|e: (usize, bool, bool)| (e.0 as int, e.1, e.2))
}

fn python_literal_node(ns: &Vec<SyntaxNode>, c: usize) -> (r: Option<String>)
    requires
        c < ns@.len(),
    ensures
        match r {
            Some(v) => python_literal(syntax_views(ns@), c as int) == Some(v@),
            None => python_literal(syntax_views(ns@), c as int) is None,
        },
{
    let ghost vs = syntax_views(ns@);
    proof {
        assert(vs[c as int].0 == ns@[c as int].kind@);
    }
    if !str_eq(ns[c].kind.as_str(), "string") {
        return None;
    }
    let parts = named_child_nodes(ns, c);
    let ghost ps = parts@.map_values(|k: usize| k as int);
    let mut value = String::new();
    let mut j: usize = 0;
    proof {
        assert(value@ =~= Seq::<char>::empty());
    }
    while j < parts.len()
        invariant
            j <= parts@.len(),
            vs == syntax_views(ns@),
            ps == parts@.map_values(|k: usize| k as int),
            ps == named_of(vs, children(vs, c as int)),
            forall|q: int| 0 <= q < parts@.len() ==> #[trigger] parts@[q] < ns@.len(),
            python_parts(vs, ps, j as int) == Some(value@),
        decreases parts@.len() - j,
    {
        let k = parts[j];
        proof {
            assert(ps[j as int] == k as int);
            assert(vs[k as int].0 == ns@[k as int].kind@);
            assert(vs[k as int].1 == ns@[k as int].text@);
        }
        let kind = ns[k].kind.as_str();
        if str_eq(kind, "string_start") || str_eq(kind, "string_end") {
        } else if str_eq(kind, "string_content") {
            value = cat2(value.as_str(), ns[k].text.as_str());
        } else {
            proof {
                lemma_parts_none(vs, ps, j as int + 1, ps.len() as int);
            }
            return None;
        }
        j = j + 1;
    }
    Some(value)
}

proof fn lemma_parts_none(ns: Seq<SyntaxView>, ps: Seq<int>, n: int, m: int)
    requires
        n <= m,
        python_parts(ns, ps, n) is None,
    ensures
        python_parts(ns, ps, m) is None,
    decreases m - n,
{
    if n < m {
        lemma_parts_none(ns, ps, n, m - 1);
    }
}

fn type_checking_node(ns: &Vec<SyntaxNode>, a: usize) -> (r: bool)
    requires
        a < ns@.len(),
    ensures
        r == type_checking(syntax_views(ns@), a as int),
{
    match field_child_node(ns, a, "condition") {
        Some(c) => {
            proof {
                assert(syntax_views(ns@)[c as int].1 == ns@[c as int].text@);
            }
            str_eq(ns[c].text.as_str(), "TYPE_CHECKING") || str_eq(ns[c].text.as_str(), "typing.TYPE_CHECKING")
        },
        None => false,
    }
}

fn push_import(facts: &mut Facts, line: usize, specifier: String, type_only: bool)
    ensures
        facts_view(*final(facts)).0 == facts_view(*old(facts)).0.push((line, specifier@, type_only)),
        facts_view(*final(facts)).1 == facts_view(*old(facts)).1,
{
    let ghost before = facts_view(*facts);
    facts.imports.push(Import { line, specifier, type_only });
    proof {
        assert(facts_view(*facts).0 =~= before.0.push((line, specifier@, type_only)));
        assert(facts_view(*facts).1 =~= before.1);
    }
}

fn push_unresolved(facts: &mut Facts, line: usize, expression: String)
    ensures
        facts_view(*final(facts)).0 == facts_view(*old(facts)).0,
        facts_view(*final(facts)).1 == facts_view(*old(facts)).1.push((line, expression@)),
{
    let ghost before = facts_view(*facts);
    facts.unresolved.push((line, expression));
    proof {
        assert(facts_view(*facts).0 =~= before.0);
        assert(facts_view(*facts).1 =~= before.1.push((line, expression@)));
    }
}

fn python_node_exec(ns: &Vec<SyntaxNode>, i: usize, t: bool, facts: &mut Facts)
    requires
        i < ns@.len(),
    ensures
        facts_view(*final(facts)).0 == facts_view(*old(facts)).0 + python_node(syntax_views(ns@), i as int, t).0,
        facts_view(*final(facts)).1 == facts_view(*old(facts)).1 + python_node(syntax_views(ns@), i as int, t).1,
{
    let ghost vs = syntax_views(ns@);
    let ghost start = facts_view(*facts);
    let line = node_line(&ns[i]);
    let kind = ns[i].kind.as_str();
    proof {
        assert(vs[i as int] == node_view(ns@[i as int]));
    }
    if str_eq(kind, "import_statement") {
        let cs = child_nodes(ns, i);
        let names = field_nodes(ns, &cs, "name");
        let ghost nm = names@.map_values(|k: usize| k as int);
        let mut j: usize = 0;
        proof {
            assert(start.0 + imported_names(vs, nm, 0, line, t) =~= start.0);
            assert(start.1 + Seq::<(usize, Seq<char>)>::empty() =~= start.1);
        }
        while j < names.len()
            invariant
                j <= names@.len(),
                vs == syntax_views(ns@),
                nm == names@.map_values(|k: usize| k as int),
                forall|q: int| 0 <= q < names@.len() ==> #[trigger] names@[q] < ns@.len(),
                facts_view(*facts).0 == start.0 + imported_names(vs, nm, j as int, line, t),
                facts_view(*facts).1 == start.1,
            decreases names@.len() - j,
        {
            let c = names[j];
            proof {
                assert(nm[j as int] == c as int);
                assert(vs[c as int] == node_view(ns@[c as int]));
            }
            let module = if str_eq(ns[c].kind.as_str(), "aliased_import") {
                field_child_node(ns, c, "name")
            } else {
                Some(c)
            };
            match module {
                Some(m) => {
                    proof {
                        assert(vs[m as int] == node_view(ns@[m as int]));
                    }
                    let d = without_space_exec(ns[m].text.as_str());
                    push_import(facts, line, d, t);
                    proof {
                        assert(start.0 + imported_names(vs, nm, j + 1, line, t)
                            =~= start.0 + imported_names(vs, nm, j as int, line, t) + seq![(line, without_space(vs[m as int].1), t)]);
                    }
                },
                None => {
                    proof {
                        assert(imported_names(vs, nm, j + 1, line, t) =~= imported_names(vs, nm, j as int, line, t));
                    }
                },
            }
            j = j + 1;
        }
        return;
    }
    if str_eq(kind, "import_from_statement") {
        match field_child_node(ns, i, "module_name") {
            Some(m) => {
                proof {
                    assert(vs[m as int] == node_view(ns@[m as int]));
                }
                let d = without_space_exec(ns[m].text.as_str());
                push_import(facts, line, d, t);
                proof {
                    assert(start.1 + Seq::<(usize, Seq<char>)>::empty() =~= start.1);
                }
            },
            None => {
                proof {
                    assert(start.0 + Seq::<(usize, Seq<char>, bool)>::empty() =~= start.0);
                    assert(start.1 + Seq::<(usize, Seq<char>)>::empty() =~= start.1);
                }
            },
        }
        return;
    }
    let dynamic = if str_eq(kind, "call") {
        match field_child_node(ns, i, "function") {
            Some(f) => {
                proof {
                    assert(vs[f as int] == node_view(ns@[f as int]));
                }
                str_eq(ns[f].text.as_str(), "importlib.import_module") || str_eq(ns[f].text.as_str(), "__import__")
            },
            None => false,
        }
    } else {
        false
    };
    if !dynamic {
        proof {
            assert(start.0 + Seq::<(usize, Seq<char>, bool)>::empty() =~= start.0);
            assert(start.1 + Seq::<(usize, Seq<char>)>::empty() =~= start.1);
        }
        return;
    }
    let literal = match field_child_node(ns, i, "arguments") {
        Some(a) => match first_argument_node(ns, a) {
            Some(x) => python_literal_node(ns, x),
            None => None,
        },
        None => None,
    };
    match literal {
        Some(v) => {
            push_import(facts, line, v, t);
            proof {
                assert(start.1 + Seq::<(usize, Seq<char>)>::empty() =~= start.1);
            }
        },
        None => {
            push_unresolved(facts, line, ns[i].text.clone());
            proof {
                assert(start.0 + Seq::<(usize, Seq<char>, bool)>::empty() =~= start.0);
            }
        },
    }
}

/// The imports of a Python file, read from its syntax tree.
pub fn python_facts(ns: &Vec<SyntaxNode>) -> (r: Facts)
    ensures
        facts_view(r) == python_facts_of(syntax_views(ns@)),
{
    let ghost vs = syntax_views(ns@);
    let mut facts = Facts { imports: Vec::new(), unresolved: Vec::new() };
    let mut stack: Vec<(usize, bool, bool)> = Vec::new();
    let mut i: usize = 0;
    proof {
        assert(facts_view(facts).0 =~= Seq::<(usize, Seq<char>, bool)>::empty());
        assert(facts_view(facts).1 =~= Seq::<(usize, Seq<char>)>::empty());
        assert(stack_view(stack@) =~= Seq::<(int, bool, bool)>::empty());
    }
    while i < ns.len()
        invariant
            i <= ns@.len(),
            vs == syntax_views(ns@),
            facts_view(facts).0 == python_walk(vs, i as int).imports,
            facts_view(facts).1 == python_walk(vs, i as int).unresolved,
            stack_view(stack@) == python_walk(vs, i as int).stack,
            forall|q: int| 0 <= q < stack@.len() ==> #[trigger] stack@[q].0 < i,
        decreases ns@.len() - i,
    {
        let ghost w = python_walk(vs, i as int);
        proof {
            assert(vs[i as int] == node_view(ns@[i as int]));
        }
        let d = ns[i].depth;
        while stack.len() > 0 && ns[stack[stack.len() - 1].0].depth >= d
            invariant
                vs == syntax_views(ns@),
                i < ns@.len(),
                d == vs[i as int].3,
                forall|q: int| 0 <= q < stack@.len() ==> #[trigger] stack@[q].0 < i,
                popped(vs, stack_view(stack@), d) == popped(vs, w.stack, d),
            decreases stack@.len(),
        {
            let top = stack[stack.len() - 1].0;
            proof {
                assert(stack_view(stack@).last().0 == top as int);
                assert(vs[top as int] == node_view(ns@[top as int]));
            }
            let ghost before = stack_view(stack@);
            stack.pop();
            proof {
                assert(stack_view(stack@) =~= before.drop_last());
            }
        }
        proof {
            if stack@.len() > 0 {
                let top = stack@[stack@.len() - 1].0;
                assert(stack_view(stack@).last().0 == top as int);
                assert(vs[top as int] == node_view(ns@[top as int]));
            }
            assert(popped(vs, stack_view(stack@), d) == stack_view(stack@));
        }
        let ghost st = stack_view(stack@);
        let read: bool;
        let t: bool;
        if stack.len() == 0 {
            read = i == 0;
            t = false;
        } else {
            let parent = stack[stack.len() - 1];
            proof {
                assert(st.last() == (parent.0 as int, parent.1, parent.2));
                assert(vs[parent.0 as int] == node_view(ns@[parent.0 as int]));
            }
            read = parent.1 && ns[i].named;
            t = parent.2 || (str_eq(ns[parent.0].kind.as_str(), "if_statement") && type_checking_node(ns, parent.0)
                && field_child_node(ns, parent.0, "consequence") == Some(i));
        }
        let ghost before = facts_view(facts);
        if read {
            python_node_exec(ns, i, t, &mut facts);
        } else {
            proof {
                assert(before.0 + Seq::<(usize, Seq<char>, bool)>::empty() =~= before.0);
                assert(before.1 + Seq::<(usize, Seq<char>)>::empty() =~= before.1);
            }
        }
        let stops = str_eq(ns[i].kind.as_str(), "import_statement") || str_eq(ns[i].kind.as_str(), "import_from_statement")
            || str_eq(ns[i].kind.as_str(), "future_import_statement");
        stack.push((i, read && !stops, t));
        proof {
            assert(stack_view(stack@) =~= st.push((i as int, read && !stops, t)));
            assert(python_walk(vs, i + 1) == python_step(vs, w, i as int));
        }
        i = i + 1;
    }
    facts
}

/// What parsing a file says when tree-sitter gives no tree.
pub open spec fn gave_up_text(file: Seq<char>) -> Seq<char> {
    "tree-sitter gave up parsing "@ + file
}

/// The imports of the Python file `file` with the text `source`.
pub fn python_imports(file: &str, source: &str) -> (r: Result<Facts, String>)
    ensures
        match r {
            Ok(f) => facts_view(f) == python_facts_of(python_syntax(source@)),
            Err(m) => m@ == gave_up_text(file@),
        },
{
    match parse_python(source) {
        Some(tree) => Ok(python_facts(&tree)),
        None => Err(cat2("tree-sitter gave up parsing ", file)),
    }
}


/// The nodes of `cs` of the kind `k`, named or not as `named` says.
pub open spec fn of_kind(ns: Seq<SyntaxView>, cs: Seq<int>, k: Seq<char>, named: bool) -> Seq<int>
    decreases cs.len(),
{
    if cs.len() == 0 {
        Seq::empty()
    } else {
        of_kind(ns, cs.drop_last(), k, named) + if ns[cs.last()].0 == k && ns[cs.last()].5 == named { seq![cs.last()] } else { Seq::<int>::empty() }
    }
}

fn of_kind_nodes(ns: &Vec<SyntaxNode>, cs: &Vec<usize>, k: &str, named: bool) -> (r: Vec<usize>)
    requires
        forall|j: int| 0 <= j < cs@.len() ==> #[trigger] cs@[j] < ns@.len(),
    ensures
        r@.map_values(|x: usize| x as int) == of_kind(syntax_views(ns@), cs@.map_values(|x: usize| x as int), k@, named),
        forall|j: int| 0 <= j < r@.len() ==> #[trigger] r@[j] < ns@.len(),
{
    let ghost vs = syntax_views(ns@);
    let ghost ci = cs@.map_values(|x: usize| x as int);
    let mut out: Vec<usize> = Vec::new();
    let mut j: usize = 0;
    while j < cs.len()
        invariant
            j <= cs@.len(),
            vs == syntax_views(ns@),
            ci == cs@.map_values(|x: usize| x as int),
            forall|q: int| 0 <= q < cs@.len() ==> #[trigger] cs@[q] < ns@.len(),
            out@.map_values(|x: usize| x as int) == of_kind(vs, ci.take(j as int), k@, named),
            forall|q: int| 0 <= q < out@.len() ==> #[trigger] out@[q] < ns@.len(),
        decreases cs@.len() - j,
    {
        let c = cs[j];
        proof {
            assert(ci.take(j + 1).drop_last() =~= ci.take(j as int));
            assert(ci.take(j + 1).last() == c as int);
            assert(vs[c as int] == node_view(ns@[c as int]));
        }
        let ghost before = out@.map_values(|x: usize| x as int);
        if str_eq(ns[c].kind.as_str(), k) && ns[c].named == named {
            out.push(c);
            proof {
                assert(out@.map_values(|x: usize| x as int) =~= before + seq![c as int]);
            }
        } else {
            proof {
                assert(before + Seq::<int>::empty() =~= before);
            }
        }
        j = j + 1;
    }
    proof {
        assert(ci.take(cs@.len() as int) =~= ci);
    }
    out
}

/// The value of a string, or of a template string without substitutions.
pub open spec fn script_literal(ns: Seq<SyntaxView>, c: int) -> Option<Seq<char>> {
    if ns[c].0 == "string"@ || ns[c].0 == "template_string"@ {
        script_parts(ns, named_of(ns, children(ns, c)), named_of(ns, children(ns, c)).len() as int)
    } else {
        None
    }
}

pub open spec fn script_parts(ns: Seq<SyntaxView>, ps: Seq<int>, n: int) -> Option<Seq<char>>
    decreases n,
{
    if n <= 0 {
        Some(Seq::empty())
    } else {
        match script_parts(ns, ps, n - 1) {
            None => None,
            Some(v) => {
                let k = ps[n - 1];
                if ns[k].0 == "string_fragment"@ || ns[k].0 == "escape_sequence"@ {
                    Some(v + ns[k].1)
                } else {
                    None
                }
            },
        }
    }
}

proof fn lemma_script_parts_none(ns: Seq<SyntaxView>, ps: Seq<int>, n: int, m: int)
    requires
        n <= m,
        script_parts(ns, ps, n) is None,
    ensures
        script_parts(ns, ps, m) is None,
    decreases m - n,
{
    if n < m {
        lemma_script_parts_none(ns, ps, n, m - 1);
    }
}

fn script_literal_node(ns: &Vec<SyntaxNode>, c: usize) -> (r: Option<String>)
    requires
        c < ns@.len(),
    ensures
        match r {
            Some(v) => script_literal(syntax_views(ns@), c as int) == Some(v@),
            None => script_literal(syntax_views(ns@), c as int) is None,
        },
{
    let ghost vs = syntax_views(ns@);
    proof {
        assert(vs[c as int].0 == ns@[c as int].kind@);
    }
    if !(str_eq(ns[c].kind.as_str(), "string") || str_eq(ns[c].kind.as_str(), "template_string")) {
        return None;
    }
    let parts = named_child_nodes(ns, c);
    let ghost ps = parts@.map_values(|k: usize| k as int);
    let mut value = String::new();
    let mut j: usize = 0;
    proof {
        assert(value@ =~= Seq::<char>::empty());
    }
    while j < parts.len()
        invariant
            j <= parts@.len(),
            vs == syntax_views(ns@),
            ps == parts@.map_values(|k: usize| k as int),
            ps == named_of(vs, children(vs, c as int)),
            forall|q: int| 0 <= q < parts@.len() ==> #[trigger] parts@[q] < ns@.len(),
            script_parts(vs, ps, j as int) == Some(value@),
        decreases parts@.len() - j,
    {
        let k = parts[j];
        proof {
            assert(ps[j as int] == k as int);
            assert(vs[k as int].0 == ns@[k as int].kind@);
            assert(vs[k as int].1 == ns@[k as int].text@);
        }
        let kind = ns[k].kind.as_str();
        if str_eq(kind, "string_fragment") || str_eq(kind, "escape_sequence") {
            value = cat2(value.as_str(), ns[k].text.as_str());
        } else {
            proof {
                lemma_script_parts_none(vs, ps, j as int + 1, ps.len() as int);
            }
            return None;
        }
        j = j + 1;
    }
    Some(value)
}

/// What a script node adds: the module of an `import`, `export … from` or
/// `import x = require()` (for types only after `import type` or
/// `export type`), and those of `import()` and `require()` calls (their
/// expression when it is no plain string).
pub open spec fn script_node(ns: Seq<SyntaxView>, i: int) -> (Seq<(usize, Seq<char>, bool)>, Seq<(usize, Seq<char>)>) {
    let line = line_of(ns[i]);
    if ns[i].0 == "import_statement"@ || ns[i].0 == "export_statement"@ {
        let require = if ns[i].0 == "import_statement"@ {
            of_kind(ns, children(ns, i), "import_require_clause"@, true)
        } else {
            Seq::empty()
        };
        let holder = if require.len() > 0 { require[0] } else { i };
        let literal = match field_child(ns, holder, "source"@) {
            Some(s) => script_literal(ns, s),
            None => None,
        };
        match literal {
            Some(v) => (seq![(line, v, of_kind(ns, children(ns, i), "type"@, false).len() > 0)], Seq::empty()),
            None => (Seq::empty(), Seq::empty()),
        }
    } else if ns[i].0 == "call_expression"@ {
        let loads = match field_child(ns, i, "function"@) {
            Some(f) => ns[f].0 == "import"@ || (ns[f].0 == "identifier"@ && ns[f].1 == "require"@),
            None => false,
        };
        if loads {
            let literal = match field_child(ns, i, "arguments"@) {
                Some(a) => match first_argument(ns, a) {
                    Some(x) => script_literal(ns, x),
                    None => None,
                },
                None => None,
            };
            match literal {
                Some(v) => (seq![(line, v, false)], Seq::empty()),
                None => (Seq::empty(), seq![(line, ns[i].1)]),
            }
        } else {
            (Seq::empty(), Seq::empty())
        }
    } else {
        (Seq::empty(), Seq::empty())
    }
}

/// The walk after node `i`: every named node below the root is read.
pub open spec fn script_step(ns: Seq<SyntaxView>, w: WalkView, i: int) -> WalkView {
    let st = popped(ns, w.stack, ns[i].3);
    let read = if st.len() == 0 { i == 0 } else { st.last().1 && ns[i].5 };
    let found = if read { script_node(ns, i) } else { (Seq::empty(), Seq::empty()) };
    WalkView { imports: w.imports + found.0, unresolved: w.unresolved + found.1, stack: st.push((i, read, false)) }
}

pub open spec fn script_walk(ns: Seq<SyntaxView>, n: int) -> WalkView
    decreases n,
{
    if n <= 0 {
        WalkView { imports: Seq::empty(), unresolved: Seq::empty(), stack: Seq::empty() }
    } else {
        script_step(ns, script_walk(ns, n - 1), n - 1)
    }
}

/// The imports of a script with the syntax tree `ns`.
pub open spec fn script_facts_of(ns: Seq<SyntaxView>) -> (Seq<(usize, Seq<char>, bool)>, Seq<(usize, Seq<char>)>) {
    let w = script_walk(ns, ns.len() as int);
    (w.imports, w.unresolved)
}

fn script_node_exec(ns: &Vec<SyntaxNode>, i: usize, facts: &mut Facts)
    requires
        i < ns@.len(),
    ensures
        facts_view(*final(facts)).0 == facts_view(*old(facts)).0 + script_node(syntax_views(ns@), i as int).0,
        facts_view(*final(facts)).1 == facts_view(*old(facts)).1 + script_node(syntax_views(ns@), i as int).1,
{
    let ghost vs = syntax_views(ns@);
    let ghost start = facts_view(*facts);
    let line = node_line(&ns[i]);
    let kind = ns[i].kind.as_str();
    proof {
        assert(vs[i as int] == node_view(ns@[i as int]));
        assert(start.0 + Seq::<(usize, Seq<char>, bool)>::empty() =~= start.0);
        assert(start.1 + Seq::<(usize, Seq<char>)>::empty() =~= start.1);
    }
    let import = str_eq(kind, "import_statement");
    if import || str_eq(kind, "export_statement") {
        let cs = child_nodes(ns, i);
        let holder = if import {
            let clauses = of_kind_nodes(ns, &cs, "import_require_clause", true);
            proof {
                assert(clauses@.map_values(|x: usize| x as int).len() == clauses@.len());
                if clauses@.len() > 0 {
                    assert(clauses@.map_values(|x: usize| x as int)[0] == clauses@[0] as int);
                }
            }
            if clauses.len() > 0 { clauses[0] } else { i }
        } else {
            i
        };
        let literal = match field_child_node(ns, holder, "source") {
            Some(s) => script_literal_node(ns, s),
            None => None,
        };
        match literal {
            Some(v) => {
                let types = of_kind_nodes(ns, &cs, "type", false);
                proof {
                    assert(types@.map_values(|x: usize| x as int).len() == types@.len());
                }
                push_import(facts, line, v, types.len() > 0);
            },
            None => {},
        }
        return;
    }
    let loads = if str_eq(kind, "call_expression") {
        match field_child_node(ns, i, "function") {
            Some(f) => {
                proof {
                    assert(vs[f as int] == node_view(ns@[f as int]));
                }
                str_eq(ns[f].kind.as_str(), "import") || (str_eq(ns[f].kind.as_str(), "identifier") && str_eq(ns[f].text.as_str(), "require"))
            },
            None => false,
        }
    } else {
        false
    };
    if !loads {
        return;
    }
    let literal = match field_child_node(ns, i, "arguments") {
        Some(a) => match first_argument_node(ns, a) {
            Some(x) => script_literal_node(ns, x),
            None => None,
        },
        None => None,
    };
    match literal {
        Some(v) => push_import(facts, line, v, false),
        None => push_unresolved(facts, line, ns[i].text.clone()),
    }
}

/// The imports of a script, read from its syntax tree.
pub fn script_facts(ns: &Vec<SyntaxNode>) -> (r: Facts)
    ensures
        facts_view(r) == script_facts_of(syntax_views(ns@)),
{
    let ghost vs = syntax_views(ns@);
    let mut facts = Facts { imports: Vec::new(), unresolved: Vec::new() };
    let mut stack: Vec<(usize, bool, bool)> = Vec::new();
    let mut i: usize = 0;
    proof {
        assert(facts_view(facts).0 =~= Seq::<(usize, Seq<char>, bool)>::empty());
        assert(facts_view(facts).1 =~= Seq::<(usize, Seq<char>)>::empty());
        assert(stack_view(stack@) =~= Seq::<(int, bool, bool)>::empty());
    }
    while i < ns.len()
        invariant
            i <= ns@.len(),
            vs == syntax_views(ns@),
            facts_view(facts).0 == script_walk(vs, i as int).imports,
            facts_view(facts).1 == script_walk(vs, i as int).unresolved,
            stack_view(stack@) == script_walk(vs, i as int).stack,
            forall|q: int| 0 <= q < stack@.len() ==> #[trigger] stack@[q].0 < i,
        decreases ns@.len() - i,
    {
        let ghost w = script_walk(vs, i as int);
        proof {
            assert(vs[i as int] == node_view(ns@[i as int]));
        }
        let d = ns[i].depth;
        while stack.len() > 0 && ns[stack[stack.len() - 1].0].depth >= d
            invariant
                vs == syntax_views(ns@),
                i < ns@.len(),
                d == vs[i as int].3,
                forall|q: int| 0 <= q < stack@.len() ==> #[trigger] stack@[q].0 < i,
                popped(vs, stack_view(stack@), d) == popped(vs, w.stack, d),
            decreases stack@.len(),
        {
            let top = stack[stack.len() - 1].0;
            proof {
                assert(stack_view(stack@).last().0 == top as int);
                assert(vs[top as int] == node_view(ns@[top as int]));
            }
            let ghost before = stack_view(stack@);
            stack.pop();
            proof {
                assert(stack_view(stack@) =~= before.drop_last());
            }
        }
        proof {
            if stack@.len() > 0 {
                let top = stack@[stack@.len() - 1].0;
                assert(stack_view(stack@).last().0 == top as int);
                assert(vs[top as int] == node_view(ns@[top as int]));
            }
            assert(popped(vs, stack_view(stack@), d) == stack_view(stack@));
        }
        let ghost st = stack_view(stack@);
        let read: bool;
        if stack.len() == 0 {
            read = i == 0;
        } else {
            let parent = stack[stack.len() - 1];
            proof {
                assert(st.last() == (parent.0 as int, parent.1, parent.2));
            }
            read = parent.1 && ns[i].named;
        }
        let ghost before = facts_view(facts);
        if read {
            script_node_exec(ns, i, &mut facts);
        } else {
            proof {
                assert(before.0 + Seq::<(usize, Seq<char>, bool)>::empty() =~= before.0);
                assert(before.1 + Seq::<(usize, Seq<char>)>::empty() =~= before.1);
            }
        }
        stack.push((i, read, false));
        proof {
            assert(stack_view(stack@) =~= st.push((i as int, read, false)));
            assert(script_walk(vs, i + 1) == script_step(vs, w, i as int));
        }
        i = i + 1;
    }
    facts
}

/// A TypeScript file (`.ts`, `.mts`, `.cts`) is read with the TypeScript
/// grammar, any other script with the TSX grammar.
pub open spec fn script_syntax(file: Seq<char>, source: Seq<char>) -> Seq<SyntaxView> {
    if crate::text::ends_with(file, ".ts"@) || crate::text::ends_with(file, ".mts"@) || crate::text::ends_with(file, ".cts"@) {
        typescript_syntax(source)
    } else {
        tsx_syntax(source)
    }
}

fn ends_with_text(s: &str, suffix: &str) -> (r: bool)
    ensures
        r == crate::text::ends_with(s@, suffix@),
{
    let a = chars_of(s);
    let b = chars_of(suffix);
    crate::text::has_suffix(a.as_slice(), b.as_slice())
}

/// The syntax tree of a script, or `None` when tree-sitter gives none.
pub fn parse_script(file: &str, source: &str) -> (r: Option<Vec<SyntaxNode>>)
    ensures
        r matches Some(t) ==> syntax_views(t@) == script_syntax(file@, source@),
{
    if ends_with_text(file, ".ts") || ends_with_text(file, ".mts") || ends_with_text(file, ".cts") {
        parse_typescript(source)
    } else {
        parse_tsx(source)
    }
}

/// The module specifiers the TypeScript/JavaScript file `file` with the
/// text `source` imports.
pub fn script_imports(file: &str, source: &str) -> (r: Result<Facts, String>)
    ensures
        match r {
            Ok(f) => facts_view(f) == script_facts_of(script_syntax(file@, source@)),
            Err(m) => m@ == gave_up_text(file@),
        },
{
    match parse_script(file, source) {
        Some(tree) => Ok(script_facts(&tree)),
        None => Err(cat2("tree-sitter gave up parsing ", file)),
    }
}


/// What the parser of a file's language reads from its text.
pub open spec fn source_facts(path: Seq<char>, source: Seq<char>) -> (Seq<(usize, Seq<char>, bool)>, Seq<(usize, Seq<char>)>) {
    if crate::text::ends_with(path, ".py"@) {
        python_facts_of(python_syntax(source))
    } else {
        script_facts_of(script_syntax(path, source))
    }
}

/// Each file with the facts its parser read: the Python files and scripts
/// with those of their text, any other file with none.
pub open spec fn parsed_from(sources: Seq<(String, String)>, parsed: Seq<(String, Facts)>) -> bool {
    &&& parsed.len() == sources.len()
    &&& forall|i: int| 0 <= i < parsed.len() ==> (#[trigger] parsed[i]).0@ == sources[i].0@
        && facts_view(parsed[i].1) == if parsed_kind(sources[i].0@) {
            source_facts(sources[i].0@, sources[i].1@)
        } else {
            (Seq::empty(), Seq::empty())
        }
}

/// The package edges and report of files given with their text: each Python
/// file and script read by its parser, then as `package_extraction` says;
/// the first file tree-sitter gives no tree for stops it.
pub fn package_extraction_of_sources(
    repository: &Repository,
    root: &str,
    provider_edges: &Vec<CodeEdge>,
    sources: &Vec<(String, String)>,
    stdlib: &Vec<String>,
    builtins: &Vec<String>,
) -> (r: Result<Extraction, String>)
    requires
        repository.wf(),
    ensures
        match r {
            Ok(x) => exists|parsed: Seq<(String, Facts)>| parsed_from(sources@, parsed)
                && extraction_fits(*repository, root@, provider_edges@, parsed, views(stdlib@), views(builtins@), x),
            Err(m) => exists|i: int| 0 <= i < sources@.len() && parsed_kind((#[trigger] sources@[i]).0@) && m@ == gave_up_text(sources@[i].0@),
        },
{
    let mut parsed: Vec<(String, Facts)> = Vec::new();
    let mut i: usize = 0;
    while i < sources.len()
        invariant
            i <= sources@.len(),
            parsed_from(sources@.take(i as int), parsed@),
        decreases sources@.len() - i,
    {
        let path = sources[i].0.as_str();
        let source = sources[i].1.as_str();
        let python = crate::provider::is_python(path);
        let script = crate::provider::is_script(path);
        let facts = if python {
            match python_imports(path, source) {
                Ok(f) => f,
                Err(m) => {
                    return Err(m);
                },
            }
        } else if script {
            match script_imports(path, source) {
                Ok(f) => f,
                Err(m) => {
                    return Err(m);
                },
            }
        } else {
            let f = Facts { imports: Vec::new(), unresolved: Vec::new() };
            proof {
                assert(facts_view(f).0 =~= Seq::<(usize, Seq<char>, bool)>::empty());
                assert(facts_view(f).1 =~= Seq::<(usize, Seq<char>)>::empty());
            }
            f
        };
        let ghost before = parsed@;
        parsed.push((sources[i].0.clone(), facts));
        proof {
            let t = sources@.take(i + 1);
            assert forall|q: int| 0 <= q < parsed@.len() implies (#[trigger] parsed@[q]).0@ == t[q].0@
                && facts_view(parsed@[q].1) == if parsed_kind(t[q].0@) {
                    source_facts(t[q].0@, t[q].1@)
                } else {
                    (Seq::empty(), Seq::empty())
                } by {
                if q < i {
                    assert(parsed@[q] == before[q]);
                    assert(t[q] == sources@.take(i as int)[q]);
                }
            }
        }
        i = i + 1;
    }
    proof {
        assert(sources@.take(sources@.len() as int) =~= sources@);
    }
    let x = package_extraction(repository, root, provider_edges, &parsed, stdlib, builtins);
    Ok(x)
}

} // verus!
