//! What readers of TypeScript/JavaScript share: a file's same-file
//! constants, the text of string literals, and strings broken into
//! characters and embedded expressions.

use vstd::prelude::*;
use crate::imports::{popped, stack_view, WalkView};
use crate::syntax::{
    children, field_child, field_child_node, line_of, named_child_nodes, named_of, node_line, node_view, syntax_views,
    SyntaxNode, SyntaxView,
};
use crate::text::{cat2, chars_of, str_eq};

verus! {

// A piece of a string is `(true, c, line)` for a character on its line,
// `(false, ' ', node)` for an embedded expression.

/// The content of a string literal, escapes as written: the text of its
/// named parts.
pub open spec fn string_text(ns: Seq<SyntaxView>, parts: Seq<int>) -> Seq<char>
    decreases parts.len(),
{
    if parts.len() == 0 {
        Seq::empty()
    } else {
        string_text(ns, parts.drop_last()) + ns[parts.last()].1
    }
}

/// The content of the string literal `n`.
pub fn string_text_of(ns: &Vec<SyntaxNode>, n: usize) -> (r: String)
    requires
        n < ns@.len(),
    ensures
        r@ == string_text(syntax_views(ns@), named_of(syntax_views(ns@), children(syntax_views(ns@), n as int))),
{
    let ghost vs = syntax_views(ns@);
    let parts = named_child_nodes(ns, n);
    let ghost ps = parts@.map_values(|k: usize| k as int);
    let mut out = String::new();
    let mut j: usize = 0;
    proof {
        assert(out@ =~= string_text(vs, ps.take(0)));
    }
    while j < parts.len()
        invariant
            j <= parts@.len(),
            vs == syntax_views(ns@),
            ps == parts@.map_values(|k: usize| k as int),
            forall|q: int| 0 <= q < parts@.len() ==> #[trigger] parts@[q] < ns@.len(),
            out@ == string_text(vs, ps.take(j as int)),
        decreases parts@.len() - j,
    {
        let k = parts[j];
        proof {
            assert(ps.take(j + 1).drop_last() =~= ps.take(j as int));
            assert(ps.take(j + 1).last() == k as int);
            assert(vs[k as int].1 == ns@[k as int].text@);
        }
        out = cat2(out.as_str(), ns[k].text.as_str());
        j = j + 1;
    }
    proof {
        assert(ps.take(parts@.len() as int) =~= ps);
    }
    out
}

/// The characters of `s` from `i` on, each with its line, the first on
/// line `line`; a line break moves the next ones a line down.
pub open spec fn chars_from(s: Seq<char>, i: int, line: usize) -> Seq<(bool, char, usize)>
    decreases s.len() - i,
{
    if i < 0 || i >= s.len() {
        Seq::empty()
    } else {
        let next = if s[i] == '\n' && line < usize::MAX { (line + 1) as usize } else { line };
        seq![(true, s[i], line)] + chars_from(s, i + 1, next)
    }
}

/// The pieces of a string or template literal from its parts.
pub open spec fn parts_segments(ns: Seq<SyntaxView>, parts: Seq<int>) -> Seq<(bool, char, usize)>
    decreases parts.len(),
{
    if parts.len() == 0 {
        Seq::empty()
    } else {
        let p = parts.last();
        parts_segments(ns, parts.drop_last()) + if ns[p].0 == "template_substitution"@ {
            let inner = named_of(ns, children(ns, p));
            if inner.len() > 0 { seq![(false, ' ', inner[0] as usize)] } else { Seq::empty() }
        } else {
            chars_from(ns[p].1, 0, line_of(ns[p]))
        }
    }
}

/// The pieces of the string or template literal `n`.
pub open spec fn segments(ns: Seq<SyntaxView>, n: int) -> Seq<(bool, char, usize)> {
    parts_segments(ns, named_of(ns, children(ns, n)))
}

fn chars_segments(text: &str, line: usize) -> (r: Vec<(bool, char, usize)>)
    ensures
        r@ == chars_from(text@, 0, line),
{
    let c = chars_of(text);
    let mut out: Vec<(bool, char, usize)> = Vec::new();
    let mut i: usize = 0;
    let mut l: usize = line;
    proof {
        assert(out@ + chars_from(c@, 0, line) =~= chars_from(c@, 0, line));
    }
    while i < c.len()
        invariant
            i <= c@.len(),
            c@ == text@,
            out@ + chars_from(c@, i as int, l) == chars_from(c@, 0, line),
        decreases c@.len() - i,
    {
        let ch = c[i];
        let ghost before = out@;
        out.push((true, ch, l));
        let next: usize = if ch == '\n' && l < usize::MAX { l + 1 } else { l };
        proof {
            assert(chars_from(c@, i as int, l) == seq![(true, ch, l)] + chars_from(c@, i + 1, next));
            assert(before.push((true, ch, l)) + chars_from(c@, i + 1, next) =~= before + chars_from(c@, i as int, l));
        }
        l = next;
        i = i + 1;
    }
    proof {
        assert(out@ + Seq::<(bool, char, usize)>::empty() =~= out@);
    }
    out
}

fn push_chars(out: &mut Vec<(bool, char, usize)>, text: &str, line: usize)
    ensures
        final(out)@ == old(out)@ + chars_from(text@, 0, line),
{
    let mut more = chars_segments(text, line);
    let ghost a = out@;
    let ghost b = more@;
    out.append(&mut more);
    proof {
        assert(out@ == a + b);
    }
}

/// The pieces of the string or template literal `n`.
pub fn segments_of(ns: &Vec<SyntaxNode>, n: usize, out: &mut Vec<(bool, char, usize)>)
    requires
        n < ns@.len(),
    ensures
        final(out)@ == old(out)@ + segments(syntax_views(ns@), n as int),
{
    let ghost vs = syntax_views(ns@);
    let ghost start = out@;
    let parts = named_child_nodes(ns, n);
    let ghost ps = parts@.map_values(|k: usize| k as int);
    let mut j: usize = 0;
    proof {
        assert(start + parts_segments(vs, ps.take(0)) =~= start);
    }
    while j < parts.len()
        invariant
            j <= parts@.len(),
            vs == syntax_views(ns@),
            ps == parts@.map_values(|k: usize| k as int),
            forall|q: int| 0 <= q < parts@.len() ==> #[trigger] parts@[q] < ns@.len(),
            out@ == start + parts_segments(vs, ps.take(j as int)),
        decreases parts@.len() - j,
    {
        let p = parts[j];
        proof {
            assert(ps.take(j + 1).drop_last() =~= ps.take(j as int));
            assert(ps.take(j + 1).last() == p as int);
            assert(vs[p as int] == node_view(ns@[p as int]));
        }
        let ghost before = out@;
        if str_eq(ns[p].kind.as_str(), "template_substitution") {
            let inner = named_child_nodes(ns, p);
            proof {
                assert(inner@.map_values(|k: usize| k as int).len() == inner@.len());
            }
            if inner.len() > 0 {
                out.push((false, ' ', inner[0]));
                proof {
                    assert(inner@.map_values(|k: usize| k as int)[0] == inner@[0] as int);
                    assert(out@ =~= before + seq![(false, ' ', inner@[0])]);
                }
            } else {
                proof {
                    assert(before + Seq::<(bool, char, usize)>::empty() =~= before);
                }
            }
        } else {
            push_chars(out, ns[p].text.as_str(), node_line(&ns[p]));
        }
        proof {
            vstd::seq_lib::lemma_concat_associative(start, parts_segments(vs, ps.take(j as int)),
                out@.subrange(before.len() as int, out@.len() as int));
            assert(out@ =~= start + parts_segments(vs, ps.take(j + 1)));
        }
        j = j + 1;
    }
    proof {
        assert(ps.take(parts@.len() as int) =~= ps);
    }
}

/// The pieces of `a + 'b' + c`: string operands as characters, anything
/// else as one expression.
pub open spec fn concatenation(ns: Seq<SyntaxView>, n: int) -> Seq<(bool, char, usize)>
    decreases ns.len() - n,
{
    if n < 0 || n >= ns.len() {
        Seq::empty()
    } else if ns[n].0 == "binary_expression"@ && (match field_child(ns, n, "operator"@) {
        Some(o) => ns[o].1 == "+"@,
        None => false,
    }) {
        (match field_child(ns, n, "left"@) {
            Some(l) => if n < l < ns.len() { concatenation(ns, l) } else { Seq::empty() },
            None => Seq::empty(),
        }) + (match field_child(ns, n, "right"@) {
            Some(r) => if n < r < ns.len() { concatenation(ns, r) } else { Seq::empty() },
            None => Seq::empty(),
        })
    } else if ns[n].0 == "string"@ {
        segments(ns, n)
    } else {
        seq![(false, ' ', n as usize)]
    }
}

/// The pieces of the expression `n` as a concatenation.
pub fn concatenation_of(ns: &Vec<SyntaxNode>, n: usize, out: &mut Vec<(bool, char, usize)>)
    requires
        n < ns@.len(),
    ensures
        final(out)@ == old(out)@ + concatenation(syntax_views(ns@), n as int),
    decreases ns@.len() - n,
{
    let ghost vs = syntax_views(ns@);
    let ghost start = out@;
    proof {
        assert(vs[n as int] == node_view(ns@[n as int]));
    }
    let plus = if str_eq(ns[n].kind.as_str(), "binary_expression") {
        match field_child_node(ns, n, "operator") {
            Some(o) => {
                proof {
                    assert(vs[o as int] == node_view(ns@[o as int]));
                }
                str_eq(ns[o].text.as_str(), "+")
            },
            None => false,
        }
    } else {
        false
    };
    if plus {
        match field_child_node(ns, n, "left") {
            Some(l) => {
                if l > n && l < ns.len() {
                    concatenation_of(ns, l, out);
                } else {
                    proof {
                        assert(out@ =~= start + Seq::<(bool, char, usize)>::empty());
                    }
                }
            },
            None => {
                proof {
                    assert(out@ =~= start + Seq::<(bool, char, usize)>::empty());
                }
            },
        }
        let ghost mid = out@;
        match field_child_node(ns, n, "right") {
            Some(r) => {
                if r > n && r < ns.len() {
                    concatenation_of(ns, r, out);
                } else {
                    proof {
                        assert(out@ =~= mid + Seq::<(bool, char, usize)>::empty());
                    }
                }
            },
            None => {
                proof {
                    assert(out@ =~= mid + Seq::<(bool, char, usize)>::empty());
                }
            },
        }
        proof {
            vstd::seq_lib::lemma_concat_associative(start, mid.subrange(start.len() as int, mid.len() as int),
                out@.subrange(mid.len() as int, out@.len() as int));
            assert(mid =~= start + mid.subrange(start.len() as int, mid.len() as int));
            assert(out@ =~= mid + out@.subrange(mid.len() as int, out@.len() as int));
        }
    } else if str_eq(ns[n].kind.as_str(), "string") {
        segments_of(ns, n, out);
    } else {
        let ghost before = out@;
        out.push((false, ' ', n));
        proof {
            assert(out@ =~= before + seq![(false, ' ', n)]);
        }
    }
}

/// The same-file constants: each `name = value` declarator reached through
/// named nodes from the root, in order.
pub open spec fn constants_step(ns: Seq<SyntaxView>, w: (Seq<(Seq<char>, int)>, Seq<(int, bool, bool)>), i: int) -> (Seq<(Seq<char>, int)>, Seq<(int, bool, bool)>) {
    let st = popped(ns, w.1, ns[i].3);
    let read = if st.len() == 0 { i == 0 } else { st.last().1 && ns[i].5 };
    let found = if read && ns[i].0 == "variable_declarator"@ {
        match (field_child(ns, i, "name"@), field_child(ns, i, "value"@)) {
            (Some(n), Some(v)) => if ns[n].0 == "identifier"@ { seq![(ns[n].1, v)] } else { Seq::empty() },
            _ => Seq::empty(),
        }
    } else {
        Seq::empty()
    };
    (w.0 + found, st.push((i, read, false)))
}

pub open spec fn constants_walk(ns: Seq<SyntaxView>, n: int) -> (Seq<(Seq<char>, int)>, Seq<(int, bool, bool)>)
    decreases n,
{
    if n <= 0 {
        (Seq::empty(), Seq::empty())
    } else {
        constants_step(ns, constants_walk(ns, n - 1), n - 1)
    }
}

/// The file's constants: name and value node, in the order declared.
pub open spec fn constants(ns: Seq<SyntaxView>) -> Seq<(Seq<char>, int)> {
    constants_walk(ns, ns.len() as int).0
}

pub open spec fn constant_views(s: Seq<(String, usize)>) -> Seq<(Seq<char>, int)> {
    s.map_values(|c: (String, usize)| (c.0@, c.1 as int))
}

/// The same-file constants of a script.
pub fn script_constants(ns: &Vec<SyntaxNode>) -> (r: Vec<(String, usize)>)
    ensures
        constant_views(r@) == constants(syntax_views(ns@)),
{
    let ghost vs = syntax_views(ns@);
    let mut out: Vec<(String, usize)> = Vec::new();
    let mut stack: Vec<(usize, bool, bool)> = Vec::new();
    let mut i: usize = 0;
    proof {
        assert(constant_views(out@) =~= Seq::<(Seq<char>, int)>::empty());
        assert(stack_view(stack@) =~= Seq::<(int, bool, bool)>::empty());
    }
    while i < ns.len()
        invariant
            i <= ns@.len(),
            vs == syntax_views(ns@),
            constant_views(out@) == constants_walk(vs, i as int).0,
            stack_view(stack@) == constants_walk(vs, i as int).1,
            forall|q: int| 0 <= q < stack@.len() ==> #[trigger] stack@[q].0 < i,
        decreases ns@.len() - i,
    {
        let ghost w = constants_walk(vs, i as int);
        proof {
            assert(vs[i as int] == node_view(ns@[i as int]));
        }
        let d = ns[i].depth;
        while stack.len() > 0 && ns[stack[stack.len() - 1].0].depth >= d
            invariant
                vs == syntax_views(ns@),
                i < ns@.len(),
                d == vs[i as int].3,
                forall|q: int| 0 <= q < stack@.len() ==> #[trigger] stack@[q].0 < i,
                popped(vs, stack_view(stack@), d) == popped(vs, w.1, d),
            decreases stack@.len(),
        {
            let top = stack[stack.len() - 1].0;
            proof {
                assert(stack_view(stack@).last().0 == top as int);
                assert(vs[top as int] == node_view(ns@[top as int]));
            }
            let ghost before = stack_view(stack@);
            stack.pop();
            proof {
                assert(stack_view(stack@) =~= before.drop_last());
            }
        }
        proof {
            if stack@.len() > 0 {
                let top = stack@[stack@.len() - 1].0;
                assert(stack_view(stack@).last().0 == top as int);
                assert(vs[top as int] == node_view(ns@[top as int]));
            }
            assert(popped(vs, stack_view(stack@), d) == stack_view(stack@));
        }
        let ghost st = stack_view(stack@);
        let read: bool;
        if stack.len() == 0 {
            read = i == 0;
        } else {
            let parent = stack[stack.len() - 1];
            proof {
                assert(st.last() == (parent.0 as int, parent.1, parent.2));
            }
            read = parent.1 && ns[i].named;
        }
        let ghost before = constant_views(out@);
        let mut added = false;
        if read && str_eq(ns[i].kind.as_str(), "variable_declarator") {
            match (field_child_node(ns, i, "name"), field_child_node(ns, i, "value")) {
                (Some(n), Some(v)) => {
                    proof {
                        assert(vs[n as int] == node_view(ns@[n as int]));
                    }
                    if str_eq(ns[n].kind.as_str(), "identifier") {
                        out.push((ns[n].text.clone(), v));
                        added = true;
                        proof {
                            assert(constant_views(out@) =~= before + seq![(vs[n as int].1, v as int)]);
                        }
                    }
                },
                _ => {},
            }
        }
        if !added {
            proof {
                assert(constant_views(out@) =~= before + Seq::<(Seq<char>, int)>::empty());
            }
        }
        stack.push((i, read, false));
        proof {
            assert(stack_view(stack@) =~= st.push((i as int, read, false)));
            assert(constants_walk(vs, i + 1) == constants_step(vs, w, i as int));
        }
        i = i + 1;
    }
    out
}

} // verus!
