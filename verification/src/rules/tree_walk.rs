//! Navigation in a syntax tree: children by kind or field, descendants in
//! document order, ancestors, and the names of enclosing types.
use crate::rules::duplication::identifier_kind;
use crate::rules::duplication::is_identifier;
use crate::syntax::SyntaxTree;
use crate::text::{chars_of, push_all, push_str};
use vstd::prelude::*;

verus! {

/// A node index as the executable code holds it.
pub open spec fn as_index(o: Option<int>) -> Option<usize> {
    match o {
        Some(c) => Some(c as usize),
        None => None,
    }
}

/// The first child of `i`, from the `k`-th on, that satisfies `p`.
pub open spec fn first_child_where(t: &SyntaxTree, i: int, k: int, p: spec_fn(int) -> bool) -> Option<int>
    decreases t.nodes[i].children.len() - k,
{
    if k < 0 || k >= t.nodes[i].children.len() {
        None
    } else if p(t.nodes[i].children[k] as int) {
        Some(t.nodes[i].children[k] as int)
    } else {
        first_child_where(t, i, k + 1, p)
    }
}

/// Children of kind `kind`.
pub open spec fn of_kind(t: &SyntaxTree, kind: Seq<char>) -> spec_fn(int) -> bool {
    |c: int| t.kind(c) == kind
}

/// Children under field `field`.
pub open spec fn under_field(t: &SyntaxTree, field: Seq<char>) -> spec_fn(int) -> bool {
    |c: int| t.field_named(c, field)
}

/// Named children.
pub open spec fn named(t: &SyntaxTree) -> spec_fn(int) -> bool {
    |c: int| t.nodes[c].named
}

/// The first child of `i` of kind `kind`.
pub open spec fn child_of_kind(t: &SyntaxTree, i: int, kind: Seq<char>) -> Option<int> {
    first_child_where(t, i, 0, of_kind(t, kind))
}

/// The first child of `i` under field `field`.
pub open spec fn child_by_field(t: &SyntaxTree, i: int, field: Seq<char>) -> Option<int> {
    first_child_where(t, i, 0, under_field(t, field))
}

/// The first named child of `i`.
pub open spec fn first_named_child(t: &SyntaxTree, i: int) -> Option<int> {
    first_child_where(t, i, 0, named(t))
}

/// The number of named children of `i` from the `k`-th on.
pub open spec fn named_from(t: &SyntaxTree, i: int, k: int) -> nat
    decreases t.nodes[i].children.len() - k,
{
    if k < 0 || k >= t.nodes[i].children.len() {
        0
    } else {
        (if t.nodes[t.nodes[i].children[k] as int].named { 1nat } else { 0nat }) + named_from(t, i, k + 1)
    }
}

/// The number of named children of `i`.
pub open spec fn named_count(t: &SyntaxTree, i: int) -> nat {
    named_from(t, i, 0)
}

/// The first child of `i` of kind `kind`.
pub fn direct_child_kind(t: &SyntaxTree, i: usize, kind: &str) -> (r: Option<usize>)
    requires
        t.wf(),
        i < t.nodes.len(),
    ensures
        r == as_index(child_of_kind(t, i as int, kind@)),
        r matches Some(c) ==> child_of_kind(t, i as int, kind@) == Some(c as int),
        r is None ==> child_of_kind(t, i as int, kind@) is None,
        r matches Some(c) ==> c < t.nodes.len(),
{
    let n = &t.nodes[i];
    let mut k: usize = 0;
    while k < n.children.len()
        invariant
            t.wf(),
            i < t.nodes.len(),
            n == t.nodes[i as int],
            0 <= k <= n.children@.len(),
            child_of_kind(t, i as int, kind@) == first_child_where(t, i as int, k as int, of_kind(t, kind@)),
        decreases n.children@.len() - k,
    {
        let c = n.children[k];
        if t.kind_is(c, kind) {
            return Some(c);
        }
        k = k + 1;
    }
    None
}

/// The first child of `i` under field `field`.
pub fn field_child(t: &SyntaxTree, i: usize, field: &str) -> (r: Option<usize>)
    requires
        t.wf(),
        i < t.nodes.len(),
    ensures
        r == as_index(child_by_field(t, i as int, field@)),
        r matches Some(c) ==> child_by_field(t, i as int, field@) == Some(c as int),
        r is None ==> child_by_field(t, i as int, field@) is None,
        r matches Some(c) ==> c < t.nodes.len(),
{
    let n = &t.nodes[i];
    let mut k: usize = 0;
    while k < n.children.len()
        invariant
            t.wf(),
            i < t.nodes.len(),
            n == t.nodes[i as int],
            0 <= k <= n.children@.len(),
            child_by_field(t, i as int, field@) == first_child_where(t, i as int, k as int, under_field(t, field@)),
        decreases n.children@.len() - k,
    {
        let c = n.children[k];
        if t.field_is(c, field) {
            return Some(c);
        }
        k = k + 1;
    }
    None
}

/// The first named child of `i`.
pub fn named_child_first(t: &SyntaxTree, i: usize) -> (r: Option<usize>)
    requires
        t.wf(),
        i < t.nodes.len(),
    ensures
        r == as_index(first_named_child(t, i as int)),
        r matches Some(c) ==> first_named_child(t, i as int) == Some(c as int),
        r is None ==> first_named_child(t, i as int) is None,
        r matches Some(c) ==> c < t.nodes.len(),
{
    let n = &t.nodes[i];
    let mut k: usize = 0;
    while k < n.children.len()
        invariant
            t.wf(),
            i < t.nodes.len(),
            n == t.nodes[i as int],
            0 <= k <= n.children@.len(),
            first_named_child(t, i as int) == first_child_where(t, i as int, k as int, named(t)),
        decreases n.children@.len() - k,
    {
        let c = n.children[k];
        if t.nodes[c].named {
            return Some(c);
        }
        k = k + 1;
    }
    None
}

/// The number of named children of `i`.
pub fn named_child_count(t: &SyntaxTree, i: usize) -> (r: usize)
    requires
        t.wf(),
        i < t.nodes.len(),
    ensures
        r == named_count(t, i as int),
{
    let n = &t.nodes[i];
    let mut count: usize = 0;
    let mut k: usize = 0;
    while k < n.children.len()
        invariant
            t.wf(),
            i < t.nodes.len(),
            n == t.nodes[i as int],
            0 <= k <= n.children@.len(),
            count <= k,
            named_count(t, i as int) == count + named_from(t, i as int, k as int),
        decreases n.children@.len() - k,
    {
        let c = n.children[k];
        if t.nodes[c].named {
            count = count + 1;
        }
        k = k + 1;
    }
    count
}

/// The first node of kind `kind` in the subtree at `i`, in document order.
pub open spec fn descendant_of_kind(t: &SyntaxTree, i: int, kind: Seq<char>) -> Option<int>
    decreases t.nodes.len() - i, t.nodes[i].children.len() + 1,
{
    if i < 0 || i >= t.nodes.len() {
        None
    } else if t.kind(i) == kind {
        Some(i)
    } else {
        descendant_in_children(t, i, 0, kind)
    }
}

/// The first node of kind `kind` in the subtrees of the children of `i`
/// from the `k`-th on.
pub open spec fn descendant_in_children(t: &SyntaxTree, i: int, k: int, kind: Seq<char>) -> Option<int>
    decreases t.nodes.len() - i, t.nodes[i].children.len() - k,
{
    if i < 0 || i >= t.nodes.len() || k < 0 || k >= t.nodes[i].children.len() {
        None
    } else {
        let c = t.nodes[i].children[k] as int;
        if c <= i || c >= t.nodes.len() {
            descendant_in_children(t, i, k + 1, kind)
        } else {
            match descendant_of_kind(t, c, kind) {
                Some(d) => Some(d),
                None => descendant_in_children(t, i, k + 1, kind),
            }
        }
    }
}

/// The first node of kind `kind` in the subtree at `i`, in document order.
pub fn first_descendant_kind(t: &SyntaxTree, i: usize, kind: &str) -> (r: Option<usize>)
    requires
        t.wf(),
        i < t.nodes.len(),
    ensures
        r == as_index(descendant_of_kind(t, i as int, kind@)),
        r matches Some(c) ==> descendant_of_kind(t, i as int, kind@) == Some(c as int),
        r is None ==> descendant_of_kind(t, i as int, kind@) is None,
        r matches Some(c) ==> c < t.nodes.len(),
    decreases t.nodes.len() - i, t.nodes[i as int].children.len() + 1,
{
    if t.kind_is(i, kind) {
        return Some(i);
    }
    let n = &t.nodes[i];
    let mut k: usize = 0;
    while k < n.children.len()
        invariant
            t.wf(),
            i < t.nodes.len(),
            n == t.nodes[i as int],
            t.kind(i as int) != kind@,
            0 <= k <= n.children@.len(),
            descendant_of_kind(t, i as int, kind@) == descendant_in_children(t, i as int, k as int, kind@),
        decreases n.children@.len() - k,
    {
        let c = n.children[k];
        let found = first_descendant_kind(t, c, kind);
        if found.is_some() {
            return found;
        }
        k = k + 1;
    }
    None
}

/// Some ancestor of `i` (not `i` itself) has kind `kind`.
pub open spec fn ancestor_of_kind(t: &SyntaxTree, i: int, kind: Seq<char>) -> bool
    decreases i,
{
    if i < 0 || i >= t.nodes.len() {
        false
    } else {
        match t.nodes[i].parent {
            Some(p) => if 0 <= p < i {
                t.kind(p as int) == kind || ancestor_of_kind(t, p as int, kind)
            } else {
                false
            },
            None => false,
        }
    }
}

/// Whether some ancestor of `i` has kind `kind`.
pub fn has_ancestor_kind(t: &SyntaxTree, i: usize, kind: &str) -> (r: bool)
    requires
        t.wf(),
        i < t.nodes.len(),
    ensures
        r == ancestor_of_kind(t, i as int, kind@),
    decreases i,
{
    match t.nodes[i].parent {
        Some(p) => {
            if t.kind_is(p, kind) {
                true
            } else {
                has_ancestor_kind(t, p, kind)
            }
        },
        None => false,
    }
}

/// A kind that opens a lexical scope for locals.
pub open spec fn scope_kind(kind: Seq<char>) -> bool {
    kind == "block"@ || kind == "function_body"@ || kind == "lambda_literal"@ || kind
        == "catch_clause"@
}

/// The nearest ancestor of `i` that opens a lexical scope.
pub open spec fn scope_of(t: &SyntaxTree, i: int) -> Option<int>
    decreases i,
{
    if i < 0 || i >= t.nodes.len() {
        None
    } else {
        match t.nodes[i].parent {
            Some(p) => if 0 <= p < i {
                if scope_kind(t.kind(p as int)) {
                    Some(p as int)
                } else {
                    scope_of(t, p as int)
                }
            } else {
                None
            },
            None => None,
        }
    }
}

/// The nearest ancestor of `i` that opens a lexical scope.
pub fn lexical_scope(t: &SyntaxTree, i: usize) -> (r: Option<usize>)
    requires
        t.wf(),
        i < t.nodes.len(),
    ensures
        r == as_index(scope_of(t, i as int)),
        r matches Some(c) ==> scope_of(t, i as int) == Some(c as int),
        r is None ==> scope_of(t, i as int) is None,
        r matches Some(c) ==> c < t.nodes.len(),
    decreases i,
{
    match t.nodes[i].parent {
        Some(p) => {
            if t.kind_is(p, "block") || t.kind_is(p, "function_body") || t.kind_is(p, "lambda_literal")
                || t.kind_is(p, "catch_clause") {
                Some(p)
            } else {
                lexical_scope(t, p)
            }
        },
        None => None,
    }
}

/// The last identifier of the subtree at `i` in document order.
pub open spec fn last_ident(t: &SyntaxTree, i: int) -> Option<int>
    decreases t.nodes.len() - i, t.nodes[i].children.len() + 1,
{
    if i < 0 || i >= t.nodes.len() {
        None
    } else {
        match last_ident_children(t, i, t.nodes[i].children.len() as int) {
            Some(d) => Some(d),
            None => if identifier_kind(t.kind(i)) {
                Some(i)
            } else {
                None
            },
        }
    }
}

/// The last identifier in the subtrees of the first `k` children of `i`.
pub open spec fn last_ident_children(t: &SyntaxTree, i: int, k: int) -> Option<int>
    decreases t.nodes.len() - i, k,
{
    if i < 0 || i >= t.nodes.len() || k <= 0 || k > t.nodes[i].children.len() {
        None
    } else {
        let c = t.nodes[i].children[k - 1] as int;
        if c <= i || c >= t.nodes.len() {
            last_ident_children(t, i, k - 1)
        } else {
            match last_ident(t, c) {
                Some(d) => Some(d),
                None => last_ident_children(t, i, k - 1),
            }
        }
    }
}

/// The last identifier of the subtree at `i` in document order.
pub fn last_identifier(t: &SyntaxTree, i: usize) -> (r: Option<usize>)
    requires
        t.wf(),
        i < t.nodes.len(),
    ensures
        r == as_index(last_ident(t, i as int)),
        r matches Some(c) ==> last_ident(t, i as int) == Some(c as int),
        r is None ==> last_ident(t, i as int) is None,
        r matches Some(c) ==> c < t.nodes.len(),
    decreases t.nodes.len() - i, t.nodes[i as int].children.len() + 1,
{
    let n = &t.nodes[i];
    let mut k: usize = n.children.len();
    while k > 0
        invariant
            t.wf(),
            i < t.nodes.len(),
            n == t.nodes[i as int],
            0 <= k <= n.children@.len(),
            last_ident(t, i as int) == match last_ident_children(t, i as int, k as int) {
                Some(d) => Some(d),
                None => if identifier_kind(t.kind(i as int)) {
                    Some(i as int)
                } else {
                    None
                },
            },
        decreases k,
    {
        let c = n.children[k - 1];
        let found = last_identifier(t, c);
        if found.is_some() {
            return found;
        }
        k = k - 1;
    }
    if is_identifier(&n.kind) {
        Some(i)
    } else {
        None
    }
}

/// Kinds that declare a type.
pub open spec fn type_kind(kind: Seq<char>) -> bool {
    kind == "class_declaration"@ || kind == "interface_declaration"@ || kind
        == "object_declaration"@
}

/// The name of type declaration `p`: its `name` field, else its first
/// `type_identifier`, else its first `simple_identifier`, else
/// `<anonymous>`.
pub open spec fn declared_name(t: &SyntaxTree, p: int) -> Seq<char> {
    match child_by_field(t, p, "name"@) {
        Some(n) => t.text(n),
        None => match descendant_of_kind(t, p, "type_identifier"@) {
            Some(n) => t.text(n),
            None => match descendant_of_kind(t, p, "simple_identifier"@) {
                Some(n) => t.text(n),
                None => "<anonymous>"@,
            },
        },
    }
}

/// The names of the types enclosing `i`, outermost first.
pub open spec fn enclosing_types(t: &SyntaxTree, i: int) -> Seq<Seq<char>>
    decreases i,
{
    if i < 0 || i >= t.nodes.len() {
        Seq::empty()
    } else {
        match t.nodes[i].parent {
            Some(p) => if 0 <= p < i {
                enclosing_types(t, p as int) + (if type_kind(t.kind(p as int)) {
                    seq![declared_name(t, p as int)]
                } else {
                    Seq::empty()
                })
            } else {
                Seq::empty()
            },
            None => Seq::empty(),
        }
    }
}

/// `names` joined with `.`.
pub open spec fn join_dotted(names: Seq<Seq<char>>) -> Seq<char>
    decreases names.len(),
{
    if names.len() == 0 {
        Seq::empty()
    } else if names.len() == 1 {
        names[0]
    } else {
        join_dotted(names.drop_last()) + "."@ + names.last()
    }
}

/// The dotted path of the types enclosing `i`, or `<top-level>`.
pub open spec fn enclosing_type_path(t: &SyntaxTree, i: int) -> Seq<char> {
    let names = enclosing_types(t, i);
    if names.len() == 0 {
        "<top-level>"@
    } else {
        join_dotted(names)
    }
}

/// The name of type declaration `p`.
fn declared_type_name(t: &SyntaxTree, p: usize) -> (r: Vec<char>)
    requires
        t.wf(),
        p < t.nodes.len(),
    ensures
        r@ == declared_name(t, p as int),
{
    let found = match field_child(t, p, "name") {
        Some(n) => Some(n),
        None => match first_descendant_kind(t, p, "type_identifier") {
            Some(n) => Some(n),
            None => first_descendant_kind(t, p, "simple_identifier"),
        },
    };
    match found {
        Some(n) => crate::text::copy_chars(t.text_of(n)),
        None => chars_of("<anonymous>"),
    }
}

/// Appends the names of the types enclosing `i`, outermost first.
fn push_enclosing_types(t: &SyntaxTree, i: usize, out: &mut Vec<Vec<char>>)
    requires
        t.wf(),
        i < t.nodes.len(),
    ensures
        final(out)@.map_values(|v: Vec<char>| v@) == old(out)@.map_values(|v: Vec<char>| v@) + enclosing_types(t, i as int),
    decreases i,
{
    match t.nodes[i].parent {
        Some(p) => {
            push_enclosing_types(t, p, out);
            let ghost mid = out@.map_values(|v: Vec<char>| v@);
            if t.kind_is(p, "class_declaration") || t.kind_is(p, "interface_declaration") || t.kind_is(p, "object_declaration") {
                let name = declared_type_name(t, p);
                out.push(name);
                proof {
                    assert(out@.map_values(|v: Vec<char>| v@) =~= mid.push(declared_name(t, p as int)));
                }
            }
            proof {
                assert(out@.map_values(|v: Vec<char>| v@) =~= old(out)@.map_values(|v: Vec<char>| v@) + enclosing_types(t, i as int));
            }
        },
        None => {
            assert(out@.map_values(|v: Vec<char>| v@) =~= old(out)@.map_values(|v: Vec<char>| v@) + enclosing_types(t, i as int));
        },
    }
}

/// The dotted path of the types enclosing `i`, or `<top-level>`.
pub fn containing_type(t: &SyntaxTree, i: usize) -> (r: Vec<char>)
    requires
        t.wf(),
        i < t.nodes.len(),
    ensures
        r@ == enclosing_type_path(t, i as int),
{
    let mut names: Vec<Vec<char>> = Vec::new();
    push_enclosing_types(t, i, &mut names);
    let ghost m = names@.map_values(|v: Vec<char>| v@);
    proof {
        assert(m =~= enclosing_types(t, i as int));
    }
    if names.len() == 0 {
        return chars_of("<top-level>");
    }
    let mut out: Vec<char> = Vec::new();
    push_all(&mut out, names[0].as_slice());
    let mut k: usize = 1;
    proof {
        assert(m.subrange(0, 1) =~= seq![m[0]]);
        assert(join_dotted(m.subrange(0, 1)) == m[0]);
    }
    while k < names.len()
        invariant
            m == names@.map_values(|v: Vec<char>| v@),
            1 <= k <= names@.len(),
            out@ == join_dotted(m.subrange(0, k as int)),
        decreases names@.len() - k,
    {
        push_str(&mut out, ".");
        push_all(&mut out, names[k].as_slice());
        proof {
            let s = m.subrange(0, k + 1);
            assert(s.drop_last() =~= m.subrange(0, k as int));
            assert(s.last() == m[k as int]);
        }
        k = k + 1;
    }
    proof {
        assert(m.subrange(0, names@.len() as int) =~= m);
    }
    out
}

} // verus!
