//! The dead-code rule: private functions and members never used in their
//! file, and imports whose name is never used, in Java and Kotlin.
use crate::rules::duplication::{identifier_kind, is_identifier};
use crate::rules::tree_walk::{
    ancestor_of_kind, as_index, child_by_field, child_of_kind, enclosing_type_path, descendant_of_kind,
    direct_child_kind, field_child, containing_type, last_identifier, lexical_scope,
    first_descendant_kind, first_named_child, has_ancestor_kind, last_ident, scope_of,
    named_child_count, named_child_first, named_count,
};
use crate::rules::{findings, FindingView, Rule, Violation};
use crate::sorting::{
    insert_sorted, is_sorted_by, lemma_insert_at_first_greater, lemma_sorted_by_multiset, lemma_sorted_by_sorted,
    sorted_by, strict_order,
};
use crate::syntax::SyntaxTree;
use crate::text::{
    chars_equal, chars_of, contains_seq, contains_str, copy_chars, decimal, decimal_chars, lower,
    lower_is, push_all, push_str, string_of, trim, trimmed_is,
};
use vstd::prelude::*;

verus! {

/// Some child of `i` satisfies `p`.
pub open spec fn some_child(t: &SyntaxTree, i: int, p: spec_fn(int) -> bool) -> bool {
    exists|k: int| 0 <= k < t.nodes[i].children.len() && #[trigger] p(t.nodes[i].children[k] as int)
}

/// Child `c` is the modifier `modifier`: a node of that kind, or a
/// `visibility_modifier` whose trimmed text is the modifier.
pub open spec fn modifier_matches(t: &SyntaxTree, c: int, modifier: Seq<char>) -> bool {
    t.kind(c) == modifier || (t.kind(c) == "visibility_modifier"@ && trim(t.text(c)) == modifier)
}

/// Nodes that are the modifier `modifier`.
pub open spec fn matches_modifier(t: &SyntaxTree, modifier: Seq<char>) -> spec_fn(int) -> bool {
    |d: int| modifier_matches(t, d, modifier)
}

/// Annotation nodes.
pub open spec fn annotation_node(t: &SyntaxTree) -> spec_fn(int) -> bool {
    |d: int| annotation_kind(t.kind(d))
}

/// Child `c` carries `modifier` itself or, as a `modifiers` node, in one of
/// its children.
pub open spec fn carries_modifier(t: &SyntaxTree, modifier: Seq<char>) -> spec_fn(int) -> bool {
    |c: int|
        modifier_matches(t, c, modifier) || (t.kind(c) == "modifiers"@ && some_child(
            t,
            c,
            matches_modifier(t, modifier),
        ))
}

/// Node `i` has `modifier` among its direct modifiers.
pub open spec fn direct_modifier_present(t: &SyntaxTree, i: int, modifier: Seq<char>) -> bool {
    some_child(t, i, carries_modifier(t, modifier))
}

/// Node `i` is declared `private`.
pub open spec fn private_node(t: &SyntaxTree, i: int) -> bool {
    direct_modifier_present(t, i, "private"@)
}

/// Kinds of annotation nodes.
pub open spec fn annotation_kind(kind: Seq<char>) -> bool {
    kind == "annotation"@ || kind == "annotation_entry"@ || kind == "marker_annotation"@
}

/// Child `c` is an annotation or a `modifiers` node holding one.
pub open spec fn carries_annotation(t: &SyntaxTree) -> spec_fn(int) -> bool {
    |c: int|
        annotation_kind(t.kind(c)) || (t.kind(c) == "modifiers"@ && some_child(
            t,
            c,
            annotation_node(t),
        ))
}

/// Node `i` is annotated.
pub open spec fn annotated_node(t: &SyntaxTree, i: int) -> bool {
    some_child(t, i, carries_annotation(t))
}

/// Whether child `c` is modifier `modifier`.
fn modifier_matches_exec(t: &SyntaxTree, c: usize, modifier: &str) -> (r: bool)
    requires
        t.wf(),
        c < t.nodes.len(),
    ensures
        r == modifier_matches(t, c as int, modifier@),
{
    t.kind_is(c, modifier) || (t.kind_is(c, "visibility_modifier") && trimmed_is(t.text_of(c), modifier))
}

/// Whether node `i` has `modifier` among its direct modifiers.
fn has_direct_modifier(t: &SyntaxTree, i: usize, modifier: &str) -> (r: bool)
    requires
        t.wf(),
        i < t.nodes.len(),
    ensures
        r == direct_modifier_present(t, i as int, modifier@),
{
    let n = &t.nodes[i];
    let mut k: usize = 0;
    while k < n.children.len()
        invariant
            t.wf(),
            i < t.nodes.len(),
            n == t.nodes[i as int],
            0 <= k <= n.children@.len(),
            forall|j: int| 0 <= j < k ==> !(#[trigger] carries_modifier(t, modifier@)(n.children@[j] as int)),
        decreases n.children@.len() - k,
    {
        let c = n.children[k];
        if modifier_matches_exec(t, c, modifier) {
            assert(carries_modifier(t, modifier@)(c as int));
            return true;
        }
        if t.kind_is(c, "modifiers") {
            let m = &t.nodes[c];
            let mut q: usize = 0;
            while q < m.children.len()
                invariant
                    t.wf(),
                    c < t.nodes.len(),
                    m == t.nodes[c as int],
                    t.kind(c as int) == "modifiers"@,
                    i < t.nodes.len(),
                    n == t.nodes[i as int],
                    k < n.children@.len(),
                    c == n.children@[k as int],
                    0 <= q <= m.children@.len(),
                    forall|j: int| 0 <= j < q ==> !modifier_matches(t, #[trigger] m.children@[j] as int, modifier@),
                decreases m.children@.len() - q,
            {
                if modifier_matches_exec(t, m.children[q], modifier) {
                    assert(matches_modifier(t, modifier@)(m.children@[q as int] as int));
                    assert(some_child(t, c as int, matches_modifier(t, modifier@)));
                    assert(carries_modifier(t, modifier@)(c as int));
                    return true;
                }
                q = q + 1;
            }
            assert(!some_child(t, c as int, matches_modifier(t, modifier@)));
        }
        assert(!carries_modifier(t, modifier@)(c as int));
        k = k + 1;
    }
    false
}

/// Whether node `i` is annotated.
fn has_annotation(t: &SyntaxTree, i: usize) -> (r: bool)
    requires
        t.wf(),
        i < t.nodes.len(),
    ensures
        r == annotated_node(t, i as int),
{
    let n = &t.nodes[i];
    let mut k: usize = 0;
    while k < n.children.len()
        invariant
            t.wf(),
            i < t.nodes.len(),
            n == t.nodes[i as int],
            0 <= k <= n.children@.len(),
            forall|j: int| 0 <= j < k ==> !(#[trigger] carries_annotation(t)(n.children@[j] as int)),
        decreases n.children@.len() - k,
    {
        let c = n.children[k];
        if t.kind_is(c, "annotation") || t.kind_is(c, "annotation_entry") || t.kind_is(c, "marker_annotation") {
            assert(carries_annotation(t)(c as int));
            return true;
        }
        if t.kind_is(c, "modifiers") {
            let m = &t.nodes[c];
            let mut q: usize = 0;
            while q < m.children.len()
                invariant
                    t.wf(),
                    c < t.nodes.len(),
                    m == t.nodes[c as int],
                    t.kind(c as int) == "modifiers"@,
                    i < t.nodes.len(),
                    n == t.nodes[i as int],
                    k < n.children@.len(),
                    c == n.children@[k as int],
                    0 <= q <= m.children@.len(),
                    forall|j: int| 0 <= j < q ==> !annotation_kind(t.kind(#[trigger] m.children@[j] as int)),
                decreases m.children@.len() - q,
            {
                let d = m.children[q];
                if t.kind_is(d, "annotation") || t.kind_is(d, "annotation_entry") || t.kind_is(d, "marker_annotation") {
                    assert(annotation_node(t)(m.children@[q as int] as int));
                    assert(some_child(t, c as int, annotation_node(t)));
                    assert(carries_annotation(t)(c as int));
                    return true;
                }
                q = q + 1;
            }
            assert(!some_child(t, c as int, annotation_node(t)));
        }
        assert(!carries_annotation(t)(c as int));
        k = k + 1;
    }
    false
}

/// Nodes `a` and `b` cover the same characters.
pub open spec fn same_range(t: &SyntaxTree, a: int, b: int) -> bool {
    t.nodes[a].start == t.nodes[b].start && t.nodes[a].end == t.nodes[b].end
}

/// The child of `p` under field `field` covers the same characters as `c`.
pub open spec fn is_field_of(t: &SyntaxTree, p: int, field: Seq<char>, c: int) -> bool {
    child_by_field(t, p, field) matches Some(n) && same_range(t, n, c)
}

/// The parent of `c`, when it is a node of the tree before `c`.
pub open spec fn parent_of(t: &SyntaxTree, c: int) -> Option<int> {
    match t.nodes[c].parent {
        Some(p) => if 0 <= p < c { Some(p as int) } else { None },
        None => None,
    }
}

/// Identifier `c` is the name a declaration introduces.
pub open spec fn defining_identifier(t: &SyntaxTree, c: int) -> bool {
    match parent_of(t, c) {
        None => false,
        Some(p) => {
            let pk = t.kind(p);
            if pk == "variable_declarator"@ || pk == "formal_parameter"@ || pk == "spread_parameter"@
                || pk == "receiver_parameter"@ || pk == "catch_formal_parameter"@ {
                is_field_of(t, p, "name"@, c)
            } else if pk == "method_declaration"@ || pk == "constructor_declaration"@ {
                is_field_of(t, p, "name"@, c)
            } else {
                ((pk == "function_declaration"@ || pk == "variable_declaration"@) && t.kind(c)
                    == "simple_identifier"@) || ((pk == "parameter"@ || pk == "class_parameter"@)
                    && t.kind(c) == "simple_identifier"@) || (pk == "class_declaration"@ && t.kind(c)
                    == "type_identifier"@)
            }
        },
    }
}

/// Identifier `c` is the member part of a member access.
pub open spec fn member_reference(t: &SyntaxTree, c: int) -> bool {
    match parent_of(t, c) {
        None => false,
        Some(p) => if t.kind(p) == "field_access"@ {
            is_field_of(t, p, "field"@, c)
        } else {
            t.kind(p) == "navigation_suffix"@
        },
    }
}

/// Identifier `c` is the callee of a call.
pub open spec fn callee_position(t: &SyntaxTree, c: int, java: bool) -> bool {
    match parent_of(t, c) {
        None => false,
        Some(p) => if java && t.kind(p) == "method_invocation"@ {
            is_field_of(t, p, "name"@, c)
        } else if !java && t.kind(p) == "call_expression"@ && t.kind(c) == "simple_identifier"@ {
            true
        } else {
            !java && t.kind(p) == "navigation_suffix"@ && ancestor_of_kind(t, p, "call_expression"@)
                && t.kind(c) == "simple_identifier"@
        },
    }
}

/// The part of `s` after its last `.`.
pub open spec fn after_last_dot(s: Seq<char>) -> Seq<char>
    decreases s.len(),
{
    if s.len() == 0 {
        Seq::empty()
    } else if s.last() == '.' {
        Seq::empty()
    } else {
        after_last_dot(s.drop_last()).push(s.last())
    }
}

/// The receiver `recv` is `this`, `self`, or the innermost type enclosing
/// `member`.
pub open spec fn current_type_receiver(t: &SyntaxTree, recv: Option<int>, member: int) -> bool {
    match recv {
        None => false,
        Some(r) => {
            let text = trim(t.text(r));
            text == "this"@ || text == "self"@ || text == after_last_dot(enclosing_type_path(t, member))
        },
    }
}

/// Identifier `c` is a member reached through a receiver other than the
/// current type.
pub open spec fn foreign_member_reference(t: &SyntaxTree, c: int, java: bool) -> bool {
    match parent_of(t, c) {
        None => false,
        Some(p) => if java && t.kind(p) == "field_access"@ && is_field_of(t, p, "field"@, c) {
            !current_type_receiver(t, child_by_field(t, p, "object"@), c)
        } else if !java && t.kind(p) == "navigation_suffix"@ {
            let receiver = match parent_of(t, p) {
                Some(nav) => first_named_child(t, nav),
                None => None,
            };
            !current_type_receiver(t, receiver, c)
        } else {
            false
        },
    }
}

/// Kotlin class parameter `i` declares a property (`val` or `var`).
pub open spec fn property_parameter(t: &SyntaxTree, i: int) -> bool {
    child_of_kind(t, i, "val"@) is Some || child_of_kind(t, i, "var"@) is Some || (child_of_kind(
        t,
        i,
        "binding_pattern_kind"@,
    ) matches Some(k) && (t.text(k) == "val"@ || t.text(k) == "var"@))
}

/// Whether nodes `a` and `b` cover the same characters.
fn same_range_exec(t: &SyntaxTree, a: usize, b: usize) -> (r: bool)
    requires
        a < t.nodes.len(),
        b < t.nodes.len(),
    ensures
        r == same_range(t, a as int, b as int),
{
    t.nodes[a].start == t.nodes[b].start && t.nodes[a].end == t.nodes[b].end
}

/// Whether the child of `p` under `field` covers the characters of `c`.
fn is_field_of_exec(t: &SyntaxTree, p: usize, field: &str, c: usize) -> (r: bool)
    requires
        t.wf(),
        p < t.nodes.len(),
        c < t.nodes.len(),
    ensures
        r == is_field_of(t, p as int, field@, c as int),
{
    match field_child(t, p, field) {
        Some(n) => same_range_exec(t, n, c),
        None => false,
    }
}

/// The parent of `c`.
fn parent_exec(t: &SyntaxTree, c: usize) -> (r: Option<usize>)
    requires
        t.wf(),
        c < t.nodes.len(),
    ensures
        r == as_index(parent_of(t, c as int)),
        r matches Some(p) ==> parent_of(t, c as int) == Some(p as int) && p < c,
        r is None ==> parent_of(t, c as int) is None,
{
    t.nodes[c].parent
}

/// Whether identifier `c` is the name a declaration introduces.
fn is_definition_identifier(t: &SyntaxTree, c: usize) -> (r: bool)
    requires
        t.wf(),
        c < t.nodes.len(),
    ensures
        r == defining_identifier(t, c as int),
{
    let p = match parent_exec(t, c) {
        Some(p) => p,
        None => return false,
    };
    if t.kind_is(p, "variable_declarator") || t.kind_is(p, "formal_parameter") || t.kind_is(p, "spread_parameter")
        || t.kind_is(p, "receiver_parameter") || t.kind_is(p, "catch_formal_parameter") {
        return is_field_of_exec(t, p, "name", c);
    }
    if t.kind_is(p, "method_declaration") || t.kind_is(p, "constructor_declaration") {
        return is_field_of_exec(t, p, "name", c);
    }
    ((t.kind_is(p, "function_declaration") || t.kind_is(p, "variable_declaration")) && t.kind_is(c, "simple_identifier"))
        || ((t.kind_is(p, "parameter") || t.kind_is(p, "class_parameter")) && t.kind_is(c, "simple_identifier"))
        || (t.kind_is(p, "class_declaration") && t.kind_is(c, "type_identifier"))
}

/// Whether identifier `c` is the member part of a member access.
fn is_explicit_member_reference(t: &SyntaxTree, c: usize) -> (r: bool)
    requires
        t.wf(),
        c < t.nodes.len(),
    ensures
        r == member_reference(t, c as int),
{
    let p = match parent_exec(t, c) {
        Some(p) => p,
        None => return false,
    };
    if t.kind_is(p, "field_access") {
        return is_field_of_exec(t, p, "field", c);
    }
    t.kind_is(p, "navigation_suffix")
}

/// Whether identifier `c` is the callee of a call.
fn is_call_callee(t: &SyntaxTree, c: usize, java: bool) -> (r: bool)
    requires
        t.wf(),
        c < t.nodes.len(),
    ensures
        r == callee_position(t, c as int, java),
{
    let p = match parent_exec(t, c) {
        Some(p) => p,
        None => return false,
    };
    if java && t.kind_is(p, "method_invocation") {
        return is_field_of_exec(t, p, "name", c);
    }
    if !java && t.kind_is(p, "call_expression") && t.kind_is(c, "simple_identifier") {
        return true;
    }
    !java && t.kind_is(p, "navigation_suffix") && has_ancestor_kind(t, p, "call_expression") && t.kind_is(c, "simple_identifier")
}

/// The part of `s` after its last `.`.
fn last_dotted_part(s: &[char]) -> (r: Vec<char>)
    ensures
        r@ == after_last_dot(s@),
{
    let mut cur: Vec<char> = Vec::new();
    let mut i: usize = 0;
    assert(s@.subrange(0, 0) =~= Seq::<char>::empty());
    while i < s.len()
        invariant
            0 <= i <= s@.len(),
            cur@ == after_last_dot(s@.subrange(0, i as int)),
        decreases s@.len() - i,
    {
        proof {
            assert(s@.subrange(0, i + 1).drop_last() =~= s@.subrange(0, i as int));
            assert(s@.subrange(0, i + 1).last() == s@[i as int]);
        }
        if s[i] == '.' {
            cur = Vec::new();
        } else {
            cur.push(s[i]);
        }
        i = i + 1;
    }
    assert(s@.subrange(0, s@.len() as int) =~= s@);
    cur
}

/// Whether receiver `recv` is `this`, `self` or the type enclosing `member`.
fn receiver_is_current_type(t: &SyntaxTree, recv: Option<usize>, member: usize) -> (r: bool)
    requires
        t.wf(),
        member < t.nodes.len(),
        recv matches Some(x) ==> x < t.nodes.len(),
    ensures
        r == current_type_receiver(t, as_spec_index(recv), member as int),
{
    let x = match recv {
        Some(x) => x,
        None => return false,
    };
    let text = t.text_of(x);
    if trimmed_is(text, "this") || trimmed_is(text, "self") {
        return true;
    }
    let current = last_dotted_part(containing_type(t, member).as_slice());
    let bounds: (usize, usize) = crate::text::trim_bounds(text);
    let trimmed = crate::syntax::slice_of_slice(text, bounds.0, bounds.1);
    chars_equal(trimmed, current.as_slice())
}

/// A node index as specifications take it.
pub open spec fn as_spec_index(o: Option<usize>) -> Option<int> {
    match o {
        Some(c) => Some(c as int),
        None => None,
    }
}

/// Whether identifier `c` is a member reached through a receiver other
/// than the current type.
fn is_non_current_qualified_member_reference(t: &SyntaxTree, c: usize, java: bool) -> (r: bool)
    requires
        t.wf(),
        c < t.nodes.len(),
    ensures
        r == foreign_member_reference(t, c as int, java),
{
    let p = match parent_exec(t, c) {
        Some(p) => p,
        None => return false,
    };
    if java && t.kind_is(p, "field_access") && is_field_of_exec(t, p, "field", c) {
        let receiver = field_child(t, p, "object");
        return !receiver_is_current_type(t, receiver, c);
    }
    if !java && t.kind_is(p, "navigation_suffix") {
        let receiver = match parent_exec(t, p) {
            Some(nav) => named_child_first(t, nav),
            None => None,
        };
        return !receiver_is_current_type(t, receiver, c);
    }
    false
}

/// Whether Kotlin class parameter `i` declares a property.
fn is_class_property_parameter(t: &SyntaxTree, i: usize) -> (r: bool)
    requires
        t.wf(),
        i < t.nodes.len(),
    ensures
        r == property_parameter(t, i as int),
{
    if direct_child_kind(t, i, "val").is_some() || direct_child_kind(t, i, "var").is_some() {
        return true;
    }
    match direct_child_kind(t, i, "binding_pattern_kind") {
        Some(k) => crate::text::chars_are(t.text_of(k), "val") || crate::text::chars_are(t.text_of(k), "var"),
        None => false,
    }
}

/// Kinds of parameter nodes.
pub open spec fn param_kind(kind: Seq<char>) -> bool {
    kind == "parameter"@ || kind == "formal_parameter"@ || kind == "spread_parameter"@ || kind
        == "variadic_parameter"@
}

/// The parameter children of `ps` from the `k`-th child on.
pub open spec fn params_from(t: &SyntaxTree, ps: int, k: int) -> Seq<int>
    decreases t.nodes[ps].children.len() - k,
{
    if k < 0 || k >= t.nodes[ps].children.len() {
        Seq::empty()
    } else {
        let c = t.nodes[ps].children[k] as int;
        (if param_kind(t.kind(c)) { seq![c] } else { Seq::empty() }) + params_from(t, ps, k + 1)
    }
}

/// The element of `list` at `idx`, if there is one.
pub open spec fn neighbor(list: Seq<int>, idx: int) -> Option<int> {
    if 0 <= idx < list.len() {
        Some(list[idx])
    } else {
        None
    }
}

/// Parameter `p` of list `ps` is variadic: by kind, by an `ellipsis` or
/// `vararg` node, or by the word `vararg` between the previous parameter
/// (or the list's start) and `p`.
pub open spec fn vararg_parameter(t: &SyntaxTree, ps: int, p: int, prev: Option<int>) -> bool {
    let start = match prev {
        Some(q) => t.nodes[q].end as int,
        None => t.nodes[ps].start as int,
    };
    t.kind(p) == "spread_parameter"@ || t.kind(p) == "variadic_parameter"@ || descendant_of_kind(
        t,
        p,
        "ellipsis"@,
    ) is Some || descendant_of_kind(t, p, "vararg"@) is Some || (start <= t.nodes[p].start
        && contains_seq(t.slice(start, t.nodes[p].start as int), "vararg"@))
}

/// Parameter `p` of list `ps` has a default value: a `default_value` node,
/// or `=` between `p` and the next parameter (or the list's end).
pub open spec fn default_value_present(t: &SyntaxTree, ps: int, p: int, next: Option<int>) -> bool {
    let end = match next {
        Some(q) => t.nodes[q].start as int,
        None => t.nodes[ps].end as int,
    };
    descendant_of_kind(t, p, "default_value"@) is Some || (t.nodes[p].end <= end && contains_seq(
        t.slice(t.nodes[p].end as int, end),
        "="@,
    ))
}

/// The parameters from index `k` of `list` that a call must pass.
pub open spec fn required_from(t: &SyntaxTree, ps: int, list: Seq<int>, k: int) -> nat
    decreases list.len() - k,
{
    if k < 0 || k >= list.len() {
        0
    } else {
        (if !vararg_parameter(t, ps, list[k], neighbor(list, k - 1)) && !default_value_present(
            t,
            ps,
            list[k],
            neighbor(list, k + 1),
        ) {
            1nat
        } else {
            0nat
        }) + required_from(t, ps, list, k + 1)
    }
}

/// Some parameter from index `k` of `list` is variadic.
pub open spec fn vararg_from(t: &SyntaxTree, ps: int, list: Seq<int>, k: int) -> bool
    decreases list.len() - k,
{
    if k < 0 || k >= list.len() {
        false
    } else {
        vararg_parameter(t, ps, list[k], neighbor(list, k - 1)) || vararg_from(t, ps, list, k + 1)
    }
}

/// The parameter list of declaration `owner`: its first `formal_parameters`,
/// else its first `function_value_parameters`.
pub open spec fn parameters_node(t: &SyntaxTree, owner: int) -> Option<int> {
    match descendant_of_kind(t, owner, "formal_parameters"@) {
        Some(ps) => Some(ps),
        None => descendant_of_kind(t, owner, "function_value_parameters"@),
    }
}

/// The arity of declaration `owner`: required parameters, all parameters,
/// and whether one is variadic.
pub open spec fn decl_arity(t: &SyntaxTree, owner: int) -> (nat, nat, bool) {
    match parameters_node(t, owner) {
        None => (0, 0, false),
        Some(ps) => {
            let list = params_from(t, ps, 0);
            (required_from(t, ps, list, 0), list.len(), vararg_from(t, ps, list, 0))
        },
    }
}

/// The arity of a declaration.
pub struct Arity {
    pub required: usize,
    pub total: usize,
    pub vararg: bool,
}

/// The parameter children of `ps`.
fn direct_parameter_nodes(t: &SyntaxTree, ps: usize) -> (r: Vec<usize>)
    requires
        t.wf(),
        ps < t.nodes.len(),
    ensures
        r@.map_values(|c: usize| c as int) == params_from(t, ps as int, 0),
        forall|k: int| 0 <= k < r@.len() ==> #[trigger] r@[k] < t.nodes.len(),
        r@.len() <= t.nodes[ps as int].children.len(),
{
    let n = &t.nodes[ps];
    let mut out: Vec<usize> = Vec::new();
    let mut k: usize = 0;
    while k < n.children.len()
        invariant
            t.wf(),
            ps < t.nodes.len(),
            n == t.nodes[ps as int],
            0 <= k <= n.children@.len(),
            out@.map_values(|c: usize| c as int) + params_from(t, ps as int, k as int) == params_from(t, ps as int, 0),
            forall|j: int| 0 <= j < out@.len() ==> #[trigger] out@[j] < t.nodes.len(),
            out@.len() <= k,
        decreases n.children@.len() - k,
    {
        let c = n.children[k];
        let ghost before = out@.map_values(|c: usize| c as int);
        if t.kind_is(c, "parameter") || t.kind_is(c, "formal_parameter") || t.kind_is(c, "spread_parameter")
            || t.kind_is(c, "variadic_parameter") {
            out.push(c);
        }
        proof {
            assert(out@.map_values(|c: usize| c as int) + params_from(t, ps as int, k + 1) =~= before
                + params_from(t, ps as int, k as int));
        }
        k = k + 1;
    }
    assert(out@.map_values(|c: usize| c as int) =~= params_from(t, ps as int, 0));
    out
}

/// Whether the characters from `start` to `end` hold `pattern`, when
/// `start <= end`.
fn range_holds(t: &SyntaxTree, start: usize, end: usize, pattern: &str) -> (r: bool)
    requires
        t.wf(),
        end <= t.source@.len(),
    ensures
        r == (start <= end && contains_seq(t.slice(start as int, end as int), pattern@)),
{
    if start > end {
        return false;
    }
    contains_str(t.slice_between(start, end), pattern)
}

/// The arity of declaration `owner`.
fn declaration_arity(t: &SyntaxTree, owner: usize) -> (r: Arity)
    requires
        t.wf(),
        owner < t.nodes.len(),
    ensures
        (r.required as nat, r.total as nat, r.vararg) == decl_arity(t, owner as int),
{
    let ps = match first_descendant_kind(t, owner, "formal_parameters") {
        Some(ps) => ps,
        None => match first_descendant_kind(t, owner, "function_value_parameters") {
            Some(ps) => ps,
            None => return Arity { required: 0, total: 0, vararg: false },
        },
    };
    proof {
        assert(parameters_node(t, owner as int) == Some(ps as int));
    }
    let list = direct_parameter_nodes(t, ps);
    let ghost l = list@.map_values(|c: usize| c as int);
    let mut required: usize = 0;
    let mut vararg = false;
    let mut k: usize = list.len();
    while k > 0
        invariant
            t.wf(),
            ps < t.nodes.len(),
            l == list@.map_values(|c: usize| c as int),
            l == params_from(t, ps as int, 0),
            forall|j: int| 0 <= j < list@.len() ==> #[trigger] list@[j] < t.nodes.len(),
            0 <= k <= list@.len(),
            required as nat == required_from(t, ps as int, l, k as int),
            required <= list@.len() - k,
            vararg == vararg_from(t, ps as int, l, k as int),
        decreases k,
    {
        let idx = k - 1;
        let p = list[idx];
        let prev_end = if idx > 0 {
            t.nodes[list[idx - 1]].end
        } else {
            t.nodes[ps].start
        };
        let next_start = if idx + 1 < list.len() {
            t.nodes[list[idx + 1]].start
        } else {
            t.nodes[ps].end
        };
        proof {
            assert(l[idx as int] == p as int);
            if idx > 0 {
                assert(neighbor(l, idx - 1) == Some(list@[idx - 1] as int));
            }
            if idx + 1 < list.len() {
                assert(neighbor(l, idx + 1) == Some(list@[idx + 1] as int));
            }
        }
        let is_vararg = t.kind_is(p, "spread_parameter") || t.kind_is(p, "variadic_parameter")
            || first_descendant_kind(t, p, "ellipsis").is_some() || first_descendant_kind(t, p, "vararg").is_some()
            || range_holds(t, prev_end, t.nodes[p].start, "vararg");
        let has_default = first_descendant_kind(t, p, "default_value").is_some()
            || range_holds(t, t.nodes[p].end, next_start, "=");
        proof {
            assert(is_vararg == vararg_parameter(t, ps as int, p as int, neighbor(l, idx - 1)));
            assert(has_default == default_value_present(t, ps as int, p as int, neighbor(l, idx + 1)));
        }
        if !is_vararg && !has_default {
            required = required + 1;
        }
        vararg = vararg || is_vararg;
        k = idx;
    }
    Arity { required, total: list.len(), vararg }
}

/// A Java call's receiver is absent, `this`, or a `this_expression`.
pub open spec fn receiver_supported(t: &SyntaxTree, c: int) -> bool {
    match child_by_field(t, c, "object"@) {
        None => true,
        Some(r) => trim(t.text(r)) == "this"@ || t.kind(r) == "this_expression"@,
    }
}

/// The name a Kotlin call calls and whether its receiver (if any) is
/// `this` or `self`.
pub open spec fn kotlin_callee(t: &SyntaxTree, c: int) -> Option<(Seq<char>, bool)> {
    match child_of_kind(t, c, "simple_identifier"@) {
        Some(n) => Some((t.text(n), true)),
        None => match child_of_kind(t, c, "navigation_expression"@) {
            None => None,
            Some(nav) => match child_of_kind(t, nav, "navigation_suffix"@) {
                None => None,
                Some(suffix) => match descendant_of_kind(t, suffix, "simple_identifier"@) {
                    None => None,
                    Some(name) => match first_named_child(t, nav) {
                        None => None,
                        Some(r) => Some(
                            (t.text(name), trim(t.text(r)) == "this"@ || trim(t.text(r)) == "self"@),
                        ),
                    },
                },
            },
        },
    }
}

/// The function node `c` calls on the current object, with the number of
/// arguments.
pub open spec fn call_of(t: &SyntaxTree, c: int, java: bool) -> Option<(Seq<char>, nat)> {
    if java && t.kind(c) == "method_invocation"@ {
        match child_by_field(t, c, "name"@) {
            None => None,
            Some(name) => if !receiver_supported(t, c) {
                None
            } else {
                match child_by_field(t, c, "arguments"@) {
                    None => None,
                    Some(args) => Some((t.text(name), named_count(t, args))),
                }
            },
        }
    } else if !java && t.kind(c) == "call_expression"@ {
        match kotlin_callee(t, c) {
            None => None,
            Some(call) => if !call.1 {
                None
            } else {
                Some(
                    (
                        call.0,
                        match descendant_of_kind(t, c, "value_arguments"@) {
                            Some(args) => named_count(t, args),
                            None => 0,
                        },
                    ),
                )
            },
        }
    } else {
        None
    }
}

/// How well a declaration with the given arity fits a call with `arity`
/// arguments: 3 for an exact fit, 2 within its optional parameters, 1 for
/// a variadic one, none if it cannot take the call.
pub open spec fn fit_rank(required: nat, total: nat, vararg: bool, arity: nat) -> Option<int> {
    if vararg {
        if arity >= required {
            Some(1)
        } else {
            None
        }
    } else if total == arity {
        Some(3)
    } else if required <= arity && arity <= total {
        Some(2)
    } else {
        None
    }
}

/// Whether a Java call's receiver is absent or `this`.
fn java_receiver_is_supported(t: &SyntaxTree, c: usize) -> (r: bool)
    requires
        t.wf(),
        c < t.nodes.len(),
    ensures
        r == receiver_supported(t, c as int),
{
    match field_child(t, c, "object") {
        None => true,
        Some(r) => trimmed_is(t.text_of(r), "this") || t.kind_is(r, "this_expression"),
    }
}

/// The name a Kotlin call calls and whether its receiver is `this`/`self`.
fn kotlin_call_name(t: &SyntaxTree, c: usize) -> (r: Option<(Vec<char>, bool)>)
    requires
        t.wf(),
        c < t.nodes.len(),
    ensures
        match r {
            Some(x) => kotlin_callee(t, c as int) == Some((x.0@, x.1)),
            None => kotlin_callee(t, c as int) is None,
        },
{
    if let Some(n) = direct_child_kind(t, c, "simple_identifier") {
        return Some((copy_chars(t.text_of(n)), true));
    }
    let nav = match direct_child_kind(t, c, "navigation_expression") {
        Some(x) => x,
        None => return None,
    };
    let suffix = match direct_child_kind(t, nav, "navigation_suffix") {
        Some(x) => x,
        None => return None,
    };
    let name = match first_descendant_kind(t, suffix, "simple_identifier") {
        Some(x) => x,
        None => return None,
    };
    let receiver = match named_child_first(t, nav) {
        Some(x) => x,
        None => return None,
    };
    let text = t.text_of(receiver);
    Some((copy_chars(t.text_of(name)), trimmed_is(text, "this") || trimmed_is(text, "self")))
}

/// The function node `c` calls on the current object, with its arguments.
fn called_symbol(t: &SyntaxTree, c: usize, java: bool) -> (r: Option<(Vec<char>, usize)>)
    requires
        t.wf(),
        c < t.nodes.len(),
    ensures
        match r {
            Some(x) => call_of(t, c as int, java) == Some((x.0@, x.1 as nat)),
            None => call_of(t, c as int, java) is None,
        },
{
    if java && t.kind_is(c, "method_invocation") {
        let name = match field_child(t, c, "name") {
            Some(x) => x,
            None => return None,
        };
        if !java_receiver_is_supported(t, c) {
            return None;
        }
        let args = match field_child(t, c, "arguments") {
            Some(x) => x,
            None => return None,
        };
        return Some((copy_chars(t.text_of(name)), named_child_count(t, args)));
    }
    if !java && t.kind_is(c, "call_expression") {
        let call = match kotlin_call_name(t, c) {
            Some(x) => x,
            None => return None,
        };
        if !call.1 {
            return None;
        }
        let count = match first_descendant_kind(t, c, "value_arguments") {
            Some(args) => named_child_count(t, args),
            None => 0,
        };
        return Some((call.0, count));
    }
    None
}

/// How well a declaration fits a call with `arity` arguments.
fn overload_rank(required: usize, total: usize, vararg: bool, arity: usize) -> (r: Option<u8>)
    ensures
        match r {
            Some(x) => fit_rank(required as nat, total as nat, vararg, arity as nat) == Some(x as int),
            None => fit_rank(required as nat, total as nat, vararg, arity as nat) is None,
        },
{
    if vararg {
        if arity >= required {
            Some(1)
        } else {
            None
        }
    } else if total == arity {
        Some(3)
    } else if required <= arity && arity <= total {
        Some(2)
    } else {
        None
    }
}

/// Where a declaration was found: the declaring node, its name node, and
/// whether it declares a function (else a member).
pub type DeclSite = (int, int, bool);

/// Where an import was found: the import node, the imported path and the
/// node of the name it brings in.
pub type ImportSite = (int, int, int);

/// `function` or `member`.
pub open spec fn decl_kind_text(function: bool) -> Seq<char> {
    if function {
        "function"@
    } else {
        "member"@
    }
}

/// The symbol of a declaration: enclosing types, kind, name and number of
/// parameters.
pub open spec fn decl_symbol(t: &SyntaxTree, d: DeclSite) -> Seq<char> {
    enclosing_type_path(t, d.0) + ":"@ + decl_kind_text(d.2) + ":"@ + t.text(d.1) + ":"@ + decimal(
        decl_arity(t, d.0).1,
    )
}

/// The variable declarators of field declaration `i`, from the `k`-th child
/// on, each under its `name` field.
pub open spec fn field_decls(t: &SyntaxTree, i: int, k: int) -> Seq<DeclSite>
    decreases t.nodes[i].children.len() - k,
{
    if k < 0 || k >= t.nodes[i].children.len() {
        Seq::empty()
    } else {
        let c = t.nodes[i].children[k] as int;
        (if t.kind(c) == "variable_declarator"@ {
            match child_by_field(t, c, "name"@) {
                Some(name) => seq![(c, name, false)],
                None => Seq::empty(),
            }
        } else {
            Seq::empty()
        }) + field_decls(t, i, k + 1)
    }
}

/// The private, unannotated declarations node `i` itself makes.
pub open spec fn own_decls(t: &SyntaxTree, i: int, java: bool) -> Seq<DeclSite> {
    let kind = t.kind(i);
    let open = private_node(t, i) && !annotated_node(t, i);
    if java {
        if kind == "import_declaration"@ {
            Seq::empty()
        } else if kind == "method_declaration"@ && open {
            match child_by_field(t, i, "name"@) {
                Some(name) => seq![(i, name, true)],
                None => Seq::empty(),
            }
        } else if kind == "field_declaration"@ && open {
            field_decls(t, i, 0)
        } else {
            Seq::empty()
        }
    } else {
        if kind == "import_header"@ {
            Seq::empty()
        } else if kind == "class_parameter"@ {
            if open && property_parameter(t, i) {
                match child_of_kind(t, i, "simple_identifier"@) {
                    Some(name) => seq![(i, name, false)],
                    None => Seq::empty(),
                }
            } else {
                Seq::empty()
            }
        } else if (kind == "function_declaration"@ || kind == "property_declaration"@) && open {
            if kind == "function_declaration"@ {
                match child_of_kind(t, i, "simple_identifier"@) {
                    Some(name) => seq![(i, name, true)],
                    None => Seq::empty(),
                }
            } else {
                match child_of_kind(t, i, "variable_declaration"@) {
                    Some(v) => match child_of_kind(t, v, "simple_identifier"@) {
                        Some(name) => seq![(i, name, false)],
                        None => Seq::empty(),
                    },
                    None => Seq::empty(),
                }
            }
        } else {
            Seq::empty()
        }
    }
}

/// The Java import at node `i`, unless it is a wildcard import.
pub open spec fn java_import(t: &SyntaxTree, i: int) -> Seq<ImportSite> {
    if contains_seq(t.text(i), ".*"@) {
        Seq::empty()
    } else {
        let path = match descendant_of_kind(t, i, "scoped_identifier"@) {
            Some(p) => Some(p),
            None => descendant_of_kind(t, i, "identifier"@),
        };
        match path {
            None => Seq::empty(),
            Some(p) => match last_ident(t, p) {
                Some(name) => seq![(i, p, name)],
                None => Seq::empty(),
            },
        }
    }
}

/// The Kotlin import at node `i`, unless it is a wildcard import; an alias
/// names it when there is one.
pub open spec fn kotlin_import(t: &SyntaxTree, i: int) -> Seq<ImportSite> {
    if contains_seq(t.text(i), ".*"@) {
        Seq::empty()
    } else {
        match child_of_kind(t, i, "identifier"@) {
            None => Seq::empty(),
            Some(p) => {
                let alias = match child_of_kind(t, i, "import_alias"@) {
                    Some(a) => descendant_of_kind(t, a, "type_identifier"@),
                    None => None,
                };
                match alias {
                    Some(name) => seq![(i, p, name)],
                    None => match last_ident(t, p) {
                        Some(name) => seq![(i, p, name)],
                        None => Seq::empty(),
                    },
                }
            },
        }
    }
}

/// The import node `i` itself makes.
pub open spec fn own_imports(t: &SyntaxTree, i: int, java: bool) -> Seq<ImportSite> {
    if java && t.kind(i) == "import_declaration"@ {
        java_import(t, i)
    } else if !java && t.kind(i) == "import_header"@ {
        kotlin_import(t, i)
    } else {
        Seq::empty()
    }
}

/// The declarations of the subtree at `i`, in document order.
pub open spec fn decl_sites(t: &SyntaxTree, i: int, java: bool) -> Seq<DeclSite>
    decreases t.nodes.len() - i, t.nodes[i].children.len() + 1,
{
    if i < 0 || i >= t.nodes.len() {
        Seq::empty()
    } else {
        own_decls(t, i, java) + decl_children(t, i, 0, java)
    }
}

/// The declarations of the subtrees of the children of `i` from the `k`-th on.
pub open spec fn decl_children(t: &SyntaxTree, i: int, k: int, java: bool) -> Seq<DeclSite>
    decreases t.nodes.len() - i, t.nodes[i].children.len() - k,
{
    if i < 0 || i >= t.nodes.len() || k < 0 || k >= t.nodes[i].children.len() {
        Seq::empty()
    } else {
        let c = t.nodes[i].children[k] as int;
        if c <= i || c >= t.nodes.len() {
            decl_children(t, i, k + 1, java)
        } else {
            decl_sites(t, c, java) + decl_children(t, i, k + 1, java)
        }
    }
}

/// The imports of the subtree at `i`, in document order.
pub open spec fn import_sites(t: &SyntaxTree, i: int, java: bool) -> Seq<ImportSite>
    decreases t.nodes.len() - i, t.nodes[i].children.len() + 1,
{
    if i < 0 || i >= t.nodes.len() {
        Seq::empty()
    } else {
        own_imports(t, i, java) + import_children(t, i, 0, java)
    }
}

/// The imports of the subtrees of the children of `i` from the `k`-th on.
pub open spec fn import_children(t: &SyntaxTree, i: int, k: int, java: bool) -> Seq<ImportSite>
    decreases t.nodes.len() - i, t.nodes[i].children.len() - k,
{
    if i < 0 || i >= t.nodes.len() || k < 0 || k >= t.nodes[i].children.len() {
        Seq::empty()
    } else {
        let c = t.nodes[i].children[k] as int;
        if c <= i || c >= t.nodes.len() {
            import_children(t, i, k + 1, java)
        } else {
            import_sites(t, c, java) + import_children(t, i, k + 1, java)
        }
    }
}

/// A private declaration found in a file.
pub struct Declaration {
    pub name: Vec<char>,
    pub symbol: Vec<char>,
    pub start: usize,
    pub end: usize,
    pub line: usize,
    pub function: bool,
    pub required_arity: usize,
    pub total_arity: usize,
    pub vararg: bool,
}

/// An import found in a file.
pub struct Import {
    pub name: Vec<char>,
    pub path: Vec<char>,
    pub start: usize,
    pub end: usize,
    pub line: usize,
}

/// `d` is the declaration found at `s`.
pub open spec fn models_decl(t: &SyntaxTree, d: Declaration, s: DeclSite) -> bool {
    &&& d.name@ == t.text(s.1)
    &&& d.symbol@ == decl_symbol(t, s)
    &&& d.start == t.nodes[s.1].start
    &&& d.end == t.nodes[s.1].end
    &&& d.line == t.nodes[s.0].start_row + 1
    &&& d.function == s.2
    &&& (d.required_arity as nat, d.total_arity as nat, d.vararg) == decl_arity(t, s.0)
}

/// `m` is the import found at `s`.
pub open spec fn models_import(t: &SyntaxTree, m: Import, s: ImportSite) -> bool {
    &&& m.name@ == t.text(s.2)
    &&& m.path@ == t.text(s.1)
    &&& m.start == t.nodes[s.0].start
    &&& m.end == t.nodes[s.0].end
    &&& m.line == t.nodes[s.0].start_row + 1
}

/// `decls` are the declarations found at `sites`, in order.
pub open spec fn decls_model(t: &SyntaxTree, decls: Seq<Declaration>, sites: Seq<DeclSite>) -> bool {
    decls.len() == sites.len() && forall|k: int| 0 <= k < decls.len() ==> models_decl(t, #[trigger] decls[k], sites[k])
}

/// `imports` are the imports found at `sites`, in order.
pub open spec fn imports_model(t: &SyntaxTree, imports: Seq<Import>, sites: Seq<ImportSite>) -> bool {
    imports.len() == sites.len() && forall|k: int| 0 <= k < imports.len() ==> models_import(t, #[trigger] imports[k], sites[k])
}

proof fn lemma_decls_append(t: &SyntaxTree, a: Seq<Declaration>, sa: Seq<DeclSite>, b: Seq<Declaration>, sb: Seq<DeclSite>)
    requires
        decls_model(t, a, sa),
        decls_model(t, b, sb),
    ensures
        decls_model(t, a + b, sa + sb),
{
    assert forall|k: int| 0 <= k < (a + b).len() implies models_decl(t, #[trigger] (a + b)[k], (sa + sb)[k]) by {
        if k >= a.len() {
            assert((a + b)[k] == b[k - a.len()]);
            assert((sa + sb)[k] == sb[k - a.len()]);
        }
    }
}

proof fn lemma_imports_append(t: &SyntaxTree, a: Seq<Import>, sa: Seq<ImportSite>, b: Seq<Import>, sb: Seq<ImportSite>)
    requires
        imports_model(t, a, sa),
        imports_model(t, b, sb),
    ensures
        imports_model(t, a + b, sa + sb),
{
    assert forall|k: int| 0 <= k < (a + b).len() implies models_import(t, #[trigger] (a + b)[k], (sa + sb)[k]) by {
        if k >= a.len() {
            assert((a + b)[k] == b[k - a.len()]);
            assert((sa + sb)[k] == sb[k - a.len()]);
        }
    }
}

/// The declaration found at `(owner, name, function)`.
fn make_declaration(t: &SyntaxTree, owner: usize, name: usize, function: bool) -> (r: Declaration)
    requires
        t.wf(),
        owner < t.nodes.len(),
        name < t.nodes.len(),
    ensures
        models_decl(t, r, (owner as int, name as int, function)),
{
    let arity = declaration_arity(t, owner);
    let text = t.text_of(name);
    let mut symbol = containing_type(t, owner);
    push_str(&mut symbol, ":");
    if function {
        push_str(&mut symbol, "function");
    } else {
        push_str(&mut symbol, "member");
    }
    push_str(&mut symbol, ":");
    push_all(&mut symbol, text);
    push_str(&mut symbol, ":");
    push_all(&mut symbol, decimal_chars(arity.total).as_slice());
    Declaration {
        name: copy_chars(text),
        symbol,
        start: t.nodes[name].start,
        end: t.nodes[name].end,
        line: t.nodes[owner].start_row + 1,
        function,
        required_arity: arity.required,
        total_arity: arity.total,
        vararg: arity.vararg,
    }
}

/// The import found at `(node, path, name)`.
fn make_import(t: &SyntaxTree, node: usize, path: usize, name: usize) -> (r: Import)
    requires
        t.wf(),
        node < t.nodes.len(),
        path < t.nodes.len(),
        name < t.nodes.len(),
    ensures
        models_import(t, r, (node as int, path as int, name as int)),
{
    Import {
        name: copy_chars(t.text_of(name)),
        path: copy_chars(t.text_of(path)),
        start: t.nodes[node].start,
        end: t.nodes[node].end,
        line: t.nodes[node].start_row + 1,
    }
}

/// `after` extends `before` by declarations found at `sites`.
pub open spec fn decls_appended(t: &SyntaxTree, before: Seq<Declaration>, after: Seq<Declaration>, sites: Seq<DeclSite>) -> bool {
    &&& after.len() >= before.len()
    &&& after.subrange(0, before.len() as int) == before
    &&& decls_model(t, after.subrange(before.len() as int, after.len() as int), sites)
}

/// `after` extends `before` by imports found at `sites`.
pub open spec fn imports_appended(t: &SyntaxTree, before: Seq<Import>, after: Seq<Import>, sites: Seq<ImportSite>) -> bool {
    &&& after.len() >= before.len()
    &&& after.subrange(0, before.len() as int) == before
    &&& imports_model(t, after.subrange(before.len() as int, after.len() as int), sites)
}

proof fn lemma_decls_chain(t: &SyntaxTree, a: Seq<Declaration>, b: Seq<Declaration>, c: Seq<Declaration>, s1: Seq<DeclSite>, s2: Seq<DeclSite>)
    requires
        decls_appended(t, a, b, s1),
        decls_appended(t, b, c, s2),
    ensures
        decls_appended(t, a, c, s1 + s2),
{
    assert(c.subrange(0, a.len() as int) =~= b.subrange(0, a.len() as int));
    assert(c.subrange(a.len() as int, c.len() as int) =~= b.subrange(a.len() as int, b.len() as int) + c.subrange(b.len() as int, c.len() as int));
    lemma_decls_append(t, b.subrange(a.len() as int, b.len() as int), s1, c.subrange(b.len() as int, c.len() as int), s2);
}

proof fn lemma_imports_chain(t: &SyntaxTree, a: Seq<Import>, b: Seq<Import>, c: Seq<Import>, s1: Seq<ImportSite>, s2: Seq<ImportSite>)
    requires
        imports_appended(t, a, b, s1),
        imports_appended(t, b, c, s2),
    ensures
        imports_appended(t, a, c, s1 + s2),
{
    assert(c.subrange(0, a.len() as int) =~= b.subrange(0, a.len() as int));
    assert(c.subrange(a.len() as int, c.len() as int) =~= b.subrange(a.len() as int, b.len() as int) + c.subrange(b.len() as int, c.len() as int));
    lemma_imports_append(t, b.subrange(a.len() as int, b.len() as int), s1, c.subrange(b.len() as int, c.len() as int), s2);
}

proof fn lemma_decls_none(t: &SyntaxTree, a: Seq<Declaration>)
    ensures
        decls_appended(t, a, a, Seq::empty()),
{
    assert(a.subrange(0, a.len() as int) =~= a);
}

proof fn lemma_imports_none(t: &SyntaxTree, a: Seq<Import>)
    ensures
        imports_appended(t, a, a, Seq::empty()),
{
    assert(a.subrange(0, a.len() as int) =~= a);
}

/// Appends the declaration found at `site`.
fn add_declaration(t: &SyntaxTree, owner: usize, name: usize, function: bool, decls: &mut Vec<Declaration>)
    requires
        t.wf(),
        owner < t.nodes.len(),
        name < t.nodes.len(),
    ensures
        decls_appended(t, old(decls)@, final(decls)@, seq![(owner as int, name as int, function)]),
{
    let d = make_declaration(t, owner, name, function);
    decls.push(d);
    assert(decls@.subrange(0, old(decls)@.len() as int) =~= old(decls)@);
    assert(decls@.subrange(old(decls)@.len() as int, decls@.len() as int) =~= seq![d]);
}

/// Appends the import found at `site`.
fn push_import(t: &SyntaxTree, node: usize, path: usize, name: usize, imports: &mut Vec<Import>)
    requires
        t.wf(),
        node < t.nodes.len(),
        path < t.nodes.len(),
        name < t.nodes.len(),
    ensures
        imports_appended(t, old(imports)@, final(imports)@, seq![(node as int, path as int, name as int)]),
{
    let m = make_import(t, node, path, name);
    imports.push(m);
    assert(imports@.subrange(0, old(imports)@.len() as int) =~= old(imports)@);
    assert(imports@.subrange(old(imports)@.len() as int, imports@.len() as int) =~= seq![m]);
}

/// Appends the declarations that node `i` itself makes.
fn own_declarations(t: &SyntaxTree, i: usize, java: bool, decls: &mut Vec<Declaration>)
    requires
        t.wf(),
        i < t.nodes.len(),
    ensures
        decls_appended(t, old(decls)@, final(decls)@, own_decls(t, i as int, java)),
{
    proof {
        lemma_decls_none(t, decls@);
    }
    if java {
        if t.kind_is(i, "import_declaration") {
            return;
        }
        if t.kind_is(i, "method_declaration") && has_direct_modifier(t, i, "private") && !has_annotation(t, i) {
            if let Some(name) = field_child(t, i, "name") {
                add_declaration(t, i, name, true, decls);
            }
            return;
        }
        if t.kind_is(i, "field_declaration") && has_direct_modifier(t, i, "private") && !has_annotation(t, i) {
            let n = &t.nodes[i];
            let mut k: usize = 0;
            let ghost mut done: Seq<DeclSite> = Seq::empty();
            while k < n.children.len()
                invariant
                    t.wf(),
                    i < t.nodes.len(),
                    n == t.nodes[i as int],
                    0 <= k <= n.children@.len(),
                    decls_appended(t, old(decls)@, decls@, done),
                    done + field_decls(t, i as int, k as int) == field_decls(t, i as int, 0),
                decreases n.children@.len() - k,
            {
                let c = n.children[k];
                let ghost before = decls@;
                let ghost own: Seq<DeclSite> = if t.kind(c as int) == "variable_declarator"@ {
                    match child_by_field(t, c as int, "name"@) {
                        Some(name) => seq![(c as int, name, false)],
                        None => Seq::empty(),
                    }
                } else {
                    Seq::empty()
                };
                proof {
                    lemma_decls_none(t, decls@);
                }
                if t.kind_is(c, "variable_declarator") {
                    if let Some(name) = field_child(t, c, "name") {
                        add_declaration(t, c, name, false, decls);
                    }
                }
                proof {
                    lemma_decls_chain(t, old(decls)@, before, decls@, done, own);
                    assert(done + own + field_decls(t, i as int, k + 1) =~= done + field_decls(t, i as int, k as int));
                    done = done + own;
                }
                k = k + 1;
            }
            proof {
                assert(done =~= field_decls(t, i as int, 0));
            }
            return;
        }
    } else {
        if t.kind_is(i, "import_header") {
            return;
        }
        if t.kind_is(i, "class_parameter") {
            if has_direct_modifier(t, i, "private") && !has_annotation(t, i) && is_class_property_parameter(t, i) {
                if let Some(name) = direct_child_kind(t, i, "simple_identifier") {
                    add_declaration(t, i, name, false, decls);
                }
            }
            return;
        }
        let function = t.kind_is(i, "function_declaration");
        if (function || t.kind_is(i, "property_declaration")) && has_direct_modifier(t, i, "private") && !has_annotation(t, i) {
            if function {
                if let Some(name) = direct_child_kind(t, i, "simple_identifier") {
                    add_declaration(t, i, name, true, decls);
                }
            } else if let Some(v) = direct_child_kind(t, i, "variable_declaration") {
                if let Some(name) = direct_child_kind(t, v, "simple_identifier") {
                    add_declaration(t, i, name, false, decls);
                }
            }
        }
    }
}

/// Appends the import that node `i` itself makes.
fn own_import(t: &SyntaxTree, i: usize, java: bool, imports: &mut Vec<Import>)
    requires
        t.wf(),
        i < t.nodes.len(),
    ensures
        imports_appended(t, old(imports)@, final(imports)@, own_imports(t, i as int, java)),
{
    proof {
        lemma_imports_none(t, imports@);
    }
    if java && t.kind_is(i, "import_declaration") {
        if t.text_contains(i, ".*") {
            return;
        }
        let path = match first_descendant_kind(t, i, "scoped_identifier") {
            Some(p) => Some(p),
            None => first_descendant_kind(t, i, "identifier"),
        };
        if let Some(p) = path {
            if let Some(name) = last_identifier(t, p) {
                push_import(t, i, p, name, imports);
            }
        }
    } else if !java && t.kind_is(i, "import_header") {
        if t.text_contains(i, ".*") {
            return;
        }
        let p = match direct_child_kind(t, i, "identifier") {
            Some(p) => p,
            None => return,
        };
        let alias = match direct_child_kind(t, i, "import_alias") {
            Some(a) => first_descendant_kind(t, a, "type_identifier"),
            None => None,
        };
        match alias {
            Some(name) => push_import(t, i, p, name, imports),
            None => {
                if let Some(name) = last_identifier(t, p) {
                    push_import(t, i, p, name, imports);
                }
            },
        }
    }
}

/// Appends the declarations and imports of the subtree at `i`, in document
/// order.
fn collect_nodes(t: &SyntaxTree, i: usize, java: bool, decls: &mut Vec<Declaration>, imports: &mut Vec<Import>)
    requires
        t.wf(),
        i < t.nodes.len(),
    ensures
        decls_appended(t, old(decls)@, final(decls)@, decl_sites(t, i as int, java)),
        imports_appended(t, old(imports)@, final(imports)@, import_sites(t, i as int, java)),
    decreases t.nodes.len() - i, t.nodes[i as int].children.len() + 1,
{
    own_import(t, i, java, imports);
    own_declarations(t, i, java, decls);
    let ghost mut dsites = own_decls(t, i as int, java);
    let ghost mut isites = own_imports(t, i as int, java);
    let n = &t.nodes[i];
    let mut k: usize = 0;
    while k < n.children.len()
        invariant
            t.wf(),
            i < t.nodes.len(),
            n == t.nodes[i as int],
            0 <= k <= n.children@.len(),
            decls_appended(t, old(decls)@, decls@, dsites),
            imports_appended(t, old(imports)@, imports@, isites),
            dsites + decl_children(t, i as int, k as int, java) == decl_sites(t, i as int, java),
            isites + import_children(t, i as int, k as int, java) == import_sites(t, i as int, java),
        decreases n.children@.len() - k,
    {
        let c = n.children[k];
        let ghost bd = decls@;
        let ghost bi = imports@;
        collect_nodes(t, c, java, decls, imports);
        proof {
            lemma_decls_chain(t, old(decls)@, bd, decls@, dsites, decl_sites(t, c as int, java));
            lemma_imports_chain(t, old(imports)@, bi, imports@, isites, import_sites(t, c as int, java));
            assert(dsites + decl_sites(t, c as int, java) + decl_children(t, i as int, k + 1, java) =~= dsites + decl_children(t, i as int, k as int, java));
            assert(isites + import_sites(t, c as int, java) + import_children(t, i as int, k + 1, java) =~= isites + import_children(t, i as int, k as int, java));
            dsites = dsites + decl_sites(t, c as int, java);
            isites = isites + import_sites(t, c as int, java);
        }
        k = k + 1;
    }
    proof {
        assert(dsites =~= decl_sites(t, i as int, java));
        assert(isites =~= import_sites(t, i as int, java));
    }
}

/// Where a local binding was found: the bound identifier, the node of its
/// lexical scope, and whether it is a parameter.
pub type BindingSite = (int, int, bool);

/// Kinds of the parents of parameter names.
pub open spec fn parameter_parent_kind(kind: Seq<char>) -> bool {
    kind == "formal_parameter"@ || kind == "spread_parameter"@ || kind == "receiver_parameter"@
        || kind == "catch_formal_parameter"@ || kind == "parameter"@
}

/// The binding node `c` itself makes: an identifier naming a parameter or
/// a local variable, with its lexical scope.
pub open spec fn own_binding(t: &SyntaxTree, c: int) -> Seq<BindingSite> {
    match parent_of(t, c) {
        None => Seq::empty(),
        Some(p) => {
            let parameter = parameter_parent_kind(t.kind(p));
            let local = (t.kind(p) == "variable_declarator"@ && ancestor_of_kind(
                t,
                p,
                "local_variable_declaration"@,
            )) || (t.kind(p) == "variable_declaration"@ && ancestor_of_kind(t, p, "property_declaration"@)
                && ancestor_of_kind(t, p, "function_body"@));
            if identifier_kind(t.kind(c)) && (parameter || local) {
                match scope_of(t, c) {
                    Some(scope) => seq![(c, scope, parameter)],
                    None => Seq::empty(),
                }
            } else {
                Seq::empty()
            }
        },
    }
}

/// The local bindings of the subtree at `i`, in document order.
pub open spec fn binding_sites(t: &SyntaxTree, i: int) -> Seq<BindingSite>
    decreases t.nodes.len() - i, t.nodes[i].children.len() + 1,
{
    if i < 0 || i >= t.nodes.len() {
        Seq::empty()
    } else {
        own_binding(t, i) + binding_children(t, i, 0)
    }
}

/// The local bindings of the subtrees of the children of `i` from the
/// `k`-th on.
pub open spec fn binding_children(t: &SyntaxTree, i: int, k: int) -> Seq<BindingSite>
    decreases t.nodes.len() - i, t.nodes[i].children.len() - k,
{
    if i < 0 || i >= t.nodes.len() || k < 0 || k >= t.nodes[i].children.len() {
        Seq::empty()
    } else {
        let c = t.nodes[i].children[k] as int;
        if c <= i || c >= t.nodes.len() {
            binding_children(t, i, k + 1)
        } else {
            binding_sites(t, c) + binding_children(t, i, k + 1)
        }
    }
}

/// A local binding found in a file.
pub struct LocalBinding {
    pub name: Vec<char>,
    pub declaration_end: usize,
    pub scope_start: usize,
    pub scope_end: usize,
    pub parameter: bool,
}

/// `b` is the binding found at `s`.
pub open spec fn models_binding(t: &SyntaxTree, b: LocalBinding, s: BindingSite) -> bool {
    &&& b.name@ == t.text(s.0)
    &&& b.declaration_end == t.nodes[s.0].end
    &&& b.scope_start == t.nodes[s.1].start
    &&& b.scope_end == t.nodes[s.1].end
    &&& b.parameter == s.2
}

/// `after` extends `before` by the bindings found at `sites`.
pub open spec fn bindings_appended(t: &SyntaxTree, before: Seq<LocalBinding>, after: Seq<LocalBinding>, sites: Seq<BindingSite>) -> bool {
    &&& after.len() == before.len() + sites.len()
    &&& forall|k: int| 0 <= k < before.len() ==> #[trigger] after[k] == before[k]
    &&& forall|k: int| 0 <= k < sites.len() ==> models_binding(t, #[trigger] after[before.len() + k], sites[k])
}

proof fn lemma_bindings_chain(t: &SyntaxTree, a: Seq<LocalBinding>, b: Seq<LocalBinding>, c: Seq<LocalBinding>, s1: Seq<BindingSite>, s2: Seq<BindingSite>)
    requires
        bindings_appended(t, a, b, s1),
        bindings_appended(t, b, c, s2),
    ensures
        bindings_appended(t, a, c, s1 + s2),
{
    assert forall|k: int| 0 <= k < (s1 + s2).len() implies models_binding(t, #[trigger] c[a.len() + k], (s1 + s2)[k]) by {
        if k < s1.len() {
            assert(c[a.len() + k] == b[a.len() + k]);
        } else {
            assert(c[a.len() + k] == c[b.len() + (k - s1.len())]);
        }
    }
}

/// Appends the local bindings of the subtree at `i`.
fn collect_local_bindings(t: &SyntaxTree, i: usize, out: &mut Vec<LocalBinding>)
    requires
        t.wf(),
        i < t.nodes.len(),
    ensures
        bindings_appended(t, old(out)@, final(out)@, binding_sites(t, i as int)),
    decreases t.nodes.len() - i, t.nodes[i as int].children.len() + 1,
{
    let mut own_added = false;
    if let Some(p) = parent_exec(t, i) {
        let parameter = t.kind_is(p, "formal_parameter") || t.kind_is(p, "spread_parameter") || t.kind_is(p, "receiver_parameter")
            || t.kind_is(p, "catch_formal_parameter") || t.kind_is(p, "parameter");
        let local = (t.kind_is(p, "variable_declarator") && has_ancestor_kind(t, p, "local_variable_declaration"))
            || (t.kind_is(p, "variable_declaration") && has_ancestor_kind(t, p, "property_declaration")
            && has_ancestor_kind(t, p, "function_body"));
        if is_identifier(&t.nodes[i].kind) && (parameter || local) {
            if let Some(scope) = lexical_scope(t, i) {
                out.push(LocalBinding {
                    name: copy_chars(t.text_of(i)),
                    declaration_end: t.nodes[i].end,
                    scope_start: t.nodes[scope].start,
                    scope_end: t.nodes[scope].end,
                    parameter,
                });
                own_added = true;
            }
        }
    }
    let ghost mut sites = own_binding(t, i as int);
    proof {
        assert(bindings_appended(t, old(out)@, out@, sites));
    }
    let n = &t.nodes[i];
    let mut k: usize = 0;
    while k < n.children.len()
        invariant
            t.wf(),
            i < t.nodes.len(),
            n == t.nodes[i as int],
            0 <= k <= n.children@.len(),
            bindings_appended(t, old(out)@, out@, sites),
            sites + binding_children(t, i as int, k as int) == binding_sites(t, i as int),
        decreases n.children@.len() - k,
    {
        let c = n.children[k];
        let ghost before = out@;
        collect_local_bindings(t, c, out);
        proof {
            lemma_bindings_chain(t, old(out)@, before, out@, sites, binding_sites(t, c as int));
            assert(sites + binding_sites(t, c as int) + binding_children(t, i as int, k + 1) =~= sites + binding_children(t, i as int, k as int));
            sites = sites + binding_sites(t, c as int);
        }
        k = k + 1;
    }
    proof {
        assert(sites =~= binding_sites(t, i as int));
    }
}

/// `s` starts with `p`.
pub open spec fn starts_with(s: Seq<char>, p: Seq<char>) -> bool {
    crate::text::occurs_at(s, p, 0)
}

/// `bindings` are the bindings found at `sites`, in order.
pub open spec fn bindings_model(t: &SyntaxTree, bindings: Seq<LocalBinding>, sites: Seq<BindingSite>) -> bool {
    bindings.len() == sites.len() && forall|k: int| 0 <= k < bindings.len() ==> models_binding(t, #[trigger] bindings[k], sites[k])
}

/// Node `c` lies within the name of some declaration of `d`.
pub open spec fn in_decl_ranges(t: &SyntaxTree, d: Seq<DeclSite>, c: int) -> bool {
    exists|k: int|
        0 <= k < d.len() && t.nodes[c].start >= t.nodes[#[trigger] d[k].1].start && t.nodes[c].end
            <= t.nodes[d[k].1].end
}

/// Node `c` lies within some import of `m`.
pub open spec fn in_import_ranges(t: &SyntaxTree, m: Seq<ImportSite>, c: int) -> bool {
    exists|k: int|
        0 <= k < m.len() && t.nodes[c].start >= t.nodes[#[trigger] m[k].0].start && t.nodes[c].end
            <= t.nodes[m[k].0].end
}

/// Binding `b` gives identifier `c` its meaning: same name, `c` inside its
/// scope, and (unless it is a parameter) after its declaration.
pub open spec fn binding_covers(t: &SyntaxTree, b: BindingSite, c: int) -> bool {
    t.text(b.0) == t.text(c) && t.nodes[c].start >= t.nodes[b.1].start && t.nodes[c].end
        <= t.nodes[b.1].end && (b.2 || t.nodes[c].start >= t.nodes[b.0].end)
}

/// Identifier `c` names a local binding rather than a member.
pub open spec fn shadowed(t: &SyntaxTree, c: int, b: Seq<BindingSite>) -> bool {
    !member_reference(t, c) && exists|k: int| 0 <= k < b.len() && binding_covers(t, #[trigger] b[k], c)
}

/// Identifier `c` is a plain use of a name: not inside an import or a
/// declaration name, not a definition, a callee, a member of another type,
/// or a local.
pub open spec fn plain_use(t: &SyntaxTree, c: int, java: bool, d: Seq<DeclSite>, m: Seq<ImportSite>, b: Seq<BindingSite>) -> bool {
    identifier_kind(t.kind(c)) && !in_import_ranges(t, m, c) && !in_decl_ranges(t, d, c)
        && !defining_identifier(t, c) && !callee_position(t, c, java)
        && !foreign_member_reference(t, c, java) && !shadowed(t, c, b)
}

/// Declaration `s` is a function named `name` declared directly in `scope`.
pub open spec fn call_candidate(t: &SyntaxTree, s: DeclSite, name: Seq<char>, scope: Seq<char>) -> bool {
    t.text(s.1) == name && s.2 && starts_with(decl_symbol(t, s), scope + ":function:"@ + name + ":"@)
}

/// How well declaration `s` fits a call with `arity` arguments.
pub open spec fn decl_rank(t: &SyntaxTree, s: DeclSite, arity: nat) -> Option<int> {
    let a = decl_arity(t, s.0);
    fit_rank(a.0, a.1, a.2, arity)
}

/// The larger of two optional ranks.
pub open spec fn max_rank(a: Option<int>, b: Option<int>) -> Option<int> {
    match (a, b) {
        (Some(x), Some(y)) => Some(if x >= y { x } else { y }),
        (Some(x), None) => Some(x),
        (None, _) => b,
    }
}

/// The best rank among the candidates in the first `k` declarations.
pub open spec fn best_rank(t: &SyntaxTree, d: Seq<DeclSite>, k: int, name: Seq<char>, scope: Seq<char>, arity: nat) -> Option<int>
    decreases k,
{
    if k <= 0 {
        None
    } else {
        max_rank(
            best_rank(t, d, k - 1, name, scope, arity),
            if call_candidate(t, d[k - 1], name, scope) { decl_rank(t, d[k - 1], arity) } else { None },
        )
    }
}

/// The symbols of the candidates for a call that fit it best.
pub open spec fn call_uses(t: &SyntaxTree, d: Seq<DeclSite>, name: Seq<char>, scope: Seq<char>, arity: nat, k: int) -> Set<Seq<char>> {
    let best = best_rank(t, d, d.len() as int, name, scope, arity);
    Set::new(
        |s: Seq<char>|
            exists|j: int|
                0 <= j < k && call_candidate(t, #[trigger] d[j], name, scope) && best is Some && decl_rank(
                    t,
                    d[j],
                    arity,
                ) == best && s == decl_symbol(t, d[j]),
    )
}

/// The symbols of the declarations among the first `k` named `name` and
/// declared in `scope`.
pub open spec fn scoped_uses(t: &SyntaxTree, d: Seq<DeclSite>, name: Seq<char>, scope: Seq<char>, k: int) -> Set<Seq<char>> {
    Set::new(
        |s: Seq<char>|
            exists|j: int|
                0 <= j < k && t.text(#[trigger] d[j].1) == name && starts_with(decl_symbol(t, d[j]), scope + ":"@)
                    && s == decl_symbol(t, d[j]),
    )
}

/// What node `c` uses: for a call on the current object, the best-fitting
/// functions of that name in the enclosing type; for a plain use of a
/// name, the name itself and the declarations of that name in the
/// enclosing type.
pub open spec fn own_uses(t: &SyntaxTree, c: int, java: bool, d: Seq<DeclSite>, m: Seq<ImportSite>, b: Seq<BindingSite>) -> Set<Seq<char>> {
    match call_of(t, c, java) {
        Some(call) => call_uses(t, d, call.0, enclosing_type_path(t, c), call.1, d.len() as int),
        None => if plain_use(t, c, java, d, m, b) {
            scoped_uses(t, d, t.text(c), enclosing_type_path(t, c), d.len() as int).insert(t.text(c))
        } else {
            Set::empty()
        },
    }
}

/// What the subtree at `i` uses.
pub open spec fn used_subtree(t: &SyntaxTree, i: int, java: bool, d: Seq<DeclSite>, m: Seq<ImportSite>, b: Seq<BindingSite>) -> Set<Seq<char>>
    decreases t.nodes.len() - i, t.nodes[i].children.len() + 1,
{
    if i < 0 || i >= t.nodes.len() {
        Set::empty()
    } else {
        own_uses(t, i, java, d, m, b).union(used_children(t, i, 0, java, d, m, b))
    }
}

/// What the subtrees of the children of `i` from the `k`-th on use.
pub open spec fn used_children(t: &SyntaxTree, i: int, k: int, java: bool, d: Seq<DeclSite>, m: Seq<ImportSite>, b: Seq<BindingSite>) -> Set<Seq<char>>
    decreases t.nodes.len() - i, t.nodes[i].children.len() - k,
{
    if i < 0 || i >= t.nodes.len() || k < 0 || k >= t.nodes[i].children.len() {
        Set::empty()
    } else {
        let c = t.nodes[i].children[k] as int;
        if c <= i || c >= t.nodes.len() {
            used_children(t, i, k + 1, java, d, m, b)
        } else {
            used_subtree(t, c, java, d, m, b).union(used_children(t, i, k + 1, java, d, m, b))
        }
    }
}

/// The names in `v`, as a set.
pub open spec fn name_set(v: Seq<Vec<char>>) -> Set<Seq<char>> {
    v.map_values(|x: Vec<char>| x@).to_set()
}

proof fn lemma_name_set_push(v: Seq<Vec<char>>, x: Vec<char>)
    ensures
        name_set(v.push(x)) == name_set(v).insert(x@),
{
    let a = v.push(x).map_values(|y: Vec<char>| y@);
    let b = v.map_values(|y: Vec<char>| y@);
    assert(a =~= b.push(x@));
    assert forall|s: Seq<char>| a.to_set().contains(s) <==> b.to_set().insert(x@).contains(s) by {
        if a.to_set().contains(s) {
            let j = choose|j: int| 0 <= j < a.len() && a[j] == s;
            if j < b.len() {
                assert(b[j] == s);
            }
        }
        if b.to_set().contains(s) {
            let j = choose|j: int| 0 <= j < b.len() && b[j] == s;
            assert(a[j] == s);
        }
        if s == x@ {
            assert(a[b.len() as int] == s);
        }
    }
    assert(a.to_set() =~= b.to_set().insert(x@));
}

/// Whether `s` starts with `p`.
fn starts_with_chars(s: &[char], p: &[char]) -> (r: bool)
    ensures
        r == starts_with(s@, p@),
{
    crate::text::matches_at(s, p, 0)
}

/// Whether node `c` lies within the name of a declaration.
fn within_declaration(t: &SyntaxTree, decls: &Vec<Declaration>, c: usize, d: Ghost<Seq<DeclSite>>) -> (r: bool)
    requires
        t.wf(),
        c < t.nodes.len(),
        decls_model(t, decls@, d@),
    ensures
        r == in_decl_ranges(t, d@, c as int),
{
    let mut k: usize = 0;
    while k < decls.len()
        invariant
            t.wf(),
            c < t.nodes.len(),
            decls_model(t, decls@, d@),
            0 <= k <= decls@.len(),
            forall|j: int|
                0 <= j < k ==> !(t.nodes[c as int].start >= t.nodes[#[trigger] d@[j].1].start && t.nodes[c as int].end
                    <= t.nodes[d@[j].1].end),
        decreases decls@.len() - k,
    {
        proof {
            assert(models_decl(t, decls@[k as int], d@[k as int]));
        }
        if t.nodes[c].start >= decls[k].start && t.nodes[c].end <= decls[k].end {
            return true;
        }
        k = k + 1;
    }
    false
}

/// Whether node `c` lies within an import.
fn within_import(t: &SyntaxTree, imports: &Vec<Import>, c: usize, m: Ghost<Seq<ImportSite>>) -> (r: bool)
    requires
        t.wf(),
        c < t.nodes.len(),
        imports_model(t, imports@, m@),
    ensures
        r == in_import_ranges(t, m@, c as int),
{
    let mut k: usize = 0;
    while k < imports.len()
        invariant
            t.wf(),
            c < t.nodes.len(),
            imports_model(t, imports@, m@),
            0 <= k <= imports@.len(),
            forall|j: int|
                0 <= j < k ==> !(t.nodes[c as int].start >= t.nodes[#[trigger] m@[j].0].start && t.nodes[c as int].end
                    <= t.nodes[m@[j].0].end),
        decreases imports@.len() - k,
    {
        proof {
            assert(models_import(t, imports@[k as int], m@[k as int]));
        }
        if t.nodes[c].start >= imports[k].start && t.nodes[c].end <= imports[k].end {
            return true;
        }
        k = k + 1;
    }
    false
}

/// Whether identifier `c` names a local binding rather than a member.
fn is_shadowed_by_local(t: &SyntaxTree, locals: &Vec<LocalBinding>, c: usize, b: Ghost<Seq<BindingSite>>) -> (r: bool)
    requires
        t.wf(),
        c < t.nodes.len(),
        bindings_model(t, locals@, b@),
    ensures
        r == shadowed(t, c as int, b@),
{
    if is_explicit_member_reference(t, c) {
        return false;
    }
    let name = t.text_of(c);
    let start = t.nodes[c].start;
    let end = t.nodes[c].end;
    let mut k: usize = 0;
    while k < locals.len()
        invariant
            t.wf(),
            c < t.nodes.len(),
            name@ == t.text(c as int),
            start == t.nodes[c as int].start,
            end == t.nodes[c as int].end,
            !member_reference(t, c as int),
            bindings_model(t, locals@, b@),
            0 <= k <= locals@.len(),
            forall|j: int| 0 <= j < k ==> !binding_covers(t, #[trigger] b@[j], c as int),
        decreases locals@.len() - k,
    {
        let l = &locals[k];
        proof {
            assert(models_binding(t, locals@[k as int], b@[k as int]));
        }
        if chars_equal(l.name.as_slice(), name) && start >= l.scope_start && end <= l.scope_end
            && (l.parameter || start >= l.declaration_end) {
            proof {
                assert(binding_covers(t, b@[k as int], c as int));
            }
            return true;
        }
        k = k + 1;
    }
    false
}

/// A rank as specifications take it.
pub open spec fn rank_of(o: Option<u8>) -> Option<int> {
    match o {
        Some(x) => Some(x as int),
        None => None,
    }
}

/// Adds the uses of a call of `name` with `arity` arguments at node `c`.
fn add_call_uses(
    t: &SyntaxTree,
    c: usize,
    decls: &Vec<Declaration>,
    name: &[char],
    arity: usize,
    used: &mut Vec<Vec<char>>,
    d: Ghost<Seq<DeclSite>>,
)
    requires
        t.wf(),
        c < t.nodes.len(),
        decls_model(t, decls@, d@),
    ensures
        name_set(final(used)@) == name_set(old(used)@).union(
            call_uses(t, d@, name@, enclosing_type_path(t, c as int), arity as nat, d@.len() as int),
        ),
{
    let scope = containing_type(t, c);
    let mut prefix = copy_chars(scope.as_slice());
    push_str(&mut prefix, ":function:");
    push_all(&mut prefix, name);
    push_str(&mut prefix, ":");
    let ghost sc = scope@;
    let mut best: Option<u8> = None;
    let mut k: usize = 0;
    while k < decls.len()
        invariant
            t.wf(),
            decls_model(t, decls@, d@),
            sc == scope@,
            prefix@ == sc + ":function:"@ + name@ + ":"@,
            0 <= k <= decls@.len(),
            rank_of(best) == best_rank(t, d@, k as int, name@, sc, arity as nat),
        decreases decls@.len() - k,
    {
        let decl = &decls[k];
        proof {
            assert(models_decl(t, decls@[k as int], d@[k as int]));
        }
        let candidate = chars_equal(decl.name.as_slice(), name) && decl.function && starts_with_chars(decl.symbol.as_slice(), prefix.as_slice());
        if candidate {
            let r = overload_rank(decl.required_arity, decl.total_arity, decl.vararg, arity);
            best = match (best, r) {
                (Some(x), Some(y)) => Some(if x >= y { x } else { y }),
                (Some(x), None) => Some(x),
                (None, _) => r,
            };
        }
        k = k + 1;
    }
    let ghost total = call_uses(t, d@, name@, sc, arity as nat, d@.len() as int);
    let mut k: usize = 0;
    proof {
        assert(call_uses(t, d@, name@, sc, arity as nat, 0) =~= Set::empty());
        assert(name_set(used@) =~= name_set(old(used)@).union(Set::empty()));
    }
    while k < decls.len()
        invariant
            t.wf(),
            decls_model(t, decls@, d@),
            sc == scope@,
            sc == enclosing_type_path(t, c as int),
            prefix@ == sc + ":function:"@ + name@ + ":"@,
            0 <= k <= decls@.len(),
            rank_of(best) == best_rank(t, d@, d@.len() as int, name@, sc, arity as nat),
            name_set(used@) == name_set(old(used)@).union(call_uses(t, d@, name@, sc, arity as nat, k as int)),
        decreases decls@.len() - k,
    {
        let decl = &decls[k];
        proof {
            assert(models_decl(t, decls@[k as int], d@[k as int]));
        }
        let candidate = chars_equal(decl.name.as_slice(), name) && decl.function && starts_with_chars(decl.symbol.as_slice(), prefix.as_slice());
        let hit = candidate && best.is_some() && overload_rank(decl.required_arity, decl.total_arity, decl.vararg, arity) == best;
        let ghost before = used@;
        if hit {
            used.push(copy_chars(decl.symbol.as_slice()));
            proof {
                lemma_name_set_push(before, used@.last());
                assert(used@ == before.push(used@.last()));
            }
        }
        proof {
            let prev = call_uses(t, d@, name@, sc, arity as nat, k as int);
            let next = call_uses(t, d@, name@, sc, arity as nat, k + 1);
            if hit {
                assert(next =~= prev.insert(decl_symbol(t, d@[k as int])));
            } else {
                assert(next =~= prev);
            }
            assert(name_set(used@) =~= name_set(old(used)@).union(next));
        }
        k = k + 1;
    }
}

/// Adds the uses of a plain use of the name at node `c`.
fn add_plain_uses(t: &SyntaxTree, c: usize, decls: &Vec<Declaration>, used: &mut Vec<Vec<char>>, d: Ghost<Seq<DeclSite>>)
    requires
        t.wf(),
        c < t.nodes.len(),
        decls_model(t, decls@, d@),
    ensures
        name_set(final(used)@) == name_set(old(used)@).union(
            scoped_uses(t, d@, t.text(c as int), enclosing_type_path(t, c as int), d@.len() as int).insert(t.text(c as int)),
        ),
{
    let name = t.text_of(c);
    let ghost nm = name@;
    used.push(copy_chars(name));
    proof {
        lemma_name_set_push(old(used)@, used@.last());
        assert(used@ == old(used)@.push(used@.last()));
    }
    let scope = containing_type(t, c);
    let mut prefix = copy_chars(scope.as_slice());
    push_str(&mut prefix, ":");
    let ghost sc = scope@;
    let mut k: usize = 0;
    proof {
        assert(scoped_uses(t, d@, nm, sc, 0) =~= Set::empty());
        assert(name_set(used@) =~= name_set(old(used)@).union(scoped_uses(t, d@, nm, sc, 0).insert(nm)));
    }
    while k < decls.len()
        invariant
            t.wf(),
            decls_model(t, decls@, d@),
            nm == name@,
            nm == t.text(c as int),
            sc == scope@,
            sc == enclosing_type_path(t, c as int),
            prefix@ == sc + ":"@,
            0 <= k <= decls@.len(),
            name_set(used@) == name_set(old(used)@).union(scoped_uses(t, d@, nm, sc, k as int).insert(nm)),
        decreases decls@.len() - k,
    {
        let decl = &decls[k];
        proof {
            assert(models_decl(t, decls@[k as int], d@[k as int]));
        }
        let hit = chars_equal(decl.name.as_slice(), name) && starts_with_chars(decl.symbol.as_slice(), prefix.as_slice());
        let ghost before = used@;
        if hit {
            used.push(copy_chars(decl.symbol.as_slice()));
            proof {
                lemma_name_set_push(before, used@.last());
                assert(used@ == before.push(used@.last()));
            }
        }
        proof {
            let prev = scoped_uses(t, d@, nm, sc, k as int);
            let next = scoped_uses(t, d@, nm, sc, k + 1);
            if hit {
                assert(next =~= prev.insert(decl_symbol(t, d@[k as int])));
            } else {
                assert(next =~= prev);
            }
            assert(name_set(used@) =~= name_set(old(used)@).union(next.insert(nm)));
        }
        k = k + 1;
    }
}

/// Adds what the subtree at `i` uses.
fn collect_uses(
    t: &SyntaxTree,
    i: usize,
    java: bool,
    decls: &Vec<Declaration>,
    imports: &Vec<Import>,
    locals: &Vec<LocalBinding>,
    used: &mut Vec<Vec<char>>,
    d: Ghost<Seq<DeclSite>>,
    m: Ghost<Seq<ImportSite>>,
    b: Ghost<Seq<BindingSite>>,
)
    requires
        t.wf(),
        i < t.nodes.len(),
        decls_model(t, decls@, d@),
        imports_model(t, imports@, m@),
        bindings_model(t, locals@, b@),
    ensures
        name_set(final(used)@) == name_set(old(used)@).union(used_subtree(t, i as int, java, d@, m@, b@)),
    decreases t.nodes.len() - i, t.nodes[i as int].children.len() + 1,
{
    match called_symbol(t, i, java) {
        Some(call) => {
            add_call_uses(t, i, decls, call.0.as_slice(), call.1, used, d);
        },
        None => {
            if is_identifier(&t.nodes[i].kind) && !within_import(t, imports, i, m) && !within_declaration(t, decls, i, d)
                && !is_definition_identifier(t, i) && !is_call_callee(t, i, java)
                && !is_non_current_qualified_member_reference(t, i, java) && !is_shadowed_by_local(t, locals, i, b) {
                add_plain_uses(t, i, decls, used, d);
            } else {
                assert(name_set(used@) =~= name_set(old(used)@).union(Set::empty()));
            }
        },
    }
    let ghost mut acc = own_uses(t, i as int, java, d@, m@, b@);
    let n = &t.nodes[i];
    let mut k: usize = 0;
    proof {
        assert(acc.union(used_children(t, i as int, 0, java, d@, m@, b@)) == used_subtree(t, i as int, java, d@, m@, b@));
    }
    while k < n.children.len()
        invariant
            t.wf(),
            i < t.nodes.len(),
            n == t.nodes[i as int],
            decls_model(t, decls@, d@),
            imports_model(t, imports@, m@),
            bindings_model(t, locals@, b@),
            0 <= k <= n.children@.len(),
            name_set(used@) == name_set(old(used)@).union(acc),
            acc.union(used_children(t, i as int, k as int, java, d@, m@, b@)) == used_subtree(t, i as int, java, d@, m@, b@),
        decreases n.children@.len() - k,
    {
        let c = n.children[k];
        let ghost before = used@;
        collect_uses(t, c, java, decls, imports, locals, used, d, m, b);
        proof {
            let sub = used_subtree(t, c as int, java, d@, m@, b@);
            assert(acc.union(sub).union(used_children(t, i as int, k + 1, java, d@, m@, b@)) =~= acc.union(used_children(t, i as int, k as int, java, d@, m@, b@)));
            assert(name_set(used@) =~= name_set(old(used)@).union(acc.union(sub)));
            acc = acc.union(sub);
        }
        k = k + 1;
    }
    proof {
        assert(acc =~= used_subtree(t, i as int, java, d@, m@, b@));
    }
}

/// `path` has a `.` and the part after its last `.` is `ext`, ignoring
/// ASCII case (`ext` is lower case).
pub open spec fn has_extension(path: Seq<char>, ext: Seq<char>) -> bool {
    contains_seq(path, "."@) && lower(after_last_dot(path)) == ext
}

/// The finding for unused declaration `s`.
pub open spec fn decl_finding(file: Seq<char>, t: &SyntaxTree, s: DeclSite) -> FindingView {
    (
        file,
        (t.nodes[s.0].start_row + 1) as usize,
        "dead_code"@,
        "Unused private "@ + decl_kind_text(s.2) + " '"@ + t.text(s.1) + "'"@,
        "error"@,
        file + ":dead_code:"@ + decl_kind_text(s.2) + ":"@ + decl_symbol(t, s),
    )
}

/// The finding for unused import `s`.
pub open spec fn import_finding(file: Seq<char>, t: &SyntaxTree, s: ImportSite) -> FindingView {
    (
        file,
        (t.nodes[s.0].start_row + 1) as usize,
        "dead_code"@,
        "Unused import '"@ + t.text(s.1) + "'"@,
        "error"@,
        file + ":dead_code:import:"@ + t.text(s.1) + ":"@ + t.text(s.2),
    )
}

/// The findings for the declarations of `d` whose symbols `used` lacks.
pub open spec fn unused_decls(file: Seq<char>, t: &SyntaxTree, d: Seq<DeclSite>, used: Set<Seq<char>>) -> Seq<FindingView>
    decreases d.len(),
{
    if d.len() == 0 {
        Seq::empty()
    } else {
        unused_decls(file, t, d.drop_last(), used) + (if used.contains(decl_symbol(t, d.last())) {
            Seq::empty()
        } else {
            seq![decl_finding(file, t, d.last())]
        })
    }
}

/// The findings for the imports of `m` whose names `used` lacks.
pub open spec fn unused_imports(file: Seq<char>, t: &SyntaxTree, m: Seq<ImportSite>, used: Set<Seq<char>>) -> Seq<FindingView>
    decreases m.len(),
{
    if m.len() == 0 {
        Seq::empty()
    } else {
        unused_imports(file, t, m.drop_last(), used) + (if used.contains(t.text(m.last().2)) {
            Seq::empty()
        } else {
            seq![import_finding(file, t, m.last())]
        })
    }
}

/// Findings ordered by line.
pub open spec fn by_line() -> spec_fn(FindingView, FindingView) -> bool {
    |a: FindingView, b: FindingView| a.1 < b.1
}

/// The dead-code findings of a Java (`.java`) or Kotlin (`.kt`) file:
/// unused private declarations, then unused imports, stably sorted by line.
pub open spec fn dead_code_findings(file: Seq<char>, t: &SyntaxTree) -> Seq<FindingView> {
    let java = has_extension(file, "java"@);
    let kotlin = has_extension(file, "kt"@);
    if !java && !kotlin {
        Seq::empty()
    } else {
        let d = decl_sites(t, 0, java);
        let m = import_sites(t, 0, java);
        if d.len() == 0 && m.len() == 0 {
            Seq::empty()
        } else {
            let used = used_subtree(t, 0, java, d, m, binding_sites(t, 0));
            sorted_by(unused_decls(file, t, d, used) + unused_imports(file, t, m, used), by_line())
        }
    }
}

/// Whether `path` has extension `ext` (lower case), ignoring ASCII case.
fn extension_is(path: &[char], ext: &str) -> (r: bool)
    ensures
        r == has_extension(path@, ext@),
{
    if !contains_str(path, ".") {
        return false;
    }
    let last = last_dotted_part(path);
    lower_is(last.as_slice(), ext)
}

/// Whether `used` holds `name`.
fn name_in(used: &Vec<Vec<char>>, name: &[char]) -> (r: bool)
    ensures
        r == name_set(used@).contains(name@),
{
    let ghost m = used@.map_values(|x: Vec<char>| x@);
    let mut k: usize = 0;
    while k < used.len()
        invariant
            m == used@.map_values(|x: Vec<char>| x@),
            0 <= k <= used@.len(),
            forall|j: int| 0 <= j < k ==> m[j] != name@,
        decreases used@.len() - k,
    {
        if chars_equal(used[k].as_slice(), name) {
            assert(m[k as int] == name@);
            return true;
        }
        k = k + 1;
    }
    proof {
        if m.to_set().contains(name@) {
            let j = choose|j: int| 0 <= j < m.len() && m[j] == name@;
        }
    }
    false
}

/// `v` stably sorted by line.
fn sort_by_line(v: Vec<Violation>) -> (r: Vec<Violation>)
    ensures
        findings(r@) == sorted_by(findings(v@), by_line()),
{
    let ghost all = findings(v@);
    let mut rest = v;
    let mut out: Vec<Violation> = Vec::new();
    let ghost mut done: int = 0;
    while rest.len() > 0
        invariant
            0 <= done <= all.len(),
            findings(rest@) == all.skip(done),
            findings(out@) == sorted_by(all.take(done), by_line()),
        decreases rest@.len(),
    {
        let ghost old_rest = rest@;
        let x = rest.remove(0);
        proof {
            assert(findings(old_rest).len() == old_rest.len());
            assert(all.skip(done).len() > 0);
            assert(findings(old_rest)[0] == x@);
            assert(all.skip(done)[0] == all[done]);
            assert(x@ == all[done]);
            assert(rest@ =~= old_rest.subrange(1, old_rest.len() as int));
            assert forall|q: int| 0 <= q < rest@.len() implies findings(rest@)[q] == all.skip(done + 1)[q] by {
                assert(rest@[q] == old_rest[q + 1]);
                assert(findings(old_rest)[q + 1] == all.skip(done)[q + 1]);
            }
            assert(findings(rest@) =~= all.skip(done + 1));
        }
        let mut p: usize = 0;
        while p < out.len() && !(x.line < out[p].line)
            invariant
                0 <= p <= out@.len(),
                forall|q: int| 0 <= q < p ==> !(by_line())(x@, #[trigger] findings(out@)[q]),
            decreases out@.len() - p,
        {
            p = p + 1;
        }
        proof {
            lemma_insert_at_first_greater(findings(out@), x@, by_line(), p as int);
            assert(all.take(done + 1).drop_last() =~= all.take(done));
        }
        let ghost before = findings(out@);
        out.insert(p, x);
        proof {
            assert(findings(out@) =~= before.subrange(0, p as int) + seq![x@] + before.subrange(p as int, before.len() as int));
            done = done + 1;
        }
    }
    proof {
        assert(all.skip(done).len() == 0);
        assert(all.take(done) =~= all);
    }
    out
}

/// The rule that reports unused private declarations and unused imports.
pub struct DeadCodeRule;

impl DeadCodeRule {
    /// The rule.
    pub fn new() -> (r: Self) {
        DeadCodeRule
    }

    /// The dead-code findings of one file.
    pub fn check_source(&self, file_path: &str, code: &str, tree: &SyntaxTree) -> (r: Vec<Violation>)
        requires
            tree.wf(),
        ensures
            findings(r@) == dead_code_findings(file_path@, tree),
    {
        let path = chars_of(file_path);
        let java = extension_is(path.as_slice(), "java");
        let kotlin = extension_is(path.as_slice(), "kt");
        if !java && !kotlin {
            return Vec::new();
        }
        let ghost d = decl_sites(tree, 0, java);
        let ghost m = import_sites(tree, 0, java);
        let ghost b = binding_sites(tree, 0);
        let mut decls: Vec<Declaration> = Vec::new();
        let mut imports: Vec<Import> = Vec::new();
        collect_nodes(tree, 0, java, &mut decls, &mut imports);
        proof {
            assert(decls@.subrange(0, decls@.len() as int) =~= decls@);
            assert(imports@.subrange(0, imports@.len() as int) =~= imports@);
        }
        if decls.len() == 0 && imports.len() == 0 {
            return Vec::new();
        }
        let mut locals: Vec<LocalBinding> = Vec::new();
        collect_local_bindings(tree, 0, &mut locals);
        proof {
            assert forall|k: int| 0 <= k < locals@.len() implies models_binding(tree, #[trigger] locals@[k], b[k]) by {
                assert(locals@[0 + k] == locals@[k]);
            }
        }
        let mut used: Vec<Vec<char>> = Vec::new();
        collect_uses(tree, 0, java, &decls, &imports, &locals, &mut used, Ghost(d), Ghost(m), Ghost(b));
        let ghost u = used_subtree(tree, 0, java, d, m, b);
        proof {
            assert(name_set(used@) =~= u);
        }
        let mut out: Vec<Violation> = Vec::new();
        let mut k: usize = 0;
        while k < decls.len()
            invariant
                tree.wf(),
                decls_model(tree, decls@, d),
                name_set(used@) == u,
                0 <= k <= decls@.len(),
                findings(out@) == unused_decls(file_path@, tree, d.subrange(0, k as int), u),
            decreases decls@.len() - k,
        {
            let decl = &decls[k];
            proof {
                assert(models_decl(tree, decls@[k as int], d[k as int]));
                assert(d.subrange(0, k + 1).drop_last() =~= d.subrange(0, k as int));
                assert(d.subrange(0, k + 1).last() == d[k as int]);
            }
            let ghost before = findings(out@);
            if !name_in(&used, decl.symbol.as_slice()) {
                let mut msg: Vec<char> = Vec::new();
                push_str(&mut msg, "Unused private ");
                if decl.function {
                    push_str(&mut msg, "function");
                } else {
                    push_str(&mut msg, "member");
                }
                push_str(&mut msg, " '");
                push_all(&mut msg, decl.name.as_slice());
                push_str(&mut msg, "'");
                let mut fp: Vec<char> = Vec::new();
                push_str(&mut fp, file_path);
                push_str(&mut fp, ":dead_code:");
                if decl.function {
                    push_str(&mut fp, "function");
                } else {
                    push_str(&mut fp, "member");
                }
                push_str(&mut fp, ":");
                push_all(&mut fp, decl.symbol.as_slice());
                let v = Violation {
                    file: file_path.to_owned(),
                    line: decl.line,
                    rule: "dead_code".to_owned(),
                    message: string_of(msg.as_slice()),
                    severity: "error".to_owned(),
                    fingerprint: string_of(fp.as_slice()),
                };
                out.push(v);
                proof {
                    assert(findings(out@) =~= before.push(v@));
                }
            }
            k = k + 1;
        }
        proof {
            assert(d.subrange(0, decls@.len() as int) =~= d);
        }
        let ghost decl_part = findings(out@);
        let mut k: usize = 0;
        while k < imports.len()
            invariant
                tree.wf(),
                imports_model(tree, imports@, m),
                name_set(used@) == u,
                0 <= k <= imports@.len(),
                findings(out@) == decl_part + unused_imports(file_path@, tree, m.subrange(0, k as int), u),
            decreases imports@.len() - k,
        {
            let item = &imports[k];
            proof {
                assert(models_import(tree, imports@[k as int], m[k as int]));
                assert(m.subrange(0, k + 1).drop_last() =~= m.subrange(0, k as int));
                assert(m.subrange(0, k + 1).last() == m[k as int]);
            }
            let ghost before = findings(out@);
            if !name_in(&used, item.name.as_slice()) {
                let mut msg: Vec<char> = Vec::new();
                push_str(&mut msg, "Unused import '");
                push_all(&mut msg, item.path.as_slice());
                push_str(&mut msg, "'");
                let mut fp: Vec<char> = Vec::new();
                push_str(&mut fp, file_path);
                push_str(&mut fp, ":dead_code:import:");
                push_all(&mut fp, item.path.as_slice());
                push_str(&mut fp, ":");
                push_all(&mut fp, item.name.as_slice());
                let v = Violation {
                    file: file_path.to_owned(),
                    line: item.line,
                    rule: "dead_code".to_owned(),
                    message: string_of(msg.as_slice()),
                    severity: "error".to_owned(),
                    fingerprint: string_of(fp.as_slice()),
                };
                out.push(v);
                proof {
                    assert(findings(out@) =~= before.push(v@));
                }
            }
            k = k + 1;
        }
        proof {
            assert(m.subrange(0, imports@.len() as int) =~= m);
        }
        sort_by_line(out)
    }
}

impl Rule for DeadCodeRule {
    fn check(&self, file_path: &str, code: &str, tree: &SyntaxTree) -> (r: Vec<Violation>)
        ensures
            findings(r@) == dead_code_findings(file_path@, tree),
    {
        self.check_source(file_path, code, tree)
    }
}

/// A finding is among those for unused declarations exactly when it is the
/// finding of a declaration whose symbol `used` lacks.
proof fn lemma_unused_decls_contains(file: Seq<char>, t: &SyntaxTree, d: Seq<DeclSite>, used: Set<Seq<char>>, x: FindingView)
    ensures
        unused_decls(file, t, d, used).contains(x) <==> exists|k: int|
            0 <= k < d.len() && !used.contains(decl_symbol(t, #[trigger] d[k])) && x == decl_finding(file, t, d[k]),
    decreases d.len(),
{
    if d.len() > 0 {
        let d1 = d.drop_last();
        lemma_unused_decls_contains(file, t, d1, used, x);
        let prev = unused_decls(file, t, d1, used);
        let tail = if used.contains(decl_symbol(t, d.last())) {
            Seq::<FindingView>::empty()
        } else {
            seq![decl_finding(file, t, d.last())]
        };
        let all = unused_decls(file, t, d, used);
        assert(all == prev + tail);
        if all.contains(x) {
            let q = choose|q: int| 0 <= q < all.len() && all[q] == x;
            if q < prev.len() {
                assert(prev[q] == x);
                let k = choose|k: int| 0 <= k < d1.len() && !used.contains(decl_symbol(t, #[trigger] d1[k])) && x == decl_finding(file, t, d1[k]);
                assert(d[k] == d1[k]);
            } else {
                assert(tail[q - prev.len()] == x);
                assert(d[d.len() - 1] == d.last());
            }
        }
        if exists|k: int| 0 <= k < d.len() && !used.contains(decl_symbol(t, #[trigger] d[k])) && x == decl_finding(file, t, d[k]) {
            let k = choose|k: int| 0 <= k < d.len() && !used.contains(decl_symbol(t, #[trigger] d[k])) && x == decl_finding(file, t, d[k]);
            if k < d1.len() {
                assert(d1[k] == d[k]);
                let q = choose|q: int| 0 <= q < prev.len() && prev[q] == x;
                assert(all[q] == x);
            } else {
                assert(all[prev.len() as int] == x);
            }
        }
    }
}

/// A finding is among those for unused imports exactly when it is the
/// finding of an import whose name `used` lacks.
proof fn lemma_unused_imports_contains(file: Seq<char>, t: &SyntaxTree, m: Seq<ImportSite>, used: Set<Seq<char>>, x: FindingView)
    ensures
        unused_imports(file, t, m, used).contains(x) <==> exists|k: int|
            0 <= k < m.len() && !used.contains(t.text((#[trigger] m[k]).2)) && x == import_finding(file, t, m[k]),
    decreases m.len(),
{
    if m.len() > 0 {
        let m1 = m.drop_last();
        lemma_unused_imports_contains(file, t, m1, used, x);
        let prev = unused_imports(file, t, m1, used);
        let tail = if used.contains(t.text(m.last().2)) {
            Seq::<FindingView>::empty()
        } else {
            seq![import_finding(file, t, m.last())]
        };
        let all = unused_imports(file, t, m, used);
        assert(all == prev + tail);
        if all.contains(x) {
            let q = choose|q: int| 0 <= q < all.len() && all[q] == x;
            if q < prev.len() {
                assert(prev[q] == x);
                let k = choose|k: int| 0 <= k < m1.len() && !used.contains(t.text((#[trigger] m1[k]).2)) && x == import_finding(file, t, m1[k]);
                assert(m[k] == m1[k]);
            } else {
                assert(tail[q - prev.len()] == x);
                assert(m[m.len() - 1] == m.last());
            }
        }
        if exists|k: int| 0 <= k < m.len() && !used.contains(t.text((#[trigger] m[k]).2)) && x == import_finding(file, t, m[k]) {
            let k = choose|k: int| 0 <= k < m.len() && !used.contains(t.text((#[trigger] m[k]).2)) && x == import_finding(file, t, m[k]);
            if k < m1.len() {
                assert(m1[k] == m[k]);
                let q = choose|q: int| 0 <= q < prev.len() && prev[q] == x;
                assert(all[q] == x);
            } else {
                assert(all[prev.len() as int] == x);
            }
        }
    }
}

/// The dead-code rule reports exactly the unused: a finding is reported
/// for a Java or Kotlin file if and only if it is the finding of one of the
/// file's declaration sites (see [`decl_sites`]) or import sites (see
/// [`import_sites`]) whose name no use in the file reaches; the findings
/// come in line order.
pub proof fn lemma_reports_exactly_unused(file: Seq<char>, t: &SyntaxTree, x: FindingView)
    requires
        has_extension(file, "java"@) || has_extension(file, "kt"@),
    ensures
        ({
            let java = has_extension(file, "java"@);
            let d = decl_sites(t, 0, java);
            let m = import_sites(t, 0, java);
            let used = used_subtree(t, 0, java, d, m, binding_sites(t, 0));
            dead_code_findings(file, t).contains(x) <==> (exists|k: int|
                0 <= k < d.len() && !used.contains(decl_symbol(t, #[trigger] d[k])) && x == decl_finding(file, t, d[k]))
                || (exists|k: int|
                0 <= k < m.len() && !used.contains(t.text((#[trigger] m[k]).2)) && x == import_finding(file, t, m[k]))
        }),
        is_sorted_by(dead_code_findings(file, t), by_line()),
{
    broadcast use vstd::seq_lib::group_to_multiset_ensures;

    let java = has_extension(file, "java"@);
    let d = decl_sites(t, 0, java);
    let m = import_sites(t, 0, java);
    let used = used_subtree(t, 0, java, d, m, binding_sites(t, 0));
    let a = unused_decls(file, t, d, used);
    let b = unused_imports(file, t, m, used);
    lemma_unused_decls_contains(file, t, d, used, x);
    lemma_unused_imports_contains(file, t, m, used, x);
    let u = a + b;
    assert(u.contains(x) <==> a.contains(x) || b.contains(x)) by {
        if u.contains(x) {
            let q = choose|q: int| 0 <= q < u.len() && u[q] == x;
            if q < a.len() {
                assert(a[q] == x);
            } else {
                assert(b[q - a.len()] == x);
            }
        }
        if a.contains(x) {
            let q = choose|q: int| 0 <= q < a.len() && a[q] == x;
            assert(u[q] == x);
        }
        if b.contains(x) {
            let q = choose|q: int| 0 <= q < b.len() && b[q] == x;
            assert(u[a.len() + q] == x);
        }
    }
    let less = by_line();
    assert(strict_order(less));
    lemma_sorted_by_multiset(u, less);
    lemma_sorted_by_sorted(u, less);
    let r = sorted_by(u, less);
    assert(r.to_multiset().count(x) == u.to_multiset().count(x));
    if d.len() == 0 && m.len() == 0 {
        assert(!u.contains(x));
    }
}

} // verus!
