//! Syntax trees of Java and Kotlin sources.
//!
//! tree-sitter parses a source; its nodes are handed over, in pre-order, as
//! plain records.  The library then validates them and builds a
//! [`SyntaxTree`]: an arena of nodes whose offsets are character positions
//! in the source, with parent links and child lists.  Every rule reads
//! sources only through this tree.
use crate::text::{contains_seq, contains_str, string_is};
use vstd::prelude::*;

verus! {

/// One tree-sitter node, as the parser reports it.
pub struct NodeRecord {
    /// The node's grammar symbol (`Node::kind`).
    pub kind: String,
    /// Whether the symbol is named in the grammar (`Node::is_named`).
    pub named: bool,
    /// The field under which the parent holds this node, if any.
    pub field: Option<String>,
    /// UTF-8 byte offset of the first byte of the node.
    pub start_byte: usize,
    /// UTF-8 byte offset just past the node.
    pub end_byte: usize,
    /// Zero-based line on which the node starts.
    pub start_row: usize,
    /// Zero-based line on which the node ends.
    pub end_row: usize,
    /// Pre-order index of the parent record; `None` for the root.
    pub parent: Option<usize>,
    /// Whether the node is an `ERROR` node.
    pub error: bool,
    /// Whether the parser inserted the node to recover from an error.
    pub missing: bool,
}

/// One node of a [`SyntaxTree`].
pub struct SyntaxNode {
    pub kind: String,
    pub named: bool,
    pub field: Option<String>,
    /// Character offset of the node's first character in the source.
    pub start: usize,
    /// Character offset just past the node.
    pub end: usize,
    pub start_row: usize,
    pub end_row: usize,
    pub parent: Option<usize>,
    /// Indices of the children, in source order.
    pub children: Vec<usize>,
    /// The node is an error or a missing node.
    pub error: bool,
}

/// A parsed source: its characters and its nodes, the root at index 0.
pub struct SyntaxTree {
    pub source: Vec<char>,
    pub nodes: Vec<SyntaxNode>,
}

/// The largest row a tree may report.  A node's row is at most the number of
/// bytes before it, and no string holds more than `isize::MAX` bytes, so no
/// parse of a real source reports a larger row; the bound keeps line
/// arithmetic exact.
pub const MAX_ROW: usize = usize::MAX / 2;

/// The number of bytes UTF-8 uses for `c`.
pub open spec fn utf8_width(c: char) -> nat {
    let u = c as u32;
    if u < 0x80 {
        1
    } else if u < 0x800 {
        2
    } else if u < 0x10000 {
        3
    } else {
        4
    }
}

/// The number of bytes UTF-8 uses for `s`.
pub open spec fn utf8_len(s: Seq<char>) -> nat
    decreases s.len(),
{
    if s.len() == 0 {
        0
    } else {
        utf8_len(s.drop_last()) + utf8_width(s.last())
    }
}

/// Character offset `at` of `source` starts at UTF-8 byte offset `byte`.
pub open spec fn offset_at(source: Seq<char>, byte: int, at: int) -> bool {
    0 <= at <= source.len() && utf8_len(source.subrange(0, at)) == byte
}

impl SyntaxTree {
    /// Structural well-formedness: a non-empty arena whose parents precede
    /// their children, whose child lists point forward, and whose ranges lie
    /// within the source.
    pub open spec fn wf(&self) -> bool {
        let n = self.nodes.len();
        &&& 0 < n < usize::MAX
        &&& self.nodes[0].parent is None
        &&& forall|i: int|
            0 <= i < n ==> ((#[trigger] self.nodes[i]).parent matches Some(p) ==> p < i)
        &&& forall|i: int, k: int|
            0 <= i < n && 0 <= k < self.nodes[i].children.len() ==> i
                < #[trigger] self.nodes[i].children[k] < n
        &&& forall|i: int|
            0 <= i < n ==> (#[trigger] self.nodes[i]).start <= self.nodes[i].end
                <= self.source.len()
        &&& forall|i: int|
            0 <= i < n ==> (#[trigger] self.nodes[i]).start_row <= self.nodes[i].end_row
                <= MAX_ROW
    }

    /// The kind of node `i`.
    pub open spec fn kind(&self, i: int) -> Seq<char> {
        self.nodes[i].kind@
    }

    /// The characters covered by node `i`.
    pub open spec fn text(&self, i: int) -> Seq<char> {
        self.source@.subrange(self.nodes[i].start as int, self.nodes[i].end as int)
    }

    /// The characters from offset `start` to offset `end`.
    pub open spec fn slice(&self, start: int, end: int) -> Seq<char> {
        self.source@.subrange(start, end)
    }

    /// Some node of the tree is an error or a missing node
    /// (tree-sitter's `Node::has_error` on the root).
    pub open spec fn has_error_spec(&self) -> bool {
        exists|i: int| 0 <= i < self.nodes.len() && (#[trigger] self.nodes[i]).error
    }

    /// Whether the parse recovered from a syntax error anywhere in the tree.
    pub fn has_error(&self) -> (r: bool)
        ensures
            r == self.has_error_spec(),
    {
        let mut i: usize = 0;
        while i < self.nodes.len()
            invariant
                0 <= i <= self.nodes.len(),
                forall|j: int| 0 <= j < i ==> !self.nodes[j].error,
            decreases self.nodes.len() - i,
        {
            if self.nodes[i].error {
                return true;
            }
            i = i + 1;
        }
        false
    }

    /// Whether the kind of node `i` is `lit`.
    pub fn kind_is(&self, i: usize, lit: &str) -> (r: bool)
        requires
            i < self.nodes.len(),
        ensures
            r == (self.kind(i as int) == lit@),
    {
        string_is(&self.nodes[i].kind, lit)
    }

    /// Node `i` is its parent's child under field `name`.
    pub open spec fn field_named(&self, i: int, name: Seq<char>) -> bool {
        self.nodes[i].field matches Some(f) && f@ == name
    }

    /// Whether node `i` is its parent's child under field `lit`.
    pub fn field_is(&self, i: usize, lit: &str) -> (r: bool)
        requires
            i < self.nodes.len(),
        ensures
            r == self.field_named(i as int, lit@),
    {
        match &self.nodes[i].field {
            Some(f) => string_is(f, lit),
            None => false,
        }
    }

    /// The characters covered by node `i`.
    pub fn text_of(&self, i: usize) -> (r: &[char])
        requires
            self.wf(),
            i < self.nodes.len(),
        ensures
            r@ == self.text(i as int),
    {
        let node = &self.nodes[i];
        slice_of(&self.source, node.start, node.end)
    }

    /// The characters between offsets `start` and `end`.
    pub fn slice_between(&self, start: usize, end: usize) -> (r: &[char])
        requires
            start <= end <= self.source.len(),
        ensures
            r@ == self.slice(start as int, end as int),
    {
        slice_of(&self.source, start, end)
    }

    /// Whether the covered text of node `i` contains `pattern`.
    pub fn text_contains(&self, i: usize, pattern: &str) -> (r: bool)
        requires
            self.wf(),
            i < self.nodes.len(),
        ensures
            r == contains_seq(self.text(i as int), pattern@),
    {
        contains_str(self.text_of(i), pattern)
    }
}

/// `v[start..end]`.
pub fn slice_of(v: &Vec<char>, start: usize, end: usize) -> (r: &[char])
    requires
        start <= end <= v@.len(),
    ensures
        r@ == v@.subrange(start as int, end as int),
{
    let all: &[char] = v.as_slice();
    &all[start..end]
}

/// `v[start..end]`.
pub fn slice_of_slice(v: &[char], start: usize, end: usize) -> (r: &[char])
    requires
        start <= end <= v@.len(),
    ensures
        r@ == v@.subrange(start as int, end as int),
{
    &v[start..end]
}

/// The children of node `i` in `tree` are exactly the nodes whose parent is
/// `i`, in increasing order.
pub open spec fn children_match_parents(tree: &SyntaxTree, i: int) -> bool {
    let ch = tree.nodes[i].children@;
    &&& forall|k1: int, k2: int| 0 <= k1 < k2 < ch.len() ==> ch[k1] < ch[k2]
    &&& forall|k: int| 0 <= k < ch.len() ==> tree.nodes[ch[k] as int].parent == Some(i as usize)
    &&& forall|j: int|
        0 <= j < tree.nodes.len() && tree.nodes[j].parent == Some(i as usize) ==> ch.contains(
            j as usize,
        )
}

/// The records describe a tree over `source`: the first record is the root,
/// every other record's parent precedes it, and every reported byte offset
/// falls on a character boundary of `source`, start before end.
pub open spec fn records_admissible(source: Seq<char>, records: Seq<NodeRecord>) -> bool {
    &&& 0 < records.len() < usize::MAX
    &&& records[0].parent is None
    &&& forall|i: int|
        0 < i < records.len() ==> ((#[trigger] records[i]).parent matches Some(p) && p < i)
    &&& forall|i: int|
        0 <= i < records.len() ==> (#[trigger] records[i]).start_row <= records[i].end_row
            <= MAX_ROW
    &&& forall|i: int|
        0 <= i < records.len() ==> exists|s: int, e: int|
            offset_at(source, (#[trigger] records[i]).start_byte as int, s) && offset_at(
                source,
                records[i].end_byte as int,
                e,
            ) && s <= e
}

/// `tree` is the tree that `records` describe over `source`.
pub open spec fn tree_models(tree: &SyntaxTree, source: Seq<char>, records: Seq<NodeRecord>) -> bool {
    &&& tree.wf()
    &&& tree.source@ == source
    &&& tree.nodes.len() == records.len()
    &&& forall|i: int|
        0 <= i < records.len() ==> {
            let n = #[trigger] tree.nodes[i];
            let r = records[i];
            &&& n.kind == r.kind
            &&& n.named == r.named
            &&& n.field == r.field
            &&& n.start_row == r.start_row
            &&& n.end_row == r.end_row
            &&& n.parent == r.parent
            &&& n.error == (r.error || r.missing)
            &&& offset_at(source, r.start_byte as int, n.start as int)
            &&& offset_at(source, r.end_byte as int, n.end as int)
        }
    &&& forall|i: int| 0 <= i < records.len() ==> children_match_parents(tree, i)
}

/// The width in bytes of `c` in UTF-8.
fn width(c: char) -> (r: usize)
    ensures
        r == utf8_width(c),
{
    let u = c as u32;
    if u < 0x80 {
        1
    } else if u < 0x800 {
        2
    } else if u < 0x10000 {
        3
    } else {
        4
    }
}

proof fn lemma_utf8_len_monotonic(s: Seq<char>, a: int, b: int)
    requires
        0 <= a < b <= s.len(),
    ensures
        utf8_len(s.subrange(0, a)) < utf8_len(s.subrange(0, b)),
    decreases b - a,
{
    assert(s.subrange(0, b).drop_last() =~= s.subrange(0, b - 1));
    if a < b - 1 {
        lemma_utf8_len_monotonic(s, a, b - 1);
    }
}

proof fn lemma_offset_unique(s: Seq<char>, b: int, c1: int, c2: int)
    requires
        offset_at(s, b, c1),
        offset_at(s, b, c2),
    ensures
        c1 == c2,
{
    if c1 < c2 {
        lemma_utf8_len_monotonic(s, c1, c2);
    } else if c2 < c1 {
        lemma_utf8_len_monotonic(s, c2, c1);
    }
}

/// The UTF-8 byte offset of every character position of `source`
/// (`r[c]` is the offset of position `c`, for `c` up to the length), or
/// `None` when the offsets do not fit in `usize`.
fn byte_offsets(source: &Vec<char>) -> (r: Option<Vec<usize>>)
    ensures
        r is None ==> utf8_len(source@) > usize::MAX,
        r matches Some(v) ==> v@.len() == source@.len() + 1 && forall|c: int|
            0 <= c <= source@.len() ==> v@[c] == utf8_len(source@.subrange(0, c)),
{
    let mut v: Vec<usize> = Vec::new();
    v.push(0);
    let mut total: usize = 0;
    let mut i: usize = 0;
    assert(source@.subrange(0, 0) =~= Seq::<char>::empty());
    while i < source.len()
        invariant
            0 <= i <= source@.len(),
            v@.len() == i + 1,
            total == utf8_len(source@.subrange(0, i as int)),
            forall|c: int| 0 <= c <= i ==> v@[c] == utf8_len(source@.subrange(0, c)),
        decreases source@.len() - i,
    {
        let w = width(source[i]);
        assert(source@.subrange(0, i + 1).drop_last() =~= source@.subrange(0, i as int));
        match total.checked_add(w) {
            Some(t) => {
                total = t;
            },
            None => {
                proof {
                    if i + 1 < source@.len() {
                        lemma_utf8_len_monotonic(source@, i + 1, source@.len() as int);
                    }
                    assert(source@.subrange(0, source@.len() as int) =~= source@);
                }
                return None;
            },
        }
        v.push(total);
        i = i + 1;
    }
    Some(v)
}

/// The character position whose byte offset is `byte`, if one is.
fn position_of(offsets: &Vec<usize>, source: Ghost<Seq<char>>, byte: usize) -> (r: Option<usize>)
    requires
        offsets@.len() == source@.len() + 1,
        forall|c: int| 0 <= c <= source@.len() ==> offsets@[c] == utf8_len(source@.subrange(0, c)),
    ensures
        r matches Some(c) ==> offset_at(source@, byte as int, c as int),
        r is None ==> forall|c: int| !offset_at(source@, byte as int, c),
{
    let mut lo: usize = 0;
    let mut hi: usize = offsets.len();
    while lo < hi
        invariant
            0 <= lo <= hi <= offsets@.len(),
            offsets@.len() == source@.len() + 1,
            forall|c: int|
                0 <= c <= source@.len() ==> offsets@[c] == utf8_len(source@.subrange(0, c)),
            forall|c: int| 0 <= c < lo ==> offsets@[c] < byte,
            forall|c: int| hi <= c < offsets@.len() ==> offsets@[c] > byte,
        decreases hi - lo,
    {
        let mid = lo + (hi - lo) / 2;
        if offsets[mid] == byte {
            return Some(mid);
        } else if offsets[mid] < byte {
            proof {
                assert forall|c: int| 0 <= c < mid + 1 implies offsets@[c] < byte by {
                    if c < mid {
                        lemma_utf8_len_monotonic(source@, c, mid as int);
                    }
                }
            }
            lo = mid + 1;
        } else {
            proof {
                assert forall|c: int| mid <= c < offsets@.len() implies offsets@[c] > byte by {
                    if c > mid {
                        lemma_utf8_len_monotonic(source@, mid as int, c);
                    }
                }
            }
            hi = mid;
        }
    }
    assert forall|c: int| !offset_at(source@, byte as int, c) by {
        if 0 <= c <= source@.len() {
            assert(offsets@[c] != byte);
        }
    }
    None
}

/// Builds the tree that `records` describe over `source`, or `None` when the
/// records are not admissible.
pub fn build_tree(source: Vec<char>, records: Vec<NodeRecord>) -> (r: Option<SyntaxTree>)
    ensures
        r is Some <==> (records_admissible(source@, records@) && utf8_len(source@) <= usize::MAX),
        r matches Some(t) ==> tree_models(&t, source@, records@),
{
    let ghost src = source@;
    let ghost recs = records@;
    let offsets = match byte_offsets(&source) {
        Some(o) => o,
        None => {
            return None;
        },
    };
    assert(source@.subrange(0, source@.len() as int) =~= source@);
    if records.len() == 0 || records.len() == usize::MAX {
        return None;
    }
    let mut nodes: Vec<SyntaxNode> = Vec::new();
    let mut i: usize = 0;
    let n = records.len();
    while i < n
        invariant
            n == records@.len(),
            0 < n < usize::MAX,
            src == source@,
            recs == records@,
            0 <= i <= n,
            nodes@.len() == i,
            offsets@.len() == source@.len() + 1,
            forall|c: int|
                0 <= c <= source@.len() ==> offsets@[c] == utf8_len(source@.subrange(0, c)),
            i > 0 ==> records@[0].parent is None,
            forall|j: int| 0 < j < i ==> ((#[trigger] records@[j]).parent matches Some(p) && p < j),
            forall|j: int|
                0 <= j < i ==> (#[trigger] records@[j]).start_row <= records@[j].end_row <= MAX_ROW,
            forall|j: int|
                0 <= j < i ==> {
                    let nd = #[trigger] nodes@[j];
                    let rc = records@[j];
                    &&& nd.kind == rc.kind
                    &&& nd.named == rc.named
                    &&& nd.field == rc.field
                    &&& nd.start_row == rc.start_row
                    &&& nd.end_row == rc.end_row
                    &&& nd.parent == rc.parent
                    &&& nd.error == (rc.error || rc.missing)
                    &&& offset_at(source@, rc.start_byte as int, nd.start as int)
                    &&& offset_at(source@, rc.end_byte as int, nd.end as int)
                    &&& nd.start <= nd.end
                },
            forall|j: int|
                0 <= j < i ==> {
                    let ch = (#[trigger] nodes@[j]).children@;
                    &&& forall|k1: int, k2: int| 0 <= k1 < k2 < ch.len() ==> ch[k1] < ch[k2]
                    &&& forall|k: int|
                        0 <= k < ch.len() ==> j < ch[k] < i && records@[ch[k] as int].parent
                            == Some(j as usize)
                    &&& forall|m: int|
                        0 <= m < i && records@[m].parent == Some(j as usize) ==> ch.contains(
                            m as usize,
                        )
                },
        decreases n - i,
    {
        let rec = &records[i];
        match rec.parent {
            None => {
                if i != 0 {
                    assert(!records_admissible(source@, records@)) by {
                        assert(records@[i as int].parent is None);
                    }
                    return None;
                }
            },
            Some(p) => {
                if i == 0 || p >= i {
                    assert(!records_admissible(source@, records@)) by {
                        assert(records@[i as int].parent == Some(p));
                    }
                    return None;
                }
            },
        }
        if rec.start_row > rec.end_row || rec.end_row > MAX_ROW {
            assert(!records_admissible(source@, records@)) by {
                assert(records@[i as int] == *rec);
            }
            return None;
        }
        let start = match position_of(&offsets, Ghost(src), rec.start_byte) {
            Some(c) => c,
            None => {
                assert(!records_admissible(source@, records@)) by {
                    assert(records@[i as int] == *rec);
                }
                return None;
            },
        };
        let end = match position_of(&offsets, Ghost(src), rec.end_byte) {
            Some(c) => c,
            None => {
                assert(!records_admissible(source@, records@)) by {
                    assert(records@[i as int] == *rec);
                }
                return None;
            },
        };
        if start > end {
            proof {
                assert forall|s1: int, e1: int|
                    offset_at(source@, rec.start_byte as int, s1) && offset_at(
                        source@,
                        rec.end_byte as int,
                        e1,
                    ) implies !(s1 <= e1) by {
                    lemma_offset_unique(source@, rec.start_byte as int, s1, start as int);
                    lemma_offset_unique(source@, rec.end_byte as int, e1, end as int);
                }
            }
            assert(!records_admissible(source@, records@)) by {
                assert(records@[i as int] == *rec);
            }
            return None;
        }
        let ghost before = nodes@;
        let node = SyntaxNode {
            kind: rec.kind.clone(),
            named: rec.named,
            field: match &rec.field {
                Some(f) => Some(f.clone()),
                None => None,
            },
            start,
            end,
            start_row: rec.start_row,
            end_row: rec.end_row,
            parent: rec.parent,
            children: Vec::new(),
            error: rec.error || rec.missing,
        };
        nodes.push(node);
        match rec.parent {
            Some(p) => {
                nodes[p].children.push(i);
                proof {
                    assert forall|j: int| 0 <= j < i + 1 implies {
                        let ch = (#[trigger] nodes@[j]).children@;
                        &&& forall|k1: int, k2: int| 0 <= k1 < k2 < ch.len() ==> ch[k1] < ch[k2]
                        &&& forall|k: int|
                            0 <= k < ch.len() ==> j < ch[k] < i + 1 && records@[ch[k] as int].parent
                                == Some(j as usize)
                        &&& forall|m: int|
                            0 <= m < i + 1 && records@[m].parent == Some(j as usize) ==> ch.contains(
                                m as usize,
                            )
                    } by {
                        if j == p {
                            let ch = nodes@[j].children@;
                            let old_ch = before[j].children@;
                            assert(ch == old_ch.push(i));
                            assert forall|m: int|
                                0 <= m < i + 1 && records@[m].parent == Some(j as usize) implies ch.contains(
                                    m as usize,
                                ) by {
                                if m == i {
                                    assert(ch[ch.len() - 1] == i);
                                } else {
                                    assert(old_ch.contains(m as usize));
                                    let k = choose|k: int| 0 <= k < old_ch.len() && old_ch[k] == m as usize;
                                    assert(ch[k] == m as usize);
                                }
                            }
                        } else if j < i {
                            assert(nodes@[j] == before[j]);
                            let ch = nodes@[j].children@;
                            assert forall|m: int|
                                0 <= m < i + 1 && records@[m].parent == Some(j as usize) implies ch.contains(
                                    m as usize,
                                ) by {
                                if m == i {
                                    assert(records@[m].parent == Some(p));
                                }
                            }
                        } else {
                            assert(nodes@[j].children@ == Seq::<usize>::empty());
                        }
                    }
                }
            },
            None => {
                proof {
                    assert forall|j: int| 0 <= j < i + 1 implies {
                        let ch = (#[trigger] nodes@[j]).children@;
                        &&& forall|m: int|
                            0 <= m < i + 1 && records@[m].parent == Some(j as usize) ==> ch.contains(
                                m as usize,
                            )
                    } by {
                        if j < i {
                            assert(nodes@[j] == before[j]);
                        }
                    }
                }
            },
        }
        i = i + 1;
    }
    let tree = SyntaxTree { source, nodes };
    proof {
        assert(offsets@[source@.len() as int] == utf8_len(source@));
        assert forall|j: int| 0 <= j < records@.len() implies exists|s: int, e: int|
            offset_at(source@, (#[trigger] records@[j]).start_byte as int, s) && offset_at(
                source@,
                records@[j].end_byte as int,
                e,
            ) && s <= e by {
            let nd = tree.nodes@[j];
            assert(offset_at(source@, records@[j].start_byte as int, nd.start as int));
            assert(offset_at(source@, records@[j].end_byte as int, nd.end as int));
        }
        assert forall|j: int| 0 <= j < records@.len() implies children_match_parents(&tree, j) by {
            let ch = tree.nodes@[j].children@;
            assert(tree.nodes@[j] == nodes@[j]);
        }
    }
    Some(tree)
}

} // verus!
