//! Changed source files from the output of `git status --porcelain -z`.
use vstd::prelude::*;

verus! {

/// `s` split at every `sep` byte (empty pieces included).
pub open spec fn byte_pieces(s: Seq<u8>, sep: u8) -> Seq<Seq<u8>>
    decreases s.len(),
{
    if s.len() == 0 {
        seq![Seq::empty()]
    } else {
        let p = byte_pieces(s.drop_last(), sep);
        if s.last() == sep {
            p.push(Seq::empty())
        } else {
            p.update(p.len() - 1, p.last().push(s.last()))
        }
    }
}

/// The last path segment that is neither empty nor `.`: the file name that
/// `Path::file_name` reads, before `..` is ruled out.
pub open spec fn last_name(segs: Seq<Seq<u8>>) -> Option<Seq<u8>>
    decreases segs.len(),
{
    if segs.len() == 0 {
        None
    } else if segs.last().len() > 0 && segs.last() != seq![46u8] {
        Some(segs.last())
    } else {
        last_name(segs.drop_last())
    }
}

/// The extension of a file name: what follows its last `.`, when that `.`
/// is not the name's first byte.
pub open spec fn dot_ext(name: Seq<u8>) -> Option<Seq<u8>>
    decreases name.len(),
{
    if name.len() == 0 {
        None
    } else if name.last() == 46u8 {
        if name.len() >= 2 {
            Some(Seq::empty())
        } else {
            None
        }
    } else {
        match dot_ext(name.drop_last()) {
            Some(e) => Some(e.push(name.last())),
            None => None,
        }
    }
}

/// The path names a Java (`.java`) or Kotlin (`.kt`) file.
pub open spec fn is_source_path(path: Seq<u8>) -> bool {
    match last_name(byte_pieces(path, 47u8)) {
        Some(name) => name != seq![46u8, 46u8] && (dot_ext(name) == Some(seq![106u8, 97u8, 118u8, 97u8])
            || dot_ext(name) == Some(seq![107u8, 116u8])),
        None => false,
    }
}

/// The changed source paths of the status records from the `k`-th on: a
/// record shorter than four bytes is skipped; a rename or copy is followed
/// by its old path, which is skipped too; a deletion is dropped; otherwise
/// the path after the two status bytes and the space is kept when it names
/// a source file.
pub open spec fn changed_from(records: Seq<Seq<u8>>, k: int) -> Seq<Seq<u8>>
    decreases records.len() + 1 - k,
{
    if k < 0 || k >= records.len() {
        Seq::empty()
    } else {
        let r = records[k];
        if r.len() < 4 {
            changed_from(records, k + 1)
        } else {
            let status = r.subrange(0, 2);
            let next = if status.contains(82u8) || status.contains(67u8) {
                k + 2
            } else {
                k + 1
            };
            if status.contains(68u8) {
                changed_from(records, next)
            } else {
                let path = r.subrange(3, r.len() as int);
                (if is_source_path(path) {
                    seq![path]
                } else {
                    Seq::empty()
                }) + changed_from(records, next)
            }
        }
    }
}

/// The changed source paths that `git status --porcelain -z` reports.
pub open spec fn changed_paths(status: Seq<u8>) -> Seq<Seq<u8>> {
    changed_from(byte_pieces(status, 0u8), 0)
}

/// `s` split at every `sep` byte.
fn split_bytes(s: &[u8], sep: u8) -> (r: Vec<Vec<u8>>)
    ensures
        r@.map_values(|v: Vec<u8>| v@) == byte_pieces(s@, sep),
{
    let mut out: Vec<Vec<u8>> = Vec::new();
    let mut current: Vec<u8> = Vec::new();
    let mut i: usize = 0;
    assert(s@.subrange(0, 0) =~= Seq::<u8>::empty());
    while i < s.len()
        invariant
            0 <= i <= s@.len(),
            out@.map_values(|v: Vec<u8>| v@).push(current@) == byte_pieces(s@.subrange(0, i as int), sep),
        decreases s@.len() - i,
    {
        let c = s[i];
        proof {
            assert(s@.subrange(0, i + 1).drop_last() =~= s@.subrange(0, i as int));
            assert(s@.subrange(0, i + 1).last() == c);
        }
        let ghost before = out@.map_values(|v: Vec<u8>| v@);
        if c == sep {
            let done = current;
            out.push(done);
            current = Vec::new();
            proof {
                assert(out@.map_values(|v: Vec<u8>| v@) =~= before.push(done@));
                assert(out@.map_values(|v: Vec<u8>| v@).push(current@) =~= byte_pieces(s@.subrange(0, i + 1), sep));
            }
        } else {
            current.push(c);
            proof {
                assert(out@.map_values(|v: Vec<u8>| v@).push(current@) =~= byte_pieces(s@.subrange(0, i + 1), sep));
            }
        }
        i = i + 1;
    }
    let ghost before = out@.map_values(|v: Vec<u8>| v@);
    let last = current;
    out.push(last);
    proof {
        assert(out@.map_values(|v: Vec<u8>| v@) =~= before.push(last@));
        assert(s@.subrange(0, s@.len() as int) =~= s@);
    }
    out
}

/// Whether `bytes` is exactly `expected`.
fn bytes_are(bytes: &[u8], expected: &[u8]) -> (r: bool)
    ensures
        r == (bytes@ == expected@),
{
    if bytes.len() != expected.len() {
        return false;
    }
    let mut i: usize = 0;
    while i < bytes.len()
        invariant
            bytes@.len() == expected@.len(),
            0 <= i <= bytes@.len(),
            forall|j: int| 0 <= j < i ==> bytes@[j] == expected@[j],
        decreases bytes@.len() - i,
    {
        if bytes[i] != expected[i] {
            return false;
        }
        i = i + 1;
    }
    assert(bytes@ =~= expected@);
    true
}

/// Whether the path names a Java or Kotlin file.
fn source_path(path: &[u8]) -> (r: bool)
    ensures
        r == is_source_path(path@),
{
    let segs = split_bytes(path, 47u8);
    let ghost gs = segs@.map_values(|v: Vec<u8>| v@);
    let mut k: usize = segs.len();
    let mut found = false;
    assert(gs.subrange(0, gs.len() as int) =~= gs);
    while k > 0 && !found
        invariant
            gs == segs@.map_values(|v: Vec<u8>| v@),
            0 <= k <= segs@.len(),
            !found ==> last_name(gs) == last_name(gs.subrange(0, k as int)),
            found ==> k > 0 && last_name(gs) == Some(gs[k - 1]),
        decreases k + (if found { 0int } else { 1int }),
    {
        let seg = &segs[k - 1];
        proof {
            let sub = gs.subrange(0, k as int);
            assert(sub.drop_last() =~= gs.subrange(0, k - 1));
            assert(sub.last() == seg@);
            assert([46u8]@ =~= seq![46u8]);
        }
        if seg.len() > 0 && !bytes_are(seg.as_slice(), &[46u8]) {
            found = true;
        } else {
            k = k - 1;
        }
    }
    if !found {
        proof {
            assert(gs.subrange(0, 0) =~= Seq::<Seq<u8>>::empty());
        }
        return false;
    }
    let n = k - 1;
    let seg = segs[n].as_slice();
    if bytes_are(seg, &[46u8, 46u8]) {
        proof {
            assert([46u8, 46u8]@ =~= seq![46u8, 46u8]);
        }
        return false;
    }
    proof {
        assert([46u8, 46u8]@ =~= seq![46u8, 46u8]);
    }
    let mut d: usize = seg.len();
    while d > 0 && seg[d - 1] != 46u8
        invariant
            0 <= d <= seg@.len(),
            forall|j: int| d <= j < seg@.len() ==> seg@[j] != 46u8,
        decreases d,
    {
        d = d - 1;
    }
    proof {
        lemma_dot_ext(seg@, d as int);
    }
    if d < 2 {
        return false;
    }
    let java = tail_is(seg, d, &[106u8, 97u8, 118u8, 97u8]);
    let kotlin = tail_is(seg, d, &[107u8, 116u8]);
    proof {
        assert([106u8, 97u8, 118u8, 97u8]@ =~= seq![106u8, 97u8, 118u8, 97u8]);
        assert([107u8, 116u8]@ =~= seq![107u8, 116u8]);
    }
    java || kotlin
}

/// Whether `v[start..]` is exactly `expected`.
fn tail_is(v: &[u8], start: usize, expected: &[u8]) -> (r: bool)
    requires
        start <= v@.len(),
    ensures
        r == (v@.subrange(start as int, v@.len() as int) == expected@),
{
    if v.len() - start != expected.len() {
        return false;
    }
    let mut i: usize = 0;
    while i < expected.len()
        invariant
            start + expected@.len() == v@.len(),
            v@.len() == v.len(),
            0 <= i <= expected@.len(),
            forall|j: int| 0 <= j < i ==> v@[start + j] == expected@[j],
        decreases expected@.len() - i,
    {
        if v[start + i] != expected[i] {
            assert(v@.subrange(start as int, v@.len() as int)[i as int] != expected@[i as int]);
            return false;
        }
        i = i + 1;
    }
    assert(v@.subrange(start as int, v@.len() as int) =~= expected@);
    true
}

proof fn lemma_dot_ext(name: Seq<u8>, d: int)
    requires
        0 <= d <= name.len(),
        forall|j: int| d <= j < name.len() ==> name[j] != 46u8,
        d == 0 || name[d - 1] == 46u8,
    ensures
        dot_ext(name) == if d >= 2 {
            Some(name.subrange(d, name.len() as int))
        } else {
            None::<Seq<u8>>
        },
    decreases name.len(),
{
    if name.len() > d {
        lemma_dot_ext(name.drop_last(), d);
        if d >= 2 {
            assert(name.subrange(d, name.len() as int) =~= name.drop_last().subrange(d, name.len() - 1).push(name.last()));
        }
    } else if d > 0 {
        if d >= 2 {
            assert(name.subrange(d, name.len() as int) =~= Seq::<u8>::empty());
        }
    }
}

/// The changed source paths that `git status --porcelain -z` printed, in
/// order, each as the bytes git gave.
pub fn changed_source_paths(status: &[u8]) -> (r: Vec<Vec<u8>>)
    ensures
        r@.map_values(|v: Vec<u8>| v@) == changed_paths(status@),
{
    let records = split_bytes(status, 0u8);
    let ghost rs = records@.map_values(|v: Vec<u8>| v@);
    let mut out: Vec<Vec<u8>> = Vec::new();
    let mut k: usize = 0;
    while k < records.len()
        invariant
            rs == records@.map_values(|v: Vec<u8>| v@),
            rs == byte_pieces(status@, 0u8),
            0 <= k <= records@.len(),
            out@.map_values(|v: Vec<u8>| v@) + changed_from(rs, k as int) == changed_from(rs, 0),
        decreases records@.len() - k,
    {
        let r = records[k].as_slice();
        let ghost before = out@.map_values(|v: Vec<u8>| v@);
        proof {
            assert(rs[k as int] == r@);
        }
        if r.len() < 4 {
            k = k + 1;
            continue;
        }
        let s0 = r[0];
        let s1 = r[1];
        let rename = s0 == 82u8 || s1 == 82u8 || s0 == 67u8 || s1 == 67u8;
        let deleted = s0 == 68u8 || s1 == 68u8;
        proof {
            let status = r@.subrange(0, 2);
            assert(status[0] == s0 && status[1] == s1);
            assert(status.contains(82u8) == (s0 == 82u8 || s1 == 82u8)) by {
                if status.contains(82u8) {
                    let j = choose|j: int| 0 <= j < status.len() && status[j] == 82u8;
                }
                if s0 == 82u8 { assert(status[0] == 82u8); }
                if s1 == 82u8 { assert(status[1] == 82u8); }
            }
            assert(status.contains(67u8) == (s0 == 67u8 || s1 == 67u8)) by {
                if status.contains(67u8) {
                    let j = choose|j: int| 0 <= j < status.len() && status[j] == 67u8;
                }
                if s0 == 67u8 { assert(status[0] == 67u8); }
                if s1 == 67u8 { assert(status[1] == 67u8); }
            }
            assert(status.contains(68u8) == (s0 == 68u8 || s1 == 68u8)) by {
                if status.contains(68u8) {
                    let j = choose|j: int| 0 <= j < status.len() && status[j] == 68u8;
                }
                if s0 == 68u8 { assert(status[0] == 68u8); }
                if s1 == 68u8 { assert(status[1] == 68u8); }
            }
        }
        let next = if rename {
            if k + 1 < records.len() {
                k + 2
            } else {
                records.len()
            }
        } else {
            k + 1
        };
        proof {
            if rename && k + 1 >= records.len() {
                assert(changed_from(rs, next as int) =~= Seq::<Seq<u8>>::empty());
                assert(changed_from(rs, k + 2) =~= Seq::<Seq<u8>>::empty());
            }
        }
        if !deleted {
            let mut path: Vec<u8> = Vec::new();
            let mut i: usize = 3;
            while i < r.len()
                invariant
                    3 <= i <= r@.len(),
                    path@ == r@.subrange(3, i as int),
                decreases r@.len() - i,
            {
                path.push(r[i]);
                assert(r@.subrange(3, i + 1) =~= r@.subrange(3, i as int).push(r@[i as int]));
                i = i + 1;
            }
            if source_path(path.as_slice()) {
                out.push(path);
                proof {
                    assert(out@.map_values(|v: Vec<u8>| v@) =~= before.push(r@.subrange(3, r@.len() as int)));
                }
            }
            proof {
                assert(out@.map_values(|v: Vec<u8>| v@) + changed_from(rs, next as int) =~= before + changed_from(rs, k as int));
            }
        }
        k = next;
    }
    proof {
        assert(changed_from(rs, k as int) =~= Seq::<Seq<u8>>::empty());
        assert(out@.map_values(|v: Vec<u8>| v@) =~= changed_from(rs, 0));
    }
    out
}

/// A record at or after `k` of at least four bytes, with no `D` in its
/// status bytes, whose path is `p`.
pub open spec fn kept_record(records: Seq<Seq<u8>>, k: int, p: Seq<u8>) -> bool {
    exists|j: int|
        #![trigger records[j]]
        k <= j < records.len() && records[j].len() >= 4 && records[j][0] != 68u8 && records[j][1] != 68u8 && p
            == records[j].subrange(3, records[j].len() as int)
}

proof fn lemma_kept_record_earlier(records: Seq<Seq<u8>>, k: int, l: int, p: Seq<u8>)
    requires
        k <= l,
        kept_record(records, l, p),
    ensures
        kept_record(records, k, p),
{
    let j = choose|j: int|
        #![trigger records[j]]
        l <= j < records.len() && records[j].len() >= 4 && records[j][0] != 68u8 && records[j][1] != 68u8 && p
            == records[j].subrange(3, records[j].len() as int);
    assert(records[j] == records[j]);
}

/// Every path from the records from the `k`-th on is the path of a status
/// record at or after `k` whose status bytes hold no `D`.
proof fn lemma_changed_from_not_deleted(records: Seq<Seq<u8>>, k: int)
    ensures
        forall|q: int|
            0 <= q < changed_from(records, k).len() ==> kept_record(records, k, #[trigger] changed_from(records, k)[q]),
    decreases records.len() + 1 - k,
{
    if 0 <= k < records.len() {
        let r = records[k];
        let next = if r.len() < 4 {
            k + 1
        } else if r.subrange(0, 2).contains(82u8) || r.subrange(0, 2).contains(67u8) {
            k + 2
        } else {
            k + 1
        };
        lemma_changed_from_not_deleted(records, next);
        let rest = changed_from(records, next);
        let all = changed_from(records, k);
        if r.len() < 4 || r.subrange(0, 2).contains(68u8) {
            assert(all == rest);
            assert forall|q: int| 0 <= q < all.len() implies kept_record(records, k, #[trigger] all[q]) by {
                lemma_kept_record_earlier(records, k, next, rest[q]);
            }
        } else {
            let status = r.subrange(0, 2);
            assert(status[0] == r[0] && status[1] == r[1]);
            assert(r[0] != 68u8 && r[1] != 68u8) by {
                if r[0] == 68u8 {
                    assert(status.contains(68u8));
                }
                if r[1] == 68u8 {
                    assert(status[1] == 68u8);
                    assert(status.contains(68u8));
                }
            }
            let path = r.subrange(3, r.len() as int);
            let head = if is_source_path(path) {
                seq![path]
            } else {
                Seq::empty()
            };
            assert(all == head + rest);
            assert forall|q: int| 0 <= q < all.len() implies kept_record(records, k, #[trigger] all[q]) by {
                if q < head.len() {
                    assert(records[k] == r);
                    assert(all[q] == path);
                } else {
                    assert(all[q] == rest[q - head.len()]);
                    lemma_kept_record_earlier(records, k, next, rest[q - head.len()]);
                }
            }
        }
    }
}

/// Deleted files are never reported: every changed source path is the path
/// of a status record of at least four bytes whose two status bytes (the
/// index and the worktree column) hold no `D`.
pub proof fn lemma_deleted_files_never_reported(status: Seq<u8>)
    ensures
        forall|q: int|
            0 <= q < changed_paths(status).len() ==> kept_record(
                byte_pieces(status, 0u8),
                0,
                #[trigger] changed_paths(status)[q],
            ),
{
    lemma_changed_from_not_deleted(byte_pieces(status, 0u8), 0);
}

} // verus!
