//! A binary codec for persisted assignments: the per-group candidate path
//! lists, framed as length-prefixed little-endian 64-bit words.
//!
//! The encoder's output is exactly the specified byte sequence, and the
//! decoder accepts a byte sequence only if it is exactly the encoding of
//! what it returns: whatever the decoder hands back re-encodes to the
//! bytes it read.

use vstd::prelude::*;

use crate::paths::Path;
use vstd::bytes::lemma_auto_spec_u64_to_from_le_bytes;
use vstd::bytes::spec_u64_to_le_bytes;
use vstd::bytes::u64_from_le_bytes;
use vstd::bytes::u64_to_le_bytes;

verus! {

/// The persisted result for one group: its id and its ranked candidate
/// paths, best first.
#[derive(Debug, Clone)]
pub struct Assignment {
    pub group_id: u64,
    pub paths: Vec<Path>,
}

/// The encoding of a list of edge indices: one 64-bit word each.
pub open spec fn spec_enc_edges(edges: Seq<usize>) -> Seq<u8>
    decreases edges.len(),
{
    if edges.len() == 0 {
        Seq::<u8>::empty()
    } else {
        spec_u64_to_le_bytes(edges[0] as u64) + spec_enc_edges(edges.drop_first())
    }
}

/// The encoding of one path: its three totals, then its edge count, then
/// its edges.
pub open spec fn spec_enc_path(p: Path) -> Seq<u8> {
    spec_u64_to_le_bytes(p.duration) + spec_u64_to_le_bytes(p.cost) + spec_u64_to_le_bytes(
        p.remaining_budget,
    ) + spec_u64_to_le_bytes(p.edges@.len() as u64) + spec_enc_edges(p.edges@)
}

/// The encoding of a path list.
pub open spec fn spec_enc_paths(ps: Seq<Path>) -> Seq<u8>
    decreases ps.len(),
{
    if ps.len() == 0 {
        Seq::<u8>::empty()
    } else {
        spec_enc_path(ps[0]) + spec_enc_paths(ps.drop_first())
    }
}

/// The encoding of one assignment: the group id, the path count, then the
/// paths.
pub open spec fn spec_enc_assignment(a: Assignment) -> Seq<u8> {
    spec_u64_to_le_bytes(a.group_id) + spec_u64_to_le_bytes(a.paths@.len() as u64) + spec_enc_paths(
        a.paths@,
    )
}

/// The encoding of an assignment list.
pub open spec fn spec_enc_assignment_list(s: Seq<Assignment>) -> Seq<u8>
    decreases s.len(),
{
    if s.len() == 0 {
        Seq::<u8>::empty()
    } else {
        spec_enc_assignment(s[0]) + spec_enc_assignment_list(s.drop_first())
    }
}

/// The encoding of the whole persisted state: the assignment count, then
/// the assignments.
pub open spec fn spec_encode(s: Seq<Assignment>) -> Seq<u8> {
    spec_u64_to_le_bytes(s.len() as u64) + spec_enc_assignment_list(s)
}

/// Two paths carry the same data: equal edge lists and equal totals.
pub open spec fn path_like(a: Path, b: Path) -> bool {
    &&& a.edges@ == b.edges@
    &&& a.duration == b.duration
    &&& a.cost == b.cost
    &&& a.remaining_budget == b.remaining_budget
}

/// Two assignments carry the same data, path by path.
pub open spec fn assignment_like(a: Assignment, b: Assignment) -> bool {
    &&& a.group_id == b.group_id
    &&& a.paths@.len() == b.paths@.len()
    &&& forall|j: int| 0 <= j < a.paths@.len() ==> path_like(#[trigger] a.paths@[j], b.paths@[j])
}

/// Two assignment lists carry the same data, entry by entry.
pub open spec fn assignments_like(a: Seq<Assignment>, b: Seq<Assignment>) -> bool {
    &&& a.len() == b.len()
    &&& forall|i: int| 0 <= i < a.len() ==> assignment_like(#[trigger] a[i], b[i])
}

/// An edge list encodes to eight bytes per entry.
proof fn lemma_enc_edges_len(s: Seq<usize>)
    ensures
        spec_enc_edges(s).len() == 8 * s.len(),
    decreases s.len(),
{
    lemma_auto_spec_u64_to_from_le_bytes();
    if s.len() > 0 {
        lemma_enc_edges_len(s.drop_first());
    }
}

/// A path encodes to its four header words plus its edge words.
proof fn lemma_enc_path_len(p: Path)
    ensures
        spec_enc_path(p).len() == 32 + 8 * p.edges@.len(),
{
    lemma_auto_spec_u64_to_from_le_bytes();
    lemma_enc_edges_len(p.edges@);
}

/// Splitting an edge-list encoding at entry `q`.
proof fn lemma_enc_edges_peel(s: Seq<usize>, q: int)
    requires
        0 <= q < s.len(),
    ensures
        spec_enc_edges(s.skip(q)) == spec_u64_to_le_bytes(s[q] as u64) + spec_enc_edges(
            s.skip(q + 1),
        ),
{
    assert(s.skip(q).len() > 0);
    assert(s.skip(q)[0] == s[q]);
    assert(s.skip(q).drop_first() =~= s.skip(q + 1));
}

/// Splitting a path-list encoding at entry `j`.
proof fn lemma_enc_paths_peel(s: Seq<Path>, j: int)
    requires
        0 <= j < s.len(),
    ensures
        spec_enc_paths(s.skip(j)) == spec_enc_path(s[j]) + spec_enc_paths(s.skip(j + 1)),
{
    assert(s.skip(j).len() > 0);
    assert(s.skip(j)[0] == s[j]);
    assert(s.skip(j).drop_first() =~= s.skip(j + 1));
}

/// Splitting an assignment-list encoding at entry `i`.
proof fn lemma_enc_assignment_list_peel(s: Seq<Assignment>, i: int)
    requires
        0 <= i < s.len(),
    ensures
        spec_enc_assignment_list(s.skip(i)) == spec_enc_assignment(s[i])
            + spec_enc_assignment_list(s.skip(i + 1)),
{
    assert(s.skip(i).len() > 0);
    assert(s.skip(i)[0] == s[i]);
    assert(s.skip(i).drop_first() =~= s.skip(i + 1));
}

/// Reading off one leading eight-byte word of a suffix.
proof fn lemma_take_word(b: Seq<u8>, pos: int, w: Seq<u8>, tail: Seq<u8>)
    requires
        0 <= pos <= b.len(),
        w.len() == 8,
        b.skip(pos) == w + tail,
    ensures
        pos + 8 <= b.len(),
        b.subrange(pos, pos + 8) == w,
        b.skip(pos + 8) == tail,
{
    assert(b.skip(pos).len() == b.len() - pos);
    assert forall|m: int| 0 <= m < 8 implies b.subrange(pos, pos + 8)[m] == w[m] by {
        assert(b.skip(pos)[m] == (w + tail)[m]);
    }
    assert(b.subrange(pos, pos + 8) =~= w);
    assert forall|m: int| 0 <= m < tail.len() implies b.skip(pos + 8)[m] == tail[m] by {
        assert(b.skip(pos + 8)[m] == b[pos + 8 + m]);
        assert(b.skip(pos)[m + 8] == b[pos + 8 + m]);
        assert(b.skip(pos)[m + 8] == (w + tail)[m + 8]);
        assert((w + tail)[m + 8] == tail[m]);
    }
    assert(b.skip(pos + 8) =~= tail);
}

/// What a suffix that starts with a path's encoding pins down: the four
/// header words, and the edge words after them.
proof fn lemma_path_header(b: Seq<u8>, pos: int, p: Path, rest: Seq<u8>)
    requires
        0 <= pos <= b.len(),
        b.skip(pos) == spec_enc_path(p) + rest,
    ensures
        pos + 32 + 8 * p.edges@.len() + rest.len() == b.len(),
        b.subrange(pos, pos + 8) == spec_u64_to_le_bytes(p.duration),
        b.subrange(pos + 8, pos + 16) == spec_u64_to_le_bytes(p.cost),
        b.subrange(pos + 16, pos + 24) == spec_u64_to_le_bytes(p.remaining_budget),
        b.subrange(pos + 24, pos + 32) == spec_u64_to_le_bytes(p.edges@.len() as u64),
        b.skip(pos + 32) == spec_enc_edges(p.edges@) + rest,
{
    lemma_auto_spec_u64_to_from_le_bytes();
    lemma_enc_edges_len(p.edges@);
    let w1 = spec_u64_to_le_bytes(p.duration);
    let w2 = spec_u64_to_le_bytes(p.cost);
    let w3 = spec_u64_to_le_bytes(p.remaining_budget);
    let w4 = spec_u64_to_le_bytes(p.edges@.len() as u64);
    let ee = spec_enc_edges(p.edges@);
    assert(b.skip(pos) =~= w1 + (w2 + (w3 + (w4 + (ee + rest)))));
    lemma_take_word(b, pos, w1, w2 + (w3 + (w4 + (ee + rest))));
    lemma_take_word(b, pos + 8, w2, w3 + (w4 + (ee + rest)));
    lemma_take_word(b, pos + 16, w3, w4 + (ee + rest));
    lemma_take_word(b, pos + 24, w4, ee + rest);
}

/// What a suffix that starts with an assignment's encoding pins down: the
/// two header words, and the path encodings after them.
proof fn lemma_assignment_header(b: Seq<u8>, pos: int, a: Assignment, rest: Seq<u8>)
    requires
        0 <= pos <= b.len(),
        b.skip(pos) == spec_enc_assignment(a) + rest,
    ensures
        pos + 16 <= b.len(),
        b.subrange(pos, pos + 8) == spec_u64_to_le_bytes(a.group_id),
        b.subrange(pos + 8, pos + 16) == spec_u64_to_le_bytes(a.paths@.len() as u64),
        b.skip(pos + 16) == spec_enc_paths(a.paths@) + rest,
{
    lemma_auto_spec_u64_to_from_le_bytes();
    let w1 = spec_u64_to_le_bytes(a.group_id);
    let w2 = spec_u64_to_le_bytes(a.paths@.len() as u64);
    let pe = spec_enc_paths(a.paths@);
    assert(b.skip(pos) =~= w1 + (w2 + (pe + rest)));
    lemma_take_word(b, pos, w1, w2 + (pe + rest));
    lemma_take_word(b, pos + 8, w2, pe + rest);
}

/// Appending an edge index appends its word to the encoding.
proof fn lemma_enc_edges_push(edges: Seq<usize>, e: usize)
    ensures
        spec_enc_edges(edges.push(e)) == spec_enc_edges(edges) + spec_u64_to_le_bytes(e as u64),
    decreases edges.len(),
{
    if edges.len() == 0 {
        assert(edges.push(e).drop_first() =~= Seq::<usize>::empty());
        assert(spec_enc_edges(Seq::<usize>::empty()) == Seq::<u8>::empty());
        assert(spec_enc_edges(edges.push(e)) =~= spec_u64_to_le_bytes(e as u64));
        assert(spec_enc_edges(edges) + spec_u64_to_le_bytes(e as u64) =~= spec_u64_to_le_bytes(
            e as u64,
        ));
    } else {
        assert(edges.push(e).drop_first() =~= edges.drop_first().push(e));
        lemma_enc_edges_push(edges.drop_first(), e);
        assert(spec_enc_edges(edges.push(e)) =~= spec_enc_edges(edges) + spec_u64_to_le_bytes(
            e as u64,
        ));
    }
}

/// Appending a path appends its encoding.
proof fn lemma_enc_paths_push(ps: Seq<Path>, p: Path)
    ensures
        spec_enc_paths(ps.push(p)) == spec_enc_paths(ps) + spec_enc_path(p),
    decreases ps.len(),
{
    if ps.len() == 0 {
        assert(ps.push(p).drop_first() =~= Seq::<Path>::empty());
        assert(spec_enc_paths(Seq::<Path>::empty()) == Seq::<u8>::empty());
        assert(spec_enc_paths(ps.push(p)) =~= spec_enc_path(p));
        assert(spec_enc_paths(ps) + spec_enc_path(p) =~= spec_enc_path(p));
    } else {
        assert(ps.push(p).drop_first() =~= ps.drop_first().push(p));
        lemma_enc_paths_push(ps.drop_first(), p);
        assert(spec_enc_paths(ps.push(p)) =~= spec_enc_paths(ps) + spec_enc_path(p));
    }
}

/// Appending an assignment appends its encoding.
proof fn lemma_enc_assignment_list_push(s: Seq<Assignment>, a: Assignment)
    ensures
        spec_enc_assignment_list(s.push(a)) == spec_enc_assignment_list(s) + spec_enc_assignment(
            a,
        ),
    decreases s.len(),
{
    if s.len() == 0 {
        assert(s.push(a).drop_first() =~= Seq::<Assignment>::empty());
        assert(spec_enc_assignment_list(Seq::<Assignment>::empty()) == Seq::<u8>::empty());
        assert(spec_enc_assignment_list(s.push(a)) =~= spec_enc_assignment(a));
        assert(spec_enc_assignment_list(s) + spec_enc_assignment(a) =~= spec_enc_assignment(a));
    } else {
        assert(s.push(a).drop_first() =~= s.drop_first().push(a));
        lemma_enc_assignment_list_push(s.drop_first(), a);
        assert(spec_enc_assignment_list(s.push(a)) =~= spec_enc_assignment_list(s)
            + spec_enc_assignment(a));
    }
}

/// Appends a 64-bit word to the output.
fn put_u64(out: &mut Vec<u8>, x: u64)
    ensures
        final(out)@ == old(out)@ + spec_u64_to_le_bytes(x),
{
    let bytes = u64_to_le_bytes(x);
    let n = bytes.len();
    let ghost base = out@;
    for i in 0..n
        invariant
            n == bytes@.len(),
            bytes@ == spec_u64_to_le_bytes(x),
            out@ == base + bytes@.subrange(0, i as int),
    {
        out.push(bytes[i]);
        proof {
            assert(out@ =~= base + bytes@.subrange(0, i + 1));
        }
    }
    proof {
        assert(out@ =~= base + bytes@);
    }
}

/// Serializes the assignments. The output is exactly the specified
/// encoding of the input.
pub fn encode_assignments(assignments: &Vec<Assignment>) -> (out: Vec<u8>)
    requires
        assignments@.len() <= u64::MAX,
        forall|i: int|
            0 <= i < assignments@.len() ==> (#[trigger] assignments@[i]).paths@.len() <= u64::MAX,
        forall|i: int, j: int|
            0 <= i < assignments@.len() && 0 <= j < (#[trigger] assignments@[i]).paths@.len() ==> (
            #[trigger] assignments@[i].paths@[j]).edges@.len() <= u64::MAX,
    ensures
        out@ == spec_encode(assignments@),
{
    let mut out: Vec<u8> = Vec::new();
    put_u64(&mut out, assignments.len() as u64);
    let na = assignments.len();
    let ghost head = out@;
    for i in 0..na
        invariant
            na == assignments@.len(),
            head == spec_u64_to_le_bytes(assignments@.len() as u64),
            forall|ii: int|
                0 <= ii < assignments@.len() ==> (#[trigger] assignments@[ii]).paths@.len()
                    <= u64::MAX,
            forall|ii: int, j: int|
                0 <= ii < assignments@.len() && 0 <= j < (
                #[trigger] assignments@[ii]).paths@.len() ==> (
                #[trigger] assignments@[ii].paths@[j]).edges@.len() <= u64::MAX,
            out@ == head + spec_enc_assignment_list(assignments@.subrange(0, i as int)),
    {
        let a = &assignments[i];
        put_u64(&mut out, a.group_id);
        put_u64(&mut out, a.paths.len() as u64);
        let np = a.paths.len();
        let ghost mid = out@;
        for j in 0..np
            invariant
                np == a.paths@.len(),
                a == &assignments@[i as int],
                forall|jj: int|
                    0 <= jj < a.paths@.len() ==> (#[trigger] a.paths@[jj]).edges@.len() <= u64::MAX,
                out@ == mid + spec_enc_paths(a.paths@.subrange(0, j as int)),
        {
            let p = &a.paths[j];
            put_u64(&mut out, p.duration);
            put_u64(&mut out, p.cost);
            put_u64(&mut out, p.remaining_budget);
            put_u64(&mut out, p.edges.len() as u64);
            let ne = p.edges.len();
            let ghost pmid = out@;
            for q in 0..ne
                invariant
                    ne == p.edges@.len(),
                    p == &a.paths@[j as int],
                    out@ == pmid + spec_enc_edges(p.edges@.subrange(0, q as int)),
            {
                put_u64(&mut out, p.edges[q] as u64);
                proof {
                    assert(p.edges@.subrange(0, q + 1) =~= p.edges@.subrange(0, q as int).push(
                        p.edges@[q as int],
                    ));
                    lemma_enc_edges_push(p.edges@.subrange(0, q as int), p.edges@[q as int]);
                    assert(out@ =~= pmid + spec_enc_edges(p.edges@.subrange(0, q + 1)));
                }
            }
            proof {
                assert(p.edges@.subrange(0, ne as int) =~= p.edges@);
                assert(a.paths@.subrange(0, j + 1) =~= a.paths@.subrange(0, j as int).push(
                    a.paths@[j as int],
                ));
                lemma_enc_paths_push(a.paths@.subrange(0, j as int), a.paths@[j as int]);
                assert(out@ =~= mid + spec_enc_paths(a.paths@.subrange(0, j + 1)));
            }
        }
        proof {
            assert(a.paths@.subrange(0, np as int) =~= a.paths@);
            assert(out@ =~= mid + spec_enc_paths(a.paths@));
            assert(assignments@.subrange(0, i + 1) =~= assignments@.subrange(0, i as int).push(
                assignments@[i as int],
            ));
            lemma_enc_assignment_list_push(
                assignments@.subrange(0, i as int),
                assignments@[i as int],
            );
            assert(out@ =~= head + spec_enc_assignment_list(assignments@.subrange(0, i + 1)));
        }
    }
    proof {
        assert(assignments@.subrange(0, na as int) =~= assignments@);
        assert(out@ =~= spec_encode(assignments@));
    }
    out
}

/// Concatenation of byte sequences is associative.
proof fn lemma_assoc(a: Seq<u8>, b: Seq<u8>, c: Seq<u8>)
    ensures
        (a + b) + c == a + (b + c),
{
    assert((a + b) + c =~= a + (b + c));
}

/// Concatenating adjacent slices of a byte sequence.
proof fn lemma_split(b: Seq<u8>, x: int, y: int, z: int)
    requires
        0 <= x <= y <= z <= b.len(),
    ensures
        b.subrange(x, z) == b.subrange(x, y) + b.subrange(y, z),
{
    assert(b.subrange(x, z) =~= b.subrange(x, y) + b.subrange(y, z));
}

/// Reads the 64-bit word at `pos`. The bytes read re-encode to the value.
fn get_u64(bytes: &Vec<u8>, pos: usize) -> (r: Option<(u64, usize)>)
    ensures
        match r {
            Some(vp) => {
                &&& pos + 8 <= bytes@.len()
                &&& vp.1 == pos + 8
                &&& spec_u64_to_le_bytes(vp.0) == bytes@.subrange(pos as int, pos + 8)
            },
            None => pos + 8 > bytes@.len(),
        },
{
    let blen = bytes.len();
    if blen < 8 || pos > blen - 8 {
        return None;
    }
    let mut word: Vec<u8> = Vec::new();
    for i in 0..8usize
        invariant
            blen == bytes@.len(),
            pos + 8 <= blen,
            word@ == bytes@.subrange(pos as int, pos + i),
    {
        word.push(bytes[pos + i]);
        proof {
            assert(word@ =~= bytes@.subrange(pos as int, pos + i + 1));
        }
    }
    let v = u64_from_le_bytes(&word);
    proof {
        lemma_auto_spec_u64_to_from_le_bytes();
    }
    Some((v, pos + 8))
}

/// Reads one path starting at `pos`. The bytes consumed are exactly the
/// encoding of the returned path; and whenever the suffix at `pos` begins
/// with the encoding of some path, the read succeeds and returns exactly
/// that path, consuming exactly its encoding.
fn decode_path(bytes: &Vec<u8>, pos: usize) -> (r: Option<(Path, usize)>)
    requires
        pos <= bytes@.len(),
    ensures
        r matches Some(pp) ==> {
            &&& pos <= pp.1 <= bytes@.len()
            &&& bytes@.subrange(pos as int, pp.1 as int) == spec_enc_path(pp.0)
        },
        forall|p: Path, rest: Seq<u8>|
            bytes@.skip(pos as int) == #[trigger] (spec_enc_path(p) + rest) ==> {
                &&& r matches Some(pp)
                &&& path_like(pp.0, p)
                &&& pp.1 <= bytes@.len()
                &&& bytes@.skip(pp.1 as int) == rest
            },
{
    let dur = match get_u64(bytes, pos) {
        Some(vp) => vp,
        None => {
            proof {
                assert forall|p: Path, rest: Seq<u8>|
                    bytes@.skip(pos as int) != (spec_enc_path(p) + rest) by {
                    if bytes@.skip(pos as int) == spec_enc_path(p) + rest {
                        lemma_path_header(bytes@, pos as int, p, rest);
                    }
                }
            }
            return None;
        },
    };
    let cost = match get_u64(bytes, dur.1) {
        Some(vp) => vp,
        None => {
            proof {
                assert forall|p: Path, rest: Seq<u8>|
                    bytes@.skip(pos as int) != (spec_enc_path(p) + rest) by {
                    if bytes@.skip(pos as int) == spec_enc_path(p) + rest {
                        lemma_path_header(bytes@, pos as int, p, rest);
                    }
                }
            }
            return None;
        },
    };
    let rb = match get_u64(bytes, cost.1) {
        Some(vp) => vp,
        None => {
            proof {
                assert forall|p: Path, rest: Seq<u8>|
                    bytes@.skip(pos as int) != (spec_enc_path(p) + rest) by {
                    if bytes@.skip(pos as int) == spec_enc_path(p) + rest {
                        lemma_path_header(bytes@, pos as int, p, rest);
                    }
                }
            }
            return None;
        },
    };
    let ec = match get_u64(bytes, rb.1) {
        Some(vp) => vp,
        None => {
            proof {
                assert forall|p: Path, rest: Seq<u8>|
                    bytes@.skip(pos as int) != (spec_enc_path(p) + rest) by {
                    if bytes@.skip(pos as int) == spec_enc_path(p) + rest {
                        lemma_path_header(bytes@, pos as int, p, rest);
                    }
                }
            }
            return None;
        },
    };
    proof {
        lemma_auto_spec_u64_to_from_le_bytes();
        assert forall|p: Path, rest: Seq<u8>|
            bytes@.skip(pos as int) == #[trigger] (spec_enc_path(p) + rest) implies {
            &&& dur.0 == p.duration
            &&& cost.0 == p.cost
            &&& rb.0 == p.remaining_budget
            &&& ec.0 == p.edges@.len() as u64
            &&& p.edges@.len() <= usize::MAX
            &&& bytes@.skip(ec.1 as int) == spec_enc_edges(p.edges@) + rest
        } by {
            lemma_path_header(bytes@, pos as int, p, rest);
            vstd::std_specs::vec::axiom_spec_len(&p.edges);
        }
    }
    if ec.0 > (usize::MAX as u64) {
        return None;
    }
    let ne = ec.0 as usize;
    let mut edges: Vec<usize> = Vec::new();
    let mut epos = ec.1;
    proof {
        assert(spec_enc_edges(Seq::<usize>::empty()) == Seq::<u8>::empty());
        lemma_split(bytes@, pos as int, dur.1 as int, cost.1 as int);
        lemma_split(bytes@, pos as int, cost.1 as int, rb.1 as int);
        lemma_split(bytes@, pos as int, rb.1 as int, ec.1 as int);
        assert(bytes@.subrange(pos as int, ec.1 as int) =~= spec_u64_to_le_bytes(dur.0)
            + spec_u64_to_le_bytes(cost.0) + spec_u64_to_le_bytes(rb.0) + spec_u64_to_le_bytes(
            ec.0,
        ) + spec_enc_edges(edges@));
        assert forall|p: Path, rest: Seq<u8>|
            bytes@.skip(pos as int) == #[trigger] (spec_enc_path(p) + rest) implies {
            &&& edges@ == p.edges@.subrange(0, 0)
            &&& bytes@.skip(epos as int) == spec_enc_edges(p.edges@.skip(0)) + rest
        } by {
            assert(edges@ =~= p.edges@.subrange(0, 0));
            assert(p.edges@.skip(0) =~= p.edges@);
        }
    }
    for q in 0..ne
        invariant
            pos <= bytes@.len(),
            edges@.len() == q,
            ne as u64 == ec.0,
            pos <= epos <= bytes@.len(),
            bytes@.subrange(pos as int, epos as int) =~= spec_u64_to_le_bytes(dur.0)
                + spec_u64_to_le_bytes(cost.0) + spec_u64_to_le_bytes(rb.0) + spec_u64_to_le_bytes(
                ec.0,
            ) + spec_enc_edges(edges@),
            forall|p: Path, rest: Seq<u8>|
                bytes@.skip(pos as int) == #[trigger] (spec_enc_path(p) + rest) ==> {
                    &&& dur.0 == p.duration
                    &&& cost.0 == p.cost
                    &&& rb.0 == p.remaining_budget
                    &&& ec.0 == p.edges@.len() as u64
                    &&& q <= p.edges@.len()
                    &&& edges@ == p.edges@.subrange(0, q as int)
                    &&& bytes@.skip(epos as int) == spec_enc_edges(p.edges@.skip(q as int)) + rest
                },
    {
        let ev = match get_u64(bytes, epos) {
            Some(vp) => vp,
            None => {
                proof {
                    lemma_auto_spec_u64_to_from_le_bytes();
                    assert forall|p: Path, rest: Seq<u8>|
                        bytes@.skip(pos as int) != (spec_enc_path(p) + rest) by {
                        if bytes@.skip(pos as int) == spec_enc_path(p) + rest {
                            assert(q < p.edges@.len());
                            lemma_enc_edges_peel(p.edges@, q as int);
                            lemma_assoc(
                                spec_u64_to_le_bytes(p.edges@[q as int] as u64),
                                spec_enc_edges(p.edges@.skip(q + 1)),
                                rest,
                            );
                            lemma_take_word(
                                bytes@,
                                epos as int,
                                spec_u64_to_le_bytes(p.edges@[q as int] as u64),
                                spec_enc_edges(p.edges@.skip(q + 1)) + rest,
                            );
                        }
                    }
                }
                return None;
            },
        };
        proof {
            lemma_auto_spec_u64_to_from_le_bytes();
            assert forall|p: Path, rest: Seq<u8>|
                bytes@.skip(pos as int) == #[trigger] (spec_enc_path(p) + rest) implies {
                &&& ev.0 == p.edges@[q as int] as u64
                &&& ev.0 <= usize::MAX as u64
                &&& bytes@.skip(ev.1 as int) == spec_enc_edges(p.edges@.skip(q + 1)) + rest
            } by {
                assert(q < p.edges@.len());
                lemma_enc_edges_peel(p.edges@, q as int);
                lemma_assoc(
                    spec_u64_to_le_bytes(p.edges@[q as int] as u64),
                    spec_enc_edges(p.edges@.skip(q + 1)),
                    rest,
                );
                lemma_take_word(
                    bytes@,
                    epos as int,
                    spec_u64_to_le_bytes(p.edges@[q as int] as u64),
                    spec_enc_edges(p.edges@.skip(q + 1)) + rest,
                );
            }
        }
        if ev.0 > (usize::MAX as u64) {
            return None;
        }
        let ghost edges_old = edges@;
        edges.push(ev.0 as usize);
        proof {
            lemma_enc_edges_push(edges_old, (ev.0 as usize));
            assert(edges_old.push((ev.0 as usize)) =~= edges@);
            lemma_split(bytes@, pos as int, epos as int, ev.1 as int);
            let prefix4 = spec_u64_to_le_bytes(dur.0) + spec_u64_to_le_bytes(cost.0)
                + spec_u64_to_le_bytes(rb.0) + spec_u64_to_le_bytes(ec.0);
            lemma_assoc(prefix4, spec_enc_edges(edges_old), spec_u64_to_le_bytes(ev.0));
            assert(bytes@.subrange(pos as int, ev.1 as int) == prefix4 + spec_enc_edges(edges@));
            assert forall|p: Path, rest: Seq<u8>|
                bytes@.skip(pos as int) == #[trigger] (spec_enc_path(p) + rest) implies edges@
                == p.edges@.subrange(0, q + 1) by {
                assert(edges_old == p.edges@.subrange(0, q as int));
                assert(p.edges@.subrange(0, q as int).push(p.edges@[q as int]) =~= p.edges@.subrange(
                    0,
                    q + 1,
                ));
            }
        }
        epos = ev.1;
    }
    if edges.len() as u64 != ec.0 {
        proof {
            assert forall|p: Path, rest: Seq<u8>|
                bytes@.skip(pos as int) != (spec_enc_path(p) + rest) by {
                if bytes@.skip(pos as int) == spec_enc_path(p) + rest {
                    assert(ne == p.edges@.len());
                }
            }
        }
        return None;
    }
    let p = Path { edges, duration: dur.0, cost: cost.0, remaining_budget: rb.0 };
    proof {
        assert(bytes@.subrange(pos as int, epos as int) =~= spec_enc_path(p));
        assert forall|hp: Path, rest: Seq<u8>|
            bytes@.skip(pos as int) == #[trigger] (spec_enc_path(hp) + rest) implies {
            &&& path_like(p, hp)
            &&& bytes@.skip(epos as int) == rest
        } by {
            assert(p.edges@ == hp.edges@.subrange(0, ne as int));
            assert(hp.edges@.subrange(0, ne as int) =~= hp.edges@);
            assert(hp.edges@.skip(ne as int) =~= Seq::<usize>::empty());
            assert(spec_enc_edges(Seq::<usize>::empty()) == Seq::<u8>::empty());
            assert(bytes@.skip(epos as int) =~= rest);
        }
    }
    Some((p, epos))
}

/// Reads one assignment starting at `pos`. The bytes consumed are
/// exactly the encoding of the returned assignment; and whenever the
/// suffix at `pos` begins with the encoding of some assignment, the read
/// succeeds and returns exactly that assignment.
fn decode_assignment(bytes: &Vec<u8>, pos: usize) -> (r: Option<(Assignment, usize)>)
    requires
        pos <= bytes@.len(),
    ensures
        r matches Some(ap) ==> {
            &&& pos <= ap.1 <= bytes@.len()
            &&& bytes@.subrange(pos as int, ap.1 as int) == spec_enc_assignment(ap.0)
        },
        forall|a: Assignment, rest: Seq<u8>|
            bytes@.skip(pos as int) == #[trigger] (spec_enc_assignment(a) + rest) ==> {
                &&& r matches Some(ap)
                &&& assignment_like(ap.0, a)
                &&& ap.1 <= bytes@.len()
                &&& bytes@.skip(ap.1 as int) == rest
            },
{
    let gid = match get_u64(bytes, pos) {
        Some(vp) => vp,
        None => {
            proof {
                assert forall|a: Assignment, rest: Seq<u8>|
                    bytes@.skip(pos as int) != (spec_enc_assignment(a) + rest) by {
                    if bytes@.skip(pos as int) == spec_enc_assignment(a) + rest {
                        lemma_assignment_header(bytes@, pos as int, a, rest);
                    }
                }
            }
            return None;
        },
    };
    let pc = match get_u64(bytes, gid.1) {
        Some(vp) => vp,
        None => {
            proof {
                assert forall|a: Assignment, rest: Seq<u8>|
                    bytes@.skip(pos as int) != (spec_enc_assignment(a) + rest) by {
                    if bytes@.skip(pos as int) == spec_enc_assignment(a) + rest {
                        lemma_assignment_header(bytes@, pos as int, a, rest);
                    }
                }
            }
            return None;
        },
    };
    proof {
        lemma_auto_spec_u64_to_from_le_bytes();
        assert forall|a: Assignment, rest: Seq<u8>|
            bytes@.skip(pos as int) == #[trigger] (spec_enc_assignment(a) + rest) implies {
            &&& gid.0 == a.group_id
            &&& pc.0 == a.paths@.len() as u64
            &&& a.paths@.len() <= usize::MAX
            &&& bytes@.skip(pc.1 as int) == spec_enc_paths(a.paths@) + rest
        } by {
            lemma_assignment_header(bytes@, pos as int, a, rest);
            vstd::std_specs::vec::axiom_spec_len(&a.paths);
        }
    }
    if pc.0 > (usize::MAX as u64) {
        return None;
    }
    let np = pc.0 as usize;
    let mut paths: Vec<Path> = Vec::new();
    let mut ppos = pc.1;
    proof {
        assert(spec_enc_paths(Seq::<Path>::empty()) == Seq::<u8>::empty());
        lemma_split(bytes@, pos as int, gid.1 as int, pc.1 as int);
        assert(bytes@.subrange(pos as int, pc.1 as int) =~= spec_u64_to_le_bytes(gid.0)
            + spec_u64_to_le_bytes(pc.0) + spec_enc_paths(paths@));
        assert forall|a: Assignment, rest: Seq<u8>|
            bytes@.skip(pos as int) == #[trigger] (spec_enc_assignment(a) + rest) implies {
            &&& bytes@.skip(ppos as int) == spec_enc_paths(a.paths@.skip(0)) + rest
        } by {
            assert(a.paths@.skip(0) =~= a.paths@);
        }
    }
    for j in 0..np
        invariant
            pos <= bytes@.len(),
            paths@.len() == j,
            np as u64 == pc.0,
            pos <= ppos <= bytes@.len(),
            bytes@.subrange(pos as int, ppos as int) =~= spec_u64_to_le_bytes(gid.0)
                + spec_u64_to_le_bytes(pc.0) + spec_enc_paths(paths@),
            forall|a: Assignment, rest: Seq<u8>|
                bytes@.skip(pos as int) == #[trigger] (spec_enc_assignment(a) + rest) ==> {
                    &&& gid.0 == a.group_id
                    &&& pc.0 == a.paths@.len() as u64
                    &&& j <= a.paths@.len()
                    &&& forall|jj: int|
                        0 <= jj < j ==> path_like(#[trigger] paths@[jj], a.paths@[jj])
                    &&& bytes@.skip(ppos as int) == spec_enc_paths(a.paths@.skip(j as int)) + rest
                },
    {
        let pp = match decode_path(bytes, ppos) {
            Some(vp) => vp,
            None => {
                proof {
                    assert forall|a: Assignment, rest: Seq<u8>|
                        bytes@.skip(pos as int) != (spec_enc_assignment(a) + rest) by {
                        if bytes@.skip(pos as int) == spec_enc_assignment(a) + rest {
                            assert(j < a.paths@.len());
                            lemma_enc_paths_peel(a.paths@, j as int);
                            lemma_assoc(
                                spec_enc_path(a.paths@[j as int]),
                                spec_enc_paths(a.paths@.skip(j + 1)),
                                rest,
                            );
                            assert(bytes@.skip(ppos as int) == spec_enc_path(a.paths@[j as int]) + (
                            spec_enc_paths(a.paths@.skip(j + 1)) + rest));
                        }
                    }
                }
                return None;
            },
        };
        proof {
            assert forall|a: Assignment, rest: Seq<u8>|
                bytes@.skip(pos as int) == #[trigger] (spec_enc_assignment(a) + rest) implies {
                &&& path_like(pp.0, a.paths@[j as int])
                &&& bytes@.skip(pp.1 as int) == spec_enc_paths(a.paths@.skip(j + 1)) + rest
            } by {
                assert(j < a.paths@.len());
                lemma_enc_paths_peel(a.paths@, j as int);
                lemma_assoc(
                    spec_enc_path(a.paths@[j as int]),
                    spec_enc_paths(a.paths@.skip(j + 1)),
                    rest,
                );
                assert(bytes@.skip(ppos as int) == spec_enc_path(a.paths@[j as int]) + (
                spec_enc_paths(a.paths@.skip(j + 1)) + rest));
            }
        }
        let ghost paths_old = paths@;
        let ghost newp = pp.0;
        paths.push(pp.0);
        proof {
            lemma_enc_paths_push(paths_old, newp);
            assert(paths_old.push(newp) =~= paths@);
            lemma_split(bytes@, pos as int, ppos as int, pp.1 as int);
            let prefix2 = spec_u64_to_le_bytes(gid.0) + spec_u64_to_le_bytes(pc.0);
            lemma_assoc(prefix2, spec_enc_paths(paths_old), spec_enc_path(newp));
            assert(bytes@.subrange(pos as int, pp.1 as int) == prefix2 + spec_enc_paths(paths@));
        }
        ppos = pp.1;
    }
    if paths.len() as u64 != pc.0 {
        proof {
            assert forall|a: Assignment, rest: Seq<u8>|
                bytes@.skip(pos as int) != (spec_enc_assignment(a) + rest) by {
                if bytes@.skip(pos as int) == spec_enc_assignment(a) + rest {
                    assert(np == a.paths@.len());
                }
            }
        }
        return None;
    }
    let a = Assignment { group_id: gid.0, paths };
    proof {
        assert(bytes@.subrange(pos as int, ppos as int) =~= spec_enc_assignment(a));
        assert forall|ha: Assignment, rest: Seq<u8>|
            bytes@.skip(pos as int) == #[trigger] (spec_enc_assignment(ha) + rest) implies {
            &&& assignment_like(a, ha)
            &&& bytes@.skip(ppos as int) == rest
        } by {
            assert(np == ha.paths@.len());
            assert(ha.paths@.skip(np as int) =~= Seq::<Path>::empty());
            assert(spec_enc_paths(Seq::<Path>::empty()) == Seq::<u8>::empty());
            assert(bytes@.skip(ppos as int) =~= rest);
        }
    }
    Some((a, ppos))
}

/// Deserializes assignments. Whatever comes back is faithful (the bytes
/// are exactly the encoding of the returned assignments), and the decoder
/// is total on encodings: bytes that encode some assignment list decode
/// to exactly that list. Together with the encoder's exactness this gives
/// the round trip: decoding an encoding returns the encoded assignments.
pub fn decode_assignments(bytes: &Vec<u8>) -> (r: Option<Vec<Assignment>>)
    ensures
        r matches Some(v) ==> bytes@ == spec_encode(v@),
        forall|s: Seq<Assignment>|
            s.len() <= usize::MAX && bytes@ == #[trigger] spec_encode(s) ==> {
                &&& r matches Some(v)
                &&& assignments_like(v@, s)
            },
{
    let count = match get_u64(bytes, 0) {
        Some(vp) => vp,
        None => {
            proof {
                lemma_auto_spec_u64_to_from_le_bytes();
                assert forall|s: Seq<Assignment>| bytes@ != spec_encode(s) by {
                    if bytes@ == spec_encode(s) {
                        assert(bytes@.len() >= 8);
                    }
                }
            }
            return None;
        },
    };
    let n = count.0;
    let mut pos = count.1;
    proof {
        lemma_auto_spec_u64_to_from_le_bytes();
        assert forall|s: Seq<Assignment>|
            s.len() <= usize::MAX && bytes@ == #[trigger] spec_encode(s) implies {
            &&& n == s.len() as u64
            &&& bytes@.skip(pos as int) == spec_enc_assignment_list(s.skip(0))
        } by {
            assert(bytes@.skip(0) =~= bytes@);
            lemma_take_word(
                bytes@,
                0,
                spec_u64_to_le_bytes(s.len() as u64),
                spec_enc_assignment_list(s),
            );
            assert(s.skip(0) =~= s);
        }
    }
    if n > (usize::MAX as u64) {
        return None;
    }
    let n_us = n as usize;
    let mut out: Vec<Assignment> = Vec::new();
    proof {
        assert(spec_enc_assignment_list(Seq::<Assignment>::empty()) == Seq::<u8>::empty());
        assert(bytes@.subrange(0, 8) =~= spec_u64_to_le_bytes(n));
        assert(bytes@.subrange(0, pos as int) =~= spec_u64_to_le_bytes(n)
            + spec_enc_assignment_list(out@));
    }
    for i in 0..n_us
        invariant
            out@.len() == i,
            pos <= bytes@.len(),
            n_us as u64 == n,
            bytes@.subrange(0, pos as int) =~= spec_u64_to_le_bytes(n) + spec_enc_assignment_list(
                out@,
            ),
            forall|s: Seq<Assignment>|
                s.len() <= usize::MAX && bytes@ == #[trigger] spec_encode(s) ==> {
                    &&& n == s.len() as u64
                    &&& i <= s.len()
                    &&& forall|ii: int|
                        0 <= ii < i ==> assignment_like(#[trigger] out@[ii], s[ii])
                    &&& bytes@.skip(pos as int) == spec_enc_assignment_list(s.skip(i as int))
                },
    {
        let ap = match decode_assignment(bytes, pos) {
            Some(vp) => vp,
            None => {
                proof {
                    assert forall|s: Seq<Assignment>|
                        !(s.len() <= usize::MAX && bytes@ == spec_encode(s)) by {
                        if s.len() <= usize::MAX && bytes@ == spec_encode(s) {
                            assert(i < s.len());
                            lemma_enc_assignment_list_peel(s, i as int);
                            assert(bytes@.skip(pos as int) == spec_enc_assignment(s[i as int])
                                + spec_enc_assignment_list(s.skip(i + 1)));
                        }
                    }
                }
                return None;
            },
        };
        proof {
            assert forall|s: Seq<Assignment>|
                s.len() <= usize::MAX && bytes@ == #[trigger] spec_encode(s) implies {
                &&& assignment_like(ap.0, s[i as int])
                &&& bytes@.skip(ap.1 as int) == spec_enc_assignment_list(s.skip(i + 1))
            } by {
                assert(i < s.len());
                lemma_enc_assignment_list_peel(s, i as int);
                assert(bytes@.skip(pos as int) == spec_enc_assignment(s[i as int])
                    + spec_enc_assignment_list(s.skip(i + 1)));
            }
        }
        let ghost out_old = out@;
        let ghost newa = ap.0;
        out.push(ap.0);
        proof {
            lemma_enc_assignment_list_push(out_old, newa);
            assert(out_old.push(newa) =~= out@);
            lemma_split(bytes@, 0, pos as int, ap.1 as int);
            lemma_assoc(
                spec_u64_to_le_bytes(n),
                spec_enc_assignment_list(out_old),
                spec_enc_assignment(newa),
            );
            assert(bytes@.subrange(0, ap.1 as int) == spec_u64_to_le_bytes(n)
                + spec_enc_assignment_list(out@));
        }
        pos = ap.1;
    }
    proof {
        assert forall|s: Seq<Assignment>|
            s.len() <= usize::MAX && bytes@ == #[trigger] spec_encode(s) implies pos
            == bytes@.len() by {
            assert(s.skip(n_us as int) =~= Seq::<Assignment>::empty());
            assert(spec_enc_assignment_list(Seq::<Assignment>::empty()) == Seq::<u8>::empty());
            assert(bytes@.skip(pos as int).len() == 0);
        }
    }
    if pos != bytes.len() {
        return None;
    }
    if out.len() as u64 != n {
        return None;
    }
    proof {
        assert(bytes@.subrange(0, pos as int) =~= bytes@);
        assert(bytes@ =~= spec_encode(out@));
    }
    Some(out)
}

} // verus!
