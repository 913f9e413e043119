//! The source splicer: maps every storage group to a byte range of the
//! original source text and replaces it with a uniquely numbered
//! placeholder identifier.
//!
//! A group's range runs from the first byte of its first field's name
//! to just past the width specifier of its last field.  Replacements
//! are applied in descending start-offset order; this is a core
//! invariant, not a convenience: a variable-length replacement
//! invalidates every offset after the edit point, and editing
//! back-to-front keeps every not-yet-processed range, which lies
//! earlier in the file, valid.

use vstd::prelude::*;
use vstd::seq_lib::lemma_sorted_unique;
use vstd::relations::{total_ordering, sorted_by};
use vstd::utf8::encode_utf8;
use vstd::string::StrSliceExecFns;
use vstd::string::StringSliceAdditionalSpecFns;
use vstd::pervasive::unreached;

use crate::ast::{Ast, BitfieldError, Clang};
use crate::grouping::{Bitfields, group_rec, flush, walk_node, walk_children, record_groups, table_spec};

verus! {

/// `needle` occurs in `h` at position `j`.
pub open spec fn matches_at(h: Seq<u8>, n: Seq<u8>, j: int) -> bool {
    &&& 0 <= j
    &&& j + n.len() <= h.len()
    &&& h.subrange(j, j + n.len()) == n
}

pub open spec fn has_match(h: Seq<u8>, n: Seq<u8>) -> bool {
    exists|j: int| matches_at(h, n, j)
}

/// The first position at which `n` occurs in `h` (meaningful only when
/// `has_match(h, n)`).
pub open spec fn first_match(h: Seq<u8>, n: Seq<u8>) -> int {
    choose|j: int|
        matches_at(h, n, j) && (forall|p: int| 0 <= p < j ==> !matches_at(h, n, p))
}

pub proof fn lemma_first_match(h: Seq<u8>, n: Seq<u8>, j: int)
    requires
        matches_at(h, n, j),
        forall|p: int| 0 <= p < j ==> !matches_at(h, n, p),
    ensures
        first_match(h, n) == j,
{
    let jj = first_match(h, n);
    assert(matches_at(h, n, jj) && (forall|p: int| 0 <= p < jj ==> !matches_at(h, n, p)));
    if jj < j {
        assert(!matches_at(h, n, jj));
    } else if j < jj {
        assert(!matches_at(h, n, j));
    }
}

/// Relies on memchr::memmem::find: returns the index of the first
/// occurrence of `needle` in `haystack`, or `None` when `needle` does
/// not occur.
#[verifier::external_body]
fn find_sub(haystack: &[u8], needle: &[u8]) -> (r: Option<usize>)
    ensures
        match r {
            Some(j) => matches_at(haystack@, needle@, j as int) && (forall|p: int|
                0 <= p < j ==> !(#[trigger] matches_at(haystack@, needle@, p))),
            None => forall|p: int| !(#[trigger] matches_at(haystack@, needle@, p)),
        },
{
    memchr::memmem::find(haystack, needle)
}

/// The decimal digits of `n`, most significant first.
pub open spec fn dec_digits(n: nat) -> Seq<u8>
    decreases n,
{
    if n < 10 {
        seq![(48 + n) as u8]
    } else {
        dec_digits(n / 10) + seq![(48 + n % 10) as u8]
    }
}

fn u64_to_dec(n: u64) -> (v: Vec<u8>)
    ensures
        v@ == dec_digits(n as nat),
    decreases n,
{
    if n < 10 {
        let mut v: Vec<u8> = Vec::new();
        v.push((48 + n) as u8);
        assert(v@ =~= dec_digits(n as nat));
        v
    } else {
        let mut v = u64_to_dec(n / 10);
        v.push((48 + n % 10) as u8);
        assert(v@ =~= dec_digits(n as nat));
        v
    }
}

/// The placeholder identifier for the group with global index `i`.
pub open spec fn placeholder(i: nat) -> Seq<u8> {
    "__bitfield_storage_".spec_bytes() + dec_digits(i)
}

fn make_placeholder(i: usize) -> (v: Vec<u8>)
    ensures
        v@ == placeholder(i as nat),
{
    let mut v = "__bitfield_storage_".as_bytes_vec();
    let mut d = u64_to_dec(i as u64);
    v.append(&mut d);
    assert(v@ =~= placeholder(i as nat));
    v
}

/// One planned replacement: the half-open byte range `[start, end)` of
/// a storage group in the source text, and the group's global index,
/// which numbers its placeholder.
#[derive(Debug, Clone, Copy, PartialEq, Eq, Structural)]
pub struct Segment {
    pub start: usize,
    pub end: usize,
    pub idx: usize,
}

/// Every index of `g` is a field node of `ast`.
pub open spec fn group_fields_ok(ast: Ast, g: Seq<usize>) -> bool {
    forall|k: int|
        0 <= k < g.len() ==> ((#[trigger] g[k]) as int) < ast.len() && ast.is_field(g[k] as int)
}

/// A table whose record and field indices all point at nodes of the
/// right kind; the grouper only ever builds such tables.
pub open spec fn table_wf(ast: Ast, t: Seq<(usize, Seq<Seq<usize>>)>) -> bool {
    &&& forall|e: int|
        0 <= e < t.len() ==> ((#[trigger] t[e]).0 as int) < ast.len() && ast.is_record(
            t[e].0 as int,
        )
    &&& forall|e: int, g: int|
        0 <= e < t.len() && 0 <= g < t[e].1.len() ==> group_fields_ok(
            ast,
            #[trigger] t[e].1[g],
        )
}

proof fn lemma_group_rec_wf(
    ast: Ast,
    cs: Seq<usize>,
    k: int,
    acc: Seq<Seq<usize>>,
    pending: Seq<usize>,
    accum: int,
    out: Seq<Seq<usize>>,
)
    requires
        ast.wf(),
        0 <= k <= cs.len(),
        forall|j: int| 0 <= j < cs.len() ==> ((#[trigger] cs[j]) as int) < ast.len(),
        forall|g: int| 0 <= g < acc.len() ==> group_fields_ok(ast, #[trigger] acc[g]),
        group_fields_ok(ast, pending),
        group_rec(ast, cs, k, acc, pending, accum) == Ok::<_, BitfieldError>(out),
    ensures
        forall|g: int| 0 <= g < out.len() ==> group_fields_ok(ast, #[trigger] out[g]),
    decreases cs.len() - k,
{
    if k >= cs.len() {
        assert forall|g: int| 0 <= g < out.len() implies group_fields_ok(ast, #[trigger] out[g]) by {
            if pending.len() > 0 && g == out.len() - 1 {
            }
        }
    } else {
        let c = cs[k] as int;
        assert(forall|g: int|
            0 <= g < flush(acc, pending).len() ==> group_fields_ok(
                ast,
                #[trigger] flush(acc, pending)[g],
            ));
        match ast.node(c).kind {
            Clang::FieldDecl(fd) => {
                if fd.is_bitfield == Some(true) {
                    let w = ast.width_of(c) as int;
                    let acc1 = if accum + w > 32 {
                        flush(acc, pending)
                    } else {
                        acc
                    };
                    let pending1 = if accum + w > 32 {
                        Seq::<usize>::empty()
                    } else {
                        pending
                    };
                    let accum1: int = if accum + w > 32 {
                        0
                    } else {
                        accum
                    };
                    assert(ast.is_field(c));
                    if w == 0 {
                        lemma_group_rec_wf(ast, cs, k + 1, flush(acc1, pending1), Seq::empty(), 0, out);
                    } else {
                        assert(group_fields_ok(ast, pending1.push(cs[k])));
                        lemma_group_rec_wf(ast, cs, k + 1, acc1, pending1.push(cs[k]), accum1 + w, out);
                    }
                } else {
                    lemma_group_rec_wf(ast, cs, k + 1, flush(acc, pending), Seq::empty(), 0, out);
                }
            },
            _ => {
                lemma_group_rec_wf(ast, cs, k + 1, acc, pending, accum, out);
            },
        }
    }
}

proof fn lemma_table_wf_concat(
    ast: Ast,
    a: Seq<(usize, Seq<Seq<usize>>)>,
    b: Seq<(usize, Seq<Seq<usize>>)>,
)
    requires
        table_wf(ast, a),
        table_wf(ast, b),
    ensures
        table_wf(ast, a + b),
{
    let c = a + b;
    assert forall|e: int| 0 <= e < c.len() implies ((#[trigger] c[e]).0 as int) < ast.len()
        && ast.is_record(c[e].0 as int) by {
        if e < a.len() {
            assert(c[e] == a[e]);
        } else {
            assert(c[e] == b[e - a.len()]);
        }
    }
    assert forall|e: int, g: int| 0 <= e < c.len() && 0 <= g < c[e].1.len() implies group_fields_ok(
        ast,
        #[trigger] c[e].1[g],
    ) by {
        if e < a.len() {
            assert(c[e] == a[e]);
        } else {
            assert(c[e] == b[e - a.len()]);
        }
    }
}

proof fn lemma_walk_node_wf(ast: Ast, i: int, out: Seq<(usize, Seq<Seq<usize>>)>)
    requires
        ast.wf(),
        0 <= i < ast.len(),
        walk_node(ast, i) == Ok::<_, BitfieldError>(out),
    ensures
        table_wf(ast, out),
    decreases ast.len() - i, 1int, 0int,
{
    let cs = ast.node(i).inner@;
    assert(forall|j: int|
        0 <= j < cs.len() ==> i < ((#[trigger] cs[j]) as int) && (cs[j] as int) < ast.len());
    if ast.is_record(i) {
        let groups = record_groups(ast, i).unwrap();
        lemma_group_rec_wf(ast, cs, 0, Seq::empty(), Seq::empty(), 0, groups);
        let head: Seq<(usize, Seq<Seq<usize>>)> = if groups.len() > 0 {
            seq![(i as usize, groups)]
        } else {
            Seq::empty()
        };
        assert(table_wf(ast, head));
        let rest = walk_children(ast, i, cs, 0, true).unwrap();
        lemma_walk_children_wf(ast, i, cs, 0, true, rest);
        lemma_table_wf_concat(ast, head, rest);
    } else {
        lemma_walk_children_wf(ast, i, cs, 0, false, out);
    }
}

proof fn lemma_walk_children_wf(
    ast: Ast,
    i: int,
    cs: Seq<usize>,
    k: int,
    skip_fields: bool,
    out: Seq<(usize, Seq<Seq<usize>>)>,
)
    requires
        ast.wf(),
        0 <= i < ast.len(),
        cs == ast.node(i).inner@,
        walk_children(ast, i, cs, k, skip_fields) == Ok::<_, BitfieldError>(out),
    ensures
        table_wf(ast, out),
    decreases ast.len() - i, 0int, cs.len() - k,
{
    if k < 0 || k >= cs.len() {
    } else {
        let c = cs[k] as int;
        assert(i < c < ast.len());
        if skip_fields && ast.is_field(c) {
            lemma_walk_children_wf(ast, i, cs, k + 1, skip_fields, out);
        } else {
            let first = walk_node(ast, c).unwrap();
            let rest = walk_children(ast, i, cs, k + 1, skip_fields).unwrap();
            lemma_walk_node_wf(ast, c, first);
            lemma_walk_children_wf(ast, i, cs, k + 1, skip_fields, rest);
            lemma_table_wf_concat(ast, first, rest);
        }
    }
}

/// The grouper only builds well-formed tables: every table the whole
/// tree walk yields points records at record nodes and group members
/// at field nodes, which is what the splicer and the info extractor
/// rely on.
pub proof fn lemma_table_spec_wf(ast: Ast, t: Seq<(usize, Seq<Seq<usize>>)>)
    requires
        ast.wf(),
        table_spec(ast) == Ok::<_, BitfieldError>(t),
    ensures
        table_wf(ast, t),
{
    if ast.len() == 0 {
    } else {
        lemma_walk_node_wf(ast, 0, t);
    }
}

/// The splice range of one storage group, numbered `idx`: `end` is
/// just past the last field's width literal; `start` is the first
/// occurrence of the first field's name inside the span that begins at
/// that field's declared begin offset, which guards against matching
/// the name inside a preceding token.
pub open spec fn segment_of(ast: Ast, src: Seq<u8>, g: Seq<usize>, idx: usize) -> Result<
    Segment,
    BitfieldError,
> {
    if g.len() == 0 {
        Err(BitfieldError::EmptyGroup)
    } else {
        let last = g[g.len() - 1] as int;
        if !ast.has_width_lit(last) {
            Err(BitfieldError::MissingWidth)
        } else {
            let lit = ast.width_lit(last);
            let end = lit.range.end.offset + lit.range.end.tok_len;
            let fd = ast.field_at(g[0] as int);
            match fd.name {
                None => Err(BitfieldError::UnnamedField),
                Some(name) => {
                    let begin = fd.range.begin.offset as int;
                    if !(begin <= end <= src.len()) {
                        Err(BitfieldError::RangeOutOfBounds)
                    } else {
                        let win = src.subrange(begin, end);
                        let nb = encode_utf8(name@);
                        if !has_match(win, nb) {
                            Err(BitfieldError::AnchorNotFound)
                        } else {
                            Ok(
                                Segment {
                                    start: (begin + first_match(win, nb)) as usize,
                                    end: end as usize,
                                    idx: idx,
                                },
                            )
                        }
                    }
                },
            }
        }
    }
}

/// The segments of a run of groups, numbered from `base`.
pub open spec fn segs_of_groups(
    ast: Ast,
    src: Seq<u8>,
    gs: Seq<Seq<usize>>,
    base: int,
) -> Result<Seq<Segment>, BitfieldError>
    decreases gs.len(),
{
    if gs.len() == 0 {
        Ok(Seq::empty())
    } else {
        match segment_of(ast, src, gs[0], base as usize) {
            Err(e) => Err(e),
            Ok(s) => match segs_of_groups(ast, src, gs.drop_first(), base + 1) {
                Err(e) => Err(e),
                Ok(rest) => Ok(seq![s] + rest),
            },
        }
    }
}

/// The segments of a whole table, one per group, numbered globally in
/// table order from `base`.
pub open spec fn segs_of_table(
    ast: Ast,
    src: Seq<u8>,
    t: Seq<(usize, Seq<Seq<usize>>)>,
    base: int,
) -> Result<Seq<Segment>, BitfieldError>
    decreases t.len(),
{
    if t.len() == 0 {
        Ok(Seq::empty())
    } else {
        match segs_of_groups(ast, src, t[0].1, base) {
            Err(e) => Err(e),
            Ok(first) => match segs_of_table(ast, src, t.drop_first(), base + t[0].1.len()) {
                Err(e) => Err(e),
                Ok(rest) => Ok(first + rest),
            },
        }
    }
}

fn segment_of_exec(ast: &Ast, src: &Vec<u8>, g: &Vec<usize>, idx: usize) -> (r: Result<
    Segment,
    BitfieldError,
>)
    requires
        ast.wf(),
        group_fields_ok(*ast, g@),
    ensures
        match r {
            Ok(s) => segment_of(*ast, src@, g@, idx) == Ok::<_, BitfieldError>(s),
            Err(e) => segment_of(*ast, src@, g@, idx) == Err::<Segment, _>(e),
        },
{
    if g.len() == 0 {
        return Err(BitfieldError::EmptyGroup);
    }
    let last = g[g.len() - 1];
    let lit = match crate::grouping::get_width_lit(ast, last) {
        Some(l) => l,
        None => {
            return Err(BitfieldError::MissingWidth);
        },
    };
    if lit.range.end.tok_len > src.len() || lit.range.end.offset > src.len()
        - lit.range.end.tok_len {
        // the literal ends past the source text; an unnamed anchor
        // field still takes precedence over the range error
        let first = g[0];
        let fd = match &ast.nodes[first].kind {
            Clang::FieldDecl(fd) => fd,
            _ => unreached(),
        };
        match &fd.name {
            None => {
                return Err(BitfieldError::UnnamedField);
            },
            Some(_) => {
                return Err(BitfieldError::RangeOutOfBounds);
            },
        }
    }
    let end = lit.range.end.offset + lit.range.end.tok_len;
    let first = g[0];
    let fd = match &ast.nodes[first].kind {
        Clang::FieldDecl(fd) => fd,
        _ => unreached(),
    };
    let name = match &fd.name {
        None => {
            return Err(BitfieldError::UnnamedField);
        },
        Some(name) => name,
    };
    let begin = fd.range.begin.offset;
    if begin > end {
        return Err(BitfieldError::RangeOutOfBounds);
    }
    let win = &src.as_slice()[begin..end];
    let nb = name.as_str().as_bytes();
    match find_sub(win, nb) {
        None => {
            assert(!has_match(src@.subrange(begin as int, end as int), encode_utf8(name@)));
            Err(BitfieldError::AnchorNotFound)
        },
        Some(j) => {
            proof {
                lemma_first_match(
                    src@.subrange(begin as int, end as int),
                    encode_utf8(name@),
                    j as int,
                );
            }
            Ok(Segment { start: begin + j, end: end, idx: idx })
        },
    }
}

#[verifier::rlimit(100)]
fn segs_for_entry(
    ast: &Ast,
    src: &Vec<u8>,
    groups: &Vec<Vec<usize>>,
    segs: &mut Vec<Segment>,
) -> (r: Result<(), BitfieldError>)
    requires
        ast.wf(),
        forall|g: int|
            0 <= g < groups.deep_view().len() ==> group_fields_ok(
                *ast,
                #[trigger] groups.deep_view()[g],
            ),
    ensures
        match r {
            Ok(()) => (segs_of_groups(*ast, src@, groups.deep_view(), old(segs)@.len() as int)
                matches Ok(gs) && final(segs)@ == old(segs)@ + gs && gs.len()
                == groups.deep_view().len()),
            Err(e) => segs_of_groups(*ast, src@, groups.deep_view(), old(segs)@.len() as int)
                == Err::<Seq<Segment>, _>(e),
        },
{
    let ghost gv = groups.deep_view();
    let ghost base0 = old(segs)@.len() as int;
    let m = groups.len();
    let mut gk: usize = 0;
    proof {
        assert(gv.skip(0) =~= gv);
        assert(segs@.skip(base0) =~= Seq::<Segment>::empty());
        assert(segs@.take(base0) =~= old(segs)@);
        match segs_of_groups(*ast, src@, gv, base0) {
            Ok(rest) => {
                assert(segs@.skip(base0) + rest =~= rest);
            },
            Err(_) => {},
        }
    }
    while gk < m
        invariant
            ast.wf(),
            gv == groups.deep_view(),
            forall|g: int| 0 <= g < gv.len() ==> group_fields_ok(*ast, #[trigger] gv[g]),
            base0 == old(segs)@.len() as int,
            m == groups@.len(),
            m == gv.len(),
            gk <= m,
            segs@.len() == base0 + gk,
            segs@.take(base0) == old(segs)@,
            match segs_of_groups(*ast, src@, gv.skip(gk as int), segs@.len() as int) {
                Ok(rest) => segs_of_groups(*ast, src@, gv, base0) == Ok::<_, BitfieldError>(
                    segs@.skip(base0) + rest,
                ),
                Err(er) => segs_of_groups(*ast, src@, gv, base0) == Err::<Seq<Segment>, _>(er),
            },
        decreases m - gk,
    {
        let g = &groups[gk];
        assert(g@ =~= gv[gk as int]);
        assert(group_fields_ok(*ast, gv[gk as int]));
        let base = segs.len();
        let ghost segs_before = segs@;
        let ghost gsuf = gv.skip(gk as int);
        assert(gsuf[0] == gv[gk as int]);
        assert(gsuf.drop_first() =~= gv.skip(gk as int + 1));
        match segment_of_exec(ast, src, g, base) {
            Ok(s) => {
                segs.push(s);
                assert(segs@.skip(base0) =~= segs_before.skip(base0).push(s));
                assert(segs@.take(base0) =~= old(segs)@);
                proof {
                    match segs_of_groups(*ast, src@, gv.skip(gk as int + 1), segs@.len() as int) {
                        Ok(rest) => {
                            assert(segs_before.skip(base0) + (seq![s] + rest) =~= segs@.skip(base0)
                                + rest);
                        },
                        Err(_) => {},
                    }
                }
            },
            Err(er) => {
                proof {
                    assert(segs_of_groups(*ast, src@, gsuf, segs_before.len() as int) == Err::<
                        Seq<Segment>,
                        _,
                    >(er));
                }
                return Err(er);
            },
        }
        gk += 1;
    }
    proof {
        assert(gv.skip(m as int).len() == 0);
        assert(segs_of_groups(*ast, src@, gv.skip(m as int), segs@.len() as int) == Ok::<
            Seq<Segment>,
            BitfieldError,
        >(Seq::empty()));
        assert(segs@.skip(base0) + Seq::<Segment>::empty() =~= segs@.skip(base0));
        assert(segs@ =~= segs@.take(base0) + segs@.skip(base0));
    }
    Ok(())
}

#[verifier::rlimit(100)]
fn compute_segments(ast: &Ast, src: &Vec<u8>, table: &Bitfields) -> (r: Result<
    Vec<Segment>,
    BitfieldError,
>)
    requires
        ast.wf(),
        table_wf(*ast, table.deep_view()),
    ensures
        match r {
            Ok(segs) => segs_of_table(*ast, src@, table.deep_view(), 0) == Ok::<
                _,
                BitfieldError,
            >(segs@),
            Err(e) => segs_of_table(*ast, src@, table.deep_view(), 0) == Err::<Seq<Segment>, _>(e),
        },
{
    let ghost tv = table.deep_view();
    let mut segs: Vec<Segment> = Vec::new();
    let n = table.len();
    let mut e: usize = 0;
    proof {
        assert(tv.skip(0) =~= tv);
        match segs_of_table(*ast, src@, tv, 0int) {
            Ok(rest) => {
                assert(segs@ + rest =~= rest);
            },
            Err(_) => {},
        }
    }
    while e < n
        invariant
            ast.wf(),
            table_wf(*ast, tv),
            tv == table.deep_view(),
            n == table@.len(),
            e <= n,
            match segs_of_table(*ast, src@, tv.skip(e as int), segs@.len() as int) {
                Ok(rest) => segs_of_table(*ast, src@, tv, 0) == Ok::<_, BitfieldError>(
                    segs@ + rest,
                ),
                Err(er) => segs_of_table(*ast, src@, tv, 0) == Err::<Seq<Segment>, _>(er),
            },
        decreases n - e,
    {
        let groups = &table[e].1;
        assert(groups.deep_view() =~~= tv[e as int].1);
        let ghost segs_before = segs@;
        let ghost tsuf = tv.skip(e as int);
        assert(tsuf[0] == tv[e as int]);
        assert(tsuf.drop_first() =~= tv.skip(e as int + 1));
        match segs_for_entry(ast, src, groups, &mut segs) {
            Ok(()) => {
                proof {
                    match segs_of_groups(*ast, src@, tv[e as int].1, segs_before.len() as int) {
                        Ok(gs) => {
                            match segs_of_table(*ast, src@, tv.skip(e as int + 1), segs@.len() as int) {
                                Ok(rest) => {
                                    assert(segs_before + (gs + rest) =~= segs@ + rest);
                                },
                                Err(_) => {},
                            }
                        },
                        Err(_) => {},
                    }
                }
            },
            Err(er) => {
                proof {
                    assert(segs_of_table(*ast, src@, tsuf, segs_before.len() as int) == Err::<
                        Seq<Segment>,
                        _,
                    >(er));
                }
                return Err(er);
            },
        }
        e += 1;
    }
    proof {
        assert(tv.skip(n as int).len() == 0);
        assert(segs_of_table(*ast, src@, tv.skip(n as int), segs@.len() as int) == Ok::<
            Seq<Segment>,
            BitfieldError,
        >(Seq::empty()));
        assert(segs@ + Seq::<Segment>::empty() =~= segs@);
    }
    Ok(segs)
}

/// The descending start-offset order the splicer applies edits in,
/// made total by tie-breaking on the end offset and the group index.
pub open spec fn seg_le(a: Segment, b: Segment) -> bool {
    ||| a.start > b.start
    ||| (a.start == b.start && a.end < b.end)
    ||| (a.start == b.start && a.end == b.end && a.idx <= b.idx)
}

pub open spec fn seg_leq() -> spec_fn(Segment, Segment) -> bool {
    |a: Segment, b: Segment| seg_le(a, b)
}

pub proof fn lemma_seg_le_total()
    ensures
        total_ordering(seg_leq()),
{
    let leq = seg_leq();
    assert forall|x: Segment| #[trigger] leq(x, x) by {
        assert(seg_le(x, x));
    }
    assert forall|x: Segment, y: Segment| #[trigger] leq(x, y) && #[trigger] leq(y, x) implies x
        == y by {
        assert(seg_le(x, y) && seg_le(y, x));
    }
    assert forall|x: Segment, y: Segment, z: Segment|
        #[trigger] leq(x, y) && #[trigger] leq(y, z) implies leq(x, z) by {
        assert(seg_le(x, y) && seg_le(y, z));
        assert(seg_le(x, z));
    }
    assert forall|x: Segment, y: Segment| #[trigger] leq(x, y) || #[trigger] leq(y, x) by {
        assert(seg_le(x, y) || seg_le(y, x));
    }
}

/// The segments, sorted for application: descending start offsets.
pub open spec fn sort_desc(s: Seq<Segment>) -> Seq<Segment> {
    s.sort_by(seg_leq())
}

fn seg_le_exec(a: &Segment, b: &Segment) -> (r: bool)
    ensures
        r == seg_le(*a, *b),
{
    if a.start > b.start {
        true
    } else if a.start == b.start && a.end < b.end {
        true
    } else if a.start == b.start && a.end == b.end && a.idx <= b.idx {
        true
    } else {
        false
    }
}

#[verifier::rlimit(60)]
fn sort_segments(v: &Vec<Segment>) -> (r: Vec<Segment>)
    ensures
        r@ == sort_desc(v@),
{
    broadcast use vstd::seq_lib::group_to_multiset_ensures;
    broadcast use vstd::multiset::group_multiset_axioms;

    proof {
        lemma_seg_le_total();
    }
    let ghost leq = seg_leq();
    let n = v.len();
    let mut out: Vec<Segment> = Vec::new();
    let mut i: usize = 0;
    proof {
        assert(out@.to_multiset() =~= v@.take(0).to_multiset());
    }
    while i < n
        invariant
            n == v@.len(),
            i <= n,
            leq == seg_leq(),
            total_ordering(leq),
            sorted_by(out@, leq),
            out@.to_multiset() == v@.take(i as int).to_multiset(),
        decreases n - i,
    {
        let s = v[i];
        let mut p: usize = 0;
        while p < out.len() && seg_le_exec(&out[p], &s)
            invariant
                p <= out@.len(),
                forall|q: int| 0 <= q < p ==> seg_le(#[trigger] out@[q], s),
            decreases out@.len() - p,
        {
            p += 1;
        }
        let ghost out_old = out@;
        out.insert(p, s);
        proof {
            assert(out@ == out_old.insert(p as int, s));
            assert(out@ =~= out_old.subrange(0, p as int).push(s) + out_old.subrange(
                p as int,
                out_old.len() as int,
            ));
            assert forall|x: int, y: int| 0 <= x < y < out@.len() implies leq(
                #[trigger] out@[x],
                #[trigger] out@[y],
            ) by {
                if p < out_old.len() {
                    assert(!seg_le(out_old[p as int], s));
                    assert(leq(s, out_old[p as int]));
                }
                if x < p && y < p {
                    assert(leq(out_old[x], out_old[y]));
                } else if x < p && y == p {
                    assert(leq(out_old[x], s));
                } else if x < p && y > p {
                    assert(leq(out_old[x], out_old[y - 1]));
                } else if x == p && y > p {
                    assert(leq(s, out_old[p as int]));
                    if y - 1 > p {
                        assert(leq(out_old[p as int], out_old[y - 1]));
                    }
                } else if x > p && y > p {
                    assert(leq(out_old[x - 1], out_old[y - 1]));
                }
            }
            assert(v@.take(i as int + 1) =~= v@.take(i as int).push(v@[i as int]));
            vstd::seq_lib::to_multiset_insert(out_old, p as int, s);
            vstd::seq_lib::to_multiset_build(v@.take(i as int), v@[i as int]);
            assert(out@.to_multiset() == v@.take(i as int + 1).to_multiset());
        }
        i += 1;
    }
    proof {
        assert(v@.take(n as int) =~= v@);
        v@.lemma_sort_by_ensures(leq);
        lemma_sorted_unique(out@, sort_desc(v@), leq);
    }
    out
}

/// Sorted-and-disjoint: the segments descend strictly by start offset,
/// each is a well-formed range inside a text of length `len`, and each
/// ends at or before the start of the one sorted after it.
pub open spec fn segs_valid(s: Seq<Segment>, len: int) -> bool {
    &&& forall|k: int|
        0 <= k < s.len() ==> (#[trigger] s[k]).start <= s[k].end && s[k].end <= len
    &&& forall|k: int|
        0 <= k && k + 1 < s.len() ==> s[k + 1].end <= (#[trigger] s[k]).start && s[k + 1].start
            < s[k].start
}

fn check_segs(s: &Vec<Segment>, len: usize) -> (r: bool)
    ensures
        r == segs_valid(s@, len as int),
{
    let n = s.len();
    let mut k: usize = 0;
    while k < n
        invariant
            n == s@.len(),
            k <= n,
            forall|q: int| 0 <= q < k ==> (#[trigger] s@[q]).start <= s@[q].end && s@[q].end <= len,
            forall|q: int|
                0 <= q && q + 1 < n && q < k ==> s@[q + 1].end <= (#[trigger] s@[q]).start
                    && s@[q + 1].start < s@[q].start,
        decreases n - k,
    {
        if !(s[k].start <= s[k].end && s[k].end <= len) {
            return false;
        }
        if k + 1 < n {
            if !(s[k + 1].end <= s[k].start && s[k + 1].start < s[k].start) {
                return false;
            }
        }
        k += 1;
    }
    true
}

/// The text with `[a, b)` replaced by `r`.
pub open spec fn splice_bytes(s: Seq<u8>, a: int, b: int, r: Seq<u8>) -> Seq<u8> {
    s.subrange(0, a) + r + s.subrange(b, s.len() as int)
}

/// The edits applied in sequence order: each segment's range replaced
/// by its placeholder.  The splicer hands this function its segments
/// sorted descending by start, so every later edit lies strictly
/// before the text already edited.
pub open spec fn apply_edits(s: Seq<u8>, segs: Seq<Segment>) -> Seq<u8>
    decreases segs.len(),
{
    if segs.len() == 0 {
        s
    } else {
        apply_edits(
            splice_bytes(
                s,
                segs[0].start as int,
                segs[0].end as int,
                placeholder(segs[0].idx as nat),
            ),
            segs.drop_first(),
        )
    }
}

fn push_range(out: &mut Vec<u8>, src: &[u8], a: usize, b: usize)
    requires
        a <= b <= src@.len(),
    ensures
        final(out)@ == old(out)@ + src@.subrange(a as int, b as int),
{
    let mut i: usize = a;
    proof {
        assert(out@ =~= old(out)@ + src@.subrange(a as int, a as int));
    }
    while i < b
        invariant
            a <= i <= b <= src@.len(),
            out@ == old(out)@ + src@.subrange(a as int, i as int),
        decreases b - i,
    {
        let x = src[i];
        out.push(x);
        assert(out@ =~= old(out)@ + src@.subrange(a as int, i as int + 1));
        i += 1;
    }
}

fn splice_apply(src: &Vec<u8>, a: usize, b: usize, r: &Vec<u8>) -> (out: Vec<u8>)
    requires
        a <= b <= src@.len(),
    ensures
        out@ == splice_bytes(src@, a as int, b as int, r@),
{
    let mut out: Vec<u8> = Vec::new();
    push_range(&mut out, src.as_slice(), 0, a);
    push_range(&mut out, r.as_slice(), 0, r.len());
    push_range(&mut out, src.as_slice(), b, src.len());
    proof {
        assert(r@.subrange(0, r@.len() as int) =~= r@);
        assert(out@ =~= splice_bytes(src@, a as int, b as int, r@));
    }
    out
}

/// Replaces every storage group of `table` in `src` with its
/// placeholder.  On success the new text is exactly the old text with
/// each group's range replaced, applied in descending start order; on
/// any failure the text is left untouched.  The failure is the first
/// error of the segment computation, or `OverlappingRanges` when the
/// computed ranges are not pairwise disjoint with distinct starts.
pub fn replace_bitfield_with_single_field(
    src: &mut Vec<u8>,
    ast: &Ast,
    table: &Bitfields,
) -> (r: Result<(), BitfieldError>)
    requires
        ast.wf(),
        table_wf(*ast, table.deep_view()),
    ensures
        match r {
            Ok(()) => {
                &&& segs_of_table(*ast, old(src)@, table.deep_view(), 0) matches Ok(segs)
                &&& segs_valid(sort_desc(segs), old(src)@.len() as int)
                &&& final(src)@ == apply_edits(old(src)@, sort_desc(segs))
            },
            Err(e) => {
                &&& final(src)@ == old(src)@
                &&& match segs_of_table(*ast, old(src)@, table.deep_view(), 0) {
                    Ok(segs) => e == BitfieldError::OverlappingRanges && !segs_valid(
                        sort_desc(segs),
                        old(src)@.len() as int,
                    ),
                    Err(e2) => e == e2,
                }
            },
        },
{
    let segs = match compute_segments(ast, src, table) {
        Ok(segs) => segs,
        Err(e) => {
            return Err(e);
        },
    };
    let sorted = sort_segments(&segs);
    if !check_segs(&sorted, src.len()) {
        return Err(BitfieldError::OverlappingRanges);
    }
    let ghost orig = src@;
    let ghost sv = sorted@;
    let n = sorted.len();
    let mut k: usize = 0;
    let ghost mut cut: int = orig.len() as int;
    proof {
        assert(sv.skip(0) =~= sv);
        assert(orig.subrange(0, cut) =~= src@.subrange(0, cut));
    }
    while k < n
        invariant
            n == sv.len(),
            sorted@ == sv,
            k <= n,
            segs_valid(sv, orig.len() as int),
            cut == (if k == 0 {
                orig.len() as int
            } else {
                sv[k - 1].start as int
            }),
            cut <= src@.len(),
            src@.subrange(0, cut) == orig.subrange(0, cut),
            apply_edits(orig, sv) == apply_edits(src@, sv.skip(k as int)),
        decreases n - k,
    {
        let a = sorted[k].start;
        let b = sorted[k].end;
        proof {
            assert(sv[k as int].start <= sv[k as int].end && sv[k as int].end <= orig.len());
            if k > 0 {
                assert(sv[k as int].end <= sv[k - 1].start);
            }
        }
        let ph = make_placeholder(sorted[k].idx);
        let ghost before = src@;
        let new_src = splice_apply(src, a, b, &ph);
        *src = new_src;
        proof {
            let suf = sv.skip(k as int);
            assert(suf[0] == sv[k as int]);
            assert(suf.drop_first() =~= sv.skip(k as int + 1));
            assert(apply_edits(before, suf) == apply_edits(src@, sv.skip(k as int + 1)));
            cut = sv[k as int].start as int;
            assert forall|p: int| 0 <= p < cut implies src@[p] == orig[p] by {
                assert(src@[p] == before.subrange(0, a as int)[p]);
                assert(before[p] == before.subrange(0, (if k == 0 {
                    orig.len() as int
                } else {
                    sv[k - 1].start as int
                }))[p]);
            }
            assert(src@.subrange(0, cut) =~= orig.subrange(0, cut));
        }
        k += 1;
    }
    proof {
        assert(sv.skip(n as int).len() == 0);
        assert(apply_edits(src@, sv.skip(n as int)) == src@);
    }
    Ok(())
}

/// The number of bytes the segments replace.
pub open spec fn total_replaced(segs: Seq<Segment>) -> int
    decreases segs.len(),
{
    if segs.len() == 0 {
        0
    } else {
        (segs[0].end - segs[0].start) + total_replaced(segs.drop_first())
    }
}

/// The number of bytes the placeholders insert.
pub open spec fn total_inserted(segs: Seq<Segment>) -> int
    decreases segs.len(),
{
    if segs.len() == 0 {
        0
    } else {
        placeholder(segs[0].idx as nat).len() as int + total_inserted(segs.drop_first())
    }
}

/// In a sorted-and-disjoint run, every later segment ends at or before
/// the first one's start.
proof fn lemma_end_chain(segs: Seq<Segment>, len: int, j: int)
    requires
        segs_valid(segs, len),
        1 <= j < segs.len(),
    ensures
        segs[j].end <= segs[0].start,
    decreases j,
{
    if j == 1 {
    } else {
        lemma_end_chain(segs, len, j - 1);
        assert(segs[j].end <= segs[j - 1].start);
        assert(segs[j - 1].start <= segs[j - 1].end);
    }
}

/// Applying the first edit keeps the rest sorted, disjoint and inside
/// the shorter (or longer) text.
proof fn lemma_segs_valid_drop(s: Seq<u8>, segs: Seq<Segment>)
    requires
        segs_valid(segs, s.len() as int),
        segs.len() > 0,
    ensures
        segs_valid(
            segs.drop_first(),
            splice_bytes(
                s,
                segs[0].start as int,
                segs[0].end as int,
                placeholder(segs[0].idx as nat),
            ).len() as int,
        ),
{
    let a = segs[0].start as int;
    let s1 = splice_bytes(s, a, segs[0].end as int, placeholder(segs[0].idx as nat));
    assert(s1.len() >= a);
    let rest = segs.drop_first();
    assert forall|k: int| 0 <= k < rest.len() implies (#[trigger] rest[k]).start <= rest[k].end
        && rest[k].end <= s1.len() by {
        assert(rest[k] == segs[k + 1]);
        lemma_end_chain(segs, s.len() as int, k + 1);
    }
    assert forall|k: int| 0 <= k && k + 1 < rest.len() implies rest[k + 1].end <= (
    #[trigger] rest[k]).start && rest[k + 1].start < rest[k].start by {
        assert(rest[k] == segs[k + 1]);
        assert(rest[k + 1] == segs[k + 2]);
        assert(segs[k + 2].end <= segs[k + 1].start && segs[k + 2].start < segs[k + 1].start);
    }
}

/// Range validity: after all splices, the output length equals the
/// input length minus the replaced ranges' lengths plus the inserted
/// placeholders' lengths.
pub proof fn lemma_splice_length(s: Seq<u8>, segs: Seq<Segment>)
    requires
        segs_valid(segs, s.len() as int),
    ensures
        apply_edits(s, segs).len() == s.len() - total_replaced(segs) + total_inserted(segs),
    decreases segs.len(),
{
    if segs.len() > 0 {
        let ph = placeholder(segs[0].idx as nat);
        let s1 = splice_bytes(s, segs[0].start as int, segs[0].end as int, ph);
        assert(s1.len() == s.len() - (segs[0].end - segs[0].start) + ph.len());
        lemma_segs_valid_drop(s, segs);
        lemma_splice_length(s1, segs.drop_first());
    }
}

/// `p` lies in none of the segments' ranges.
pub open spec fn outside_all(segs: Seq<Segment>, p: int) -> bool {
    forall|k: int|
        0 <= k < segs.len() ==> !((#[trigger] segs[k]).start <= p < segs[k].end)
}

/// Where a byte at `p`, outside every range, lands in the output: its
/// position shifted by the net length change of the edits that lie at
/// or before it.
pub open spec fn shift_at(segs: Seq<Segment>, p: int) -> int
    decreases segs.len(),
{
    if segs.len() == 0 {
        p
    } else if p >= segs[0].end {
        shift_at(
            segs.drop_first(),
            p - (segs[0].end - segs[0].start) + placeholder(segs[0].idx as nat).len(),
        )
    } else {
        shift_at(segs.drop_first(), p)
    }
}

/// Range validity, second half: no byte outside a computed range is
/// altered; it reappears in the output at its shifted position.
pub proof fn lemma_splice_outside_unaltered(s: Seq<u8>, segs: Seq<Segment>, p: int)
    requires
        segs_valid(segs, s.len() as int),
        0 <= p < s.len(),
        outside_all(segs, p),
    ensures
        0 <= shift_at(segs, p) < apply_edits(s, segs).len(),
        apply_edits(s, segs)[shift_at(segs, p)] == s[p],
    decreases segs.len(),
{
    if segs.len() == 0 {
    } else {
        let a = segs[0].start as int;
        let b = segs[0].end as int;
        let ph = placeholder(segs[0].idx as nat);
        let s1 = splice_bytes(s, a, b, ph);
        lemma_segs_valid_drop(s, segs);
        let rest = segs.drop_first();
        assert(!(a <= p < b));
        if p >= b {
            let p1 = p - (b - a) + ph.len();
            assert(s1[p1] == s.subrange(b, s.len() as int)[p - b]);
            assert(s1[p1] == s[p]);
            assert forall|k: int| 0 <= k < rest.len() implies !((#[trigger] rest[k]).start <= p1
                < rest[k].end) by {
                assert(rest[k] == segs[k + 1]);
                lemma_end_chain(segs, s.len() as int, k + 1);
                assert(segs[k + 1].end <= a);
                assert(p1 >= a);
            }
            lemma_splice_outside_unaltered(s1, rest, p1);
        } else {
            assert(p < a);
            assert(s1[p] == s.subrange(0, a)[p]);
            assert(s1[p] == s[p]);
            assert forall|k: int| 0 <= k < rest.len() implies !((#[trigger] rest[k]).start <= p
                < rest[k].end) by {
                assert(rest[k] == segs[k + 1]);
            }
            lemma_splice_outside_unaltered(s1, rest, p);
        }
    }
}

/// Ordering: the spliced output depends only on the collection of
/// computed ranges, never on the order they were collected in —
/// sorting descending by start offset determines the application
/// uniquely, so the sort is sufficient, not merely convenient.
pub proof fn lemma_splice_order_independent(s: Seq<u8>, segs1: Seq<Segment>, segs2: Seq<Segment>)
    requires
        segs1.to_multiset() == segs2.to_multiset(),
    ensures
        sort_desc(segs1) == sort_desc(segs2),
        apply_edits(s, sort_desc(segs1)) == apply_edits(s, sort_desc(segs2)),
{
    lemma_seg_le_total();
    segs1.lemma_sort_by_ensures(seg_leq());
    segs2.lemma_sort_by_ensures(seg_leq());
    assert(sort_desc(segs1).to_multiset() == sort_desc(segs2).to_multiset());
    lemma_sorted_unique(sort_desc(segs1), sort_desc(segs2), seg_leq());
}

} // verus!
