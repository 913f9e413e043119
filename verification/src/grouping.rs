//! The bitfield grouper: walks the declaration tree and partitions each
//! record's bit-field members into storage-unit groups, following the
//! packing rule of the originating compiler for this header dialect.
//!
//! The rule, per record, scanning direct field children in declaration
//! order with a running bit accumulator:
//! - a non-bit-field member closes any open storage group;
//! - a bit-field wider than 32 bits is fatal;
//! - a zero-width bit-field is fatal unless a group is open, and
//!   otherwise closes the open group without being stored in it;
//! - a bit-field that would push the open group past 32 bits closes it
//!   first and opens a new group as its first member.

use vstd::prelude::*;

use crate::ast::{Ast, BitfieldError, Clang, IntegerLiteral, storage_type_ok, check_storage_type};

verus! {

/// The grouper's output: for each record (by arena index, in the order
/// the walk finds them) the ordered storage groups, each an ordered
/// sequence of field node indices.
pub type Bitfields = Vec<(usize, Vec<Vec<usize>>)>;

/// Closes a pending group: appends it to the finished groups unless it
/// is empty.
pub open spec fn flush(acc: Seq<Seq<usize>>, pending: Seq<usize>) -> Seq<Seq<usize>> {
    if pending.len() == 0 {
        acc
    } else {
        acc.push(pending)
    }
}

/// One record's grouping, scanning children `cs[k..]` with finished
/// groups `acc`, open group `pending` and `accum` bits used in it.
pub open spec fn group_rec(
    ast: Ast,
    cs: Seq<usize>,
    k: int,
    acc: Seq<Seq<usize>>,
    pending: Seq<usize>,
    accum: int,
) -> Result<Seq<Seq<usize>>, BitfieldError>
    decreases cs.len() - k,
{
    if k < 0 || k >= cs.len() {
        Ok(flush(acc, pending))
    } else {
        let c = cs[k] as int;
        match ast.node(c).kind {
            Clang::FieldDecl(fd) => {
                if fd.is_bitfield == Some(true) {
                    if !storage_type_ok(fd.field_type) {
                        Err(BitfieldError::StorageTypeNotU32)
                    } else if !ast.has_width_lit(c) {
                        Err(BitfieldError::MissingWidth)
                    } else {
                        let w = ast.width_of(c) as int;
                        if w > 32 {
                            Err(BitfieldError::WidthTooLarge)
                        } else if w == 0 && pending.len() == 0 {
                            Err(BitfieldError::ZeroWidthWithoutGroup)
                        } else {
                            let acc1 = if accum + w > 32 {
                                flush(acc, pending)
                            } else {
                                acc
                            };
                            let pending1 = if accum + w > 32 {
                                Seq::<usize>::empty()
                            } else {
                                pending
                            };
                            let accum1 = if accum + w > 32 {
                                0
                            } else {
                                accum
                            };
                            if w == 0 {
                                group_rec(ast, cs, k + 1, flush(acc1, pending1), Seq::empty(), 0)
                            } else {
                                group_rec(ast, cs, k + 1, acc1, pending1.push(cs[k]), accum1 + w)
                            }
                        }
                    }
                } else {
                    group_rec(ast, cs, k + 1, flush(acc, pending), Seq::empty(), 0)
                }
            },
            _ => group_rec(ast, cs, k + 1, acc, pending, accum),
        }
    }
}

/// The storage groups of record `i`.
pub open spec fn record_groups(ast: Ast, i: int) -> Result<Seq<Seq<usize>>, BitfieldError> {
    group_rec(ast, ast.node(i).inner@, 0, Seq::empty(), Seq::empty(), 0)
}

/// The table entries contributed by the subtree rooted at node `i`:
/// if `i` is a record, its own entry (omitted when it has no groups)
/// followed by the entries of its non-field children; otherwise the
/// entries of all children.
pub open spec fn walk_node(ast: Ast, i: int) -> Result<
    Seq<(usize, Seq<Seq<usize>>)>,
    BitfieldError,
>
    decreases ast.len() - i, 1int, 0int,
        when ast.wf() && 0 <= i < ast.len()
{
    if ast.is_record(i) {
        match record_groups(ast, i) {
            Err(e) => Err(e),
            Ok(groups) => {
                let head: Seq<(usize, Seq<Seq<usize>>)> = if groups.len() > 0 {
                    seq![(i as usize, groups)]
                } else {
                    Seq::empty()
                };
                match walk_children(ast, i, ast.node(i).inner@, 0, true) {
                    Err(e) => Err(e),
                    Ok(rest) => Ok(head + rest),
                }
            },
        }
    } else {
        walk_children(ast, i, ast.node(i).inner@, 0, false)
    }
}

/// The table entries contributed by children `cs[k..]` of node `i`,
/// skipping field children when `skip_fields` is set (a record's field
/// children belong to its own grouping, not to the walk).
pub open spec fn walk_children(
    ast: Ast,
    i: int,
    cs: Seq<usize>,
    k: int,
    skip_fields: bool,
) -> Result<Seq<(usize, Seq<Seq<usize>>)>, BitfieldError>
    decreases ast.len() - i, 0int, cs.len() - k,
        when ast.wf() && 0 <= i < ast.len() && cs == ast.node(i).inner@
{
    if k < 0 || k >= cs.len() {
        Ok(Seq::empty())
    } else {
        let c = cs[k] as int;
        if skip_fields && ast.is_field(c) {
            walk_children(ast, i, cs, k + 1, skip_fields)
        } else {
            match walk_node(ast, c) {
                Err(e) => Err(e),
                Ok(first) => match walk_children(ast, i, cs, k + 1, skip_fields) {
                    Err(e) => Err(e),
                    Ok(rest) => Ok(first + rest),
                },
            }
        }
    }
}

/// What `find_bitfields` computes: the entries of the whole tree,
/// rooted at node 0.
pub open spec fn table_spec(ast: Ast) -> Result<Seq<(usize, Seq<Seq<usize>>)>, BitfieldError> {
    if ast.len() == 0 {
        Ok(Seq::empty())
    } else {
        walk_node(ast, 0)
    }
}

/// Reads the width literal of field node `f`, if the tree has one in
/// the expected place (field -> width expression -> integer literal).
pub(crate) fn get_width_lit(ast: &Ast, f: usize) -> (r: Option<IntegerLiteral>)
    requires
        ast.wf(),
        f < ast.nodes@.len(),
    ensures
        match r {
            Some(l) => ast.has_width_lit(f as int) && l == ast.width_lit(f as int),
            None => !ast.has_width_lit(f as int),
        },
{
    if ast.nodes[f].inner.len() < 1 {
        return None;
    }
    let w0 = ast.nodes[f].inner[0];
    assert(f < w0 < ast.nodes@.len());
    if ast.nodes[w0].inner.len() < 1 {
        return None;
    }
    let l = ast.nodes[w0].inner[0];
    assert(w0 < l < ast.nodes@.len());
    match &ast.nodes[l].kind {
        Clang::IntegerLiteral(lit) => Some(*lit),
        _ => None,
    }
}

/// Groups the bit-field children of record `i` into storage units.
fn group_record(ast: &Ast, i: usize) -> (r: Result<Vec<Vec<usize>>, BitfieldError>)
    requires
        ast.wf(),
        i < ast.nodes@.len(),
    ensures
        match r {
            Ok(g) => record_groups(*ast, i as int) == Ok::<_, BitfieldError>(g.deep_view()),
            Err(e) => record_groups(*ast, i as int) == Err::<Seq<Seq<usize>>, _>(e),
        },
{
    let ghost cs: Seq<usize> = ast.node(i as int).inner@;
    let n = ast.nodes[i].inner.len();
    let mut acc: Vec<Vec<usize>> = Vec::new();
    let mut pending: Vec<usize> = Vec::new();
    let mut accum: u64 = 0;
    let mut k: usize = 0;
    assert(acc.deep_view() =~~= Seq::<Seq<usize>>::empty());
    while k < n
        invariant
            ast.wf(),
            i < ast.nodes@.len(),
            cs == ast.node(i as int).inner@,
            n == cs.len(),
            k <= n,
            accum <= 32,
            pending@.len() == 0 ==> accum == 0,
            record_groups(*ast, i as int) == group_rec(
                *ast,
                cs,
                k as int,
                acc.deep_view(),
                pending@,
                accum as int,
            ),
        decreases n - k,
    {
        let ghost k0 = k as int;
        let ghost acc0 = acc.deep_view();
        let ghost pend0 = pending@;
        let ghost accum0 = accum as int;
        let c = ast.nodes[i].inner[k];
        assert(i < c < ast.nodes@.len());
        match &ast.nodes[c].kind {
            Clang::FieldDecl(fd) => {
                let bf = match fd.is_bitfield {
                    Some(b) => b,
                    None => false,
                };
                if bf {
                    if !check_storage_type(&fd.field_type) {
                        return Err(BitfieldError::StorageTypeNotU32);
                    }
                    let lit = match get_width_lit(ast, c) {
                        Some(l) => l,
                        None => {
                            return Err(BitfieldError::MissingWidth);
                        },
                    };
                    let w = lit.value;
                    if w > 32 {
                        return Err(BitfieldError::WidthTooLarge);
                    }
                    if w == 0 && pending.len() == 0 {
                        return Err(BitfieldError::ZeroWidthWithoutGroup);
                    }
                    let ghost acc_before = acc.deep_view();
                    let ghost pending_before = pending@;
                    if accum + w > 32 {
                        if pending.len() > 0 {
                            acc.push(pending);
                            pending = Vec::new();
                        }
                        accum = 0;
                        assert(acc.deep_view() =~~= flush(acc_before, pending_before));
                    }
                    if w == 0 {
                        let ghost acc1 = acc.deep_view();
                        let ghost pending1 = pending@;
                        acc.push(pending);
                        pending = Vec::new();
                        accum = 0;
                        assert(acc.deep_view() =~~= flush(acc1, pending1));
                    } else {
                        let ghost pending1 = pending@;
                        pending.push(c);
                        accum = accum + w;
                        assert(pending@ =~= pending1.push(cs[k as int]));
                    }
                } else {
                    let ghost acc_before = acc.deep_view();
                    let ghost pending_before = pending@;
                    if pending.len() > 0 {
                        acc.push(pending);
                        pending = Vec::new();
                    }
                    accum = 0;
                    assert(acc.deep_view() =~~= flush(acc_before, pending_before));
                }
            },
            _ => {},
        }
        proof {
            if pending@.len() == 0 {
                assert(pending@ =~= Seq::<usize>::empty());
            }
            if pend0.len() == 0 {
                assert(pend0 =~= Seq::<usize>::empty());
            }
            assert(group_rec(*ast, cs, k0, acc0, pend0, accum0) == group_rec(
                *ast,
                cs,
                k0 + 1,
                acc.deep_view(),
                pending@,
                accum as int,
            ));
        }
        k += 1;
    }
    let ghost acc_end = acc.deep_view();
    let ghost pending_end = pending@;
    if pending.len() > 0 {
        acc.push(pending);
    }
    assert(acc.deep_view() =~~= flush(acc_end, pending_end));
    Ok(acc)
}

/// Walks the subtree rooted at node `i` and returns its table entries.
fn walk_rec(ast: &Ast, i: usize) -> (r: Result<Bitfields, BitfieldError>)
    requires
        ast.wf(),
        i < ast.nodes@.len(),
    ensures
        match r {
            Ok(t) => walk_node(*ast, i as int) == Ok::<_, BitfieldError>(t.deep_view()),
            Err(e) => walk_node(*ast, i as int) == Err::<Seq<(usize, Seq<Seq<usize>>)>, _>(e),
        },
    decreases ast.nodes@.len() - i,
{
    let mut out: Bitfields = Vec::new();
    let is_rec = match &ast.nodes[i].kind {
        Clang::RecordDecl(_) => true,
        _ => false,
    };
    if is_rec {
        let groups = match group_record(ast, i) {
            Ok(g) => g,
            Err(e) => {
                return Err(e);
            },
        };
        if groups.len() > 0 {
            out.push((i, groups));
        }
    }
    let ghost head: Seq<(usize, Seq<Seq<usize>>)> = out.deep_view();
    proof {
        if ast.is_record(i as int) {
            match record_groups(*ast, i as int) {
                Ok(g) => {
                    if g.len() > 0 {
                        assert(head =~~= seq![(i, g)]);
                    } else {
                        assert(head =~= Seq::<(usize, Seq<Seq<usize>>)>::empty());
                    }
                },
                Err(_) => {},
            }
        } else {
            assert(head =~= Seq::<(usize, Seq<Seq<usize>>)>::empty());
        }
    }
    let ghost cs: Seq<usize> = ast.node(i as int).inner@;
    let ghost skip = is_rec;
    let n = ast.nodes[i].inner.len();
    let mut k: usize = 0;
    let ghost mut done: Seq<(usize, Seq<Seq<usize>>)> = Seq::empty();
    assert(out.deep_view() =~~= head + done);
    while k < n
        invariant
            ast.wf(),
            i < ast.nodes@.len(),
            cs == ast.node(i as int).inner@,
            n == cs.len(),
            k <= n,
            is_rec == ast.is_record(i as int),
            skip == is_rec,
            is_rec ==> (record_groups(*ast, i as int) matches Ok(g) && head == (
                if g.len() > 0 {
                    seq![(i, g)]
                } else {
                    Seq::<(usize, Seq<Seq<usize>>)>::empty()
                }
            )),
            !is_rec ==> head == Seq::<(usize, Seq<Seq<usize>>)>::empty(),
            out.deep_view() == head + done,
            match walk_children(*ast, i as int, cs, k as int, skip) {
                Ok(rest) => walk_children(*ast, i as int, cs, 0, skip) == Ok::<
                    _,
                    BitfieldError,
                >(done + rest),
                Err(e) => walk_children(*ast, i as int, cs, 0, skip) == Err::<
                    Seq<(usize, Seq<Seq<usize>>)>,
                    _,
                >(e),
            },
        decreases n - k,
    {
        let c = ast.nodes[i].inner[k];
        assert(i < c < ast.nodes@.len());
        let is_field_child = match &ast.nodes[c].kind {
            Clang::FieldDecl(_) => true,
            _ => false,
        };
        if !(is_rec && is_field_child) {
            match walk_rec(ast, c) {
                Ok(mut sub) => {
                    let ghost sub_dv = sub.deep_view();
                    let ghost out_before = out.deep_view();
                    out.append(&mut sub);
                    assert(out.deep_view() =~~= out_before + sub_dv);
                    proof {
                        let done_old = done;
                        done = done + sub_dv;
                        assert(out.deep_view() =~~= head + done);
                        match walk_children(*ast, i as int, cs, k as int + 1, skip) {
                            Ok(rest) => {
                                assert(done_old + (sub_dv + rest) =~= done + rest);
                            },
                            Err(_) => {},
                        }
                    }
                },
                Err(e) => {
                    return Err(e);
                },
            }
        }
        k += 1;
    }
    proof {
        assert(walk_children(*ast, i as int, cs, n as int, skip) == Ok::<
            Seq<(usize, Seq<Seq<usize>>)>,
            BitfieldError,
        >(Seq::empty()));
        assert(done + Seq::<(usize, Seq<Seq<usize>>)>::empty() =~= done);
        if ast.is_record(i as int) {
            match record_groups(*ast, i as int) {
                Ok(g) => {
                    assert(walk_node(*ast, i as int) == Ok::<_, BitfieldError>(head + done));
                },
                Err(_) => {},
            }
        }
    }
    Ok(out)
}

/// Builds the bitfield table of the whole tree: one entry per record
/// that contains at least one bit-field-bearing storage group, in walk
/// order; records without bit-fields are absent.
pub fn find_bitfields(ast: &Ast) -> (r: Result<Bitfields, BitfieldError>)
    requires
        ast.wf(),
    ensures
        match r {
            Ok(t) => table_spec(*ast) == Ok::<_, BitfieldError>(t.deep_view()),
            Err(e) => table_spec(*ast) == Err::<Seq<(usize, Seq<Seq<usize>>)>, _>(e),
        },
{
    if ast.nodes.len() == 0 {
        let empty: Bitfields = Vec::new();
        assert(empty.deep_view() =~= Seq::<(usize, Seq<Seq<usize>>)>::empty());
        return Ok(empty);
    }
    walk_rec(ast, 0)
}

/// Closes a pending group of widths, as `flush` does for field indices.
pub open spec fn flush_w(acc: Seq<Seq<u64>>, pending: Seq<u64>) -> Seq<Seq<u64>> {
    if pending.len() == 0 {
        acc
    } else {
        acc.push(pending)
    }
}

/// Greedy left-to-right packing of bit widths into 32-bit units: a
/// width that would push the open unit past 32 closes it and opens a
/// new one; a zero width closes the open unit without being stored.
pub open spec fn greedy_rec(
    ws: Seq<u64>,
    k: int,
    acc: Seq<Seq<u64>>,
    pending: Seq<u64>,
    accum: int,
) -> Seq<Seq<u64>>
    decreases ws.len() - k,
{
    if k < 0 || k >= ws.len() {
        flush_w(acc, pending)
    } else {
        let w = ws[k] as int;
        let acc1 = if accum + w > 32 {
            flush_w(acc, pending)
        } else {
            acc
        };
        let pending1 = if accum + w > 32 {
            Seq::<u64>::empty()
        } else {
            pending
        };
        let accum1 = if accum + w > 32 {
            0
        } else {
            accum
        };
        if w == 0 {
            greedy_rec(ws, k + 1, flush_w(acc1, pending1), Seq::empty(), 0)
        } else {
            greedy_rec(ws, k + 1, acc1, pending1.push(ws[k]), accum1 + w)
        }
    }
}

pub open spec fn greedy_pack(ws: Seq<u64>) -> Seq<Seq<u64>> {
    greedy_rec(ws, 0, Seq::empty(), Seq::empty(), 0)
}

/// The widths of a sequence of field nodes.
pub open spec fn group_widths(ast: Ast, g: Seq<usize>) -> Seq<u64> {
    g.map_values(|f: usize| ast.width_of(f as int))
}

pub open spec fn groups_widths(ast: Ast, gs: Seq<Seq<usize>>) -> Seq<Seq<u64>> {
    gs.map_values(|g: Seq<usize>| group_widths(ast, g))
}

/// Every child is a bit-field member declaration.
pub open spec fn all_bitfield_children(ast: Ast, cs: Seq<usize>) -> bool {
    forall|k: int|
        0 <= k < cs.len() ==> ast.is_field(#[trigger] cs[k] as int) && ast.field_at(
            cs[k] as int,
        ).is_bitfield == Some(true)
}

proof fn lemma_greedy_rec(
    ast: Ast,
    cs: Seq<usize>,
    k: int,
    acc: Seq<Seq<usize>>,
    pending: Seq<usize>,
    accum: int,
    groups: Seq<Seq<usize>>,
)
    requires
        0 <= k <= cs.len(),
        all_bitfield_children(ast, cs),
        group_rec(ast, cs, k, acc, pending, accum) == Ok::<_, BitfieldError>(groups),
    ensures
        greedy_rec(
            group_widths(ast, cs),
            k,
            groups_widths(ast, acc),
            group_widths(ast, pending),
            accum,
        ) == groups_widths(ast, groups),
    decreases cs.len() - k,
{
    let ws = group_widths(ast, cs);
    assert(ws.len() == cs.len());
    if k >= cs.len() {
        assert(groups == flush(acc, pending));
        if pending.len() == 0 {
            assert(group_widths(ast, pending).len() == 0);
        } else {
            assert(groups_widths(ast, acc.push(pending)) =~= groups_widths(ast, acc).push(
                group_widths(ast, pending),
            ));
        }
    } else {
        let c = cs[k] as int;
        let fd = ast.field_at(c);
        assert(ast.is_field(c) && fd.is_bitfield == Some(true));
        let w = ast.width_of(c) as int;
        assert(ws[k] == ast.width_of(c));
        let acc1 = if accum + w > 32 {
            flush(acc, pending)
        } else {
            acc
        };
        let pending1 = if accum + w > 32 {
            Seq::<usize>::empty()
        } else {
            pending
        };
        let accum1: int = if accum + w > 32 {
            0
        } else {
            accum
        };
        if pending.len() != 0 {
            assert(groups_widths(ast, acc.push(pending)) =~= groups_widths(ast, acc).push(
                group_widths(ast, pending),
            ));
        }
        assert(groups_widths(ast, acc1) == (if accum + w > 32 {
            flush_w(groups_widths(ast, acc), group_widths(ast, pending))
        } else {
            groups_widths(ast, acc)
        }));
        assert(group_widths(ast, Seq::<usize>::empty()) =~= Seq::<u64>::empty());
        if w == 0 {
            if pending1.len() != 0 {
                assert(groups_widths(ast, acc1.push(pending1)) =~= groups_widths(
                    ast,
                    acc1,
                ).push(group_widths(ast, pending1)));
            }
            lemma_greedy_rec(ast, cs, k + 1, flush(acc1, pending1), Seq::empty(), 0, groups);
        } else {
            assert(group_widths(ast, pending1.push(cs[k])) =~= group_widths(ast, pending1).push(
                ast.width_of(c),
            ));
            lemma_greedy_rec(ast, cs, k + 1, acc1, pending1.push(cs[k]), accum1 + w, groups);
        }
    }
}

/// Packing correctness: for a record whose direct children are all
/// bit-field members, a successful grouping, read as widths, is the
/// greedy left-to-right packing of the declared widths into 32-bit
/// storage units, with an early cut whenever the running sum would
/// pass 32 bits and a forced cut (excluding the cutting member
/// itself) on every zero-width member.
pub proof fn lemma_packing_correctness(ast: Ast, i: int, groups: Seq<Seq<usize>>)
    requires
        0 <= i < ast.len(),
        all_bitfield_children(ast, ast.node(i).inner@),
        record_groups(ast, i) == Ok::<_, BitfieldError>(groups),
    ensures
        groups_widths(ast, groups) == greedy_pack(group_widths(ast, ast.node(i).inner@)),
{
    assert(groups_widths(ast, Seq::<Seq<usize>>::empty()) =~= Seq::<Seq<u64>>::empty());
    assert(group_widths(ast, Seq::<usize>::empty()) =~= Seq::<u64>::empty());
    lemma_greedy_rec(ast, ast.node(i).inner@, 0, Seq::empty(), Seq::empty(), 0, groups);
}

} // verus!
