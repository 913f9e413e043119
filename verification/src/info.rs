//! The bitfield info extractor: a pure transform of the grouper's
//! table into a name-indexed listing of (field name, bit width) per
//! storage group.  The listing depends on textual names only, never on
//! node identity, because the records will be re-parsed from modified
//! text into fresh nodes and matched back by name.

use vstd::prelude::*;

use crate::ast::{Ast, BitfieldError};
use crate::grouping::Bitfields;
use crate::splice::table_wf;

verus! {

/// The durable artifact: per record name, the ordered storage groups,
/// each an ordered list of (member name, bit width).
pub type BitfieldInfo = Vec<(String, Vec<Vec<(String, u64)>>)>;

/// One member's entry: its name and width; a member without a name or
/// without a width literal is fatal, since accessor generation
/// downstream needs both.
pub open spec fn field_info(ast: Ast, f: int) -> Result<(Seq<char>, u64), BitfieldError> {
    if !ast.has_width_lit(f) {
        Err(BitfieldError::MissingWidth)
    } else {
        match ast.field_at(f).name {
            None => Err(BitfieldError::UnnamedField),
            Some(name) => Ok((name@, ast.width_of(f))),
        }
    }
}

/// The entries of the members `g[j..]` of one group.
pub open spec fn group_info(ast: Ast, g: Seq<usize>, j: int) -> Result<
    Seq<(Seq<char>, u64)>,
    BitfieldError,
>
    decreases g.len() - j,
{
    if j < 0 || j >= g.len() {
        Ok(Seq::empty())
    } else {
        match field_info(ast, g[j] as int) {
            Err(e) => Err(e),
            Ok(fi) => match group_info(ast, g, j + 1) {
                Err(e) => Err(e),
                Ok(rest) => Ok(seq![fi] + rest),
            },
        }
    }
}

/// The entries of the groups `gs[k..]` of one record.
pub open spec fn groups_info(ast: Ast, gs: Seq<Seq<usize>>, k: int) -> Result<
    Seq<Seq<(Seq<char>, u64)>>,
    BitfieldError,
>
    decreases gs.len() - k,
{
    if k < 0 || k >= gs.len() {
        Ok(Seq::empty())
    } else {
        match group_info(ast, gs[k], 0) {
            Err(e) => Err(e),
            Ok(gi) => match groups_info(ast, gs, k + 1) {
                Err(e) => Err(e),
                Ok(rest) => Ok(seq![gi] + rest),
            },
        }
    }
}

/// The info of the table entries `t[e..]`: a record must carry a name
/// to key its entry by.
pub open spec fn info_spec(
    ast: Ast,
    t: Seq<(usize, Seq<Seq<usize>>)>,
    e: int,
) -> Result<Seq<(Seq<char>, Seq<Seq<(Seq<char>, u64)>>)>, BitfieldError>
    decreases t.len() - e,
{
    if e < 0 || e >= t.len() {
        Ok(Seq::empty())
    } else {
        match ast.record_at(t[e].0 as int).name {
            None => Err(BitfieldError::UnnamedRecord),
            Some(rec_name) => match groups_info(ast, t[e].1, 0) {
                Err(er) => Err(er),
                Ok(gi) => match info_spec(ast, t, e + 1) {
                    Err(er) => Err(er),
                    Ok(rest) => Ok(seq![(rec_name@, gi)] + rest),
                },
            },
        }
    }
}

fn group_info_exec(ast: &Ast, g: &Vec<usize>) -> (r: Result<Vec<(String, u64)>, BitfieldError>)
    requires
        ast.wf(),
        crate::splice::group_fields_ok(*ast, g@),
    ensures
        match r {
            Ok(v) => group_info(*ast, g@, 0) == Ok::<_, BitfieldError>(v.deep_view()),
            Err(e) => group_info(*ast, g@, 0) == Err::<Seq<(Seq<char>, u64)>, _>(e),
        },
{
    let mut out: Vec<(String, u64)> = Vec::new();
    let n = g.len();
    let mut j: usize = 0;
    assert(out.deep_view() =~~= Seq::<(Seq<char>, u64)>::empty());
    while j < n
        invariant
            ast.wf(),
            crate::splice::group_fields_ok(*ast, g@),
            n == g@.len(),
            j <= n,
            match group_info(*ast, g@, j as int) {
                Ok(rest) => group_info(*ast, g@, 0) == Ok::<_, BitfieldError>(
                    out.deep_view() + rest,
                ),
                Err(e) => group_info(*ast, g@, 0) == Err::<Seq<(Seq<char>, u64)>, _>(e),
            },
        decreases n - j,
    {
        let f = g[j];
        let lit = match crate::grouping::get_width_lit(ast, f) {
            Some(l) => l,
            None => {
                return Err(BitfieldError::MissingWidth);
            },
        };
        let fd = match &ast.nodes[f].kind {
            crate::ast::Clang::FieldDecl(fd) => fd,
            _ => vstd::pervasive::unreached(),
        };
        let name = match &fd.name {
            None => {
                return Err(BitfieldError::UnnamedField);
            },
            Some(name) => name,
        };
        let owned = name.as_str().to_owned();
        let ghost out_before = out.deep_view();
        out.push((owned, lit.value));
        proof {
            assert(out.deep_view() =~~= out_before.push((name@, ast.width_of(f as int))));
            match group_info(*ast, g@, j as int + 1) {
                Ok(rest) => {
                    assert(out_before + (seq![(name@, ast.width_of(f as int))] + rest)
                        =~= out.deep_view() + rest);
                },
                Err(_) => {},
            }
        }
        j += 1;
    }
    proof {
        assert(group_info(*ast, g@, n as int) == Ok::<Seq<(Seq<char>, u64)>, BitfieldError>(
            Seq::empty(),
        ));
        assert(out.deep_view() + Seq::<(Seq<char>, u64)>::empty() =~= out.deep_view());
    }
    Ok(out)
}

fn groups_info_exec(ast: &Ast, gs: &Vec<Vec<usize>>) -> (r: Result<
    Vec<Vec<(String, u64)>>,
    BitfieldError,
>)
    requires
        ast.wf(),
        forall|k: int|
            0 <= k < gs.deep_view().len() ==> crate::splice::group_fields_ok(
                *ast,
                #[trigger] gs.deep_view()[k],
            ),
    ensures
        match r {
            Ok(v) => groups_info(*ast, gs.deep_view(), 0) == Ok::<_, BitfieldError>(v.deep_view()),
            Err(e) => groups_info(*ast, gs.deep_view(), 0) == Err::<
                Seq<Seq<(Seq<char>, u64)>>,
                _,
            >(e),
        },
{
    let ghost gv = gs.deep_view();
    let mut out: Vec<Vec<(String, u64)>> = Vec::new();
    let n = gs.len();
    let mut k: usize = 0;
    assert(out.deep_view() =~~= Seq::<Seq<(Seq<char>, u64)>>::empty());
    while k < n
        invariant
            ast.wf(),
            gv == gs.deep_view(),
            forall|q: int|
                0 <= q < gv.len() ==> crate::splice::group_fields_ok(*ast, #[trigger] gv[q]),
            n == gs@.len(),
            k <= n,
            match groups_info(*ast, gv, k as int) {
                Ok(rest) => groups_info(*ast, gv, 0) == Ok::<_, BitfieldError>(
                    out.deep_view() + rest,
                ),
                Err(e) => groups_info(*ast, gv, 0) == Err::<Seq<Seq<(Seq<char>, u64)>>, _>(e),
            },
        decreases n - k,
    {
        let g = &gs[k];
        assert(g@ =~= gv[k as int]);
        let gi = match group_info_exec(ast, g) {
            Ok(gi) => gi,
            Err(e) => {
                return Err(e);
            },
        };
        let ghost gi_dv = gi.deep_view();
        let ghost out_before = out.deep_view();
        out.push(gi);
        proof {
            assert(out.deep_view() =~~= out_before.push(gi_dv));
            match groups_info(*ast, gv, k as int + 1) {
                Ok(rest) => {
                    assert(out_before + (seq![gi_dv] + rest) =~= out.deep_view() + rest);
                },
                Err(_) => {},
            }
        }
        k += 1;
    }
    proof {
        assert(groups_info(*ast, gv, n as int) == Ok::<Seq<Seq<(Seq<char>, u64)>>, BitfieldError>(
            Seq::empty(),
        ));
        assert(out.deep_view() + Seq::<Seq<(Seq<char>, u64)>>::empty() =~= out.deep_view());
    }
    Ok(out)
}

/// Builds the durable name-indexed info from the grouper's table: one
/// entry per record, in table order; per group, the (name, width) of
/// every member.  Errs on an unnamed record, an unnamed member, or a
/// member without a width literal, exactly as recorded in `info_spec`.
pub fn get_bitfield_info(ast: &Ast, table: &Bitfields) -> (r: Result<BitfieldInfo, BitfieldError>)
    requires
        ast.wf(),
        table_wf(*ast, table.deep_view()),
    ensures
        match r {
            Ok(info) => info_spec(*ast, table.deep_view(), 0) == Ok::<_, BitfieldError>(
                info.deep_view(),
            ),
            Err(e) => info_spec(*ast, table.deep_view(), 0) == Err::<
                Seq<(Seq<char>, Seq<Seq<(Seq<char>, u64)>>)>,
                _,
            >(e),
        },
{
    let ghost tv = table.deep_view();
    let mut out: BitfieldInfo = Vec::new();
    let n = table.len();
    let mut e: usize = 0;
    assert(out.deep_view() =~~= Seq::<(Seq<char>, Seq<Seq<(Seq<char>, u64)>>)>::empty());
    while e < n
        invariant
            ast.wf(),
            table_wf(*ast, tv),
            tv == table.deep_view(),
            n == table@.len(),
            e <= n,
            match info_spec(*ast, tv, e as int) {
                Ok(rest) => info_spec(*ast, tv, 0) == Ok::<_, BitfieldError>(
                    out.deep_view() + rest,
                ),
                Err(er) => info_spec(*ast, tv, 0) == Err::<
                    Seq<(Seq<char>, Seq<Seq<(Seq<char>, u64)>>)>,
                    _,
                >(er),
            },
        decreases n - e,
    {
        let rec = table[e].0;
        assert(rec == tv[e as int].0);
        assert(ast.is_record(rec as int));
        let rd = match &ast.nodes[rec].kind {
            crate::ast::Clang::RecordDecl(rd) => rd,
            _ => vstd::pervasive::unreached(),
        };
        let rec_name = match &rd.name {
            None => {
                return Err(BitfieldError::UnnamedRecord);
            },
            Some(name) => name,
        };
        let groups = &table[e].1;
        assert(groups.deep_view() =~~= tv[e as int].1);
        let gi = match groups_info_exec(ast, groups) {
            Ok(gi) => gi,
            Err(er) => {
                return Err(er);
            },
        };
        let owned = rec_name.as_str().to_owned();
        let ghost gi_dv = gi.deep_view();
        let ghost out_before = out.deep_view();
        out.push((owned, gi));
        proof {
            assert(out.deep_view() =~~= out_before.push((rec_name@, gi_dv)));
            match info_spec(*ast, tv, e as int + 1) {
                Ok(rest) => {
                    assert(out_before + (seq![(rec_name@, gi_dv)] + rest) =~= out.deep_view()
                        + rest);
                },
                Err(_) => {},
            }
        }
        e += 1;
    }
    proof {
        assert(info_spec(*ast, tv, n as int) == Ok::<
            Seq<(Seq<char>, Seq<Seq<(Seq<char>, u64)>>)>,
            BitfieldError,
        >(Seq::empty()));
        assert(out.deep_view() + Seq::<(Seq<char>, Seq<Seq<(Seq<char>, u64)>>)>::empty()
            =~= out.deep_view());
    }
    Ok(out)
}

} // verus!
