//! The reconciliation step of the pipeline driver: after the
//! struct-layout generator has been re-run on the spliced text, each
//! regenerated struct declaration is paired with the bitfield info
//! recorded for its name.  A declaration without a recorded entry, or
//! an entry no declaration claims, is a fatal contract break between
//! the two generation passes — a dropped record would silently yield
//! an incomplete binding.

use vstd::prelude::*;

use crate::ast::BitfieldError;
use crate::info::BitfieldInfo;

verus! {

/// A struct declaration as the external generator reports it: a name
/// and the field names in declaration order.
#[derive(Debug)]
pub struct StructDecl {
    pub name: String,
    pub fields: Vec<String>,
}

/// One record's recorded groups, as `BitfieldInfo` stores them.
pub type InfoEntry = (Seq<char>, Seq<Seq<(Seq<char>, u64)>>);

/// The first index of `info` whose record name is `name`, or
/// `info.len()` when no entry has it.
pub open spec fn find_entry(info: Seq<InfoEntry>, name: Seq<char>) -> int
    decreases info.len(),
{
    if info.len() == 0 {
        0
    } else if info[0].0 == name {
        0
    } else {
        1 + find_entry(info.drop_first(), name)
    }
}

pub proof fn lemma_find_entry(info: Seq<InfoEntry>, name: Seq<char>)
    ensures
        0 <= find_entry(info, name) <= info.len(),
        find_entry(info, name) < info.len() ==> info[find_entry(info, name)].0 == name,
        forall|q: int| 0 <= q < find_entry(info, name) ==> (#[trigger] info[q]).0 != name,
    decreases info.len(),
{
    if info.len() > 0 && info[0].0 != name {
        lemma_find_entry(info.drop_first(), name);
        assert forall|q: int| 0 <= q < find_entry(info, name) implies (#[trigger] info[q]).0
            != name by {
            if q > 0 {
                assert(info.drop_first()[q - 1] == info[q]);
            }
        }
    }
}

/// What reconciliation yields: the declarations in order, each paired
/// with the first not-yet-claimed entry of its name; fatal when a
/// declaration has no entry or an entry stays unclaimed.
pub open spec fn reconcile_spec(decls: Seq<StructDecl>, info: Seq<InfoEntry>) -> Result<
    Seq<(StructDecl, Seq<Seq<(Seq<char>, u64)>>)>,
    BitfieldError,
>
    decreases decls.len(),
{
    if decls.len() == 0 {
        if info.len() == 0 {
            Ok(Seq::empty())
        } else {
            Err(BitfieldError::UnmatchedInfo)
        }
    } else {
        let j = find_entry(info, decls[0].name@);
        if j >= info.len() {
            Err(BitfieldError::MissingInfo)
        } else {
            match reconcile_spec(decls.drop_first(), info.remove(j)) {
                Err(e) => Err(e),
                Ok(rest) => Ok(seq![(decls[0], info[j].1)] + rest),
            }
        }
    }
}

/// The spec-level reading of the reconciler's output pairs.
pub open spec fn pairs_view(out: Seq<(StructDecl, Vec<Vec<(String, u64)>>)>) -> Seq<
    (StructDecl, Seq<Seq<(Seq<char>, u64)>>),
> {
    out.map_values(|p: (StructDecl, Vec<Vec<(String, u64)>>)| (p.0, p.1.deep_view()))
}

fn find_entry_exec(info: &BitfieldInfo, name: &String) -> (r: usize)
    ensures
        r as int == find_entry(info.deep_view(), name@),
{
    proof {
        lemma_find_entry(info.deep_view(), name@);
    }
    let n = info.len();
    let mut j: usize = 0;
    while j < n
        invariant
            n == info@.len(),
            j <= n,
            info.deep_view().len() == n,
            forall|q: int| 0 <= q < j ==> (#[trigger] info.deep_view()[q]).0 != name@,
        decreases n - j,
    {
        if info[j].0 == *name {
            proof {
                lemma_find_entry(info.deep_view(), name@);
                let s = find_entry(info.deep_view(), name@);
                assert(info.deep_view()[j as int].0 == name@);
                if s < j {
                    assert(info.deep_view()[s].0 != name@);
                }
            }
            return j;
        }
        assert(info.deep_view()[j as int].0 =~= info@[j as int].0@);
        j += 1;
    }
    proof {
        lemma_find_entry(info.deep_view(), name@);
        let s = find_entry(info.deep_view(), name@);
        if s < n {
            assert(info.deep_view()[s].0 != name@);
        }
    }
    n
}

/// Pairs every regenerated struct declaration with the recorded info
/// entry of its name, consuming entries first-match-first; errs with
/// `MissingInfo` on a declaration that has no remaining entry and with
/// `UnmatchedInfo` when entries are left over.
#[verifier::loop_isolation(false)]
pub fn reconcile(decls: Vec<StructDecl>, info: BitfieldInfo) -> (r: Result<
    Vec<(StructDecl, Vec<Vec<(String, u64)>>)>,
    BitfieldError,
>)
    ensures
        match r {
            Ok(out) => reconcile_spec(decls@, info.deep_view()) == Ok::<_, BitfieldError>(
                pairs_view(out@),
            ),
            Err(e) => reconcile_spec(decls@, info.deep_view()) == Err::<
                Seq<(StructDecl, Seq<Seq<(Seq<char>, u64)>>)>,
                _,
            >(e),
        },
{
    let ghost decls0 = decls@;
    let ghost info0 = info.deep_view();
    let mut ds = decls;
    let mut inf = info;
    let mut out: Vec<(StructDecl, Vec<Vec<(String, u64)>>)> = Vec::new();
    assert(pairs_view(out@) =~= Seq::<(StructDecl, Seq<Seq<(Seq<char>, u64)>>)>::empty());
    while ds.len() > 0
        invariant
            match reconcile_spec(ds@, inf.deep_view()) {
                Ok(rest) => reconcile_spec(decls0, info0) == Ok::<_, BitfieldError>(
                    pairs_view(out@) + rest,
                ),
                Err(e) => reconcile_spec(decls0, info0) == Err::<
                    Seq<(StructDecl, Seq<Seq<(Seq<char>, u64)>>)>,
                    _,
                >(e),
            },
        decreases ds@.len(),
    {
        let ghost dv = ds@;
        let ghost iv = inf.deep_view();
        let d = ds.remove(0);
        assert(ds@ =~= dv.drop_first());
        assert(d == dv[0]);
        let j = find_entry_exec(&inf, &d.name);
        if j >= inf.len() {
            proof {
                lemma_find_entry(iv, d.name@);
                assert(reconcile_spec(dv, iv) == Err::<
                    Seq<(StructDecl, Seq<Seq<(Seq<char>, u64)>>)>,
                    _,
                >(BitfieldError::MissingInfo));
            }
            return Err(BitfieldError::MissingInfo);
        }
        let entry = inf.remove(j);
        assert(inf.deep_view() =~~= iv.remove(j as int));
        assert(entry.1.deep_view() == iv[j as int].1);
        let ghost out_before = pairs_view(out@);
        out.push((d, entry.1));
        proof {
            assert(pairs_view(out@) =~= out_before.push((dv[0], iv[j as int].1)));
            match reconcile_spec(ds@, inf.deep_view()) {
                Ok(rest) => {
                    assert(out_before + (seq![(dv[0], iv[j as int].1)] + rest) =~= pairs_view(out@)
                        + rest);
                },
                Err(_) => {},
            }
        }
    }
    if inf.len() > 0 {
        return Err(BitfieldError::UnmatchedInfo);
    }
    assert(pairs_view(out@) + Seq::<(StructDecl, Seq<Seq<(Seq<char>, u64)>>)>::empty()
        =~= pairs_view(out@));
    Ok(out)
}

/// Round trip: reconciliation hands every declaration, in order,
/// exactly the groups — names and widths, in group order — that the
/// extractor recorded under that declaration's name, and consumes the
/// recorded table completely.
pub proof fn lemma_round_trip(
    decls: Seq<StructDecl>,
    info: Seq<InfoEntry>,
    pairs: Seq<(StructDecl, Seq<Seq<(Seq<char>, u64)>>)>,
)
    requires
        reconcile_spec(decls, info) == Ok::<_, BitfieldError>(pairs),
    ensures
        pairs.len() == decls.len(),
        info.len() == decls.len(),
        forall|k: int|
            0 <= k < pairs.len() ==> (#[trigger] pairs[k]).0 == decls[k] && exists|j: int|
                0 <= j < info.len() && (#[trigger] info[j]).0 == decls[k].name@ && pairs[k].1
                    == info[j].1,
    decreases decls.len(),
{
    if decls.len() == 0 {
    } else {
        let j0 = find_entry(info, decls[0].name@);
        lemma_find_entry(info, decls[0].name@);
        let rest_info = info.remove(j0);
        let rest = reconcile_spec(decls.drop_first(), rest_info);
        lemma_round_trip(decls.drop_first(), rest_info, rest.unwrap());
        let tail = rest.unwrap();
        assert(pairs =~= seq![(decls[0], info[j0].1)] + tail);
        assert forall|k: int| 0 <= k < pairs.len() implies (#[trigger] pairs[k]).0 == decls[k]
            && exists|j: int|
            0 <= j < info.len() && (#[trigger] info[j]).0 == decls[k].name@ && pairs[k].1
                == info[j].1 by {
            if k == 0 {
                assert(info[j0].0 == decls[0].name@ && pairs[0].1 == info[j0].1);
            } else {
                assert(pairs[k] == tail[k - 1]);
                assert(decls.drop_first()[k - 1] == decls[k]);
                let jr = choose|jr: int|
                    0 <= jr < rest_info.len() && (#[trigger] rest_info[jr]).0 == decls[k].name@
                        && tail[k - 1].1 == rest_info[jr].1;
                let jorig = if jr < j0 {
                    jr
                } else {
                    jr + 1
                };
                assert(rest_info[jr] == info[jorig]);
            }
        }
    }
}

/// The alternation pattern of the record names, joined with `|`, for
/// the generator's type allowlist.
pub open spec fn joined_from(names: Seq<Seq<char>>, k: int) -> Seq<char>
    decreases names.len() - k,
{
    if k < 0 || k >= names.len() {
        Seq::empty()
    } else if k == names.len() - 1 {
        names[k]
    } else {
        names[k] + seq!['|'] + joined_from(names, k + 1)
    }
}

/// The record names of an info table.
pub open spec fn info_names(info: Seq<InfoEntry>) -> Seq<Seq<char>> {
    info.map_values(|e: InfoEntry| e.0)
}

/// Joins the info table's record names with `|` into the type
/// allowlist pattern handed to the struct-layout generator.
pub fn allowlist_pattern(info: &BitfieldInfo) -> (r: String)
    ensures
        r@ == joined_from(info_names(info.deep_view()), 0),
{
    let ghost names = info_names(info.deep_view());
    let mut s = String::new();
    let n = info.len();
    let mut k: usize = 0;
    while k < n
        invariant
            n == info@.len(),
            names == info_names(info.deep_view()),
            names.len() == n,
            k <= n,
            joined_from(names, 0) == (if k == 0 {
                joined_from(names, 0)
            } else if k < n {
                s@ + seq!['|'] + joined_from(names, k as int)
            } else {
                s@
            }),
            k == 0 ==> s@ == Seq::<char>::empty(),
        decreases n - k,
    {
        if k > 0 {
            s.append("|");
            proof {
                reveal_strlit("|");
                assert("|"@ =~= seq!['|']);
            }
        }
        let name = &info[k].0;
        assert(name@ == names[k as int]);
        s.append(name.as_str());
        proof {
            if k == 0 {
                if k + 1 < n {
                    assert(joined_from(names, 0) =~= s@ + seq!['|'] + joined_from(
                        names,
                        k as int + 1,
                    ));
                } else {
                    assert(joined_from(names, 0) =~= s@);
                }
            } else {
                if k + 1 < n {
                    assert(joined_from(names, 0) =~= s@ + seq!['|'] + joined_from(
                        names,
                        k as int + 1,
                    ));
                } else {
                    assert(joined_from(names, 0) =~= s@);
                }
            }
        }
        k += 1;
    }
    proof {
        if n == 0 {
            assert(joined_from(names, 0) =~= Seq::<char>::empty());
        }
    }
    s
}

} // verus!
