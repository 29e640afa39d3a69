//! The precedence resolver: walks a forest of groups left to right and builds
//! a single application tree by precedence climbing, generalized to prefix,
//! postfix, infix and atomic operator forms. Each group's inner forests are
//! resolved independently at minimum binding power zero, as parenthesized
//! sub-expressions, and must be consumed whole.

use vstd::prelude::*;
use vstd::math::max;
use vstd::math::min;
use crate::ast::AppModel;
use crate::ast::Application;
use crate::ast::ErrorModel;
use crate::ast::Fixity;
use crate::ast::Group;
use crate::ast::GroupModel;
use crate::ast::ParseError;
use crate::ast::args_model;
use crate::ast::forest_model;
use crate::ast::forests_model_from;
use crate::ast::group_model;
use crate::ast::lemma_args_model_from;
use crate::ast::lemma_forest_model_from;
use crate::ast::lemma_forests_model_from;
use crate::ast::spec_show_name;

verus! {

/// How many groups a group stands for, itself included, counting through its
/// inner forests.
pub open spec fn gsize(g: GroupModel) -> nat
    decreases g, 0int,
{
    1 + inners_size(g.inner, 0)
}

pub open spec fn inners_size(fs: Seq<Seq<GroupModel>>, k: int) -> nat
    decreases fs, fs.len() - k,
{
    if k < 0 || k >= fs.len() {
        0
    } else {
        rsize(fs[k], 0) + inners_size(fs, k + 1)
    }
}

/// The total size of the groups of `f` from position `i` on.
pub open spec fn rsize(f: Seq<GroupModel>, i: int) -> nat
    decreases f, f.len() - i,
{
    if i < 0 || i >= f.len() {
        0
    } else {
        gsize(f[i]) + rsize(f, i + 1)
    }
}

pub proof fn lemma_rsize_mono(f: Seq<GroupModel>, i: int, j: int)
    requires
        0 <= i <= j,
    ensures
        rsize(f, j) <= rsize(f, i),
    decreases j - i,
{
    if i < j {
        lemma_rsize_mono(f, i + 1, j);
    }
}

pub proof fn lemma_inners_size_mono(fs: Seq<Seq<GroupModel>>, i: int, j: int)
    requires
        0 <= i <= j,
    ensures
        inners_size(fs, j) <= inners_size(fs, i),
    decreases j - i,
{
    if i < j {
        lemma_inners_size_mono(fs, i + 1, j);
    }
}

/// The view of a fixity table: each head-marker name with its fixity.
pub open spec fn levels_view(ls: Seq<(String, Fixity)>) -> Seq<(Seq<char>, Fixity)> {
    Seq::new(ls.len(), |i: int| (ls[i].0@, ls[i].1))
}

pub open spec fn fixity_of_from(tab: Seq<(Seq<char>, Fixity)>, name: Seq<char>, k: int) -> Option<
    Fixity,
>
    decreases tab.len() - k,
{
    if k < 0 || k >= tab.len() {
        None
    } else if tab[k].0 == name {
        Some(tab[k].1)
    } else {
        fixity_of_from(tab, name, k + 1)
    }
}

/// The fixity of an operator name: the first entry of the table carrying that
/// name (entries are expected to carry distinct names).
pub open spec fn fixity_of(tab: Seq<(Seq<char>, Fixity)>, name: Seq<char>) -> Option<Fixity> {
    fixity_of_from(tab, name, 0)
}

/// What resolving one expression from position `i` at minimum binding power
/// `power` returns: the application tree built, and the position of the first
/// group not consumed. The first group must be atomic or prefix; the loop
/// then folds in postfix and infix groups while their left power is at least
/// `power`.
pub open spec fn parse(
    f: Seq<GroupModel>,
    tab: Seq<(Seq<char>, Fixity)>,
    power: u32,
    i: int,
) -> Result<(AppModel, int), ErrorModel>
    decreases rsize(f, i), 1int, 0int,
    via parse_dec
{
    if i < 0 || i >= f.len() {
        Err(ErrorModel::EmptyExpression)
    } else {
        let g = f[i];
        match fixity_of(tab, g.head) {
            None => Err(ErrorModel::UnknownOperator { head: g.head }),
            Some(fx) => match fx {
                Fixity::Nonfix => match parse_inners(g.inner, tab, 0) {
                    Err(e) => Err(e),
                    Ok(args) => parse_loop(
                        f,
                        tab,
                        power,
                        AppModel { name: spec_show_name(g.head, g.parts, fx), args },
                        i + 1,
                    ),
                },
                Fixity::Prefix(rp) => match parse_inners(g.inner, tab, 0) {
                    Err(e) => Err(e),
                    Ok(args) => match parse(f, tab, rp, i + 1) {
                        Err(e) => Err(e),
                        Ok((rhs, j0)) => {
                            let j: int = min(max(j0, i + 1), f.len() as int);
                            parse_loop(
                                f,
                                tab,
                                power,
                                AppModel {
                                    name: spec_show_name(g.head, g.parts, fx),
                                    args: args.push(rhs),
                                },
                                j,
                            )
                        },
                    },
                },
                _ => Err(ErrorModel::MisplacedOperator { head: g.head }),
            },
        }
    }
}

#[via_fn]
proof fn parse_dec(f: Seq<GroupModel>, tab: Seq<(Seq<char>, Fixity)>, power: u32, i: int) {
    if 0 <= i && i < f.len() {
        assert(rsize(f, i) == gsize(f[i]) + rsize(f, i + 1));
        assert(gsize(f[i]) == 1 + inners_size(f[i].inner, 0));
        assert forall|j: int| i + 1 <= j <= f.len() implies #[trigger] rsize(f, j) < rsize(
            f,
            i,
        ) by {
            lemma_rsize_mono(f, i + 1, j);
        }
    }
}

/// The climbing loop: with `lhs` already built, folds in the next group while
/// it is postfix or infix with left power at least `power`; stops, without
/// consuming, at an atomic or prefix group, at a weaker operator, or at the
/// end of the forest.
pub open spec fn parse_loop(
    f: Seq<GroupModel>,
    tab: Seq<(Seq<char>, Fixity)>,
    power: u32,
    lhs: AppModel,
    i: int,
) -> Result<(AppModel, int), ErrorModel>
    decreases rsize(f, i), 0int, 0int,
    via parse_loop_dec
{
    if i < 0 || i >= f.len() {
        Ok((lhs, i))
    } else {
        let g = f[i];
        match fixity_of(tab, g.head) {
            None => Err(ErrorModel::UnknownOperator { head: g.head }),
            Some(fx) => match fx {
                Fixity::Postfix(lp) => {
                    if lp < power {
                        Ok((lhs, i))
                    } else {
                        match parse_inners(g.inner, tab, 0) {
                            Err(e) => Err(e),
                            Ok(args) => parse_loop(
                                f,
                                tab,
                                power,
                                AppModel {
                                    name: spec_show_name(g.head, g.parts, fx),
                                    args: seq![lhs] + args,
                                },
                                i + 1,
                            ),
                        }
                    }
                },
                Fixity::Infix(lp, rp) => {
                    if lp < power {
                        Ok((lhs, i))
                    } else {
                        match parse_inners(g.inner, tab, 0) {
                            Err(e) => Err(e),
                            Ok(args) => match parse(f, tab, rp, i + 1) {
                                Err(e) => Err(e),
                                Ok((rhs, j0)) => {
                                    let j: int = min(max(j0, i + 1), f.len() as int);
                                    parse_loop(
                                        f,
                                        tab,
                                        power,
                                        AppModel {
                                            name: spec_show_name(g.head, g.parts, fx),
                                            args: (seq![lhs] + args).push(rhs),
                                        },
                                        j,
                                    )
                                },
                            },
                        }
                    }
                },
                _ => Ok((lhs, i)),
            },
        }
    }
}

#[via_fn]
proof fn parse_loop_dec(
    f: Seq<GroupModel>,
    tab: Seq<(Seq<char>, Fixity)>,
    power: u32,
    lhs: AppModel,
    i: int,
) {
    if 0 <= i && i < f.len() {
        assert(rsize(f, i) == gsize(f[i]) + rsize(f, i + 1));
        assert(gsize(f[i]) == 1 + inners_size(f[i].inner, 0));
        assert forall|j: int| i + 1 <= j <= f.len() implies #[trigger] rsize(f, j) < rsize(
            f,
            i,
        ) by {
            lemma_rsize_mono(f, i + 1, j);
        }
    }
}

/// What resolving every inner forest from index `k` on returns: one argument
/// tree per forest, each forest resolved independently at minimum power zero
/// and consumed whole; leftover groups are an internal-consistency fault.
pub open spec fn parse_inners(
    fs: Seq<Seq<GroupModel>>,
    tab: Seq<(Seq<char>, Fixity)>,
    k: int,
) -> Result<Seq<AppModel>, ErrorModel>
    decreases inners_size(fs, k), 2int, fs.len() - k,
    via parse_inners_dec
{
    if k < 0 || k >= fs.len() {
        Ok(Seq::empty())
    } else {
        match parse(fs[k], tab, 0, 0) {
            Err(e) => Err(e),
            Ok((a, j)) => {
                if j != fs[k].len() {
                    Err(ErrorModel::InnerForestNotConsumed)
                } else {
                    match parse_inners(fs, tab, k + 1) {
                        Err(e) => Err(e),
                        Ok(rest) => Ok(seq![a] + rest),
                    }
                }
            },
        }
    }
}

#[via_fn]
proof fn parse_inners_dec(fs: Seq<Seq<GroupModel>>, tab: Seq<(Seq<char>, Fixity)>, k: int) {
    if 0 <= k && k < fs.len() {
        assert(inners_size(fs, k) == rsize(fs[k], 0) + inners_size(fs, k + 1));
    }
}

/// Total consumption: whenever inner-forest resolution succeeds, every inner
/// forest was resolved successfully and consumed whole, down to its last
/// group; a leftover group is reported as a fault, never dropped.
pub proof fn lemma_inner_forests_consumed(
    fs: Seq<Seq<GroupModel>>,
    tab: Seq<(Seq<char>, Fixity)>,
    k: int,
)
    requires
        0 <= k,
        parse_inners(fs, tab, k) is Ok,
    ensures
        forall|m: int|
            k <= m < fs.len() ==> (#[trigger] parse(fs[m], tab, 0, 0)) is Ok && parse(
                fs[m],
                tab,
                0,
                0,
            )->Ok_0.1 == fs[m].len(),
    decreases fs.len() - k,
{
    if k < fs.len() {
        lemma_inner_forests_consumed(fs, tab, k + 1);
    }
}

/// Prefix arity: a prefix operator with right power `rp` consumes exactly one
/// operand from the stream beyond its inner forests, resolved at minimum
/// binding power `rp` from the position after the operator; that operand is
/// the last argument of the application built, and the climb continues from
/// wherever the operand ended.
pub proof fn lemma_prefix_arity(
    f: Seq<GroupModel>,
    tab: Seq<(Seq<char>, Fixity)>,
    power: u32,
    rp: u32,
    i: int,
)
    requires
        0 <= i < f.len(),
        fixity_of(tab, f[i].head) == Some(Fixity::Prefix(rp)),
        parse(f, tab, power, i) is Ok,
    ensures
        parse_inners(f[i].inner, tab, 0) is Ok,
        parse(f, tab, rp, i + 1) is Ok,
        ({
            let args = parse_inners(f[i].inner, tab, 0)->Ok_0;
            let rhs = parse(f, tab, rp, i + 1)->Ok_0.0;
            let j0 = parse(f, tab, rp, i + 1)->Ok_0.1;
            parse(f, tab, power, i) == parse_loop(
                f,
                tab,
                power,
                AppModel {
                    name: spec_show_name(f[i].head, f[i].parts, Fixity::Prefix(rp)),
                    args: args.push(rhs),
                },
                min(max(j0, i + 1), f.len() as int),
            )
        }),
{
}

/// Finds the fixity recorded for an operator name, taking the first entry of
/// the table carrying that name.
fn find_fixity(levels: &Vec<(String, Fixity)>, name: &String) -> (r: Option<Fixity>)
    ensures
        r == fixity_of(levels_view(levels@), name@),
{
    let mut k: usize = 0;
    while k < levels.len()
        invariant
            k <= levels@.len(),
            fixity_of(levels_view(levels@), name@) == fixity_of_from(
                levels_view(levels@),
                name@,
                k as int,
            ),
        decreases levels@.len() - k,
    {
        let entry = &levels[k];
        if entry.0 == *name {
            proof {
                assert(levels_view(levels@)[k as int].0 == name@);
            }
            return Some(entry.1);
        }
        proof {
            assert(levels_view(levels@)[k as int].0 != name@);
        }
        k = k + 1;
    }
    None
}

/// Resolves every inner forest of a group, each independently at minimum
/// power zero; each forest must be consumed whole.
fn parse_inner_forests(forests: &Vec<Vec<Group>>, levels: &Vec<(String, Fixity)>) -> (r: Result<
    Vec<Application>,
    ParseError,
>)
    ensures
        (match r {
            Ok(a) => parse_inners(forests_model_from(forests@, 0), levels_view(levels@), 0)
                == Ok::<Seq<AppModel>, ErrorModel>(args_model(a@)),
            Err(e) => parse_inners(forests_model_from(forests@, 0), levels_view(levels@), 0)
                == Err::<Seq<AppModel>, ErrorModel>(e@),
        }),
    decreases inners_size(forests_model_from(forests@, 0), 0), 2int, 0int,
{
    let ghost fs = forests_model_from(forests@, 0);
    let ghost tab = levels_view(levels@);
    proof {
        lemma_forests_model_from(forests@, 0);
    }
    let mut out: Vec<Application> = Vec::new();
    let mut k: usize = 0;
    while k < forests.len()
        invariant
            k <= forests@.len(),
            fs == forests_model_from(forests@, 0),
            tab == levels_view(levels@),
            fs.len() == forests@.len(),
            parse_inners(fs, tab, 0) == (match parse_inners(fs, tab, k as int) {
                Ok(rest) => Ok::<Seq<AppModel>, ErrorModel>(args_model(out@) + rest),
                Err(er) => Err::<Seq<AppModel>, ErrorModel>(er),
            }),
        decreases forests@.len() - k,
    {
        let forest = &forests[k];
        proof {
            lemma_forests_model_from(forests@, 0);
            assert(fs[k as int] == forest_model(forest@));
            lemma_forest_model_from(forest@, 0);
            lemma_inners_size_mono(fs, 0, k as int);
            assert(inners_size(fs, k as int) == rsize(fs[k as int], 0) + inners_size(
                fs,
                k + 1,
            ));
        }
        let (app, j) = match pratt_parser(forest, 0, levels, 0) {
            Ok(p) => p,
            Err(er) => {
                proof {
                    assert(parse_inners(fs, tab, k as int) == Err::<Seq<AppModel>, ErrorModel>(
                        er@,
                    ));
                }
                return Err(er);
            },
        };
        if j != forest.len() {
            proof {
                assert(parse_inners(fs, tab, k as int) == Err::<Seq<AppModel>, ErrorModel>(
                    ErrorModel::InnerForestNotConsumed,
                ));
            }
            return Err(ParseError::InnerForestNotConsumed);
        }
        let ghost out0 = out@;
        out.push(app);
        k = k + 1;
        proof {
            lemma_args_model_from(out0, 0);
            lemma_args_model_from(out@, 0);
            assert forall|rest: Seq<AppModel>|
                true implies #[trigger] (args_model(out0) + (seq![app@] + rest)) == args_model(
                out@,
            ) + rest by {
                assert(args_model(out0) + (seq![app@] + rest) =~= args_model(out@) + rest);
            }
        }
    }
    proof {
        assert(args_model(out@) + Seq::<AppModel>::empty() =~= args_model(out@));
    }
    Ok(out)
}

/// Resolves one expression from the groups of `groups` starting at `start`,
/// at minimum binding power `power`; returns the application tree built and
/// the position of the first group not consumed.
pub fn pratt_parser(
    groups: &Vec<Group>,
    start: usize,
    levels: &Vec<(String, Fixity)>,
    power: u32,
) -> (r: Result<(Application, usize), ParseError>)
    ensures
        (match r {
            Ok(p) => start < p.1 <= groups@.len() && parse(
                forest_model(groups@),
                levels_view(levels@),
                power,
                start as int,
            ) == Ok::<(AppModel, int), ErrorModel>((p.0@, p.1 as int)),
            Err(e) => parse(forest_model(groups@), levels_view(levels@), power, start as int)
                == Err::<(AppModel, int), ErrorModel>(e@),
        }),
    decreases rsize(forest_model(groups@), start as int), 1int, 0int,
{
    let ghost f = forest_model(groups@);
    let ghost tab = levels_view(levels@);
    proof {
        lemma_forest_model_from(groups@, 0);
    }
    if start >= groups.len() {
        return Err(ParseError::EmptyExpression);
    }
    let group = &groups[start];
    proof {
        assert(f[start as int] == group_model(*group));
        assert(rsize(f, start as int) == gsize(f[start as int]) + rsize(f, start + 1));
        assert(gsize(f[start as int]) == 1 + inners_size(f[start as int].inner, 0));
    }
    let mut pos: usize = start + 1;
    let mut lhs: Application;
    match find_fixity(levels, &group.head_part) {
        None => {
            return Err(ParseError::UnknownOperator { head: group.head_part.clone() });
        },
        Some(fx) => {
            match fx {
                Fixity::Nonfix => {
                    let args = match parse_inner_forests(&group.inner_groups, levels) {
                        Ok(a) => a,
                        Err(er) => {
                            return Err(er);
                        },
                    };
                    let name = group.show_name(fx);
                    lhs = Application(name, args);
                },
                Fixity::Prefix(rp) => {
                    let mut args = match parse_inner_forests(&group.inner_groups, levels) {
                        Ok(a) => a,
                        Err(er) => {
                            return Err(er);
                        },
                    };
                    let (rhs, j) = match pratt_parser(groups, pos, levels, rp) {
                        Ok(p) => p,
                        Err(er) => {
                            return Err(er);
                        },
                    };
                    let ghost args0 = args@;
                    args.push(rhs);
                    proof {
                        lemma_args_model_from(args0, 0);
                        lemma_args_model_from(args@, 0);
                        assert(args_model(args@) =~= args_model(args0).push(rhs@));
                    }
                    let name = group.show_name(fx);
                    lhs = Application(name, args);
                    pos = j;
                },
                _ => {
                    return Err(ParseError::MisplacedOperator { head: group.head_part.clone() });
                },
            }
        },
    }
    loop
        invariant
            start < pos <= groups@.len(),
            f == forest_model(groups@),
            tab == levels_view(levels@),
            f.len() == groups@.len(),
            parse(f, tab, power, start as int) == parse_loop(f, tab, power, lhs@, pos as int),
        ensures
            start < pos <= groups@.len(),
            parse(f, tab, power, start as int) == Ok::<(AppModel, int), ErrorModel>(
                (lhs@, pos as int),
            ),
        decreases rsize(f, pos as int),
    {
        if pos >= groups.len() {
            break;
        }
        let g2 = &groups[pos];
        proof {
            lemma_forest_model_from(groups@, 0);
            assert(f[pos as int] == group_model(*g2));
            assert(rsize(f, pos as int) == gsize(f[pos as int]) + rsize(f, pos + 1));
            assert(gsize(f[pos as int]) == 1 + inners_size(f[pos as int].inner, 0));
            lemma_rsize_mono(f, start + 1, pos as int);
            assert(rsize(f, start as int) == gsize(f[start as int]) + rsize(f, start + 1));
        }
        match find_fixity(levels, &g2.head_part) {
            None => {
                return Err(ParseError::UnknownOperator { head: g2.head_part.clone() });
            },
            Some(fx2) => {
                match fx2 {
                    Fixity::Postfix(lp) => {
                        if lp < power {
                            break;
                        }
                        let mut inner_args = match parse_inner_forests(&g2.inner_groups, levels) {
                            Ok(a) => a,
                            Err(er) => {
                                return Err(er);
                            },
                        };
                        let name = g2.show_name(fx2);
                        let ghost lhs_m = lhs@;
                        let ghost inner0 = inner_args@;
                        let mut args: Vec<Application> = Vec::new();
                        args.push(lhs);
                        args.append(&mut inner_args);
                        proof {
                            lemma_args_model_from(inner0, 0);
                            lemma_args_model_from(args@, 0);
                            assert(args_model(args@) =~= seq![lhs_m] + args_model(inner0));
                        }
                        lhs = Application(name, args);
                        pos = pos + 1;
                    },
                    Fixity::Infix(lp, rp) => {
                        if lp < power {
                            break;
                        }
                        let mut inner_args = match parse_inner_forests(&g2.inner_groups, levels) {
                            Ok(a) => a,
                            Err(er) => {
                                return Err(er);
                            },
                        };
                        let (rhs, j) = match pratt_parser(groups, pos + 1, levels, rp) {
                            Ok(p) => p,
                            Err(er) => {
                                return Err(er);
                            },
                        };
                        proof {
                            lemma_rsize_mono(f, pos + 1, j as int);
                        }
                        let name = g2.show_name(fx2);
                        let ghost lhs_m = lhs@;
                        let ghost inner0 = inner_args@;
                        let mut args: Vec<Application> = Vec::new();
                        args.push(lhs);
                        args.append(&mut inner_args);
                        args.push(rhs);
                        proof {
                            lemma_args_model_from(inner0, 0);
                            lemma_args_model_from(args@, 0);
                            assert(args_model(args@) =~= (seq![lhs_m] + args_model(inner0)).push(
                                rhs@,
                            ));
                        }
                        lhs = Application(name, args);
                        pos = j;
                    },
                    _ => {
                        break;
                    },
                }
            },
        }
    }
    Ok((lhs, pos))
}

} // verus!
