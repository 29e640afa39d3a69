//! The grouper: segments a flat token sequence into an ordered forest of
//! syntax groups, following a table of mixfix rules. Each rule is an ordered
//! sequence of marker tokens whose first token is the head marker and whose
//! remaining tokens are continuation markers.

use vstd::prelude::*;
use vstd::math::max;
use vstd::math::min;
use crate::ast::ErrorModel;
use crate::ast::Group;
use crate::ast::GroupModel;
use crate::ast::ParseError;
use crate::ast::forest_model;
use crate::ast::forests_model_from;
use crate::ast::group_model;
use crate::ast::lemma_forest_model_from;
use crate::ast::lemma_forests_model_from;
use crate::ast::strs_view;

verus! {

/// The views of a table of rules.
pub open spec fn rules_view(rs: Seq<Vec<String>>) -> Seq<Seq<Seq<char>>> {
    Seq::new(rs.len(), |i: int| strs_view(rs[i]@))
}

/// The view of the terminator a caller is waiting for.
pub open spec fn end_view(end: Option<&String>) -> Option<Seq<char>> {
    match end {
        Some(s) => Some(s@),
        None => None,
    }
}

/// Whether a rule opens with the given token.
pub open spec fn rule_matches(rule: Seq<Seq<char>>, tok: Seq<char>) -> bool {
    rule.len() > 0 && rule[0] == tok
}

pub open spec fn find_rule_from(rules: Seq<Seq<Seq<char>>>, tok: Seq<char>, k: int) -> Option<int>
    decreases rules.len() - k,
{
    if k < 0 || k >= rules.len() {
        None
    } else if rule_matches(rules[k], tok) {
        Some(k)
    } else {
        find_rule_from(rules, tok, k + 1)
    }
}

/// The first rule in table order whose head marker is the given token.
pub open spec fn find_rule(rules: Seq<Seq<Seq<char>>>, tok: Seq<char>) -> Option<int> {
    find_rule_from(rules, tok, 0)
}

/// How many tokens remain from position `i`.
pub open spec fn toks_left(tokens: Seq<Seq<char>>, i: int) -> int {
    if i <= tokens.len() {
        tokens.len() - i
    } else {
        0
    }
}

/// What grouping returns from position `i` while waiting for `end`: the
/// forest of groups found, and the position of the first token not consumed.
/// Grouping stops, without consuming, at end of input or at the awaited
/// terminator; a token that opens no rule and is not the terminator is a
/// failure, as is a missing or mismatched continuation marker.
pub open spec fn group_seq(
    tokens: Seq<Seq<char>>,
    rules: Seq<Seq<Seq<char>>>,
    end: Option<Seq<char>>,
    i: int,
) -> Result<(Seq<GroupModel>, int), ErrorModel>
    decreases toks_left(tokens, i), 2int, 0int,
{
    if i < 0 || i >= tokens.len() {
        Ok((Seq::empty(), i))
    } else {
        let t = tokens[i];
        match find_rule(rules, t) {
            Some(r) => {
                let rule = rules[r];
                match group_parts(tokens, rules, rule, 1, i + 1) {
                    Err(e) => Err(e),
                    Ok((inners, j0)) => {
                        let j: int = min(max(j0, i + 1), tokens.len() as int);
                        let g = GroupModel {
                            head: rule[0],
                            parts: rule.subrange(1, rule.len() as int),
                            inner: inners,
                        };
                        match group_seq(tokens, rules, end, j) {
                            Err(e) => Err(e),
                            Ok((gs, m)) => Ok((seq![g] + gs, m)),
                        }
                    },
                }
            },
            None => {
                if end == Some(t) {
                    Ok((Seq::empty(), i))
                } else {
                    Err(ErrorModel::UnknownGroupStart { token: t })
                }
            },
        }
    }
}

/// Collects, for each continuation marker of `rule` from index `k` on, the
/// inner forest found before that marker, requiring the marker itself to
/// follow immediately; returns the inner forests and the position after the
/// last marker consumed.
pub open spec fn group_parts(
    tokens: Seq<Seq<char>>,
    rules: Seq<Seq<Seq<char>>>,
    rule: Seq<Seq<char>>,
    k: int,
    i: int,
) -> Result<(Seq<Seq<GroupModel>>, int), ErrorModel>
    decreases toks_left(tokens, i), 3int, rule.len() - k,
{
    if k < 0 || k >= rule.len() {
        Ok((Seq::empty(), i))
    } else {
        match group_seq(tokens, rules, Some(rule[k]), i) {
            Err(e) => Err(e),
            Ok((gs, j0)) => {
                let j: int = min(max(j0, i), tokens.len() as int);
                if j >= tokens.len() {
                    Err(ErrorModel::UnmatchedContinuation { expected: rule[k], found: None })
                } else if tokens[j] == rule[k] {
                    match group_parts(tokens, rules, rule, k + 1, j + 1) {
                        Err(e) => Err(e),
                        Ok((rest, m)) => Ok((seq![gs] + rest, m)),
                    }
                } else {
                    Err(
                        ErrorModel::UnmatchedContinuation {
                            expected: rule[k],
                            found: Some(tokens[j]),
                        },
                    )
                }
            },
        }
    }
}

/// All tokens a group stands for: its head marker, then, for each
/// continuation marker, the tokens of the inner forest before it followed by
/// the marker itself.
pub open spec fn flatten_group(g: GroupModel) -> Seq<Seq<char>>
    decreases g, 0int,
{
    seq![g.head] + flatten_pairs(g.inner, g.parts, 0)
}

pub open spec fn flatten_pairs(
    inner: Seq<Seq<GroupModel>>,
    parts: Seq<Seq<char>>,
    k: int,
) -> Seq<Seq<char>>
    decreases inner, inner.len() - k,
{
    if k < 0 || k >= inner.len() || k >= parts.len() {
        Seq::empty()
    } else {
        flatten_forest_from(inner[k], 0) + seq![parts[k]] + flatten_pairs(inner, parts, k + 1)
    }
}

pub open spec fn flatten_forest_from(gs: Seq<GroupModel>, k: int) -> Seq<Seq<char>>
    decreases gs, gs.len() - k,
{
    if k < 0 || k >= gs.len() {
        Seq::empty()
    } else {
        flatten_group(gs[k]) + flatten_forest_from(gs, k + 1)
    }
}

proof fn lemma_flatten_forest_cons(x: GroupModel, rest: Seq<GroupModel>, m: int)
    requires
        0 <= m,
    ensures
        flatten_forest_from(seq![x] + rest, m + 1) == flatten_forest_from(rest, m),
    decreases rest.len() - m,
{
    if m < rest.len() {
        assert((seq![x] + rest)[m + 1] == rest[m]);
        lemma_flatten_forest_cons(x, rest, m + 1);
    }
}

proof fn lemma_flatten_pairs_cons(
    x: Seq<GroupModel>,
    rest: Seq<Seq<GroupModel>>,
    p: Seq<char>,
    ps: Seq<Seq<char>>,
    m: int,
)
    requires
        0 <= m,
    ensures
        flatten_pairs(seq![x] + rest, seq![p] + ps, m + 1) == flatten_pairs(rest, ps, m),
    decreases rest.len() - m,
{
    if m < rest.len() && m < ps.len() {
        assert((seq![x] + rest)[m + 1] == rest[m]);
        assert((seq![p] + ps)[m + 1] == ps[m]);
        lemma_flatten_pairs_cons(x, rest, p, ps, m + 1);
    }
}

/// Round-trip shape: whatever forest the grouper accepts, re-concatenating
/// each group's head marker and continuation markers in order, around the
/// recursively flattened inner forests, reproduces exactly the tokens
/// consumed, with nothing skipped or duplicated.
pub proof fn lemma_group_seq_round_trip(
    tokens: Seq<Seq<char>>,
    rules: Seq<Seq<Seq<char>>>,
    end: Option<Seq<char>>,
    i: int,
)
    requires
        0 <= i <= tokens.len(),
    ensures
        (match group_seq(tokens, rules, end, i) {
            Ok((gs, j)) => i <= j <= tokens.len() && flatten_forest_from(gs, 0)
                == tokens.subrange(i, j),
            Err(_) => true,
        }),
    decreases toks_left(tokens, i), 2int, 0int,
{
    if i >= tokens.len() {
        assert(flatten_forest_from(Seq::<GroupModel>::empty(), 0) =~= tokens.subrange(i, i));
    } else {
        let t = tokens[i];
        match find_rule(rules, t) {
            Some(r) => {
                let rule = rules[r];
                lemma_find_rule_some(rules, t, 0, r);
                match group_parts(tokens, rules, rule, 1, i + 1) {
                    Err(_) => {},
                    Ok((inners, j0)) => {
                        lemma_group_parts_round_trip(tokens, rules, rule, 1, i + 1);
                        let j: int = min(max(j0, i + 1), tokens.len() as int);
                        assert(j == j0);
                        let g = GroupModel {
                            head: rule[0],
                            parts: rule.subrange(1, rule.len() as int),
                            inner: inners,
                        };
                        assert(flatten_group(g) =~= tokens.subrange(i, j0)) by {
                            assert(flatten_pairs(inners, g.parts, 0) == tokens.subrange(
                                i + 1,
                                j0,
                            ));
                            assert(seq![g.head] + tokens.subrange(i + 1, j0) =~= tokens.subrange(
                                i,
                                j0,
                            ));
                        }
                        match group_seq(tokens, rules, end, j0) {
                            Err(_) => {},
                            Ok((gs2, m)) => {
                                lemma_group_seq_round_trip(tokens, rules, end, j0);
                                lemma_flatten_forest_cons(g, gs2, 0);
                                assert(flatten_forest_from(seq![g] + gs2, 0) == flatten_group(g)
                                    + flatten_forest_from(gs2, 0)) by {
                                    assert((seq![g] + gs2)[0] == g);
                                }
                                assert(tokens.subrange(i, j0) + tokens.subrange(j0, m)
                                    =~= tokens.subrange(i, m));
                            },
                        }
                    },
                }
            },
            None => {
                if end == Some(t) {
                    assert(flatten_forest_from(Seq::<GroupModel>::empty(), 0) =~= tokens.subrange(
                        i,
                        i,
                    ));
                }
            },
        }
    }
}

/// The companion of the round trip for the walk along a rule's continuation
/// markers: the flattened inner forests, each followed by its marker,
/// reproduce exactly the tokens consumed.
pub proof fn lemma_group_parts_round_trip(
    tokens: Seq<Seq<char>>,
    rules: Seq<Seq<Seq<char>>>,
    rule: Seq<Seq<char>>,
    k: int,
    i: int,
)
    requires
        1 <= k,
        0 <= i <= tokens.len(),
    ensures
        (match group_parts(tokens, rules, rule, k, i) {
            Ok((inners, j)) => {
                &&& i <= j <= tokens.len()
                &&& inners.len() == (if k <= rule.len() {
                    rule.len() - k
                } else {
                    0
                })
                &&& flatten_pairs(inners, rule.subrange(k, rule.len() as int), 0)
                    == tokens.subrange(i, j)
            },
            Err(_) => true,
        }),
    decreases toks_left(tokens, i), 3int, rule.len() - k,
{
    if k >= rule.len() {
        assert(flatten_pairs(
            Seq::<Seq<GroupModel>>::empty(),
            rule.subrange(k, rule.len() as int),
            0,
        ) =~= tokens.subrange(i, i));
    } else {
        match group_seq(tokens, rules, Some(rule[k]), i) {
            Err(_) => {},
            Ok((gs, j0)) => {
                lemma_group_seq_round_trip(tokens, rules, Some(rule[k]), i);
                let j: int = min(max(j0, i), tokens.len() as int);
                assert(j == j0);
                if j0 < tokens.len() && tokens[j0] == rule[k] {
                    match group_parts(tokens, rules, rule, k + 1, j0 + 1) {
                        Err(_) => {},
                        Ok((rest, m)) => {
                            lemma_group_parts_round_trip(tokens, rules, rule, k + 1, j0 + 1);
                            lemma_flatten_pairs_cons(
                                gs,
                                rest,
                                rule[k],
                                rule.subrange(k + 1, rule.len() as int),
                                0,
                            );
                            assert(seq![rule[k]] + rule.subrange(k + 1, rule.len() as int)
                                =~= rule.subrange(k, rule.len() as int));
                            assert(flatten_pairs(
                                seq![gs] + rest,
                                rule.subrange(k, rule.len() as int),
                                0,
                            ) == flatten_forest_from(gs, 0) + seq![rule[k]] + flatten_pairs(
                                rest,
                                rule.subrange(k + 1, rule.len() as int),
                                0,
                            )) by {
                                assert((seq![gs] + rest)[0] == gs);
                                assert(rule.subrange(k, rule.len() as int)[0] == rule[k]);
                            }
                            assert(tokens.subrange(i, j0) + seq![tokens[j0]] + tokens.subrange(
                                j0 + 1,
                                m,
                            ) =~= tokens.subrange(i, m));
                        },
                    }
                }
            },
        }
    }
}

/// A successful rule lookup names a rule in range that opens with the token,
/// and no earlier rule does.
pub proof fn lemma_find_rule_some(rules: Seq<Seq<Seq<char>>>, tok: Seq<char>, k: int, r: int)
    requires
        find_rule_from(rules, tok, k) == Some(r),
    ensures
        k <= r < rules.len(),
        rule_matches(rules[r], tok),
        forall|m: int| k <= m < r ==> !rule_matches(rules[m], tok),
    decreases rules.len() - k,
{
    if 0 <= k < rules.len() && !rule_matches(rules[k], tok) {
        lemma_find_rule_some(rules, tok, k + 1, r);
    }
}

/// A group instantiates the rule its head names: the rule found for the head
/// is exactly the head followed by the group's continuation markers.
pub open spec fn head_rule_ok(g: GroupModel, rules: Seq<Seq<Seq<char>>>) -> bool {
    match find_rule(rules, g.head) {
        Some(r) => rules[r] == seq![g.head] + g.parts,
        None => false,
    }
}

/// Well-formedness of a group with respect to a rule table: it instantiates
/// the rule its head names, carries one inner forest per continuation marker,
/// none of its continuation markers opens a rule, and every group of every
/// inner forest is well formed in turn. Successful grouping produces only
/// well-formed groups.
pub open spec fn wf_group(g: GroupModel, rules: Seq<Seq<Seq<char>>>) -> bool
    decreases g, 0int,
{
    &&& head_rule_ok(g, rules)
    &&& g.inner.len() == g.parts.len()
    &&& (forall|q: int| 0 <= q < g.parts.len() ==> find_rule(rules, g.parts[q]) is None)
    &&& wf_inners(g.inner, rules, 0)
}

/// Every group of every inner forest from index `k` on is well formed.
pub open spec fn wf_inners(fs: Seq<Seq<GroupModel>>, rules: Seq<Seq<Seq<char>>>, k: int) -> bool
    decreases fs, fs.len() - k,
{
    k < 0 || k >= fs.len() || (wf_forest_from(fs[k], rules, 0) && wf_inners(fs, rules, k + 1))
}

/// Every group of the forest from index `k` on is well formed.
pub open spec fn wf_forest_from(gs: Seq<GroupModel>, rules: Seq<Seq<Seq<char>>>, k: int) -> bool
    decreases gs, gs.len() - k,
{
    k < 0 || k >= gs.len() || (wf_group(gs[k], rules) && wf_forest_from(gs, rules, k + 1))
}

proof fn lemma_wf_forest_cons(x: GroupModel, rest: Seq<GroupModel>, rules: Seq<Seq<Seq<char>>>, m: int)
    requires
        0 <= m,
    ensures
        wf_forest_from(seq![x] + rest, rules, m + 1) == wf_forest_from(rest, rules, m),
    decreases rest.len() - m,
{
    if m < rest.len() {
        assert((seq![x] + rest)[m + 1] == rest[m]);
        lemma_wf_forest_cons(x, rest, rules, m + 1);
    }
}

proof fn lemma_wf_inners_cons(
    x: Seq<GroupModel>,
    rest: Seq<Seq<GroupModel>>,
    rules: Seq<Seq<Seq<char>>>,
    m: int,
)
    requires
        0 <= m,
    ensures
        wf_inners(seq![x] + rest, rules, m + 1) == wf_inners(rest, rules, m),
    decreases rest.len() - m,
{
    if m < rest.len() {
        assert((seq![x] + rest)[m + 1] == rest[m]);
        lemma_wf_inners_cons(x, rest, rules, m + 1);
    }
}

/// Every group of the forest is well formed.
pub open spec fn wf_forest(gs: Seq<GroupModel>, rules: Seq<Seq<Seq<char>>>) -> bool {
    wf_forest_from(gs, rules, 0)
}

/// Successful grouping yields only well-formed groups, and stops short of the
/// end of input only on the awaited terminator, which opens no rule.
pub proof fn lemma_group_seq_wf(
    tokens: Seq<Seq<char>>,
    rules: Seq<Seq<Seq<char>>>,
    end: Option<Seq<char>>,
    i: int,
)
    requires
        0 <= i <= tokens.len(),
    ensures
        (match group_seq(tokens, rules, end, i) {
            Ok((gs, j)) => wf_forest(gs, rules) && (j < tokens.len() ==> find_rule(
                rules,
                tokens[j],
            ) is None && end == Some(tokens[j])),
            Err(_) => true,
        }),
    decreases toks_left(tokens, i), 2int, 0int,
{
    if i >= tokens.len() {
    } else {
        let t = tokens[i];
        match find_rule(rules, t) {
            Some(r) => {
                let rule = rules[r];
                lemma_find_rule_some(rules, t, 0, r);
                match group_parts(tokens, rules, rule, 1, i + 1) {
                    Err(_) => {},
                    Ok((inners, j0)) => {
                        lemma_group_parts_wf(tokens, rules, rule, 1, i + 1);
                        lemma_group_parts_round_trip(tokens, rules, rule, 1, i + 1);
                        let j: int = min(max(j0, i + 1), tokens.len() as int);
                        assert(j == j0);
                        let g = GroupModel {
                            head: rule[0],
                            parts: rule.subrange(1, rule.len() as int),
                            inner: inners,
                        };
                        match group_seq(tokens, rules, end, j0) {
                            Err(_) => {},
                            Ok((gs2, m)) => {
                                lemma_group_seq_wf(tokens, rules, end, j0);
                                assert(head_rule_ok(g, rules)) by {
                                    assert(rule =~= seq![g.head] + g.parts);
                                }
                                assert(g.inner.len() == g.parts.len());
                                assert forall|q: int| 0 <= q < g.parts.len() implies find_rule(
                                    rules,
                                    g.parts[q],
                                ) is None by {
                                    assert(g.parts[q] == rule[q + 1]);
                                }
                                assert(wf_group(g, rules));
                                assert(wf_forest(seq![g] + gs2, rules)) by {
                                    assert((seq![g] + gs2)[0] == g);
                                    lemma_wf_forest_cons(g, gs2, rules, 0);
                                }
                            },
                        }
                    },
                }
            },
            None => {},
        }
    }
}

proof fn lemma_group_parts_wf(
    tokens: Seq<Seq<char>>,
    rules: Seq<Seq<Seq<char>>>,
    rule: Seq<Seq<char>>,
    k: int,
    i: int,
)
    requires
        1 <= k,
        0 <= i <= tokens.len(),
    ensures
        (match group_parts(tokens, rules, rule, k, i) {
            Ok((inners, j)) => {
                &&& inners.len() == (if k <= rule.len() {
                    rule.len() - k
                } else {
                    0
                })
                &&& wf_inners(inners, rules, 0)
                &&& (forall|q: int| k <= q < rule.len() ==> find_rule(rules, rule[q]) is None)
            },
            Err(_) => true,
        }),
    decreases toks_left(tokens, i), 3int, rule.len() - k,
{
    if k >= rule.len() {
    } else {
        match group_seq(tokens, rules, Some(rule[k]), i) {
            Err(_) => {},
            Ok((gs, j0)) => {
                lemma_group_seq_wf(tokens, rules, Some(rule[k]), i);
                lemma_group_seq_round_trip(tokens, rules, Some(rule[k]), i);
                let j: int = min(max(j0, i), tokens.len() as int);
                assert(j == j0);
                if j0 < tokens.len() && tokens[j0] == rule[k] {
                    match group_parts(tokens, rules, rule, k + 1, j0 + 1) {
                        Err(_) => {},
                        Ok((rest, m)) => {
                            lemma_group_parts_wf(tokens, rules, rule, k + 1, j0 + 1);
                            assert(find_rule(rules, rule[k]) is None);
                            assert(wf_inners(seq![gs] + rest, rules, 0)) by {
                                assert((seq![gs] + rest)[0] == gs);
                                lemma_wf_inners_cons(gs, rest, rules, 0);
                            }
                        },
                    }
                }
            },
        }
    }
}

/// Regrouping a well-formed forest's own tokens reproduces that forest: from
/// position `i`, where the tokens carry exactly the flattening of the forest
/// from index `k` and then stop (end of input, or the awaited terminator,
/// which opens no rule), grouping returns precisely the groups from `k` on.
pub proof fn lemma_regroup_forest(
    gs: Seq<GroupModel>,
    rules: Seq<Seq<Seq<char>>>,
    tokens: Seq<Seq<char>>,
    end: Option<Seq<char>>,
    k: int,
    i: int,
)
    requires
        0 <= k <= gs.len(),
        wf_forest_from(gs, rules, k),
        0 <= i,
        i + flatten_forest_from(gs, k).len() <= tokens.len(),
        tokens.subrange(i, i + flatten_forest_from(gs, k).len()) == flatten_forest_from(gs, k),
        ({
            let j = i + flatten_forest_from(gs, k).len();
            j == tokens.len() || (find_rule(rules, tokens[j]) is None && end == Some(tokens[j]))
        }),
    ensures
        group_seq(tokens, rules, end, i) == Ok::<(Seq<GroupModel>, int), ErrorModel>(
            (gs.subrange(k, gs.len() as int), i + flatten_forest_from(gs, k).len()),
        ),
    decreases gs, gs.len() - k,
{
    let fl = flatten_forest_from(gs, k);
    if k == gs.len() {
        assert(fl.len() == 0);
        assert(gs.subrange(k, gs.len() as int) =~= Seq::<GroupModel>::empty());
    } else {
        let g = gs[k];
        let fg = flatten_group(g);
        let fp = flatten_pairs(g.inner, g.parts, 0);
        let rest = flatten_forest_from(gs, k + 1);
        assert(fl == fg + rest);
        assert(fg == seq![g.head] + fp);
        assert(tokens[i] == g.head) by {
            assert(tokens.subrange(i, i + fl.len())[0] == tokens[i]);
            assert(fl[0] == fg[0]);
        }
        assert(wf_forest_from(gs, rules, k));
        assert(wf_group(g, rules));
        assert(head_rule_ok(g, rules));
        match find_rule(rules, g.head) {
            None => {
                assert(false);
            },
            Some(r) => {
                let rule = rules[r];
                assert(rule == seq![g.head] + g.parts);
                assert(rule.len() == g.parts.len() + 1);
                assert forall|q: int| 0 <= q < g.parts.len() implies rule[q + 1] == g.parts[q] by {
                    assert((seq![g.head] + g.parts)[q + 1] == g.parts[q]);
                }
                let j2 = i + 1 + fp.len();
                assert(tokens.subrange(i + 1, j2) =~= fp) by {
                    assert forall|q: int| 0 <= q < fp.len() implies tokens.subrange(i + 1, j2)[q]
                        == fp[q] by {
                        assert(tokens[i + 1 + q] == tokens.subrange(i, i + fl.len())[1 + q]);
                        assert(fl[1 + q] == fg[1 + q]);
                        assert(fg[1 + q] == fp[q]);
                    }
                }
                lemma_regroup_parts(g.inner, g.parts, rules, tokens, rule, 0, i + 1);
                assert(g.inner.subrange(0, g.inner.len() as int) =~= g.inner);
                assert(GroupModel {
                    head: rule[0],
                    parts: rule.subrange(1, rule.len() as int),
                    inner: g.inner,
                } =~= g) by {
                    assert(rule.subrange(1, rule.len() as int) =~= g.parts);
                }
                assert(tokens.subrange(j2, j2 + rest.len()) =~= rest) by {
                    assert forall|q: int| 0 <= q < rest.len() implies tokens.subrange(
                        j2,
                        j2 + rest.len(),
                    )[q] == rest[q] by {
                        assert(tokens[j2 + q] == tokens.subrange(i, i + fl.len())[fg.len() + q]);
                        assert(fl[fg.len() + q] == rest[q]);
                    }
                }
                lemma_regroup_forest(gs, rules, tokens, end, k + 1, j2);
                assert(seq![g] + gs.subrange(k + 1, gs.len() as int) =~= gs.subrange(
                    k,
                    gs.len() as int,
                ));
            },
        }
    }
}

/// The companion of regrouping for the walk along a rule's continuation
/// markers: where the tokens carry, for each marker from index `m` on, the
/// flattening of its inner forest followed by the marker itself, the walk
/// returns precisely those inner forests.
proof fn lemma_regroup_parts(
    inner: Seq<Seq<GroupModel>>,
    parts: Seq<Seq<char>>,
    rules: Seq<Seq<Seq<char>>>,
    tokens: Seq<Seq<char>>,
    rule: Seq<Seq<char>>,
    m: int,
    i: int,
)
    requires
        0 <= m <= inner.len(),
        inner.len() == parts.len(),
        rule.len() == parts.len() + 1,
        forall|q: int| 0 <= q < parts.len() ==> rule[q + 1] == parts[q],
        wf_inners(inner, rules, m),
        forall|q: int| m <= q < parts.len() ==> find_rule(rules, parts[q]) is None,
        0 <= i,
        i + flatten_pairs(inner, parts, m).len() <= tokens.len(),
        tokens.subrange(i, i + flatten_pairs(inner, parts, m).len()) == flatten_pairs(
            inner,
            parts,
            m,
        ),
    ensures
        group_parts(tokens, rules, rule, m + 1, i) == Ok::<(Seq<Seq<GroupModel>>, int), ErrorModel>(
            (inner.subrange(m, inner.len() as int), i + flatten_pairs(inner, parts, m).len()),
        ),
    decreases inner, inner.len() - m,
{
    let fp = flatten_pairs(inner, parts, m);
    if m == inner.len() {
        assert(fp.len() == 0);
        assert(inner.subrange(m, inner.len() as int) =~= Seq::<Seq<GroupModel>>::empty());
    } else {
        let fseq = flatten_forest_from(inner[m], 0);
        let rest = flatten_pairs(inner, parts, m + 1);
        assert(fp == fseq + seq![parts[m]] + rest);
        let j1 = i + fseq.len();
        assert(tokens.subrange(i, j1) =~= fseq) by {
            assert forall|q: int| 0 <= q < fseq.len() implies tokens.subrange(i, j1)[q]
                == fseq[q] by {
                assert(tokens[i + q] == tokens.subrange(i, i + fp.len())[q]);
                assert(fp[q] == fseq[q]);
            }
        }
        assert(tokens[j1] == parts[m]) by {
            assert(tokens[j1] == tokens.subrange(i, i + fp.len())[fseq.len() as int]);
            assert(fp[fseq.len() as int] == parts[m]);
        }
        lemma_regroup_forest(inner[m], rules, tokens, Some(parts[m]), 0, i);
        assert(inner[m].subrange(0, inner[m].len() as int) =~= inner[m]);
        assert(tokens.subrange(j1 + 1, j1 + 1 + rest.len()) =~= rest) by {
            assert forall|q: int| 0 <= q < rest.len() implies tokens.subrange(
                j1 + 1,
                j1 + 1 + rest.len(),
            )[q] == rest[q] by {
                assert(tokens[j1 + 1 + q] == tokens.subrange(i, i + fp.len())[fseq.len() + 1 + q]);
                assert(fp[fseq.len() + 1 + q] == rest[q]);
            }
        }
        lemma_regroup_parts(inner, parts, rules, tokens, rule, m + 1, j1 + 1);
        assert(rule[m + 1] == parts[m]);
        assert(seq![inner[m]] + inner.subrange(m + 1, inner.len() as int) =~= inner.subrange(
            m,
            inner.len() as int,
        ));
    }
}

/// Idempotent re-grouping: grouping the token sequence reconstructed by
/// flattening an accepted forest, with the same rule table and no awaited
/// terminator, yields that forest back, structurally identical.
pub proof fn lemma_regrouping_idempotent(
    tokens: Seq<Seq<char>>,
    rules: Seq<Seq<Seq<char>>>,
    end: Option<Seq<char>>,
    i: int,
)
    requires
        0 <= i <= tokens.len(),
        group_seq(tokens, rules, end, i) is Ok,
    ensures
        ({
            let gs = group_seq(tokens, rules, end, i)->Ok_0.0;
            group_seq(flatten_forest_from(gs, 0), rules, None, 0) == Ok::<
                (Seq<GroupModel>, int),
                ErrorModel,
            >((gs, flatten_forest_from(gs, 0).len() as int))
        }),
{
    let gs = group_seq(tokens, rules, end, i)->Ok_0.0;
    lemma_group_seq_wf(tokens, rules, end, i);
    let ft = flatten_forest_from(gs, 0);
    assert(ft.subrange(0, ft.len() as int) =~= ft);
    lemma_regroup_forest(gs, rules, ft, None, 0, 0);
    assert(gs.subrange(0, gs.len() as int) =~= gs);
}

/// Finds the first rule in table order whose head marker equals `token`.
fn find_rule_exec(rules: &Vec<Vec<String>>, token: &String) -> (r: Option<usize>)
    ensures
        (match r {
            Some(idx) => idx < rules@.len() && find_rule(rules_view(rules@), token@) == Some(
                idx as int,
            ),
            None => find_rule(rules_view(rules@), token@) is None,
        }),
{
    let mut k: usize = 0;
    while k < rules.len()
        invariant
            k <= rules@.len(),
            find_rule(rules_view(rules@), token@) == find_rule_from(
                rules_view(rules@),
                token@,
                k as int,
            ),
        decreases rules@.len() - k,
    {
        let rule = &rules[k];
        if rule.len() > 0 && rule[0] == *token {
            proof {
                assert(rule_matches(rules_view(rules@)[k as int], token@));
            }
            return Some(k);
        }
        proof {
            assert(!rule_matches(rules_view(rules@)[k as int], token@));
        }
        k += 1;
    }
    None
}

/// Consumes a prefix of `input` starting at `start`, producing the forest of
/// groups found and the position of the first token not consumed. When the
/// next token equals `end_group`, grouping stops without consuming it; with
/// no `end_group`, grouping continues until the tokens are exhausted.
pub fn get_groups(
    input: &Vec<String>,
    start: usize,
    name_parts: &Vec<Vec<String>>,
    end_group: Option<&String>,
) -> (r: Result<(Vec<Group>, usize), ParseError>)
    requires
        start <= input@.len(),
    ensures
        (match r {
            Ok(p) => start <= p.1 <= input@.len() && group_seq(
                strs_view(input@),
                rules_view(name_parts@),
                end_view(end_group),
                start as int,
            ) == Ok::<(Seq<GroupModel>, int), ErrorModel>((forest_model(p.0@), p.1 as int)),
            Err(e) => group_seq(
                strs_view(input@),
                rules_view(name_parts@),
                end_view(end_group),
                start as int,
            ) == Err::<(Seq<GroupModel>, int), ErrorModel>(e@),
        }),
    decreases input@.len() - start,
{
    let ghost toks = strs_view(input@);
    let ghost rls = rules_view(name_parts@);
    let ghost e = end_view(end_group);
    let mut groups: Vec<Group> = Vec::new();
    let mut pos: usize = start;
    if start >= input.len() {
        proof {
            assert(forest_model(groups@) =~= Seq::<GroupModel>::empty());
        }
        return Ok((groups, pos));
    }
    loop
        invariant
            start <= pos <= input@.len(),
            input@.len() > 0,
            toks == strs_view(input@),
            rls == rules_view(name_parts@),
            e == end_view(end_group),
            group_seq(toks, rls, e, start as int) == (match group_seq(toks, rls, e, pos as int) {
                Ok((gs, m)) => Ok::<(Seq<GroupModel>, int), ErrorModel>(
                    (forest_model(groups@) + gs, m),
                ),
                Err(er) => Err::<(Seq<GroupModel>, int), ErrorModel>(er),
            }),
        ensures
            start <= pos <= input@.len(),
            group_seq(toks, rls, e, start as int) == Ok::<(Seq<GroupModel>, int), ErrorModel>(
                (forest_model(groups@), pos as int),
            ),
        decreases input@.len() - pos,
    {
        if pos >= input.len() {
            proof {
                assert(forest_model(groups@) + Seq::<GroupModel>::empty() =~= forest_model(
                    groups@,
                ));
            }
            break;
        }
        let token = &input[pos];
        proof {
            assert(toks[pos as int] == token@);
        }
        match find_rule_exec(name_parts, token) {
            Some(ridx) => {
                let ghost rule = rls[ridx as int];
                let ghost head_pos = pos as int;
                let rule_ref = &name_parts[ridx];
                proof {
                    assert(rule == strs_view(rule_ref@));
                    lemma_find_rule_some(rls, token@, 0, ridx as int);
                }
                pos = pos + 1;
                let mut inner_groups: Vec<Vec<Group>> = Vec::new();
                let mut k: usize = 1;
                while k < rule_ref.len()
                    invariant
                        1 <= k <= rule_ref@.len(),
                        head_pos + 1 <= pos <= input@.len(),
                        start <= head_pos < input@.len(),
                        toks == strs_view(input@),
                        rls == rules_view(name_parts@),
                        e == end_view(end_group),
                        ridx < name_parts@.len(),
                        rule == strs_view(rule_ref@),
                        rule == rls[ridx as int],
                        find_rule(rls, toks[head_pos]) == Some(ridx as int),
                        group_seq(toks, rls, e, start as int) == (match group_seq(
                            toks,
                            rls,
                            e,
                            head_pos,
                        ) {
                            Ok((gs, m)) => Ok::<(Seq<GroupModel>, int), ErrorModel>(
                                (forest_model(groups@) + gs, m),
                            ),
                            Err(er) => Err::<(Seq<GroupModel>, int), ErrorModel>(er),
                        }),
                        group_parts(toks, rls, rule, 1, head_pos + 1) == (match group_parts(
                            toks,
                            rls,
                            rule,
                            k as int,
                            pos as int,
                        ) {
                            Ok((rest, m)) => Ok::<(Seq<Seq<GroupModel>>, int), ErrorModel>(
                                (forests_model_from(inner_groups@, 0) + rest, m),
                            ),
                            Err(er) => Err::<(Seq<Seq<GroupModel>>, int), ErrorModel>(er),
                        }),
                    decreases rule_ref@.len() - k,
                {
                    let (inner, npos) = match get_groups(
                        input,
                        pos,
                        name_parts,
                        Some(&rule_ref[k]),
                    ) {
                        Ok(p) => p,
                        Err(er) => {
                            proof {
                                assert(group_parts(toks, rls, rule, k as int, pos as int)
                                    == Err::<(Seq<Seq<GroupModel>>, int), ErrorModel>(er@));
                                assert(group_parts(toks, rls, rule, 1, head_pos + 1) == Err::<
                                    (Seq<Seq<GroupModel>>, int),
                                    ErrorModel,
                                >(er@));
                                assert(group_seq(toks, rls, e, head_pos) == Err::<
                                    (Seq<GroupModel>, int),
                                    ErrorModel,
                                >(er@));
                            }
                            return Err(er);
                        },
                    };
                    proof {
                        assert(group_seq(toks, rls, Some(rule[k as int]), pos as int) == Ok::<
                            (Seq<GroupModel>, int),
                            ErrorModel,
                        >((forest_model(inner@), npos as int)));
                    }
                    if npos >= input.len() {
                        let err = ParseError::UnmatchedContinuation {
                            expected: rule_ref[k].clone(),
                            found: None,
                        };
                        proof {
                            assert(group_parts(toks, rls, rule, k as int, pos as int) == Err::<
                                (Seq<Seq<GroupModel>>, int),
                                ErrorModel,
                            >(err@));
                            assert(group_parts(toks, rls, rule, 1, head_pos + 1) == Err::<
                                (Seq<Seq<GroupModel>>, int),
                                ErrorModel,
                            >(err@));
                            assert(group_seq(toks, rls, e, head_pos) == Err::<
                                (Seq<GroupModel>, int),
                                ErrorModel,
                            >(err@));
                        }
                        return Err(err);
                    }
                    if input[npos] == rule_ref[k] {
                        let ghost old_inners = inner_groups@;
                        inner_groups.push(inner);
                        pos = npos + 1;
                        k = k + 1;
                        proof {
                            lemma_forests_model_from(old_inners, 0);
                            lemma_forests_model_from(inner_groups@, 0);
                            assert(forests_model_from(inner_groups@, 0) =~= forests_model_from(
                                old_inners,
                                0,
                            ).push(forest_model(inner@)));
                            assert forall|rest: Seq<Seq<GroupModel>>|
                                true implies #[trigger] (forests_model_from(old_inners, 0) + (seq![
                                forest_model(inner@),
                            ] + rest)) == forests_model_from(inner_groups@, 0) + rest by {
                                assert(forests_model_from(old_inners, 0) + (seq![
                                    forest_model(inner@),
                                ] + rest) =~= forests_model_from(inner_groups@, 0) + rest);
                            }
                        }
                    } else {
                        let err = ParseError::UnmatchedContinuation {
                            expected: rule_ref[k].clone(),
                            found: Some(input[npos].clone()),
                        };
                        proof {
                            assert(group_parts(toks, rls, rule, k as int, pos as int) == Err::<
                                (Seq<Seq<GroupModel>>, int),
                                ErrorModel,
                            >(err@));
                            assert(group_parts(toks, rls, rule, 1, head_pos + 1) == Err::<
                                (Seq<Seq<GroupModel>>, int),
                                ErrorModel,
                            >(err@));
                            assert(group_seq(toks, rls, e, head_pos) == Err::<
                                (Seq<GroupModel>, int),
                                ErrorModel,
                            >(err@));
                        }
                        return Err(err);
                    }
                }
                let mut parts_vec: Vec<String> = Vec::new();
                let mut m: usize = 1;
                while m < rule_ref.len()
                    invariant
                        1 <= m <= rule_ref@.len(),
                        parts_vec@.len() == m - 1,
                        rule == strs_view(rule_ref@),
                        forall|idx: int|
                            0 <= idx < m - 1 ==> #[trigger] parts_vec@[idx]@ == rule[idx + 1],
                    decreases rule_ref@.len() - m,
                {
                    parts_vec.push(rule_ref[m].clone());
                    m = m + 1;
                }
                let g = Group {
                    head_part: rule_ref[0].clone(),
                    name_parts: parts_vec,
                    inner_groups,
                };
                proof {
                    assert(strs_view(g.name_parts@) =~= rule.subrange(1, rule.len() as int));
                    assert(group_model(g) =~= GroupModel {
                        head: rule[0],
                        parts: rule.subrange(1, rule.len() as int),
                        inner: forests_model_from(g.inner_groups@, 0),
                    });
                }
                let ghost old_groups = groups@;
                groups.push(g);
                proof {
                    lemma_forest_model_from(old_groups, 0);
                    lemma_forest_model_from(groups@, 0);
                    assert(forest_model(groups@) =~= forest_model(old_groups).push(group_model(g)));
                    assert(group_parts(toks, rls, rule, rule_ref@.len() as int, pos as int)
                        == Ok::<(Seq<Seq<GroupModel>>, int), ErrorModel>(
                        (Seq::empty(), pos as int),
                    ));
                    assert(forests_model_from(g.inner_groups@, 0) + Seq::<
                        Seq<GroupModel>,
                    >::empty() =~= forests_model_from(g.inner_groups@, 0));
                    assert(group_parts(toks, rls, rule, 1, head_pos + 1) == Ok::<
                        (Seq<Seq<GroupModel>>, int),
                        ErrorModel,
                    >((forests_model_from(g.inner_groups@, 0), pos as int)));
                    assert(group_seq(toks, rls, e, head_pos) == (match group_seq(
                        toks,
                        rls,
                        e,
                        pos as int,
                    ) {
                        Ok((gs, m2)) => Ok::<(Seq<GroupModel>, int), ErrorModel>(
                            (seq![group_model(g)] + gs, m2),
                        ),
                        Err(er) => Err::<(Seq<GroupModel>, int), ErrorModel>(er),
                    }));
                    assert forall|gs: Seq<GroupModel>|
                        true implies #[trigger] (forest_model(old_groups) + (seq![group_model(g)]
                        + gs)) == forest_model(groups@) + gs by {
                        assert(forest_model(old_groups) + (seq![group_model(g)] + gs)
                            =~= forest_model(groups@) + gs);
                    }
                }
            },
            None => {
                let matched = match end_group {
                    Some(eg) => *token == *eg,
                    None => false,
                };
                if matched {
                    proof {
                        assert(e == Some(toks[pos as int]));
                        assert(forest_model(groups@) + Seq::<GroupModel>::empty() =~= forest_model(
                            groups@,
                        ));
                    }
                    break;
                }
                return Err(ParseError::UnknownGroupStart { token: token.clone() });
            },
        }
    }
    Ok((groups, pos))
}

} // verus!
