//! Properties of a reconciliation cycle, stated over its specification.
use crate::address::{address_of, address_text, lemma_address_round_trip, valid_parts, Family};
use crate::reconcile::{
    current_value, decide, first_managed, is_managed, kind_text, lemma_first_managed_props,
    managed_count, mutates, other, reconciled, Action, Plan, RecordView, DEFAULT_TTL,
};
use vstd::prelude::*;

verus! {

proof fn lemma_families_differ(r: RecordView, name: Seq<char>)
    ensures
        !(is_managed(r, Family::V4, name) && is_managed(r, Family::V6, name)),
{
    assert(kind_text(Family::V4).len() != kind_text(Family::V6).len());
}

proof fn lemma_count_concat(a: Seq<RecordView>, b: Seq<RecordView>, f: Family, name: Seq<char>)
    ensures
        managed_count(a + b, f, name) == managed_count(a, f, name) + managed_count(b, f, name),
    decreases b.len(),
{
    if b.len() == 0 {
        assert(a + b =~= a);
    } else {
        lemma_count_concat(a, b.drop_last(), f, name);
        assert((a + b).drop_last() =~= a + b.drop_last());
        assert((a + b).last() == b.last());
    }
}

proof fn lemma_first_concat(a: Seq<RecordView>, b: Seq<RecordView>, f: Family, name: Seq<char>)
    ensures
        first_managed(a + b, f, name) == if first_managed(a, f, name) >= 0 {
            first_managed(a, f, name)
        } else if first_managed(b, f, name) >= 0 {
            a.len() + first_managed(b, f, name)
        } else {
            -1
        },
    decreases b.len(),
{
    if b.len() == 0 {
        assert(a + b =~= a);
    } else {
        lemma_first_concat(a, b.drop_last(), f, name);
        assert((a + b).drop_last() =~= a + b.drop_last());
        assert((a + b).last() == b.last());
    }
}

/// Revising keeps a record's kind, name and TTL.
proof fn lemma_revise_keeps(p: Plan, i: int, r: RecordView)
    ensures
        p.revise(i, r).kind == r.kind,
        p.revise(i, r).name == r.name,
        p.revise(i, r).ttl == r.ttl,
{
}

/// The records of a family that is not deleted are all kept; those of a
/// deleted family are all gone.
proof fn lemma_rebuilt_count(p: Plan, rs: Seq<RecordView>, f: Family)
    ensures
        p.action(f) != Action::Delete ==> managed_count(p.rebuilt(rs), f, p.name)
            == managed_count(rs, f, p.name),
        p.action(f) == Action::Delete ==> managed_count(p.rebuilt(rs), f, p.name) == 0,
        managed_count(p.rebuilt(rs), f, p.name) <= managed_count(rs, f, p.name),
    decreases rs.len(),
{
    if rs.len() > 0 {
        lemma_rebuilt_count(p, rs.drop_last(), f);
        lemma_families_differ(rs.last(), p.name);
        lemma_revise_keeps(p, rs.len() - 1, rs.last());
        let prev = p.rebuilt(rs.drop_last());
        if !p.drops(rs.last()) {
            assert(p.rebuilt(rs).drop_last() =~= prev);
        }
    }
}

/// Where a family is not deleted, its first record in the result is its first
/// record before, revised.
proof fn lemma_rebuilt_first(p: Plan, rs: Seq<RecordView>, f: Family)
    requires
        p.action(f) != Action::Delete,
    ensures
        first_managed(p.rebuilt(rs), f, p.name) >= 0 <==> first_managed(rs, f, p.name) >= 0,
        first_managed(rs, f, p.name) >= 0 ==> p.rebuilt(rs)[first_managed(p.rebuilt(rs), f, p.name)]
            == p.revise(first_managed(rs, f, p.name), rs[first_managed(rs, f, p.name)]),
    decreases rs.len(),
{
    if rs.len() > 0 {
        let init = rs.drop_last();
        lemma_rebuilt_first(p, init, f);
        lemma_families_differ(rs.last(), p.name);
        lemma_revise_keeps(p, rs.len() - 1, rs.last());
        let prev = p.rebuilt(init);
        lemma_first_managed_props(prev, f, p.name);
        lemma_first_managed_props(init, f, p.name);
        if !p.drops(rs.last()) {
            assert(p.rebuilt(rs).drop_last() =~= prev);
            let j = first_managed(prev, f, p.name);
            if j >= 0 {
                assert(p.rebuilt(rs)[j] == prev[j]);
            }
        }
        let k = first_managed(init, f, p.name);
        if k >= 0 {
            assert(rs[k] == init[k]);
        }
    }
}

/// Without deletions every record stays at its index, revised.
proof fn lemma_rebuilt_in_place(p: Plan, rs: Seq<RecordView>)
    requires
        p.a4 != Action::Delete,
        p.a6 != Action::Delete,
    ensures
        p.rebuilt(rs).len() == rs.len(),
        forall|k: int| 0 <= k < rs.len() ==> #[trigger] p.rebuilt(rs)[k] == p.revise(k, rs[k]),
    decreases rs.len(),
{
    if rs.len() > 0 {
        lemma_rebuilt_in_place(p, rs.drop_last());
        assert forall|k: int| 0 <= k < rs.len() implies #[trigger] p.rebuilt(rs)[k] == p.revise(
            k,
            rs[k],
        ) by {
            if k < rs.len() - 1 {
                assert(rs[k] == rs.drop_last()[k]);
            }
        }
    }
}

proof fn lemma_created_other(p: Plan, g: Family, f: Family)
    requires
        g != f,
    ensures
        first_managed(p.created(g), f, p.name) == -1,
        managed_count(p.created(g), f, p.name) == 0,
{
    if p.action(g) == Action::Create {
        let c = p.created(g);
        assert(c.drop_last() =~= Seq::<RecordView>::empty());
        assert(first_managed(c.drop_last(), f, p.name) == -1);
        assert(managed_count(c.drop_last(), f, p.name) == 0);
        assert(c.last() == c[0]);
        lemma_families_differ(c.last(), p.name);
        assert(kind_text(g) != kind_text(f)) by {
            assert(kind_text(g).len() != kind_text(f).len());
        }
    }
}

proof fn lemma_created_own(p: Plan, f: Family)
    ensures
        p.action(f) == Action::Create ==> first_managed(p.created(f), f, p.name) == 0
            && managed_count(p.created(f), f, p.name) == 1 && p.created(f)[0].value == p.text(f),
        p.action(f) != Action::Create ==> p.created(f).len() == 0,
{
    if p.action(f) == Action::Create {
        let c = p.created(f);
        assert(c.drop_last() =~= Seq::<RecordView>::empty());
        assert(first_managed(c.drop_last(), f, p.name) == -1);
        assert(managed_count(c.drop_last(), f, p.name) == 0);
        assert(c.last() == c[0]);
        assert(is_managed(c[0], f, p.name));
    }
}

/// The records of the result that belong to family `f`: their number, and
/// the first of them.
proof fn lemma_result_family(p: Plan, rs: Seq<RecordView>, f: Family)
    ensures
        managed_count(p.result(rs), f, p.name) == managed_count(p.rebuilt(rs), f, p.name) + if p.action(f)
            == Action::Create {
            1nat
        } else {
            0nat
        },
        first_managed(p.result(rs), f, p.name) == if first_managed(p.rebuilt(rs), f, p.name) >= 0 {
            first_managed(p.rebuilt(rs), f, p.name)
        } else if p.action(f) == Action::Create {
            p.rebuilt(rs).len() + if f == Family::V4 {
                0int
            } else {
                p.created(Family::V4).len() as int
            }
        } else {
            -1
        },
        first_managed(p.rebuilt(rs), f, p.name) >= 0 ==> p.result(rs)[first_managed(p.result(rs), f, p.name)]
            == p.rebuilt(rs)[first_managed(p.rebuilt(rs), f, p.name)],
        first_managed(p.rebuilt(rs), f, p.name) < 0 && p.action(f) == Action::Create
            ==> p.result(rs)[first_managed(p.result(rs), f, p.name)].value == p.text(f),
{
    let r = p.rebuilt(rs);
    let c4 = p.created(Family::V4);
    let c6 = p.created(Family::V6);
    lemma_count_concat(r, c4, f, p.name);
    lemma_count_concat(r + c4, c6, f, p.name);
    lemma_first_concat(r, c4, f, p.name);
    lemma_first_concat(r + c4, c6, f, p.name);
    lemma_first_managed_props(r, f, p.name);
    lemma_created_own(p, f);
    if f == Family::V4 {
        lemma_created_other(p, Family::V6, f);
    } else {
        lemma_created_other(p, Family::V4, f);
    }
    let j = first_managed(r, f, p.name);
    if j >= 0 {
        assert(p.result(rs)[j] == r[j]);
    } else if p.action(f) == Action::Create {
        if f == Family::V4 {
            assert(p.result(rs)[r.len() as int] == c4[0]);
        } else {
            assert(p.result(rs)[(r.len() + c4.len()) as int] == c6[0]);
        }
    }
}


/// The first record of family `f`, revised, is unchanged unless `f` itself
/// is updated.
proof fn lemma_revise_other(p: Plan, rs: Seq<RecordView>, f: Family, j: int)
    requires
        0 <= j < rs.len(),
        is_managed(rs[j], f, p.name),
        p.i4 >= 0 ==> p.i4 < rs.len() && is_managed(rs[p.i4], Family::V4, p.name),
        p.i6 >= 0 ==> p.i6 < rs.len() && is_managed(rs[p.i6], Family::V6, p.name),
    ensures
        p.action(f) == Action::Update && j == p.index(f) ==> p.revise(j, rs[j]).value == p.text(f),
        !(p.action(f) == Action::Update && j == p.index(f)) ==> p.revise(j, rs[j]) == rs[j],
{
    lemma_families_differ(rs[j], p.name);
    if p.i4 >= 0 {
        lemma_families_differ(rs[p.i4], p.name);
    }
    if p.i6 >= 0 {
        lemma_families_differ(rs[p.i6], p.name);
    }
}

/// Plans that come out of the decision table.
pub open spec fn plan_fits(
    p: Plan,
    rs: Seq<RecordView>,
    manage: bool,
    o4: Option<Seq<int>>,
    o6: Option<Seq<int>>,
) -> bool {
    &&& p == crate::reconcile::plan_of(rs, p.name, p.a4, p.a6, o4, o6)
    &&& decide(Family::V4, current_value(rs, Family::V4, p.name), o4, manage) == Some(p.a4)
    &&& decide(Family::V6, current_value(rs, Family::V6, p.name), o6, manage) == Some(p.a6)
}

pub open spec fn observation(f: Family, o4: Option<Seq<int>>, o6: Option<Seq<int>>) -> Option<
    Seq<int>,
> {
    match f {
        Family::V4 => o4,
        Family::V6 => o6,
    }
}

pub open spec fn valid_observation(f: Family, o: Option<Seq<int>>) -> bool {
    match o {
        Some(a) => valid_parts(f, a),
        None => true,
    }
}

/// After a cycle, the decision for family `f` on the result changes nothing.
proof fn lemma_family_settles(
    p: Plan,
    rs: Seq<RecordView>,
    manage: bool,
    o4: Option<Seq<int>>,
    o6: Option<Seq<int>>,
    f: Family,
)
    requires
        plan_fits(p, rs, manage, o4, o6),
        valid_observation(f, observation(f, o4, o6)),
    ensures
        decide(f, current_value(p.result(rs), f, p.name), observation(f, o4, o6), manage) matches Some(
            a,
        ) && (a == Action::NoOp || a == Action::Warn),
{
    let o = observation(f, o4, o6);
    let r = p.rebuilt(rs);
    lemma_first_managed_props(rs, Family::V4, p.name);
    lemma_first_managed_props(rs, Family::V6, p.name);
    lemma_first_managed_props(rs, f, p.name);
    lemma_first_managed_props(r, f, p.name);
    lemma_rebuilt_count(p, rs, f);
    lemma_result_family(p, rs, f);
    if let Some(a) = o {
        lemma_address_round_trip(f, a);
    }
    if p.action(f) != Action::Delete {
        lemma_rebuilt_first(p, rs, f);
        let j = first_managed(rs, f, p.name);
        if j >= 0 {
            lemma_revise_other(p, rs, f, j);
        }
    }
}

/// Without updates, deletions or creations a plan leaves the records as they are.
proof fn lemma_quiet_plan(p: Plan, rs: Seq<RecordView>)
    requires
        !mutates(p.a4),
        !mutates(p.a6),
    ensures
        p.result(rs) == rs,
{
    lemma_rebuilt_in_place(p, rs);
    lemma_created_own(p, Family::V4);
    lemma_created_own(p, Family::V6);
    assert(p.result(rs) =~= rs);
}

/// Reconciling twice with the same observed addresses: the second cycle
/// changes nothing and reports no change.
pub proof fn lemma_idempotent(
    rs: Seq<RecordView>,
    name: Seq<char>,
    manage: bool,
    o4: Option<Seq<int>>,
    o6: Option<Seq<int>>,
)
    requires
        valid_observation(Family::V4, o4),
        valid_observation(Family::V6, o6),
    ensures
        reconciled(rs, name, manage, o4, o6) matches Ok((s, _)) ==> reconciled(
            s,
            name,
            manage,
            o4,
            o6,
        ) matches Ok((s2, out2)) && s2 == s && !out2.changed,
{
    if let (Some(a4), Some(a6)) = (
        decide(Family::V4, current_value(rs, Family::V4, name), o4, manage),
        decide(Family::V6, current_value(rs, Family::V6, name), o6, manage),
    ) {
        let p = crate::reconcile::plan_of(rs, name, a4, a6, o4, o6);
        lemma_family_settles(p, rs, manage, o4, o6, Family::V4);
        lemma_family_settles(p, rs, manage, o4, o6, Family::V6);
        let s = p.result(rs);
        let b4 = decide(Family::V4, current_value(s, Family::V4, name), o4, manage)->Some_0;
        let b6 = decide(Family::V6, current_value(s, Family::V6, name), o6, manage)->Some_0;
        let q = crate::reconcile::plan_of(s, name, b4, b6, o4, o6);
        lemma_quiet_plan(q, s);
    }
}

/// After a settled cycle, a change in the observed address of family `f`
/// alone leaves the other family alone: it takes no action that changes
/// anything, and its records keep their number and their first one stays as
/// it was.
pub proof fn lemma_single_change(
    rs: Seq<RecordView>,
    name: Seq<char>,
    manage: bool,
    o4: Option<Seq<int>>,
    o6: Option<Seq<int>>,
    n4: Option<Seq<int>>,
    n6: Option<Seq<int>>,
    f: Family,
)
    requires
        reconciled(rs, name, manage, o4, o6) matches Ok((s, out)) && !out.changed,
        f == Family::V4 ==> n6 == o6,
        f == Family::V6 ==> n4 == o4,
    ensures
        reconciled(rs, name, manage, n4, n6) matches Ok((s, out)) ==> {
            let g = other(f);
            &&& !mutates(out.v4) || !mutates(out.v6)
            &&& f == Family::V4 ==> !mutates(out.v6)
            &&& f == Family::V6 ==> !mutates(out.v4)
            &&& managed_count(s, g, name) == managed_count(rs, g, name)
            &&& first_managed(rs, g, name) >= 0 <==> first_managed(s, g, name) >= 0
            &&& first_managed(rs, g, name) >= 0 ==> s[first_managed(s, g, name)]
                == rs[first_managed(rs, g, name)]
        },
{
    if let (Some(a4), Some(a6)) = (
        decide(Family::V4, current_value(rs, Family::V4, name), n4, manage),
        decide(Family::V6, current_value(rs, Family::V6, name), n6, manage),
    ) {
        let g = other(f);
        let p = crate::reconcile::plan_of(rs, name, a4, a6, n4, n6);
        assert(!mutates(p.action(g)));
        lemma_first_managed_props(rs, Family::V4, name);
        lemma_first_managed_props(rs, Family::V6, name);
        lemma_first_managed_props(p.rebuilt(rs), g, name);
        lemma_rebuilt_count(p, rs, g);
        lemma_rebuilt_first(p, rs, g);
        lemma_result_family(p, rs, g);
        let j = first_managed(rs, g, name);
        if j >= 0 {
            lemma_revise_other(p, rs, g, j);
        }
    }
}

/// With management off a cycle creates and deletes nothing: every record
/// keeps its index, kind, name and TTL, and only values are rewritten.
pub proof fn lemma_policy_gating(
    rs: Seq<RecordView>,
    name: Seq<char>,
    o4: Option<Seq<int>>,
    o6: Option<Seq<int>>,
)
    ensures
        reconciled(rs, name, false, o4, o6) matches Ok((s, out)) ==> {
            &&& out.v4 != Action::Create && out.v4 != Action::Delete
            &&& out.v6 != Action::Create && out.v6 != Action::Delete
            &&& s.len() == rs.len()
            &&& forall|k: int|
                0 <= k < rs.len() ==> #[trigger] s[k].kind == rs[k].kind && s[k].name == rs[k].name
                    && s[k].ttl == rs[k].ttl
        },
{
    if let (Some(a4), Some(a6)) = (
        decide(Family::V4, current_value(rs, Family::V4, name), o4, false),
        decide(Family::V6, current_value(rs, Family::V6, name), o6, false),
    ) {
        let p = crate::reconcile::plan_of(rs, name, a4, a6, o4, o6);
        lemma_rebuilt_in_place(p, rs);
        lemma_created_own(p, Family::V4);
        lemma_created_own(p, Family::V6);
        assert(p.result(rs) =~= p.rebuilt(rs));
        assert forall|k: int| 0 <= k < rs.len() implies #[trigger] p.result(rs)[k].kind
            == rs[k].kind && p.result(rs)[k].name == rs[k].name && p.result(rs)[k].ttl
            == rs[k].ttl by {
            lemma_revise_keeps(p, k, rs[k]);
        }
    }
}

/// Where the records held at most one A and one AAAA record for the host, so
/// does the result of a cycle.
pub proof fn lemma_no_duplicates(
    rs: Seq<RecordView>,
    name: Seq<char>,
    manage: bool,
    o4: Option<Seq<int>>,
    o6: Option<Seq<int>>,
)
    requires
        managed_count(rs, Family::V4, name) <= 1,
        managed_count(rs, Family::V6, name) <= 1,
    ensures
        reconciled(rs, name, manage, o4, o6) matches Ok((s, _)) ==> managed_count(
            s,
            Family::V4,
            name,
        ) <= 1 && managed_count(s, Family::V6, name) <= 1,
{
    if let (Some(a4), Some(a6)) = (
        decide(Family::V4, current_value(rs, Family::V4, name), o4, manage),
        decide(Family::V6, current_value(rs, Family::V6, name), o6, manage),
    ) {
        let p = crate::reconcile::plan_of(rs, name, a4, a6, o4, o6);
        lemma_first_managed_props(rs, Family::V4, name);
        lemma_first_managed_props(rs, Family::V6, name);
        lemma_rebuilt_count(p, rs, Family::V4);
        lemma_rebuilt_count(p, rs, Family::V6);
        lemma_result_family(p, rs, Family::V4);
        lemma_result_family(p, rs, Family::V6);
    }
}

/// A created record takes the TTL of the other family's record for the host
/// as it stood before the cycle, or the default where there is none; its
/// value is the text of the observed address.
pub proof fn lemma_ttl_inheritance(
    rs: Seq<RecordView>,
    name: Seq<char>,
    manage: bool,
    o4: Option<Seq<int>>,
    o6: Option<Seq<int>>,
    f: Family,
)
    ensures
        reconciled(rs, name, manage, o4, o6) matches Ok((s, out)) ==> {
            let c = if f == Family::V4 { out.v4 } else { out.v6 };
            c == Action::Create ==> {
                let i = first_managed(s, f, name);
                let j = first_managed(rs, other(f), name);
                &&& 0 <= i < s.len()
                &&& s[i].kind == kind_text(f)
                &&& s[i].name == name
                &&& observation(f, o4, o6) matches Some(a) && s[i].value == address_text(f, a)
                &&& s[i].ttl == if j >= 0 { rs[j].ttl } else { DEFAULT_TTL }
            }
        },
{
    if let (Some(a4), Some(a6)) = (
        decide(Family::V4, current_value(rs, Family::V4, name), o4, manage),
        decide(Family::V6, current_value(rs, Family::V6, name), o6, manage),
    ) {
        let p = crate::reconcile::plan_of(rs, name, a4, a6, o4, o6);
        if p.action(f) == Action::Create {
            lemma_first_managed_props(rs, f, name);
            lemma_first_managed_props(p.rebuilt(rs), f, name);
            lemma_rebuilt_count(p, rs, f);
            lemma_result_family(p, rs, f);
            lemma_created_own(p, f);
            let r = p.rebuilt(rs);
            let c4 = p.created(Family::V4);
            if f == Family::V4 {
                assert(p.result(rs)[r.len() as int] == c4[0]);
            } else {
                assert(p.result(rs)[(r.len() + c4.len()) as int] == p.created(Family::V6)[0]);
            }
        }
    }
}

/// An existing record whose value denotes the observed address, in whatever
/// form it is written, is left as it is.
pub proof fn lemma_equal_address_kept(
    rs: Seq<RecordView>,
    name: Seq<char>,
    manage: bool,
    o4: Option<Seq<int>>,
    o6: Option<Seq<int>>,
    f: Family,
)
    requires
        current_value(rs, f, name) matches Some(v) && observation(f, o4, o6) is Some && address_of(
            f,
            v,
        ) == observation(f, o4, o6),
    ensures
        reconciled(rs, name, manage, o4, o6) matches Ok((s, out)) ==> {
            &&& (if f == Family::V4 { out.v4 } else { out.v6 }) == Action::NoOp
            &&& s[first_managed(s, f, name)] == rs[first_managed(rs, f, name)]
        },
{
    if let (Some(a4), Some(a6)) = (
        decide(Family::V4, current_value(rs, Family::V4, name), o4, manage),
        decide(Family::V6, current_value(rs, Family::V6, name), o6, manage),
    ) {
        let p = crate::reconcile::plan_of(rs, name, a4, a6, o4, o6);
        lemma_first_managed_props(rs, Family::V4, name);
        lemma_first_managed_props(rs, Family::V6, name);
        lemma_first_managed_props(p.rebuilt(rs), f, name);
        lemma_rebuilt_first(p, rs, f);
        lemma_result_family(p, rs, f);
        lemma_revise_other(p, rs, f, first_managed(rs, f, name));
    }
}

} // verus!
