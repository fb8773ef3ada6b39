//! One reconciliation cycle: compare the observed addresses with a host's A
//! and AAAA records and compute the records that should stand.
use crate::address::{
    address_of, address_string, address_text, as_ints, parse_address, valid_parts, Family, Ipv4,
    Ipv6,
};
use crate::text::same_text;
use vstd::prelude::*;

verus! {

/// TTL given to a created record that has no sibling to inherit from.
pub const DEFAULT_TTL: u64 = 3600;

/// One DNS resource record.
#[derive(Debug)]
pub struct Record {
    pub kind: String,
    pub name: String,
    pub value: String,
    pub ttl: u64,
}

/// A record as plain text and number.
pub struct RecordView {
    pub kind: Seq<char>,
    pub name: Seq<char>,
    pub value: Seq<char>,
    pub ttl: u64,
}

impl View for Record {
    type V = RecordView;

    open spec fn view(&self) -> RecordView {
        RecordView { kind: self.kind@, name: self.name@, value: self.value@, ttl: self.ttl }
    }
}

pub open spec fn views(rs: Seq<Record>) -> Seq<RecordView> {
    rs.map_values(|r: Record| r@)
}

/// What a cycle does for one address family.
#[derive(Debug, Clone, Copy, PartialEq, Eq, Structural)]
pub enum Action {
    /// The record matches the observation, or neither exists.
    NoOp,
    /// The record's value is rewritten to the observed address.
    Update,
    /// A record is appended for the observed address.
    Create,
    /// The record is removed, the address being no longer observed.
    Delete,
    /// Record and observation disagree, but the policy forbids the change.
    Warn,
}

/// The per-family actions of a successful cycle, whether it changed anything,
/// and whether a family had more than one record for the host (only the
/// first is acted on).
#[derive(Debug, Clone, Copy, PartialEq, Eq, Structural)]
pub struct Outcome {
    pub changed: bool,
    pub v4: Action,
    pub v6: Action,
    pub duplicate_v4: bool,
    pub duplicate_v6: bool,
}

/// Why a cycle was abandoned.
#[derive(Debug, Clone, Copy, PartialEq, Eq, Structural)]
pub enum ReconcileError {
    /// The existing record of this family holds no valid address.
    MalformedValue { family: Family },
}

pub open spec fn kind_text(f: Family) -> Seq<char> {
    match f {
        Family::V4 => seq!['A'],
        Family::V6 => seq!['A', 'A', 'A', 'A'],
    }
}

pub open spec fn other(f: Family) -> Family {
    match f {
        Family::V4 => Family::V6,
        Family::V6 => Family::V4,
    }
}

/// `r` is a record of family `f` for the host `name`.
pub open spec fn is_managed(r: RecordView, f: Family, name: Seq<char>) -> bool {
    r.kind == kind_text(f) && r.name == name
}

/// Index of the first record of family `f` for `name`, or -1.
pub open spec fn first_managed(rs: Seq<RecordView>, f: Family, name: Seq<char>) -> int
    decreases rs.len(),
{
    if rs.len() == 0 {
        -1
    } else {
        let p = first_managed(rs.drop_last(), f, name);
        if p >= 0 {
            p
        } else if is_managed(rs.last(), f, name) {
            rs.len() - 1
        } else {
            -1
        }
    }
}

/// Number of records of family `f` for `name`.
pub open spec fn managed_count(rs: Seq<RecordView>, f: Family, name: Seq<char>) -> nat
    decreases rs.len(),
{
    if rs.len() == 0 {
        0
    } else {
        managed_count(rs.drop_last(), f, name) + if is_managed(rs.last(), f, name) {
            1nat
        } else {
            0nat
        }
    }
}

/// Value of the first record of family `f` for `name`, if there is one.
pub open spec fn current_value(rs: Seq<RecordView>, f: Family, name: Seq<char>) -> Option<
    Seq<char>,
> {
    let i = first_managed(rs, f, name);
    if i >= 0 {
        Some(rs[i].value)
    } else {
        None
    }
}

/// TTL for a created record of family `f`: its sibling's, else the default.
pub open spec fn sibling_ttl(rs: Seq<RecordView>, f: Family, name: Seq<char>) -> u64 {
    let i = first_managed(rs, other(f), name);
    if i >= 0 {
        rs[i].ttl
    } else {
        DEFAULT_TTL
    }
}

/// The decision table for one family; `None` where the existing value,
/// needed for the comparison, is no address of the family.
pub open spec fn decide(
    f: Family,
    current: Option<Seq<char>>,
    observed: Option<Seq<int>>,
    manage: bool,
) -> Option<Action> {
    match current {
        Some(v) => match observed {
            Some(a) => match address_of(f, v) {
                Some(b) => Some(if b == a { Action::NoOp } else { Action::Update }),
                None => None,
            },
            None => Some(if manage { Action::Delete } else { Action::Warn }),
        },
        None => match observed {
            Some(a) => Some(if manage { Action::Create } else { Action::Warn }),
            None => Some(Action::NoOp),
        },
    }
}

pub open spec fn mutates(a: Action) -> bool {
    a == Action::Update || a == Action::Create || a == Action::Delete
}

pub open spec fn observed_text(f: Family, o: Option<Seq<int>>) -> Seq<char> {
    match o {
        Some(a) => address_text(f, a),
        None => Seq::<char>::empty(),
    }
}

/// What a cycle does, decided before anything is changed.
pub struct Plan {
    pub name: Seq<char>,
    pub a4: Action,
    pub a6: Action,
    pub i4: int,
    pub i6: int,
    pub t4: Seq<char>,
    pub t6: Seq<char>,
    pub ttl4: u64,
    pub ttl6: u64,
}

impl Plan {
    pub open spec fn action(self, f: Family) -> Action {
        match f {
            Family::V4 => self.a4,
            Family::V6 => self.a6,
        }
    }

    pub open spec fn index(self, f: Family) -> int {
        match f {
            Family::V4 => self.i4,
            Family::V6 => self.i6,
        }
    }

    pub open spec fn text(self, f: Family) -> Seq<char> {
        match f {
            Family::V4 => self.t4,
            Family::V6 => self.t6,
        }
    }

    pub open spec fn ttl(self, f: Family) -> u64 {
        match f {
            Family::V4 => self.ttl4,
            Family::V6 => self.ttl6,
        }
    }

    /// The record at index `i`, with its value rewritten where it is updated.
    pub open spec fn revise(self, i: int, r: RecordView) -> RecordView {
        if self.a4 == Action::Update && i == self.i4 {
            RecordView { value: self.t4, ..r }
        } else if self.a6 == Action::Update && i == self.i6 {
            RecordView { value: self.t6, ..r }
        } else {
            r
        }
    }

    /// `r` belongs to a family whose records are deleted.
    pub open spec fn drops(self, r: RecordView) -> bool {
        (self.a4 == Action::Delete && is_managed(r, Family::V4, self.name)) || (self.a6
            == Action::Delete && is_managed(r, Family::V6, self.name))
    }

    /// The existing records in order, revised, without the deleted ones.
    pub open spec fn rebuilt(self, rs: Seq<RecordView>) -> Seq<RecordView>
        decreases rs.len(),
    {
        if rs.len() == 0 {
            Seq::<RecordView>::empty()
        } else {
            let prev = self.rebuilt(rs.drop_last());
            if self.drops(rs.last()) {
                prev
            } else {
                prev.push(self.revise(rs.len() - 1, rs.last()))
            }
        }
    }

    /// The record appended for family `f`, if it is created.
    pub open spec fn created(self, f: Family) -> Seq<RecordView> {
        if self.action(f) == Action::Create {
            seq![RecordView { kind: kind_text(f), name: self.name, value: self.text(f), ttl: self.ttl(f) }]
        } else {
            Seq::<RecordView>::empty()
        }
    }

    pub open spec fn result(self, rs: Seq<RecordView>) -> Seq<RecordView> {
        self.rebuilt(rs) + self.created(Family::V4) + self.created(Family::V6)
    }
}

pub open spec fn plan_of(
    rs: Seq<RecordView>,
    name: Seq<char>,
    a4: Action,
    a6: Action,
    o4: Option<Seq<int>>,
    o6: Option<Seq<int>>,
) -> Plan {
    Plan {
        name,
        a4,
        a6,
        i4: first_managed(rs, Family::V4, name),
        i6: first_managed(rs, Family::V6, name),
        t4: observed_text(Family::V4, o4),
        t6: observed_text(Family::V6, o6),
        ttl4: sibling_ttl(rs, Family::V4, name),
        ttl6: sibling_ttl(rs, Family::V6, name),
    }
}

/// One cycle over the records `rs` for host `name`: the records that should
/// stand and the outcome, or the family whose existing value is malformed.
pub open spec fn reconciled(
    rs: Seq<RecordView>,
    name: Seq<char>,
    manage: bool,
    o4: Option<Seq<int>>,
    o6: Option<Seq<int>>,
) -> Result<(Seq<RecordView>, Outcome), Family> {
    match decide(Family::V4, current_value(rs, Family::V4, name), o4, manage) {
        None => Err(Family::V4),
        Some(a4) => match decide(Family::V6, current_value(rs, Family::V6, name), o6, manage) {
            None => Err(Family::V6),
            Some(a6) => {
                let p = plan_of(rs, name, a4, a6, o4, o6);
                Ok(
                    (
                        p.result(rs),
                        Outcome {
                            changed: mutates(a4) || mutates(a6),
                            v4: a4,
                            v6: a6,
                            duplicate_v4: managed_count(rs, Family::V4, name) > 1,
                            duplicate_v6: managed_count(rs, Family::V6, name) > 1,
                        },
                    ),
                )
            },
        },
    }
}

pub open spec fn ipv4_parts(o: Option<Ipv4>) -> Option<Seq<int>> {
    match o {
        Some(a) => Some(a.parts()),
        None => None,
    }
}

pub open spec fn ipv6_parts(o: Option<Ipv6>) -> Option<Seq<int>> {
    match o {
        Some(a) => Some(a.parts()),
        None => None,
    }
}


/// The record type written for family `f`.
fn kind_str(f: Family) -> (r: &'static str)
    ensures
        r@ == kind_text(f),
{
    match f {
        Family::V4 => {
            proof { reveal_strlit("A"); }
            "A"
        },
        Family::V6 => {
            proof { reveal_strlit("AAAA"); }
            "AAAA"
        },
    }
}

/// Whether `r` is a record of family `f` for `name`.
fn record_is(r: &Record, f: Family, name: &str) -> (b: bool)
    ensures
        b == is_managed(r@, f, name@),
{
    same_text(r.kind.as_str(), kind_str(f)) && same_text(r.name.as_str(), name)
}

/// Whether there is more than one record of family `f` for `name`.
fn has_duplicate(records: &Vec<Record>, f: Family, name: &str) -> (b: bool)
    ensures
        b == (managed_count(views(records@), f, name@) > 1),
{
    let ghost vs = views(records@);
    let mut count: usize = 0;
    let mut i: usize = 0;
    while i < records.len()
        invariant
            vs == views(records@),
            i <= records@.len(),
            count == if managed_count(vs.take(i as int), f, name@) >= 2 {
                2
            } else {
                managed_count(vs.take(i as int), f, name@)
            },
        decreases records.len() - i,
    {
        proof {
            assert(vs.take(i as int + 1).drop_last() =~= vs.take(i as int));
            assert(vs.take(i as int + 1).last() == records@[i as int]@);
        }
        if record_is(&records[i], f, name) && count < 2 {
            count = count + 1;
        }
        i = i + 1;
    }
    assert(vs.take(i as int) =~= vs);
    count >= 2
}

/// Index of the first record of family `f` for `name`.
fn find_managed(records: &Vec<Record>, f: Family, name: &str) -> (r: Option<usize>)
    ensures
        first_managed(views(records@), f, name@) == match r {
            Some(i) => i as int,
            None => -1,
        },
{
    let ghost vs = views(records@);
    let mut i: usize = 0;
    while i < records.len()
        invariant
            vs == views(records@),
            i <= records@.len(),
            first_managed(vs.take(i as int), f, name@) == -1,
        decreases records.len() - i,
    {
        proof {
            assert(vs.take(i as int + 1).drop_last() =~= vs.take(i as int));
            assert(vs.take(i as int + 1).last() == records@[i as int]@);
        }
        if record_is(&records[i], f, name) {
            proof { lemma_first_managed_prefix(vs, f, name@, i as int + 1); }
            return Some(i);
        }
        i = i + 1;
    }
    assert(vs.take(i as int) =~= vs);
    None
}

/// The first match in a prefix is the first match in the whole.
proof fn lemma_first_managed_prefix(rs: Seq<RecordView>, f: Family, name: Seq<char>, n: int)
    requires
        0 <= n <= rs.len(),
        first_managed(rs.take(n), f, name) >= 0,
    ensures
        first_managed(rs, f, name) == first_managed(rs.take(n), f, name),
    decreases rs.len() - n,
{
    if n < rs.len() {
        assert(rs.take(n + 1).drop_last() =~= rs.take(n));
        lemma_first_managed_prefix(rs, f, name, n + 1);
    } else {
        assert(rs.take(n) =~= rs);
    }
}

/// Where the first record of a family stands, and that there is none exactly
/// when the family has no record.
pub proof fn lemma_first_managed_props(rs: Seq<RecordView>, f: Family, name: Seq<char>)
    ensures
        -1 <= first_managed(rs, f, name) < rs.len(),
        first_managed(rs, f, name) >= 0 ==> is_managed(rs[first_managed(rs, f, name)], f, name),
        first_managed(rs, f, name) == -1 <==> managed_count(rs, f, name) == 0,
    decreases rs.len(),
{
    if rs.len() > 0 {
        lemma_first_managed_props(rs.drop_last(), f, name);
        let p = first_managed(rs.drop_last(), f, name);
        if p >= 0 {
            assert(rs[p] == rs.drop_last()[p]);
        }
    }
}

/// A copy of `r` whose value is `value`.
fn with_value(r: &Record, value: String) -> (out: Record)
    ensures
        out@ == (RecordView { value: value@, ..r@ }),
{
    Record { kind: r.kind.clone(), name: r.name.clone(), value, ttl: r.ttl }
}

/// A copy of `r`.
fn copy_record(r: &Record) -> (out: Record)
    ensures
        out@ == r@,
{
    Record { kind: r.kind.clone(), name: r.name.clone(), value: r.value.clone(), ttl: r.ttl }
}

/// The decision for family `f`, given the index of its first record.
fn decide_family(
    records: &Vec<Record>,
    f: Family,
    idx: Option<usize>,
    observed: &Option<Vec<u16>>,
    manage: bool,
) -> (r: Option<Action>)
    requires
        match idx {
            Some(i) => i < records@.len(),
            None => true,
        },
    ensures
        r == decide(
            f,
            match idx {
                Some(i) => Some(records@[i as int].value@),
                None => None,
            },
            match observed {
                Some(v) => Some(as_ints(v@)),
                None => None,
            },
            manage,
        ),
{
    match idx {
        Some(i) => match observed {
            Some(a) => match parse_address(f, records[i].value.as_str()) {
                Some(b) => {
                    let same = same_parts(&b, a);
                    Some(if same { Action::NoOp } else { Action::Update })
                },
                None => None,
            },
            None => Some(if manage { Action::Delete } else { Action::Warn }),
        },
        None => match observed {
            Some(_) => Some(if manage { Action::Create } else { Action::Warn }),
            None => Some(Action::NoOp),
        },
    }
}

/// Whether two addresses have the same parts.
fn same_parts(a: &Vec<u16>, b: &Vec<u16>) -> (r: bool)
    ensures
        r == (as_ints(a@) == as_ints(b@)),
{
    if a.len() != b.len() {
        assert(as_ints(a@).len() != as_ints(b@).len());
        return false;
    }
    let mut i: usize = 0;
    while i < a.len()
        invariant
            a@.len() == b@.len(),
            i <= a@.len(),
            forall|k: int| 0 <= k < i ==> a@[k] == b@[k],
        decreases a.len() - i,
    {
        if a[i] != b[i] {
            assert(as_ints(a@)[i as int] != as_ints(b@)[i as int]);
            return false;
        }
        i = i + 1;
    }
    assert(as_ints(a@) =~= as_ints(b@));
    true
}

fn v4_vec(o: Option<Ipv4>) -> (r: Option<Vec<u16>>)
    ensures
        match r {
            Some(v) => ipv4_parts(o) == Some(as_ints(v@)) && valid_parts(Family::V4, as_ints(v@)),
            None => ipv4_parts(o) is None,
        },
{
    match o {
        None => None,
        Some(a) => {
            let v: Vec<u16> = vec![
                a.octets[0] as u16,
                a.octets[1] as u16,
                a.octets[2] as u16,
                a.octets[3] as u16,
            ];
            assert(as_ints(v@) =~= a.parts());
            Some(v)
        },
    }
}

fn v6_vec(o: Option<Ipv6>) -> (r: Option<Vec<u16>>)
    ensures
        match r {
            Some(v) => ipv6_parts(o) == Some(as_ints(v@)) && valid_parts(Family::V6, as_ints(v@)),
            None => ipv6_parts(o) is None,
        },
{
    match o {
        None => None,
        Some(a) => {
            let mut v: Vec<u16> = Vec::new();
            let mut k: usize = 0;
            while k < 8
                invariant
                    k <= 8,
                    v@ == a.segments@.take(k as int),
                decreases 8 - k,
            {
                v.push(a.segments[k]);
                k = k + 1;
                assert(v@ =~= a.segments@.take(k as int));
            }
            assert(v@ =~= a.segments@);
            assert(as_ints(v@) =~= a.parts());
            Some(v)
        },
    }
}

fn text_for(f: Family, o: &Option<Vec<u16>>) -> (r: String)
    requires
        match o {
            Some(v) => valid_parts(f, as_ints(v@)),
            None => true,
        },
    ensures
        r@ == observed_text(
            f,
            match o {
                Some(v) => Some(as_ints(v@)),
                None => None,
            },
        ),
{
    match o {
        Some(v) => address_string(f, v),
        None => String::new(),
    }
}

fn index_is(idx: Option<usize>, i: usize) -> (b: bool)
    ensures
        b == (match idx {
            Some(j) => j == i,
            None => false,
        }),
{
    match idx {
        Some(j) => j == i,
        None => false,
    }
}

/// Runs one cycle over `records` for the host `record_name`.
///
/// The records of family A (IPv4) and AAAA (IPv6) named `record_name` are
/// compared with the observed addresses: a stale value is rewritten, a missing
/// record is created and a record whose address is no longer observed is
/// deleted, the last two only when `manage_records` holds. A created record
/// takes the TTL of its sibling of the other family as it stood before the
/// cycle, else the default. Records of other names and kinds keep their place
/// and content. When an existing value that must be compared is no address of
/// its family, nothing changes and the error names the family.
pub fn update_record_list(
    records: &mut Vec<Record>,
    record_name: &str,
    manage_records: bool,
    ipv4: Option<Ipv4>,
    ipv6: Option<Ipv6>,
) -> (r: Result<Outcome, ReconcileError>)
    ensures
        match reconciled(
            views(old(records)@),
            record_name@,
            manage_records,
            ipv4_parts(ipv4),
            ipv6_parts(ipv6),
        ) {
            Err(f) => r == Err::<Outcome, ReconcileError>(ReconcileError::MalformedValue { family: f })
                && final(records)@ == old(records)@,
            Ok((rs, out)) => r == Ok::<Outcome, ReconcileError>(out) && views(final(records)@) == rs,
        },
{
    let ghost vs = views(records@);
    let o4 = v4_vec(ipv4);
    let o6 = v6_vec(ipv6);
    let i4 = find_managed(records, Family::V4, record_name);
    let i6 = find_managed(records, Family::V6, record_name);
    proof {
        lemma_first_managed_props(vs, Family::V4, record_name@);
        lemma_first_managed_props(vs, Family::V6, record_name@);
    }
    let a4 = match decide_family(records, Family::V4, i4, &o4, manage_records) {
        Some(a) => a,
        None => {
            return Err(ReconcileError::MalformedValue { family: Family::V4 });
        },
    };
    let a6 = match decide_family(records, Family::V6, i6, &o6, manage_records) {
        Some(a) => a,
        None => {
            return Err(ReconcileError::MalformedValue { family: Family::V6 });
        },
    };
    let ghost p = plan_of(vs, record_name@, a4, a6, ipv4_parts(ipv4), ipv6_parts(ipv6));
    let t4 = text_for(Family::V4, &o4);
    let t6 = text_for(Family::V6, &o6);
    let mut out: Vec<Record> = Vec::new();
    let mut i: usize = 0;
    while i < records.len()
        invariant
            vs == views(records@),
            i <= records@.len(),
            p.name == record_name@,
            p.a4 == a4,
            p.a6 == a6,
            p.i4 == match i4 {
                Some(j) => j as int,
                None => -1,
            },
            p.i6 == match i6 {
                Some(j) => j as int,
                None => -1,
            },
            p.t4 == t4@,
            p.t6 == t6@,
            views(out@) == p.rebuilt(vs.take(i as int)),
        decreases records.len() - i,
    {
        let ghost before = out@;
        let r = &records[i];
        proof {
            assert(vs.take(i as int + 1).drop_last() =~= vs.take(i as int));
            assert(vs.take(i as int + 1).last() == r@);
        }
        let dropped = (a4 == Action::Delete && record_is(r, Family::V4, record_name)) || (a6
            == Action::Delete && record_is(r, Family::V6, record_name));
        if !dropped {
            let nr = if a4 == Action::Update && index_is(i4, i) {
                with_value(r, t4.clone())
            } else if a6 == Action::Update && index_is(i6, i) {
                with_value(r, t6.clone())
            } else {
                copy_record(r)
            };
            assert(nr@ == p.revise(i as int, r@));
            out.push(nr);
            assert(views(out@) =~= views(before).push(nr@));
        }
        i = i + 1;
    }
    assert(vs.take(i as int) =~= vs);
    if a4 == Action::Create {
        let ttl = match i6 {
            Some(j) => records[j].ttl,
            None => DEFAULT_TTL,
        };
        let ghost before = out@;
        out.push(Record { kind: kind_str(Family::V4).to_owned(), name: record_name.to_owned(), value: t4, ttl });
        assert(views(out@) =~= views(before) + p.created(Family::V4));
    } else {
        assert(views(out@) =~= views(out@) + p.created(Family::V4));
    }
    if a6 == Action::Create {
        let ttl = match i4 {
            Some(j) => records[j].ttl,
            None => DEFAULT_TTL,
        };
        let ghost before = out@;
        out.push(Record { kind: kind_str(Family::V6).to_owned(), name: record_name.to_owned(), value: t6, ttl });
        assert(views(out@) =~= views(before) + p.created(Family::V6));
    } else {
        assert(views(out@) =~= views(out@) + p.created(Family::V6));
    }
    let duplicate_v4 = has_duplicate(records, Family::V4, record_name);
    let duplicate_v6 = has_duplicate(records, Family::V6, record_name);
    *records = out;
    Ok(
        Outcome {
            changed: mutates_exec(a4) || mutates_exec(a6),
            v4: a4,
            v6: a6,
            duplicate_v4,
            duplicate_v6,
        },
    )
}

fn mutates_exec(a: Action) -> (b: bool)
    ensures
        b == mutates(a),
{
    a == Action::Update || a == Action::Create || a == Action::Delete
}

} // verus!
