//! IPv4 and IPv6 addresses: their textual forms, parsed and written.
use crate::text::{
    all_digits, digits_value, group_number, join, lemma_num_text, lemma_num_text_len,
    lemma_split_join, lemma_split_nonempty, num_text, pieces, push_number, split, split_range,
    to_chars,
};
use vstd::prelude::*;

verus! {

/// The two address families, each tied to one kind of DNS record.
#[derive(Debug, Clone, Copy, PartialEq, Eq, Structural)]
pub enum Family {
    V4,
    V6,
}

/// An IPv4 address, as its four octets.
#[derive(Debug, Clone, Copy, PartialEq, Eq)]
pub struct Ipv4 {
    pub octets: [u8; 4],
}

/// An IPv6 address, as its eight 16-bit segments.
#[derive(Debug, Clone, Copy, PartialEq, Eq)]
pub struct Ipv6 {
    pub segments: [u16; 8],
}

impl Ipv4 {
    pub open spec fn parts(&self) -> Seq<int> {
        self.octets@.map_values(|o: u8| o as int)
    }
}

impl Ipv6 {
    pub open spec fn parts(&self) -> Seq<int> {
        self.segments@.map_values(|g: u16| g as int)
    }
}

pub open spec fn radix(f: Family) -> nat {
    match f {
        Family::V4 => 10,
        Family::V6 => 16,
    }
}

pub open spec fn separator(f: Family) -> char {
    match f {
        Family::V4 => '.',
        Family::V6 => ':',
    }
}

pub open spec fn part_count(f: Family) -> nat {
    match f {
        Family::V4 => 4,
        Family::V6 => 8,
    }
}

pub open spec fn part_limit(f: Family) -> int {
    match f {
        Family::V4 => 256,
        Family::V6 => 65536,
    }
}

/// A sequence of parts that makes an address of the family.
pub open spec fn valid_parts(f: Family, a: Seq<int>) -> bool {
    a.len() == part_count(f) && forall|k: int| 0 <= k < a.len() ==> 0 <= #[trigger] a[k] < part_limit(f)
}

/// A decimal octet: one to three digits, no leading zero, at most 255.
pub open spec fn octet_ok(g: Seq<char>) -> bool {
    1 <= g.len() <= 3 && all_digits(g, 10) && !(g.len() > 1 && g[0] == '0') && digits_value(g, 10)
        <= 255
}

/// A segment: one to four hexadecimal digits of either case.
pub open spec fn segment_ok(g: Seq<char>) -> bool {
    1 <= g.len() <= 4 && all_digits(g, 16)
}

pub open spec fn group_ok(f: Family, g: Seq<char>) -> bool {
    match f {
        Family::V4 => octet_ok(g),
        Family::V6 => segment_ok(g),
    }
}

pub open spec fn groups_ok(f: Family, gs: Seq<Seq<char>>) -> bool {
    forall|k: int| 0 <= k < gs.len() ==> group_ok(f, #[trigger] gs[k])
}

pub open spec fn groups_values(f: Family, gs: Seq<Seq<char>>) -> Seq<int> {
    gs.map_values(|g: Seq<char>| digits_value(g, radix(f) as int))
}

/// Index of the first `::` in `s` at or after `i`, or -1.
pub open spec fn find_pair(s: Seq<char>, i: int) -> int
    decreases s.len() - i,
{
    if i < 0 || i + 1 >= s.len() {
        -1
    } else if s[i] == ':' && s[i + 1] == ':' {
        i
    } else {
        find_pair(s, i + 1)
    }
}

/// The colon-separated segments of `t`; none when `t` is empty.
pub open spec fn segments_of(t: Seq<char>) -> Seq<Seq<char>> {
    if t.len() == 0 {
        Seq::<Seq<char>>::empty()
    } else {
        split(t, ':')
    }
}

/// The address that dotted-decimal text `s` denotes, if any.
pub open spec fn ipv4_of(s: Seq<char>) -> Option<Seq<int>> {
    let p = split(s, '.');
    if p.len() == 4 && groups_ok(Family::V4, p) {
        Some(groups_values(Family::V4, p))
    } else {
        None
    }
}

/// The two segments that IPv4 address `q` fills.
pub open spec fn embedded_pair(q: Seq<int>) -> Seq<int> {
    seq![q[0] * 256 + q[1], q[2] * 256 + q[3]]
}

/// The segments that colon-separated pieces `gs` write: each a hexadecimal
/// segment, except that the last may be an IPv4 address filling two.
pub open spec fn pieces_value(gs: Seq<Seq<char>>) -> Option<Seq<int>> {
    if groups_ok(Family::V6, gs) {
        Some(groups_values(Family::V6, gs))
    } else if gs.len() >= 1 && groups_ok(Family::V6, gs.drop_last()) && ipv4_of(gs.last()) is Some {
        Some(groups_values(Family::V6, gs.drop_last()) + embedded_pair(ipv4_of(gs.last())->Some_0))
    } else {
        None
    }
}

/// The address that IPv6 text `s` denotes, if any: eight segments, or fewer
/// around one `::` that stands for at least one zero segment; the last
/// segments may be written as an IPv4 address.
pub open spec fn ipv6_of(s: Seq<char>) -> Option<Seq<int>> {
    let i = find_pair(s, 0);
    if i < 0 {
        match pieces_value(split(s, ':')) {
            Some(v) => if v.len() == 8 {
                Some(v)
            } else {
                None
            },
            None => None,
        }
    } else {
        let l = segments_of(s.take(i));
        let r = segments_of(s.skip(i + 2));
        match pieces_value(r) {
            Some(rv) => if l.len() + rv.len() <= 7 && groups_ok(Family::V6, l) {
                Some(
                    groups_values(Family::V6, l) + Seq::new(
                        (8 - l.len() - rv.len()) as nat,
                        |k: int| 0int,
                    ) + rv,
                )
            } else {
                None
            },
            None => None,
        }
    }
}

/// The address that text `s` denotes in family `f`, if any.
pub open spec fn address_of(f: Family, s: Seq<char>) -> Option<Seq<int>> {
    match f {
        Family::V4 => ipv4_of(s),
        Family::V6 => ipv6_of(s),
    }
}

/// Number of zero parts of `a` in a row from index `i`.
pub open spec fn zeros_from(a: Seq<int>, i: int) -> int
    decreases a.len() - i,
{
    if 0 <= i < a.len() && a[i] == 0 {
        1 + zeros_from(a, i + 1)
    } else {
        0
    }
}

/// Start of the longest run of at least two zero parts among the runs that
/// start before `i` (the first of equally long ones), or -1.
pub open spec fn longest_zeros(a: Seq<int>, i: int) -> int
    decreases i,
{
    if i <= 0 {
        -1
    } else {
        let b = longest_zeros(a, i - 1);
        let here = i - 1;
        if zeros_from(a, here) >= 2 && (b < 0 || zeros_from(a, here) > zeros_from(a, b)) {
            here
        } else {
            b
        }
    }
}

/// The digit groups that the text of `a` is made of.
pub open spec fn text_groups(f: Family, a: Seq<int>) -> Seq<Seq<char>> {
    a.map_values(|x: int| num_text(x as nat, radix(f)))
}

/// The parts of `a` in shortest digits, separated.
pub open spec fn joined_text(f: Family, a: Seq<int>) -> Seq<char> {
    join(text_groups(f, a), separator(f))
}

/// The text written for address `a`: dotted decimal; or lower-case
/// hexadecimal segments without leading zeros, the longest run of two or more
/// zero segments (the first of equal ones) written as `::`.
pub open spec fn address_text(f: Family, a: Seq<int>) -> Seq<char> {
    match f {
        Family::V4 => joined_text(f, a),
        Family::V6 => {
            let z = longest_zeros(a, a.len() as int);
            if z < 0 {
                joined_text(f, a)
            } else {
                joined_text(f, a.take(z)) + seq![':', ':'] + joined_text(
                    f,
                    a.skip(z + zeros_from(a, z)),
                )
            }
        },
    }
}

pub open spec fn parts_in_range(f: Family, a: Seq<int>) -> bool {
    forall|k: int| 0 <= k < a.len() ==> 0 <= #[trigger] a[k] < part_limit(f)
}

pub open spec fn no_pair(s: Seq<char>) -> bool {
    forall|k: int| 0 <= k < s.len() - 1 ==> !(#[trigger] s[k] == ':' && s[k + 1] == ':')
}

proof fn lemma_join_no_pair(gs: Seq<Seq<char>>)
    requires
        gs.len() >= 1,
        forall|k: int| 0 <= k < gs.len() ==> (#[trigger] gs[k]).len() >= 1 && !gs[k].contains(':'),
    ensures
        no_pair(join(gs, ':')),
        join(gs, ':').len() >= 1,
        join(gs, ':').last() != ':',
    decreases gs.len(),
{
    let s = join(gs, ':');
    if gs.len() == 1 {
        assert(s == gs[0]);
        assert(s.last() != ':') by {
            assert(gs[0][gs[0].len() - 1] == s.last());
        }
        assert forall|k: int| 0 <= k < s.len() - 1 implies !(#[trigger] s[k] == ':' && s[k + 1]
            == ':') by {
            assert(gs[0][k] == s[k]);
        }
    } else {
        let init = gs.drop_last();
        let g = gs.last();
        assert(g == gs[gs.len() - 1]);
        lemma_join_no_pair(init);
        let x = join(init, ':');
        assert(s == x.push(':') + g);
        assert(g[0] != ':');
        assert(s.last() != ':') by {
            assert(g[g.len() - 1] == s.last());
        }
        assert forall|k: int| 0 <= k < s.len() - 1 implies !(#[trigger] s[k] == ':' && s[k + 1]
            == ':') by {
            if k < x.len() - 1 {
                assert(s[k] == x[k] && s[k + 1] == x[k + 1]);
            } else if k == x.len() - 1 {
                assert(s[k] == x.last());
            } else if k == x.len() {
                assert(s[k + 1] == g[0]);
            } else {
                assert(s[k] == g[k - x.len() - 1]);
            }
        }
    }
}

proof fn lemma_find_pair_none(s: Seq<char>, i: int)
    requires
        no_pair(s),
        i >= 0,
    ensures
        find_pair(s, i) == -1,
    decreases s.len() - i,
{
    if i + 1 < s.len() {
        assert(!(s[i] == ':' && s[i + 1] == ':'));
        lemma_find_pair_none(s, i + 1);
    }
}

proof fn lemma_find_pair_at(s: Seq<char>, i: int, j: int)
    requires
        0 <= i <= j,
        j + 1 < s.len(),
        s[j] == ':' && s[j + 1] == ':',
        forall|k: int| i <= k < j ==> !(#[trigger] s[k] == ':' && s[k + 1] == ':'),
    ensures
        find_pair(s, i) == j,
    decreases j - i,
{
    if i < j {
        lemma_find_pair_at(s, i + 1, j);
    }
}

proof fn lemma_text_groups(f: Family, a: Seq<int>)
    requires
        parts_in_range(f, a),
    ensures
        a.len() >= 1 ==> split(joined_text(f, a), separator(f)) == text_groups(f, a),
        groups_ok(f, text_groups(f, a)),
        groups_values(f, text_groups(f, a)) == a,
        forall|k: int| 0 <= k < a.len() ==> (#[trigger] text_groups(f, a)[k]).len() >= 1
            && !text_groups(f, a)[k].contains(':'),
{
    let gs = text_groups(f, a);
    assert forall|k: int| 0 <= k < gs.len() implies group_ok(f, #[trigger] gs[k]) && gs[k].len()
        >= 1 && !gs[k].contains(':') && !gs[k].contains('.') && digits_value(gs[k], radix(f) as int)
        == a[k] by {
        let n = a[k] as nat;
        lemma_num_text(n, radix(f));
        lemma_num_text_len(n, radix(f));
        if n == 0 {
            assert(num_text(n, radix(f)) == seq![crate::text::digit_char(0)]);
        }
    }
    if a.len() >= 1 {
        lemma_split_join(gs, separator(f));
    }
    assert(groups_values(f, gs) =~= a);
}

proof fn lemma_zeros_from(a: Seq<int>, i: int)
    requires
        0 <= i <= a.len(),
    ensures
        0 <= zeros_from(a, i) <= a.len() - i,
        forall|k: int| i <= k < i + zeros_from(a, i) ==> a[k] == 0,
    decreases a.len() - i,
{
    if i < a.len() && a[i] == 0 {
        lemma_zeros_from(a, i + 1);
    }
}

proof fn lemma_longest_zeros(a: Seq<int>, i: int)
    requires
        0 <= i <= a.len(),
    ensures
        longest_zeros(a, i) == -1 || (0 <= longest_zeros(a, i) < i && zeros_from(a, longest_zeros(a, i)) >= 2),
    decreases i,
{
    if i > 0 {
        lemma_longest_zeros(a, i - 1);
    }
}

/// Text of the form `head::tail` reads back as head, zeros, tail.
proof fn lemma_compressed_round_trip(a: Seq<int>, z: int, n: int)
    requires
        valid_parts(Family::V6, a),
        0 <= z,
        n >= 2,
        z + n <= 8,
        forall|k: int| z <= k < z + n ==> a[k] == 0,
    ensures
        ipv6_of(
            joined_text(Family::V6, a.take(z)) + seq![':', ':'] + joined_text(Family::V6, a.skip(z + n)),
        ) == Some(a),
{
    let f = Family::V6;
    let h = a.take(z);
    let t = a.skip(z + n);
    let jh = joined_text(f, h);
    let jt = joined_text(f, t);
    let s = jh + seq![':', ':'] + jt;
    lemma_text_groups(f, h);
    lemma_text_groups(f, t);
    if h.len() >= 1 {
        lemma_join_no_pair(text_groups(f, h));
    } else {
        assert(text_groups(f, h) =~= Seq::<Seq<char>>::empty());
    }
    if t.len() >= 1 {
        lemma_join_no_pair(text_groups(f, t));
    } else {
        assert(text_groups(f, t) =~= Seq::<Seq<char>>::empty());
    }
    assert forall|k: int| 0 <= k < jh.len() implies !(#[trigger] s[k] == ':' && s[k + 1] == ':') by {
        if k < jh.len() - 1 {
            assert(s[k] == jh[k] && s[k + 1] == jh[k + 1]);
        } else {
            assert(s[k] == jh.last());
        }
    }
    assert(s[jh.len() as int] == ':' && s[jh.len() as int + 1] == ':');
    lemma_find_pair_at(s, 0, jh.len() as int);
    assert(s.take(jh.len() as int) =~= jh);
    assert(s.skip(jh.len() as int + 2) =~= jt);
    assert(segments_of(jh) == text_groups(f, h));
    assert(segments_of(jt) == text_groups(f, t));
    assert(groups_values(f, text_groups(f, h)) + Seq::new((8 - h.len() - t.len()) as nat, |k: int| 0int)
        + groups_values(f, text_groups(f, t)) =~= a);
}

/// Reading back the text written for a valid address gives that address.
pub proof fn lemma_address_round_trip(f: Family, a: Seq<int>)
    requires
        valid_parts(f, a),
    ensures
        address_of(f, address_text(f, a)) == Some(a),
{
    lemma_text_groups(f, a);
    if f == Family::V6 {
        let z = longest_zeros(a, a.len() as int);
        lemma_longest_zeros(a, a.len() as int);
        if z < 0 {
            lemma_join_no_pair(text_groups(f, a));
            lemma_find_pair_none(address_text(f, a), 0);
        } else {
            lemma_zeros_from(a, z);
            lemma_compressed_round_trip(a, z, zeros_from(a, z));
        }
    }
}

pub open spec fn as_ints(v: Seq<u16>) -> Seq<int> {
    v.map_values(|x: u16| x as int)
}

proof fn lemma_as_ints_push(v: Seq<u16>, x: u16)
    ensures
        as_ints(v.push(x)) == as_ints(v).push(x as int),
{
    assert(as_ints(v.push(x)) =~= as_ints(v).push(x as int));
}

proof fn lemma_find_pair_range(s: Seq<char>, i: int)
    requires
        i >= 0,
    ensures
        find_pair(s, i) == -1 || (i <= find_pair(s, i) && find_pair(s, i) + 2 <= s.len()
            && s[find_pair(s, i)] == ':' && s[find_pair(s, i) + 1] == ':'),
    decreases s.len() - i,
{
    if i + 1 < s.len() && !(s[i] == ':' && s[i + 1] == ':') {
        lemma_find_pair_range(s, i + 1);
    }
}

/// Checks one group of digits and gives its value.
fn read_group(g: &Vec<char>, f: Family) -> (r: Option<u16>)
    ensures
        r is Some <==> group_ok(f, g@),
        r matches Some(v) ==> v == digits_value(g@, radix(f) as int),
{
    let (max, base): (usize, u32) = match f {
        Family::V4 => (3, 10),
        Family::V6 => (4, 16),
    };
    if g.len() < 1 || g.len() > max {
        return None;
    }
    match group_number(g.as_slice(), base) {
        None => None,
        Some(v) => {
            match f {
                Family::V4 => {
                    if v > 255 || (g.len() > 1 && g[0] == '0') {
                        None
                    } else {
                        Some(v as u16)
                    }
                },
                Family::V6 => Some(v as u16),
            }
        },
    }
}

/// Checks every group of `s[lo..hi]` and gives their values.
fn read_groups(s: &Vec<char>, lo: usize, hi: usize, f: Family) -> (r: Option<Vec<u16>>)
    requires
        lo <= hi <= s@.len(),
    ensures
        r is Some <==> groups_ok(f, split(s@.subrange(lo as int, hi as int), separator(f))),
        r matches Some(v) ==> as_ints(v@) == groups_values(
            f,
            split(s@.subrange(lo as int, hi as int), separator(f)),
        ),
{
    let sep = match f {
        Family::V4 => '.',
        Family::V6 => ':',
    };
    let gs = split_range(s, lo, hi, sep);
    let ghost p = split(s@.subrange(lo as int, hi as int), separator(f));
    assert(pieces(gs@) == p);
    let mut out: Vec<u16> = Vec::new();
    let mut k: usize = 0;
    while k < gs.len()
        invariant
            pieces(gs@) == p,
            p == split(s@.subrange(lo as int, hi as int), separator(f)),
            gs@.len() == p.len(),
            k <= gs@.len(),
            forall|j: int| 0 <= j < k ==> group_ok(f, #[trigger] p[j]),
            as_ints(out@) == groups_values(f, p.take(k as int)),
        decreases gs.len() - k,
    {
        assert(pieces(gs@)[k as int] == gs@[k as int]@);
        match read_group(&gs[k], f) {
            None => {
                assert(!group_ok(f, p[k as int]));
                return None;
            },
            Some(v) => {
                proof { lemma_as_ints_push(out@, v); }
                out.push(v);
                k = k + 1;
                assert(as_ints(out@) =~= groups_values(f, p.take(k as int)));
            },
        }
    }
    assert(p.take(k as int) =~= p);
    Some(out)
}

/// Reads the colon-separated pieces of `s[lo..hi]` as segments, the last
/// possibly an IPv4 address.
fn read_segments(s: &Vec<char>, lo: usize, hi: usize) -> (r: Option<Vec<u16>>)
    requires
        lo <= hi <= s@.len(),
    ensures
        match r {
            Some(v) => pieces_value(split(s@.subrange(lo as int, hi as int), ':')) == Some(as_ints(v@)),
            None => pieces_value(split(s@.subrange(lo as int, hi as int), ':')) is None,
        },
{
    let gs = split_range(s, lo, hi, ':');
    let ghost p = split(s@.subrange(lo as int, hi as int), ':');
    proof { crate::text::lemma_split_nonempty(s@.subrange(lo as int, hi as int), ':'); }
    assert(pieces(gs@) == p);
    let last_index = gs.len() - 1;
    let mut out: Vec<u16> = Vec::new();
    let mut k: usize = 0;
    while k < last_index
        invariant
            pieces(gs@) == p,
            p == split(s@.subrange(lo as int, hi as int), ':'),
            gs@.len() == p.len(),
            last_index == p.len() - 1,
            k <= last_index,
            forall|j: int| 0 <= j < k ==> group_ok(Family::V6, #[trigger] p[j]),
            as_ints(out@) == groups_values(Family::V6, p.take(k as int)),
        decreases last_index - k,
    {
        assert(pieces(gs@)[k as int] == gs@[k as int]@);
        match read_group(&gs[k], Family::V6) {
            None => {
                assert(!group_ok(Family::V6, p[k as int]));
                assert(!group_ok(Family::V6, p.drop_last()[k as int]));
                return None;
            },
            Some(v) => {
                proof { lemma_as_ints_push(out@, v); }
                out.push(v);
                k = k + 1;
                assert(as_ints(out@) =~= groups_values(Family::V6, p.take(k as int)));
            },
        }
    }
    assert(p.take(k as int) =~= p.drop_last());
    assert(groups_ok(Family::V6, p.drop_last()));
    let last = &gs[last_index];
    assert(pieces(gs@)[last_index as int] == last@);
    assert(last@ == p.last());
    match read_group(last, Family::V6) {
        Some(v) => {
            proof { lemma_as_ints_push(out@, v); }
            out.push(v);
            assert(groups_ok(Family::V6, p));
            assert(p.take(p.len() as int) =~= p);
            assert(as_ints(out@) =~= groups_values(Family::V6, p));
            Some(out)
        },
        None => {
            assert(!groups_ok(Family::V6, p));
            assert(last@.subrange(0, last@.len() as int) =~= last@);
            match read_groups(last, 0, last.len(), Family::V4) {
                None => None,
                Some(q) => {
                    assert(as_ints(q@).len() == q@.len());
                    if q.len() != 4 {
                        return None;
                    }
                    assert(ipv4_of(p.last()) == Some(as_ints(q@)));
                    let hi_seg = q[0] * 256 + q[1];
                    let lo_seg = q[2] * 256 + q[3];
                    proof {
                        lemma_as_ints_push(out@, hi_seg);
                        lemma_as_ints_push(out@.push(hi_seg), lo_seg);
                    }
                    out.push(hi_seg);
                    out.push(lo_seg);
                    assert(as_ints(out@) =~= groups_values(Family::V6, p.drop_last()) + embedded_pair(
                        as_ints(q@),
                    ));
                    Some(out)
                },
            }
        },
    }
}

/// Index of the first `::` in `s`.
fn find_pair_index(s: &Vec<char>) -> (r: Option<usize>)
    ensures
        find_pair(s@, 0) == match r {
            Some(i) => i as int,
            None => -1,
        },
{
    let mut i: usize = 0;
    while i < s.len()
        invariant
            i <= s@.len(),
            find_pair(s@, 0) == find_pair(s@, i as int),
        decreases s.len() - i,
    {
        if i + 1 < s.len() && s[i] == ':' && s[i + 1] == ':' {
            return Some(i);
        }
        i = i + 1;
    }
    None
}

/// Parses `s` as an address of family `f`: its parts, or `None` where `s`
/// is not such an address.
pub fn parse_address(f: Family, s: &str) -> (r: Option<Vec<u16>>)
    ensures
        match r {
            Some(v) => address_of(f, s@) == Some(as_ints(v@)),
            None => address_of(f, s@) is None,
        },
{
    let c = to_chars(s);
    assert(c@.subrange(0, c@.len() as int) =~= s@);
    match f {
        Family::V4 => {
            match read_groups(&c, 0, c.len(), f) {
                None => None,
                Some(v) => {
                    assert(as_ints(v@).len() == v@.len());
                    assert(groups_values(f, split(s@, '.')).len() == split(s@, '.').len());
                    if v.len() == 4 {
                        Some(v)
                    } else {
                        None
                    }
                },
            }
        },
        Family::V6 => {
            match find_pair_index(&c) {
                None => {
                    match read_segments(&c, 0, c.len()) {
                        None => None,
                        Some(v) => {
                            if v.len() == 8 {
                                Some(v)
                            } else {
                                None
                            }
                        },
                    }
                },
                Some(i) => {
                    let n = c.len();
                    proof { lemma_find_pair_range(c@, 0); }
                    assert(c@.subrange(0, i as int) =~= s@.take(i as int));
                    assert(c@.subrange(i + 2, n as int) =~= s@.skip(i + 2));
                    let ghost l = segments_of(s@.take(i as int));
                    let ghost rr = segments_of(s@.skip(i + 2));
                    assert(as_ints(Seq::<u16>::empty()) =~= Seq::<int>::empty());
                    assert(groups_values(f, Seq::<Seq<char>>::empty()) =~= Seq::<int>::empty());
                    assert(groups_ok(f, Seq::<Seq<char>>::empty()));
                    let ghost rv = pieces_value(rr);
                    let right = if i + 2 == n {
                        assert(rr.len() == 0);
                        assert(rv == Some(Seq::<int>::empty()));
                        Vec::new()
                    } else {
                        match read_segments(&c, i + 2, n) {
                            None => {
                                return None;
                            },
                            Some(v) => v,
                        }
                    };
                    assert(rv == Some(as_ints(right@)));
                    let left = if i == 0 {
                        assert(l.len() == 0);
                        Vec::new()
                    } else {
                        match read_groups(&c, 0, i, f) {
                            None => {
                                return None;
                            },
                            Some(v) => {
                                assert(l == split(c@.subrange(0, i as int), separator(f)));
                                assert(as_ints(v@).len() == v@.len());
                                v
                            },
                        }
                    };
                    assert(as_ints(left@) == groups_values(f, l));
                    assert(left@.len() == l.len());
                    assert(as_ints(right@).len() == right@.len());
                    if left.len() > 7 || right.len() > 7 - left.len() {
                        return None;
                    }
                    let zeros = 8 - left.len() - right.len();
                    let mut out = left;
                    let mut z: usize = 0;
                    while z < zeros
                        invariant
                            z <= zeros,
                            as_ints(out@) == groups_values(f, l) + Seq::new(z as nat, |k: int| 0int),
                        decreases zeros - z,
                    {
                        proof { lemma_as_ints_push(out@, 0); }
                        out.push(0);
                        z = z + 1;
                        assert(as_ints(out@) =~= groups_values(f, l) + Seq::new(z as nat, |k: int| 0int));
                    }
                    let ghost mid = as_ints(out@);
                    assert(mid == groups_values(f, l) + Seq::new(zeros as nat, |k: int| 0int));
                    let mut j: usize = 0;
                    while j < right.len()
                        invariant
                            j <= right@.len(),
                            mid == groups_values(f, l) + Seq::new(zeros as nat, |k: int| 0int),
                            as_ints(out@) == mid + as_ints(right@).take(j as int),
                        decreases right.len() - j,
                    {
                        proof { lemma_as_ints_push(out@, right@[j as int]); }
                        out.push(right[j]);
                        j = j + 1;
                        assert(as_ints(out@) =~= mid + as_ints(right@).take(j as int));
                    }
                    assert(as_ints(right@).take(j as int) =~= as_ints(right@));
                    Some(out)
                },
            }
        },
    }
}

/// Number of zero parts in a row from index `i`.
fn zero_run(a: &Vec<u16>, i: usize) -> (r: usize)
    requires
        i <= a@.len(),
    ensures
        r == zeros_from(as_ints(a@), i as int),
        i + r <= a@.len(),
{
    let ghost v = as_ints(a@);
    let mut j: usize = i;
    while j < a.len() && a[j] == 0
        invariant
            v == as_ints(a@),
            i <= j <= a@.len(),
            zeros_from(v, i as int) == (j - i) + zeros_from(v, j as int),
        decreases a.len() - j,
    {
        j = j + 1;
    }
    j - i
}

/// Start of the longest run of at least two zero parts, the first of equal ones.
fn longest_zero_run(a: &Vec<u16>) -> (r: Option<usize>)
    ensures
        longest_zeros(as_ints(a@), a@.len() as int) == match r {
            Some(z) => z as int,
            None => -1,
        },
{
    let ghost v = as_ints(a@);
    let mut best: Option<usize> = None;
    let mut best_len: usize = 0;
    let mut i: usize = 0;
    while i < a.len()
        invariant
            v == as_ints(a@),
            i <= a@.len(),
            longest_zeros(v, i as int) == match best {
                Some(z) => z as int,
                None => -1,
            },
            best matches Some(z) ==> z < a@.len() && best_len == zeros_from(v, z as int),
        decreases a.len() - i,
    {
        let n = zero_run(a, i);
        let better = match best {
            None => n >= 2,
            Some(_) => n >= 2 && n > best_len,
        };
        if better {
            best = Some(i);
            best_len = n;
        }
        i = i + 1;
    }
    best
}

/// Appends the parts `a[lo..hi]` in shortest digits, separated.
fn push_joined(out: &mut String, f: Family, a: &Vec<u16>, lo: usize, hi: usize)
    requires
        lo <= hi <= a@.len(),
        parts_in_range(f, as_ints(a@)),
    ensures
        final(out)@ == old(out)@ + joined_text(f, as_ints(a@).subrange(lo as int, hi as int)),
{
    let ghost v = as_ints(a@);
    if lo == hi {
        assert(text_groups(f, v.subrange(lo as int, hi as int)) =~= Seq::<Seq<char>>::empty());
        assert(final(out)@ =~= old(out)@ + joined_text(f, v.subrange(lo as int, hi as int)));
        return;
    }
    let (sep, base): (&str, u32) = match f {
        Family::V4 => {
            proof { reveal_strlit("."); }
            (".", 10)
        },
        Family::V6 => {
            proof { reveal_strlit(":"); }
            (":", 16)
        },
    };
    assert(sep@ == seq![separator(f)]);
    let ghost start = out@;
    push_number(out, a[lo] as u32, base);
    let mut k: usize = lo + 1;
    assert(out@ =~= start + joined_text(f, v.subrange(lo as int, k as int))) by {
        assert(text_groups(f, v.subrange(lo as int, k as int)).len() == 1);
    }
    while k < hi
        invariant
            v == as_ints(a@),
            parts_in_range(f, v),
            lo < k <= hi <= a@.len(),
            sep@ == seq![separator(f)],
            base == radix(f),
            out@ == start + joined_text(f, v.subrange(lo as int, k as int)),
        decreases hi - k,
    {
        out.append(sep);
        push_number(out, a[k] as u32, base);
        proof {
            let t = text_groups(f, v.subrange(lo as int, k as int + 1));
            assert(t.drop_last() =~= text_groups(f, v.subrange(lo as int, k as int)));
            assert(t.last() == num_text(a@[k as int] as nat, radix(f)));
        }
        k = k + 1;
        assert(out@ =~= start + joined_text(f, v.subrange(lo as int, k as int)));
    }
}

/// Writes the text of an address of family `f` given by its parts.
pub fn address_string(f: Family, a: &Vec<u16>) -> (r: String)
    requires
        valid_parts(f, as_ints(a@)),
    ensures
        r@ == address_text(f, as_ints(a@)),
{
    let ghost v = as_ints(a@);
    let mut out = String::new();
    let n = a.len();
    assert(v.subrange(0, n as int) =~= v);
    match f {
        Family::V4 => {
            push_joined(&mut out, f, a, 0, n);
        },
        Family::V6 => {
            match longest_zero_run(a) {
                None => {
                    push_joined(&mut out, f, a, 0, n);
                },
                Some(z) => {
                    proof { lemma_longest_zeros(v, n as int); }
                    let run = zero_run(a, z);
                    push_joined(&mut out, f, a, 0, z);
                    proof { reveal_strlit("::"); }
                    out.append("::");
                    push_joined(&mut out, f, a, z + run, n);
                    assert(v.subrange(0, z as int) =~= v.take(z as int));
                    assert(v.subrange(z + run, n as int) =~= v.skip(z + run));
                    assert(out@ =~= address_text(f, v));
                },
            }
        },
    }
    assert(out@ =~= address_text(f, v));
    out
}

} // verus!
