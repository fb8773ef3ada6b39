//! Text primitives: digit groups and separated lists of characters.
use vstd::arithmetic::power::pow;
use vstd::prelude::*;

verus! {

/// Character for the digit `d` (below sixteen), lower-case for letters.
pub open spec fn digit_char(d: int) -> char {
    if d == 0 { '0' } else if d == 1 { '1' } else if d == 2 { '2' } else if d == 3 { '3' }
    else if d == 4 { '4' } else if d == 5 { '5' } else if d == 6 { '6' } else if d == 7 { '7' }
    else if d == 8 { '8' } else if d == 9 { '9' } else if d == 10 { 'a' } else if d == 11 { 'b' }
    else if d == 12 { 'c' } else if d == 13 { 'd' } else if d == 14 { 'e' } else { 'f' }
}

/// Value of `c` as a digit in base `radix` (10 or 16), or -1 when it is none.
pub open spec fn digit_of(c: char, radix: int) -> int {
    if '0' <= c && c <= '9' {
        c as int - '0' as int
    } else if radix == 16 && 'a' <= c && c <= 'f' {
        c as int - 'a' as int + 10
    } else if radix == 16 && 'A' <= c && c <= 'F' {
        c as int - 'A' as int + 10
    } else {
        -1
    }
}

pub open spec fn all_digits(g: Seq<char>, radix: int) -> bool {
    forall|k: int| 0 <= k < g.len() ==> digit_of(#[trigger] g[k], radix) >= 0
}

/// Number written by the digits `g` in base `radix`.
pub open spec fn digits_value(g: Seq<char>, radix: int) -> int
    decreases g.len(),
{
    if g.len() == 0 {
        0
    } else {
        digits_value(g.drop_last(), radix) * radix + digit_of(g.last(), radix)
    }
}

/// Shortest digits of `n` in base `radix`.
pub open spec fn num_text(n: nat, radix: nat) -> Seq<char>
    decreases n
    via num_text_decreases
{
    if n < radix || radix < 2 {
        seq![digit_char(n as int)]
    } else {
        num_text(n / radix, radix).push(digit_char((n % radix) as int))
    }
}

#[via_fn]
proof fn num_text_decreases(n: nat, radix: nat) {
    if !(n < radix || radix < 2) {
        assert(n / radix < n) by (nonlinear_arith)
            requires
                n >= radix,
                radix >= 2,
        ;
    }
}

/// The pieces of `s` between occurrences of `sep` (always at least one).
pub open spec fn split(s: Seq<char>, sep: char) -> Seq<Seq<char>>
    decreases s.len(),
{
    if s.len() == 0 {
        seq![Seq::<char>::empty()]
    } else {
        let prev = split(s.drop_last(), sep);
        if s.last() == sep {
            prev.push(Seq::<char>::empty())
        } else {
            prev.update(prev.len() - 1, prev.last().push(s.last()))
        }
    }
}

/// The pieces `gs` written one after another with `sep` between them.
pub open spec fn join(gs: Seq<Seq<char>>, sep: char) -> Seq<char>
    decreases gs.len(),
{
    if gs.len() == 0 {
        Seq::<char>::empty()
    } else if gs.len() == 1 {
        gs[0]
    } else {
        join(gs.drop_last(), sep).push(sep) + gs.last()
    }
}

pub proof fn lemma_split_nonempty(s: Seq<char>, sep: char)
    ensures
        split(s, sep).len() >= 1,
    decreases s.len(),
{
    if s.len() > 0 {
        lemma_split_nonempty(s.drop_last(), sep);
    }
}

/// Appending characters other than `sep` extends the last piece.
proof fn lemma_split_append(a: Seq<char>, g: Seq<char>, sep: char)
    requires
        !g.contains(sep),
    ensures
        split(a + g, sep) == split(a, sep).update(
            split(a, sep).len() - 1,
            split(a, sep).last() + g,
        ),
    decreases g.len(),
{
    lemma_split_nonempty(a, sep);
    if g.len() == 0 {
        assert(a + g =~= a);
        assert(split(a, sep).last() + g =~= split(a, sep).last());
        assert(split(a, sep).update(split(a, sep).len() - 1, split(a, sep).last())
            =~= split(a, sep));
    } else {
        let h = g.drop_last();
        assert(!h.contains(sep)) by {
            if h.contains(sep) {
                let k = choose|k: int| 0 <= k < h.len() && h[k] == sep;
                assert(g[k] == sep);
            }
        }
        lemma_split_append(a, h, sep);
        assert((a + g).drop_last() =~= a + h);
        assert((a + g).last() == g.last());
        assert(g.last() != sep) by {
            assert(g[g.len() - 1] == g.last());
        }
        lemma_split_nonempty(a + h, sep);
        let sa = split(a, sep);
        let sh = split(a + h, sep);
        assert(sh.len() == sa.len());
        assert(sh.last() == sa.last() + h);
        assert(split(a + g, sep) == sh.update(sh.len() - 1, sh.last().push(g.last())));
        assert(split(a, sep).last() + h + seq![g.last()] =~= split(a, sep).last() + g) by {
            assert(g =~= h.push(g.last()));
        }
        assert(split(a + g, sep) =~= split(a, sep).update(
            split(a, sep).len() - 1,
            split(a, sep).last() + g,
        ));
    }
}

/// Splitting undoes joining, for pieces that do not hold the separator.
pub proof fn lemma_split_join(gs: Seq<Seq<char>>, sep: char)
    requires
        gs.len() >= 1,
        forall|k: int| 0 <= k < gs.len() ==> !(#[trigger] gs[k]).contains(sep),
    ensures
        split(join(gs, sep), sep) == gs,
    decreases gs.len(),
{
    if gs.len() == 1 {
        lemma_split_append(Seq::<char>::empty(), gs[0], sep);
        assert(Seq::<char>::empty() + gs[0] =~= gs[0]);
        assert(Seq::<char>::empty() + gs[0] =~= gs[0]);
        assert(split(gs[0], sep) =~= gs);
    } else {
        let init = gs.drop_last();
        lemma_split_join(init, sep);
        let a = join(init, sep).push(sep);
        assert(split(a, sep) == init.push(Seq::<char>::empty())) by {
            assert(a.drop_last() =~= join(init, sep));
        }
        assert(!gs.last().contains(sep)) by {
            assert(gs[gs.len() - 1] == gs.last());
        }
        lemma_split_append(a, gs.last(), sep);
        assert(Seq::<char>::empty() + gs.last() =~= gs.last());
        assert(split(join(gs, sep), sep) =~= gs);
    }
}

pub proof fn lemma_digit_char(d: int, radix: int)
    requires
        radix == 10 || radix == 16,
        0 <= d < radix,
    ensures
        digit_of(digit_char(d), radix) == d,
        digit_char(d) != '.',
        digit_char(d) != ':',
        d >= 1 ==> digit_char(d) != '0',
{
}

/// The shortest digits of `n` are digits, and they write `n`.
pub proof fn lemma_num_text(n: nat, radix: nat)
    requires
        radix == 10 || radix == 16,
    ensures
        num_text(n, radix).len() >= 1,
        all_digits(num_text(n, radix), radix as int),
        digits_value(num_text(n, radix), radix as int) == n,
        !num_text(n, radix).contains('.'),
        !num_text(n, radix).contains(':'),
        n >= 1 ==> num_text(n, radix)[0] != '0',
    decreases n,
{
    let t = num_text(n, radix);
    if n < radix {
        lemma_digit_char(n as int, radix as int);
        assert(t.drop_last() =~= Seq::<char>::empty());
        assert(t[0] == digit_char(n as int));
        assert(t.last() == digit_char(n as int));
        assert(digits_value(t.drop_last(), radix as int) == 0);
        assert(digits_value(t, radix as int) == digits_value(t.drop_last(), radix as int)
            * radix + digit_of(t.last(), radix as int));
    } else {
        let q = n / radix;
        let d = (n % radix) as int;
        lemma_num_text(q, radix);
        lemma_digit_char(d, radix as int);
        let p = num_text(q, radix);
        assert(t.drop_last() =~= p);
        assert(t.last() == digit_char(d));
        assert(digits_value(t, radix as int) == digits_value(p, radix as int) * radix + d);
        assert(q * radix + d == n) by (nonlinear_arith)
            requires
                q == n / radix,
                d == n % radix,
                radix > 0,
        ;
        assert(q >= 1) by (nonlinear_arith)
            requires
                q == n / radix,
                n >= radix,
                radix > 0,
        ;
        assert(t[0] == p[0]);
        assert forall|k: int| 0 <= k < t.len() implies digit_of(#[trigger] t[k], radix as int) >= 0 by {
            if k < p.len() {
                assert(t[k] == p[k]);
            }
        }
        assert(!t.contains('.')) by {
            if t.contains('.') {
                let k = choose|k: int| 0 <= k < t.len() && t[k] == '.';
                if k < p.len() {
                    assert(p[k] == '.');
                }
            }
        }
        assert(!t.contains(':')) by {
            if t.contains(':') {
                let k = choose|k: int| 0 <= k < t.len() && t[k] == ':';
                if k < p.len() {
                    assert(p[k] == ':');
                }
            }
        }
    }
}

/// Bounds on the number of digits.
pub proof fn lemma_num_text_len(n: nat, radix: nat)
    requires
        radix == 10 && n < 1000 || radix == 16 && n < 65536,
    ensures
        radix == 10 ==> num_text(n, radix).len() <= 3,
        radix == 16 ==> num_text(n, radix).len() <= 4,
{
    reveal_with_fuel(num_text, 4);
    if radix == 10 {
        assert(n / 10 < 100);
        assert(n / 10 / 10 < 10);
    } else {
        assert(n / 16 < 4096);
        assert(n / 16 / 16 < 256);
        assert(n / 16 / 16 / 16 < 16);
    }
}


/// The characters of `s`.
pub(crate) fn to_chars(s: &str) -> (r: Vec<char>)
    ensures
        r@ == s@,
{
    let n = s.unicode_len();
    let mut r: Vec<char> = Vec::new();
    let mut i: usize = 0;
    while i < n
        invariant
            n == s@.len(),
            i <= n,
            r@ == s@.take(i as int),
        decreases n - i,
    {
        let c = s.get_char(i);
        r.push(c);
        i = i + 1;
        assert(r@ =~= s@.take(i as int));
    }
    assert(r@ =~= s@);
    r
}

/// Whether `a` and `b` hold the same characters.
pub(crate) fn same_text(a: &str, b: &str) -> (r: bool)
    ensures
        r == (a@ == b@),
{
    let x = to_chars(a);
    let y = to_chars(b);
    if x.len() != y.len() {
        return false;
    }
    let mut i: usize = 0;
    while i < x.len()
        invariant
            x@ == a@,
            y@ == b@,
            x.len() == y.len(),
            i <= x.len(),
            forall|k: int| 0 <= k < i ==> x@[k] == y@[k],
        decreases x.len() - i,
    {
        if x[i] != y[i] {
            return false;
        }
        i = i + 1;
    }
    assert(a@ =~= b@);
    true
}

/// Value of the digit `c` in base `radix`, or -1.
pub(crate) fn digit_value(c: char, radix: u32) -> (r: i32)
    ensures
        r == digit_of(c, radix as int),
{
    if '0' <= c && c <= '9' {
        (c as u32 - '0' as u32) as i32
    } else if radix == 16 && 'a' <= c && c <= 'f' {
        (c as u32 - 'a' as u32 + 10) as i32
    } else if radix == 16 && 'A' <= c && c <= 'F' {
        (c as u32 - 'A' as u32 + 10) as i32
    } else {
        -1
    }
}

/// The number written by the digits `g`, when all are digits and there are at most four.
pub(crate) fn group_number(g: &[char], radix: u32) -> (r: Option<u32>)
    requires
        radix == 10 || radix == 16,
        g@.len() <= 4,
    ensures
        r is Some <==> all_digits(g@, radix as int),
        r matches Some(v) ==> v == digits_value(g@, radix as int) && v < 65536,
{
    let mut v: u32 = 0;
    let mut i: usize = 0;
    proof {
        vstd::arithmetic::power::lemma_pow0(radix as int);
        assert(g@.take(0) =~= Seq::<char>::empty());
    }
    while i < g.len()
        invariant
            radix == 10 || radix == 16,
            g@.len() <= 4,
            i <= g@.len(),
            all_digits(g@.take(i as int), radix as int),
            v == digits_value(g@.take(i as int), radix as int),
            v < pow(radix as int, i as nat),
        decreases g.len() - i,
    {
        let d = digit_value(g[i], radix);
        if d < 0 {
            return None;
        }
        proof {
            let t = g@.take(i as int + 1);
            assert(t.drop_last() =~= g@.take(i as int));
            assert(pow(radix as int, (i + 1) as nat) == radix * pow(radix as int, i as nat)) by {
                vstd::arithmetic::power::lemma_pow_adds(radix as int, 1, i as nat);
                vstd::arithmetic::power::lemma_pow1(radix as int);
            }
            assert(pow(radix as int, i as nat) <= 4096) by {
                vstd::arithmetic::power::lemma_pow_increases(radix as nat, i as nat, 3);
                assert(pow(radix as int, 3) == radix * (radix * (radix * 1))) by {
                    reveal_with_fuel(pow, 4);
                }
                assert(radix * (radix * (radix * 1)) == radix * radix * radix) by (nonlinear_arith);
                assert(radix * radix * radix <= 4096) by (nonlinear_arith)
                    requires radix <= 16;
            }
            let p = pow(radix as int, i as nat);
            assert(v * radix + d < p * radix) by (nonlinear_arith)
                requires v < p, 0 <= d < radix;
            assert(p * radix <= 65536) by (nonlinear_arith)
                requires p <= 4096, radix <= 16;
        }
        v = v * radix + d as u32;
        i = i + 1;
    }
    proof {
        assert(g@.take(i as int) =~= g@);
        vstd::arithmetic::power::lemma_pow_increases(radix as nat, i as nat, 4);
        assert(pow(radix as int, 4) <= 65536) by {
            assert(pow(radix as int, 4) == radix * (radix * (radix * (radix * 1)))) by {
                reveal_with_fuel(pow, 5);
            }
            assert(radix * (radix * (radix * (radix * 1))) == radix * radix * radix * radix) by (nonlinear_arith);
            assert(radix * radix * radix * radix <= 65536) by (nonlinear_arith)
                requires radix <= 16;
        }
    }
    Some(v)
}

pub open spec fn pieces(v: Seq<Vec<char>>) -> Seq<Seq<char>> {
    v.map_values(|g: Vec<char>| g@)
}

/// The pieces of `s[lo..hi]` between occurrences of `sep`.
pub(crate) fn split_range(s: &Vec<char>, lo: usize, hi: usize, sep: char) -> (r: Vec<Vec<char>>)
    requires
        lo <= hi <= s@.len(),
    ensures
        pieces(r@) == split(s@.subrange(lo as int, hi as int), sep),
{
    let mut done: Vec<Vec<char>> = Vec::new();
    let mut cur: Vec<char> = Vec::new();
    let mut i: usize = lo;
    while i < hi
        invariant
            lo <= i <= hi <= s@.len(),
            pieces(done@).push(cur@) == split(s@.subrange(lo as int, i as int), sep),
        decreases hi - i,
    {
        let ghost before = s@.subrange(lo as int, i as int);
        let c = s[i];
        i = i + 1;
        proof {
            let now = s@.subrange(lo as int, i as int);
            assert(now.drop_last() =~= before);
            assert(now.last() == c);
        }
        if c == sep {
            done.push(cur);
            cur = Vec::new();
            assert(pieces(done@).push(cur@) =~= split(s@.subrange(lo as int, i as int), sep));
        } else {
            cur.push(c);
            assert(pieces(done@).push(cur@) =~= split(s@.subrange(lo as int, i as int), sep));
        }
    }
    done.push(cur);
    assert(pieces(done@) =~= split(s@.subrange(lo as int, hi as int), sep));
    done
}

/// One-character text for the digit `d`.
fn digit_text(d: u32) -> (r: &'static str)
    requires
        d < 16,
    ensures
        r@ == seq![digit_char(d as int)],
{
    match d {
        0 => { proof { reveal_strlit("0"); } "0" }
        1 => { proof { reveal_strlit("1"); } "1" }
        2 => { proof { reveal_strlit("2"); } "2" }
        3 => { proof { reveal_strlit("3"); } "3" }
        4 => { proof { reveal_strlit("4"); } "4" }
        5 => { proof { reveal_strlit("5"); } "5" }
        6 => { proof { reveal_strlit("6"); } "6" }
        7 => { proof { reveal_strlit("7"); } "7" }
        8 => { proof { reveal_strlit("8"); } "8" }
        9 => { proof { reveal_strlit("9"); } "9" }
        10 => { proof { reveal_strlit("a"); } "a" }
        11 => { proof { reveal_strlit("b"); } "b" }
        12 => { proof { reveal_strlit("c"); } "c" }
        13 => { proof { reveal_strlit("d"); } "d" }
        14 => { proof { reveal_strlit("e"); } "e" }
        _ => { proof { reveal_strlit("f"); } "f" }
    }
}

/// Appends the shortest digits of `n` in base `radix`.
pub(crate) fn push_number(out: &mut String, n: u32, radix: u32)
    requires
        radix == 10 || radix == 16,
    ensures
        final(out)@ == old(out)@ + num_text(n as nat, radix as nat),
    decreases n,
{
    if n < radix {
        out.append(digit_text(n));
    } else {
        push_number(out, n / radix, radix);
        out.append(digit_text(n % radix));
        assert(num_text(n as nat, radix as nat) == num_text((n / radix) as nat, radix as nat).push(
            digit_char((n % radix) as int),
        ));
    }
    assert(final(out)@ =~= old(out)@ + num_text(n as nat, radix as nat));
}

} // verus!
