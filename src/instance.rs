//! The text format of a problem instance.
//!
//! Lines are separated by `\n` (a trailing `\r` is dropped) and lines that
//! start with `#` are comments. The first other line is `<modules> <nets>`;
//! then one line `<width> <height>` per module, then one line per net with
//! the ids of its pins. Numbers are decimal and separated by single spaces.

use vstd::prelude::*;
use crate::geometry::{Rectangle, Net, Int};

verus! {

/// The pieces of `s` between the separators `sep`.
pub open spec fn split(s: Seq<u8>, sep: u8) -> Seq<Seq<u8>>
    decreases s.len(),
{
    if s.len() == 0 {
        seq![Seq::<u8>::empty()]
    } else {
        let r = split(s.drop_last(), sep);
        if s.last() == sep {
            r.push(Seq::<u8>::empty())
        } else {
            r.update(r.len() - 1, r.last().push(s.last()))
        }
    }
}

pub open spec fn strip_cr(l: Seq<u8>) -> Seq<u8> {
    if l.len() > 0 && l.last() == 13u8 {
        l.drop_last()
    } else {
        l
    }
}

pub open spec fn is_comment(l: Seq<u8>) -> bool {
    l.len() > 0 && l[0] == 35u8
}

/// The lines among the first `k` that are not comments, without `\r`.
pub open spec fn kept(ls: Seq<Seq<u8>>, k: int) -> Seq<Seq<u8>>
    decreases k,
{
    if k <= 0 {
        Seq::empty()
    } else {
        let l = strip_cr(ls[k - 1]);
        if is_comment(l) {
            kept(ls, k - 1)
        } else {
            kept(ls, k - 1).push(l)
        }
    }
}

/// The lines of an instance text that carry data.
pub open spec fn data_lines(text: Seq<u8>) -> Seq<Seq<u8>> {
    let ls = split(text, 10u8);
    kept(ls, ls.len() as int)
}

pub open spec fn is_digit(b: u8) -> bool {
    48 <= b <= 57
}

/// The value of a decimal numeral.
pub open spec fn number(t: Seq<u8>) -> int
    decreases t.len(),
{
    if t.len() == 0 {
        0
    } else {
        number(t.drop_last()) * 10 + (t.last() - 48)
    }
}

/// A decimal numeral that fits 64 bits.
pub open spec fn numeral_ok(t: Seq<u8>) -> bool {
    &&& t.len() >= 1
    &&& forall|i: int| 0 <= i < t.len() ==> is_digit(#[trigger] t[i])
    &&& number(t) <= u64::MAX
}

/// Every space-separated token of the line is a numeral.
pub open spec fn ints_ok(l: Seq<u8>) -> bool {
    forall|i: int| 0 <= i < split(l, 32u8).len() ==> numeral_ok(#[trigger] split(l, 32u8)[i])
}

/// The numbers on a line.
pub open spec fn ints_of(l: Seq<u8>) -> Seq<int> {
    split(l, 32u8).map_values(|t: Seq<u8>| number(t))
}

/// The header, the module lines and the net lines are all there and hold
/// numbers, with two per module line at least and pin ids that fit `usize`.
pub open spec fn instance_ok(text: Seq<u8>) -> bool {
    let d = data_lines(text);
    &&& d.len() >= 1
    &&& ints_ok(d[0])
    &&& ints_of(d[0]).len() == 2
    &&& d.len() >= 1 + ints_of(d[0])[0] + ints_of(d[0])[1]
    &&& forall|i: int|
        1 <= i < 1 + ints_of(d[0])[0] ==> ints_ok(#[trigger] d[i]) && ints_of(d[i]).len() >= 2
    &&& forall|i: int|
        1 + ints_of(d[0])[0] <= i < 1 + ints_of(d[0])[0] + ints_of(d[0])[1] ==> ints_ok(#[trigger] d[i]) && forall|j: int|
            0 <= j < ints_of(d[i]).len() ==> ints_of(d[i])[j] <= usize::MAX
}

/// The modules of a well-formed instance text.
pub open spec fn modules_of(text: Seq<u8>) -> Seq<Rectangle> {
    let d = data_lines(text);
    Seq::new(
        ints_of(d[0])[0] as nat,
        |i: int| Rectangle { width: ints_of(d[1 + i])[0] as Int, height: ints_of(d[1 + i])[1] as Int },
    )
}

/// The nets of a well-formed instance text: pins and id.
pub open spec fn nets_of(text: Seq<u8>) -> Seq<(Seq<usize>, usize)> {
    let d = data_lines(text);
    let n = ints_of(d[0])[0];
    Seq::new(
        ints_of(d[0])[1] as nat,
        |i: int| (ints_of(d[1 + n + i]).map_values(|v: int| v as usize), i as usize),
    )
}

pub open spec fn net_views(nets: Seq<Net>) -> Seq<(Seq<usize>, usize)> {
    nets.map_values(|n: Net| (n.pins@, n.id))
}

proof fn lemma_split_nonempty(s: Seq<u8>, sep: u8)
    ensures
        split(s, sep).len() >= 1,
    decreases s.len(),
{
    if s.len() > 0 {
        lemma_split_nonempty(s.drop_last(), sep);
    }
}

pub open spec fn views(v: Seq<Vec<u8>>) -> Seq<Seq<u8>> {
    v.map_values(|x: Vec<u8>| x@)
}

/// The pieces of `s` between the separators `sep`.
fn split_bytes(s: &Vec<u8>, sep: u8) -> (r: Vec<Vec<u8>>)
    ensures
        views(r@) == split(s@, sep),
{
    let mut done: Vec<Vec<u8>> = Vec::new();
    let mut cur: Vec<u8> = Vec::new();
    let mut i: usize = 0;
    while i < s.len()
        invariant
            i <= s@.len(),
            views(done@).push(cur@) == split(s@.subrange(0, i as int), sep),
        decreases s@.len() - i,
    {
        let b = s[i];
        let ghost pre = s@.subrange(0, i as int);
        let ghost next = s@.subrange(0, i as int + 1);
        assert(next.drop_last() =~= pre);
        assert(next.last() == b);
        proof {
            lemma_split_nonempty(pre, sep);
        }
        if b == sep {
            let ghost dv = views(done@);
            done.push(cur);
            cur = Vec::new();
            assert(views(done@) =~= dv.push(split(pre, sep).last()));
            assert(views(done@).push(cur@) =~= split(next, sep));
        } else {
            let ghost cv = cur@;
            cur.push(b);
            assert(views(done@).push(cur@) =~= split(next, sep));
        }
        i += 1;
    }
    assert(s@.subrange(0, s@.len() as int) =~= s@);
    let ghost dv = views(done@);
    done.push(cur);
    assert(views(done@) =~= dv.push(cur@));
    done
}

proof fn lemma_number_prefix(t: Seq<u8>, k: int)
    requires
        0 <= k <= t.len(),
        forall|i: int| 0 <= i < t.len() ==> is_digit(#[trigger] t[i]),
    ensures
        number(t.subrange(0, k)) <= number(t),
        number(t) >= 0,
    decreases t.len() - k,
{
    if k < t.len() {
        lemma_number_prefix(t, k + 1);
        let p = t.subrange(0, k + 1);
        assert(p.drop_last() =~= t.subrange(0, k));
        lemma_number_nonneg(t.subrange(0, k));
    } else {
        assert(t.subrange(0, k) =~= t);
        lemma_number_nonneg(t);
    }
}

proof fn lemma_number_nonneg(t: Seq<u8>)
    requires
        forall|i: int| 0 <= i < t.len() ==> is_digit(#[trigger] t[i]),
    ensures
        number(t) >= 0,
    decreases t.len(),
{
    if t.len() > 0 {
        lemma_number_nonneg(t.drop_last());
    }
}

/// The value of a numeral, or `None` when it is empty, holds another byte
/// than a digit, or does not fit 64 bits.
fn parse_number(t: &Vec<u8>) -> (r: Option<u64>)
    ensures
        match r {
            Some(v) => numeral_ok(t@) && v == number(t@),
            None => !numeral_ok(t@),
        },
{
    if t.len() == 0 {
        return None;
    }
    let mut v: u64 = 0;
    let mut i: usize = 0;
    while i < t.len()
        invariant
            i <= t@.len(),
            t@.len() >= 1,
            forall|k: int| 0 <= k < i ==> is_digit(#[trigger] t@[k]),
            v == number(t@.subrange(0, i as int)),
        decreases t@.len() - i,
    {
        let b = t[i];
        let ghost next = t@.subrange(0, i as int + 1);
        assert(next.drop_last() =~= t@.subrange(0, i as int));
        if b < 48 || b > 57 {
            return None;
        }
        let d = (b - 48) as u64;
        if v > (u64::MAX - d) / 10 {
            proof {
                assert(number(next) == v * 10 + d);
                assert(v * 10 + d > u64::MAX) by (nonlinear_arith)
                    requires
                        v > (u64::MAX - d) / 10,
                        d <= 9,
                ;
                if forall|k: int| 0 <= k < t@.len() ==> is_digit(#[trigger] t@[k]) {
                    lemma_number_prefix(t@, i as int + 1);
                }
            }
            return None;
        }
        v = v * 10 + d;
        i += 1;
    }
    assert(t@.subrange(0, t@.len() as int) =~= t@);
    Some(v)
}

/// The numbers on a line, or `None` when a token is not a numeral.
pub fn parse_ints(line: &Vec<u8>) -> (r: Option<Vec<u64>>)
    ensures
        match r {
            Some(vs) => ints_ok(line@) && vs@.map_values(|v: u64| v as int) == ints_of(line@),
            None => !ints_ok(line@),
        },
{
    let toks = split_bytes(line, 32);
    let ghost tv = views(toks@);
    let mut out: Vec<u64> = Vec::new();
    let mut i: usize = 0;
    while i < toks.len()
        invariant
            i <= toks@.len(),
            tv == views(toks@),
            tv == split(line@, 32u8),
            out@.len() == i,
            forall|k: int| 0 <= k < i ==> numeral_ok(#[trigger] tv[k]) && out@[k] == number(tv[k]),
        decreases toks@.len() - i,
    {
        match parse_number(&toks[i]) {
            Some(v) => {
                out.push(v);
            },
            None => {
                assert(!numeral_ok(tv[i as int]));
                return None;
            },
        }
        i += 1;
    }
    assert(out@.map_values(|v: u64| v as int) =~= ints_of(line@));
    Some(out)
}

/// Drops one trailing `\r`.
fn strip_cr_bytes(l: Vec<u8>) -> (r: Vec<u8>)
    ensures
        r@ == strip_cr(l@),
{
    let mut l = l;
    if l.len() > 0 && l[l.len() - 1] == 13 {
        l.pop();
    }
    l
}

/// The lines of a text that carry data.
fn data_lines_bytes(text: &Vec<u8>) -> (r: Vec<Vec<u8>>)
    ensures
        views(r@) == data_lines(text@),
{
    let mut ls = split_bytes(text, 10);
    let ghost lv = views(ls@);
    let mut out: Vec<Vec<u8>> = Vec::new();
    let mut i: usize = 0;
    let n = ls.len();
    while i < n
        invariant
            i <= n,
            n == lv.len(),
            lv == split(text@, 10u8),
            ls@.len() == n,
            forall|k: int| i <= k < n ==> (#[trigger] ls@[k])@ == lv[k],
            views(out@) == kept(lv, i as int),
        decreases n - i,
    {
        let mut l: Vec<u8> = Vec::new();
        std::mem::swap(&mut l, &mut ls[i]);
        let l = strip_cr_bytes(l);
        if !(l.len() > 0 && l[0] == 35) {
            let ghost ov = views(out@);
            out.push(l);
            assert(views(out@) =~= ov.push(strip_cr(lv[i as int])));
        }
        i += 1;
    }
    out
}

/// Reads an instance text; `None` when it is not well formed.
#[verifier::spinoff_prover]
pub fn parse_instance(text: &Vec<u8>) -> (r: Option<(Vec<Rectangle>, Vec<Net>)>)
    ensures
        match r {
            Some((ms, ns)) => instance_ok(text@) && ms@ == modules_of(text@) && net_views(ns@) == nets_of(text@),
            None => !instance_ok(text@),
        },
{
    let d = data_lines_bytes(text);
    let ghost dv = views(d@);
    if d.len() == 0 {
        return None;
    }
    assert(d@[0]@ == dv[0]);
    let header = match parse_ints(&d[0]) {
        Some(h) => h,
        None => {
            return None;
        },
    };
    if header.len() != 2 {
        return None;
    }
    assert(header@.map_values(|v: u64| v as int)[0] == header@[0]);
    assert(header@.map_values(|v: u64| v as int)[1] == header@[1]);
    assert(dv.len() == d@.len());
    let n = header[0];
    let m = header[1];
    if (d.len() as u64) < 1 || ((d.len() - 1) as u64) < n || ((d.len() - 1) as u64) - n < m {
        return None;
    }
    let n = n as usize;
    let m = m as usize;
    let mut modules: Vec<Rectangle> = Vec::new();
    let mut i: usize = 0;
    while i < n
        invariant
            i <= n,
            dv == views(d@),
            dv == data_lines(text@),
            ints_of(dv[0]) == seq![n as int, m as int],
            ints_ok(dv[0]),
            dv.len() >= 1 + n + m,
            modules@.len() == i,
            forall|k: int| 1 <= k < 1 + i ==> ints_ok(#[trigger] dv[k]) && ints_of(dv[k]).len() >= 2,
            forall|k: int| 0 <= k < i ==> #[trigger] modules@[k] == modules_of(text@)[k],
        decreases n - i,
    {
        assert(d@[1 + i as int]@ == dv[1 + i as int]);
        let vals = match parse_ints(&d[1 + i]) {
            Some(v) => v,
            None => {
                return None;
            },
        };
        if vals.len() < 2 {
            return None;
        }
        assert(vals@.map_values(|v: u64| v as int)[0] == vals@[0]);
        assert(vals@.map_values(|v: u64| v as int)[1] == vals@[1]);
        modules.push(Rectangle { width: vals[0], height: vals[1] });
        i += 1;
    }
    let mut nets: Vec<Net> = Vec::new();
    let dl = d.len();
    let mut j: usize = 0;
    while j < m
        invariant
            j <= m,
            dl == d@.len(),
            dv == views(d@),
            dv == data_lines(text@),
            ints_of(dv[0]) == seq![n as int, m as int],
            dv.len() >= 1 + n + m,
            dv.len() == d@.len(),
            net_views(nets@) == nets_of(text@).subrange(0, j as int),
            forall|k: int|
                1 + n <= k < 1 + n + j ==> ints_ok(#[trigger] dv[k]) && forall|q: int|
                    0 <= q < ints_of(dv[k]).len() ==> ints_of(dv[k])[q] <= usize::MAX,
        decreases m - j,
    {
        assert(1 + n + j < d@.len());
        let li: usize = 1 + n + j;
        assert(d@[li as int]@ == dv[li as int]);
        let vals = match parse_ints(&d[li]) {
            Some(v) => v,
            None => {
                return None;
            },
        };
        let ghost iv = ints_of(dv[1 + n + j as int]);
        assert(ints_ok(dv[1 + n + j as int]));
        let mut pins: Vec<usize> = Vec::new();
        let mut q: usize = 0;
        while q < vals.len()
            invariant
                q <= vals@.len(),
                vals@.map_values(|v: u64| v as int) == iv,
                dv == data_lines(text@),
                ints_of(dv[0]) == seq![n as int, m as int],
                dv.len() >= 1 + n + m,
                j < m,
                iv == ints_of(dv[1 + n + j as int]),
                pins@.len() == q,
                forall|k: int| 0 <= k < q ==> #[trigger] iv[k] <= usize::MAX,
                forall|k: int| 0 <= k < q ==> #[trigger] pins@[k] == iv[k] as usize,
            decreases vals@.len() - q,
        {
            assert(vals@.map_values(|v: u64| v as int)[q as int] == vals@[q as int]);
            if vals[q] > usize::MAX as u64 {
                proof {
                    let li = 1 + n + j as int;
                    assert(iv[q as int] > usize::MAX);
                    assert(iv == ints_of(dv[li]));
                    if instance_ok(text@) {
                        assert(1 + ints_of(dv[0])[0] <= li < 1 + ints_of(dv[0])[0] + ints_of(dv[0])[1]);
                        assert(ints_ok(dv[li]));
                        assert(ints_of(dv[li])[q as int] <= usize::MAX);
                    }
                }
                return None;
            }
            let ghost op = pins@;
            pins.push(vals[q] as usize);
            assert(pins@[q as int] == iv[q as int] as usize);
            assert(forall|k: int| 0 <= k < q ==> pins@[k] == op[k]);
            q += 1;
        }
        let ghost nv = net_views(nets@);
        assert(pins@ =~= iv.map_values(|v: int| v as usize));
        assert(nets_of(text@)[j as int] == (iv.map_values(|v: int| v as usize), j));
        nets.push(Net { pins, id: j });
        assert(net_views(nets@) =~= nv.push(nets_of(text@)[j as int]));
        assert(net_views(nets@) =~= nets_of(text@).subrange(0, j as int + 1));
        j += 1;
    }
    assert(modules@ =~= modules_of(text@));
    assert(nets_of(text@).subrange(0, m as int) =~= nets_of(text@));
    Some((modules, nets))
}

} // verus!
