//! Market depth: quantities summed per ticker, side and price.

use vstd::prelude::*;
use crate::types::{AllOrders, BuySell, QuantityPrice};

verus! {

/// Ticker `t` is one of `out`.
pub open spec fn named(out: Seq<String>, t: Seq<char>) -> bool {
    exists|i: int| 0 <= i < out.len() && (#[trigger] out[i])@ == t
}

/// Every ticker of the first `n` entries of `s` is in `out`.
pub open spec fn covers(out: Seq<String>, s: Seq<Level>, n: int) -> bool {
    forall|j: int| 0 <= j < n ==> named(out, (#[trigger] s[j]).0@)
}

/// A quantity at a ticker and price: (ticker, price, quantity).
pub type Level = (String, u64, u64);

/// The quantity that `s` holds for ticker `t` at price `p`.
pub open spec fn level_sum(s: Seq<Level>, t: Seq<char>, p: u64) -> int
    decreases s.len(),
{
    if s.len() == 0 {
        0
    } else {
        level_sum(s.drop_last(), t, p) + if s.last().0@ == t && s.last().1 == p { s.last().2 as int } else { 0 }
    }
}

pub open spec fn has_ticker(s: Seq<Level>, t: Seq<char>) -> bool {
    exists|j: int| 0 <= j < s.len() && (#[trigger] s[j]).0@ == t
}

pub open spec fn has_level(s: Seq<Level>, t: Seq<char>, p: u64) -> bool {
    exists|j: int| 0 <= j < s.len() && (#[trigger] s[j]).0@ == t && s[j].1 == p
}

pub open spec fn capped(x: int) -> int {
    if x > u64::MAX {
        u64::MAX as int
    } else {
        x
    }
}

/// `list` gives, once per price and in ascending price order, the capped total of ticker `t` in `s`, for
/// every price at which `s` has something of `t`.
pub open spec fn levels_of(list: Seq<QuantityPrice>, s: Seq<Level>, t: Seq<char>) -> bool {
    &&& forall|k1: int, k2: int| 0 <= k1 < k2 < list.len() ==> list[k1].price < list[k2].price
    &&& forall|k: int| 0 <= k < list.len() ==> has_level(s, t, (#[trigger] list[k]).price) && list[k].quantity
        == capped(level_sum(s, t, list[k].price))
    &&& forall|j: int| #![trigger s[j]] 0 <= j < s.len() && s[j].0@ == t ==> exists|k: int|
        0 <= k < list.len() && (#[trigger] list[k]).price == s[j].1
}

/// `r` lists each ticker of `buys` and `sells` once, with its depth on each side.
pub open spec fn depth_of(r: AllOrders, buys: Seq<Level>, sells: Seq<Level>) -> bool {
    let v = r.0@;
    &&& forall|i: int, j: int| 0 <= i < j < v.len() ==> v[i].0@ != v[j].0@
    &&& forall|i: int| 0 <= i < v.len() ==> has_ticker(buys, (#[trigger] v[i]).0@) || has_ticker(sells, v[i].0@)
    &&& covers(v.map_values(|e: (String, BuySell)| e.0), buys, buys.len() as int)
    &&& covers(v.map_values(|e: (String, BuySell)| e.0), sells, sells.len() as int)
    &&& forall|i: int| 0 <= i < v.len() ==> levels_of((#[trigger] v[i]).1.buy@, buys, v[i].0@) && levels_of(
        v[i].1.sell@,
        sells,
        v[i].0@,
    )
}

proof fn lemma_covers_extend(first: Seq<String>, out: Seq<String>, s: Seq<Level>, n: int)
    requires
        0 <= n <= s.len(),
        covers(first, s, n),
        first.len() <= out.len(),
        forall|i: int| 0 <= i < first.len() ==> out[i]@ == first[i]@,
    ensures
        covers(out, s, n),
{
    assert forall|j: int| 0 <= j < n implies named(out, (#[trigger] s[j]).0@) by {
        let i = choose|i: int| 0 <= i < first.len() && (#[trigger] first[i])@ == s[j].0@;
        assert(out[i]@ == first[i]@);
    }
}

proof fn lemma_level_sum_step(s: Seq<Level>, i: int, t: Seq<char>, p: u64)
    requires
        0 <= i < s.len(),
    ensures
        level_sum(s.take(i + 1), t, p) == level_sum(s.take(i), t, p) + if s[i].0@ == t && s[i].1 == p {
            s[i].2 as int
        } else {
            0
        },
{
    assert(s.take(i + 1).drop_last() =~= s.take(i));
}

/// The total of ticker `t` at price `p` in `s`, capped at `u64::MAX`.
fn level_total(s: &Vec<Level>, t: &String, p: u64) -> (r: u64)
    ensures
        r == capped(level_sum(s@, t@, p)),
{
    let mut total: u64 = 0;
    let mut i: usize = 0;
    assert(s@.take(0).len() == 0);
    while i < s.len()
        invariant
            i <= s@.len(),
            total == capped(level_sum(s@.take(i as int), t@, p)),
            level_sum(s@.take(i as int), t@, p) >= 0,
        decreases s@.len() - i,
    {
        proof {
            lemma_level_sum_step(s@, i as int, t@, p);
        }
        if s[i].0 == *t && s[i].1 == p {
            total = if total > u64::MAX - s[i].2 { u64::MAX } else { total + s[i].2 };
        }
        i = i + 1;
    }
    assert(s@.take(i as int) =~= s@);
    total
}

fn find_price(list: &Vec<QuantityPrice>, p: u64) -> (r: Option<usize>)
    ensures
        match r {
            Some(k) => k < list@.len() && list@[k as int].price == p,
            None => forall|m: int| 0 <= m < list@.len() ==> (#[trigger] list@[m]).price != p,
        },
{
    let mut k: usize = 0;
    while k < list.len()
        invariant
            k <= list@.len(),
            forall|m: int| 0 <= m < k ==> (#[trigger] list@[m]).price != p,
        decreases list@.len() - k,
    {
        if list[k].price == p {
            return Some(k);
        }
        k = k + 1;
    }
    None
}

fn find_ticker(out: &Vec<String>, t: &String) -> (r: Option<usize>)
    ensures
        match r {
            Some(k) => k < out@.len() && out@[k as int]@ == t@,
            None => forall|m: int| 0 <= m < out@.len() ==> (#[trigger] out@[m])@ != t@,
        },
{
    let mut k: usize = 0;
    while k < out.len()
        invariant
            k <= out@.len(),
            forall|m: int| 0 <= m < k ==> (#[trigger] out@[m])@ != t@,
        decreases out@.len() - k,
    {
        if out[k] == *t {
            return Some(k);
        }
        k = k + 1;
    }
    None
}

/// Where price `p`, absent from ascending `list`, goes to keep it ascending.
fn insert_position(list: &Vec<QuantityPrice>, p: u64) -> (r: usize)
    requires
        forall|k1: int, k2: int| 0 <= k1 < k2 < list@.len() ==> list@[k1].price < list@[k2].price,
        forall|m: int| 0 <= m < list@.len() ==> (#[trigger] list@[m]).price != p,
    ensures
        r <= list@.len(),
        forall|k: int| 0 <= k < r ==> (#[trigger] list@[k]).price < p,
        forall|k: int| r <= k < list@.len() ==> (#[trigger] list@[k]).price > p,
{
    let mut k: usize = 0;
    while k < list.len() && list[k].price < p
        invariant
            k <= list@.len(),
            forall|m: int| 0 <= m < k ==> (#[trigger] list@[m]).price < p,
        decreases list@.len() - k,
    {
        k = k + 1;
    }
    proof {
        assert forall|m: int| k <= m < list@.len() implies (#[trigger] list@[m]).price > p by {
            assert(list@[k as int].price != p);
            if m > k {
                assert(list@[k as int].price < list@[m].price);
            }
        }
    }
    k
}

/// The prices of ticker `t` in `s`, once each, with their capped totals.
fn levels_for(s: &Vec<Level>, t: &String) -> (r: Vec<QuantityPrice>)
    ensures
        levels_of(r@, s@, t@),
{
    let mut list: Vec<QuantityPrice> = Vec::new();
    let mut i: usize = 0;
    while i < s.len()
        invariant
            i <= s@.len(),
            forall|k1: int, k2: int| 0 <= k1 < k2 < list@.len() ==> list@[k1].price < list@[k2].price,
            forall|k: int| 0 <= k < list@.len() ==> has_level(s@, t@, (#[trigger] list@[k]).price) && list@[k].quantity
                == capped(level_sum(s@, t@, list@[k].price)),
            forall|j: int| #![trigger s@[j]] 0 <= j < i && s@[j].0@ == t@ ==> exists|k: int|
                0 <= k < list@.len() && (#[trigger] list@[k]).price == s@[j].1,
        decreases s@.len() - i,
    {
        if s[i].0 == *t {
            let p = s[i].1;
            let ghost before = list@;
            match find_price(&list, p) {
                None => {
                    let q = level_total(s, t, p);
                    let pos = insert_position(&list, p);
                    list.insert(pos, QuantityPrice { quantity: q, price: p });
                    proof {
                        let x = QuantityPrice { quantity: q, price: p };
                        assert(list@ == before.insert(pos as int, x));
                        before.insert_ensures(pos as int, x);
                        assert(s@[i as int].0@ == t@ && s@[i as int].1 == p);
                        assert(has_level(s@, t@, p));
                        assert forall|k1: int, k2: int| 0 <= k1 < k2 < list@.len() implies list@[k1].price < list@[k2].price by {
                            if k1 < pos && k2 < pos {
                            } else if k1 < pos && k2 == pos {
                            } else if k1 < pos {
                                assert(list@[k2] == before[k2 - 1]);
                            } else if k1 == pos {
                                assert(list@[k2] == before[k2 - 1]);
                            } else {
                                assert(list@[k1] == before[k1 - 1]);
                                assert(list@[k2] == before[k2 - 1]);
                            }
                        }
                        assert forall|k: int| 0 <= k < list@.len() implies has_level(s@, t@, (#[trigger] list@[k]).price) && list@[k].quantity
                            == capped(level_sum(s@, t@, list@[k].price)) by {
                            if k < pos {
                                assert(list@[k] == before[k]);
                            } else if k > pos {
                                assert(list@[k] == before[k - 1]);
                            }
                        }
                        assert forall|j: int| #![trigger s@[j]] 0 <= j < i + 1 && s@[j].0@ == t@ implies exists|m: int|
                            0 <= m < list@.len() && (#[trigger] list@[m]).price == s@[j].1 by {
                            if j < i {
                                let m = choose|m: int| 0 <= m < before.len() && (#[trigger] before[m]).price == s@[j].1;
                                if m < pos {
                                    assert(list@[m] == before[m]);
                                } else {
                                    assert(list@[m + 1] == before[m]);
                                }
                            } else {
                                assert(list@[pos as int].price == s@[j].1);
                            }
                        }
                    }
                },
                Some(k) => {
                    proof {
                        assert forall|j: int| #![trigger s@[j]] 0 <= j < i + 1 && s@[j].0@ == t@ implies exists|m: int|
                            0 <= m < list@.len() && (#[trigger] list@[m]).price == s@[j].1 by {
                            if j == i {
                                assert(list@[k as int].price == s@[j].1);
                            }
                        }
                    }
                },
            }
        }
        i = i + 1;
    }
    list
}

/// Adds the tickers of `s` that `out` lacks, in order.
fn add_tickers(out: &mut Vec<String>, s: &Vec<Level>)
    requires
        forall|i: int, j: int| 0 <= i < j < old(out)@.len() ==> old(out)@[i]@ != old(out)@[j]@,
    ensures
        forall|i: int, j: int| 0 <= i < j < final(out)@.len() ==> final(out)@[i]@ != final(out)@[j]@,
        final(out)@.len() >= old(out)@.len(),
        forall|i: int| 0 <= i < old(out)@.len() ==> final(out)@[i] == old(out)@[i],
        forall|i: int| old(out)@.len() <= i < final(out)@.len() ==> has_ticker(s@, (#[trigger] final(out)@[i])@),
        covers(final(out)@, s@, s@.len() as int),
{
    let mut n: usize = 0;
    while n < s.len()
        invariant
            n <= s@.len(),
            forall|i: int, j: int| 0 <= i < j < out@.len() ==> out@[i]@ != out@[j]@,
            out@.len() >= old(out)@.len(),
            forall|i: int| 0 <= i < old(out)@.len() ==> out@[i] == old(out)@[i],
            forall|i: int| old(out)@.len() <= i < out@.len() ==> has_ticker(s@, (#[trigger] out@[i])@),
            covers(out@, s@, n as int),
        decreases s@.len() - n,
    {
        let t = s[n].0.clone();
        let ghost before = out@;
        let ghost tv = t@;
        match find_ticker(out, &t) {
            None => {
                out.push(t);
                proof {
                    assert(out@[before.len() as int]@ == tv);
                    assert(s@[n as int].0@ == tv);
                    assert forall|j: int| 0 <= j < n + 1 implies named(out@, (#[trigger] s@[j]).0@) by {
                        if j < n {
                            let i = choose|i: int| 0 <= i < before.len() && (#[trigger] before[i])@ == s@[j].0@;
                            assert(out@[i] == before[i]);
                        } else {
                            assert(out@[before.len() as int]@ == s@[j].0@);
                        }
                    }
                    assert forall|i: int| old(out)@.len() <= i < out@.len() implies has_ticker(s@, (#[trigger] out@[i])@) by {
                        if i < before.len() {
                            assert(out@[i] == before[i]);
                        }
                    }
                }
            },
            Some(k) => {
                proof {
                    assert forall|j: int| 0 <= j < n + 1 implies named(out@, (#[trigger] s@[j]).0@) by {
                        if j == n {
                            assert(out@[k as int]@ == s@[j].0@);
                        } else {
                            assert(named(before, s@[j].0@));
                        }
                    }
                }
            },
        }
        n = n + 1;
    }
    assert(n == s@.len());
}

/// The depth of `buys` and `sells`: each ticker once, with the capped total
/// at each price on each side.
pub fn depth(buys: &Vec<Level>, sells: &Vec<Level>) -> (r: AllOrders)
    ensures
        depth_of(r, buys@, sells@),
{
    let mut tickers: Vec<String> = Vec::new();
    add_tickers(&mut tickers, buys);
    let ghost first = tickers@;
    add_tickers(&mut tickers, sells);
    proof {
        lemma_covers_extend(first, tickers@, buys@, buys@.len() as int);
        assert forall|i: int| 0 <= i < tickers@.len() implies has_ticker(buys@, (#[trigger] tickers@[i])@) || has_ticker(sells@, tickers@[i]@) by {
            if i < first.len() {
                assert(tickers@[i] == first[i]);
            }
        }
    }
    let mut out: Vec<(String, BuySell)> = Vec::new();
    let mut i: usize = 0;
    while i < tickers.len()
        invariant
            i <= tickers@.len(),
            forall|a: int, b: int| 0 <= a < b < tickers@.len() ==> tickers@[a]@ != tickers@[b]@,
            forall|a: int| 0 <= a < tickers@.len() ==> has_ticker(buys@, (#[trigger] tickers@[a])@) || has_ticker(sells@, tickers@[a]@),
            covers(tickers@, buys@, buys@.len() as int),
            covers(tickers@, sells@, sells@.len() as int),
            out@.len() == i,
            forall|m: int| 0 <= m < i ==> (#[trigger] out@[m]).0@ == tickers@[m]@,
            forall|m: int| 0 <= m < i ==> levels_of((#[trigger] out@[m]).1.buy@, buys@, out@[m].0@) && levels_of(
                out@[m].1.sell@,
                sells@,
                out@[m].0@,
            ),
        decreases tickers@.len() - i,
    {
        let t = tickers[i].clone();
        let buy = levels_for(buys, &t);
        let sell = levels_for(sells, &t);
        out.push((t, BuySell { buy, sell }));
        i = i + 1;
    }
    let r = AllOrders(out);
    proof {
        let v = r.0@;
        assert forall|i: int, j: int| 0 <= i < j < v.len() implies v[i].0@ != v[j].0@ by {
            assert(v[i].0@ == tickers@[i]@);
            assert(v[j].0@ == tickers@[j]@);
        }
        assert forall|i: int| 0 <= i < v.len() implies has_ticker(buys@, (#[trigger] v[i]).0@) || has_ticker(sells@, v[i].0@) by {
            assert(v[i].0@ == tickers@[i]@);
        }
        let names = v.map_values(|e: (String, BuySell)| e.0);
        assert forall|i: int| 0 <= i < tickers@.len() implies names[i]@ == (#[trigger] tickers@[i])@ by {
            assert(v[i].0@ == tickers@[i]@);
        }
        lemma_covers_extend(tickers@, names, buys@, buys@.len() as int);
        lemma_covers_extend(tickers@, names, sells@, sells@.len() as int);
    }
    r
}

} // verus!
