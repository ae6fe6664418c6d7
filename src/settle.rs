use vstd::prelude::*;

use crate::types::{Address, Settlement};

verus! {

/// The order of identities: accounts before contracts, then by key, high
/// half first.
pub open spec fn addr_lt(a: Address, b: Address) -> bool {
    (!a.contract && b.contract) || (a.contract == b.contract && (a.hi < b.hi || (a.hi == b.hi
        && a.lo < b.lo)))
}

/// `s` with `x` inserted before the first entry whose identity comes after
/// that of `x`.
pub open spec fn insert_sorted(s: Seq<(Address, i128)>, x: (Address, i128)) -> Seq<(Address, i128)>
    decreases s.len(),
{
    if s.len() == 0 {
        seq![x]
    } else if addr_lt(x.0, s[0].0) {
        seq![x] + s
    } else {
        seq![s[0]] + insert_sorted(s.drop_first(), x)
    }
}

/// The entries of `s` come in strictly ascending identity order.
pub open spec fn sorted_by_identity(s: Seq<(Address, i128)>) -> bool {
    forall|i: int, j: int| 0 <= i < j < s.len() ==> addr_lt(#[trigger] s[i].0, #[trigger] s[j].0)
}

/// The debtors of a balance list, in ascending identity order, each with the
/// positive amount that it owes.
pub open spec fn debtors(b: Seq<(Address, i128)>) -> Seq<(Address, i128)>
    decreases b.len(),
{
    if b.len() == 0 {
        seq![]
    } else {
        let rest = debtors(b.drop_last());
        if b.last().1 < 0 {
            insert_sorted(rest, (b.last().0, (-b.last().1) as i128))
        } else {
            rest
        }
    }
}

/// The creditors of a balance list, in ascending identity order, each with
/// the positive amount that it is owed.
pub open spec fn creditors(b: Seq<(Address, i128)>) -> Seq<(Address, i128)>
    decreases b.len(),
{
    if b.len() == 0 {
        seq![]
    } else {
        let rest = creditors(b.drop_last());
        if b.last().1 > 0 {
            insert_sorted(rest, b.last())
        } else {
            rest
        }
    }
}

proof fn lemma_insert_sorted(s: Seq<(Address, i128)>, x: (Address, i128), a: Address)
    ensures
        insert_sorted(s, x).len() == s.len() + 1,
        forall|y: (Address, i128)| #[trigger] insert_sorted(s, x).contains(y) <==> (y == x || s.contains(y)),
        balance_in(insert_sorted(s, x), a) == balance_in(s, a) + (if x.0 == a { x.1 as int } else { 0 }),
        total(insert_sorted(s, x)) == total(s) + x.1,
    decreases s.len(),
{
    if s.len() == 0 {
        lemma_cons_sums(x, s, a);
        assert(seq![x] + s =~= seq![x]);
        assert forall|y: (Address, i128)| #[trigger] insert_sorted(s, x).contains(y) <==> (y == x
            || s.contains(y)) by {
            if insert_sorted(s, x).contains(y) {
                let k = choose|k: int| 0 <= k < 1 && insert_sorted(s, x)[k] == y;
            }
            if y == x {
                assert(insert_sorted(s, x)[0] == y);
            }
        }
    } else if addr_lt(x.0, s[0].0) {
        lemma_cons_sums(x, s, a);
        let ins = seq![x] + s;
        assert forall|y: (Address, i128)| #[trigger] ins.contains(y) <==> (y == x || s.contains(y)) by {
            if ins.contains(y) {
                let k = choose|k: int| 0 <= k < ins.len() && ins[k] == y;
                if k > 0 {
                    assert(s[k - 1] == y);
                }
            }
            if y == x {
                assert(ins[0] == y);
            }
            if s.contains(y) {
                let k = choose|k: int| 0 <= k < s.len() && s[k] == y;
                assert(ins[k + 1] == y);
            }
        }
    } else {
        let t = s.drop_first();
        lemma_insert_sorted(t, x, a);
        let r = insert_sorted(t, x);
        lemma_cons_sums(s[0], r, a);
        lemma_cons_sums(s[0], t, a);
        assert(s =~= seq![s[0]] + t);
        let ins = seq![s[0]] + r;
        assert forall|y: (Address, i128)| #[trigger] ins.contains(y) <==> (y == x || s.contains(y)) by {
            if ins.contains(y) {
                let k = choose|k: int| 0 <= k < ins.len() && ins[k] == y;
                if k > 0 {
                    assert(r[k - 1] == y);
                    assert(r.contains(y));
                    if t.contains(y) {
                        let m = choose|m: int| 0 <= m < t.len() && t[m] == y;
                        assert(s[m + 1] == y);
                    }
                } else {
                    assert(s[0] == y);
                }
            }
            if y == x {
                assert(r.contains(y));
                let k = choose|k: int| 0 <= k < r.len() && r[k] == y;
                assert(ins[k + 1] == y);
            }
            if s.contains(y) {
                let k = choose|k: int| 0 <= k < s.len() && s[k] == y;
                if k == 0 {
                    assert(ins[0] == y);
                } else {
                    assert(t[k - 1] == y);
                    assert(r.contains(y));
                    let m = choose|m: int| 0 <= m < r.len() && r[m] == y;
                    assert(ins[m + 1] == y);
                }
            }
        }
    }
}

proof fn lemma_insert_at(s: Seq<(Address, i128)>, x: (Address, i128), pos: int)
    requires
        0 <= pos <= s.len(),
        forall|k: int| 0 <= k < pos ==> !addr_lt(x.0, #[trigger] s[k].0),
        pos < s.len() ==> addr_lt(x.0, s[pos].0),
    ensures
        insert_sorted(s, x) == s.insert(pos, x),
    decreases pos,
{
    if pos == 0 {
        if s.len() == 0 {
            assert(s.insert(0, x) =~= seq![x]);
        } else {
            assert(s.insert(0, x) =~= seq![x] + s);
        }
    } else {
        let t = s.drop_first();
        assert forall|k: int| 0 <= k < pos - 1 implies !addr_lt(x.0, #[trigger] t[k].0) by {
            assert(t[k] == s[k + 1]);
        }
        assert(!addr_lt(x.0, s[0].0));
        lemma_insert_at(t, x, pos - 1);
        assert(seq![s[0]] + t.insert(pos - 1, x) =~= s.insert(pos, x));
    }
}

proof fn lemma_insert_keeps_order(s: Seq<(Address, i128)>, x: (Address, i128))
    requires
        sorted_by_identity(s),
        forall|k: int| 0 <= k < s.len() ==> #[trigger] s[k].0 != x.0,
    ensures
        sorted_by_identity(insert_sorted(s, x)),
    decreases s.len(),
{
    lemma_insert_sorted(s, x, x.0);
    if s.len() > 0 {
        let ins = insert_sorted(s, x);
        if addr_lt(x.0, s[0].0) {
            assert forall|i: int, j: int| 0 <= i < j < ins.len() implies addr_lt(
                #[trigger] ins[i].0,
                #[trigger] ins[j].0,
            ) by {
                if i == 0 {
                    if j > 1 {
                        assert(addr_lt(s[0].0, s[j - 1].0));
                    }
                } else {
                    assert(ins[i] == s[i - 1] && ins[j] == s[j - 1]);
                }
            }
        } else {
            let t = s.drop_first();
            assert forall|i: int, j: int| 0 <= i < j < t.len() implies addr_lt(
                #[trigger] t[i].0,
                #[trigger] t[j].0,
            ) by {
                assert(t[i] == s[i + 1] && t[j] == s[j + 1]);
            }
            assert forall|k: int| 0 <= k < t.len() implies #[trigger] t[k].0 != x.0 by {
                assert(t[k] == s[k + 1]);
            }
            lemma_insert_keeps_order(t, x);
            lemma_insert_sorted(t, x, x.0);
            let r = insert_sorted(t, x);
            assert(s[0].0 != x.0);
            assert forall|i: int, j: int| 0 <= i < j < ins.len() implies addr_lt(
                #[trigger] ins[i].0,
                #[trigger] ins[j].0,
            ) by {
                if i == 0 {
                    let y = r[j - 1];
                    assert(ins[j] == y);
                    assert(r.contains(y));
                    if y != x {
                        let m = choose|m: int| 0 <= m < t.len() && t[m] == y;
                        assert(s[m + 1] == y);
                        assert(addr_lt(s[0].0, s[m + 1].0));
                    }
                } else {
                    assert(ins[i] == r[i - 1] && ins[j] == r[j - 1]);
                }
            }
        }
    }
}

proof fn lemma_sorted_unique(s1: Seq<(Address, i128)>, s2: Seq<(Address, i128)>)
    requires
        sorted_by_identity(s1),
        sorted_by_identity(s2),
        forall|y: (Address, i128)| s1.contains(y) <==> s2.contains(y),
    ensures
        s1 == s2,
    decreases s1.len(),
{
    if s1.len() == 0 {
        if s2.len() > 0 {
            assert(s2.contains(s2[0]));
        }
        assert(s1 =~= s2);
    } else {
        assert(s1.contains(s1[0]));
        let k = choose|k: int| 0 <= k < s2.len() && s2[k] == s1[0];
        assert(s2.contains(s2[0]));
        let m = choose|m: int| 0 <= m < s1.len() && s1[m] == s2[0];
        if k > 0 {
            assert(addr_lt(s2[0].0, s2[k].0));
            if m > 0 {
                assert(addr_lt(s1[0].0, s1[m].0));
            }
        }
        assert(s1[0] == s2[0]);
        let t1 = s1.drop_first();
        let t2 = s2.drop_first();
        assert forall|i: int, j: int| 0 <= i < j < t1.len() implies addr_lt(
            #[trigger] t1[i].0,
            #[trigger] t1[j].0,
        ) by {
            assert(t1[i] == s1[i + 1] && t1[j] == s1[j + 1]);
        }
        assert forall|i: int, j: int| 0 <= i < j < t2.len() implies addr_lt(
            #[trigger] t2[i].0,
            #[trigger] t2[j].0,
        ) by {
            assert(t2[i] == s2[i + 1] && t2[j] == s2[j + 1]);
        }
        assert forall|y: (Address, i128)| t1.contains(y) <==> t2.contains(y) by {
            if t1.contains(y) {
                let a = choose|a: int| 0 <= a < t1.len() && t1[a] == y;
                assert(s1[a + 1] == y);
                assert(addr_lt(s1[0].0, s1[a + 1].0));
                assert(s2.contains(y));
                let b = choose|b: int| 0 <= b < s2.len() && s2[b] == y;
                assert(b != 0);
                assert(t2[b - 1] == y);
            }
            if t2.contains(y) {
                let a = choose|a: int| 0 <= a < t2.len() && t2[a] == y;
                assert(s2[a + 1] == y);
                assert(addr_lt(s2[0].0, s2[a + 1].0));
                assert(s1.contains(y));
                let b = choose|b: int| 0 <= b < s1.len() && s1[b] == y;
                assert(b != 0);
                assert(t1[b - 1] == y);
            }
        }
        lemma_sorted_unique(t1, t2);
        assert(s1 =~= seq![s1[0]] + t1);
        assert(s2 =~= seq![s2[0]] + t2);
    }
}

/// The greedy matching from debtor `i` (with `dr` still owed) and creditor
/// `j` (with `cr` still due) on: each step moves the smaller remainder and
/// passes every party whose remainder reached zero.
pub open spec fn greedy(
    d: Seq<(Address, i128)>,
    c: Seq<(Address, i128)>,
    i: int,
    j: int,
    dr: int,
    cr: int,
) -> Seq<Settlement>
    decreases d.len() - i + c.len() - j,
{
    if i < 0 || j < 0 || i >= d.len() || j >= c.len() {
        seq![]
    } else {
        let t = if dr < cr { dr } else { cr };
        let rest = if dr < cr {
            greedy(d, c, i + 1, j, d[i + 1].1 as int, cr - dr)
        } else if dr == cr {
            greedy(d, c, i + 1, j + 1, d[i + 1].1 as int, c[j + 1].1 as int)
        } else {
            greedy(d, c, i, j + 1, dr - cr, c[j + 1].1 as int)
        };
        if t > 0 {
            seq![Settlement { from: d[i].0, to: c[j].0, amount: t as i128 }] + rest
        } else {
            rest
        }
    }
}

/// The settlement plan of a balance list: debtors and creditors are each
/// taken in ascending identity order, whatever the order of the list.
pub open spec fn plan(b: Seq<(Address, i128)>) -> Seq<Settlement> {
    greedy(debtors(b), creditors(b), 0, 0, debtors(b)[0].1 as int, creditors(b)[0].1 as int)
}

/// No balance is the one value whose negation does not fit.
pub open spec fn negatable(b: Seq<(Address, i128)>) -> bool {
    forall|k: int| 0 <= k < b.len() ==> b[k].1 > i128::MIN
}

/// Every amount of the list is positive.
pub open spec fn all_positive(s: Seq<(Address, i128)>) -> bool {
    forall|k: int| 0 <= k < s.len() ==> s[k].1 > 0
}

proof fn lemma_parties_positive(b: Seq<(Address, i128)>)
    requires
        negatable(b),
    ensures
        all_positive(debtors(b)),
        all_positive(creditors(b)),
{
    lemma_parties_contents(b);
    assert forall|k: int| 0 <= k < debtors(b).len() implies #[trigger] debtors(b)[k].1 > 0 by {
        assert(debtors(b).contains(debtors(b)[k]));
    }
    assert forall|k: int| 0 <= k < creditors(b).len() implies #[trigger] creditors(b)[k].1 > 0 by {
        assert(creditors(b).contains(creditors(b)[k]));
    }
}

/// What the debtor and creditor lists hold: a debtor entry `(a, v)` for
/// every listed `(a, -v)` with `v` positive, a creditor entry for every
/// listed positive balance; and, when no identity is listed twice, both in
/// strictly ascending identity order.
proof fn lemma_parties_contents(b: Seq<(Address, i128)>)
    requires
        negatable(b),
    ensures
        forall|y: (Address, i128)| #[trigger] debtors(b).contains(y) <==> (y.1 > 0 && b.contains(
            (y.0, (-y.1) as i128),
        )),
        forall|y: (Address, i128)| #[trigger] creditors(b).contains(y) <==> (y.1 > 0
            && b.contains(y)),
        distinct_parties(b) ==> sorted_by_identity(debtors(b)) && sorted_by_identity(creditors(b)),
    decreases b.len(),
{
    if b.len() > 0 {
        let init = b.drop_last();
        let x = b.last();
        let dx = (x.0, (-x.1) as i128);
        assert(negatable(init)) by {
            assert forall|k: int| 0 <= k < init.len() implies init[k].1 > i128::MIN by {
                assert(init[k] == b[k]);
            }
        }
        lemma_parties_contents(init);
        lemma_insert_sorted(debtors(init), dx, x.0);
        lemma_insert_sorted(creditors(init), x, x.0);
        assert(b =~= init.push(x));
        assert forall|y: (Address, i128)| b.contains(y) <==> (y == x || init.contains(y)) by {
            if b.contains(y) {
                let k = choose|k: int| 0 <= k < b.len() && b[k] == y;
                if k < init.len() {
                    assert(init[k] == y);
                }
            }
            if init.contains(y) {
                let k = choose|k: int| 0 <= k < init.len() && init[k] == y;
                assert(b[k] == y);
            }
            if y == x {
                assert(b[b.len() - 1] == y);
            }
        }
        assert forall|y: (Address, i128)| #[trigger] debtors(b).contains(y) <==> (y.1 > 0
            && b.contains((y.0, (-y.1) as i128))) by {
            if y == dx && x.1 < 0 {
                assert((y.0, (-y.1) as i128) == x);
            }
            if y.1 > 0 && (y.0, (-y.1) as i128) == x {
                assert(y == dx);
            }
        }
        if distinct_parties(b) {
            assert(distinct_parties(init)) by {
                assert forall|i: int, j: int| 0 <= i < j < init.len() implies init[i].0 != init[j].0 by {
                    assert(init[i] == b[i] && init[j] == b[j]);
                }
            }
            let last = b.len() - 1;
            if x.1 < 0 {
                let d = debtors(init);
                assert forall|k: int| 0 <= k < d.len() implies #[trigger] d[k].0 != dx.0 by {
                    assert(d.contains(d[k]));
                    assert(init.contains((d[k].0, (-d[k].1) as i128)));
                    let m = choose|m: int| 0 <= m < init.len() && init[m] == (d[k].0, (-d[k].1) as i128);
                    assert(b[m].0 != b[last].0);
                }
                lemma_insert_keeps_order(d, dx);
            }
            if x.1 > 0 {
                let c = creditors(init);
                assert forall|k: int| 0 <= k < c.len() implies #[trigger] c[k].0 != x.0 by {
                    assert(c.contains(c[k]));
                    let m = choose|m: int| 0 <= m < init.len() && init[m] == c[k];
                    assert(b[m].0 != b[last].0);
                }
                lemma_insert_keeps_order(c, x);
            }
        }
    }
}

/// Whether identity `a` comes before identity `b`.
pub fn address_lt(a: Address, b: Address) -> (r: bool)
    ensures
        r == addr_lt(a, b),
{
    (!a.contract && b.contract) || (a.contract == b.contract && (a.hi < b.hi || (a.hi == b.hi
        && a.lo < b.lo)))
}

/// Inserts `x` into `v` before the first entry whose identity comes after
/// that of `x`.
fn insert_by_identity(v: &mut Vec<(Address, i128)>, x: (Address, i128))
    ensures
        final(v)@ == insert_sorted(old(v)@, x),
{
    let n = v.len();
    let mut pos: usize = 0;
    while pos < n
        invariant
            n == v@.len(),
            pos <= n,
            v@ == old(v)@,
            forall|k: int| 0 <= k < pos ==> !addr_lt(x.0, #[trigger] v@[k].0),
        ensures
            pos <= n,
            v@ == old(v)@,
            forall|k: int| 0 <= k < pos ==> !addr_lt(x.0, #[trigger] v@[k].0),
            pos < n ==> addr_lt(x.0, v@[pos as int].0),
        decreases n - pos,
    {
        if address_lt(x.0, v[pos].0) {
            break;
        }
        pos += 1;
    }
    proof {
        lemma_insert_at(v@, x, pos as int);
    }
    v.insert(pos, x);
}

/// Builds the settlement plan of `balances`: debtors pay creditors, both
/// taken in ascending identity order, each transfer the smaller of the two
/// remainders.
pub fn compute_optimal_settlements(balances: &Vec<(Address, i128)>) -> (r: Vec<Settlement>)
    requires
        negatable(balances@),
    ensures
        r@ == plan(balances@),
{
    let mut debtors_v: Vec<(Address, i128)> = Vec::new();
    let mut creditors_v: Vec<(Address, i128)> = Vec::new();
    let n = balances.len();
    let mut k: usize = 0;
    while k < n
        invariant
            n == balances@.len(),
            k <= n,
            negatable(balances@),
            debtors_v@ == debtors(balances@.subrange(0, k as int)),
            creditors_v@ == creditors(balances@.subrange(0, k as int)),
        decreases n - k,
    {
        let (who, bal) = balances[k];
        proof {
            let pre = balances@.subrange(0, k as int);
            let next = balances@.subrange(0, k + 1);
            assert(next.drop_last() =~= pre);
        }
        if bal < 0 {
            insert_by_identity(&mut debtors_v, (who, -bal));
        } else if bal > 0 {
            insert_by_identity(&mut creditors_v, (who, bal));
        }
        k += 1;
    }
    proof {
        assert(balances@.subrange(0, n as int) =~= balances@);
        lemma_parties_positive(balances@);
    }
    let ghost d = debtors_v@;
    let ghost c = creditors_v@;
    let mut settlements: Vec<Settlement> = Vec::new();
    let dn = debtors_v.len();
    let cn = creditors_v.len();
    let mut di: usize = 0;
    let mut ci: usize = 0;
    let mut dr: i128 = if dn > 0 { debtors_v[0].1 } else { 0 };
    let mut cr: i128 = if cn > 0 { creditors_v[0].1 } else { 0 };
    while di < dn && ci < cn
        invariant
            d == debtors_v@,
            c == creditors_v@,
            dn == d.len(),
            cn == c.len(),
            d == debtors(balances@),
            c == creditors(balances@),
            all_positive(d),
            all_positive(c),
            di <= dn,
            ci <= cn,
            di < dn ==> 0 < dr <= d[di as int].1,
            ci < cn ==> 0 < cr <= c[ci as int].1,
            settlements@ + greedy(d, c, di as int, ci as int, dr as int, cr as int) == plan(
                balances@,
            ),
        decreases dn - di + cn - ci,
    {
        let transfer = if dr < cr { dr } else { cr };
        if transfer > 0 {
            settlements.push(
                Settlement { from: debtors_v[di].0, to: creditors_v[ci].0, amount: transfer },
            );
        }
        let new_d = dr - transfer;
        let new_c = cr - transfer;
        let ghost (odi, oci, odr, ocr) = (di as int, ci as int, dr as int, cr as int);
        if new_d == 0 {
            di += 1;
            if di < dn {
                dr = debtors_v[di].1;
            }
        } else {
            dr = new_d;
        }
        if new_c == 0 {
            ci += 1;
            if ci < cn {
                cr = creditors_v[ci].1;
            }
        } else {
            cr = new_c;
        }
        proof {
            let rest = greedy(d, c, di as int, ci as int, dr as int, cr as int);
            if odr < ocr {
                assert(rest == greedy(d, c, odi + 1, oci, d[odi + 1].1 as int, ocr - odr));
            } else if odr == ocr {
                assert(rest == greedy(
                    d,
                    c,
                    odi + 1,
                    oci + 1,
                    d[odi + 1].1 as int,
                    c[oci + 1].1 as int,
                ));
            } else {
                assert(rest == greedy(d, c, odi, oci + 1, odr - ocr, c[oci + 1].1 as int));
            }
            assert(settlements@ + rest =~= plan(balances@));
        }
    }
    proof {
        assert(greedy(d, c, di as int, ci as int, dr as int, cr as int) == Seq::<Settlement>::empty());
        assert(settlements@ + Seq::<Settlement>::empty() =~= settlements@);
    }
    settlements
}


/// What `a` receives in the transfers of `s`, less what it pays.
pub open spec fn net_flow(s: Seq<Settlement>, a: Address) -> int
    decreases s.len(),
{
    if s.len() == 0 {
        0
    } else {
        (if s[0].to == a { s[0].amount as int } else { 0 }) - (if s[0].from == a {
            s[0].amount as int
        } else {
            0
        }) + net_flow(s.drop_first(), a)
    }
}

/// The sum of the balances that `b` lists for `a`.
pub open spec fn balance_in(b: Seq<(Address, i128)>, a: Address) -> int
    decreases b.len(),
{
    if b.len() == 0 {
        0
    } else {
        balance_in(b.drop_last(), a) + (if b.last().0 == a { b.last().1 as int } else { 0 })
    }
}

/// The sum of all balances of `b`.
pub open spec fn total(b: Seq<(Address, i128)>) -> int
    decreases b.len(),
{
    if b.len() == 0 {
        0
    } else {
        total(b.drop_last()) + b.last().1 as int
    }
}

/// How many entries of `b` hold a nonzero balance.
pub open spec fn nonzero_count(b: Seq<(Address, i128)>) -> nat
    decreases b.len(),
{
    if b.len() == 0 {
        0
    } else {
        nonzero_count(b.drop_last()) + (if b.last().1 != 0 { 1nat } else { 0nat })
    }
}

/// What party list `s` still holds for `a` when its entry `i` has `r` left.
spec fn rem(s: Seq<(Address, i128)>, i: int, r: int, a: Address) -> int {
    if 0 <= i < s.len() {
        (if s[i].0 == a { r } else { 0 }) + balance_in(s.subrange(i + 1, s.len() as int), a)
    } else {
        0
    }
}

/// What party list `s` still holds in all when its entry `i` has `r` left.
spec fn rem_total(s: Seq<(Address, i128)>, i: int, r: int) -> int {
    if 0 <= i < s.len() {
        r + total(s.subrange(i + 1, s.len() as int))
    } else {
        0
    }
}

proof fn lemma_cons_sums(x: (Address, i128), s: Seq<(Address, i128)>, a: Address)
    ensures
        balance_in(seq![x] + s, a) == (if x.0 == a { x.1 as int } else { 0 }) + balance_in(s, a),
        total(seq![x] + s) == x.1 as int + total(s),
    decreases s.len(),
{
    if s.len() > 0 {
        lemma_cons_sums(x, s.drop_last(), a);
        assert((seq![x] + s).drop_last() =~= seq![x] + s.drop_last());
    } else {
        assert((seq![x] + s).drop_last() =~= s);
    }
}

proof fn lemma_total_nonneg(s: Seq<(Address, i128)>)
    requires
        all_positive(s),
    ensures
        total(s) >= 0,
    decreases s.len(),
{
    if s.len() > 0 {
        lemma_total_nonneg(s.drop_last());
    }
}

proof fn lemma_rem_advance(s: Seq<(Address, i128)>, i: int, a: Address)
    requires
        0 <= i < s.len(),
    ensures
        rem(s, i + 1, s[i + 1].1 as int, a) == balance_in(s.subrange(i + 1, s.len() as int), a),
        rem_total(s, i + 1, s[i + 1].1 as int) == total(s.subrange(i + 1, s.len() as int)),
{
    if i + 1 < s.len() {
        assert(s.subrange(i + 1, s.len() as int) =~= seq![s[i + 1]] + s.subrange(
            i + 2,
            s.len() as int,
        ));
        lemma_cons_sums(s[i + 1], s.subrange(i + 2, s.len() as int), a);
    } else {
        assert(s.subrange(i + 1, s.len() as int) =~= Seq::<(Address, i128)>::empty());
    }
}

proof fn lemma_net_flow_cons(x: Settlement, s: Seq<Settlement>, a: Address)
    ensures
        net_flow(seq![x] + s, a) == (if x.to == a { x.amount as int } else { 0 }) - (if x.from
            == a {
            x.amount as int
        } else {
            0
        }) + net_flow(s, a),
{
    assert((seq![x] + s).drop_first() =~= s);
}

/// While both sides have the same total left, the rest of the matching gives
/// each identity what remains due to it less what remains owed by it.
proof fn lemma_greedy_flow(
    d: Seq<(Address, i128)>,
    c: Seq<(Address, i128)>,
    i: int,
    j: int,
    dr: int,
    cr: int,
    a: Address,
)
    requires
        all_positive(d),
        all_positive(c),
        0 <= i <= d.len(),
        0 <= j <= c.len(),
        i < d.len() ==> 0 < dr <= i128::MAX,
        j < c.len() ==> 0 < cr <= i128::MAX,
        rem_total(d, i, dr) == rem_total(c, j, cr),
    ensures
        net_flow(greedy(d, c, i, j, dr, cr), a) == rem(c, j, cr, a) - rem(d, i, dr, a),
    decreases d.len() - i + c.len() - j,
{
    if i >= d.len() || j >= c.len() {
        if i < d.len() {
            lemma_total_nonneg(d.subrange(i + 1, d.len() as int));
        }
        if j < c.len() {
            lemma_total_nonneg(c.subrange(j + 1, c.len() as int));
        }
    } else {
        let t = if dr < cr { dr } else { cr };
        let x = Settlement { from: d[i].0, to: c[j].0, amount: t as i128 };
        lemma_rem_advance(d, i, a);
        lemma_rem_advance(c, j, a);
        let rest = if dr < cr {
            lemma_greedy_flow(d, c, i + 1, j, d[i + 1].1 as int, cr - dr, a);
            greedy(d, c, i + 1, j, d[i + 1].1 as int, cr - dr)
        } else if dr == cr {
            lemma_greedy_flow(d, c, i + 1, j + 1, d[i + 1].1 as int, c[j + 1].1 as int, a);
            greedy(d, c, i + 1, j + 1, d[i + 1].1 as int, c[j + 1].1 as int)
        } else {
            lemma_greedy_flow(d, c, i, j + 1, dr - cr, c[j + 1].1 as int, a);
            greedy(d, c, i, j + 1, dr - cr, c[j + 1].1 as int)
        };
        lemma_net_flow_cons(x, rest, a);
    }
}

proof fn lemma_party_sums(b: Seq<(Address, i128)>, a: Address)
    requires
        negatable(b),
    ensures
        balance_in(creditors(b), a) - balance_in(debtors(b), a) == balance_in(b, a),
        total(creditors(b)) - total(debtors(b)) == total(b),
        debtors(b).len() + creditors(b).len() == nonzero_count(b),
    decreases b.len(),
{
    if b.len() > 0 {
        let init = b.drop_last();
        assert(negatable(init)) by {
            assert forall|k: int| 0 <= k < init.len() implies init[k].1 > i128::MIN by {
                assert(init[k] == b[k]);
            }
        }
        lemma_party_sums(init, a);
        let x = b.last();
        lemma_insert_sorted(debtors(init), (x.0, (-x.1) as i128), a);
        lemma_insert_sorted(creditors(init), x, a);
    }
}

proof fn lemma_start_rem(s: Seq<(Address, i128)>, a: Address)
    ensures
        rem(s, 0, s[0].1 as int, a) == balance_in(s, a),
        rem_total(s, 0, s[0].1 as int) == total(s),
{
    if s.len() > 0 {
        assert(s =~= seq![s[0]] + s.subrange(1, s.len() as int));
        lemma_cons_sums(s[0], s.subrange(1, s.len() as int), a);
    }
}

/// When the balances sum to zero, the plan gives every identity exactly its
/// balance: what it receives less what it pays equals what the list holds for
/// it, so a debtor pays its whole debt and a creditor receives its whole due.
pub proof fn lemma_plan_reproduces_balances(b: Seq<(Address, i128)>, a: Address)
    requires
        negatable(b),
        total(b) == 0,
    ensures
        net_flow(plan(b), a) == balance_in(b, a),
{
    let d = debtors(b);
    let c = creditors(b);
    lemma_parties_positive(b);
    lemma_party_sums(b, a);
    lemma_start_rem(d, a);
    lemma_start_rem(c, a);
    lemma_greedy_flow(d, c, 0, 0, d[0].1 as int, c[0].1 as int, a);
}


proof fn lemma_greedy_count(
    d: Seq<(Address, i128)>,
    c: Seq<(Address, i128)>,
    i: int,
    j: int,
    dr: int,
    cr: int,
)
    requires
        0 <= i <= d.len(),
        0 <= j <= c.len(),
    ensures
        i < d.len() && j < c.len() ==> greedy(d, c, i, j, dr, cr).len() + 1 <= (d.len() - i) + (
        c.len() - j),
        i >= d.len() || j >= c.len() ==> greedy(d, c, i, j, dr, cr).len() == 0,
    decreases d.len() - i + c.len() - j,
{
    if i < d.len() && j < c.len() {
        if dr < cr {
            lemma_greedy_count(d, c, i + 1, j, d[i + 1].1 as int, cr - dr);
        } else if dr == cr {
            lemma_greedy_count(d, c, i + 1, j + 1, d[i + 1].1 as int, c[j + 1].1 as int);
        } else {
            lemma_greedy_count(d, c, i, j + 1, dr - cr, c[j + 1].1 as int);
        }
    }
}

proof fn lemma_greedy_positive(
    d: Seq<(Address, i128)>,
    c: Seq<(Address, i128)>,
    i: int,
    j: int,
    dr: int,
    cr: int,
)
    requires
        all_positive(d),
        all_positive(c),
        0 <= i <= d.len(),
        0 <= j <= c.len(),
        i < d.len() ==> 0 < dr <= i128::MAX,
        j < c.len() ==> 0 < cr <= i128::MAX,
    ensures
        forall|k: int|
            0 <= k < greedy(d, c, i, j, dr, cr).len() ==> #[trigger] greedy(
                d,
                c,
                i,
                j,
                dr,
                cr,
            )[k].amount > 0,
    decreases d.len() - i + c.len() - j,
{
    if i < d.len() && j < c.len() {
        let t = if dr < cr { dr } else { cr };
        let x = Settlement { from: d[i].0, to: c[j].0, amount: t as i128 };
        let rest = if dr < cr {
            lemma_greedy_positive(d, c, i + 1, j, d[i + 1].1 as int, cr - dr);
            greedy(d, c, i + 1, j, d[i + 1].1 as int, cr - dr)
        } else if dr == cr {
            lemma_greedy_positive(d, c, i + 1, j + 1, d[i + 1].1 as int, c[j + 1].1 as int);
            greedy(d, c, i + 1, j + 1, d[i + 1].1 as int, c[j + 1].1 as int)
        } else {
            lemma_greedy_positive(d, c, i, j + 1, dr - cr, c[j + 1].1 as int);
            greedy(d, c, i, j + 1, dr - cr, c[j + 1].1 as int)
        };
        let all = greedy(d, c, i, j, dr, cr);
        assert(all == seq![x] + rest);
        assert forall|k: int| 0 <= k < all.len() implies #[trigger] all[k].amount > 0 by {
            if k > 0 {
                assert(all[k] == rest[k - 1]);
            }
        }
    }
}

/// A plan over `k` identities with a nonzero balance holds at most `k - 1`
/// transfers (none when `k` is zero), and every transfer moves a positive
/// amount.
pub proof fn lemma_plan_is_small(b: Seq<(Address, i128)>)
    requires
        negatable(b),
    ensures
        nonzero_count(b) > 0 ==> plan(b).len() + 1 <= nonzero_count(b),
        nonzero_count(b) == 0 ==> plan(b).len() == 0,
        forall|k: int| 0 <= k < plan(b).len() ==> #[trigger] plan(b)[k].amount > 0,
{
    let d = debtors(b);
    let c = creditors(b);
    lemma_parties_positive(b);
    lemma_party_sums(b, Address { contract: false, hi: 0, lo: 0 });
    lemma_greedy_count(d, c, 0, 0, d[0].1 as int, c[0].1 as int);
    lemma_greedy_positive(d, c, 0, 0, d[0].1 as int, c[0].1 as int);
}

/// The plan depends on the balance list alone: two computations over the
/// same list give the same transfers in the same order.
pub proof fn lemma_plan_reproducible(b1: Seq<(Address, i128)>, b2: Seq<(Address, i128)>)
    requires
        b1 == b2,
    ensures
        plan(b1) == plan(b2),
{
}


/// `b` lists `a` with a negative balance.
pub open spec fn owes_in(b: Seq<(Address, i128)>, a: Address) -> bool {
    exists|k: int| 0 <= k < b.len() && #[trigger] b[k] == (a, b[k].1) && b[k].1 < 0
}

/// `b` lists `a` with a positive balance.
pub open spec fn is_owed_in(b: Seq<(Address, i128)>, a: Address) -> bool {
    exists|k: int| 0 <= k < b.len() && #[trigger] b[k] == (a, b[k].1) && b[k].1 > 0
}

/// No identity is listed twice in `b`.
pub open spec fn distinct_parties(b: Seq<(Address, i128)>) -> bool {
    forall|i: int, j: int| 0 <= i < j < b.len() ==> b[i].0 != b[j].0
}

/// `a` is the identity of some entry of `s`.
spec fn names(s: Seq<(Address, i128)>, a: Address) -> bool {
    exists|x: int| 0 <= x < s.len() && #[trigger] s[x] == (a, s[x].1)
}

proof fn lemma_parties_origin(b: Seq<(Address, i128)>)
    requires
        negatable(b),
    ensures
        forall|i: int| 0 <= i < debtors(b).len() ==> owes_in(b, #[trigger] debtors(b)[i].0),
        forall|i: int| 0 <= i < creditors(b).len() ==> is_owed_in(b, #[trigger] creditors(b)[i].0),
{
    lemma_parties_contents(b);
    assert forall|i: int| 0 <= i < debtors(b).len() implies owes_in(b, #[trigger] debtors(b)[i].0) by {
        let y = debtors(b)[i];
        assert(debtors(b).contains(y));
        let k = choose|k: int| 0 <= k < b.len() && b[k] == (y.0, (-y.1) as i128);
        assert(b[k] == (y.0, b[k].1) && b[k].1 < 0);
    }
    assert forall|i: int| 0 <= i < creditors(b).len() implies is_owed_in(b, #[trigger] creditors(b)[i].0) by {
        let y = creditors(b)[i];
        assert(creditors(b).contains(y));
        let k = choose|k: int| 0 <= k < b.len() && b[k] == y;
        assert(b[k] == (y.0, b[k].1) && b[k].1 > 0);
    }
}

proof fn lemma_greedy_parties(
    d: Seq<(Address, i128)>,
    c: Seq<(Address, i128)>,
    i: int,
    j: int,
    dr: int,
    cr: int,
)
    requires
        0 <= i,
        0 <= j,
    ensures
        forall|k: int|
            0 <= k < greedy(d, c, i, j, dr, cr).len() ==> names(
                d,
                #[trigger] greedy(d, c, i, j, dr, cr)[k].from,
            ) && names(c, greedy(d, c, i, j, dr, cr)[k].to),
    decreases d.len() - i + c.len() - j,
{
    if i < d.len() && j < c.len() {
        let t = if dr < cr { dr } else { cr };
        let x = Settlement { from: d[i].0, to: c[j].0, amount: t as i128 };
        let rest = if dr < cr {
            lemma_greedy_parties(d, c, i + 1, j, d[i + 1].1 as int, cr - dr);
            greedy(d, c, i + 1, j, d[i + 1].1 as int, cr - dr)
        } else if dr == cr {
            lemma_greedy_parties(d, c, i + 1, j + 1, d[i + 1].1 as int, c[j + 1].1 as int);
            greedy(d, c, i + 1, j + 1, d[i + 1].1 as int, c[j + 1].1 as int)
        } else {
            lemma_greedy_parties(d, c, i, j + 1, dr - cr, c[j + 1].1 as int);
            greedy(d, c, i, j + 1, dr - cr, c[j + 1].1 as int)
        };
        let all = greedy(d, c, i, j, dr, cr);
        assert(d[i] == (x.from, d[i].1));
        assert(c[j] == (x.to, c[j].1));
        assert forall|k: int| 0 <= k < all.len() implies names(d, #[trigger] all[k].from) && names(
            c,
            all[k].to,
        ) by {
            if t > 0 {
                assert(all == seq![x] + rest);
                if k > 0 {
                    assert(all[k] == rest[k - 1]);
                }
            } else {
                assert(all == rest);
            }
        }
    }
}

/// Every transfer of a plan goes from an identity that the list shows owing
/// to one that it shows owed; so a zero balance never takes part, and when
/// no identity is listed twice no transfer goes from an identity to itself.
pub proof fn lemma_plan_parties(b: Seq<(Address, i128)>)
    requires
        negatable(b),
    ensures
        forall|k: int|
            0 <= k < plan(b).len() ==> owes_in(b, #[trigger] plan(b)[k].from) && is_owed_in(
                b,
                plan(b)[k].to,
            ),
        distinct_parties(b) ==> forall|k: int|
            0 <= k < plan(b).len() ==> #[trigger] plan(b)[k].from != plan(b)[k].to,
{
    let d = debtors(b);
    let c = creditors(b);
    lemma_parties_origin(b);
    lemma_greedy_parties(d, c, 0, 0, d[0].1 as int, c[0].1 as int);
    assert forall|k: int| 0 <= k < plan(b).len() implies owes_in(b, #[trigger] plan(b)[k].from)
        && is_owed_in(b, plan(b)[k].to) by {
        let s = plan(b)[k];
        let x = choose|x: int| 0 <= x < d.len() && #[trigger] d[x] == (s.from, d[x].1);
        let y = choose|y: int| 0 <= y < c.len() && #[trigger] c[y] == (s.to, c[y].1);
        assert(owes_in(b, d[x].0));
        assert(is_owed_in(b, c[y].0));
    }
    if distinct_parties(b) {
        assert forall|k: int| 0 <= k < plan(b).len() implies #[trigger] plan(b)[k].from
            != plan(b)[k].to by {
            let s = plan(b)[k];
            let p = choose|p: int| 0 <= p < b.len() && #[trigger] b[p] == (s.from, b[p].1) && b[p].1 < 0;
            let q = choose|q: int| 0 <= q < b.len() && #[trigger] b[q] == (s.to, b[q].1) && b[q].1 > 0;
            if p < q {
                assert(b[p].0 != b[q].0);
            } else if q < p {
                assert(b[q].0 != b[p].0);
            }
        }
    }
}


/// The plan depends on the identities and their balances alone, not on the
/// order in which the list holds them: two lists that hold the same pairs,
/// each identity once, give the same transfers in the same order.
pub proof fn lemma_plan_ignores_listing_order(b1: Seq<(Address, i128)>, b2: Seq<(Address, i128)>)
    requires
        negatable(b1),
        negatable(b2),
        distinct_parties(b1),
        distinct_parties(b2),
        forall|p: (Address, i128)| b1.contains(p) <==> b2.contains(p),
    ensures
        plan(b1) == plan(b2),
{
    lemma_parties_contents(b1);
    lemma_parties_contents(b2);
    assert forall|y: (Address, i128)| debtors(b1).contains(y) <==> debtors(b2).contains(y) by {
        assert(b1.contains((y.0, (-y.1) as i128)) <==> b2.contains((y.0, (-y.1) as i128)));
    }
    assert forall|y: (Address, i128)| creditors(b1).contains(y) <==> creditors(b2).contains(y) by {
        assert(b1.contains(y) <==> b2.contains(y));
    }
    lemma_sorted_unique(debtors(b1), debtors(b2));
    lemma_sorted_unique(creditors(b1), creditors(b2));
}

} // verus!
