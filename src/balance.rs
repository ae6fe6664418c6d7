use vstd::prelude::*;

use crate::types::{Address, Expense};

verus! {

/// What each entry of an expense's split owes: the amount divided by the
/// number of entries, truncated.
pub open spec fn share(e: Expense) -> int {
    e.amount as int / e.split_among@.len() as int
}

/// The debits of one split: `-sh` for each entry other than the payer, in
/// split order.
pub open spec fn split_postings(split: Seq<Address>, payer: Address, sh: int) -> Seq<(Address, int)>
    decreases split.len(),
{
    if split.len() == 0 {
        seq![]
    } else {
        let rest = split_postings(split.drop_last(), payer, sh);
        if split.last() == payer {
            rest
        } else {
            rest.push((split.last(), -sh))
        }
    }
}

/// What one expense posts: its payer is credited the amount less the payer's
/// own share (so a truncation remainder stays with the payer), then every
/// other split entry is debited one share.
pub open spec fn expense_postings(e: Expense) -> Seq<(Address, int)> {
    seq![(e.payer, e.amount - share(e))] + split_postings(e.split_among@, e.payer, share(e))
}

/// The postings of a list of expenses, expense by expense.
pub open spec fn postings(exps: Seq<Expense>) -> Seq<(Address, int)>
    decreases exps.len(),
{
    if exps.len() == 0 {
        seq![]
    } else {
        postings(exps.drop_last()) + expense_postings(exps.last())
    }
}

/// The sum of the postings to `a`.
pub open spec fn posted_to(p: Seq<(Address, int)>, a: Address) -> int
    decreases p.len(),
{
    if p.len() == 0 {
        0
    } else {
        posted_to(p.drop_last(), a) + (if p.last().0 == a { p.last().1 } else { 0 })
    }
}

/// The sum of all postings.
pub open spec fn posted_total(p: Seq<(Address, int)>) -> int
    decreases p.len(),
{
    if p.len() == 0 {
        0
    } else {
        posted_total(p.drop_last()) + p.last().1
    }
}

/// The sum of the positive postings.
pub open spec fn credits(p: Seq<(Address, int)>) -> int
    decreases p.len(),
{
    if p.len() == 0 {
        0
    } else {
        credits(p.drop_last()) + (if p.last().1 > 0 { p.last().1 } else { 0 })
    }
}

/// The sum of the negated negative postings.
pub open spec fn debits(p: Seq<(Address, int)>) -> int
    decreases p.len(),
{
    if p.len() == 0 {
        0
    } else {
        debits(p.drop_last()) + (if p.last().1 < 0 { -p.last().1 } else { 0 })
    }
}

/// The identities that the postings name, each once, in the order of their
/// first posting.
pub open spec fn first_seen(p: Seq<(Address, int)>) -> Seq<Address>
    decreases p.len(),
{
    if p.len() == 0 {
        seq![]
    } else {
        let rest = first_seen(p.drop_last());
        if rest.contains(p.last().0) {
            rest
        } else {
            rest.push(p.last().0)
        }
    }
}

/// The net balance of `a` over a list of expenses: positive when `a` is owed,
/// negative when `a` owes.
pub open spec fn balance_of(exps: Seq<Expense>, a: Address) -> int {
    posted_to(postings(exps), a)
}

/// Everyone that a list of expenses names, as payer or in a split, each once,
/// in the order in which the expenses first name them.
pub open spec fn participants(exps: Seq<Expense>) -> Seq<Address> {
    first_seen(postings(exps))
}

/// An expense whose amount is positive and whose split is not empty.
pub open spec fn well_formed_expense(e: Expense) -> bool {
    e.amount > 0 && e.split_among@.len() > 0
}

/// The sum of the amounts of a list of expenses.
pub open spec fn amount_total(exps: Seq<Expense>) -> int
    decreases exps.len(),
{
    if exps.len() == 0 {
        0
    } else {
        amount_total(exps.drop_last()) + exps.last().amount
    }
}

/// The balances of a list of expenses: each participant, in order, with its
/// net balance.
pub open spec fn balance_list(exps: Seq<Expense>) -> Seq<(Address, i128)> {
    participants(exps).map_values(|a: Address| (a, balance_of(exps, a) as i128))
}

/// `r` lists, in order, every identity that `p` names, each with its sum.
pub open spec fn tallies(r: Seq<(Address, i128)>, p: Seq<(Address, int)>) -> bool {
    &&& r.len() == first_seen(p).len()
    &&& forall|k: int|
        0 <= k < r.len() ==> #[trigger] r[k].0 == first_seen(p)[k] && r[k].1 as int == posted_to(
            p,
            r[k].0,
        )
}

proof fn lemma_first_seen(p: Seq<(Address, int)>, a: Address)
    ensures
        first_seen(p).no_duplicates(),
        !first_seen(p).contains(a) ==> posted_to(p, a) == 0,
    decreases p.len(),
{
    if p.len() > 0 {
        lemma_first_seen(p.drop_last(), a);
        let rest = first_seen(p.drop_last());
        if !rest.contains(p.last().0) {
            assert(rest.push(p.last().0)[rest.len() as int] == p.last().0);
            assert forall|i: int, j: int|
                0 <= i < j < rest.len() + 1 implies rest.push(p.last().0)[i] != rest.push(
                p.last().0,
            )[j] by {
                if j == rest.len() {
                    assert(rest[i] != p.last().0);
                }
            }
        }
        if !first_seen(p).contains(a) {
            if rest.contains(a) {
                let k = choose|k: int| 0 <= k < rest.len() && rest[k] == a;
                if rest.contains(p.last().0) {
                    assert(first_seen(p)[k] == a);
                } else {
                    assert(first_seen(p)[k] == a);
                }
            }
            if p.last().0 == a {
                if rest.contains(a) {
                } else {
                    assert(first_seen(p)[rest.len() as int] == a);
                }
            }
        }
    }
}

proof fn lemma_posted_bound(p: Seq<(Address, int)>, a: Address)
    ensures
        -debits(p) <= posted_to(p, a) <= credits(p),
        debits(p) >= 0,
        credits(p) >= 0,
    decreases p.len(),
{
    if p.len() > 0 {
        lemma_posted_bound(p.drop_last(), a);
    }
}

/// Adds the posting `(a, v)` to the tally `r` of `p`, unless the sum for `a`
/// would leave the range of `i128`; returns whether it did.
fn post(r: &mut Vec<(Address, i128)>, a: Address, v: i128, Ghost(p): Ghost<Seq<(Address, int)>>) -> (ok: bool)
    requires
        tallies(old(r)@, p),
    ensures
        ok == (i128::MIN <= posted_to(p, a) + v <= i128::MAX),
        ok ==> tallies(final(r)@, p.push((a, v as int))),
{
    let ghost q = p.push((a, v as int));
    proof {
        lemma_first_seen(p, a);
        assert(q.drop_last() =~= p);
    }
    let n = r.len();
    let mut i: usize = 0;
    while i < n
        invariant
            n == r@.len(),
            i <= n,
            r@ == old(r)@,
            tallies(r@, p),
            forall|k: int| 0 <= k < i ==> r@[k].0 != a,
            q == p.push((a, v as int)),
            q.drop_last() == p,
            first_seen(p).no_duplicates(),
            !first_seen(p).contains(a) ==> posted_to(p, a) == 0,
        decreases n - i,
    {
        if r[i].0 == a {
            let cur = r[i].1;
            let ghost before = r@;
            proof {
                assert(first_seen(p)[i as int] == a);
                assert(first_seen(p).contains(a));
                assert(first_seen(q) == first_seen(p));
                assert(cur as int == posted_to(p, a));
            }
            let sum = match cur.checked_add(v) {
                Some(x) => x,
                None => {
                    return false;
                },
            };
            r.set(i, (a, sum));
            proof {
                assert forall|k: int| 0 <= k < r@.len() implies r@[k].0 == first_seen(q)[k]
                    && r@[k].1 as int == posted_to(q, r@[k].0) by {
                    if k != i {
                        assert(before[k].0 != a) by {
                            assert(first_seen(p)[k] != first_seen(p)[i as int]);
                        }
                    }
                }
            }
            return true;
        }
        i += 1;
    }
    proof {
        assert(!first_seen(p).contains(a)) by {
            if first_seen(p).contains(a) {
                let k = choose|k: int| 0 <= k < first_seen(p).len() && first_seen(p)[k] == a;
                assert(r@[k].0 == a);
            }
        }
    }
    r.push((a, v));
    proof {
        assert(first_seen(q) == first_seen(p).push(a));
        assert forall|k: int| 0 <= k < r@.len() implies r@[k].0 == first_seen(q)[k]
            && r@[k].1 as int == posted_to(q, r@[k].0) by {
            if k < n {
                assert(r@[k].0 != a);
            }
        }
    }
    true
}

/// Adding the postings one by one, every running balance stays within the
/// range of `i128`.
pub open spec fn fits(p: Seq<(Address, int)>) -> bool
    decreases p.len(),
{
    p.len() == 0 || (fits(p.drop_last()) && i128::MIN <= posted_to(p.drop_last(), p.last().0)
        + p.last().1 <= i128::MAX)
}

proof fn lemma_fits_prefix(a: Seq<(Address, int)>, b: Seq<(Address, int)>)
    requires
        fits(a + b),
    ensures
        fits(a),
    decreases b.len(),
{
    if b.len() == 0 {
        assert(a + b =~= a);
    } else {
        assert((a + b).drop_last() =~= a + b.drop_last());
        lemma_fits_prefix(a, b.drop_last());
    }
}

proof fn lemma_fits_expense_prefix(exps: Seq<Expense>, m: int)
    requires
        0 <= m <= exps.len(),
        fits(postings(exps)),
    ensures
        fits(postings(exps.subrange(0, m))),
    decreases exps.len(),
{
    if m == exps.len() {
        assert(exps.subrange(0, m) =~= exps);
    } else {
        lemma_fits_prefix(postings(exps.drop_last()), expense_postings(exps.last()));
        lemma_fits_expense_prefix(exps.drop_last(), m);
        assert(exps.drop_last().subrange(0, m) =~= exps.subrange(0, m));
    }
}

proof fn lemma_fits_split_prefix(
    base: Seq<(Address, int)>,
    split: Seq<Address>,
    payer: Address,
    sh: int,
    j: int,
)
    requires
        0 <= j <= split.len(),
        fits(base + split_postings(split, payer, sh)),
    ensures
        fits(base + split_postings(split.subrange(0, j), payer, sh)),
    decreases split.len(),
{
    if j == split.len() {
        assert(split.subrange(0, j) =~= split);
    } else {
        let init = split.drop_last();
        let rest = split_postings(init, payer, sh);
        if split.last() == payer {
            assert(base + split_postings(split, payer, sh) == base + rest);
        } else {
            assert(base + split_postings(split, payer, sh) =~= (base + rest) + seq![
                (split.last(), -sh),
            ]);
            lemma_fits_prefix(base + rest, seq![(split.last(), -sh)]);
        }
        lemma_fits_split_prefix(base, init, payer, sh, j);
        assert(init.subrange(0, j) =~= split.subrange(0, j));
    }
}

proof fn lemma_split_postings_debits(split: Seq<Address>, payer: Address, sh: int)
    requires
        sh >= 0,
    ensures
        debits(split_postings(split, payer, sh)) <= sh * split.len(),
        credits(split_postings(split, payer, sh)) == 0,
    decreases split.len(),
{
    if split.len() > 0 {
        lemma_split_postings_debits(split.drop_last(), payer, sh);
        let rest = split_postings(split.drop_last(), payer, sh);
        if split.last() != payer {
            assert(rest.push((split.last(), -sh)).drop_last() =~= rest);
        }
        assert(sh * split.len() == sh * (split.len() - 1) + sh) by (nonlinear_arith);
    }
}

proof fn lemma_share_bounds(e: Expense)
    requires
        well_formed_expense(e),
    ensures
        0 <= share(e) <= e.amount,
        share(e) * e.split_among@.len() <= e.amount,
{
    let n = e.split_among@.len() as int;
    let a = e.amount as int;
    assert(0 <= a / n <= a) by (nonlinear_arith)
        requires
            a > 0,
            n > 0,
    ;
    assert((a / n) * n <= a) by (nonlinear_arith)
        requires
            a > 0,
            n > 0,
    ;
}

/// Computes the net balance of every participant of `expenses`, in the order
/// in which the expenses first name them; `None` when a running balance
/// would leave the range of `i128`.
pub fn compute_balances(expenses: &Vec<Expense>) -> (r: Option<Vec<(Address, i128)>>)
    requires
        forall|k: int| 0 <= k < expenses@.len() ==> well_formed_expense(#[trigger] expenses@[k]),
    ensures
        match r {
            Some(b) => fits(postings(expenses@)) && b@ == balance_list(expenses@),
            None => !fits(postings(expenses@)),
        },
{
    let mut r: Vec<(Address, i128)> = Vec::new();
    let ghost mut p: Seq<(Address, int)> = seq![];
    let n = expenses.len();
    let mut e: usize = 0;
    while e < n
        invariant
            n == expenses@.len(),
            e <= n,
            forall|k: int| 0 <= k < expenses@.len() ==> well_formed_expense(#[trigger] expenses@[k]),
            p == postings(expenses@.subrange(0, e as int)),
            tallies(r@, p),
            fits(p),
        decreases n - e,
    {
        let ex = &expenses[e];
        let ghost pre = expenses@.subrange(0, e as int);
        let ghost upto = expenses@.subrange(0, e + 1);
        proof {
            assert(upto.drop_last() =~= pre);
            assert(upto.last() == *ex);
            lemma_share_bounds(*ex);
        }
        let count = ex.split_among.len();
        let share_v: i128 = ex.amount / (count as i128);
        let payer = ex.payer;
        let ghost head = (payer, (ex.amount - share_v) as int);
        if !post(&mut r, payer, ex.amount - share_v, Ghost(p)) {
            proof {
                let q = p.push(head);
                assert(q.drop_last() =~= p);
                assert(!fits(q));
                assert(postings(upto) =~= q + split_postings(ex.split_among@, payer, share(*ex)));
                if fits(postings(expenses@)) {
                    lemma_fits_expense_prefix(expenses@, e + 1);
                    lemma_fits_prefix(q, split_postings(ex.split_among@, payer, share(*ex)));
                }
            }
            return None;
        }
        proof {
            let old_p = p;
            p = p.push(head);
            assert(p.drop_last() =~= old_p);
        }
        let ghost base = p;
        let mut j: usize = 0;
        while j < count
            invariant
                count == ex.split_among@.len(),
                j <= count,
                e < n,
                n == expenses@.len(),
                upto == expenses@.subrange(0, e + 1),
                well_formed_expense(*ex),
                share_v == share(*ex),
                payer == ex.payer,
                0 <= share_v <= ex.amount,
                base == postings(pre).push(head),
                head == (payer, ex.amount - share_v),
                postings(upto) == base + split_postings(ex.split_among@, payer, share_v as int),
                p == base + split_postings(ex.split_among@.subrange(0, j as int), payer, share_v as int),
                tallies(r@, p),
                fits(p),
            decreases count - j,
        {
            let m = ex.split_among[j];
            let ghost next = base + split_postings(
                ex.split_among@.subrange(0, j + 1),
                payer,
                share_v as int,
            );
            proof {
                let sp = ex.split_among@.subrange(0, j + 1);
                assert(sp.drop_last() =~= ex.split_among@.subrange(0, j as int));
                assert(sp.last() == m);
            }
            if m != payer {
                let ok = post(&mut r, m, -share_v, Ghost(p));
                proof {
                    assert(next =~= p.push((m, -share_v as int)));
                    assert(next.drop_last() =~= p);
                }
                if !ok {
                    proof {
                        assert(!fits(next));
                        if fits(postings(expenses@)) {
                            lemma_fits_expense_prefix(expenses@, e + 1);
                            lemma_fits_split_prefix(
                                base,
                                ex.split_among@,
                                payer,
                                share_v as int,
                                j + 1,
                            );
                        }
                    }
                    return None;
                }
                proof {
                    p = next;
                }
            } else {
                proof {
                    assert(p =~= next);
                }
            }
            j += 1;
        }
        proof {
            assert(ex.split_among@.subrange(0, count as int) =~= ex.split_among@);
        }
        e += 1;
    }
    proof {
        assert(expenses@.subrange(0, n as int) =~= expenses@);
        let pp = p;
        assert(pp == postings(expenses@));
        assert(forall|k: int|
            0 <= k < r@.len() ==> r@[k].1 as int == posted_to(pp, r@[k].0));
        assert(r@ =~= balance_list(expenses@));
    }
    Some(r)
}

/// The sum of the balances of everyone that a list of expenses names.
pub open spec fn balance_sum(exps: Seq<Expense>) -> int {
    sum_posted(participants(exps), postings(exps))
}

/// The sum of what `p` posts to each entry of `keys`.
pub open spec fn sum_posted(keys: Seq<Address>, p: Seq<(Address, int)>) -> int
    decreases keys.len(),
{
    if keys.len() == 0 {
        0
    } else {
        sum_posted(keys.drop_last(), p) + posted_to(p, keys.last())
    }
}

/// How many entries of `s` equal `a`.
pub open spec fn occurrences(s: Seq<Address>, a: Address) -> int
    decreases s.len(),
{
    if s.len() == 0 {
        0
    } else {
        occurrences(s.drop_last(), a) + (if s.last() == a { 1int } else { 0int })
    }
}

/// An expense split evenly: its payer is in the split, no identity is in the
/// split twice, and the amount is a multiple of the split's size.
pub open spec fn evenly_split(e: Expense) -> bool {
    &&& e.split_among@.contains(e.payer)
    &&& e.split_among@.no_duplicates()
    &&& (e.amount as int) % (e.split_among@.len() as int) == 0
}

proof fn lemma_sum_posted_push(keys: Seq<Address>, p: Seq<(Address, int)>, x: Address, v: int)
    ensures
        sum_posted(keys, p.push((x, v))) == sum_posted(keys, p) + v * occurrences(keys, x),
    decreases keys.len(),
{
    let q = p.push((x, v));
    assert(q.drop_last() =~= p);
    if keys.len() > 0 {
        lemma_sum_posted_push(keys.drop_last(), p, x, v);
        let o = occurrences(keys.drop_last(), x);
        assert(v * o + (if keys.last() == x { v } else { 0 }) == v * (o + (if keys.last() == x {
            1int
        } else {
            0int
        }))) by (nonlinear_arith);
    }
}

proof fn lemma_occurrences_distinct(keys: Seq<Address>, x: Address)
    requires
        keys.no_duplicates(),
    ensures
        occurrences(keys, x) == (if keys.contains(x) { 1int } else { 0int }),
    decreases keys.len(),
{
    if keys.len() > 0 {
        let init = keys.drop_last();
        assert(init.no_duplicates());
        lemma_occurrences_distinct(init, x);
        if keys.last() == x {
            assert(!init.contains(x)) by {
                if init.contains(x) {
                    let k = choose|k: int| 0 <= k < init.len() && init[k] == x;
                    assert(keys[k] == keys[keys.len() - 1]);
                }
            }
        } else {
            if keys.contains(x) {
                let k = choose|k: int| 0 <= k < keys.len() && keys[k] == x;
                assert(init[k] == x);
            }
            if init.contains(x) {
                let k = choose|k: int| 0 <= k < init.len() && init[k] == x;
                assert(keys[k] == x);
            }
        }
    }
}

proof fn lemma_sum_over_first_seen(p: Seq<(Address, int)>)
    ensures
        sum_posted(first_seen(p), p) == posted_total(p),
    decreases p.len(),
{
    if p.len() > 0 {
        let pre = p.drop_last();
        let (x, v) = p.last();
        assert(pre.push((x, v)) =~= p);
        lemma_sum_over_first_seen(pre);
        let f = first_seen(pre);
        lemma_first_seen(pre, x);
        lemma_sum_posted_push(f, pre, x, v);
        lemma_occurrences_distinct(f, x);
        if !f.contains(x) {
            assert(f.push(x).drop_last() =~= f);
        }
    }
}

proof fn lemma_posted_total_append(a: Seq<(Address, int)>, b: Seq<(Address, int)>)
    ensures
        posted_total(a + b) == posted_total(a) + posted_total(b),
    decreases b.len(),
{
    if b.len() > 0 {
        lemma_posted_total_append(a, b.drop_last());
        assert((a + b).drop_last() =~= a + b.drop_last());
    } else {
        assert(a + b =~= a);
    }
}

proof fn lemma_split_postings_total(split: Seq<Address>, payer: Address, sh: int)
    ensures
        posted_total(split_postings(split, payer, sh)) == -sh * (split.len() - occurrences(
            split,
            payer,
        )),
    decreases split.len(),
{
    if split.len() > 0 {
        lemma_split_postings_total(split.drop_last(), payer, sh);
        let rest = split_postings(split.drop_last(), payer, sh);
        if split.last() != payer {
            assert(rest.push((split.last(), -sh)).drop_last() =~= rest);
        }
        let n = split.len() - 1;
        let o = occurrences(split.drop_last(), payer);
        assert(posted_total(rest) == -sh * (n - o));
        if split.last() != payer {
            assert(occurrences(split, payer) == o);
            assert(posted_total(split_postings(split, payer, sh)) == -sh * (n - o) - sh);
            assert(-sh * (n - o) - sh == -sh * (n + 1 - o)) by (nonlinear_arith);
        } else {
            assert(occurrences(split, payer) == o + 1);
            assert(posted_total(split_postings(split, payer, sh)) == -sh * (n - o));
            assert(split.len() - occurrences(split, payer) == n - o);
        }
    } else {
        assert(-sh * 0 == 0) by (nonlinear_arith);
    }
}

/// What an expense leaves unassigned: its amount less one share for the
/// payer and one for every split entry other than the payer. It is zero when
/// the split is even, positive when truncation leaves a remainder with the
/// payer, negative when the payer is not in the split.
pub open spec fn residual(e: Expense) -> int {
    e.amount - share(e) * (e.split_among@.len() - occurrences(e.split_among@, e.payer) + 1)
}

/// The sum of the residuals of a list of expenses.
pub open spec fn total_residual(exps: Seq<Expense>) -> int
    decreases exps.len(),
{
    if exps.len() == 0 {
        0
    } else {
        total_residual(exps.drop_last()) + residual(exps.last())
    }
}

proof fn lemma_expense_postings_total(e: Expense)
    ensures
        posted_total(expense_postings(e)) == residual(e),
{
    let split = e.split_among@;
    let sh = share(e);
    let head = seq![(e.payer, e.amount - sh)];
    lemma_split_postings_total(split, e.payer, sh);
    assert(head.drop_last() =~= Seq::<(Address, int)>::empty());
    assert(posted_total(Seq::<(Address, int)>::empty()) == 0);
    assert(posted_total(head) == e.amount - sh);
    lemma_posted_total_append(head, split_postings(split, e.payer, sh));
    let k = split.len() - occurrences(split, e.payer);
    assert(e.amount - sh + -sh * k == e.amount - sh * (k + 1)) by (nonlinear_arith);
}

proof fn lemma_postings_total(exps: Seq<Expense>)
    ensures
        posted_total(postings(exps)) == total_residual(exps),
    decreases exps.len(),
{
    if exps.len() > 0 {
        lemma_postings_total(exps.drop_last());
        lemma_expense_postings_total(exps.last());
        lemma_posted_total_append(postings(exps.drop_last()), expense_postings(exps.last()));
    }
}

/// The balances of a group sum to the residuals of its expenses: every
/// posting to a payer is matched by the debits of the split, except for what
/// the division leaves over.
pub proof fn lemma_balance_sum_is_residual(exps: Seq<Expense>)
    ensures
        balance_sum(exps) == total_residual(exps),
{
    lemma_sum_over_first_seen(postings(exps));
    lemma_postings_total(exps);
}

/// An evenly split expense leaves no residual.
pub proof fn lemma_even_split_has_no_residual(e: Expense)
    requires
        well_formed_expense(e),
        evenly_split(e),
    ensures
        residual(e) == 0,
{
    let split = e.split_among@;
    let n = split.len() as int;
    let a = e.amount as int;
    lemma_occurrences_distinct(split, e.payer);
    vstd::arithmetic::div_mod::lemma_fundamental_div_mod(a, n);
    assert(share(e) == a / n);
    assert(a == n * share(e));
    assert(share(e) * (n - 1 + 1) == n * share(e)) by (nonlinear_arith);
}

/// The balances of a group sum to exactly zero whenever the residuals of its
/// expenses do.
pub proof fn lemma_balances_sum_to_zero(exps: Seq<Expense>)
    requires
        total_residual(exps) == 0,
    ensures
        balance_sum(exps) == 0,
{
    lemma_balance_sum_is_residual(exps);
}

/// The balances of a group whose expenses are all split evenly sum to exactly
/// zero.
pub proof fn lemma_even_balances_sum_to_zero(exps: Seq<Expense>)
    requires
        forall|k: int|
            0 <= k < exps.len() ==> well_formed_expense(#[trigger] exps[k]) && evenly_split(
                exps[k],
            ),
    ensures
        balance_sum(exps) == 0,
{
    lemma_even_residuals_vanish(exps);
    lemma_balances_sum_to_zero(exps);
}

proof fn lemma_even_residuals_vanish(exps: Seq<Expense>)
    requires
        forall|k: int|
            0 <= k < exps.len() ==> well_formed_expense(#[trigger] exps[k]) && evenly_split(
                exps[k],
            ),
    ensures
        total_residual(exps) == 0,
    decreases exps.len(),
{
    if exps.len() > 0 {
        lemma_even_residuals_vanish(exps.drop_last());
        lemma_even_split_has_no_residual(exps.last());
    }
}


proof fn lemma_bounds_append(a: Seq<(Address, int)>, b: Seq<(Address, int)>)
    ensures
        credits(a + b) == credits(a) + credits(b),
        debits(a + b) == debits(a) + debits(b),
    decreases b.len(),
{
    if b.len() > 0 {
        lemma_bounds_append(a, b.drop_last());
        assert((a + b).drop_last() =~= a + b.drop_last());
    } else {
        assert(a + b =~= a);
    }
}

proof fn lemma_postings_bounded(exps: Seq<Expense>)
    requires
        forall|k: int| 0 <= k < exps.len() ==> well_formed_expense(#[trigger] exps[k]),
    ensures
        credits(postings(exps)) <= amount_total(exps),
        debits(postings(exps)) <= amount_total(exps),
    decreases exps.len(),
{
    if exps.len() > 0 {
        let e = exps.last();
        lemma_postings_bounded(exps.drop_last());
        lemma_share_bounds(e);
        lemma_split_postings_debits(e.split_among@, e.payer, share(e));
        let head = seq![(e.payer, e.amount - share(e))];
        assert(head.drop_last() =~= Seq::<(Address, int)>::empty());
        assert(credits(Seq::<(Address, int)>::empty()) == 0);
        assert(debits(Seq::<(Address, int)>::empty()) == 0);
        lemma_bounds_append(head, split_postings(e.split_among@, e.payer, share(e)));
        lemma_bounds_append(postings(exps.drop_last()), expense_postings(e));
    }
}

proof fn lemma_listed_sums(exps: Seq<Expense>, keys: Seq<Address>, a: Address)
    requires
        keys.no_duplicates(),
        forall|k: int|
            0 <= k < keys.len() ==> i128::MIN <= #[trigger] balance_of(exps, keys[k])
                <= i128::MAX,
    ensures
        crate::settle::total(keys.map_values(|x: Address| (x, balance_of(exps, x) as i128)))
            == sum_posted(keys, postings(exps)),
        crate::settle::balance_in(keys.map_values(|x: Address| (x, balance_of(exps, x) as i128)), a)
            == if keys.contains(a) {
            balance_of(exps, a)
        } else {
            0
        },
    decreases keys.len(),
{
    let f = |x: Address| (x, balance_of(exps, x) as i128);
    if keys.len() > 0 {
        let init = keys.drop_last();
        let x = keys.last();
        assert(init.no_duplicates());
        assert forall|k: int| 0 <= k < init.len() implies i128::MIN <= #[trigger] balance_of(
            exps,
            init[k],
        ) <= i128::MAX by {
            assert(init[k] == keys[k]);
        }
        lemma_listed_sums(exps, init, a);
        assert(keys.map_values(f).drop_last() =~= init.map_values(f));
        assert(keys.map_values(f).last() == f(x));
        assert(i128::MIN <= balance_of(exps, keys[keys.len() - 1]) <= i128::MAX);
        if x == a {
            assert(!init.contains(a)) by {
                if init.contains(a) {
                    let k = choose|k: int| 0 <= k < init.len() && init[k] == a;
                    assert(keys[k] == keys[keys.len() - 1]);
                }
            }
        } else {
            if keys.contains(a) {
                let k = choose|k: int| 0 <= k < keys.len() && keys[k] == a;
                assert(init[k] == a);
            }
            if init.contains(a) {
                let k = choose|k: int| 0 <= k < init.len() && init[k] == a;
                assert(keys[k] == a);
            }
        }
    }
}

/// Settling a group pays every balance exactly: when the residuals of its
/// expenses sum to zero, what the plan over its balances makes each identity
/// receive, less what it makes it pay, is that identity's balance; and the
/// plan holds at most one transfer fewer than there are nonzero balances,
/// each of a positive amount, from an identity with a negative balance to one
/// with a positive balance.
pub proof fn lemma_settlement_pays_every_balance(exps: Seq<Expense>, a: Address)
    requires
        forall|k: int| 0 <= k < exps.len() ==> well_formed_expense(#[trigger] exps[k]),
        amount_total(exps) <= i128::MAX,
        total_residual(exps) == 0,
    ensures
        crate::settle::net_flow(crate::settle::plan(balance_list(exps)), a) == balance_of(exps, a),
        crate::settle::nonzero_count(balance_list(exps)) > 0 ==> crate::settle::plan(
            balance_list(exps),
        ).len() + 1 <= crate::settle::nonzero_count(balance_list(exps)),
        forall|k: int|
            0 <= k < crate::settle::plan(balance_list(exps)).len() ==> #[trigger] crate::settle::plan(
                balance_list(exps),
            )[k].amount > 0,
        forall|k: int|
            0 <= k < crate::settle::plan(balance_list(exps)).len() ==> balance_of(
                exps,
                #[trigger] crate::settle::plan(balance_list(exps))[k].from,
            ) < 0 && balance_of(exps, crate::settle::plan(balance_list(exps))[k].to) > 0,
{
    let p = postings(exps);
    let keys = participants(exps);
    lemma_postings_bounded(exps);
    lemma_first_seen(p, a);
    assert forall|k: int| 0 <= k < keys.len() implies i128::MIN < #[trigger] balance_of(
        exps,
        keys[k],
    ) <= i128::MAX by {
        lemma_posted_bound(p, keys[k]);
    }
    lemma_listed_sums(exps, keys, a);
    lemma_balance_sum_is_residual(exps);
    let b = balance_list(exps);
    assert forall|k: int| 0 <= k < b.len() implies b[k].1 > i128::MIN by {
        assert(b[k] == (keys[k], balance_of(exps, keys[k]) as i128));
    }
    crate::settle::lemma_plan_reproduces_balances(b, a);
    crate::settle::lemma_plan_is_small(b);
    crate::settle::lemma_plan_parties(b);
    let pl = crate::settle::plan(b);
    assert forall|k: int| 0 <= k < pl.len() implies balance_of(exps, #[trigger] pl[k].from) < 0
        && balance_of(exps, pl[k].to) > 0 by {
        let s = pl[k];
        let x = choose|x: int| 0 <= x < b.len() && #[trigger] b[x] == (s.from, b[x].1) && b[x].1 < 0;
        let y = choose|y: int| 0 <= y < b.len() && #[trigger] b[y] == (s.to, b[y].1) && b[y].1 > 0;
        assert(b[x] == (keys[x], balance_of(exps, keys[x]) as i128));
        assert(b[y] == (keys[y], balance_of(exps, keys[y]) as i128));
    }
}

} // verus!
