//! The table of memberships shown at the start of a run.

use vstd::prelude::*;
use vstd::string::*;
use crate::config::member_cents;
use crate::patreon::Member;
use crate::text::{
    fill, fill_exec, pad_left, pad_left_exec, pad_right,
    pad_right_exec, str_lt, text_lt,
};
use crate::utils::{dec_digits, to_decimal};

verus! {

/// A pledge written with two decimals: `19.99` for 1999 cents.
pub open spec fn amount(c: u32) -> Seq<char> {
    let cents = (c % 100) as nat;
    dec_digits((c / 100) as nat) + "."@ + if cents < 10 {
        "0"@ + dec_digits(cents)
    } else {
        dec_digits(cents)
    }
}

pub open spec fn max_int(a: int, b: int) -> int {
    if a < b {
        b
    } else {
        a
    }
}

/// The widest campaign id, at least 11.
pub open spec fn id_width(ms: Seq<Member>) -> int
    decreases ms.len(),
{
    if ms.len() == 0 {
        11
    } else {
        max_int(ms.last().campaign.id@.len() as int, id_width(ms.drop_last()))
    }
}

/// The widest pledge in cents, at least 6.
pub open spec fn cents_width(ms: Seq<Member>) -> int
    decreases ms.len(),
{
    if ms.len() == 0 {
        6
    } else {
        max_int(dec_digits(member_cents(ms.last()) as nat).len() as int, cents_width(ms.drop_last()))
    }
}

/// The widest currency.
pub open spec fn currency_width(ms: Seq<Member>) -> int
    decreases ms.len(),
{
    if ms.len() == 0 {
        0
    } else {
        max_int(ms.last().campaign_currency@.len() as int, currency_width(ms.drop_last()))
    }
}

/// Inserts index `x` after every entry whose name is not greater, so equal
/// names keep their order.
pub open spec fn insert_by_name(ms: Seq<Member>, s: Seq<usize>, x: usize) -> Seq<usize>
    decreases s.len(),
{
    if s.len() == 0 {
        seq![x]
    } else if str_lt(ms[x as int].campaign.name@, ms[s.last() as int].campaign.name@) {
        insert_by_name(ms, s.drop_last(), x).push(s.last())
    } else {
        s.push(x)
    }
}

/// The indices of the first `n` members, stably sorted by campaign name.
pub open spec fn name_order(ms: Seq<Member>, n: nat) -> Seq<usize>
    decreases n,
{
    if n == 0 {
        Seq::empty()
    } else {
        insert_by_name(ms, name_order(ms, (n - 1) as nat), (n - 1) as usize)
    }
}

pub open spec fn header(idw: int, ctw: int) -> Seq<char> {
    "+-"@ + pad_right(" CreatorId "@, idw, '-') + "-+-"@ + pad_right(" Amount "@, ctw, '-')
        + "-+-"@ + " Name "@ + "------- - -"@
}

pub open spec fn row(m: Member, idw: int, cw: int) -> Seq<char> {
    "| "@ + pad_right(m.campaign.id@, idw, ' ') + " | "@ + pad_left(amount(member_cents(m)), cw)
        + " "@ + m.campaign_currency@ + " | "@ + m.campaign.name@
}

pub open spec fn footer(idw: int, ctw: int) -> Seq<char> {
    "+-"@ + fill('-', idw) + "-+-"@ + fill('-', ctw) + "-+-------------- - -"@
}

/// The table: a header, one row per member sorted by campaign name, a footer.
pub open spec fn member_table(ms: Seq<Member>) -> Seq<Seq<char>> {
    let idw = id_width(ms);
    let cw = cents_width(ms);
    let ctw = cw + 1 + currency_width(ms);
    seq![header(idw, ctw)] + name_order(ms, ms.len()).map_values(
        |i: usize| row(ms[i as int], idw, cw),
    ) + seq![footer(idw, ctw)]
}

pub open spec fn below(s: Seq<usize>, n: int) -> bool {
    forall|j: int| 0 <= j < s.len() ==> (#[trigger] s[j]) < n
}

proof fn lemma_insert_by_name_split(ms: Seq<Member>, s: Seq<usize>, x: usize, j: int)
    requires
        0 <= j <= s.len(),
        forall|k: int|
            j <= k < s.len() ==> str_lt(
                ms[x as int].campaign.name@,
                ms[(#[trigger] s[k]) as int].campaign.name@,
            ),
        j == 0 || !str_lt(ms[x as int].campaign.name@, ms[s[j - 1] as int].campaign.name@),
    ensures
        insert_by_name(ms, s, x) == s.take(j).push(x) + s.skip(j),
    decreases s.len() - j,
{
    if j == s.len() {
        if j == 0 {
            assert(s.take(j).push(x) + s.skip(j) =~= seq![x]);
        } else {
            assert(s.take(j).push(x) + s.skip(j) =~= s.push(x));
        }
    } else {
        let t = s.drop_last();
        assert(str_lt(ms[x as int].campaign.name@, ms[s.last() as int].campaign.name@));
        assert forall|k: int| j <= k < t.len() implies str_lt(
            ms[x as int].campaign.name@,
            ms[(#[trigger] t[k]) as int].campaign.name@,
        ) by {
            assert(t[k] == s[k]);
        }
        if j > 0 {
            assert(t[j - 1] == s[j - 1]);
        }
        lemma_insert_by_name_split(ms, t, x, j);
        assert(t.take(j) =~= s.take(j));
        assert((t.take(j).push(x) + t.skip(j)).push(s.last()) =~= s.take(j).push(x) + s.skip(j));
    }
}

proof fn lemma_insert_by_name_below(ms: Seq<Member>, s: Seq<usize>, x: usize, n: int)
    requires
        below(s, n),
        x < n,
    ensures
        below(insert_by_name(ms, s, x), n),
    decreases s.len(),
{
    if s.len() > 0 && str_lt(ms[x as int].campaign.name@, ms[s.last() as int].campaign.name@) {
        lemma_insert_by_name_below(ms, s.drop_last(), x, n);
        let r = insert_by_name(ms, s.drop_last(), x);
        assert forall|j: int| 0 <= j < r.push(s.last()).len() implies (#[trigger] r.push(
            s.last(),
        )[j]) < n by {
            if j < r.len() {
                assert(r.push(s.last())[j] == r[j]);
            }
        }
    } else if s.len() > 0 {
        assert forall|j: int| 0 <= j < s.push(x).len() implies (#[trigger] s.push(x)[j]) < n by {
            if j < s.len() {
                assert(s.push(x)[j] == s[j]);
            }
        }
    }
}

fn amount_exec(c: u32) -> (r: String)
    ensures
        r@ == amount(c),
{
    let mut r = to_decimal((c / 100) as u64);
    r.append(".");
    let cents = c % 100;
    if cents < 10 {
        r.append("0");
    }
    let d = to_decimal(cents as u64);
    r.append(d.as_str());
    r
}

pub open spec fn pow10(k: nat) -> nat
    decreases k,
{
    if k == 0 {
        1
    } else {
        10 * pow10((k - 1) as nat)
    }
}

proof fn lemma_dec_len(n: nat, k: nat)
    requires
        k >= 1,
        n < pow10(k),
    ensures
        dec_digits(n).len() <= k,
    decreases k,
{
    if n >= 10 {
        assert(k >= 2) by {
            if k == 1 {
                assert(pow10(1) == 10 * pow10(0));
            }
        }
        let p = pow10((k - 1) as nat);
        assert(pow10(k) == 10 * p);
        assert(n / 10 < p) by (nonlinear_arith)
            requires
                n < 10 * p,
        ;
        lemma_dec_len(n / 10, (k - 1) as nat);
    }
}

pub proof fn lemma_dec_len_pub(n: nat)
    requires
        n < 0x1_0000_0000,
    ensures
        dec_digits(n).len() <= 10,
{
    reveal_with_fuel(pow10, 11);
    assert(pow10(10) == 10000000000);
    lemma_dec_len(n, 10);
}

proof fn lemma_cents_width_bound(ms: Seq<Member>)
    ensures
        cents_width(ms) <= 10,
    decreases ms.len(),
{
    if ms.len() > 0 {
        lemma_cents_width_bound(ms.drop_last());
        reveal_with_fuel(pow10, 11);
        assert(pow10(10) == 10000000000);
        lemma_dec_len(member_cents(ms.last()) as nat, 10);
    }
}

proof fn lemma_currency_width_bound(ms: Seq<Member>, b: int)
    requires
        b > 0,
        forall|i: int| 0 <= i < ms.len() ==> (#[trigger] ms[i]).campaign_currency@.len() < b,
    ensures
        currency_width(ms) < b,
    decreases ms.len(),
{
    if ms.len() > 0 {
        assert(ms[ms.len() - 1].campaign_currency@.len() < b);
        assert forall|i: int| 0 <= i < ms.drop_last().len() implies (#[trigger] ms.drop_last()[i]).campaign_currency@.len() < b by {
            assert(ms.drop_last()[i] == ms[i]);
        }
        lemma_currency_width_bound(ms.drop_last(), b);
    }
}

/// The lines of the membership table, for the log.
pub fn display_members(members: &Vec<Member>) -> (r: Vec<String>)
    requires
        forall|i: int|
            0 <= i < members@.len() ==> (#[trigger] members@[i]).campaign_currency@.len()
                < usize::MAX - 16,
    ensures
        r@.map_values(|l: String| l@) == member_table(members@),
{
    proof {
        reveal_strlit(" ");
        reveal_strlit("-");
    }
    let ghost ms = members@;
    let mut idw: usize = 11;
    let mut cw: usize = 6;
    let mut curw: usize = 0;
    let mut i: usize = 0;
    while i < members.len()
        invariant
            0 <= i <= members.len(),
            ms == members@,
            idw as int == id_width(ms.take(i as int)),
            cw as int == cents_width(ms.take(i as int)),
            curw as int == currency_width(ms.take(i as int)),
        decreases members.len() - i,
    {
        assert(ms.take(i + 1).drop_last() =~= ms.take(i as int));
        let m = &members[i];
        let l1 = m.campaign.id.as_str().unicode_len();
        if l1 > idw {
            idw = l1;
        }
        let l2 = to_decimal(m.cents() as u64).as_str().unicode_len();
        if l2 > cw {
            cw = l2;
        }
        let l3 = m.campaign_currency.as_str().unicode_len();
        if l3 > curw {
            curw = l3;
        }
        i = i + 1;
    }
    assert(ms.take(ms.len() as int) =~= ms);
    let mut order: Vec<usize> = Vec::new();
    let mut k: usize = 0;
    while k < members.len()
        invariant
            0 <= k <= members.len(),
            ms == members@,
            order@ == name_order(ms, k as nat),
            below(order@, k as int),
        decreases members.len() - k,
    {
        proof {
            lemma_insert_by_name_below(ms, order@, k, k + 1);
        }
        let mut j = order.len();
        while j > 0 && text_lt(
            members[k].campaign.name.as_str(),
            members[order[j - 1]].campaign.name.as_str(),
        )
            invariant
                0 <= j <= order.len(),
                k < members.len(),
                ms == members@,
                below(order@, k as int),
                order@ == name_order(ms, k as nat),
                forall|q: int|
                    j <= q < order.len() ==> str_lt(
                        ms[k as int].campaign.name@,
                        ms[(#[trigger] order@[q]) as int].campaign.name@,
                    ),
            decreases j,
        {
            j = j - 1;
        }
        proof {
            lemma_insert_by_name_split(ms, order@, k, j as int);
        }
        let ghost before = order@;
        order.insert(j, k);
        assert(order@ =~= before.take(j as int).push(k) + before.skip(j as int));
        k = k + 1;
    }
    proof {
        lemma_cents_width_bound(ms);
        lemma_currency_width_bound(ms, usize::MAX - 16);
    }
    let ctw = cw + 1 + curw;
    let mut lines: Vec<String> = Vec::new();
    let mut h = String::from_str("+-");
    let id_head = pad_right_exec(" CreatorId ", idw, "-");
    h.append(id_head.as_str());
    h.append("-+-");
    let amount_head = pad_right_exec(" Amount ", ctw, "-");
    h.append(amount_head.as_str());
    h.append("-+-");
    h.append(" Name ");
    h.append("------- - -");
    lines.push(h);
    let ghost g = |q: usize| row(ms[q as int], idw as int, cw as int);
    let mut q: usize = 0;
    while q < order.len()
        invariant
            0 <= q <= order.len(),
            ms == members@,
            order@ == name_order(ms, ms.len()),
            below(order@, ms.len() as int),
            g == (|q: usize| row(ms[q as int], idw as int, cw as int)),
            lines@.len() == q + 1,
            lines@[0]@ == header(idw as int, ctw as int),
            " "@ == seq![' '],
            idw as int == id_width(ms),
            cw as int == cents_width(ms),
            forall|t: int| 0 <= t < q ==> (#[trigger] lines@[t + 1])@ == g(order@[t]),
        decreases order.len() - q,
    {
        let m = &members[order[q]];
        let mut l = String::from_str("| ");
        let a = pad_right_exec(m.campaign.id.as_str(), idw, " ");
        l.append(a.as_str());
        l.append(" | ");
        let b = pad_left_exec(amount_exec(m.cents()).as_str(), cw);
        l.append(b.as_str());
        l.append(" ");
        l.append(m.campaign_currency.as_str());
        l.append(" | ");
        l.append(m.campaign.name.as_str());
        assert(order@[q as int] < ms.len());
        assert(l@ =~= g(order@[q as int]));
        let ghost before = lines@;
        lines.push(l);
        assert forall|t: int| 0 <= t < q + 1 implies (#[trigger] lines@[t + 1])@ == g(order@[t]) by {
            if t < q {
                assert(lines@[t + 1] == before[t + 1]);
            }
        }
        q = q + 1;
    }
    let mut f = String::from_str("+-");
    f.append(fill_exec("-", idw).as_str());
    f.append("-+-");
    f.append(fill_exec("-", ctw).as_str());
    f.append("-+-------------- - -");
    lines.push(f);
    let ghost mt = member_table(members@);
    assert(f@ =~= footer(idw as int, ctw as int));
    assert(mt.len() == lines@.len());
    assert forall|t: int| 0 <= t < lines@.len() implies lines@.map_values(|l: String| l@)[t] == mt[t] by {
        if t > 0 && t < lines@.len() - 1 {
            assert(lines@[(t - 1) + 1]@ == g(order@[t - 1]));
        }
    }
    assert(lines@.map_values(|l: String| l@) =~= member_table(members@));
    lines
}

} // verus!
