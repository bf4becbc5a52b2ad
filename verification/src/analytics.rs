//! Batch analytics over sales records, sequentially and in parallel.

use rayon::iter::{IntoParallelRefIterator, ParallelIterator};
use vstd::prelude::*;

use crate::tickets::{count_tier, tier_price, Sale, TicketTier};

verus! {

/// Multiplier of the order id in the seed of the risk mix.
pub const ORDER_MIX: u64 = 0x9E37_79B9_7F4A_7C15;

/// Multiplier of the customer id in the seed, and first multiplier of each round.
pub const STEP_MIX_A: u64 = 0xBF58_476D_1CE4_E5B9;

/// Multiplier of the ticket id in the seed, and second multiplier of each round.
pub const STEP_MIX_B: u64 = 0x94D0_49BB_1331_11EB;

/// The value that the risk mix starts from.
pub open spec fn risk_seed(s: Sale) -> u64 {
    (s.order_id as u64).wrapping_mul(ORDER_MIX) ^ (s.customer_id as u64).wrapping_mul(STEP_MIX_A)
        ^ (s.ticket_id as u64).wrapping_mul(STEP_MIX_B) ^ s.price_cents
}

/// One round of the risk mix.
pub open spec fn mix_round(v: u64, round: u64) -> u64 {
    let v1 = v ^ (v >> 30u64);
    let v2 = v1.wrapping_mul(STEP_MIX_A);
    let v3 = v2 ^ (v2 >> 27u64);
    let v4 = v3.wrapping_mul(STEP_MIX_B);
    let v5 = v4 ^ (v4 >> 31u64);
    v5 ^ round
}

/// The first `n` rounds of the risk mix, applied to `v`.
pub open spec fn mix_rounds(v: u64, n: nat) -> u64
    decreases n,
{
    if n == 0 {
        v
    } else {
        mix_round(mix_rounds(v, (n - 1) as nat), (n - 1) as u64)
    }
}

/// The risk score of a sale: 32 rounds of the mix, reduced to `0..1000`.
pub open spec fn risk_score(s: Sale) -> u32 {
    (mix_rounds(risk_seed(s), 32) % 1000) as u32
}

/// The risk score of `sale`, in `0..1000`.
pub fn calculate_risk_score(sale: &Sale) -> (r: u32)
    ensures
        r == risk_score(*sale),
        r < 1000,
{
    let mut value: u64 = (sale.order_id as u64).wrapping_mul(ORDER_MIX) ^ (
    sale.customer_id as u64).wrapping_mul(STEP_MIX_A) ^ (sale.ticket_id as u64).wrapping_mul(
        STEP_MIX_B,
    ) ^ sale.price_cents;
    let mut round: u64 = 0;
    while round < 32
        invariant
            round <= 32,
            value == mix_rounds(risk_seed(*sale), round as nat),
        decreases 32 - round,
    {
        value = value ^ (value >> 30u64);
        value = value.wrapping_mul(STEP_MIX_A);
        value = value ^ (value >> 27u64);
        value = value.wrapping_mul(STEP_MIX_B);
        value = value ^ (value >> 31u64);
        value = value ^ round;
        round = round + 1;
    }
    (value % 1000) as u32
}

/// The products in a sale's checksum all fit in `u64`.
pub open spec fn checksum_fits(s: Sale) -> bool {
    &&& s.order_id * 31 <= u64::MAX
    &&& s.customer_id * 17 <= u64::MAX
    &&& s.source_id * 13 <= u64::MAX
    &&& s.ticket_id * 7 <= u64::MAX
}

/// A sale's contribution to the checksum.
pub open spec fn checksum_term(s: Sale, risk: u32) -> u64 {
    ((s.order_id * 31) as u64) ^ ((s.customer_id * 17) as u64) ^ ((s.source_id * 13) as u64) ^ ((
    s.ticket_id * 7) as u64) ^ s.price_cents ^ (risk as u64)
}

/// A sale's contribution to the checksum, given its risk score.
pub fn sale_checksum(sale: &Sale, risk_score: u32) -> (c: u64)
    requires
        checksum_fits(*sale),
    ensures
        c == checksum_term(*sale, risk_score),
{
    (sale.order_id as u64 * 31) ^ (sale.customer_id as u64 * 17) ^ (sale.source_id as u64 * 13) ^ (
    sale.ticket_id as u64 * 7) ^ sale.price_cents ^ risk_score as u64
}

/// A sale is flagged for manual review at a risk of 985 or more, or 950 or
/// more for a VIP ticket.
pub open spec fn needs_review(s: Sale) -> bool {
    let risk = risk_score(s);
    risk >= 985 || (s.tier == TicketTier::Vip && risk >= 950)
}

/// Sales at or above this price, in cents, count as high value.
pub const HIGH_VALUE_CENTS: u64 = 3_800;

/// The figures gathered from a run of sales.
#[verifier::ext_equal]
pub struct Tally {
    pub records: nat,
    pub revenue: nat,
    pub regular: nat,
    pub vip: nat,
    pub high_value: nat,
    pub review: nat,
    pub per_source: Seq<nat>,
    pub checksum: u64,
}

pub open spec fn one_if(b: bool) -> nat {
    if b {
        1
    } else {
        0
    }
}

/// The figures of no sale, with `sources` sources.
pub open spec fn empty_tally(sources: nat) -> Tally {
    Tally {
        records: 0,
        revenue: 0,
        regular: 0,
        vip: 0,
        high_value: 0,
        review: 0,
        per_source: Seq::new(sources, |i: int| 0nat),
        checksum: 0,
    }
}

/// The figures `t` with sale `s` added.
pub open spec fn add_sale(t: Tally, s: Sale) -> Tally {
    Tally {
        records: t.records + 1,
        revenue: t.revenue + s.price_cents as nat,
        regular: t.regular + one_if(s.tier == TicketTier::Regular),
        vip: t.vip + one_if(s.tier == TicketTier::Vip),
        high_value: t.high_value + one_if(s.price_cents >= HIGH_VALUE_CENTS),
        review: t.review + one_if(needs_review(s)),
        per_source: t.per_source.update(s.source_id as int, t.per_source[s.source_id as int] + 1),
        checksum: t.checksum ^ checksum_term(s, risk_score(s)),
    }
}

/// The figures `a` and `b` together; counts of sources past the end of `a` are dropped.
pub open spec fn merge_tally(a: Tally, b: Tally) -> Tally {
    Tally {
        records: a.records + b.records,
        revenue: a.revenue + b.revenue,
        regular: a.regular + b.regular,
        vip: a.vip + b.vip,
        high_value: a.high_value + b.high_value,
        review: a.review + b.review,
        per_source: Seq::new(
            a.per_source.len(),
            |i: int|
                if i < b.per_source.len() {
                    a.per_source[i] + b.per_source[i]
                } else {
                    a.per_source[i]
                },
        ),
        checksum: a.checksum ^ b.checksum,
    }
}

/// The figures of `sales`, added in order, with `sources` sources.
pub open spec fn tally_of(sources: nat, sales: Seq<Sale>) -> Tally
    decreases sales.len(),
{
    if sales.len() == 0 {
        empty_tally(sources)
    } else {
        add_sale(tally_of(sources, sales.drop_last()), sales.last())
    }
}

/// Sum of the prices of `sales`.
pub open spec fn revenue_of(sales: Seq<Sale>) -> nat
    decreases sales.len(),
{
    if sales.len() == 0 {
        0
    } else {
        revenue_of(sales.drop_last()) + sales.last().price_cents as nat
    }
}

/// The sales can be analysed with `sources` sources: each comes from one of
/// them, its checksum terms fit, and the total revenue fits in `u64`.
pub open spec fn sales_fit(sales: Seq<Sale>, sources: nat) -> bool {
    &&& forall|i: int| 0 <= i < sales.len() ==> #[trigger] sales[i].source_id < sources
    &&& forall|i: int| 0 <= i < sales.len() ==> checksum_fits(#[trigger] sales[i])
    &&& revenue_of(sales) <= u64::MAX
}

/// Sum of a sequence of counts.
pub open spec fn sum_counts(cs: Seq<nat>) -> nat
    decreases cs.len(),
{
    if cs.len() == 0 {
        0
    } else {
        sum_counts(cs.drop_last()) + cs.last()
    }
}

/// The counts in `t` agree with each other.
pub open spec fn consistent(t: Tally) -> bool {
    &&& t.regular + t.vip == t.records
    &&& t.high_value <= t.records
    &&& t.review <= t.records
    &&& forall|i: int| 0 <= i < t.per_source.len() ==> #[trigger] t.per_source[i] <= t.records
}

/// Running totals over a batch of sales.
pub struct AnalyticsAccumulator {
    records: usize,
    revenue_cents: u64,
    regular_sales: usize,
    vip_sales: usize,
    high_value_sales: usize,
    review_required: usize,
    per_source_sales: Vec<usize>,
    checksum: u64,
}

impl AnalyticsAccumulator {
    /// The figures gathered so far.
    pub closed spec fn tally(&self) -> Tally {
        Tally {
            records: self.records as nat,
            revenue: self.revenue_cents as nat,
            regular: self.regular_sales as nat,
            vip: self.vip_sales as nat,
            high_value: self.high_value_sales as nat,
            review: self.review_required as nat,
            per_source: self.per_source_sales@.map_values(|c: usize| c as nat),
            checksum: self.checksum,
        }
    }

    /// An accumulator of no sale, with `sources` sources.
    pub fn new(sources: usize) -> (a: AnalyticsAccumulator)
        ensures
            a.tally() == empty_tally(sources as nat),
    {
        let mut per_source_sales: Vec<usize> = Vec::new();
        let mut i: usize = 0;
        while i < sources
            invariant
                i <= sources,
                per_source_sales@.len() == i,
                forall|k: int| 0 <= k < i ==> per_source_sales@[k] == 0,
            decreases sources - i,
        {
            per_source_sales.push(0);
            i = i + 1;
        }
        let a = AnalyticsAccumulator {
            records: 0,
            revenue_cents: 0,
            regular_sales: 0,
            vip_sales: 0,
            high_value_sales: 0,
            review_required: 0,
            per_source_sales,
            checksum: 0,
        };
        assert(a.tally() =~= empty_tally(sources as nat));
        a
    }

    /// Adds one sale to the totals.
    pub fn record_sale(&mut self, sale: &Sale)
        requires
            consistent(old(self).tally()),
            old(self).tally().records < usize::MAX,
            old(self).tally().revenue + sale.price_cents <= u64::MAX,
            sale.source_id < old(self).tally().per_source.len(),
            checksum_fits(*sale),
        ensures
            consistent(final(self).tally()),
            final(self).tally() == add_sale(old(self).tally(), *sale),
    {
        let ghost before = self.tally();
        self.records = self.records + 1;
        self.revenue_cents = self.revenue_cents + sale.price_cents;
        let count = self.per_source_sales[sale.source_id];
        assert(before.per_source[sale.source_id as int] == count);
        self.per_source_sales.set(sale.source_id, count + 1);
        match sale.tier {
            TicketTier::Regular => self.regular_sales = self.regular_sales + 1,
            TicketTier::Vip => self.vip_sales = self.vip_sales + 1,
        }
        if sale.price_cents >= HIGH_VALUE_CENTS {
            self.high_value_sales = self.high_value_sales + 1;
        }
        let risk = calculate_risk_score(sale);
        if risk >= 985 || (sale.tier == TicketTier::Vip && risk >= 950) {
            self.review_required = self.review_required + 1;
        }
        self.checksum = self.checksum ^ sale_checksum(sale, risk);
        assert(self.tally().per_source =~= add_sale(before, *sale).per_source);
        assert(self.tally() =~= add_sale(before, *sale));
    }

    /// The accumulator with one more sale added; the step of a fold.
    pub fn fold_step(self, sale: &Sale) -> (a: AnalyticsAccumulator)
        requires
            consistent(self.tally()),
            self.tally().records < usize::MAX,
            self.tally().revenue + sale.price_cents <= u64::MAX,
            sale.source_id < self.tally().per_source.len(),
            checksum_fits(*sale),
        ensures
            consistent(a.tally()),
            a.tally() == add_sale(self.tally(), *sale),
    {
        let mut a = self;
        a.record_sale(sale);
        a
    }

    /// The totals of two accumulators together.
    pub fn merge(self, other: AnalyticsAccumulator) -> (m: AnalyticsAccumulator)
        requires
            consistent(self.tally()),
            consistent(other.tally()),
            other.tally().per_source.len() <= self.tally().per_source.len(),
            self.tally().records + other.tally().records <= usize::MAX,
            self.tally().revenue + other.tally().revenue <= u64::MAX,
        ensures
            consistent(m.tally()),
            m.tally() == merge_tally(self.tally(), other.tally()),
    {
        let ghost a = self.tally();
        let ghost b = other.tally();
        let mut m = self;
        m.records = m.records + other.records;
        m.revenue_cents = m.revenue_cents + other.revenue_cents;
        m.regular_sales = m.regular_sales + other.regular_sales;
        m.vip_sales = m.vip_sales + other.vip_sales;
        m.high_value_sales = m.high_value_sales + other.high_value_sales;
        m.review_required = m.review_required + other.review_required;
        m.checksum = m.checksum ^ other.checksum;
        let mut index: usize = 0;
        let n = other.per_source_sales.len();
        while index < n
            invariant
                n == other.per_source_sales@.len(),
                n <= m.per_source_sales@.len(),
                m.per_source_sales@.len() == a.per_source.len(),
                index <= n,
                a == self.tally(),
                b == other.tally(),
                consistent(a),
                consistent(b),
                m.records == a.records + b.records,
                m.revenue_cents == a.revenue + b.revenue,
                m.regular_sales == a.regular + b.regular,
                m.vip_sales == a.vip + b.vip,
                m.high_value_sales == a.high_value + b.high_value,
                m.review_required == a.review + b.review,
                m.checksum == a.checksum ^ b.checksum,
                forall|i: int|
                    0 <= i < index ==> #[trigger] m.per_source_sales@[i] == a.per_source[i]
                        + b.per_source[i],
                forall|i: int|
                    index <= i < m.per_source_sales@.len() ==> #[trigger] m.per_source_sales@[i]
                        == a.per_source[i],
            decreases n - index,
        {
            let count = other.per_source_sales[index];
            let current = m.per_source_sales[index];
            assert(a.per_source[index as int] <= a.records);
            assert(b.per_source[index as int] <= b.records);
            m.per_source_sales.set(index, current + count);
            index = index + 1;
        }
        assert(m.tally().per_source =~= merge_tally(a, b).per_source);
        assert(m.tally() =~= merge_tally(a, b));
        m
    }
}


/// The number of sales is the record count, each sale counts once under its
/// tier and once under its source, and the revenue is the sum of the prices.
pub proof fn lemma_tally_facts(sources: nat, sales: Seq<Sale>)
    requires
        forall|i: int| 0 <= i < sales.len() ==> #[trigger] sales[i].source_id < sources,
    ensures
        tally_of(sources, sales).per_source.len() == sources,
        tally_of(sources, sales).records == sales.len(),
        tally_of(sources, sales).revenue == revenue_of(sales),
        sum_counts(tally_of(sources, sales).per_source) == sales.len(),
        consistent(tally_of(sources, sales)),
    decreases sales.len(),
{
    if sales.len() == 0 {
        lemma_sum_zeros(sources);
    } else {
        let rest = sales.drop_last();
        assert forall|i: int| 0 <= i < rest.len() implies #[trigger] rest[i].source_id < sources by {
            assert(rest[i] == sales[i]);
        }
        lemma_tally_facts(sources, rest);
        let t = tally_of(sources, rest);
        assert(sales[sales.len() - 1].source_id < sources);
        lemma_sum_bump(t.per_source, sales.last().source_id as int);
    }
}

proof fn lemma_sum_zeros(n: nat)
    ensures
        sum_counts(Seq::new(n, |i: int| 0nat)) == 0,
    decreases n,
{
    if n > 0 {
        assert(Seq::new(n, |i: int| 0nat).drop_last() =~= Seq::new((n - 1) as nat, |i: int| 0nat));
        lemma_sum_zeros((n - 1) as nat);
    }
}

proof fn lemma_sum_bump(cs: Seq<nat>, i: int)
    requires
        0 <= i < cs.len(),
    ensures
        sum_counts(cs.update(i, cs[i] + 1)) == sum_counts(cs) + 1,
    decreases cs.len(),
{
    let u = cs.update(i, cs[i] + 1);
    if i == cs.len() - 1 {
        assert(u.drop_last() =~= cs.drop_last());
    } else {
        assert(u.drop_last() =~= cs.drop_last().update(i, cs[i] + 1));
        lemma_sum_bump(cs.drop_last(), i);
    }
}

/// The tier counts are the numbers of Regular and of VIP sales, the high-value
/// count the number of sales at or above the high-value price, the review count
/// the number of sales that need review, and each source's count the number of
/// its sales.
pub proof fn lemma_tally_counts(sources: nat, sales: Seq<Sale>)
    requires
        forall|i: int| 0 <= i < sales.len() ==> #[trigger] sales[i].source_id < sources,
    ensures
        tally_of(sources, sales).regular == count_tier(sales, TicketTier::Regular),
        tally_of(sources, sales).vip == count_tier(sales, TicketTier::Vip),
        tally_of(sources, sales).high_value == sales.filter(
            |s: Sale| s.price_cents >= HIGH_VALUE_CENTS,
        ).len(),
        tally_of(sources, sales).review == sales.filter(|s: Sale| needs_review(s)).len(),
        tally_of(sources, sales).per_source.len() == sources,
        forall|k: int|
            0 <= k < sources ==> #[trigger] tally_of(sources, sales).per_source[k] == sales.filter(
                |s: Sale| s.source_id == k,
            ).len(),
    decreases sales.len(),
{
    reveal(Seq::filter);
    if sales.len() > 0 {
        let rest = sales.drop_last();
        assert forall|i: int| 0 <= i < rest.len() implies #[trigger] rest[i].source_id < sources by {
            assert(rest[i] == sales[i]);
        }
        lemma_tally_counts(sources, rest);
        assert(sales[sales.len() - 1].source_id < sources);
        let t = tally_of(sources, rest);
        let last = sales.last();
        assert forall|k: int| 0 <= k < sources implies #[trigger] tally_of(
            sources,
            sales,
        ).per_source[k] == sales.filter(|s: Sale| s.source_id == k).len() by {
            assert(t.per_source[k] == rest.filter(|s: Sale| s.source_id == k).len());
        }
    }
}

/// The revenue of a prefix is at most the revenue of the whole.
pub proof fn lemma_revenue_prefix(sales: Seq<Sale>, k: int)
    requires
        0 <= k <= sales.len(),
    ensures
        revenue_of(sales.take(k)) <= revenue_of(sales),
    decreases sales.len(),
{
    if k < sales.len() {
        assert(sales.drop_last().take(k) =~= sales.take(k));
        lemma_revenue_prefix(sales.drop_last(), k);
    } else {
        assert(sales.take(k) =~= sales);
    }
}

proof fn lemma_add_after_merge(a: Tally, b: Tally, s: Sale)
    requires
        a.per_source.len() == b.per_source.len(),
        s.source_id < b.per_source.len(),
    ensures
        add_sale(merge_tally(a, b), s) == merge_tally(a, add_sale(b, s)),
{
    let l = add_sale(merge_tally(a, b), s);
    let r = merge_tally(a, add_sale(b, s));
    assert(l.per_source =~= r.per_source);
    let x = a.checksum;
    let y = b.checksum;
    let z = checksum_term(s, risk_score(s));
    assert((x ^ y) ^ z == x ^ (y ^ z)) by (bit_vector);
    assert(l =~= r);
}

proof fn lemma_merge_empty(a: Tally, n: nat)
    requires
        a.per_source.len() == n,
    ensures
        merge_tally(a, empty_tally(n)) == a,
{
    let m = merge_tally(a, empty_tally(n));
    assert(m.per_source =~= a.per_source);
    let x = a.checksum;
    assert(x ^ 0u64 == x) by (bit_vector);
    assert(m =~= a);
}

/// Merging figures of the same sources is commutative, associative, and has
/// the figures of no sale as identity on both sides.
pub proof fn lemma_merge_laws(a: Tally, b: Tally, c: Tally, n: nat)
    requires
        a.per_source.len() == n,
        b.per_source.len() == n,
        c.per_source.len() == n,
    ensures
        merge_tally(a, b) == merge_tally(b, a),
        merge_tally(merge_tally(a, b), c) == merge_tally(a, merge_tally(b, c)),
        merge_tally(a, empty_tally(n)) == a,
        merge_tally(empty_tally(n), a) == a,
{
    let (x, y, z) = (a.checksum, b.checksum, c.checksum);
    assert(x ^ y == y ^ x) by (bit_vector);
    assert((x ^ y) ^ z == x ^ (y ^ z)) by (bit_vector);
    assert(0u64 ^ x == x) by (bit_vector);
    assert(merge_tally(a, b).per_source =~= merge_tally(b, a).per_source);
    assert(merge_tally(a, b) =~= merge_tally(b, a));
    assert(merge_tally(merge_tally(a, b), c).per_source =~= merge_tally(
        a,
        merge_tally(b, c),
    ).per_source);
    assert(merge_tally(merge_tally(a, b), c) =~= merge_tally(a, merge_tally(b, c)));
    lemma_merge_empty(a, n);
    assert(merge_tally(empty_tally(n), a).per_source =~= a.per_source);
    assert(merge_tally(empty_tally(n), a) =~= a);
}

/// Splitting the sales in two, gathering the figures of each part and merging
/// them gives the figures of the whole.
pub proof fn lemma_tally_concat(sources: nat, s1: Seq<Sale>, s2: Seq<Sale>)
    requires
        forall|i: int| 0 <= i < s1.len() ==> #[trigger] s1[i].source_id < sources,
        forall|i: int| 0 <= i < s2.len() ==> #[trigger] s2[i].source_id < sources,
    ensures
        tally_of(sources, s1 + s2) == merge_tally(tally_of(sources, s1), tally_of(sources, s2)),
    decreases s2.len(),
{
    lemma_tally_facts(sources, s1);
    if s2.len() == 0 {
        assert(s1 + s2 =~= s1);
        lemma_merge_empty(tally_of(sources, s1), sources);
    } else {
        let rest = s2.drop_last();
        assert forall|i: int| 0 <= i < rest.len() implies #[trigger] rest[i].source_id < sources by {
            assert(rest[i] == s2[i]);
        }
        lemma_tally_concat(sources, s1, rest);
        lemma_tally_facts(sources, rest);
        assert((s1 + s2).drop_last() =~= s1 + rest);
        assert((s1 + s2).last() == s2.last());
        assert(s2[s2.len() - 1].source_id < sources);
        lemma_add_after_merge(tally_of(sources, s1), tally_of(sources, rest), s2.last());
    }
}

/// How a parallel fold and reduce may combine the sales: contiguous pieces
/// each folded from fresh figures, adjacent results merged left to right, and
/// fresh figures put in anywhere.
pub enum FoldTree {
    Fresh,
    Piece(Seq<Sale>),
    Join(Box<FoldTree>, Box<FoldTree>),
}

/// The sales a tree covers, in order.
pub open spec fn tree_items(t: FoldTree) -> Seq<Sale>
    decreases t,
{
    match t {
        FoldTree::Fresh => Seq::empty(),
        FoldTree::Piece(s) => s,
        FoldTree::Join(l, r) => tree_items(*l) + tree_items(*r),
    }
}

/// The figures a tree computes.
pub open spec fn tree_value(sources: nat, t: FoldTree) -> Tally
    decreases t,
{
    match t {
        FoldTree::Fresh => empty_tally(sources),
        FoldTree::Piece(s) => tally_of(sources, s),
        FoldTree::Join(l, r) => merge_tally(tree_value(sources, *l), tree_value(sources, *r)),
    }
}

/// However the sales are split into pieces and the pieces' figures merged,
/// the result is the figures of the sales taken in order: parallel and
/// sequential analysis agree.
pub proof fn lemma_any_split_agrees(sources: nat, t: FoldTree)
    requires
        forall|i: int|
            0 <= i < tree_items(t).len() ==> #[trigger] tree_items(t)[i].source_id < sources,
    ensures
        tree_value(sources, t) == tally_of(sources, tree_items(t)),
    decreases t,
{
    match t {
        FoldTree::Fresh => {
        },
        FoldTree::Piece(s) => {
        },
        FoldTree::Join(l, r) => {
            let li = tree_items(*l);
            let ri = tree_items(*r);
            assert(tree_items(t) == li + ri);
            assert forall|i: int| 0 <= i < li.len() implies #[trigger] li[i].source_id
                < sources by {
                assert(tree_items(t)[i] == li[i]);
            }
            assert forall|i: int| 0 <= i < ri.len() implies #[trigger] ri[i].source_id
                < sources by {
                assert(tree_items(t)[li.len() + i] == ri[i]);
            }
            lemma_any_split_agrees(sources, *l);
            lemma_any_split_agrees(sources, *r);
            lemma_tally_concat(sources, li, ri);
        },
    }
}

/// The source with the most sales, and its count; on a tie the last such
/// source; `(0, 0)` when there is no source.
pub open spec fn busiest(cs: Seq<nat>) -> (nat, nat)
    decreases cs.len(),
{
    if cs.len() == 0 {
        (0, 0)
    } else {
        let prev = busiest(cs.drop_last());
        if cs.len() == 1 || cs.last() >= prev.1 {
            ((cs.len() - 1) as nat, cs.last())
        } else {
            prev
        }
    }
}

/// The busiest source has the most sales, and no later source has as many.
pub proof fn lemma_busiest(cs: Seq<nat>)
    requires
        cs.len() > 0,
    ensures
        busiest(cs).0 < cs.len(),
        cs[busiest(cs).0 as int] == busiest(cs).1,
        forall|k: int| 0 <= k < cs.len() ==> #[trigger] cs[k] <= busiest(cs).1,
        forall|k: int| busiest(cs).0 < k < cs.len() ==> #[trigger] cs[k] < busiest(cs).1,
    decreases cs.len(),
{
    if cs.len() > 1 {
        let rest = cs.drop_last();
        lemma_busiest(rest);
        assert forall|k: int| 0 <= k < rest.len() implies #[trigger] cs[k] == rest[k] by {}
    }
}

/// The final figures of a batch.
#[derive(Debug, Clone, PartialEq, Eq)]
pub struct AnalyticsResult {
    pub records: usize,
    pub revenue_cents: u64,
    pub regular_sales: usize,
    pub vip_sales: usize,
    pub high_value_sales: usize,
    pub review_required: usize,
    pub busiest_source: usize,
    pub busiest_source_sales: usize,
    pub per_source_sales: Vec<usize>,
    pub checksum: u64,
}

/// `r` reports the figures `t`.
pub open spec fn describes(r: AnalyticsResult, t: Tally) -> bool {
    &&& r.records == t.records
    &&& r.revenue_cents == t.revenue
    &&& r.regular_sales == t.regular
    &&& r.vip_sales == t.vip
    &&& r.high_value_sales == t.high_value
    &&& r.review_required == t.review
    &&& r.per_source_sales@.map_values(|c: usize| c as nat) == t.per_source
    &&& r.busiest_source == busiest(t.per_source).0
    &&& r.busiest_source_sales == busiest(t.per_source).1
    &&& r.checksum == t.checksum
}

impl AnalyticsAccumulator {
    /// The final figures, with the busiest source.
    pub fn finalize(self) -> (r: AnalyticsResult)
        ensures
            describes(r, self.tally()),
    {
        let ghost cs = self.tally().per_source;
        let n = self.per_source_sales.len();
        let mut best: usize = 0;
        let mut best_count: usize = 0;
        let mut i: usize = 0;
        assert(cs.take(0) =~= Seq::<nat>::empty());
        while i < n
            invariant
                n == self.per_source_sales@.len(),
                cs == self.tally().per_source,
                i <= n,
                (best as nat, best_count as nat) == busiest(cs.take(i as int)),
            decreases n - i,
        {
            let count = self.per_source_sales[i];
            assert(cs.take(i + 1).drop_last() =~= cs.take(i as int));
            if i == 0 || count >= best_count {
                best = i;
                best_count = count;
            }
            i = i + 1;
        }
        assert(cs.take(n as int) =~= cs);
        AnalyticsResult {
            records: self.records,
            revenue_cents: self.revenue_cents,
            regular_sales: self.regular_sales,
            vip_sales: self.vip_sales,
            high_value_sales: self.high_value_sales,
            review_required: self.review_required,
            busiest_source: best,
            busiest_source_sales: best_count,
            per_source_sales: self.per_source_sales,
            checksum: self.checksum,
        }
    }
}

/// The figures of `sales`, gathered one sale after the other.
pub fn analyze_sales_sequential(sales: &[Sale], sources: usize) -> (r: AnalyticsResult)
    requires
        sales_fit(sales@, sources as nat),
    ensures
        describes(r, tally_of(sources as nat, sales@)),
        r.records == sales@.len(),
        r.regular_sales == count_tier(sales@, TicketTier::Regular),
        r.vip_sales == count_tier(sales@, TicketTier::Vip),
{
    proof {
        lemma_tally_counts(sources as nat, sales@);
        lemma_tally_facts(sources as nat, sales@);
    }
    let mut acc = AnalyticsAccumulator::new(sources);
    let mut i: usize = 0;
    assert(sales@.take(0) =~= Seq::<Sale>::empty());
    while i < sales.len()
        invariant
            i <= sales.len(),
            sales_fit(sales@, sources as nat),
            acc.tally() == tally_of(sources as nat, sales@.take(i as int)),
            consistent(acc.tally()),
        decreases sales.len() - i,
    {
        let ghost prefix = sales@.take(i as int);
        let ghost next = sales@.take(i + 1);
        proof {
            assert(next.drop_last() =~= prefix);
            assert forall|k: int| 0 <= k < prefix.len() implies #[trigger] prefix[k].source_id
                < sources by {
                assert(prefix[k] == sales@[k]);
            }
            assert forall|k: int| 0 <= k < next.len() implies #[trigger] next[k].source_id
                < sources by {
                assert(next[k] == sales@[k]);
            }
            lemma_tally_facts(sources as nat, prefix);
            lemma_tally_facts(sources as nat, next);
            lemma_revenue_prefix(sales@, i + 1);
            assert(sales@[i as int].source_id < sources);
            assert(checksum_fits(sales@[i as int]));
        }
        acc.record_sale(&sales[i]);
        i = i + 1;
    }
    assert(sales@.take(sales@.len() as int) =~= sales@);
    acc.finalize()
}

/// `f` is what some tree over `sales`, in order, computes.
pub open spec fn parallel_outcome(sources: nat, sales: Seq<Sale>, f: Tally) -> bool {
    exists|t: FoldTree| tree_items(t) == sales && #[trigger] tree_value(sources, t) == f
}

/// `rayon`'s `par_iter().fold(..).reduce(..)` on `sales`, with a fresh
/// accumulator as the identity of both, `fold_step` as the fold operation and
/// `merge` as the reduce operation. As rayon's source shows, the slice is split
/// into contiguous pieces; each piece is folded in order from a fresh
/// accumulator; results of adjacent parts are merged left to right, with fresh
/// accumulators put in as needed. The contract claims exactly that: the result
/// is the value of some such tree over the sales in order. Each operation is
/// then called on figures of a part of `sales`, where its `requires` holds.
#[verifier::external_body]
fn fold_in_parallel(sales: &[Sale], sources: usize) -> (acc: AnalyticsAccumulator)
    requires
        sales_fit(sales@, sources as nat),
    ensures
        parallel_outcome(sources as nat, sales@, acc.tally()),
{
    sales.par_iter().fold(
        || AnalyticsAccumulator::new(sources),
        |acc, sale| acc.fold_step(sale),
    ).reduce(|| AnalyticsAccumulator::new(sources), |left, right| left.merge(right))
}

/// The figures of `sales`, gathered in parallel.
pub fn analyze_sales_parallel(sales: &[Sale], sources: usize) -> (r: AnalyticsResult)
    requires
        sales_fit(sales@, sources as nat),
    ensures
        describes(r, tally_of(sources as nat, sales@)),
        r.records == sales@.len(),
        r.regular_sales == count_tier(sales@, TicketTier::Regular),
        r.vip_sales == count_tier(sales@, TicketTier::Vip),
{
    proof {
        lemma_tally_counts(sources as nat, sales@);
        lemma_tally_facts(sources as nat, sales@);
    }
    let acc = fold_in_parallel(sales, sources);
    proof {
        let t = choose|t: FoldTree|
            tree_items(t) == sales@ && #[trigger] tree_value(sources as nat, t) == acc.tally();
        lemma_any_split_agrees(sources as nat, t);
        lemma_tally_facts(sources as nat, sales@);
    }
    acc.finalize()
}


/// The two results hold the same figures, field by field.
pub open spec fn same_figures(r1: AnalyticsResult, r2: AnalyticsResult) -> bool {
    &&& r1.records == r2.records
    &&& r1.revenue_cents == r2.revenue_cents
    &&& r1.regular_sales == r2.regular_sales
    &&& r1.vip_sales == r2.vip_sales
    &&& r1.high_value_sales == r2.high_value_sales
    &&& r1.review_required == r2.review_required
    &&& r1.busiest_source == r2.busiest_source
    &&& r1.busiest_source_sales == r2.busiest_source_sales
    &&& r1.per_source_sales@ == r2.per_source_sales@
    &&& r1.checksum == r2.checksum
}

/// Two results that report the same figures are equal, field by field: the
/// parallel and the sequential analysis of the same sales give equal results.
pub proof fn lemma_result_determined(r1: AnalyticsResult, r2: AnalyticsResult, t: Tally)
    requires
        describes(r1, t),
        describes(r2, t),
    ensures
        same_figures(r1, r2),
{
    assert(r1.per_source_sales@.len() == r2.per_source_sales@.len());
    assert forall|i: int| 0 <= i < r1.per_source_sales@.len() implies r1.per_source_sales@[i]
        == r2.per_source_sales@[i] by {
        assert(r1.per_source_sales@.map_values(|c: usize| c as nat)[i] == t.per_source[i]);
        assert(r2.per_source_sales@.map_values(|c: usize| c as nat)[i] == t.per_source[i]);
    }
    assert(r1.per_source_sales@ =~= r2.per_source_sales@);
}

/// The `index`-th synthetic sale of a dataset with `sources` sources: sources
/// in turn, one in seven tiers VIP by a fixed pattern, and a surge of 0 to 200
/// cents on the tier's price.
pub open spec fn synthetic_sale(index: nat, sources: nat) -> Sale {
    let source_id = index % sources;
    let tier = if (index * 11 + source_id * 3) % 7 == 0 {
        TicketTier::Vip
    } else {
        TicketTier::Regular
    };
    Sale {
        order_id: (index + 1) as usize,
        customer_id: (50_000 + index) as usize,
        source_id: source_id as usize,
        ticket_id: (index + 1) as usize,
        tier,
        price_cents: (tier_price(tier) + (index % 9) * 25) as u64,
    }
}

/// The seed sales, then synthetic sales up to `target` records in all.
pub open spec fn dataset(seed: Seq<Sale>, target: nat, sources: nat) -> Seq<Sale> {
    let total = if target > seed.len() {
        target
    } else {
        seed.len()
    };
    seed + Seq::new(
        (total - seed.len()) as nat,
        |k: int| synthetic_sale((seed.len() + k) as nat, sources),
    )
}

/// A dataset has as many records as asked for, or as the seed if it is longer,
/// and starts with the seed.
pub proof fn lemma_dataset_len(seed: Seq<Sale>, target: nat, sources: nat)
    ensures
        dataset(seed, target, sources).len() == if target > seed.len() {
            target
        } else {
            seed.len()
        },
        dataset(seed, target, sources).take(seed.len() as int) == seed,
{
    assert(dataset(seed, target, sources).take(seed.len() as int) =~= seed);
}

/// Each synthetic record of a dataset, at position `i` past the seed, is order
/// and ticket `i + 1` of customer `50_000 + i`, comes from source `i` modulo
/// the number of sources, and is priced at its tier's price plus a surge of
/// a multiple of 25 cents up to 200.
pub proof fn lemma_dataset_records(seed: Seq<Sale>, target: nat, sources: nat, i: int)
    requires
        seed.len() <= i < dataset(seed, target, sources).len(),
        sources > 0,
        target <= usize::MAX / 16,
    ensures
        dataset(seed, target, sources)[i].order_id == i + 1,
        dataset(seed, target, sources)[i].ticket_id == i + 1,
        dataset(seed, target, sources)[i].customer_id == 50_000 + i,
        dataset(seed, target, sources)[i].source_id == i % (sources as int),
        dataset(seed, target, sources)[i].source_id < sources,
        tier_price(dataset(seed, target, sources)[i].tier) <= dataset(seed, target, sources)[i].price_cents
            <= tier_price(dataset(seed, target, sources)[i].tier) + 200,
        (dataset(seed, target, sources)[i].price_cents - tier_price(
            dataset(seed, target, sources)[i].tier,
        )) % 25 == 0,
{
    let s = dataset(seed, target, sources)[i];
    assert(s == synthetic_sale(i as nat, sources));
    assert(i < target);
    assert(i % (sources as int) <= i) by (nonlinear_arith)
        requires
            i >= 0,
            sources > 0,
    ;
    assert((i % 9) * 25 <= 200);
    assert(((i % 9) * 25) % 25 == 0);
}

/// The seed sales followed by synthetic ones, `target_records` records in all
/// (or just the seed, if it is longer).
pub fn build_analytics_dataset(seed_sales: &[Sale], target_records: usize, sources: usize) -> (r:
    Vec<Sale>)
    requires
        sources > 0 || target_records <= seed_sales@.len(),
        target_records <= usize::MAX / 16,
    ensures
        r@ == dataset(seed_sales@, target_records as nat, sources as nat),
        forall|i: int|
            seed_sales@.len() <= i < r@.len() ==> #[trigger] r@[i].ticket_id == i + 1
                && r@[i].order_id == i + 1,
{
    let target = if target_records > seed_sales.len() {
        target_records
    } else {
        seed_sales.len()
    };
    let ghost expected = dataset(seed_sales@, target_records as nat, sources as nat);
    let mut sales: Vec<Sale> = Vec::new();
    let mut i: usize = 0;
    while i < seed_sales.len()
        invariant
            i <= seed_sales.len(),
            sales@ == seed_sales@.take(i as int),
        decreases seed_sales.len() - i,
    {
        sales.push(seed_sales[i]);
        assert(sales@ =~= seed_sales@.take(i + 1));
        i = i + 1;
    }
    assert(sales@ =~= expected.take(seed_sales@.len() as int));
    while sales.len() < target
        invariant
            seed_sales@.len() <= sales@.len() <= target,
            target == expected.len(),
            target == seed_sales@.len() || target == target_records,
            sources > 0 || target <= seed_sales@.len(),
            target_records <= usize::MAX / 16,
            sales@ == expected.take(sales@.len() as int),
            expected == dataset(seed_sales@, target_records as nat, sources as nat),
        decreases target - sales.len(),
    {
        let index = sales.len();
        let source_id = index % sources;
        proof {
            assert(source_id <= index) by (nonlinear_arith)
                requires
                    source_id == index % sources,
                    sources > 0,
            ;
        }
        let tier = if (index * 11 + source_id * 3) % 7 == 0 {
            TicketTier::Vip
        } else {
            TicketTier::Regular
        };
        let surge_cents: u64 = ((index % 9) as u64) * 25;
        let price_cents = tier.price_cents() + surge_cents;
        let sale = Sale {
            order_id: index + 1,
            customer_id: 50_000 + index,
            source_id,
            ticket_id: index + 1,
            tier,
            price_cents,
        };
        proof {
            assert(sale == synthetic_sale(index as nat, sources as nat));
            assert(expected[index as int] == synthetic_sale(index as nat, sources as nat));
        }
        sales.push(sale);
        assert(sales@ =~= expected.take(sales@.len() as int));
    }
    assert(sales@ =~= expected);
    proof {
        assert forall|i: int| seed_sales@.len() <= i < sales@.len() implies #[trigger] sales@[i].ticket_id
            == i + 1 && sales@[i].order_id == i + 1 by {
            lemma_dataset_records(seed_sales@, target_records as nat, sources as nat, i);
        }
    }
    sales
}

/// Whether `sales` can be analysed with `sources` sources.
pub fn can_analyze(sales: &[Sale], sources: usize) -> (b: bool)
    ensures
        b == sales_fit(sales@, sources as nat),
{
    let mut revenue: u64 = 0;
    let mut i: usize = 0;
    assert(sales@.take(0) =~= Seq::<Sale>::empty());
    while i < sales.len()
        invariant
            i <= sales.len(),
            revenue == revenue_of(sales@.take(i as int)),
            forall|k: int| 0 <= k < i ==> #[trigger] sales@[k].source_id < sources,
            forall|k: int| 0 <= k < i ==> checksum_fits(#[trigger] sales@[k]),
        decreases sales.len() - i,
    {
        let s = sales[i];
        assert(sales@.take(i + 1).drop_last() =~= sales@.take(i as int));
        if s.source_id >= sources || s.order_id as u64 > u64::MAX / 31 || s.customer_id as u64
            > u64::MAX / 17 || s.source_id as u64 > u64::MAX / 13 || s.ticket_id as u64 > u64::MAX
            / 7 {
            return false;
        }
        match revenue.checked_add(s.price_cents) {
            Some(v) => revenue = v,
            None => {
                proof {
                    lemma_revenue_prefix(sales@, i + 1);
                }
                return false;
            },
        }
        i = i + 1;
    }
    assert(sales@.take(sales@.len() as int) =~= sales@);
    true
}

} // verus!
