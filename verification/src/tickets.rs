//! The live order service: ticket inventory, orders from front-end producers,
//! and the central ticket office that alone owns the inventory.

use std::collections::VecDeque;
use vstd::prelude::*;

verus! {

/// Ticket categories.
#[derive(Debug, Clone, Copy, PartialEq, Eq, Structural)]
pub enum TicketTier {
    Regular,
    Vip,
}

/// Price of a ticket of tier `t`, in cents.
pub open spec fn tier_price(t: TicketTier) -> u64 {
    match t {
        TicketTier::Regular => 1_200,
        TicketTier::Vip => 3_800,
    }
}

impl TicketTier {
    /// Price of a ticket of this tier, in cents.
    pub fn price_cents(self) -> (p: u64)
        ensures
            p == tier_price(self),
    {
        match self {
            TicketTier::Regular => 1_200,
            TicketTier::Vip => 3_800,
        }
    }
}

/// One ticket of the inventory.
#[derive(Debug, Clone, Copy, PartialEq, Eq, Structural)]
pub struct Ticket {
    pub id: usize,
    pub tier: TicketTier,
    pub price_cents: u64,
}

/// The unsold tickets, by tier, in the order in which they are sold.
#[derive(Debug, Clone)]
pub struct Inventory {
    pub regular: VecDeque<Ticket>,
    pub vip: VecDeque<Ticket>,
}

/// The queue of tier `t` in `inv`.
pub open spec fn queue_of(inv: Inventory, t: TicketTier) -> Seq<Ticket> {
    match t {
        TicketTier::Regular => inv.regular@,
        TicketTier::Vip => inv.vip@,
    }
}

impl Inventory {
    /// Takes the next ticket of tier `tier`, if any is left.
    pub fn pop_for(&mut self, tier: TicketTier) -> (t: Option<Ticket>)
        ensures
            queue_of(*old(self), tier).len() > 0 ==> t == Some(queue_of(*old(self), tier)[0])
                && queue_of(*final(self), tier) == queue_of(*old(self), tier).drop_first(),
            queue_of(*old(self), tier).len() == 0 ==> t is None && queue_of(*final(self), tier)
                == queue_of(*old(self), tier),
            tier == TicketTier::Regular ==> final(self).vip@ == old(self).vip@,
            tier == TicketTier::Vip ==> final(self).regular@ == old(self).regular@,
    {
        match tier {
            TicketTier::Regular => self.regular.pop_front(),
            TicketTier::Vip => self.vip.pop_front(),
        }
    }
}

/// Number of VIP tickets in an inventory of `n` tickets: one in five, rounded down.
pub open spec fn vip_count(n: nat) -> nat {
    n / 5
}

/// Number of regular tickets in an inventory of `n` tickets.
pub open spec fn regular_count(n: nat) -> nat {
    (n - vip_count(n)) as nat
}

/// The regular tickets of a fresh inventory of `n`: ids `1..=regular_count(n)`.
pub open spec fn fresh_regular(n: nat) -> Seq<Ticket> {
    Seq::new(
        regular_count(n),
        |i: int| Ticket { id: (i + 1) as usize, tier: TicketTier::Regular, price_cents: 1_200 },
    )
}

/// The VIP tickets of a fresh inventory of `n`: the ids after the regular ones, up to `n`.
pub open spec fn fresh_vip(n: nat) -> Seq<Ticket> {
    Seq::new(
        vip_count(n),
        |i: int|
            Ticket {
                id: (regular_count(n) + i + 1) as usize,
                tier: TicketTier::Vip,
                price_cents: 3_800,
            },
    )
}

/// A fresh inventory of `ticket_count` tickets, one in five of them VIP.
pub fn create_inventory(ticket_count: usize) -> (inv: Inventory)
    ensures
        inv.regular@ == fresh_regular(ticket_count as nat),
        inv.vip@ == fresh_vip(ticket_count as nat),
{
    let vip_n = ticket_count / 5;
    let regular_n = ticket_count - vip_n;
    let mut regular: VecDeque<Ticket> = VecDeque::new();
    let mut id: usize = 1;
    while id <= regular_n
        invariant
            1 <= id <= regular_n + 1,
            regular_n == regular_count(ticket_count as nat),
            regular@ == fresh_regular(ticket_count as nat).take(id - 1),
        decreases regular_n + 1 - id,
    {
        regular.push_back(
            Ticket { id, tier: TicketTier::Regular, price_cents: TicketTier::Regular.price_cents() },
        );
        assert(regular@ =~= fresh_regular(ticket_count as nat).take(id as int));
        id = id + 1;
    }
    assert(regular@ =~= fresh_regular(ticket_count as nat));
    let mut vip: VecDeque<Ticket> = VecDeque::new();
    let mut offset: usize = 1;
    while offset <= vip_n
        invariant
            1 <= offset <= vip_n + 1,
            vip_n == vip_count(ticket_count as nat),
            regular_n == regular_count(ticket_count as nat),
            regular_n + vip_n == ticket_count,
            vip@ == fresh_vip(ticket_count as nat).take(offset - 1),
        decreases vip_n + 1 - offset,
    {
        vip.push_back(
            Ticket {
                id: regular_n + offset,
                tier: TicketTier::Vip,
                price_cents: TicketTier::Vip.price_cents(),
            },
        );
        assert(vip@ =~= fresh_vip(ticket_count as nat).take(offset as int));
        offset = offset + 1;
    }
    assert(vip@ =~= fresh_vip(ticket_count as nat));
    Inventory { regular, vip }
}

/// An order that a front-end producer submits.
#[derive(Debug, Clone, Copy, PartialEq, Eq, Structural)]
pub struct Order {
    pub id: usize,
    pub customer_id: usize,
    pub source_id: usize,
    pub requested_tier: TicketTier,
}

/// A ticket sold for an order.
#[derive(Debug, Clone, Copy, PartialEq, Eq, Structural)]
pub struct Sale {
    pub order_id: usize,
    pub customer_id: usize,
    pub source_id: usize,
    pub ticket_id: usize,
    pub tier: TicketTier,
    pub price_cents: u64,
}

/// Order ids number the orders of all producers consecutively from 1.
pub open spec fn order_id_of(source_id: nat, sequence: nat, orders_per_producer: nat) -> nat {
    source_id * orders_per_producer + sequence + 1
}

/// Id of the `sequence`-th order of producer `source_id`.
pub fn make_order_id(source_id: usize, sequence: usize, orders_per_producer: usize) -> (id: usize)
    requires
        order_id_of(source_id as nat, sequence as nat, orders_per_producer as nat) <= usize::MAX,
    ensures
        id == order_id_of(source_id as nat, sequence as nat, orders_per_producer as nat),
{
    proof {
        assert(source_id * orders_per_producer <= usize::MAX) by (nonlinear_arith)
            requires
                source_id * orders_per_producer + sequence + 1 <= usize::MAX,
                sequence >= 0,
        ;
    }
    source_id * orders_per_producer + sequence + 1
}

/// The tier that order `sequence` of producer `source_id` asks for: VIP when
/// `13 * source_id + 7 * sequence` is a multiple of 5.
pub open spec fn requested_tier_of(source_id: nat, sequence: nat) -> TicketTier {
    if (source_id * 13 + sequence * 7) % 5 == 0 {
        TicketTier::Vip
    } else {
        TicketTier::Regular
    }
}

/// The one offset `d < 5` for which `x + 7 * d` is a multiple of 5, given `x % 5`.
spec fn vip_offset(r: int) -> nat {
    if r == 0 {
        0
    } else if r == 1 {
        2
    } else if r == 2 {
        4
    } else if r == 3 {
        1
    } else {
        3
    }
}

proof fn lemma_vip_offset(x: int, d: nat)
    requires
        x >= 0,
        d < 5,
    ensures
        ((x + 7 * d) % 5 == 0) <==> d == vip_offset(x % 5),
{
    let r = x % 5;
    assert(0 <= r < 5);
    if d == 0 {
        assert((x + 7 * d) % 5 == r);
    } else if d == 1 {
        assert((x + 7) % 5 == (r + 2) % 5);
    } else if d == 2 {
        assert((x + 14) % 5 == (r + 4) % 5);
    } else if d == 3 {
        assert((x + 21) % 5 == (r + 1) % 5);
    } else {
        assert((x + 28) % 5 == (r + 3) % 5);
    }
}

/// The requested tiers repeat every five orders of a producer and every five
/// producers, and among any five consecutive orders of a producer exactly one
/// asks for VIP; producer 0's first order does.
pub proof fn lemma_requested_tier_pattern(source_id: nat, sequence: nat)
    ensures
        requested_tier_of(source_id, sequence + 5) == requested_tier_of(source_id, sequence),
        requested_tier_of(source_id + 5, sequence) == requested_tier_of(source_id, sequence),
        exists|d: nat|
            d < 5 && #[trigger] requested_tier_of(source_id, sequence + d) == TicketTier::Vip,
        forall|d1: nat, d2: nat|
            d1 < 5 && d2 < 5 && #[trigger] requested_tier_of(source_id, sequence + d1)
                == TicketTier::Vip && #[trigger] requested_tier_of(source_id, sequence + d2)
                == TicketTier::Vip ==> d1 == d2,
        requested_tier_of(0, 0) == TicketTier::Vip,
{
    let x: int = (source_id * 13 + sequence * 7) as int;
    assert(source_id * 13 + (sequence + 5) * 7 == x + 35);
    assert((source_id + 5) * 13 + sequence * 7 == x + 65);
    assert((x + 35) % 5 == x % 5);
    assert((x + 65) % 5 == x % 5);
    let d0 = vip_offset(x % 5);
    lemma_vip_offset(x, d0);
    assert(source_id * 13 + (sequence + d0) * 7 == x + 7 * d0);
    assert(requested_tier_of(source_id, sequence + d0) == TicketTier::Vip);
    assert forall|d1: nat, d2: nat|
        d1 < 5 && d2 < 5 && #[trigger] requested_tier_of(source_id, sequence + d1)
            == TicketTier::Vip && #[trigger] requested_tier_of(source_id, sequence + d2)
            == TicketTier::Vip implies d1 == d2 by {
        assert(source_id * 13 + (sequence + d1) * 7 == x + 7 * d1);
        assert(source_id * 13 + (sequence + d2) * 7 == x + 7 * d2);
        lemma_vip_offset(x, d1);
        lemma_vip_offset(x, d2);
    }
}

/// The tier that order `sequence` of producer `source_id` asks for.
pub fn pick_requested_tier(source_id: usize, sequence: usize) -> (t: TicketTier)
    requires
        source_id * 13 + sequence * 7 <= usize::MAX,
    ensures
        t == requested_tier_of(source_id as nat, sequence as nat),
{
    if (source_id * 13 + sequence * 7) % 5 == 0 {
        TicketTier::Vip
    } else {
        TicketTier::Regular
    }
}

/// The `sequence`-th order submitted by producer `source_id`.
pub open spec fn order_of(source_id: nat, sequence: nat, orders_per_producer: nat) -> Order {
    let id = order_id_of(source_id, sequence, orders_per_producer);
    Order {
        id: id as usize,
        customer_id: (10_000 + id) as usize,
        source_id: source_id as usize,
        requested_tier: requested_tier_of(source_id, sequence),
    }
}

/// Producer `source_id`'s order number `sequence` (counted from 0), among
/// `orders_per_producer` orders per producer.
pub fn order_for(source_id: usize, sequence: usize, orders_per_producer: usize) -> (o: Order)
    requires
        10_000 + order_id_of(source_id as nat, sequence as nat, orders_per_producer as nat)
            <= usize::MAX,
        source_id * 13 + sequence * 7 <= usize::MAX,
    ensures
        o == order_of(source_id as nat, sequence as nat, orders_per_producer as nat),
{
    let id = make_order_id(source_id, sequence, orders_per_producer);
    Order {
        id,
        customer_id: 10_000 + id,
        source_id,
        requested_tier: pick_requested_tier(source_id, sequence),
    }
}

/// The abstract state of the ticket office.
pub struct OfficeState {
    pub regular: Seq<Ticket>,
    pub vip: Seq<Ticket>,
    pub sales: Seq<Sale>,
    pub rejected: nat,
}

/// The sale of ticket `t` for order `o`.
pub open spec fn sale_of(o: Order, t: Ticket) -> Sale {
    Sale {
        order_id: o.id,
        customer_id: o.customer_id,
        source_id: o.source_id,
        ticket_id: t.id,
        tier: t.tier,
        price_cents: t.price_cents,
    }
}

/// The office after handling order `o`: the first ticket of the requested tier
/// is sold for it, or it is rejected when that tier is sold out.
pub open spec fn serve(s: OfficeState, o: Order) -> OfficeState {
    match o.requested_tier {
        TicketTier::Regular => if s.regular.len() > 0 {
            OfficeState {
                regular: s.regular.drop_first(),
                sales: s.sales.push(sale_of(o, s.regular[0])),
                ..s
            }
        } else {
            OfficeState { rejected: s.rejected + 1, ..s }
        },
        TicketTier::Vip => if s.vip.len() > 0 {
            OfficeState {
                vip: s.vip.drop_first(),
                sales: s.sales.push(sale_of(o, s.vip[0])),
                ..s
            }
        } else {
            OfficeState { rejected: s.rejected + 1, ..s }
        },
    }
}

/// The office after handling `orders` in turn.
pub open spec fn serve_all(s: OfficeState, orders: Seq<Order>) -> OfficeState
    decreases orders.len(),
{
    if orders.len() == 0 {
        s
    } else {
        serve(serve_all(s, orders.drop_last()), orders.last())
    }
}

/// The office of a fresh inventory of `n` tickets, before any order.
pub open spec fn fresh_office(n: nat) -> OfficeState {
    OfficeState { regular: fresh_regular(n), vip: fresh_vip(n), sales: Seq::empty(), rejected: 0 }
}

/// Tickets sold plus tickets left.
pub open spec fn accounted(s: OfficeState) -> nat {
    s.sales.len() + s.regular.len() + s.vip.len()
}

/// Every order handled is either sold a ticket or rejected; no ticket is sold
/// twice and none is lost: tickets sold plus tickets left stay the initial count.
pub proof fn lemma_office_accounts(n: nat, orders: Seq<Order>)
    ensures
        accounted(serve_all(fresh_office(n), orders)) == n,
        serve_all(fresh_office(n), orders).sales.len() + serve_all(fresh_office(n), orders).rejected
            == orders.len(),
    decreases orders.len(),
{
    if orders.len() > 0 {
        lemma_office_accounts(n, orders.drop_last());
    }
}

/// No ticket is sold twice, no sold ticket is still in stock, each queue holds
/// distinct tickets of its own tier at its price, and each sale is at the
/// price of its tier.
pub open spec fn sound(s: OfficeState) -> bool {
    &&& forall|i: int, j: int|
        0 <= i < j < s.sales.len() ==> #[trigger] s.sales[i].ticket_id
            != #[trigger] s.sales[j].ticket_id
    &&& forall|i: int, k: int|
        0 <= i < s.sales.len() && 0 <= k < s.regular.len() ==> #[trigger] s.sales[i].ticket_id
            != #[trigger] s.regular[k].id
    &&& forall|i: int, k: int|
        0 <= i < s.sales.len() && 0 <= k < s.vip.len() ==> #[trigger] s.sales[i].ticket_id
            != #[trigger] s.vip[k].id
    &&& forall|k: int, l: int|
        0 <= k < l < s.regular.len() ==> #[trigger] s.regular[k].id != #[trigger] s.regular[l].id
    &&& forall|k: int, l: int|
        0 <= k < l < s.vip.len() ==> #[trigger] s.vip[k].id != #[trigger] s.vip[l].id
    &&& forall|k: int, l: int|
        0 <= k < s.regular.len() && 0 <= l < s.vip.len() ==> #[trigger] s.regular[k].id
            != #[trigger] s.vip[l].id
    &&& forall|k: int|
        0 <= k < s.regular.len() ==> #[trigger] s.regular[k].tier == TicketTier::Regular
            && s.regular[k].price_cents == tier_price(TicketTier::Regular)
    &&& forall|k: int|
        0 <= k < s.vip.len() ==> #[trigger] s.vip[k].tier == TicketTier::Vip
            && s.vip[k].price_cents == tier_price(TicketTier::Vip)
    &&& forall|i: int|
        0 <= i < s.sales.len() ==> #[trigger] s.sales[i].price_cents == tier_price(
            s.sales[i].tier,
        )
}

/// Serving an order keeps the office sound, and a sale is always of the tier
/// the order asked for.
pub proof fn lemma_serve_sound(s: OfficeState, o: Order)
    requires
        sound(s),
    ensures
        sound(serve(s, o)),
        serve(s, o).sales.len() > s.sales.len() ==> serve(s, o).sales.last().tier
            == o.requested_tier,
{
    let t = serve(s, o);
    match o.requested_tier {
        TicketTier::Regular => {
            if s.regular.len() > 0 {
                let x = s.regular[0];
                assert forall|i: int, j: int| 0 <= i < j < t.sales.len() implies #[trigger] t.sales[i].ticket_id
                    != #[trigger] t.sales[j].ticket_id by {
                    if j == s.sales.len() {
                        assert(s.sales[i].ticket_id != s.regular[0].id);
                    } else {
                        assert(t.sales[i] == s.sales[i] && t.sales[j] == s.sales[j]);
                    }
                }
                assert forall|i: int, k: int|
                    0 <= i < t.sales.len() && 0 <= k < t.regular.len() implies #[trigger] t.sales[i].ticket_id
                    != #[trigger] t.regular[k].id by {
                    assert(t.regular[k] == s.regular[k + 1]);
                    if i == s.sales.len() {
                        assert(s.regular[0].id != s.regular[k + 1].id);
                    } else {
                        assert(t.sales[i] == s.sales[i]);
                        assert(s.sales[i].ticket_id != s.regular[k + 1].id);
                    }
                }
                assert forall|i: int, k: int|
                    0 <= i < t.sales.len() && 0 <= k < t.vip.len() implies #[trigger] t.sales[i].ticket_id
                    != #[trigger] t.vip[k].id by {
                    if i == s.sales.len() {
                        assert(s.regular[0].id != s.vip[k].id);
                    } else {
                        assert(t.sales[i] == s.sales[i]);
                    }
                }
                assert forall|k: int, l: int| 0 <= k < l < t.regular.len() implies #[trigger] t.regular[k].id
                    != #[trigger] t.regular[l].id by {
                    assert(t.regular[k] == s.regular[k + 1]);
                    assert(t.regular[l] == s.regular[l + 1]);
                }
                assert forall|k: int, l: int|
                    0 <= k < t.regular.len() && 0 <= l < t.vip.len() implies #[trigger] t.regular[k].id
                    != #[trigger] t.vip[l].id by {
                    assert(t.regular[k] == s.regular[k + 1]);
                }
                assert forall|k: int| 0 <= k < t.regular.len() implies #[trigger] t.regular[k].tier
                    == TicketTier::Regular && t.regular[k].price_cents == tier_price(
                    TicketTier::Regular,
                ) by {
                    assert(t.regular[k] == s.regular[k + 1]);
                }
                assert forall|i: int| 0 <= i < t.sales.len() implies #[trigger] t.sales[i].price_cents
                    == tier_price(t.sales[i].tier) by {
                    if i < s.sales.len() {
                        assert(t.sales[i] == s.sales[i]);
                    }
                }
            }
        },
        TicketTier::Vip => {
            if s.vip.len() > 0 {
                assert forall|i: int, j: int| 0 <= i < j < t.sales.len() implies #[trigger] t.sales[i].ticket_id
                    != #[trigger] t.sales[j].ticket_id by {
                    if j == s.sales.len() {
                        assert(s.sales[i].ticket_id != s.vip[0].id);
                    } else {
                        assert(t.sales[i] == s.sales[i] && t.sales[j] == s.sales[j]);
                    }
                }
                assert forall|i: int, k: int|
                    0 <= i < t.sales.len() && 0 <= k < t.vip.len() implies #[trigger] t.sales[i].ticket_id
                    != #[trigger] t.vip[k].id by {
                    assert(t.vip[k] == s.vip[k + 1]);
                    if i == s.sales.len() {
                        assert(s.vip[0].id != s.vip[k + 1].id);
                    } else {
                        assert(t.sales[i] == s.sales[i]);
                        assert(s.sales[i].ticket_id != s.vip[k + 1].id);
                    }
                }
                assert forall|i: int, k: int|
                    0 <= i < t.sales.len() && 0 <= k < t.regular.len() implies #[trigger] t.sales[i].ticket_id
                    != #[trigger] t.regular[k].id by {
                    if i == s.sales.len() {
                        assert(s.regular[k].id != s.vip[0].id);
                    } else {
                        assert(t.sales[i] == s.sales[i]);
                    }
                }
                assert forall|k: int, l: int| 0 <= k < l < t.vip.len() implies #[trigger] t.vip[k].id
                    != #[trigger] t.vip[l].id by {
                    assert(t.vip[k] == s.vip[k + 1]);
                    assert(t.vip[l] == s.vip[l + 1]);
                }
                assert forall|k: int, l: int|
                    0 <= k < t.regular.len() && 0 <= l < t.vip.len() implies #[trigger] t.regular[k].id
                    != #[trigger] t.vip[l].id by {
                    assert(t.vip[l] == s.vip[l + 1]);
                }
                assert forall|k: int| 0 <= k < t.vip.len() implies #[trigger] t.vip[k].tier
                    == TicketTier::Vip && t.vip[k].price_cents == tier_price(TicketTier::Vip) by {
                    assert(t.vip[k] == s.vip[k + 1]);
                }
                assert forall|i: int| 0 <= i < t.sales.len() implies #[trigger] t.sales[i].price_cents
                    == tier_price(t.sales[i].tier) by {
                    if i < s.sales.len() {
                        assert(t.sales[i] == s.sales[i]);
                    }
                }
            }
        },
    }
}

/// No ticket is ever sold twice or sold while still in stock, whatever orders
/// arrive: the office of a fresh inventory stays sound.
pub proof fn lemma_office_never_double_sells(n: nat, orders: Seq<Order>)
    requires
        n <= usize::MAX,
    ensures
        sound(serve_all(fresh_office(n), orders)),
    decreases orders.len(),
{
    if orders.len() == 0 {
        let s = fresh_office(n);
        assert forall|k: int| 0 <= k < s.regular.len() implies #[trigger] s.regular[k].id == k
            + 1 by {}
        assert forall|l: int| 0 <= l < s.vip.len() implies #[trigger] s.vip[l].id == regular_count(
            n,
        ) + l + 1 by {}
        assert forall|k: int, l: int|
            0 <= k < s.regular.len() && 0 <= l < s.vip.len() implies #[trigger] s.regular[k].id
            != #[trigger] s.vip[l].id by {}
    } else {
        lemma_office_never_double_sells(n, orders.drop_last());
        lemma_serve_sound(serve_all(fresh_office(n), orders.drop_last()), orders.last());
    }
}

/// Number of orders in `orders` that ask for tier `t`.
pub open spec fn demand(orders: Seq<Order>, t: TicketTier) -> nat
    decreases orders.len(),
{
    if orders.len() == 0 {
        0
    } else {
        demand(orders.drop_last(), t) + if orders.last().requested_tier == t {
            1nat
        } else {
            0nat
        }
    }
}

/// Number of tickets of tier `t` in a fresh inventory of `n`.
pub open spec fn supply(n: nat, t: TicketTier) -> nat {
    match t {
        TicketTier::Regular => regular_count(n),
        TicketTier::Vip => vip_count(n),
    }
}

/// The unsold tickets of tier `t`.
pub open spec fn stock(s: OfficeState, t: TicketTier) -> Seq<Ticket> {
    match t {
        TicketTier::Regular => s.regular,
        TicketTier::Vip => s.vip,
    }
}

pub open spec fn min_nat(a: nat, b: nat) -> nat {
    if a <= b {
        a
    } else {
        b
    }
}

/// The positions in `orders` of the orders that were sold a ticket, in order.
pub open spec fn sold_positions(n: nat, orders: Seq<Order>) -> Seq<int>
    decreases orders.len(),
{
    if orders.len() == 0 {
        Seq::empty()
    } else {
        let prev = serve_all(fresh_office(n), orders.drop_last());
        let earlier = sold_positions(n, orders.drop_last());
        if serve(prev, orders.last()).sales.len() > prev.sales.len() {
            earlier.push(orders.len() - 1)
        } else {
            earlier
        }
    }
}

/// Sale `s` is made for order `o`: its order, customer, producer and tier.
pub open spec fn sale_for(s: Sale, o: Order) -> bool {
    &&& s.order_id == o.id
    &&& s.customer_id == o.customer_id
    &&& s.source_id == o.source_id
    &&& s.tier == o.requested_tier
}

/// Whatever the order in which the orders arrive, each tier sells as many
/// tickets as it has or as are asked for, whichever is fewer, and keeps the
/// rest; every ticket sold has an id in `1..=n`; and the sales are, in order,
/// one for each order that got a ticket, of the tier it asked for.
pub proof fn lemma_office_outcome(n: nat, orders: Seq<Order>)
    requires
        n <= usize::MAX,
    ensures
        ({
            let st = serve_all(fresh_office(n), orders);
            let ix = sold_positions(n, orders);
            &&& forall|t: TicketTier|
                #[trigger] count_tier(st.sales, t) == min_nat(supply(n, t), demand(orders, t))
            &&& forall|t: TicketTier|
                #[trigger] stock(st, t).len() == supply(n, t) - min_nat(
                    supply(n, t),
                    demand(orders, t),
                )
            &&& forall|k: int| 0 <= k < st.regular.len() ==> 1 <= #[trigger] st.regular[k].id <= n
            &&& forall|k: int| 0 <= k < st.vip.len() ==> 1 <= #[trigger] st.vip[k].id <= n
            &&& forall|i: int| 0 <= i < st.sales.len() ==> 1 <= #[trigger] st.sales[i].ticket_id <= n
            &&& ix.len() == st.sales.len()
            &&& forall|i: int| 0 <= i < ix.len() ==> 0 <= #[trigger] ix[i] < orders.len()
            &&& forall|i: int, j: int| 0 <= i < j < ix.len() ==> #[trigger] ix[i] < #[trigger] ix[j]
            &&& forall|i: int|
                0 <= i < st.sales.len() ==> sale_for(#[trigger] st.sales[i], orders[ix[i]])
        }),
    decreases orders.len(),
{
    let st = serve_all(fresh_office(n), orders);
    if orders.len() == 0 {
        assert forall|k: int| 0 <= k < st.regular.len() implies 1 <= #[trigger] st.regular[k].id
            <= n by {}
        assert forall|k: int| 0 <= k < st.vip.len() implies 1 <= #[trigger] st.vip[k].id <= n by {}
        assert forall|t: TicketTier| #[trigger] stock(st, t).len() == supply(n, t) - min_nat(
            supply(n, t),
            demand(orders, t),
        ) by {}
    } else {
        let rest = orders.drop_last();
        let o = orders.last();
        let prev = serve_all(fresh_office(n), rest);
        let pix = sold_positions(n, rest);
        lemma_office_outcome(n, rest);
        lemma_office_never_double_sells(n, rest);
        let ix = sold_positions(n, orders);
        assert(st == serve(prev, o));
        if st.sales.len() > prev.sales.len() {
            let q = stock(prev, o.requested_tier)[0];
            assert(st.sales == prev.sales.push(sale_of(o, q)));
            assert(q.tier == o.requested_tier);
            assert(st.sales.drop_last() =~= prev.sales);
            assert(ix == pix.push(orders.len() - 1));
            assert forall|t: TicketTier| #[trigger] count_tier(st.sales, t) == min_nat(
                supply(n, t),
                demand(orders, t),
            ) by {
                assert(count_tier(prev.sales, t) == min_nat(supply(n, t), demand(rest, t)));
                assert(stock(prev, t).len() == supply(n, t) - min_nat(supply(n, t), demand(rest, t)));
            }
            assert forall|t: TicketTier| #[trigger] stock(st, t).len() == supply(n, t) - min_nat(
                supply(n, t),
                demand(orders, t),
            ) by {
                assert(stock(prev, t).len() == supply(n, t) - min_nat(supply(n, t), demand(rest, t)));
            }
            assert forall|k: int| 0 <= k < st.regular.len() implies 1 <= #[trigger] st.regular[k].id
                <= n by {
                if o.requested_tier == TicketTier::Regular {
                    assert(st.regular[k] == prev.regular[k + 1]);
                }
            }
            assert forall|k: int| 0 <= k < st.vip.len() implies 1 <= #[trigger] st.vip[k].id
                <= n by {
                if o.requested_tier == TicketTier::Vip {
                    assert(st.vip[k] == prev.vip[k + 1]);
                }
            }
            assert forall|i: int| 0 <= i < st.sales.len() implies 1 <= #[trigger] st.sales[i].ticket_id
                <= n by {
                if i < prev.sales.len() {
                    assert(st.sales[i] == prev.sales[i]);
                } else {
                    if o.requested_tier == TicketTier::Regular {
                        assert(prev.regular[0].id == q.id);
                    } else {
                        assert(prev.vip[0].id == q.id);
                    }
                }
            }
            assert forall|i: int| 0 <= i < ix.len() implies 0 <= #[trigger] ix[i] < orders.len() by {
                if i < pix.len() {
                    assert(ix[i] == pix[i]);
                }
            }
            assert forall|i: int, j: int| 0 <= i < j < ix.len() implies #[trigger] ix[i]
                < #[trigger] ix[j] by {
                assert(ix[i] == pix[i]);
                if j < pix.len() {
                    assert(ix[j] == pix[j]);
                } else {
                    assert(pix[i] < rest.len());
                }
            }
            assert forall|i: int| 0 <= i < st.sales.len() implies sale_for(
                #[trigger] st.sales[i],
                orders[ix[i]],
            ) by {
                if i < prev.sales.len() {
                    assert(st.sales[i] == prev.sales[i]);
                    assert(ix[i] == pix[i]);
                    assert(sale_for(prev.sales[i], rest[pix[i]]));
                    assert(orders[pix[i]] == rest[pix[i]]);
                }
            }
        } else {
            assert(ix == pix);
            assert(st.sales == prev.sales);
            assert(stock(prev, o.requested_tier).len() == 0);
            assert forall|t: TicketTier| #[trigger] count_tier(st.sales, t) == min_nat(
                supply(n, t),
                demand(orders, t),
            ) by {
                assert(count_tier(prev.sales, t) == min_nat(supply(n, t), demand(rest, t)));
                assert(stock(prev, t).len() == supply(n, t) - min_nat(supply(n, t), demand(rest, t)));
            }
            assert forall|t: TicketTier| #[trigger] stock(st, t).len() == supply(n, t) - min_nat(
                supply(n, t),
                demand(orders, t),
            ) by {
                assert(stock(prev, t).len() == supply(n, t) - min_nat(supply(n, t), demand(rest, t)));
            }
            assert forall|i: int| 0 <= i < ix.len() implies 0 <= #[trigger] ix[i] < orders.len() by {
            }
            assert forall|i: int| 0 <= i < st.sales.len() implies sale_for(
                #[trigger] st.sales[i],
                orders[ix[i]],
            ) by {
                assert(orders[pix[i]] == rest[pix[i]]);
            }
        }
    }
}

/// When the orders have distinct ids, so do the sales.
pub proof fn lemma_sales_distinct_orders(n: nat, orders: Seq<Order>)
    requires
        n <= usize::MAX,
        forall|i: int, j: int|
            0 <= i < j < orders.len() ==> #[trigger] orders[i].id != #[trigger] orders[j].id,
    ensures
        forall|i: int, j: int|
            0 <= i < j < serve_all(fresh_office(n), orders).sales.len() ==> #[trigger] serve_all(
                fresh_office(n),
                orders,
            ).sales[i].order_id != #[trigger] serve_all(fresh_office(n), orders).sales[j].order_id,
{
    lemma_office_outcome(n, orders);
    let st = serve_all(fresh_office(n), orders);
    let ix = sold_positions(n, orders);
    assert forall|i: int, j: int| 0 <= i < j < st.sales.len() implies #[trigger] st.sales[i].order_id
        != #[trigger] st.sales[j].order_id by {
        assert(sale_for(st.sales[i], orders[ix[i]]));
        assert(sale_for(st.sales[j], orders[ix[j]]));
        assert(ix[i] < ix[j]);
    }
}

/// The orders of producers `0..p`, `n` each, one producer after the other.
pub open spec fn all_orders(p: nat, n: nat) -> Seq<Order> {
    Seq::new(p * n, |k: int| order_of((k / n as int) as nat, (k % n as int) as nat, n))
}

/// The `k`-th order of all producers has id `k + 1`: order ids are distinct.
pub proof fn lemma_all_orders_ids(p: nat, n: nat)
    requires
        p * n + 10_000 <= usize::MAX,
    ensures
        forall|k: int| 0 <= k < all_orders(p, n).len() ==> #[trigger] all_orders(p, n)[k].id == k + 1,
        forall|i: int, j: int|
            0 <= i < j < all_orders(p, n).len() ==> #[trigger] all_orders(p, n)[i].id
                != #[trigger] all_orders(p, n)[j].id,
{
    assert forall|k: int| 0 <= k < all_orders(p, n).len() implies #[trigger] all_orders(p, n)[k].id
        == k + 1 by {
        assert(n > 0) by (nonlinear_arith)
            requires
                0 <= k < p * n,
        ;
        vstd::arithmetic::div_mod::lemma_fundamental_div_mod(k, n as int);
        assert(order_id_of((k / n as int) as nat, (k % n as int) as nat, n) == k + 1) by (
        nonlinear_arith)
            requires
                k == n * (k / n as int) + (k % n as int),
                k >= 0,
                n > 0,
        {
            vstd::arithmetic::div_mod::lemma_mod_bound(k, n as int);
            vstd::arithmetic::div_mod::lemma_div_pos_is_pos(k, n as int);
        }
    }
}

proof fn lemma_demand_concat(a: Seq<Order>, b: Seq<Order>, t: TicketTier)
    ensures
        demand(a + b, t) == demand(a, t) + demand(b, t),
    decreases b.len(),
{
    if b.len() == 0 {
        assert(a + b =~= a);
    } else {
        lemma_demand_concat(a, b.drop_last(), t);
        assert((a + b).drop_last() =~= a + b.drop_last());
    }
}

proof fn lemma_demand_remove(p: Seq<Order>, i: int, t: TicketTier)
    requires
        0 <= i < p.len(),
    ensures
        demand(p, t) == demand(p.remove(i), t) + if p[i].requested_tier == t {
            1nat
        } else {
            0nat
        },
{
    let l = p.take(i);
    let r = p.skip(i + 1);
    assert(p =~= l + seq![p[i]] + r);
    assert(p.remove(i) =~= l + r);
    lemma_demand_concat(l + seq![p[i]], r, t);
    lemma_demand_concat(l, seq![p[i]], t);
    lemma_demand_concat(l, r, t);
    assert(seq![p[i]].drop_last() =~= Seq::<Order>::empty());
    assert(demand(Seq::<Order>::empty(), t) == 0);
}

/// The demand for a tier does not depend on the order in which orders arrive.
pub proof fn lemma_demand_permutation(a: Seq<Order>, p: Seq<Order>, t: TicketTier)
    requires
        a.to_multiset() == p.to_multiset(),
    ensures
        demand(a, t) == demand(p, t),
    decreases a.len(),
{
    a.to_multiset_ensures();
    p.to_multiset_ensures();
    if a.len() == 0 {
        assert(p.len() == 0);
    } else {
        let x = a.last();
        let rest = a.drop_last();
        rest.to_multiset_ensures();
        assert(rest.push(x) =~= a);
        assert(p.to_multiset().count(x) > 0);
        assert(p.contains(x));
        let i = choose|i: int| 0 <= i < p.len() && p[i] == x;
        assert(p.remove(i).to_multiset() == p.to_multiset().remove(x));
        assert(rest.to_multiset() =~= p.remove(i).to_multiset());
        lemma_demand_permutation(rest, p.remove(i), t);
        lemma_demand_remove(p, i, t);
    }
}

/// However the orders of `p` producers, `n` each, interleave on their way to
/// an office of `tickets` tickets, each tier sells as many tickets as it has or
/// as all producers ask for, whichever is fewer, and every order is either sold
/// a ticket or rejected.
pub proof fn lemma_any_interleaving(p: nat, n: nat, tickets: nat, arrived: Seq<Order>)
    requires
        tickets <= usize::MAX,
        arrived.to_multiset() == all_orders(p, n).to_multiset(),
    ensures
        forall|t: TicketTier|
            #[trigger] count_tier(serve_all(fresh_office(tickets), arrived).sales, t) == min_nat(
                supply(tickets, t),
                demand(all_orders(p, n), t),
            ),
        serve_all(fresh_office(tickets), arrived).sales.len() + serve_all(
            fresh_office(tickets),
            arrived,
        ).rejected == p * n,
{
    lemma_office_outcome(tickets, arrived);
    lemma_office_accounts(tickets, arrived);
    arrived.to_multiset_ensures();
    all_orders(p, n).to_multiset_ensures();
    assert forall|t: TicketTier| #[trigger] count_tier(
        serve_all(fresh_office(tickets), arrived).sales,
        t,
    ) == min_nat(supply(tickets, t), demand(all_orders(p, n), t)) by {
        lemma_demand_permutation(arrived, all_orders(p, n), t);
    }
}

/// How one front-end producer fared.
#[derive(Debug, Clone, Copy, PartialEq, Eq, Structural)]
pub struct ProducerSummary {
    pub source_id: usize,
    pub submitted: usize,
    pub blocked_sends: usize,
    pub send_wait_nanos: u128,
}

/// A send that waits at least this long (100 µs) counts as delayed by backpressure.
pub const BLOCKED_THRESHOLD_NANOS: u128 = 100_000;

impl ProducerSummary {
    /// The summary of producer `source_id` before it sends anything.
    pub open spec fn start_spec(source_id: usize) -> ProducerSummary {
        ProducerSummary { source_id, submitted: 0, blocked_sends: 0, send_wait_nanos: 0 }
    }

    /// The summary of producer `source_id` before it sends anything.
    pub fn start(source_id: usize) -> (p: ProducerSummary)
        ensures
            p == ProducerSummary::start_spec(source_id),
    {
        ProducerSummary { source_id, submitted: 0, blocked_sends: 0, send_wait_nanos: 0 }
    }

    /// Records one submitted order whose send waited `wait_nanos`.
    pub fn record_send(&mut self, wait_nanos: u128)
        requires
            old(self).submitted < usize::MAX,
            old(self).blocked_sends < usize::MAX,
            old(self).send_wait_nanos + wait_nanos <= u128::MAX,
        ensures
            final(self).source_id == old(self).source_id,
            final(self).submitted == old(self).submitted + 1,
            final(self).blocked_sends == old(self).blocked_sends + if wait_nanos
                >= BLOCKED_THRESHOLD_NANOS {
                1int
            } else {
                0int
            },
            final(self).send_wait_nanos == old(self).send_wait_nanos + wait_nanos,
    {
        self.submitted = self.submitted + 1;
        if wait_nanos >= BLOCKED_THRESHOLD_NANOS {
            self.blocked_sends = self.blocked_sends + 1;
        }
        self.send_wait_nanos = self.send_wait_nanos + wait_nanos;
    }
}

/// The ids and tier patterns of producer `source_id`'s `n` orders fit in `usize`.
pub open spec fn producer_fits(source_id: nat, n: nat) -> bool {
    n > 0 ==> {
        &&& source_id * n + n + 10_000 <= usize::MAX
        &&& source_id * 13 + (n - 1) * 7 <= usize::MAX
    }
}

/// One front-end producer: hands out its orders in turn and keeps its summary.
pub struct OrderProducer {
    source_id: usize,
    orders_per_producer: usize,
    sent: usize,
    summary: ProducerSummary,
}

impl OrderProducer {
    /// The producer's number.
    pub closed spec fn source(&self) -> nat {
        self.source_id as nat
    }

    /// How many orders it submits in all.
    pub closed spec fn quota(&self) -> nat {
        self.orders_per_producer as nat
    }

    /// How many orders it has sent so far.
    pub closed spec fn sent(&self) -> nat {
        self.sent as nat
    }

    /// Its summary so far.
    pub closed spec fn summary(&self) -> ProducerSummary {
        self.summary
    }

    /// The summary counts the orders sent, of this producer, and no more sends
    /// delayed than sent; no more are sent than the quota.
    pub open spec fn wf(&self) -> bool {
        &&& self.sent() <= self.quota()
        &&& producer_fits(self.source(), self.quota())
        &&& self.summary().source_id == self.source()
        &&& self.summary().submitted == self.sent()
        &&& self.summary().blocked_sends <= self.sent()
    }

    /// Producer `source_id`, which will submit `orders_per_producer` orders.
    pub fn new(source_id: usize, orders_per_producer: usize) -> (p: OrderProducer)
        requires
            producer_fits(source_id as nat, orders_per_producer as nat),
        ensures
            p.wf(),
            p.source() == source_id,
            p.quota() == orders_per_producer,
            p.sent() == 0,
            p.summary() == ProducerSummary::start_spec(source_id),
    {
        OrderProducer {
            source_id,
            orders_per_producer,
            sent: 0,
            summary: ProducerSummary::start(source_id),
        }
    }

    /// The next order to send: number `sent` of this producer, or none once the
    /// quota is sent.
    pub fn next_order(&self) -> (o: Option<Order>)
        requires
            self.wf(),
        ensures
            self.sent() < self.quota() ==> o == Some(
                order_of(self.source(), self.sent(), self.quota()),
            ),
            self.sent() == self.quota() ==> o is None,
    {
        if self.sent < self.orders_per_producer {
            proof {
                assert(self.source_id * self.orders_per_producer + self.sent + 1 + 10_000
                    <= usize::MAX);
                assert(self.source_id * 13 + self.sent * 7 <= usize::MAX);
            }
            Some(order_for(self.source_id, self.sent, self.orders_per_producer))
        } else {
            None
        }
    }

    /// The time its sends have waited so far, in nanoseconds.
    pub fn wait_so_far(&self) -> (n: u128)
        ensures
            n == self.summary().send_wait_nanos,
    {
        self.summary.send_wait_nanos
    }

    /// Records that the next order was sent, after waiting `wait_nanos`.
    pub fn record_send(&mut self, wait_nanos: u128)
        requires
            old(self).wf(),
            old(self).sent() < old(self).quota(),
            old(self).summary().send_wait_nanos + wait_nanos <= u128::MAX,
        ensures
            final(self).wf(),
            final(self).source() == old(self).source(),
            final(self).quota() == old(self).quota(),
            final(self).sent() == old(self).sent() + 1,
            final(self).summary().blocked_sends == old(self).summary().blocked_sends + if wait_nanos
                >= BLOCKED_THRESHOLD_NANOS {
                1int
            } else {
                0int
            },
            final(self).summary().send_wait_nanos == old(self).summary().send_wait_nanos
                + wait_nanos,
    {
        self.summary.record_send(wait_nanos);
        self.sent = self.sent + 1;
    }

    /// The producer's summary; once the quota is sent it counts exactly the
    /// quota.
    pub fn finish(self) -> (s: ProducerSummary)
        requires
            self.wf(),
        ensures
            s == self.summary(),
            s.source_id == self.source(),
            s.submitted == self.sent(),
            s.blocked_sends <= s.submitted,
            self.sent() == self.quota() ==> s.submitted == self.quota(),
    {
        self.summary
    }
}

/// Sum of the `submitted` counts.
pub open spec fn total_submitted(ps: Seq<ProducerSummary>) -> int
    decreases ps.len(),
{
    if ps.len() == 0 {
        0
    } else {
        total_submitted(ps.drop_last()) + ps.last().submitted
    }
}

/// Sum of the `blocked_sends` counts.
pub open spec fn total_blocked(ps: Seq<ProducerSummary>) -> int
    decreases ps.len(),
{
    if ps.len() == 0 {
        0
    } else {
        total_blocked(ps.drop_last()) + ps.last().blocked_sends
    }
}

/// The blocked-send total adds up each summary's own `blocked_sends`: one
/// summary gives its own count, totals of two runs of summaries add, and when
/// no summary has more delayed sends than sends, neither has the total.
pub proof fn lemma_total_blocked(a: Seq<ProducerSummary>, b: Seq<ProducerSummary>, p: ProducerSummary)
    ensures
        total_blocked(seq![p]) == p.blocked_sends,
        total_blocked(Seq::<ProducerSummary>::empty()) == 0,
        total_blocked(a + b) == total_blocked(a) + total_blocked(b),
        (forall|i: int| 0 <= i < a.len() ==> #[trigger] a[i].blocked_sends <= a[i].submitted)
            ==> total_blocked(a) <= total_submitted(a),
    decreases b.len(),
{
    assert(seq![p].drop_last() =~= Seq::<ProducerSummary>::empty());
    assert(seq![p].last() == p);
    assert(total_blocked(seq![p].drop_last()) == 0);
    if b.len() > 0 {
        lemma_total_blocked(a, b.drop_last(), p);
        assert((a + b).drop_last() =~= a + b.drop_last());
    } else {
        assert(a + b =~= a);
    }
    lemma_blocked_within_submitted(a);
}

proof fn lemma_blocked_within_submitted(a: Seq<ProducerSummary>)
    ensures
        (forall|i: int| 0 <= i < a.len() ==> #[trigger] a[i].blocked_sends <= a[i].submitted)
            ==> total_blocked(a) <= total_submitted(a),
    decreases a.len(),
{
    if a.len() > 0 {
        lemma_blocked_within_submitted(a.drop_last());
        if forall|i: int| 0 <= i < a.len() ==> #[trigger] a[i].blocked_sends <= a[i].submitted {
            assert forall|i: int| 0 <= i < a.drop_last().len() implies #[trigger] a.drop_last()[i].blocked_sends
                <= a.drop_last()[i].submitted by {
                assert(a.drop_last()[i] == a[i]);
            }
            assert(a[a.len() - 1].blocked_sends <= a[a.len() - 1].submitted);
        }
    }
}

/// Sum of the send waits, in nanoseconds.
pub open spec fn total_wait(ps: Seq<ProducerSummary>) -> int
    decreases ps.len(),
{
    if ps.len() == 0 {
        0
    } else {
        total_wait(ps.drop_last()) + ps.last().send_wait_nanos
    }
}

/// Number of sales of tier `t`.
pub open spec fn count_tier(sales: Seq<Sale>, t: TicketTier) -> nat
    decreases sales.len(),
{
    if sales.len() == 0 {
        0
    } else {
        count_tier(sales.drop_last(), t) + if sales.last().tier == t {
            1nat
        } else {
            0nat
        }
    }
}

pub proof fn lemma_count_tier_bound(sales: Seq<Sale>, t: TicketTier)
    ensures
        count_tier(sales, t) <= sales.len(),
    decreases sales.len(),
{
    if sales.len() > 0 {
        lemma_count_tier_bound(sales.drop_last(), t);
    }
}

/// Every sale counts under exactly one tier.
pub proof fn lemma_count_tiers_sum(sales: Seq<Sale>)
    ensures
        count_tier(sales, TicketTier::Regular) + count_tier(sales, TicketTier::Vip) == sales.len(),
    decreases sales.len(),
{
    if sales.len() > 0 {
        lemma_count_tiers_sum(sales.drop_last());
    }
}

/// What the order service reports once the orders are handled.
pub struct OrderServiceReport {
    pub total_inventory: usize,
    pub total_orders: usize,
    pub sold: usize,
    pub rejected_sold_out: usize,
    pub regular_sold: usize,
    pub vip_sold: usize,
    pub regular_remaining: usize,
    pub vip_remaining: usize,
    pub queue_capacity: usize,
    pub service_delay_micros: usize,
    pub elapsed_nanos: u128,
    pub producer_summaries: Vec<ProducerSummary>,
    pub sales: Vec<Sale>,
}

/// The business invariants: tickets sold plus tickets left is the initial
/// inventory, every submitted order is sold or rejected, and one sale is
/// recorded per ticket sold.
pub open spec fn business_invariants(r: OrderServiceReport) -> bool {
    &&& r.sold + r.regular_remaining + r.vip_remaining == r.total_inventory
    &&& r.sold + r.rejected_sold_out == r.total_orders
    &&& r.sales@.len() == r.sold
}

impl OrderServiceReport {
    /// Tickets left, of both tiers.
    pub fn remaining(&self) -> (n: usize)
        requires
            self.regular_remaining + self.vip_remaining <= usize::MAX,
        ensures
            n == self.regular_remaining + self.vip_remaining,
    {
        self.regular_remaining + self.vip_remaining
    }

    /// Whether the business invariants hold.
    pub fn invariant_ok(&self) -> (b: bool)
        requires
            self.sold + self.regular_remaining + self.vip_remaining <= usize::MAX,
            self.sold + self.rejected_sold_out <= usize::MAX,
        ensures
            b == business_invariants(*self),
    {
        self.sold + self.remaining() == self.total_inventory && self.sold + self.rejected_sold_out
            == self.total_orders && self.sales.len() == self.sold
    }

    /// Sends delayed by backpressure, over all producers.
    pub fn blocked_sends(&self) -> (n: usize)
        requires
            forall|k: int|
                0 <= k <= self.producer_summaries@.len() ==> #[trigger] total_blocked(
                    self.producer_summaries@.take(k),
                ) <= usize::MAX,
        ensures
            n == total_blocked(self.producer_summaries@),
    {
        let ps = &self.producer_summaries;
        let mut n: usize = 0;
        let mut i: usize = 0;
        assert(ps@.take(0) =~= Seq::<ProducerSummary>::empty());
        while i < ps.len()
            invariant
                i <= ps.len(),
                n == total_blocked(ps@.take(i as int)),
                forall|k: int|
                    0 <= k <= ps@.len() ==> #[trigger] total_blocked(ps@.take(k)) <= usize::MAX,
            decreases ps.len() - i,
        {
            assert(ps@.take(i + 1).drop_last() =~= ps@.take(i as int));
            assert(total_blocked(ps@.take(i + 1)) <= usize::MAX);
            n = n + ps[i].blocked_sends;
            i = i + 1;
        }
        assert(ps@.take(ps@.len() as int) =~= ps@);
        n
    }

    /// Orders submitted, over all producers.
    pub fn submitted_by_producers(&self) -> (n: usize)
        requires
            forall|k: int|
                0 <= k <= self.producer_summaries@.len() ==> #[trigger] total_submitted(
                    self.producer_summaries@.take(k),
                ) <= usize::MAX,
        ensures
            n == total_submitted(self.producer_summaries@),
    {
        let ps = &self.producer_summaries;
        let mut n: usize = 0;
        let mut i: usize = 0;
        assert(ps@.take(0) =~= Seq::<ProducerSummary>::empty());
        while i < ps.len()
            invariant
                i <= ps.len(),
                n == total_submitted(ps@.take(i as int)),
                forall|k: int|
                    0 <= k <= ps@.len() ==> #[trigger] total_submitted(ps@.take(k)) <= usize::MAX,
            decreases ps.len() - i,
        {
            assert(ps@.take(i + 1).drop_last() =~= ps@.take(i as int));
            assert(total_submitted(ps@.take(i + 1)) <= usize::MAX);
            n = n + ps[i].submitted;
            i = i + 1;
        }
        assert(ps@.take(ps@.len() as int) =~= ps@);
        n
    }

    /// Time producers spent waiting to send, over all producers, in nanoseconds.
    pub fn total_send_wait(&self) -> (n: u128)
        requires
            forall|k: int|
                0 <= k <= self.producer_summaries@.len() ==> #[trigger] total_wait(
                    self.producer_summaries@.take(k),
                ) <= u128::MAX,
        ensures
            n == total_wait(self.producer_summaries@),
    {
        let ps = &self.producer_summaries;
        let mut n: u128 = 0;
        let mut i: usize = 0;
        assert(ps@.take(0) =~= Seq::<ProducerSummary>::empty());
        while i < ps.len()
            invariant
                i <= ps.len(),
                n == total_wait(ps@.take(i as int)),
                forall|k: int|
                    0 <= k <= ps@.len() ==> #[trigger] total_wait(ps@.take(k)) <= u128::MAX,
            decreases ps.len() - i,
        {
            assert(ps@.take(i + 1).drop_last() =~= ps@.take(i as int));
            assert(total_wait(ps@.take(i + 1)) <= u128::MAX);
            n = n + ps[i].send_wait_nanos;
            i = i + 1;
        }
        assert(ps@.take(ps@.len() as int) =~= ps@);
        n
    }
}

/// Number of regular sales in `sales`.
fn count_regular(sales: &Vec<Sale>) -> (n: usize)
    ensures
        n == count_tier(sales@, TicketTier::Regular),
{
    let mut n: usize = 0;
    let mut i: usize = 0;
    assert(sales@.take(0) =~= Seq::<Sale>::empty());
    while i < sales.len()
        invariant
            i <= sales.len(),
            n == count_tier(sales@.take(i as int), TicketTier::Regular),
        decreases sales.len() - i,
    {
        assert(sales@.take(i + 1).drop_last() =~= sales@.take(i as int));
        proof {
            lemma_count_tier_bound(sales@.take(i as int), TicketTier::Regular);
        }
        if sales[i].tier == TicketTier::Regular {
            n = n + 1;
        }
        i = i + 1;
    }
    assert(sales@.take(sales@.len() as int) =~= sales@);
    n
}

/// Whether the summaries are in increasing order of producer.
pub open spec fn sorted_by_source(ps: Seq<ProducerSummary>) -> bool {
    forall|i: int, j: int| 0 <= i < j < ps.len() ==> ps[i].source_id <= ps[j].source_id
}

/// The summaries of producer `k`, in order.
pub open spec fn of_source(ps: Seq<ProducerSummary>, k: usize) -> Seq<ProducerSummary> {
    ps.filter(|p: ProducerSummary| p.source_id == k)
}

proof fn lemma_pair_filter(x: ProducerSummary, y: ProducerSummary, k: usize)
    requires
        x.source_id != y.source_id,
    ensures
        of_source(seq![x, y], k) == of_source(seq![y, x], k),
{
    reveal(Seq::filter);
    assert(seq![x, y].drop_last() =~= seq![x]);
    assert(seq![y, x].drop_last() =~= seq![y]);
    assert(seq![x].drop_last() =~= Seq::<ProducerSummary>::empty());
    assert(seq![y].drop_last() =~= Seq::<ProducerSummary>::empty());
    let e = Seq::<ProducerSummary>::empty();
    assert(of_source(e, k) == e);
    let fx = of_source(seq![x], k);
    let fy = of_source(seq![y], k);
    assert(fx == if x.source_id == k { e.push(x) } else { e });
    assert(fy == if y.source_id == k { e.push(y) } else { e });
    assert(of_source(seq![x, y], k) == if y.source_id == k { fx.push(y) } else { fx });
    assert(of_source(seq![y, x], k) == if x.source_id == k { fy.push(x) } else { fy });
    assert(of_source(seq![x, y], k) =~= of_source(seq![y, x], k));
}

/// Swapping two neighbours of different producers keeps the summaries of
/// every producer in their order.
proof fn lemma_swap_keeps_sources(s: Seq<ProducerSummary>, j: int, k: usize)
    requires
        1 <= j < s.len(),
        s[j - 1].source_id != s[j].source_id,
    ensures
        of_source(s.update(j - 1, s[j]).update(j, s[j - 1]), k) == of_source(s, k),
{
    let l = s.take(j - 1);
    let r = s.skip(j + 1);
    let x = s[j - 1];
    let y = s[j];
    let pred = |p: ProducerSummary| p.source_id == k;
    assert(s =~= l + seq![x, y] + r);
    assert(s.update(j - 1, y).update(j, x) =~= l + seq![y, x] + r);
    Seq::filter_distributes_over_add(l + seq![x, y], r, pred);
    Seq::filter_distributes_over_add(l, seq![x, y], pred);
    Seq::filter_distributes_over_add(l + seq![y, x], r, pred);
    Seq::filter_distributes_over_add(l, seq![y, x], pred);
    lemma_pair_filter(x, y, k);
}

/// The summaries in increasing order of producer (insertion sort, which keeps
/// summaries of the same producer in their order).
pub fn sort_by_source(ps: Vec<ProducerSummary>) -> (r: Vec<ProducerSummary>)
    ensures
        sorted_by_source(r@),
        r@.to_multiset() == ps@.to_multiset(),
        forall|k: usize| #[trigger] of_source(r@, k) == of_source(ps@, k),
{
    let mut r = ps;
    let ghost given = r@;
    let n = r.len();
    let mut i: usize = 1;
    if n == 0 {
        return r;
    }
    while i < n
        invariant
            1 <= i <= n,
            n == r.len(),
            r@.to_multiset() == given.to_multiset(),
            forall|k: usize| #[trigger] of_source(r@, k) == of_source(given, k),
            forall|a: int, b: int| 0 <= a < b < i ==> r@[a].source_id <= r@[b].source_id,
        decreases n - i,
    {
        let mut j = i;
        while j > 0 && r[j - 1].source_id > r[j].source_id
            invariant
                0 <= j <= i < n,
                n == r.len(),
                r@.to_multiset() == given.to_multiset(),
                forall|k: usize| #[trigger] of_source(r@, k) == of_source(given, k),
                forall|a: int, b: int|
                    0 <= a < b <= i && b != j && a != j ==> r@[a].source_id <= r@[b].source_id,
                forall|b: int| j < b <= i ==> r@[j as int].source_id <= r@[b].source_id,
            decreases j,
        {
            let ghost before = r@;
            let x = r[j - 1];
            let y = r[j];
            r.set(j - 1, y);
            r.set(j, x);
            proof {
                assert(r@ =~= before.update(j - 1, y).update(j as int, x));
                lemma_swap_multiset(before, j - 1, j as int);
                assert forall|k: usize| #[trigger] of_source(r@, k) == of_source(given, k) by {
                    lemma_swap_keeps_sources(before, j as int, k);
                }
            }
            j = j - 1;
        }
        assert forall|a: int, b: int| 0 <= a < b < i + 1 implies r@[a].source_id
            <= r@[b].source_id by {
            if a == j {
            } else if b == j {
                assert(j > 0);
                if a < j - 1 {
                    assert(r@[a].source_id <= r@[j - 1].source_id);
                }
            }
        }
        i = i + 1;
    }
    r
}

/// Replacing element `i` by `x` trades one occurrence of `s[i]` for one of `x`.
proof fn lemma_update_multiset<A>(s: Seq<A>, i: int, x: A)
    requires
        0 <= i < s.len(),
    ensures
        s.update(i, x).to_multiset() =~= s.to_multiset().remove(s[i]).insert(x),
{
    let u = s.update(i, x);
    assert(u.remove(i) =~= s.remove(i));
    s.to_multiset_ensures();
    u.to_multiset_ensures();
    assert(u[i] == x);
    assert(u.contains(x));
    assert(u.remove(i).to_multiset() =~= u.to_multiset().remove(x));
    assert(s.remove(i).to_multiset() =~= s.to_multiset().remove(s[i]));
    assert(u.to_multiset().count(x) > 0);
    assert(u.to_multiset() =~= u.to_multiset().remove(x).insert(x));
}

/// Swapping two elements keeps the multiset of elements.
proof fn lemma_swap_multiset<A>(s: Seq<A>, a: int, b: int)
    requires
        0 <= a < s.len(),
        0 <= b < s.len(),
        a != b,
    ensures
        s.update(a, s[b]).update(b, s[a]).to_multiset() == s.to_multiset(),
{
    let t = s.update(a, s[b]);
    lemma_update_multiset(s, a, s[b]);
    lemma_update_multiset(t, b, s[a]);
    s.to_multiset_ensures();
    assert(s.contains(s[a]));
    assert(t.update(b, s[a]).to_multiset() =~= s.to_multiset());
}

/// The central ticket office: the one owner of the inventory.
pub struct TicketOffice {
    inventory: Inventory,
    sales: Vec<Sale>,
    rejected_sold_out: usize,
    total_inventory: usize,
    handled: Ghost<Seq<Order>>,
}

impl TicketOffice {
    /// The abstract state of the office.
    pub closed spec fn state(&self) -> OfficeState {
        OfficeState {
            regular: self.inventory.regular@,
            vip: self.inventory.vip@,
            sales: self.sales@,
            rejected: self.rejected_sold_out as nat,
        }
    }

    /// The number of tickets the office started with.
    pub closed spec fn initial(&self) -> nat {
        self.total_inventory as nat
    }

    /// The orders handled so far, in order.
    pub closed spec fn handled(&self) -> Seq<Order> {
        self.handled@
    }

    /// The state is that of a fresh inventory after the orders handled.
    pub open spec fn wf(&self) -> bool {
        self.state() == serve_all(fresh_office(self.initial()), self.handled())
    }

    /// An office with a fresh inventory of `tickets` tickets.
    pub fn new(tickets: usize) -> (office: TicketOffice)
        ensures
            office.wf(),
            office.initial() == tickets,
            office.handled() == Seq::<Order>::empty(),
            office.state() == fresh_office(tickets as nat),
    {
        let inventory = create_inventory(tickets);
        let office = TicketOffice {
            inventory,
            sales: Vec::new(),
            rejected_sold_out: 0,
            total_inventory: tickets,
            handled: Ghost(Seq::empty()),
        };
        assert(office.state() =~= fresh_office(tickets as nat));
        office
    }

    /// Handles one order: sells the next ticket of the requested tier, or
    /// rejects the order when that tier is sold out. Returns the sale, if any.
    pub fn process_order(&mut self, order: Order) -> (sold: Option<Sale>)
        requires
            old(self).wf(),
            old(self).handled().len() < usize::MAX,
        ensures
            final(self).wf(),
            final(self).initial() == old(self).initial(),
            final(self).handled() == old(self).handled().push(order),
            final(self).state() == serve(old(self).state(), order),
            sold matches Some(s) ==> final(self).state().sales == old(self).state().sales.push(s),
            sold is None ==> final(self).state().sales == old(self).state().sales,
    {
        let ghost h = self.handled@.push(order);
        proof {
            assert(h.drop_last() =~= self.handled@);
            lemma_office_accounts(self.total_inventory as nat, self.handled@);
        }
        match self.inventory.pop_for(order.requested_tier) {
            Some(ticket) => {
                let sale = Sale {
                    order_id: order.id,
                    customer_id: order.customer_id,
                    source_id: order.source_id,
                    ticket_id: ticket.id,
                    tier: ticket.tier,
                    price_cents: ticket.price_cents,
                };
                self.sales.push(sale);
                self.handled = Ghost(h);
                proof {
                    assert(self.state() =~= serve(old(self).state(), order));
                }
                Some(sale)
            },
            None => {
                self.rejected_sold_out = self.rejected_sold_out + 1;
                self.handled = Ghost(h);
                proof {
                    assert(self.state() =~= serve(old(self).state(), order));
                }
                None
            },
        }
    }

    /// The report of the service once the orders are handled: counts by tier,
    /// what is left, and the sales, with the producers' summaries in order of
    /// producer.
    pub fn finish(
        self,
        total_orders: usize,
        queue_capacity: usize,
        service_delay_micros: usize,
        elapsed_nanos: u128,
        producer_summaries: Vec<ProducerSummary>,
    ) -> (r: OrderServiceReport)
        requires
            self.wf(),
        ensures
            r.total_inventory == self.initial(),
            r.total_orders == total_orders,
            r.sold == self.state().sales.len(),
            r.rejected_sold_out == self.state().rejected,
            r.regular_sold == count_tier(self.state().sales, TicketTier::Regular),
            r.vip_sold == r.sold - r.regular_sold,
            r.regular_remaining == self.state().regular.len(),
            r.vip_remaining == self.state().vip.len(),
            r.queue_capacity == queue_capacity,
            r.service_delay_micros == service_delay_micros,
            r.elapsed_nanos == elapsed_nanos,
            sorted_by_source(r.producer_summaries@),
            r.producer_summaries@.to_multiset() == producer_summaries@.to_multiset(),
            forall|k: usize|
                #[trigger] of_source(r.producer_summaries@, k) == of_source(
                    producer_summaries@,
                    k,
                ),
            r.sales@ == self.state().sales,
            r.sold + r.regular_remaining + r.vip_remaining == r.total_inventory,
            r.sold + r.rejected_sold_out == self.handled().len(),
            business_invariants(r) <==> total_orders == self.handled().len(),
            sound(self.state()),
            forall|i: int, j: int|
                0 <= i < j < r.sales@.len() ==> #[trigger] r.sales@[i].ticket_id
                    != #[trigger] r.sales@[j].ticket_id,
            r.regular_sold == min_nat(
                supply(self.initial(), TicketTier::Regular),
                demand(self.handled(), TicketTier::Regular),
            ),
            r.vip_sold == min_nat(
                supply(self.initial(), TicketTier::Vip),
                demand(self.handled(), TicketTier::Vip),
            ),
            r.regular_remaining == supply(self.initial(), TicketTier::Regular) - r.regular_sold,
            r.vip_remaining == supply(self.initial(), TicketTier::Vip) - r.vip_sold,
            forall|i: int|
                0 <= i < r.sales@.len() ==> 1 <= #[trigger] r.sales@[i].ticket_id <= self.initial(),
            forall|i: int|
                0 <= i < r.sales@.len() ==> sale_for(
                    #[trigger] r.sales@[i],
                    self.handled()[sold_positions(self.initial(), self.handled())[i]],
                ),
            (forall|i: int, j: int|
                0 <= i < j < self.handled().len() ==> #[trigger] self.handled()[i].id
                    != #[trigger] self.handled()[j].id) ==> forall|i: int, j: int|
                0 <= i < j < r.sales@.len() ==> #[trigger] r.sales@[i].order_id
                    != #[trigger] r.sales@[j].order_id,
    {
        proof {
            lemma_office_outcome(self.initial(), self.handled());
            lemma_count_tiers_sum(self.sales@);
            assert(count_tier(self.state().sales, TicketTier::Regular) == min_nat(
                supply(self.initial(), TicketTier::Regular),
                demand(self.handled(), TicketTier::Regular),
            ));
            assert(count_tier(self.state().sales, TicketTier::Vip) == min_nat(
                supply(self.initial(), TicketTier::Vip),
                demand(self.handled(), TicketTier::Vip),
            ));
            assert(stock(self.state(), TicketTier::Regular).len() == supply(
                self.initial(),
                TicketTier::Regular,
            ) - min_nat(
                supply(self.initial(), TicketTier::Regular),
                demand(self.handled(), TicketTier::Regular),
            ));
            assert(stock(self.state(), TicketTier::Vip).len() == supply(
                self.initial(),
                TicketTier::Vip,
            ) - min_nat(
                supply(self.initial(), TicketTier::Vip),
                demand(self.handled(), TicketTier::Vip),
            ));
            if forall|i: int, j: int|
                0 <= i < j < self.handled().len() ==> #[trigger] self.handled()[i].id
                    != #[trigger] self.handled()[j].id {
                lemma_sales_distinct_orders(self.initial(), self.handled());
            }
            lemma_office_never_double_sells(self.initial(), self.handled());
            lemma_office_accounts(self.initial(), self.handled());
            lemma_count_tier_bound(self.sales@, TicketTier::Regular);
        }
        let regular_sold = count_regular(&self.sales);
        let sold = self.sales.len();
        OrderServiceReport {
            total_inventory: self.total_inventory,
            total_orders,
            sold,
            rejected_sold_out: self.rejected_sold_out,
            regular_sold,
            vip_sold: sold - regular_sold,
            regular_remaining: self.inventory.regular.len(),
            vip_remaining: self.inventory.vip.len(),
            queue_capacity,
            service_delay_micros,
            elapsed_nanos,
            producer_summaries: sort_by_source(producer_summaries),
            sales: self.sales,
        }
    }
}

} // verus!
