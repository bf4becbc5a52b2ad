use final_project::analytics::{
    analyze_sales_parallel, analyze_sales_sequential, build_analytics_dataset,
    calculate_risk_score, can_analyze, sale_checksum, AnalyticsAccumulator,
};
use final_project::cli::{parse_cli, CliError, CliOption, Mode, Settings};
use final_project::tickets::{
    create_inventory, make_order_id, order_for, pick_requested_tier, sort_by_source,
    OrderProducer, OrderServiceReport, ProducerSummary, Sale, TicketOffice, TicketTier,
};

fn fast_settings() -> Settings {
    Settings {
        tickets: 25,
        producers: 8,
        orders_per_producer: 20,
        queue_capacity: 4,
        analytics_records: 10_000,
        service_delay_micros: 0,
    }
}

/// Every producer's orders reach the office, one producer after the other.
fn serve_in_turn(settings: Settings) -> OrderServiceReport {
    let mut office = TicketOffice::new(settings.tickets);
    let mut summaries = Vec::new();
    for source_id in (0..settings.producers).rev() {
        let mut summary = ProducerSummary::start(source_id);
        for sequence in 0..settings.orders_per_producer {
            let order = order_for(source_id, sequence, settings.orders_per_producer);
            office.process_order(order);
            summary.record_send(150_000);
        }
        summaries.push(summary);
    }
    office.finish(
        settings.total_orders(),
        settings.queue_capacity,
        settings.service_delay_micros,
        0,
        summaries,
    )
}

#[test]
fn mpsc_order_service_preserves_business_invariants() {
    let report = serve_in_turn(fast_settings());

    assert!(report.invariant_ok());
    assert_eq!(report.sold, report.sales.len());
    assert!(report.sold <= report.total_inventory);
}

#[test]
fn bounded_queue_receives_every_submitted_order() {
    let report = serve_in_turn(fast_settings());
    let submitted_by_producers: usize = report
        .producer_summaries
        .iter()
        .map(|summary| summary.submitted)
        .sum();

    assert_eq!(submitted_by_producers, report.total_orders);
    assert_eq!(report.sold + report.rejected_sold_out, report.total_orders);
    assert_eq!(report.submitted_by_producers(), report.total_orders);
}

#[test]
fn rayon_parallel_analytics_matches_sequential_analytics() {
    let settings = fast_settings();
    let live_report = serve_in_turn(settings);
    let dataset = build_analytics_dataset(
        &live_report.sales,
        settings.analytics_records,
        settings.producers,
    );
    assert!(can_analyze(&dataset, settings.producers));
    let sequential = analyze_sales_sequential(&dataset, settings.producers);
    let parallel = analyze_sales_parallel(&dataset, settings.producers);

    assert_eq!(sequential, parallel);
    assert_eq!(parallel.records, settings.analytics_records);
    assert_eq!(parallel.per_source_sales.iter().sum::<usize>(), parallel.records);
}

#[test]
fn report_counts_of_the_fast_run() {
    let report = serve_in_turn(fast_settings());
    assert_eq!(report.total_orders, 160);
    assert_eq!(report.total_inventory, 25);
    assert_eq!(report.sold, 25);
    assert_eq!(report.rejected_sold_out, 135);
    assert_eq!(report.remaining(), 0);
    assert_eq!(report.regular_sold + report.vip_sold, 25);
    assert_eq!(report.regular_sold, 20);
    assert_eq!(report.vip_sold, 5);
    assert_eq!(report.blocked_sends(), 160);
    assert_eq!(report.total_send_wait(), 160 * 150_000);
    let order: Vec<usize> = report.producer_summaries.iter().map(|p| p.source_id).collect();
    assert_eq!(order, vec![0, 1, 2, 3, 4, 5, 6, 7]);
}

#[test]
fn report_invariant_fails_when_orders_are_missing() {
    let mut office = TicketOffice::new(10);
    office.process_order(order_for(0, 0, 5));
    let report = office.finish(5, 1, 0, 0, Vec::new());
    assert!(!report.invariant_ok());
    assert_eq!(report.sold + report.rejected_sold_out, 1);
}

#[test]
fn inventory_is_one_fifth_vip() {
    let inv = create_inventory(100);
    assert_eq!(inv.regular.len(), 80);
    assert_eq!(inv.vip.len(), 20);
    assert_eq!(inv.regular[0].id, 1);
    assert_eq!(inv.regular[79].id, 80);
    assert_eq!(inv.vip[0].id, 81);
    assert_eq!(inv.vip[19].id, 100);
    assert_eq!(inv.vip[0].price_cents, 3_800);
    assert_eq!(inv.regular[0].tier, TicketTier::Regular);
    let small = create_inventory(4);
    assert_eq!(small.regular.len(), 4);
    assert_eq!(small.vip.len(), 0);
}

#[test]
fn pop_for_takes_tickets_in_order() {
    let mut inv = create_inventory(5);
    assert_eq!(inv.pop_for(TicketTier::Vip).map(|t| t.id), Some(5));
    assert_eq!(inv.pop_for(TicketTier::Vip), None);
    assert_eq!(inv.pop_for(TicketTier::Regular).map(|t| t.id), Some(1));
    assert_eq!(inv.regular.len(), 3);
}

#[test]
fn office_sells_and_rejects() {
    let mut office = TicketOffice::new(5);
    let vip_order = order_for(0, 0, 3);
    assert_eq!(vip_order.requested_tier, TicketTier::Vip);
    let sale = office.process_order(vip_order).unwrap();
    assert_eq!(sale.ticket_id, 5);
    assert_eq!(sale.order_id, 1);
    assert_eq!(sale.customer_id, 10_001);
    assert_eq!(sale.price_cents, 3_800);
    assert_eq!(office.process_order(vip_order), None);
    let report = office.finish(2, 0, 0, 7, Vec::new());
    assert!(report.invariant_ok());
    assert_eq!(report.rejected_sold_out, 1);
    assert_eq!(report.elapsed_nanos, 7);
}

#[test]
fn orders_are_numbered_and_tiered() {
    assert_eq!(make_order_id(0, 0, 80), 1);
    assert_eq!(make_order_id(2, 5, 80), 166);
    assert_eq!(pick_requested_tier(0, 0), TicketTier::Vip);
    assert_eq!(pick_requested_tier(0, 1), TicketTier::Regular);
    assert_eq!(pick_requested_tier(1, 1), TicketTier::Vip);
    let order = order_for(3, 4, 10);
    assert_eq!(order.id, 35);
    assert_eq!(order.customer_id, 10_035);
    assert_eq!(order.source_id, 3);
    assert_eq!(order.requested_tier, TicketTier::Regular);
    assert_eq!(TicketTier::Regular.price_cents(), 1_200);
    assert_eq!(TicketTier::Vip.price_cents(), 3_800);
}

#[test]
fn producer_summary_counts_slow_sends() {
    let mut p = ProducerSummary::start(4);
    p.record_send(99_999);
    p.record_send(100_000);
    p.record_send(5);
    assert_eq!(p.submitted, 3);
    assert_eq!(p.blocked_sends, 1);
    assert_eq!(p.send_wait_nanos, 200_004);
    assert_eq!(p.source_id, 4);
}

#[test]
fn summaries_sort_by_source() {
    let ps = vec![
        ProducerSummary::start(3),
        ProducerSummary::start(1),
        ProducerSummary::start(2),
        ProducerSummary::start(1),
    ];
    let sorted: Vec<usize> = sort_by_source(ps).iter().map(|p| p.source_id).collect();
    assert_eq!(sorted, vec![1, 1, 2, 3]);
    assert!(sort_by_source(Vec::new()).is_empty());
}

fn sale(order_id: usize, source_id: usize, tier: TicketTier, price_cents: u64) -> Sale {
    Sale {
        order_id,
        customer_id: 10_000 + order_id,
        source_id,
        ticket_id: order_id,
        tier,
        price_cents,
    }
}

#[test]
fn risk_score_and_checksum_values() {
    let s = sale(1, 0, TicketTier::Regular, 1_200);
    assert_eq!(calculate_risk_score(&s), 620);
    assert_eq!(sale_checksum(&s, 620), 171_749);
    let zero = Sale {
        order_id: 0,
        customer_id: 0,
        source_id: 0,
        ticket_id: 0,
        tier: TicketTier::Regular,
        price_cents: 0,
    };
    assert_eq!(calculate_risk_score(&zero), 408);
}

#[test]
fn analytics_figures_of_a_small_batch() {
    let sales = vec![
        sale(1, 0, TicketTier::Regular, 1_200),
        sale(2, 2, TicketTier::Vip, 3_800),
        sale(3, 0, TicketTier::Vip, 3_900),
        sale(4, 2, TicketTier::Regular, 1_300),
    ];
    let r = analyze_sales_sequential(&sales, 3);
    assert_eq!(r.records, 4);
    assert_eq!(r.revenue_cents, 10_200);
    assert_eq!(r.regular_sales, 2);
    assert_eq!(r.vip_sales, 2);
    assert_eq!(r.high_value_sales, 2);
    assert_eq!(r.per_source_sales, vec![2, 0, 2]);
    assert_eq!(r.busiest_source, 2);
    assert_eq!(r.busiest_source_sales, 2);
    assert_eq!(analyze_sales_parallel(&sales, 3), r);
}

#[test]
fn analytics_of_nothing() {
    let r = analyze_sales_sequential(&[], 0);
    assert_eq!(r.records, 0);
    assert_eq!(r.busiest_source, 0);
    assert_eq!(r.busiest_source_sales, 0);
    assert_eq!(r.checksum, 0);
    assert_eq!(analyze_sales_parallel(&[], 0), r);
    let r4 = analyze_sales_sequential(&[], 4);
    assert_eq!(r4.per_source_sales, vec![0, 0, 0, 0]);
    assert_eq!(r4.busiest_source, 3);
}

#[test]
fn accumulators_merge_like_one_run() {
    let a = sale(1, 0, TicketTier::Regular, 1_200);
    let b = sale(2, 1, TicketTier::Vip, 3_800);
    let mut left = AnalyticsAccumulator::new(2);
    left.record_sale(&a);
    let right = AnalyticsAccumulator::new(2).fold_step(&b);
    let merged = left.merge(right).finalize();
    assert_eq!(merged, analyze_sales_sequential(&[a, b], 2));
}

#[test]
fn dataset_is_seed_then_synthetic() {
    let seed = vec![sale(9, 1, TicketTier::Vip, 3_800)];
    let d = build_analytics_dataset(&seed, 4, 3);
    assert_eq!(d.len(), 4);
    assert_eq!(d[0], seed[0]);
    assert_eq!(d[1].order_id, 2);
    assert_eq!(d[1].customer_id, 50_001);
    assert_eq!(d[1].source_id, 1);
    assert_eq!(d[1].tier, TicketTier::Vip);
    assert_eq!(d[1].price_cents, 3_825);
    assert_eq!(d[2].tier, TicketTier::Vip);
    assert_eq!(d[2].price_cents, 3_850);
    assert_eq!(d[3].tier, TicketTier::Regular);
    assert_eq!(d[3].price_cents, 1_275);
    assert_eq!(d[2].source_id, 2);
    assert_eq!(d[3].source_id, 0);
    assert_eq!(build_analytics_dataset(&seed, 0, 0), seed);
    let from_zero = build_analytics_dataset(&[], 1, 5);
    assert_eq!(from_zero[0].tier, TicketTier::Vip);
    assert_eq!(from_zero[0].price_cents, 3_800);
}

#[test]
fn can_analyze_checks_sources_and_revenue() {
    let s = sale(1, 2, TicketTier::Regular, 1_200);
    assert!(can_analyze(&[s], 3));
    assert!(!can_analyze(&[s], 2));
    let big = sale(1, 0, TicketTier::Regular, u64::MAX);
    assert!(can_analyze(&[big], 1));
    assert!(!can_analyze(&[big, s], 3));
}

fn args(list: &[&str]) -> Vec<String> {
    list.iter().map(|a| a.to_string()).collect()
}

#[test]
fn cli_defaults_and_modes() {
    assert_eq!(parse_cli(&args(&[])), Ok((Mode::All, Settings::default())));
    assert_eq!(parse_cli(&args(&["rayon"])).map(|r| r.0), Ok(Mode::Rayon));
    assert_eq!(parse_cli(&args(&["mpsc"])).map(|r| r.0), Ok(Mode::Mpsc));
    let d = Settings::default();
    assert_eq!(d.tickets, 100);
    assert_eq!(d.producers, 16);
    assert_eq!(d.orders_per_producer, 80);
    assert_eq!(d.queue_capacity, 32);
    assert_eq!(d.analytics_records, 500_000);
    assert_eq!(d.service_delay_micros, 500);
    assert_eq!(d.total_orders(), 1_280);
}

#[test]
fn cli_options_and_aliases() {
    let (mode, s) = parse_cli(&args(&[
        "mpsc",
        "--tickets",
        "7",
        "--workers",
        "3",
        "--attempts",
        "+2",
        "--queue-capacity",
        "0",
        "--analytics-records",
        "9",
        "--service-delay-us",
        "11",
    ]))
    .unwrap();
    assert_eq!(mode, Mode::Mpsc);
    assert_eq!(s.tickets, 7);
    assert_eq!(s.producers, 3);
    assert_eq!(s.orders_per_producer, 2);
    assert_eq!(s.queue_capacity, 0);
    assert_eq!(s.analytics_records, 9);
    assert_eq!(s.service_delay_micros, 11);
}

#[test]
fn cli_errors() {
    assert_eq!(parse_cli(&args(&["--help"])), Err(CliError::Help));
    assert_eq!(parse_cli(&args(&["all", "-h"])), Err(CliError::Help));
    assert_eq!(parse_cli(&args(&["fast"])), Err(CliError::UnknownArgument(0)));
    assert_eq!(parse_cli(&args(&["rayon", "--x"])), Err(CliError::UnknownArgument(1)));
    assert_eq!(
        parse_cli(&args(&["--tickets"])),
        Err(CliError::MissingValue(CliOption::Tickets))
    );
    assert_eq!(
        parse_cli(&args(&["--orders", "-1"])),
        Err(CliError::InvalidValue(CliOption::Orders, 1))
    );
    assert_eq!(parse_cli(&args(&["--tickets", "0"])), Err(CliError::NotPositive));
    assert_eq!(parse_cli(&args(&["--queue-capacity", "0"])).map(|r| r.1.queue_capacity), Ok(0));
    assert_eq!(CliOption::ServiceDelay.name(), "--service-delay-us");
    assert_eq!(Mode::parse("rayon"), Some(Mode::Rayon));
    assert_eq!(Mode::parse("Rayon"), None);
}

#[test]
fn no_ticket_is_sold_twice() {
    let report = serve_in_turn(Settings {
        tickets: 40,
        producers: 5,
        orders_per_producer: 30,
        queue_capacity: 1,
        analytics_records: 1,
        service_delay_micros: 0,
    });
    let mut ids: Vec<usize> = report.sales.iter().map(|s| s.ticket_id).collect();
    ids.sort();
    ids.dedup();
    assert_eq!(ids.len(), report.sales.len());
    assert!(ids.iter().all(|&id| (1..=40).contains(&id)));
    for s in &report.sales {
        assert_eq!(s.price_cents, s.tier.price_cents());
    }
    assert!(report.invariant_ok());
}

#[test]
fn order_producer_sends_its_quota() {
    let mut producer = OrderProducer::new(2, 5);
    let mut ids = Vec::new();
    while let Some(order) = producer.next_order() {
        assert_eq!(order, order_for(2, ids.len(), 5));
        ids.push(order.id);
        producer.record_send(if ids.len() == 3 { 200_000 } else { 10 });
    }
    assert_eq!(ids, vec![11, 12, 13, 14, 15]);
    assert_eq!(producer.wait_so_far(), 200_040);
    let summary = producer.finish();
    assert_eq!(summary.source_id, 2);
    assert_eq!(summary.submitted, 5);
    assert_eq!(summary.blocked_sends, 1);
    assert_eq!(summary.send_wait_nanos, 200_040);

    let mut idle = OrderProducer::new(0, 0);
    assert!(idle.next_order().is_none());
    assert_eq!(idle.wait_so_far(), 0);
    idle = OrderProducer::new(1, 0);
    assert_eq!(idle.finish().submitted, 0);
}

#[test]
fn sort_by_source_keeps_equal_sources_in_order() {
    let mut first = ProducerSummary::start(1);
    first.record_send(5);
    let mut second = ProducerSummary::start(1);
    second.record_send(7);
    second.record_send(7);
    let ps = vec![ProducerSummary::start(2), first, ProducerSummary::start(0), second];
    let sorted = sort_by_source(ps);
    let keys: Vec<(usize, usize)> = sorted.iter().map(|p| (p.source_id, p.submitted)).collect();
    assert_eq!(keys, vec![(0, 0), (1, 1), (1, 2), (2, 0)]);
}

#[test]
fn each_tier_sells_the_lesser_of_supply_and_demand() {
    let settings = fast_settings();
    let mut vip_demand = 0;
    for s in 0..settings.producers {
        for q in 0..settings.orders_per_producer {
            if (13 * s + 7 * q) % 5 == 0 {
                vip_demand += 1;
            }
        }
    }
    let total = settings.producers * settings.orders_per_producer;
    let vip_supply = settings.tickets / 5;
    let regular_supply = settings.tickets - vip_supply;
    let report = serve_in_turn(settings);
    assert_eq!(report.vip_sold, vip_supply.min(vip_demand));
    assert_eq!(report.regular_sold, regular_supply.min(total - vip_demand));
    assert_eq!(report.sold + report.rejected_sold_out, total);
    for sale in &report.sales {
        assert!(sale.ticket_id >= 1 && sale.ticket_id <= settings.tickets);
        let order = order_for(sale.source_id, (sale.order_id - 1) % settings.orders_per_producer, settings.orders_per_producer);
        assert_eq!(order.id, sale.order_id);
        assert_eq!(sale.tier, order.requested_tier);
        assert_eq!(sale.price_cents, sale.tier.price_cents());
    }
}

#[test]
fn report_keeps_each_producers_summaries_in_order() {
    let office = TicketOffice::new(5);
    let mut first = ProducerSummary::start(1);
    first.record_send(5);
    let mut second = ProducerSummary::start(1);
    second.record_send(7);
    second.record_send(7);
    let summaries = vec![second, ProducerSummary::start(0), first];
    let report = office.finish(0, 1, 0, 0, summaries);
    let keys: Vec<(usize, usize)> =
        report.producer_summaries.iter().map(|p| (p.source_id, p.submitted)).collect();
    assert_eq!(keys, vec![(0, 0), (1, 2), (1, 1)]);
}

#[test]
fn producer_with_no_orders_fits_any_number() {
    let producer = OrderProducer::new(usize::MAX, 0);
    assert!(producer.next_order().is_none());
    assert_eq!(producer.finish().source_id, usize::MAX);
}
