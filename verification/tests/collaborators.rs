use arbitrage_engine::arbitrage::{
    check_arbitrage_legacy, find_optimal_arbitrage, prepare_pools_for_search, ArbitragePath,
    TriangularPath,
};
use arbitrage_engine::batch_fetcher::{BatchReservesFetcher, LiquidityAnalyzer};
use arbitrage_engine::cache::ReservesCache;
use arbitrage_engine::config::Config;
use arbitrage_engine::constants::{JOE_MOE_POOL, MOE_WMNT_POOL, WMNT_ADDRESS};
use arbitrage_engine::display::{
    format_arbitrage_path, format_duration, format_error, format_info, format_percentage,
    format_pool_reserves, format_single_pool_reserves, format_success, format_token_amount,
    format_warning, DefaultReservesFormatter, ReservesFormatter,
};
use arbitrage_engine::hexcode::parse_address;
use arbitrage_engine::logging::{ConsoleLogger, FileLogger};
use arbitrage_engine::math::{
    div_wide, find_best_input, get_amount_out, mul_div, mul_wide, product_at_least,
};
use arbitrage_engine::pools::moe::MoeProtocol;
use arbitrage_engine::pools::PoolInfo;
use arbitrage_engine::types::{Address, PoolReserves, Token};
use std::time::Duration;

const WEI: u128 = 1_000_000_000_000_000_000;

fn create_test_reserves(token_a: Token, reserve_a: u128, token_b: Token, reserve_b: u128) -> PoolReserves {
    PoolReserves {
        token_a,
        reserve_a: reserve_a * WEI,
        token_b,
        reserve_b: reserve_b * WEI,
        block_number: 1,
        timestamp: 0,
        pool_address: Address::zero(),
    }
}

fn three_pools(a: (u128, u128), b: (u128, u128), c: (u128, u128)) -> (PoolReserves, PoolReserves, PoolReserves) {
    let wmnt = Token::WMNT(Address::zero());
    let moe = Token::MOE(Address::new([1u8; 20]));
    let joe = Token::JOE(Address::new([2u8; 20]));
    (
        create_test_reserves(wmnt, a.0, moe, a.1),
        create_test_reserves(moe, b.0, joe, b.1),
        create_test_reserves(joe, c.0, wmnt, c.1),
    )
}

#[test]
fn test_prepare_pools_for_search() {
    let wmnt_addr = Address::zero();
    let moe_addr = Address::new([1u8; 20]);
    let joe_addr = Address::new([2u8; 20]);

    let moe_wmnt = create_test_reserves(Token::WMNT(wmnt_addr), 1000, Token::MOE(moe_addr), 1000);
    let joe_moe = create_test_reserves(Token::MOE(moe_addr), 1000, Token::JOE(joe_addr), 1000);
    let joe_wmnt = create_test_reserves(Token::JOE(joe_addr), 1000, Token::WMNT(wmnt_addr), 1000);

    let pools = prepare_pools_for_search(&moe_wmnt, &joe_moe, &joe_wmnt);
    assert!(pools.is_some());

    let pools = pools.unwrap();
    assert_eq!(pools.len(), 3);
    assert_eq!(pools[0], (1_000_000_000, 1_000_000_000));
    assert_eq!(pools[1], (1_000_000_000, 1_000_000_000));
    assert_eq!(pools[2], (1_000_000_000, 1_000_000_000));
}

#[test]
fn prepare_pools_turns_each_pool_the_right_way() {
    let wmnt = Token::WMNT(Address::zero());
    let moe = Token::MOE(Address::new([1u8; 20]));
    let joe = Token::JOE(Address::new([2u8; 20]));
    let moe_wmnt = create_test_reserves(moe, 5, wmnt, 7);
    let joe_moe = create_test_reserves(joe, 11, moe, 13);
    let joe_wmnt = create_test_reserves(wmnt, 17, joe, 19);
    let pools = prepare_pools_for_search(&moe_wmnt, &joe_moe, &joe_wmnt).unwrap();
    assert_eq!(pools, vec![(7_000_000, 5_000_000), (13_000_000, 11_000_000), (19_000_000, 17_000_000)]);
    assert!(prepare_pools_for_search(&joe_moe, &joe_moe, &joe_wmnt).is_none());
    assert!(prepare_pools_for_search(&moe_wmnt, &moe_wmnt, &joe_wmnt).is_none());
    assert!(prepare_pools_for_search(&moe_wmnt, &joe_moe, &joe_moe).is_none());
}

#[test]
fn test_triangular_path() {
    let wmnt_addr = Address::zero();
    let moe_addr = Address::new([1u8; 20]);
    let joe_addr = Address::new([2u8; 20]);

    let path = TriangularPath {
        path: vec![Token::WMNT(wmnt_addr), Token::MOE(moe_addr), Token::JOE(joe_addr)],
    };

    assert_eq!(path.get_path_description(), "WMNT -> MOE -> JOE");
    assert_eq!(path.calculate_output(5, &[]), None);
}

fn test_config(fee: u64, gas_price: u64, iterations: usize) -> Config {
    Config {
        rpc_url: "test".to_string(),
        csv_file_path: "test.csv".to_string(),
        dex_fee: fee,
        ternary_search_iterations: iterations,
        gas_price_gwei: gas_price,
        block_time_seconds: 2,
        max_retries: 3,
    }
}

#[test]
fn fixed_route_opportunity() {
    let (a, b, c) = three_pools((1000, 900), (1000, 1100), (1000, 1200));
    let config = test_config(3_000, 20_000, 100);
    let found = find_optimal_arbitrage(&a, &b, &c, &config).unwrap();
    let pools = prepare_pools_for_search(&a, &b, &c).unwrap();
    let (input, gross) = find_best_input(&pools, 3_000, 100);
    assert_eq!(found.optimal_input, input);
    assert_eq!(found.gross_profit, gross);
    assert_eq!(found.final_output, input as i128 + gross);
    assert_eq!(found.net_profit, gross - 14);
    assert_eq!(found.profit_percentage, (gross - 14) * 100_000_000 / input as i128);
    assert_eq!(found.search_method, "ternary_search");
    assert!(found.path.is_none());
    assert!(found.is_profitable());
    // balanced pools: the search ends at the lower edge, and the cost makes the loss
    let (a, b, c) = three_pools((1000, 1000), (1000, 1000), (1000, 1000));
    let flat = find_optimal_arbitrage(&a, &b, &c, &config).unwrap();
    assert!(flat.net_profit < 0);
    assert!(flat.profit_percentage <= 0);
    // no input, no percentage
    let idle = find_optimal_arbitrage(&a, &b, &c, &test_config(3_000, 20_000, 200)).unwrap();
    if idle.optimal_input == 0 {
        assert_eq!(idle.profit_percentage, 0);
        assert_eq!(idle.net_profit, -14);
    }
    assert!(find_optimal_arbitrage(&b, &b, &c, &config).is_none());
}

#[test]
fn raw_unit_swap() {
    assert_eq!(get_amount_out(WEI, 1000 * WEI, 1000 * WEI), 996_006_981_039_903_216);
    assert_eq!(get_amount_out(0, 1000 * WEI, 1000 * WEI), 0);
    assert_eq!(get_amount_out(WEI, 0, 1000 * WEI), 0);
    assert_eq!(get_amount_out(WEI, 1000 * WEI, 0), 0);
    let max: u128 = (1 << 112) - 1;
    assert_eq!(get_amount_out(max, max, max), 2_592_248_356_514_383_147_543_768_072_224_554);
    assert_eq!(get_amount_out(max, 1, max), 5_192_296_858_534_827_628_530_496_329_220_093);
}

#[test]
fn raw_unit_round_trip() {
    let (a, b, c) = three_pools((1000, 900), (1000, 1100), (1000, 1200));
    let (profitable, out, net) = check_arbitrage_legacy(&a, &b, &c, 10 * WEI);
    assert!(profitable);
    assert_eq!(out, 11_444_627_778_407_752_129);
    assert_eq!(net, 1_444_613_778_407_752_129);
    let (a, b, c) = three_pools((1000, 1000), (1000, 1000), (1000, 1000));
    assert_eq!(check_arbitrage_legacy(&a, &b, &c, 10 * WEI), (false, 9_623_299_477_782_990_091, 0));
    assert_eq!(check_arbitrage_legacy(&b, &b, &c, 10 * WEI), (false, 0, 0));
    assert_eq!(check_arbitrage_legacy(&a, &a, &c, 10 * WEI), (false, 0, 0));
    assert_eq!(check_arbitrage_legacy(&a, &b, &b, 10 * WEI), (false, 0, 0));
}

#[test]
fn wide_arithmetic() {
    assert_eq!(mul_wide(u128::MAX, u128::MAX), (u128::MAX - 1, 1));
    assert_eq!(mul_wide(1 << 64, 1 << 64), (1, 0));
    assert_eq!(mul_wide(12345, 67890), (0, 838_102_050));
    assert_eq!(mul_wide(0, u128::MAX), (0, 0));
    assert_eq!(div_wide(0, 100, 7), 14);
    assert_eq!(div_wide(1, 0, 2), 1 << 127);
    assert_eq!(div_wide(u128::MAX - 1, 1, u128::MAX), u128::MAX);
    assert_eq!(mul_div(u128::MAX, u128::MAX, u128::MAX), u128::MAX);
    assert_eq!(
        mul_div((1 << 127) + 12345, (1 << 100) + 7, (1 << 101) + 3),
        85_070_591_730_234_615_865_843_651_858_311_157_788
    );
    assert!(product_at_least(u128::MAX, u128::MAX, u128::MAX, u128::MAX));
    assert!(product_at_least(u128::MAX, 3, u128::MAX, 2));
    assert!(!product_at_least(u128::MAX, 2, u128::MAX, 3));
    assert!(product_at_least(0, 5, 0, 7));
}

#[test]
fn test_batch_fetcher_creation() {
    let fetcher = BatchReservesFetcher::new(3);
    assert_eq!(fetcher.pool_count(), 0);
    assert_eq!(fetcher.max_retries(), 3);
}

#[test]
fn test_pool_address_management() {
    let mut fetcher = BatchReservesFetcher::new(3);

    let addr1 = Address::new([1u8; 20]);
    let addr2 = Address::new([2u8; 20]);

    fetcher.add_pool_address(addr1);
    fetcher.add_pool_address(addr2);
    fetcher.add_pool_address(addr1);

    assert_eq!(fetcher.pool_count(), 2);
    assert!(fetcher.get_pool_addresses().contains(&addr1));
    assert!(fetcher.get_pool_addresses().contains(&addr2));
}

#[test]
fn test_batch_size_setting() {
    let mut fetcher = BatchReservesFetcher::new(3);

    fetcher.set_batch_size(100);
    assert_eq!(fetcher.batch_size(), 100);

    fetcher.set_batch_size(0);
    assert_eq!(fetcher.batch_size(), 1);
}

#[test]
fn batches_and_loaded_addresses() {
    let mut fetcher = BatchReservesFetcher::new(1);
    assert_eq!(fetcher.batch_size(), 50);
    for k in 0..5u8 {
        fetcher.add_pool_address(Address::new([k; 20]));
    }
    fetcher.set_batch_size(2);
    let all: Vec<Address> = (0..5u8).map(|k| Address::new([k; 20])).collect();
    assert_eq!(fetcher.batch_from(0), all[0..2].to_vec());
    assert_eq!(fetcher.batch_from(2), all[2..4].to_vec());
    assert_eq!(fetcher.batch_from(4), all[4..5].to_vec());
    assert!(fetcher.batch_from(5).is_empty());
    assert!(fetcher.batch_from(usize::MAX).is_empty());
    fetcher.set_batch_size(usize::MAX);
    assert_eq!(fetcher.batch_from(1), all[1..5].to_vec());
    assert!(fetcher.load_pool_address(MOE_WMNT_POOL));
    assert!(fetcher.load_pool_address(MOE_WMNT_POOL));
    assert!(!fetcher.load_pool_address("not an address"));
    assert_eq!(fetcher.pool_count(), 7);
    assert_eq!(fetcher.get_pool_addresses()[6], parse_address(MOE_WMNT_POOL).unwrap());
}

#[test]
fn liquidity_filters_and_statistics() {
    let wmnt = Token::WMNT(Address::zero());
    let moe = Token::MOE(Address::new([1u8; 20]));
    let entries: Vec<(Address, PoolReserves)> = [(10u128, 30u128), (500, 1), (40, 40), (7, 9), (1000, 1000)]
        .iter()
        .enumerate()
        .map(|(k, (a, b))| (Address::new([k as u8; 20]), create_test_reserves(wmnt, *a, moe, *b)))
        .collect();
    let fetcher = BatchReservesFetcher::new(1);
    let names = |found: Vec<Address>| found.iter().map(|a| a.bytes[0]).collect::<Vec<u8>>();
    assert_eq!(names(fetcher.filter_by_liquidity(&entries, 20_000_000)), vec![0, 1, 2, 4]);
    assert_eq!(names(fetcher.filter_by_liquidity(&entries, 20_000_001)), vec![1, 2, 4]);
    assert_eq!(names(LiquidityAnalyzer::get_arbitrage_ready_pools(&entries, 10_000_000)), vec![0, 2, 4]);
    assert_eq!(names(LiquidityAnalyzer::get_arbitrage_ready_pools(&entries, 0)), vec![0, 1, 2, 3, 4]);
    let stats = LiquidityAnalyzer::analyze_liquidity_distribution(&entries);
    assert_eq!(stats.total_pools, 5);
    assert_eq!(stats.total_liquidity, 2_637_000_000);
    assert_eq!(stats.mean_liquidity, 527_400_000);
    assert_eq!(stats.median_liquidity, 80_000_000);
    assert_eq!(stats.max_liquidity, 2_000_000_000);
    assert_eq!(stats.min_liquidity, 16_000_000);
    assert_eq!(stats.top_10_pools, vec![2_000_000_000, 501_000_000, 80_000_000, 40_000_000, 16_000_000]);
    let even = LiquidityAnalyzer::analyze_liquidity_distribution(&entries[0..4]);
    assert_eq!(even.median_liquidity, 60_000_000);
    let none = LiquidityAnalyzer::analyze_liquidity_distribution(&[]);
    assert_eq!((none.total_pools, none.total_liquidity, none.mean_liquidity), (0, 0, 0));
    assert_eq!((none.median_liquidity, none.max_liquidity, none.min_liquidity), (0, 0, 0));
    let many: Vec<(Address, PoolReserves)> =
        (1..=12u128).map(|k| (Address::zero(), create_test_reserves(wmnt, k, moe, 0))).collect();
    let top = LiquidityAnalyzer::analyze_liquidity_distribution(&many).top_10_pools;
    assert_eq!(top, (3..=12u128).rev().map(|k| k * 1_000_000).collect::<Vec<u128>>());
}

#[test]
fn test_token_from_address() {
    let wmnt_addr = parse_address(WMNT_ADDRESS).unwrap();
    let token = Token::from_address(wmnt_addr);
    assert!(token.is_some());

    match token.unwrap() {
        Token::WMNT(_) => {}
        _ => panic!("Expected WMNT token"),
    }
}

#[test]
fn addresses_from_text() {
    let address = parse_address(JOE_MOE_POOL).unwrap();
    assert_eq!(address.bytes[0], 0xb6);
    assert_eq!(address.bytes[1], 0x70);
    assert_eq!(address.bytes[19], 0xa1);
    assert_eq!(parse_address("b670D2B452D0Ecc468cccFD532482d45dDdDe2a1"), Some(address));
    assert_eq!(parse_address("0x0xb670d2b452d0ecc468cccfd532482d45dddde2a1"), Some(address));
    assert_eq!(parse_address("0xb670D2B452D0Ecc468cccFD532482d45dDdDe2"), None);
    assert_eq!(parse_address("0xb670D2B452D0Ecc468cccFD532482d45dDdDe2a"), None);
    assert_eq!(parse_address("0xg670D2B452D0Ecc468cccFD532482d45dDdDe2a1"), None);
    assert_eq!(parse_address(""), None);
    assert_eq!(parse_address("0x0000000000000000000000000000000000000000"), Some(Address::zero()));
}

fn create_display_reserves() -> PoolReserves {
    PoolReserves {
        token_a: Token::WMNT(Address::zero()),
        reserve_a: 1000u128 * 1_000_000_000_000_000_000u128,
        token_b: Token::MOE(Address::new([1u8; 20])),
        reserve_b: 2000u128 * 1_000_000_000_000_000_000u128,
        block_number: 1,
        timestamp: 0,
        pool_address: Address::zero(),
    }
}

#[test]
fn test_format_single_pool_reserves() {
    let reserves = create_display_reserves();
    let formatted = format_single_pool_reserves(&reserves);
    assert!(formatted.contains("1000.00 WMNT"));
    assert!(formatted.contains("2000.00 MOE"));
    assert_eq!(formatted, "1000.00 WMNT / 2000.00 MOE");
}

#[test]
fn test_format_arbitrage_path() {
    let tokens = vec![
        Token::WMNT(Address::zero()),
        Token::MOE(Address::new([1u8; 20])),
        Token::JOE(Address::new([2u8; 20])),
    ];
    let formatted = format_arbitrage_path(&tokens);
    assert_eq!(formatted, "WMNT → MOE → JOE");
}

#[test]
fn test_format_percentage() {
    assert_eq!(format_percentage(5_250_000), "+5.25%");
    assert_eq!(format_percentage(-2_100_000), "-2.10%");
    assert_eq!(format_percentage(0), "0.00%");
}

#[test]
fn numbers_as_text() {
    assert_eq!(format_percentage(5_254_999), "+5.25%");
    assert_eq!(format_percentage(5_255_000), "+5.26%");
    assert_eq!(format_percentage(999_995_000), "+1000.00%");
    assert_eq!(format_percentage(-4_999), "-0.00%");
    assert_eq!(format_percentage(i128::MIN), "-170141183460469231731687303715884.11%");
    assert_eq!(format_token_amount(1_234_567, &Token::JOE(Address::zero())), "1.234567 JOE");
    assert_eq!(format_token_amount(0, &Token::MOE(Address::zero())), "0.000000 MOE");
    assert_eq!(format_token_amount(u64::MAX, &Token::WMNT(Address::zero())), "18446744073709.551615 WMNT");
    assert_eq!(format_duration(Duration::from_millis(0)), "0ms");
    assert_eq!(format_duration(Duration::from_millis(999)), "999ms");
    assert_eq!(format_duration(Duration::from_nanos(999_999_999)), "999ms");
    assert_eq!(format_duration(Duration::from_millis(1000)), "1.00s");
    assert_eq!(format_duration(Duration::from_millis(1234)), "1.23s");
    assert_eq!(format_duration(Duration::from_millis(1236)), "1.24s");
    assert_eq!(format_duration(Duration::from_secs(3600)), "3600.00s");
    assert_eq!(format_error("boom"), "❌ boom");
    assert_eq!(format_success("done"), "✅ done");
    assert_eq!(format_warning("careful"), "⚠️ careful");
    assert_eq!(format_info(""), "ℹ️ ");
}

#[test]
fn test_default_reserves_formatter() {
    let formatter = DefaultReservesFormatter::new();
    let reserves = create_display_reserves();
    let entries = vec![(Address::zero(), reserves)];

    let formatted = formatter.format_reserves(&entries);
    assert!(formatted.contains("Unknown Pool"));
    assert!(formatted.contains("1000.00 WMNT"));
}

#[test]
fn formatter_names_known_pools() {
    let one = Address::new([1u8; 20]);
    let two = Address::new([2u8; 20]);
    let formatter = DefaultReservesFormatter::with_pools(vec![(one, "First".to_string()), (one, "Again".to_string())]);
    let reserves = create_display_reserves();
    assert_eq!(formatter.format_pool(one, &reserves), "📊 First: 1000.00 WMNT / 2000.00 MOE");
    assert_eq!(formatter.format_pool(two, &reserves), "📊 Unknown Pool: 1000.00 WMNT / 2000.00 MOE");
    assert_eq!(
        formatter.format_reserves(&[(two, reserves), (one, reserves)]),
        "   📊 Unknown Pool: 1000.00 WMNT / 2000.00 MOE\n   📊 First: 1000.00 WMNT / 2000.00 MOE"
    );
    assert_eq!(formatter.format_reserves(&[]), "");
}

#[test]
fn three_pool_report() {
    let wmnt = Token::WMNT(Address::zero());
    let moe = Token::MOE(Address::new([1u8; 20]));
    let joe = Token::JOE(Address::new([2u8; 20]));
    let (p1, p2, p3) = (Address::new([11u8; 20]), Address::new([12u8; 20]), Address::new([13u8; 20]));
    let entries = vec![
        (p1, create_test_reserves(moe, 5, wmnt, 7)),
        (p2, create_test_reserves(wmnt, 1, joe, 2)),
        (p3, create_test_reserves(joe, 3, wmnt, 4)),
    ];
    assert_eq!(
        format_pool_reserves(p1, p2, p3, &entries),
        "   📊 MOE-WMNT: 7.00 WMNT / 5.00 MOE\n   📊 JOE-MOE(?): 0.00 MOE / 0.00 JOE\n   📊 JOE-WMNT: 3.00 JOE / 4.00 WMNT"
    );
    assert_eq!(format_pool_reserves(p2, p2, p2, &entries[0..1]), "");
    assert_eq!(format_pool_reserves(p3, p1, p2, &entries[0..1]), "   📊 JOE-MOE(?): 0.00 MOE / 0.00 JOE\n");
}

#[test]
fn test_batch_reserves_fetcher() {
    let mut fetcher = arbitrage_engine::multi_path::BatchReservesFetcher::new();

    let addr1 = Address::new([1u8; 20]);
    let addr2 = Address::new([2u8; 20]);

    fetcher.add_pool_address(addr1);
    fetcher.add_pool_address(addr2);
    fetcher.add_pool_address(addr1);

    assert_eq!(fetcher.get_pool_addresses().len(), 2);
    assert!(fetcher.load_pool_address(MOE_WMNT_POOL));
    assert!(!fetcher.load_pool_address("0x12"));
    assert_eq!(fetcher.get_pool_addresses().len(), 3);
}

#[test]
fn test_pool_info() {
    let wmnt_addr = Address::zero();
    let moe_addr = Address::new([1u8; 20]);

    let pool = PoolInfo::new(
        Address::new([2u8; 20]),
        "Test Pool".to_string(),
        Token::WMNT(wmnt_addr),
        Token::MOE(moe_addr),
        "TestDEX".to_string(),
        3_000,
    );

    assert_eq!(pool.get_display_name(), "WMNT-MOE (TestDEX)");
    assert!(pool.contains_tokens(Token::WMNT(wmnt_addr), Token::MOE(moe_addr)));
    assert!(pool.contains_tokens(Token::MOE(moe_addr), Token::WMNT(wmnt_addr)));
    assert!(!pool.contains_tokens(Token::MOE(moe_addr), Token::JOE(Address::new([3u8; 20]))));
}

#[test]
fn test_moe_protocol_creation() {
    let protocol = MoeProtocol::new();
    assert_eq!(protocol.name(), "MOE");
    assert_eq!(protocol.default_fee(), 3_000);
    assert_eq!(protocol.get_known_pools().len(), 3);
}

#[test]
fn test_pool_addresses() {
    let protocol = MoeProtocol::new();
    let addresses = protocol.get_pool_addresses();
    assert_eq!(addresses.len(), 3);

    let (moe_wmnt, joe_moe, joe_wmnt) = protocol.get_main_triangular_pools();
    assert!(addresses.contains(&moe_wmnt));
    assert!(addresses.contains(&joe_moe));
    assert!(addresses.contains(&joe_wmnt));
}

#[test]
fn test_triangular_paths() {
    let protocol = MoeProtocol::new();
    let paths = protocol.get_triangular_paths();
    assert_eq!(paths.len(), 1);
    assert_eq!(paths[0].len(), 4);
}

#[test]
fn test_validate_triangular_setup() {
    let protocol = MoeProtocol::new();
    let result = protocol.validate_triangular_setup();
    assert!(result.is_ok());
}

#[test]
fn test_pool_validation() {
    let protocol = MoeProtocol::new();
    let moe_wmnt = protocol.moe_wmnt_pool();
    assert!(protocol.is_valid_pool(moe_wmnt));

    let invalid_addr = Address::zero();
    assert!(!protocol.is_valid_pool(invalid_addr));
}

#[test]
fn protocol_knows_its_pools() {
    let protocol = MoeProtocol::new();
    let joe_moe = protocol.joe_moe_pool();
    assert_eq!(joe_moe, parse_address(JOE_MOE_POOL).unwrap());
    let info = protocol.get_pool_info(joe_moe).unwrap();
    assert_eq!(info.1, "JOE-MOE");
    assert!(matches!(info.2, Token::JOE(_)));
    assert!(matches!(info.3, Token::MOE(_)));
    assert!(protocol.get_pool_info(Address::zero()).is_none());
    assert!(protocol.is_moe_pool(protocol.joe_wmnt_pool()));
    let path = &protocol.get_triangular_paths()[0];
    assert_eq!(path[0].address(), parse_address(WMNT_ADDRESS).unwrap());
    assert_eq!(path[0], path[3]);
    assert_eq!(path[1].symbol(), "MOE");
}

#[test]
fn reserves_cache() {
    let wmnt = Token::WMNT(Address::zero());
    let moe = Token::MOE(Address::new([1u8; 20]));
    let (one, two) = (Address::new([1u8; 20]), Address::new([2u8; 20]));
    let mut cache = ReservesCache::new();
    assert_eq!(cache.get_last_block(), 0);
    assert!(cache.get(&one).is_none());
    assert!(cache.has_changed(1));
    assert!(!cache.has_changed(0));
    let mut first = create_test_reserves(wmnt, 10, moe, 20);
    first.block_number = 7;
    cache.update(one, first);
    assert_eq!(cache.get(&one), Some(&first));
    assert_eq!(cache.get_last_block(), 7);
    assert!(!cache.has_changed(7));
    assert!(cache.has_changed(8));
    assert!(!cache.reserves_changed(&[(one, first)]));
    assert!(cache.reserves_changed(&[(two, first)]));
    assert!(cache.reserves_changed(&[]));
    assert!(cache.reserves_changed(&[(one, create_test_reserves(wmnt, 10, moe, 21))]));
    assert!(cache.reserves_changed(&[(one, create_test_reserves(wmnt, 11, moe, 20))]));
    // only the reserves count, not the block
    let mut later = first;
    later.block_number = 9;
    assert!(!cache.reserves_changed(&[(one, later)]));
    cache.update(two, later);
    cache.update(one, later);
    assert_eq!(cache.get_all().len(), 2);
    assert_eq!(cache.get(&one).unwrap().block_number, 9);
    assert_eq!(cache.get_last_block(), 9);
    cache.update_block_number(12);
    assert_eq!(cache.get_last_block(), 12);
    assert_eq!(cache.get_all().len(), 2);
    cache.clear();
    assert_eq!(cache.get_all().len(), 0);
    assert_eq!(cache.get_last_block(), 0);
}

#[test]
fn loggers() {
    let _console = ConsoleLogger;
    let file = FileLogger::new("engine.log".to_string());
    assert_eq!(file.file_path(), "engine.log");
}
