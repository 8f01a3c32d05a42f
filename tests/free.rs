use cmdparse::error::ParseError;
use cmdparse::free::FreeLine;

const NO_ARGS: &str = "               total        used        free      shared  buff/cache   available
Mem:        16288676     4108428     7520512      595104     4659736    11737372
Swap:        2097148           0     2097148
";

const TOTAL: &str = "               total        used        free      shared  buff/cache   available
Mem:        16288676     4108428     7520512      595104     4659736    11737372
Swap:        2097148           0     2097148
Total:      18385824     4108428     9617660
";

const WIDE: &str = "               total        used        free      shared     buffers       cache   available
Mem:        16288676     4108428     7520512      595104      318744     4340992    11737372
Swap:        2097148           0     2097148
";

const HUMAN: &str = "               total        used        free      shared  buff/cache   available
Mem:            15Gi       3.9Gi       7.2Gi       581Mi       4.4Gi        11Gi
Swap:          2.0Gi          0B       2.0Gi
";

const HUMAN_SI: &str = "               total        used        free      shared  buff/cache   available
Mem:             16G        4.2G        7.7G        609M        4.8G         12G
Swap:           2.1G          0B        2.1G
";

#[test]
fn parse_no_args() {
    let parsed = FreeLine::parse(NO_ARGS).unwrap();
    assert_eq!(parsed.len(), 2);
    assert_eq!(parsed[0].kind, "Mem");
    assert_eq!(parsed[0].total, 16288676);
    assert_eq!(parsed[1].kind, "Swap");
}

#[test]
fn parse_total() {
    let parsed = FreeLine::parse(TOTAL).unwrap();
    assert_eq!(parsed.len(), 3);
    assert_eq!(parsed[2].kind, "Total");
    assert_eq!(parsed[2].total, 18385824);
    assert_eq!(parsed[2].used, 4108428);
    assert_eq!(parsed[2].free, 9617660);
    assert_eq!(parsed[2].shared, None);
}

#[test]
fn parse_wide() {
    let parsed = FreeLine::parse(WIDE).unwrap();
    assert_eq!(parsed.len(), 2);
    assert_eq!(parsed[0].buffers, Some(318744));
    assert_eq!(parsed[0].cache, Some(4340992));
    assert_eq!(parsed[0].buff_cache, None);
    assert_eq!(parsed[0].available, Some(11737372));
}

#[test]
fn parse_human() {
    let parsed = FreeLine::parse(HUMAN).unwrap();
    assert_eq!(parsed.len(), 2);
    assert_eq!(parsed[0].total, 15 * 1024 * 1024 * 1024);
    assert_eq!(parsed[0].shared, Some(581 * 1024 * 1024));
    assert_eq!(parsed[0].used, 4187593113);
    assert_eq!(parsed[1].used, 0);
    assert_eq!(parsed[1].total, 2 * 1024 * 1024 * 1024);
}

#[test]
fn parse_human_si() {
    let parsed = FreeLine::parse(HUMAN_SI).unwrap();
    assert_eq!(parsed.len(), 2);
    assert_eq!(parsed[0].total, 16_000_000_000);
    assert_eq!(parsed[0].used, 4_200_000_000);
    assert_eq!(parsed[0].shared, Some(609_000_000));
    assert_eq!(parsed[1].free, 2_100_000_000);
}

#[test]
fn free_scenario_mem_and_swap() {
    let input = "              total        used        free      shared  buff/cache   available\nMem:       16288676     4108428     7520512      595104     4659736    11737372\nSwap:       2097148           0     2097148\n";
    let parsed = FreeLine::parse(input).unwrap();
    assert_eq!(parsed.len(), 2);
    let mem = &parsed[0];
    assert_eq!(mem.kind, "Mem");
    assert_eq!(mem.total, 16288676);
    assert_eq!(mem.used, 4108428);
    assert_eq!(mem.free, 7520512);
    assert_eq!(mem.shared, Some(595104));
    assert_eq!(mem.buff_cache, Some(4659736));
    assert_eq!(mem.available, Some(11737372));
    assert_eq!(mem.buffers, None);
    assert_eq!(mem.cache, None);
    let swap = &parsed[1];
    assert_eq!(swap.kind, "Swap");
    assert_eq!(swap.total, 2097148);
    assert_eq!(swap.used, 0);
    assert_eq!(swap.free, 2097148);
    assert_eq!(swap.shared, None);
    assert_eq!(swap.buff_cache, None);
    assert_eq!(swap.available, None);
}

#[test]
fn free_records_follow_row_order() {
    let parsed = FreeLine::parse(TOTAL).unwrap();
    let kinds: Vec<&str> = parsed.iter().map(|l| l.kind).collect();
    assert_eq!(kinds, vec!["Mem", "Swap", "Total"]);
}

#[test]
fn free_header_only() {
    let parsed = FreeLine::parse("      total  used  free\n").unwrap();
    assert!(parsed.is_empty());
}

#[test]
fn free_empty_input() {
    assert_eq!(FreeLine::parse(""), Err(ParseError::EmptyInput));
}

#[test]
fn free_blank_lines_skipped() {
    let parsed = FreeLine::parse("  total used free\n\nMem: 1 2 3\n\n").unwrap();
    assert_eq!(parsed.len(), 1);
    assert_eq!(parsed[0].free, 3);
}

#[test]
fn free_missing_colon() {
    let r = FreeLine::parse("  total used free\nMem: 1 2 3\nSwap 1 2 3\n");
    assert_eq!(r, Err(ParseError::MissingDelimiter { row: 1 }));
}

#[test]
fn free_bad_number() {
    let r = FreeLine::parse("  total used free\nMem: 1 x2 3\n");
    assert_eq!(
        r,
        Err(ParseError::NumberFormat {
            field: "used".to_string(),
            row: 0,
            token: "x2".to_string(),
        })
    );
}

#[test]
fn free_extra_values_dropped() {
    let parsed = FreeLine::parse("  total used\nMem: 1 2 3 4\n").unwrap();
    assert_eq!(parsed[0].total, 1);
    assert_eq!(parsed[0].used, 2);
    assert_eq!(parsed[0].free, 0);
}

#[test]
fn free_same_input_same_result() {
    assert_eq!(FreeLine::parse(HUMAN), FreeLine::parse(HUMAN));
}

#[test]
fn free_crlf_line_endings() {
    let parsed = FreeLine::parse("  total used free\r\nMem: 1 2 3\r\n").unwrap();
    assert_eq!(parsed.len(), 1);
    assert_eq!(parsed[0].free, 3);
}

#[test]
fn free_last_matching_label_wins() {
    let parsed = FreeLine::parse("  total total free\nMem: 1 2\n").unwrap();
    assert_eq!(parsed[0].total, 2);
    assert_eq!(parsed[0].free, 0);
}

#[test]
fn free_exponent_value() {
    let parsed = FreeLine::parse("  total used free\nMem: 1e3 2.5e1K 0\n").unwrap();
    assert_eq!(parsed[0].total, 1000);
    assert_eq!(parsed[0].used, 25_000);
}
