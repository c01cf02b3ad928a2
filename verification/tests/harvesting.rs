use proxy_engine::descriptor::Proxy;
use proxy_engine::harvest::candidates_from_html;
use proxy_engine::harvest::dedup_candidates;
use proxy_engine::harvest::merge_batches;
use proxy_engine::harvest::parse_plain_list;
use proxy_engine::harvest::proxy_url;
use proxy_engine::harvest::proxy_urls_from_html;
use proxy_engine::harvest::rows_to_candidates;
use proxy_engine::text::parse_host_port;
use proxy_engine::text::split_lines;
use proxy_engine::validate::keep_alive;

fn candidate(ip: &str, port: &str, country: &str) -> Proxy {
    Proxy {
        ip: String::from(ip),
        port: String::from(port),
        code: String::new(),
        country: String::from(country),
        anonymity: String::new(),
        https: String::new(),
    }
}

#[test]
fn duplicate_identities_collapse_to_one() {
    let batch = vec![
        candidate("1.1.1.1", "80", "DE"),
        candidate("1.1.1.1", "80", "FR"),
        candidate("1.1.1.1", "8080", ""),
    ];
    let merged = dedup_candidates(&batch);
    assert_eq!(merged.len(), 2);
    assert_eq!(merged[0].ip, "1.1.1.1");
    assert_eq!(merged[0].port, "80");
    assert_eq!(merged[1].port, "8080");
}

#[test]
fn three_sources_with_overlap_merge_to_two() {
    let batches = vec![
        vec![candidate("1.1.1.1", "80", "")],
        vec![candidate("1.1.1.1", "80", "")],
        vec![candidate("2.2.2.2", "8080", "")],
    ];
    let merged = merge_batches(&batches);
    assert_eq!(merged.len(), 2);
    assert_eq!(merged[0].probe_address(), "1.1.1.1:80");
    assert_eq!(merged[1].probe_address(), "2.2.2.2:8080");
}

#[test]
fn only_validated_candidates_reach_the_pool() {
    let batches = vec![
        vec![candidate("1.1.1.1", "80", "")],
        vec![candidate("1.1.1.1", "80", "")],
        vec![candidate("2.2.2.2", "8080", "")],
    ];
    let merged = merge_batches(&batches);
    let alive = vec![false, true];
    let pool = keep_alive(&merged, &alive);
    assert_eq!(pool.len(), 1);
    assert_eq!(pool[0].probe_address(), "2.2.2.2:8080");
    let mut pm = proxy_engine::pool::ProxyManager::new(vec![pool[0].probe_address()]);
    for _ in 0..4 {
        assert_eq!(pm.get_next_proxy(), "2.2.2.2:8080");
    }
}

#[test]
fn keep_alive_preserves_order_of_survivors() {
    let cs = vec![
        candidate("1.1.1.1", "80", ""),
        candidate("2.2.2.2", "81", ""),
        candidate("3.3.3.3", "82", ""),
    ];
    let alive = vec![true, false, true];
    let kept = keep_alive(&cs, &alive);
    assert_eq!(kept.len(), 2);
    assert_eq!(kept[0].ip, "1.1.1.1");
    assert_eq!(kept[1].ip, "3.3.3.3");
}

#[test]
fn short_rows_are_skipped_not_fatal() {
    let rows = vec![
        vec![
            String::from("1.1.1.1"),
            String::from("80"),
            String::from("DE"),
            String::from("Germany"),
            String::from("elite"),
            String::from("x"),
            String::from("yes"),
        ],
        vec![String::from("2.2.2.2"), String::from("8080")],
    ];
    let cs = rows_to_candidates(&rows);
    assert_eq!(cs.len(), 1);
    assert_eq!(cs[0].ip, "1.1.1.1");
    assert_eq!(cs[0].port, "80");
    assert_eq!(cs[0].code, "DE");
    assert_eq!(cs[0].country, "Germany");
    assert_eq!(cs[0].anonymity, "elite");
    assert_eq!(cs[0].https, "yes");
}

const PAGE: &str = "<html><body><table><tbody>\
<tr><td> 1.1.1.1 </td><td>80</td><td>DE</td><td>Germany</td><td>elite</td><td>-</td><td>yes</td></tr>\
<tr><td>2.2.2.2</td><td>8080</td></tr>\
<tr><td>3.3.3.3</td><td>3128</td><td>US</td><td>United States</td><td>anonymous</td><td>-</td><td>no</td></tr>\
</tbody></table></body></html>";

#[test]
fn candidates_come_out_of_markup_rows() {
    let cs = candidates_from_html(PAGE, "table tbody tr");
    assert_eq!(cs.len(), 2);
    assert_eq!(cs[0].ip, "1.1.1.1");
    assert_eq!(cs[0].port, "80");
    assert_eq!(cs[0].https, "yes");
    assert_eq!(cs[1].ip, "3.3.3.3");
    assert_eq!(cs[1].anonymity, "anonymous");
}

#[test]
fn urls_follow_the_encryption_column() {
    let urls = proxy_urls_from_html(PAGE, "table tbody tr");
    assert_eq!(urls.len(), 2);
    assert_eq!(urls[0], "https://1.1.1.1:80");
    assert_eq!(urls[1], "http://3.3.3.3:3128");
}

#[test]
fn url_scheme_ignores_letter_case_of_yes() {
    assert_eq!(proxy_url("1.1.1.1", "80", "Yes"), "https://1.1.1.1:80");
    assert_eq!(proxy_url("1.1.1.1", "80", "YES"), "https://1.1.1.1:80");
    assert_eq!(proxy_url("1.1.1.1", "80", "no"), "http://1.1.1.1:80");
    assert_eq!(proxy_url("1.1.1.1", "80", ""), "http://1.1.1.1:80");
}

#[test]
fn plain_listing_skips_blank_and_malformed_lines() {
    let text = "1.1.1.1:80\n\nnot a pair\n2.2.2.2:8080\nbad:colon:count\n";
    let cs = parse_plain_list(text);
    assert_eq!(cs.len(), 2);
    assert_eq!(cs[0].ip, "1.1.1.1");
    assert_eq!(cs[0].port, "80");
    assert_eq!(cs[1].ip, "2.2.2.2");
    assert_eq!(cs[1].port, "8080");
    assert_eq!(cs[0].country, "");
}

#[test]
fn host_port_parsing_requires_exactly_one_colon() {
    assert_eq!(parse_host_port("1.2.3.4:8080"), Some((String::from("1.2.3.4"), String::from("8080"))));
    assert_eq!(parse_host_port("a:"), Some((String::from("a"), String::new())));
    assert_eq!(parse_host_port(":80"), Some((String::new(), String::from("80"))));
    assert_eq!(parse_host_port(""), None);
    assert_eq!(parse_host_port("no colon"), None);
    assert_eq!(parse_host_port("a:b:c"), None);
}

#[test]
fn line_splitting_matches_the_sink_shape() {
    let lines = split_lines("a\nb\n");
    assert_eq!(lines, vec![String::from("a"), String::from("b")]);
    let lines = split_lines("a\n\nb");
    assert_eq!(lines, vec![String::from("a"), String::new(), String::from("b")]);
    let lines = split_lines("");
    assert!(lines.is_empty());
}
