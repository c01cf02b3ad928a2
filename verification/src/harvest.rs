//! Harvesting candidate endpoints: extracting candidates from source
//! pages and plain listings, merging the batches of several sources, and
//! deduplicating by the `(ip, port)` identity key. One unreachable or
//! malformed source never poisons the batch: its rows simply contribute
//! nothing.

use vstd::prelude::*;
use crate::descriptor::Proxy;
use crate::descriptor::ProxyView;

verus! {

/// No two entries denote the same resource.
pub open spec fn unique_keys(s: Seq<ProxyView>) -> bool {
    forall|i: int, j: int| 0 <= i < j < s.len() ==> s[i].key() != s[j].key()
}

/// Some entry of `s` has the identity key `k`.
pub open spec fn has_key(s: Seq<ProxyView>, k: (Seq<char>, Seq<char>)) -> bool {
    exists|i: int| 0 <= i < s.len() && s[i].key() == k
}

/// Keeps one candidate per identity key: the result holds each input
/// identity exactly once and nothing else. Metadata differences between
/// duplicates never create extra entries.
pub fn dedup_candidates(candidates: &Vec<Proxy>) -> (r: Vec<Proxy>)
    ensures
        unique_keys(r.deep_view()),
        forall|t: int|
            0 <= t < r.deep_view().len() ==> candidates.deep_view().contains(
                #[trigger] r.deep_view()[t],
            ),
        forall|u: int|
            0 <= u < candidates.deep_view().len() ==> has_key(
                r.deep_view(),
                (#[trigger] candidates.deep_view()[u]).key(),
            ),
{
    let ghost cdv = candidates.deep_view();
    let mut r: Vec<Proxy> = Vec::new();
    let mut i: usize = 0;
    while i < candidates.len()
        invariant
            i <= candidates.len(),
            cdv == candidates.deep_view(),
            cdv.len() == candidates.len(),
            unique_keys(r.deep_view()),
            forall|t: int|
                0 <= t < r.deep_view().len() ==> cdv.contains(#[trigger] r.deep_view()[t]),
            forall|u: int| 0 <= u < i ==> has_key(r.deep_view(), (#[trigger] cdv[u]).key()),
        decreases candidates.len() - i,
    {
        let c = &candidates[i];
        let mut found = false;
        let mut j: usize = 0;
        while j < r.len()
            invariant
                j <= r.len(),
                0 <= i < candidates.len(),
                cdv == candidates.deep_view(),
                c@ == cdv[i as int],
                found <==> exists|t: int|
                    0 <= t < j && (#[trigger] r.deep_view()[t]).key() == cdv[i as int].key(),
            decreases r.len() - j,
        {
            proof {
                assert(r.deep_view()[j as int] == r@[j as int]@);
            }
            let eq = r[j].same_key(c);
            let ghost pre_found = found;
            if eq {
                found = true;
            }
            proof {
                if eq {
                    assert(0 <= j < j + 1 && (#[trigger] r.deep_view()[j as int]).key()
                        == cdv[i as int].key());
                } else if pre_found {
                    let t = choose|t: int|
                        0 <= t < j && (#[trigger] r.deep_view()[t]).key() == cdv[i as int].key();
                    assert(0 <= t < j + 1 && r.deep_view()[t].key() == cdv[i as int].key());
                } else {
                    assert forall|t: int|
                        0 <= t < j + 1 implies (#[trigger] r.deep_view()[t]).key() != cdv[
                        i as int].key() by {
                        if t == j {
                            assert(r.deep_view()[j as int].key() != cdv[i as int].key());
                        }
                    }
                }
            }
            j += 1;
        }
        let ghost old_r = r.deep_view();
        if !found {
            r.push(c.duplicate());
            proof {
                assert(r.deep_view() =~= old_r.push(cdv[i as int]));
                assert forall|a: int, b: int|
                    0 <= a < b < r.deep_view().len() implies r.deep_view()[a].key()
                    != r.deep_view()[b].key() by {
                    if b == old_r.len() {
                        assert(r.deep_view()[a] == old_r[a]);
                    }
                }
            }
        }
        proof {
            assert forall|u: int| 0 <= u <= i implies has_key(
                r.deep_view(),
                (#[trigger] cdv[u]).key(),
            ) by {
                if u < i {
                    let t = choose|t: int|
                        0 <= t < old_r.len() && (#[trigger] old_r[t]).key() == cdv[u].key();
                    assert(r.deep_view()[t].key() == cdv[u].key());
                } else {
                    if found {
                        let t = choose|t: int|
                            0 <= t < old_r.len() && (#[trigger] r.deep_view()[t]).key()
                                == cdv[i as int].key();
                        assert(r.deep_view()[t].key() == cdv[u].key());
                    } else {
                        assert(r.deep_view()[old_r.len() as int].key() == cdv[u].key());
                    }
                }
            }
            assert forall|t: int|
                0 <= t < r.deep_view().len() implies cdv.contains(
                #[trigger] r.deep_view()[t],
            ) by {
                if t < old_r.len() {
                    assert(r.deep_view()[t] == old_r[t]);
                } else {
                    assert(r.deep_view()[t] == cdv[i as int]);
                }
            }
        }
        i += 1;
    }
    r
}

/// All candidates of all batches, in batch order.
pub open spec fn flat_views(batches: Seq<Seq<ProxyView>>) -> Seq<ProxyView>
    decreases batches.len(),
{
    if batches.len() == 0 {
        Seq::empty()
    } else {
        batches[0] + flat_views(batches.drop_first())
    }
}

/// An identity occurs among the flattened batches exactly when some
/// batch holds it.
pub proof fn lemma_flat_key(batches: Seq<Seq<ProxyView>>, k: (Seq<char>, Seq<char>))
    ensures
        has_key(flat_views(batches), k) <==> exists|b: int|
            0 <= b < batches.len() && has_key(#[trigger] batches[b], k),
    decreases batches.len(),
{
    if batches.len() == 0 {
    } else {
        let rest = batches.drop_first();
        lemma_flat_key(rest, k);
        let flat = flat_views(batches);
        if has_key(flat, k) {
            let t = choose|t: int| 0 <= t < flat.len() && (#[trigger] flat[t]).key() == k;
            if t < batches[0].len() {
                assert(batches[0][t].key() == k);
                assert(has_key(batches[0], k));
            } else {
                assert(flat_views(rest)[t - batches[0].len()].key() == k);
                assert(has_key(flat_views(rest), k));
                let b = choose|b: int| 0 <= b < rest.len() && has_key(#[trigger] rest[b], k);
                assert(batches[b + 1] == rest[b]);
            }
        }
        if exists|b: int| 0 <= b < batches.len() && has_key(#[trigger] batches[b], k) {
            let b = choose|b: int| 0 <= b < batches.len() && has_key(#[trigger] batches[b], k);
            if b == 0 {
                let t = choose|t: int|
                    0 <= t < batches[0].len() && (#[trigger] batches[0][t]).key() == k;
                assert(flat[t].key() == k);
            } else {
                assert(rest[b - 1] == batches[b]);
                assert(has_key(flat_views(rest), k));
                let t = choose|t: int|
                    0 <= t < flat_views(rest).len() && (#[trigger] flat_views(rest)[t]).key() == k;
                assert(flat[batches[0].len() + t].key() == k);
            }
        }
    }
}

/// Merges the batches of several sources into one deduplicated list:
/// the result holds an identity exactly when some batch holds it, and
/// holds no identity twice. A source that failed simply contributes an
/// empty batch.
pub fn merge_batches(batches: &Vec<Vec<Proxy>>) -> (r: Vec<Proxy>)
    ensures
        unique_keys(r.deep_view()),
        forall|t: int|
            0 <= t < r.deep_view().len() ==> flat_views(batches.deep_view()).contains(
                #[trigger] r.deep_view()[t],
            ),
        forall|u: int|
            0 <= u < flat_views(batches.deep_view()).len() ==> has_key(
                r.deep_view(),
                (#[trigger] flat_views(batches.deep_view())[u]).key(),
            ),
{
    let ghost bdv = batches.deep_view();
    let mut flat: Vec<Proxy> = Vec::new();
    let mut b: usize = 0;
    proof {
        assert(bdv.skip(0) =~= bdv);
    }
    while b < batches.len()
        invariant
            b <= batches.len(),
            bdv == batches.deep_view(),
            bdv.len() == batches.len(),
            flat_views(bdv) == flat.deep_view() + flat_views(bdv.skip(b as int)),
        decreases batches.len() - b,
    {
        let batch = &batches[b];
        proof {
            assert(bdv.skip(b as int)[0] == bdv[b as int]);
            assert(bdv.skip(b as int).drop_first() =~= bdv.skip(b as int + 1));
            assert(flat_views(bdv.skip(b as int)) == bdv[b as int] + flat_views(
                bdv.skip(b as int + 1),
            ));
            assert(bdv[b as int].skip(0) =~= bdv[b as int]);
            assert(flat.deep_view() + bdv[b as int].skip(0) + flat_views(bdv.skip(b as int + 1))
                =~= flat.deep_view() + flat_views(bdv.skip(b as int)));
        }
        let mut j: usize = 0;
        while j < batch.len()
            invariant
                j <= batch.len(),
                b < bdv.len(),
                batch.deep_view() == bdv[b as int],
                flat_views(bdv) == flat.deep_view() + bdv[b as int].skip(j as int) + flat_views(
                    bdv.skip(b as int + 1),
                ),
            decreases batch.len() - j,
        {
            let ghost old_flat = flat.deep_view();
            flat.push(batch[j].duplicate());
            proof {
                assert(flat.deep_view() =~= old_flat.push(bdv[b as int][j as int]));
                assert(bdv[b as int].skip(j as int) =~= seq![bdv[b as int][j as int]]
                    + bdv[b as int].skip(j as int + 1));
                assert(flat.deep_view() + bdv[b as int].skip(j as int + 1) + flat_views(
                    bdv.skip(b as int + 1),
                ) =~= old_flat + bdv[b as int].skip(j as int) + flat_views(bdv.skip(b as int + 1)));
            }
            j += 1;
        }
        proof {
            assert(bdv[b as int].skip(batch.len() as int) =~= Seq::<ProxyView>::empty());
            assert(flat.deep_view() + bdv[b as int].skip(batch.len() as int) + flat_views(
                bdv.skip(b as int + 1),
            ) =~= flat.deep_view() + flat_views(bdv.skip(b as int + 1)));
        }
        b += 1;
    }
    proof {
        assert(bdv.skip(bdv.len() as int) =~= Seq::<Seq<ProxyView>>::empty());
        assert(flat.deep_view() + flat_views(bdv.skip(bdv.len() as int)) =~= flat.deep_view());
    }
    dedup_candidates(&flat)
}

/// The candidate a well-shaped table row yields: address and metadata
/// from the first five cells, the encrypted-transport column from the
/// seventh.
pub open spec fn candidate_of_row(row: Seq<Seq<char>>) -> ProxyView
    recommends
        row.len() >= 7,
{
    ProxyView {
        ip: row[0],
        port: row[1],
        code: row[2],
        country: row[3],
        anonymity: row[4],
        https: row[6],
    }
}

/// The candidates a table yields: one per row with at least seven
/// cells. Shorter rows — a changed or partial data shape — are skipped,
/// never an error.
pub open spec fn candidates_of_rows(rows: Seq<Seq<Seq<char>>>) -> Seq<ProxyView>
    decreases rows.len(),
{
    if rows.len() == 0 {
        Seq::empty()
    } else {
        let rest = candidates_of_rows(rows.drop_first());
        if rows[0].len() >= 7 {
            seq![candidate_of_row(rows[0])] + rest
        } else {
            rest
        }
    }
}

/// Builds one candidate per sufficiently wide row, skipping the rest.
pub fn rows_to_candidates(rows: &Vec<Vec<String>>) -> (r: Vec<Proxy>)
    ensures
        r.deep_view() == candidates_of_rows(rows.deep_view()),
{
    let ghost rdv = rows.deep_view();
    let mut r: Vec<Proxy> = Vec::new();
    let mut i: usize = 0;
    proof {
        assert(rdv.skip(0) =~= rdv);
        assert(r.deep_view() + candidates_of_rows(rdv) =~= candidates_of_rows(rdv));
    }
    while i < rows.len()
        invariant
            i <= rows.len(),
            rdv == rows.deep_view(),
            rdv.len() == rows.len(),
            candidates_of_rows(rdv) == r.deep_view() + candidates_of_rows(rdv.skip(i as int)),
        decreases rows.len() - i,
    {
        let row = &rows[i];
        proof {
            assert(row.deep_view() == rdv[i as int]);
            assert(rdv.skip(i as int)[0] == rdv[i as int]);
            assert(rdv.skip(i as int).drop_first() =~= rdv.skip(i as int + 1));
        }
        if row.len() >= 7 {
            let ghost old_r = r.deep_view();
            let p = Proxy {
                ip: row[0].clone(),
                port: row[1].clone(),
                code: row[2].clone(),
                country: row[3].clone(),
                anonymity: row[4].clone(),
                https: row[6].clone(),
            };
            proof {
                assert(row.deep_view()[0] == row@[0]@);
                assert(row.deep_view()[1] == row@[1]@);
                assert(row.deep_view()[2] == row@[2]@);
                assert(row.deep_view()[3] == row@[3]@);
                assert(row.deep_view()[4] == row@[4]@);
                assert(row.deep_view()[6] == row@[6]@);
                assert(p@ == candidate_of_row(rdv[i as int]));
            }
            r.push(p);
            proof {
                assert(r.deep_view() =~= old_r.push(candidate_of_row(rdv[i as int])));
                assert(candidates_of_rows(rdv.skip(i as int)) == seq![
                    candidate_of_row(rdv[i as int]),
                ] + candidates_of_rows(rdv.skip(i as int + 1)));
                assert(r.deep_view() + candidates_of_rows(rdv.skip(i as int + 1)) =~= old_r
                    + candidates_of_rows(rdv.skip(i as int)));
            }
        } else {
            proof {
                assert(candidates_of_rows(rdv.skip(i as int)) == candidates_of_rows(
                    rdv.skip(i as int + 1),
                ));
            }
        }
        i += 1;
    }
    proof {
        assert(rdv.skip(rdv.len() as int) =~= Seq::<Seq<Seq<char>>>::empty());
        assert(r.deep_view() + candidates_of_rows(rdv.skip(rdv.len() as int)) =~= r.deep_view());
    }
    r
}

/// The text cells of the table rows that scraper selects from a
/// document: one inner sequence per selected row, one string per
/// selected cell, whitespace trimmed. A selector that does not parse
/// selects nothing.
pub uninterp spec fn table_cells_of(
    row_sel: Seq<char>,
    cell_sel: Seq<char>,
    html: Seq<char>,
) -> Seq<Seq<Seq<char>>>;

/// Relies on scraper's `Html::parse_document`, `Selector::parse` and
/// `select`, and on `str::trim`: the trimmed text cells selected from a
/// document are a function of the markup and the two selectors alone.
#[verifier::external_body]
fn select_table_cells(html: &str, row_sel: &str, cell_sel: &str) -> (r: Vec<Vec<String>>)
    ensures
        r.deep_view() == table_cells_of(row_sel@, cell_sel@, html@),
{
    let row_selector = match scraper::Selector::parse(row_sel) {
        Ok(s) => s,
        Err(_) => return Vec::new(),
    };
    let cell_selector = match scraper::Selector::parse(cell_sel) {
        Ok(s) => s,
        Err(_) => return Vec::new(),
    };
    let document = scraper::Html::parse_document(html);
    document.select(&row_selector).map(
        |row| row.select(&cell_selector).map(
            |cell| cell.text().collect::<String>().trim().to_owned(),
        ).collect(),
    ).collect()
}

/// Extracts every candidate a table-styled source page holds under the
/// given row selector: one candidate per selected row with at least
/// seven cells, built from its first five cells and its seventh.
pub fn candidates_from_html(html: &str, row_sel: &str) -> (r: Vec<Proxy>)
    ensures
        r.deep_view() == candidates_of_rows(table_cells_of(row_sel@, "td"@, html@)),
{
    let rows = select_table_cells(html, row_sel, "td");
    rows_to_candidates(&rows)
}

/// The candidate one plain `host:port` line yields when it holds exactly
/// one colon: the halves around the colon, with empty metadata.
pub open spec fn plain_candidate_of(line: Seq<char>) -> ProxyView {
    let i = crate::text::first_index(line, ':');
    ProxyView {
        ip: line.subrange(0, i),
        port: line.subrange(i + 1, line.len() as int),
        code: Seq::empty(),
        country: Seq::empty(),
        anonymity: Seq::empty(),
        https: Seq::empty(),
    }
}

/// The candidates of a plain listing: one per line holding exactly one
/// colon. Blank lines and malformed lines are skipped, never an error.
pub open spec fn plain_candidates_of(lines: Seq<Seq<char>>) -> Seq<ProxyView>
    decreases lines.len(),
{
    if lines.len() == 0 {
        Seq::empty()
    } else {
        let rest = plain_candidates_of(lines.drop_first());
        if crate::text::count_char(lines[0], ':') == 1 {
            seq![plain_candidate_of(lines[0])] + rest
        } else {
            rest
        }
    }
}

/// Parses a plain `host:port`-per-line listing into candidates with
/// empty metadata, one per line holding exactly one colon.
pub fn parse_plain_list(text: &str) -> (r: Vec<Proxy>)
    ensures
        r.deep_view() == plain_candidates_of(crate::text::lines_of(text@)),
{
    let lines = crate::text::split_lines(text);
    let ghost ldv = lines.deep_view();
    let mut r: Vec<Proxy> = Vec::new();
    let mut i: usize = 0;
    proof {
        assert(ldv.skip(0) =~= ldv);
        assert(r.deep_view() + plain_candidates_of(ldv) =~= plain_candidates_of(ldv));
    }
    while i < lines.len()
        invariant
            i <= lines.len(),
            ldv == lines.deep_view(),
            ldv.len() == lines.len(),
            plain_candidates_of(ldv) == r.deep_view() + plain_candidates_of(ldv.skip(i as int)),
        decreases lines.len() - i,
    {
        proof {
            assert(ldv.skip(i as int)[0] == ldv[i as int]);
            assert(ldv.skip(i as int).drop_first() =~= ldv.skip(i as int + 1));
            assert(lines@[i as int]@ == ldv[i as int]);
        }
        match crate::text::parse_host_port(&lines[i]) {
            Some((host, port)) => {
                let ghost old_r = r.deep_view();
                proof {
                    let line = ldv[i as int];
                    assert forall|j: int| 0 <= j < host@.len() implies line[j] != ':' by {
                        assert(line[j] == host@[j]);
                        if host@[j] == ':' {
                            assert(host@.contains(':'));
                        }
                    }
                    assert(line[host@.len() as int] == ':');
                    crate::text::lemma_first_index_unique(line, ':', host@.len() as int);
                    assert(line.subrange(0, host@.len() as int) =~= host@);
                    assert(line.subrange(host@.len() as int + 1, line.len() as int) =~= port@);
                }
                let p = Proxy {
                    ip: host,
                    port,
                    code: String::new(),
                    country: String::new(),
                    anonymity: String::new(),
                    https: String::new(),
                };
                r.push(p);
                proof {
                    assert(r.deep_view() =~= old_r.push(plain_candidate_of(ldv[i as int])));
                    assert(plain_candidates_of(ldv.skip(i as int)) == seq![
                        plain_candidate_of(ldv[i as int]),
                    ] + plain_candidates_of(ldv.skip(i as int + 1)));
                    assert(r.deep_view() + plain_candidates_of(ldv.skip(i as int + 1)) =~= old_r
                        + plain_candidates_of(ldv.skip(i as int)));
                }
            },
            None => {
                proof {
                    assert(plain_candidates_of(ldv.skip(i as int)) == plain_candidates_of(
                        ldv.skip(i as int + 1),
                    ));
                }
            },
        }
        i += 1;
    }
    proof {
        assert(ldv.skip(ldv.len() as int) =~= Seq::<Seq<char>>::empty());
        assert(r.deep_view() + plain_candidates_of(ldv.skip(ldv.len() as int)) =~= r.deep_view());
    }
    r
}

/// Whether a source's encryption column marks the endpoint as
/// encrypted: the cell reads "yes" in any letter case.
pub open spec fn says_yes(s: Seq<char>) -> bool {
    &&& s.len() == 3
    &&& (s[0] == 'y' || s[0] == 'Y')
    &&& (s[1] == 'e' || s[1] == 'E')
    &&& (s[2] == 's' || s[2] == 'S')
}

/// The proxy URL an endpoint row yields: an `https` scheme when the
/// encryption column says yes, an `http` scheme otherwise, then
/// `ip:port`.
pub open spec fn spec_proxy_url(ip: Seq<char>, port: Seq<char>, https_col: Seq<char>) -> Seq<char> {
    (if says_yes(https_col) {
        "https://"@
    } else {
        "http://"@
    }) + ip + seq![':'] + port
}

/// Whether the encryption column reads "yes", in any letter case.
fn column_says_yes(s: &str) -> (r: bool)
    ensures
        r == says_yes(s@),
{
    let n = s.unicode_len();
    if n != 3 {
        return false;
    }
    let c0 = s.get_char(0);
    let c1 = s.get_char(1);
    let c2 = s.get_char(2);
    (c0 == 'y' || c0 == 'Y') && (c1 == 'e' || c1 == 'E') && (c2 == 's' || c2 == 'S')
}

/// Builds the URL under which an endpoint row is used as a proxy.
pub fn proxy_url(ip: &str, port: &str, https_col: &str) -> (r: String)
    ensures
        r@ == spec_proxy_url(ip@, port@, https_col@),
{
    let mut s = if column_says_yes(https_col) {
        String::from_str("https://")
    } else {
        String::from_str("http://")
    };
    s.append(ip);
    s.append(":");
    s.append(port);
    proof {
        reveal_strlit(":");
        assert(":"@ =~= seq![':']);
        assert(s@ =~= spec_proxy_url(ip@, port@, https_col@));
    }
    s
}

/// The proxy URLs a table yields: one per row with at least seven
/// cells, from its address cells and its encryption column.
pub open spec fn urls_of_rows(rows: Seq<Seq<Seq<char>>>) -> Seq<Seq<char>>
    decreases rows.len(),
{
    if rows.len() == 0 {
        Seq::empty()
    } else {
        let rest = urls_of_rows(rows.drop_first());
        if rows[0].len() >= 7 {
            seq![spec_proxy_url(rows[0][0], rows[0][1], rows[0][6])] + rest
        } else {
            rest
        }
    }
}

/// Extracts one ready-to-use proxy URL per sufficiently wide table row
/// of a source page, under the given row selector.
pub fn proxy_urls_from_html(html: &str, row_sel: &str) -> (r: Vec<String>)
    ensures
        r.deep_view() == urls_of_rows(table_cells_of(row_sel@, "td"@, html@)),
{
    let rows = select_table_cells(html, row_sel, "td");
    let ghost rdv = rows.deep_view();
    let mut r: Vec<String> = Vec::new();
    let mut i: usize = 0;
    proof {
        assert(rdv.skip(0) =~= rdv);
        assert(r.deep_view() + urls_of_rows(rdv) =~= urls_of_rows(rdv));
    }
    while i < rows.len()
        invariant
            i <= rows.len(),
            rdv == rows.deep_view(),
            rdv.len() == rows.len(),
            urls_of_rows(rdv) == r.deep_view() + urls_of_rows(rdv.skip(i as int)),
        decreases rows.len() - i,
    {
        let row = &rows[i];
        proof {
            assert(row.deep_view() == rdv[i as int]);
            assert(rdv.skip(i as int)[0] == rdv[i as int]);
            assert(rdv.skip(i as int).drop_first() =~= rdv.skip(i as int + 1));
        }
        if row.len() >= 7 {
            let ghost old_r = r.deep_view();
            let url = proxy_url(row[0].as_str(), row[1].as_str(), row[6].as_str());
            proof {
                assert(row.deep_view()[0] == row@[0]@);
                assert(row.deep_view()[1] == row@[1]@);
                assert(row.deep_view()[6] == row@[6]@);
            }
            r.push(url);
            proof {
                assert(r.deep_view() =~= old_r.push(
                    spec_proxy_url(rdv[i as int][0], rdv[i as int][1], rdv[i as int][6]),
                ));
                assert(urls_of_rows(rdv.skip(i as int)) == seq![
                    spec_proxy_url(rdv[i as int][0], rdv[i as int][1], rdv[i as int][6]),
                ] + urls_of_rows(rdv.skip(i as int + 1)));
                assert(r.deep_view() + urls_of_rows(rdv.skip(i as int + 1)) =~= old_r
                    + urls_of_rows(rdv.skip(i as int)));
            }
        } else {
            proof {
                assert(urls_of_rows(rdv.skip(i as int)) == urls_of_rows(rdv.skip(i as int + 1)));
            }
        }
        i += 1;
    }
    proof {
        assert(rdv.skip(rdv.len() as int) =~= Seq::<Seq<Seq<char>>>::empty());
        assert(r.deep_view() + urls_of_rows(rdv.skip(rdv.len() as int)) =~= r.deep_view());
    }
    r
}

} // verus!
