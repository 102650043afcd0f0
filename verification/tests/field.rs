use toric::field::{
    aggregate_edges, field_completions, field_completions_checked, query_completion, query_verdict,
    relational_score, relational_score_checked, solve_field, solve_field_checked, with_assertions, FieldEdge, FieldSearch, QueryAssertion, QueryVerdict, RawEdge,
};

fn k(n: u8) -> Vec<u8> {
    vec![n]
}

fn e(w: u8, l: u8, margin: i64, weight: u32) -> RawEdge {
    RawEdge { winner: k(w), loser: k(l), margin, weight }
}

#[test]
fn parallel_edges_collapse_to_weighted_means() {
    // (1 over 2 by 100, w 3) and (2 over 1 by 40, w 1): on pair (1, 2) the
    // signed margins are 100 and −40; mean = (300 − 40)/4 = 65.
    let agg = aggregate_edges(&[e(1, 2, 100, 3), e(3, 1, 7, 0), e(2, 1, 40, 1)]);
    assert_eq!(agg.len(), 1);
    assert_eq!((agg[0].a.clone(), agg[0].b.clone()), (k(1), k(2)));
    assert_eq!(agg[0].mean, 65);
    assert_eq!(agg[0].weight, 4);
    assert_eq!(agg[0].abs_mass, 340);
    // negative means truncate toward zero
    let agg = aggregate_edges(&[e(2, 1, 10, 1), e(2, 1, 11, 2)]);
    assert_eq!(agg[0].mean, -10); // (−10 − 22)/3 = −10.67 → −10
}

#[test]
fn chain_solves_to_the_margins() {
    // frame node 1 pinned at 500; 1 − 2 = 100, 2 − 3 = 50
    let nodes = vec![k(1), k(2), k(3)];
    let edges = aggregate_edges(&[e(1, 2, 100, 1_000_000), e(2, 3, 50, 1_000_000)]);
    let x = solve_field(&nodes, 500, &edges);
    assert_eq!(x, vec![500, 400, 350]);
}

#[test]
fn empty_record_is_flat() {
    let nodes = vec![k(1), k(2)];
    let edges: Vec<FieldEdge> = vec![];
    assert_eq!(solve_field(&nodes, 700, &edges), vec![700, 700]);
    let r = relational_score(&k(2), &nodes, 700, 650, &[]);
    assert_eq!(r.relational_millionths, 700);
    assert_eq!(r.residual_millionths, 0);
    assert_eq!(r.edge_count, 0);
}

#[test]
fn relational_score_of_a_consistent_chain() {
    let visited = vec![k(3), k(1), k(2)];
    let raw = [e(1, 2, 100, 1_000_000), e(2, 3, 50, 1_000_000)];
    let r = relational_score(&k(3), &visited, 500, 420, &raw);
    assert_eq!(r.manifest, k(3));
    assert_eq!(r.absolute_millionths, 420);
    assert_eq!(r.relational_millionths, 350);
    assert_eq!(r.residual_millionths, 0);
    assert_eq!(r.component_size, 3);
    assert_eq!(r.edge_count, 2);
    // off-component anchor falls back to its absolute score, clamped
    let r = relational_score(&k(9), &visited, 500, 2_000_000, &raw);
    assert_eq!(r.relational_millionths, 1_000_000);
}

#[test]
fn contradictory_triangle_has_residual() {
    // 1 > 2 by 100, 2 > 3 by 100, 3 > 1 by 100: no field satisfies all three
    let visited = vec![k(1), k(2), k(3)];
    let raw = [e(1, 2, 100, 1), e(2, 3, 100, 1), e(3, 1, 100, 1)];
    let r = relational_score(&k(2), &visited, 500_000, 500_000, &raw);
    assert!(r.residual_millionths > 145_898);
    assert!(r.residual_millionths <= 1_000_000);
}

#[test]
fn query_routing() {
    assert_eq!(query_verdict(0, 900_000), QueryVerdict::Entailed);
    assert_eq!(query_verdict(145_898, 900_000), QueryVerdict::Entailed);
    assert_eq!(query_verdict(145_899, 145_898), QueryVerdict::AskerConflict);
    assert_eq!(query_verdict(145_899, 145_899), QueryVerdict::RecordDispute);
    assert_eq!(QueryVerdict::AskerConflict.as_str(), "asker_conflict");
}

#[test]
fn assertions_join_the_solve_at_full_stake() {
    let raw = vec![e(1, 2, 100, 1)];
    let asserts = vec![QueryAssertion { better: k(2), worse: k(1), margin_millionths: 100 }];
    let all = with_assertions(&raw, &asserts);
    assert_eq!(all.len(), 2);
    assert_eq!((all[1].winner.clone(), all[1].loser.clone(), all[1].margin, all[1].weight), (k(2), k(1), 100, 1_000_000));
    let visited = vec![k(1), k(2)];
    let (completions, residual_with) = field_completions(&visited, 500, &all);
    // the asker's full-stake claim outweighs the record's light one:
    // mean (100·1 − 100·10⁶)/(10⁶ + 1) = −99 on the pair (1, 2)
    assert_eq!(completions, vec![(k(1), 500), (k(2), 599)]);
    assert_eq!(residual_with, 0);
    let base = relational_score(&k(1), &visited, 500, 500, &raw);
    assert_eq!(base.residual_millionths, 0);
    let q = query_completion(&base, completions, residual_with, asserts.len());
    assert_eq!(q.edge_count, 2);
    assert_eq!(q.verdict, QueryVerdict::Entailed);
}

#[test]
fn component_search_is_capped() {
    let mut s = FieldSearch::new(k(0));
    s.seed(k(0));
    s.seed(k(50));
    assert_eq!(s.visited.len(), 2);
    assert_eq!(s.next_node(), Some(k(50)));
    s.absorb(vec![e(50, 51, 1, 1), e(52, 50, 1, 1)]);
    assert_eq!(s.visited, vec![k(0), k(50), k(51), k(52)]);
    assert_eq!(s.raw.len(), 2);
    // last in, first out
    assert_eq!(s.next_node(), Some(k(52)));
    let many: Vec<RawEdge> = (100u8..140).map(|i| e(52, i, 1, 1)).collect();
    s.absorb(many);
    assert_eq!(s.visited.len(), 34);
    assert_eq!(s.raw.len(), 42);
    // full: the walk ends
    assert_eq!(s.next_node(), None);
}

#[test]
fn checked_solve_reports_overflow() {
    let visited = vec![k(3), k(1), k(2)];
    let raw = [e(1, 2, 100, 1_000_000), e(2, 3, 50, 1_000_000)];
    let r = relational_score_checked(&k(3), &visited, 500, 420, &raw).unwrap();
    assert_eq!(r.relational_millionths, 350);
    assert_eq!(r.residual_millionths, 0);
    assert_eq!(r.edge_count, 2);
    let (c, res) = field_completions_checked(&visited, 500, &raw).unwrap();
    assert_eq!(c, vec![(k(1), 500), (k(2), 400), (k(3), 350)]);
    assert_eq!(res, 0);
    // a frame this far out overflows the weighted terms
    let big = i128::MAX / 2;
    assert!(relational_score_checked(&k(3), &visited, big, 0, &raw).is_none());
    assert!(field_completions_checked(&visited, big, &raw).is_none());
    assert!(solve_field_checked(&[k(1), k(2)], big, &aggregate_edges(&raw)).is_none());
    // i128::MIN lies outside the symmetric range
    assert!(solve_field_checked(&[k(1)], i128::MIN, &[]).is_none());
    assert_eq!(solve_field_checked(&[k(1)], i128::MIN + 1, &[]), Some(vec![i128::MIN + 1]));
    // without edges nothing is multiplied
    let r = relational_score_checked(&k(1), &[k(1), k(2)], big, 0, &[]).unwrap();
    assert_eq!(r.relational_millionths, 1_000_000);
}
