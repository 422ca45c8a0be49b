use bozorth::associations::EndpointAssociations;
use bozorth::consts::set_max_number_of_groups;
use bozorth::groups::{
    cleanup_associations, find_next_not_conflicting_associations, merge_endpoints_into_group,
    try_associate_current_endpoints, EndpointGroup,
};
use bozorth::types::{Endpoint, FingerprintKind};
use bozorth::{set_mode, Config};

fn summary(groups: &Vec<EndpointGroup>) -> Vec<(u32, bool, Vec<u32>, usize, Option<u32>)> {
    groups
        .iter()
        .map(|group| {
            (
                group.endpoint.0,
                group.endpoint_source == FingerprintKind::Probe,
                group.matching_endpoints.iter().map(|endpoint| endpoint.0).collect(),
                group.endpoint_index,
                group.last_associated_from_probe.map(|endpoint| endpoint.0),
            )
        })
        .collect()
}

fn group(endpoint: u32, source: FingerprintKind, candidates: &[u32]) -> EndpointGroup {
    EndpointGroup {
        endpoint: Endpoint(endpoint),
        endpoint_source: source,
        matching_endpoints: candidates.iter().map(|&candidate| Endpoint(candidate)).collect(),
        endpoint_index: 0,
        last_associated_from_probe: None,
    }
}

#[test]
fn merge_makes_a_group_or_adds_a_candidate() {
    let config = Config::new();
    let mut groups = Vec::new();
    merge_endpoints_into_group(&config, &mut groups, FingerprintKind::Probe, Endpoint(1), Endpoint(2), Endpoint(3));
    assert_eq!(summary(&groups), vec![(1, true, vec![2, 3], 0, None)]);
    merge_endpoints_into_group(&config, &mut groups, FingerprintKind::Probe, Endpoint(1), Endpoint(9), Endpoint(4));
    assert_eq!(summary(&groups), vec![(1, true, vec![2, 3, 4], 0, None)]);
    merge_endpoints_into_group(&config, &mut groups, FingerprintKind::Probe, Endpoint(1), Endpoint(9), Endpoint(3));
    assert_eq!(summary(&groups), vec![(1, true, vec![2, 3, 4], 0, None)]);
    merge_endpoints_into_group(&config, &mut groups, FingerprintKind::Gallery, Endpoint(1), Endpoint(5), Endpoint(6));
    assert_eq!(
        summary(&groups),
        vec![(1, true, vec![2, 3, 4], 0, None), (1, false, vec![5, 6], 0, None)]
    );
    merge_endpoints_into_group(&config, &mut groups, FingerprintKind::Gallery, Endpoint(1), Endpoint(5), Endpoint(7));
    assert_eq!(
        summary(&groups),
        vec![(1, true, vec![2, 3, 4], 0, None), (1, false, vec![5, 6, 7], 0, None)]
    );
}

#[test]
fn relaxed_merge_remembers_the_link_and_stops_at_the_most_groups() {
    let mut config = Config::new();
    set_mode(&mut config, false);
    set_max_number_of_groups(&mut config, 2);
    let mut groups = Vec::new();
    merge_endpoints_into_group(&config, &mut groups, FingerprintKind::Probe, Endpoint(1), Endpoint(2), Endpoint(3));
    merge_endpoints_into_group(&config, &mut groups, FingerprintKind::Gallery, Endpoint(4), Endpoint(5), Endpoint(6));
    assert_eq!(
        summary(&groups),
        vec![(1, true, vec![2, 3], 0, Some(2)), (4, false, vec![5, 6], 0, Some(5))]
    );
    merge_endpoints_into_group(&config, &mut groups, FingerprintKind::Probe, Endpoint(7), Endpoint(8), Endpoint(9));
    merge_endpoints_into_group(&config, &mut groups, FingerprintKind::Probe, Endpoint(1), Endpoint(2), Endpoint(10));
    assert_eq!(
        summary(&groups),
        vec![(1, true, vec![2, 3], 0, Some(2)), (4, false, vec![5, 6], 0, Some(5))]
    );
}

#[test]
fn strict_merge_does_not_count_the_groups() {
    let mut config = Config::new();
    set_max_number_of_groups(&mut config, 1);
    let mut groups = Vec::new();
    merge_endpoints_into_group(&config, &mut groups, FingerprintKind::Probe, Endpoint(1), Endpoint(2), Endpoint(3));
    merge_endpoints_into_group(&config, &mut groups, FingerprintKind::Probe, Endpoint(7), Endpoint(8), Endpoint(9));
    assert_eq!(groups.len(), 2);
}

#[test]
fn cleanup_undoes_the_remembered_links() {
    let mut table = EndpointAssociations::new();
    table.associate(Endpoint(1), Endpoint(2));
    table.associate(Endpoint(3), Endpoint(4));
    let mut groups = vec![group(1, FingerprintKind::Probe, &[2, 5]), group(4, FingerprintKind::Gallery, &[3, 6])];
    groups[0].last_associated_from_probe = Some(Endpoint(1));
    cleanup_associations(&mut groups, &mut table);
    assert_eq!(table.get_associated_by_probe(Endpoint(1)), None);
    assert_eq!(table.get_associated_by_gallery(Endpoint(2)), None);
    assert_eq!(table.get_associated_by_probe(Endpoint(3)), Some(Endpoint(4)));
    assert_eq!(groups[0].last_associated_from_probe, None);
    assert_eq!(groups[1].last_associated_from_probe, None);
}

#[test]
fn try_associate_links_from_the_last_group_back() {
    let config = Config::new();
    let mut table = EndpointAssociations::new();
    let mut groups = vec![
        group(1, FingerprintKind::Probe, &[2, 5]),
        group(4, FingerprintKind::Gallery, &[3, 6]),
    ];
    assert!(try_associate_current_endpoints(&config, &mut groups, &mut table));
    assert_eq!(table.get_associated_by_probe(Endpoint(1)), Some(Endpoint(2)));
    assert_eq!(table.get_associated_by_probe(Endpoint(3)), Some(Endpoint(4)));
    assert_eq!(
        summary(&groups),
        vec![(1, true, vec![2, 5], 0, Some(1)), (4, false, vec![3, 6], 0, Some(3))]
    );
}

#[test]
fn try_associate_stops_at_a_clash_and_keeps_what_it_linked() {
    let config = Config::new();
    let mut table = EndpointAssociations::new();
    table.associate(Endpoint(1), Endpoint(9));
    let mut groups = vec![
        group(1, FingerprintKind::Probe, &[2, 5]),
        group(4, FingerprintKind::Gallery, &[3, 6]),
    ];
    assert!(!try_associate_current_endpoints(&config, &mut groups, &mut table));
    assert_eq!(table.get_associated_by_probe(Endpoint(3)), Some(Endpoint(4)));
    assert_eq!(table.get_associated_by_probe(Endpoint(1)), Some(Endpoint(9)));
    assert_eq!(
        summary(&groups),
        vec![(1, true, vec![2, 5], 0, None), (4, false, vec![3, 6], 0, Some(3))]
    );
}

#[test]
fn a_link_that_stands_is_remembered_in_strict_mode_only() {
    let mut config = Config::new();
    let mut table = EndpointAssociations::new();
    table.associate(Endpoint(1), Endpoint(2));
    let mut groups = vec![group(1, FingerprintKind::Probe, &[2, 5])];
    assert!(try_associate_current_endpoints(&config, &mut groups, &mut table));
    assert_eq!(groups[0].last_associated_from_probe, Some(Endpoint(1)));
    set_mode(&mut config, false);
    let mut relaxed = vec![group(1, FingerprintKind::Probe, &[2, 5])];
    assert!(try_associate_current_endpoints(&config, &mut relaxed, &mut table));
    assert_eq!(relaxed[0].last_associated_from_probe, None);
    assert_eq!(table.get_associated_by_probe(Endpoint(1)), Some(Endpoint(2)));
}

#[test]
fn find_next_walks_through_every_selection() {
    let config = Config::new();
    let mut table = EndpointAssociations::new();
    let mut groups = vec![
        group(1, FingerprintKind::Probe, &[10, 11]),
        group(2, FingerprintKind::Probe, &[20, 21, 22]),
    ];
    let mut seen = Vec::new();
    while find_next_not_conflicting_associations(&config, &mut groups, &mut table) {
        seen.push((groups[0].endpoint_index, groups[1].endpoint_index));
        assert_eq!(
            table.get_associated_by_probe(Endpoint(1)),
            Some(Endpoint(10 + groups[0].endpoint_index as u32))
        );
        assert_eq!(
            table.get_associated_by_probe(Endpoint(2)),
            Some(Endpoint(20 + groups[1].endpoint_index as u32))
        );
    }
    assert_eq!(seen, vec![(0, 1), (0, 2), (1, 0), (1, 1), (1, 2)]);
    assert_eq!((groups[0].endpoint_index, groups[1].endpoint_index), (0, 0));
    assert_eq!(table.get_associated_by_probe(Endpoint(1)), None);
    assert_eq!(table.get_associated_by_probe(Endpoint(2)), None);
}

#[test]
fn find_next_passes_selections_that_clash() {
    let config = Config::new();
    let mut table = EndpointAssociations::new();
    let mut groups = vec![
        group(1, FingerprintKind::Probe, &[10, 11]),
        group(2, FingerprintKind::Probe, &[11, 10]),
    ];
    let mut seen = Vec::new();
    while find_next_not_conflicting_associations(&config, &mut groups, &mut table) {
        seen.push((groups[0].endpoint_index, groups[1].endpoint_index));
    }
    assert_eq!(seen, vec![(1, 1)]);
}

#[test]
fn find_next_without_groups_finds_nothing() {
    let config = Config::new();
    let mut table = EndpointAssociations::new();
    let mut groups = Vec::new();
    assert!(!find_next_not_conflicting_associations(&config, &mut groups, &mut table));
}
