use bozorth::assigner::ClusterAssigner;
use bozorth::associations::{EndpointAssociations, EndpointRelation};
use bozorth::types::Endpoint;
use bozorth::Config;

#[test]
fn new_table_links_nothing() {
    let table = EndpointAssociations::new();
    for i in 0..200 {
        assert_eq!(table.get_associated_by_probe(Endpoint(i)), None);
        assert_eq!(table.get_associated_by_gallery(Endpoint(i)), None);
    }
    assert_eq!(table.get_status(Endpoint(0), Endpoint(199)), EndpointRelation::Unassociated);
}

#[test]
fn associate_links_both_directions() {
    let mut table = EndpointAssociations::new();
    table.associate(Endpoint(3), Endpoint(7));
    assert_eq!(table.get_associated_by_probe(Endpoint(3)), Some(Endpoint(7)));
    assert_eq!(table.get_associated_by_gallery(Endpoint(7)), Some(Endpoint(3)));
    assert_eq!(table.get_associated_by_probe(Endpoint(7)), None);
    assert_eq!(table.get_associated_by_gallery(Endpoint(3)), None);
    assert_eq!(table.get_status(Endpoint(3), Endpoint(7)), EndpointRelation::MutuallyAssociated);
    assert_eq!(table.get_status(Endpoint(3), Endpoint(8)), EndpointRelation::AssociatedToOther);
    assert_eq!(table.get_status(Endpoint(4), Endpoint(7)), EndpointRelation::AssociatedToOther);
    assert_eq!(table.get_status(Endpoint(4), Endpoint(8)), EndpointRelation::Unassociated);
}

#[test]
fn endpoints_at_the_rim_can_be_linked() {
    let mut table = EndpointAssociations::new();
    table.associate(Endpoint(199), Endpoint(0));
    table.associate(Endpoint(0), Endpoint(199));
    assert_eq!(table.get_associated_by_probe(Endpoint(199)), Some(Endpoint(0)));
    assert_eq!(table.get_associated_by_gallery(Endpoint(199)), Some(Endpoint(0)));
    assert_eq!(table.get_status(Endpoint(199), Endpoint(0)), EndpointRelation::MutuallyAssociated);
}

#[test]
fn clear_by_probe_empties_both_slots() {
    let mut table = EndpointAssociations::new();
    table.associate(Endpoint(3), Endpoint(7));
    table.clear_by_probe(Endpoint(3));
    assert_eq!(table.get_associated_by_probe(Endpoint(3)), None);
    assert_eq!(table.get_associated_by_gallery(Endpoint(7)), None);
    table.clear_by_probe(Endpoint(5));
    assert_eq!(table.get_status(Endpoint(3), Endpoint(7)), EndpointRelation::Unassociated);
}

#[test]
fn a_second_link_leaves_the_first_half_standing() {
    let mut table = EndpointAssociations::new();
    table.associate(Endpoint(1), Endpoint(5));
    table.associate(Endpoint(2), Endpoint(5));
    assert_eq!(table.get_associated_by_probe(Endpoint(1)), Some(Endpoint(5)));
    assert_eq!(table.get_associated_by_gallery(Endpoint(5)), Some(Endpoint(2)));
    assert_eq!(table.get_status(Endpoint(1), Endpoint(5)), EndpointRelation::AssociatedToOther);
    table.clear_by_probe(Endpoint(2));
    assert_eq!(table.get_associated_by_probe(Endpoint(1)), Some(Endpoint(5)));
    assert_eq!(table.get_associated_by_gallery(Endpoint(5)), None);
    assert_eq!(table.get_status(Endpoint(1), Endpoint(5)), EndpointRelation::AssociatedToOther);
}

#[test]
fn clear_unlinks_everything() {
    let mut table = EndpointAssociations::new();
    table.associate(Endpoint(1), Endpoint(5));
    table.associate(Endpoint(100), Endpoint(150));
    table.clear();
    assert_eq!(table.get_associated_by_probe(Endpoint(1)), None);
    assert_eq!(table.get_associated_by_gallery(Endpoint(150)), None);
}

#[test]
fn assigner_keeps_the_cluster_of_each_pair() {
    let config = Config::new();
    let mut assigner = ClusterAssigner::new();
    assert_eq!(assigner.get_cluster(0), None);
    assert_eq!(assigner.get_cluster(19999), None);
    assigner.assign(5, 0);
    assigner.assign(19999, 41);
    assert_eq!(assigner.get_cluster(5), Some(0));
    assert_eq!(assigner.get_cluster(19999), Some(41));
    assert_eq!(assigner.get_cluster(6), None);
    assigner.assign(5, 9);
    assert_eq!(assigner.get_cluster(5), Some(9));
    assigner.unassign(&config, 5);
    assert_eq!(assigner.get_cluster(5), Some(u32::MAX - 1));
    assigner.clear();
    assert_eq!(assigner.get_cluster(5), None);
    assert_eq!(assigner.get_cluster(19999), None);
}

#[test]
fn relaxed_unassign_empties_the_slot() {
    let mut config = Config::new();
    bozorth::set_mode(&mut config, false);
    let mut assigner = ClusterAssigner::new();
    assigner.assign(5, 3);
    assigner.unassign(&config, 5);
    assert_eq!(assigner.get_cluster(5), None);
}
