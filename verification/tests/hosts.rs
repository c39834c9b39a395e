//! The machines of a fleet, and the terms that address them.

use detc::hosts::{count, range, Count, Inventory};

/// An inventory as a file would have described it.
fn inventory(groups: &[(&str, &[&str])]) -> Inventory {
    if groups.is_empty() {
        return Inventory::empty("hosts.yaml".to_string());
    }

    let mut body = String::new();
    for (name, members) in groups {
        body.push_str(&format!("{name}:\n"));
        for member in members.iter() {
            body.push_str(&format!("  - \"{member}\"\n"));
        }
    }

    Inventory::from_file("hosts.yaml", Ok(body)).expect("the groups are a document")
}

/// The fleet that the tests address.
fn fleet() -> Inventory {
    inventory(&[
        ("dmz", &["web1", "web2"]),
        ("db", &["db1"]),
        ("all", &["dmz", "db"]),
    ])
}

/// The hosts that the terms select, as the command line gives them.
fn expand(inventory: &Inventory, terms: &[&str]) -> Result<Vec<String>, String> {
    inventory.expand(&terms.iter().map(|t| t.to_string()).collect::<Vec<_>>())
}

#[test]
fn a_group_is_the_hosts_it_names() {
    assert_eq!(expand(&fleet(), &["dmz"]).unwrap(), ["web1", "web2"]);
}

#[test]
fn a_group_may_name_another() {
    assert_eq!(expand(&fleet(), &["all"]).unwrap(), ["web1", "web2", "db1"]);
}

#[test]
fn a_comma_says_what_a_second_term_says() {
    assert_eq!(
        expand(&fleet(), &["dmz,db"]).unwrap(),
        expand(&fleet(), &["dmz", "db"]).unwrap()
    );
}

#[test]
fn a_host_that_two_terms_name_is_reached_once() {
    assert_eq!(
        expand(&fleet(), &["dmz", "web1", "all"]).unwrap(),
        ["web1", "web2", "db1"]
    );
}

#[test]
fn a_pattern_matches_the_hosts_of_the_inventory() {
    assert_eq!(expand(&fleet(), &["web*"]).unwrap(), ["web1", "web2"]);
    assert_eq!(expand(&fleet(), &["*1"]).unwrap(), ["db1", "web1"]);
}

#[test]
fn a_name_the_inventory_never_heard_of_is_a_host() {
    assert_eq!(expand(&fleet(), &["web9"]).unwrap(), ["web9"]);

    // Which is what makes an inventory optional, and not something that
    // every run has to have written first
    let none = inventory(&[]);
    assert_eq!(expand(&none, &["web1", "web2"]).unwrap(), ["web1", "web2"]);
}

#[test]
fn an_exclusion_takes_away_what_was_already_selected() {
    assert_eq!(expand(&fleet(), &["all", "!dmz"]).unwrap(), ["db1"]);
    assert_eq!(expand(&fleet(), &["web*", "!web2"]).unwrap(), ["web1"]);

    // And never what comes after it, so the order is the one that was typed
    assert_eq!(
        expand(&fleet(), &["!dmz", "all"]).unwrap(),
        ["web1", "web2", "db1"]
    );
}

#[test]
fn a_group_that_names_itself_is_refused() {
    let circle = inventory(&[("a", &["b"]), ("b", &["a"])]);
    let error = expand(&circle, &["a"]).unwrap_err();

    assert!(error.contains("a -> b -> a"), "{error}");

    let itself = inventory(&[("a", &["a"])]);
    assert!(expand(&itself, &["a"]).is_err());
}

#[test]
fn a_pattern_that_matches_nothing_is_refused() {
    let error = expand(&fleet(), &["mail*"]).unwrap_err();
    assert!(error.contains("matches no host"), "{error}");

    // With no inventory at all the reason is a different one, and says
    // where the groups would go
    let error = expand(&inventory(&[]), &["mail*"]).unwrap_err();
    assert!(error.contains("no inventory"), "{error}");
}

#[test]
fn a_pattern_may_stand_in_a_group() {
    let stage = inventory(&[
        ("stage", &["stage-web1", "stage-web2"]),
        ("web", &["dmz", "stage-web*"]),
        ("dmz", &["web1"]),
    ]);

    assert_eq!(
        expand(&stage, &["web"]).unwrap(),
        ["web1", "stage-web1", "stage-web2"]
    );
}

#[test]
fn a_range_counts_out_the_machines_between_its_ends() {
    let none = inventory(&[]);

    assert_eq!(
        expand(&none, &["web[1:3]"]).unwrap(),
        ["web1", "web2", "web3"]
    );

    // A zero in front of the lower end is how wide every number is written
    assert_eq!(
        expand(&none, &["web[08:11]"]).unwrap(),
        ["web08", "web09", "web10", "web11"]
    );

    // A letter counts like a number, and keeps the case it was written in
    assert_eq!(
        expand(&none, &["rack[a:c]"]).unwrap(),
        ["racka", "rackb", "rackc"]
    );
    assert_eq!(
        expand(&none, &["rack[X:Z]"]).unwrap(),
        ["rackX", "rackY", "rackZ"]
    );

    // And an address is a name like any other
    assert_eq!(
        expand(&none, &["192.168.1.[10:12]"]).unwrap(),
        ["192.168.1.10", "192.168.1.11", "192.168.1.12"]
    );
}

#[test]
fn a_range_names_machines_the_inventory_never_heard_of() {
    // Which is what tells it apart from a pattern: a pattern has to have
    // something to match against, and a count carries its own ends
    let none = inventory(&[]);

    assert!(expand(&none, &["web*"]).is_err());
    assert_eq!(expand(&none, &["web[1:2]"]).unwrap(), ["web1", "web2"]);
}

#[test]
fn a_range_may_stand_in_a_group() {
    let lab = inventory(&[("lab", &["lab[01:03]", "gate"])]);

    assert_eq!(
        expand(&lab, &["lab"]).unwrap(),
        ["lab01", "lab02", "lab03", "gate"]
    );
}

#[test]
fn a_pattern_matches_what_a_range_named() {
    // A range names machines and a pattern only finds them, so the ones a
    // count produced are there to be found
    let lab = inventory(&[("lab", &["lab[01:12]"])]);

    assert_eq!(expand(&lab, &["lab0*"]).unwrap().len(), 9);
    assert_eq!(
        expand(&lab, &["lab1?"]).unwrap(),
        ["lab10", "lab11", "lab12"]
    );
}

#[test]
fn a_range_may_be_taken_away() {
    assert_eq!(
        expand(&inventory(&[]), &["web[1:4]", "!web[2:3]"]).unwrap(),
        ["web1", "web4"]
    );
}

#[test]
fn two_ranges_in_one_name_are_every_pair() {
    assert_eq!(
        expand(&inventory(&[]), &["r[1:2]-n[1:2]"]).unwrap(),
        ["r1-n1", "r1-n2", "r2-n1", "r2-n2"]
    );
}

#[test]
fn a_range_that_counts_backwards_is_refused() {
    let none = inventory(&[]);

    for backwards in ["web[3:1]", "rack[c:a]"] {
        let error = expand(&none, &[backwards]).unwrap_err();
        assert!(error.contains("counts backwards"), "{error}");
    }
}

#[test]
fn what_lies_between_the_brackets_says_which_one_it_is() {
    let fleet = inventory(&[("dmz", &["weba", "webb", "web1"])]);

    // Without a colon the brackets are the class of characters they have
    // always been, so a pattern written before there were ranges still
    // means what it meant
    assert_eq!(expand(&fleet, &["web[ab]"]).unwrap(), ["weba", "webb"]);

    // Two ends that are not both numbers or both letters of one case are
    // not a count either, and are left to the pattern
    assert_eq!(expand(&fleet, &["web[a:1]"]).unwrap(), ["web1", "weba"]);

    // And a count is the one with two ends that go together
    assert_eq!(expand(&fleet, &["web[1:2]"]).unwrap(), ["web1", "web2"]);
}

#[test]
fn nothing_is_selected_by_nothing() {
    assert!(expand(&fleet(), &[]).unwrap().is_empty());
    assert!(expand(&fleet(), &["dmz", "!dmz"]).unwrap().is_empty());
}

#[test]
fn an_inventory_that_cannot_be_read_says_which_one_it_is() {
    let error = Inventory::from_file("hosts.yaml", Err("No such file".to_string()))
        .err()
        .expect("a file that is not there is reported");
    assert!(error.contains("hosts.yaml"), "{error}");

    assert!(Inventory::from_file("hosts.yaml", Ok("- web1\n".to_string())).is_err());
    assert!(Inventory::from_file("hosts.yaml", Ok("dmz: web1\n".to_string())).is_err());
}

#[test]
fn every_host_of_an_inventory_is_listed_once_and_in_order() {
    assert_eq!(fleet().hosts(), ["db1", "web1", "web2"]);
    assert_eq!(
        inventory(&[("lab", &["lab[2:3]", "lab2", "gate"])]).hosts(),
        ["gate", "lab2", "lab3"]
    );
}

#[test]
fn the_ends_of_a_count_go_together_or_are_none() {
    assert_eq!(
        count("08", "11"),
        Some(Count::Numbers { low: 8, high: 11, width: 2 })
    );
    assert_eq!(
        count("a", "c"),
        Some(Count::Letters { low: b'a', high: b'c' })
    );
    assert_eq!(count("a", "C"), None);
    assert_eq!(count("a", "1"), None);
    assert_eq!(count("", "1"), None);
    assert!(!count("3", "1").unwrap().ascends());
    assert_eq!(count("3", "5").unwrap().steps(), ["3", "4", "5"]);

    let web = range("web[1:2].lan").expect("the brackets hold a count");
    assert_eq!(web.names(), ["web1.lan", "web2.lan"]);
    assert!(range("web[ab]").is_none());
}

#[test]
fn a_pattern_is_matched_against_every_pair_of_two_ranges() {
    let lab = inventory(&[("lab", &["r[1:2]-n[1:2]"])]);
    assert_eq!(lab.hosts(), ["r1-n1", "r1-n2", "r2-n1", "r2-n2"]);
    assert_eq!(expand(&lab, &["*-n2"]).unwrap(), ["r1-n2", "r2-n2"]);

    // What a count produced may be a group, whose machines are its members, or a pattern,
    // which names none
    let lab = inventory(&[("n1", &["gate"]), ("lab", &["n[1:2]", "w[1:2]*"])]);
    assert_eq!(lab.hosts(), ["gate", "n2"]);
}
