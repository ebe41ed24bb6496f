use load_order::{mods_to_game_data_sorted, Mod, Source, Status};

fn mk_mod(id: &str, display_name: &str) -> Mod {
    Mod {
        steam_id: format!("steam-{}", id),
        display_name: display_name.to_string(),
        tags: Some(vec!["Gameplay".to_string()]),
        time_updated: 1_600_000_000,
        source: Source::Steam,
        thumbnail_url: None,
        dir_path: format!("mods/{}", id),
        status: Status::ReadyToPlay,
        id: id.to_string(),
        game_registry_id: None,
        thumbnail_path: format!("mods/{}/thumb.png", id),
        required_version: Some("3.4".to_string()),
        archive_path: None,
    }
}

fn order_of(mods: Vec<Mod>) -> Vec<String> {
    let gd = mods_to_game_data_sorted(mods);
    assert!(gd.is_eula_accepted);
    gd.mods_order
}

#[test]
fn empty_input() {
    let gd = mods_to_game_data_sorted(Vec::new());
    assert_eq!(gd.mods_order, Vec::<String>::new());
    assert!(gd.is_eula_accepted);
}

#[test]
fn end_to_end_example() {
    // A name with a symbol prefix sorts after every empty-prefix name.
    let mods = vec![
        mk_mod("a1", "Zebra"),
        mk_mod("a2", "Apple"),
        mk_mod("a3", "#Tagged"),
    ];
    assert_eq!(order_of(mods), vec!["a2", "a1", "a3"]);
}

#[test]
fn eula_flag_fixed_regardless_of_input() {
    let gd = mods_to_game_data_sorted(Vec::new());
    assert!(gd.is_eula_accepted);
    let gd = mods_to_game_data_sorted(vec![mk_mod("x", "!!!")]);
    assert!(gd.is_eula_accepted);
    let gd = mods_to_game_data_sorted(vec![mk_mod("y", ""), mk_mod("z", "name")]);
    assert!(gd.is_eula_accepted);
}

#[test]
fn cardinality_preserved() {
    let mods = vec![
        mk_mod("m1", "Gamma"),
        mk_mod("m2", "Alpha"),
        mk_mod("m3", "Alpha"),
        mk_mod("m4", "!Sym"),
    ];
    let order = order_of(mods);
    assert_eq!(order.len(), 4);
    let mut sorted_ids = order.clone();
    sorted_ids.sort();
    assert_eq!(sorted_ids, vec!["m1", "m2", "m3", "m4"]);
}

#[test]
fn sort_is_idempotent() {
    let names = [
        ("i1", "Cherry"),
        ("i2", "!Bracketed"),
        ("i3", "apple"),
        ("i4", "Banana"),
        ("i5", "!!Deep"),
    ];
    let first = order_of(names.iter().map(|(i, n)| mk_mod(i, n)).collect());
    // Feed the records back in the order the first run produced.
    let by_id = |id: &String| names.iter().find(|(i, _)| i == id).unwrap();
    let resorted: Vec<Mod> = first
        .iter()
        .map(|id| {
            let (i, n) = *by_id(id);
            mk_mod(i, n)
        })
        .collect();
    let second = order_of(resorted);
    assert_eq!(first, second);
}

#[test]
fn equal_names_keep_input_order() {
    let mods = vec![
        mk_mod("first", "Same Name"),
        mk_mod("second", "Same Name"),
        mk_mod("third", "Same Name"),
    ];
    assert_eq!(order_of(mods), vec!["first", "second", "third"]);
}

#[test]
fn equal_names_keep_input_order_among_others() {
    let mods = vec![
        mk_mod("z", "Zulu"),
        mk_mod("dup1", "Echo"),
        mk_mod("a", "Alpha"),
        mk_mod("dup2", "Echo"),
    ];
    assert_eq!(order_of(mods), vec!["a", "dup1", "dup2", "z"]);
}

#[test]
fn groups_are_contiguous() {
    let mods = vec![
        mk_mod("p1", "!Tool"),
        mk_mod("n1", "Base"),
        mk_mod("p2", "!Art"),
        mk_mod("n2", "Addon"),
    ];
    // Empty-prefix names first in code-point order, then the "!" group,
    // itself ordered by the full name.
    assert_eq!(order_of(mods), vec!["n2", "n1", "p2", "p1"]);
}
