use switcher::seed::{apply_seed, ResolvedRow};
use switcher::source::RawRow;
use switcher::store::{Competition, Country, InstallError, Store};

fn bv(s: &str) -> Vec<u8> {
    s.as_bytes().to_vec()
}

fn country(id: i64, name: &str) -> Country {
    Country { id, name: bv(name), flag: vec![1] }
}

fn competition(id: i64, name: &str, country_id: i64, payload: &[u8]) -> Competition {
    Competition {
        id,
        name: bv(name),
        logo: vec![2],
        country_id,
        payload: payload.to_vec(),
    }
}

fn seeded_row(country: &str, comp: &str, payload: &[u8]) -> ResolvedRow {
    ResolvedRow {
        row: RawRow {
            country: bv(country),
            competition: bv(comp),
            flag_path: bv("f"),
            logo_path: bv("l"),
            payload_path: bv("p"),
        },
        flag: Ok(vec![3]),
        logo: Ok(vec![4]),
        payload: Ok(payload.to_vec()),
    }
}

#[test]
fn countries_come_out_sorted_without_duplicates() {
    // Rows arrive in identifier order, names deliberately unsorted.
    let st = Store::load(
        vec![country(1, "Uru"), country(2, "Arg"), country(5, "Bra")],
        vec![],
    )
    .unwrap();
    let names: Vec<Vec<u8>> = st.get_countries().into_iter().map(|c| c.name).collect();
    assert_eq!(names, vec![bv("Arg"), bv("Bra"), bv("Uru")]);
}

#[test]
fn load_rejects_duplicate_country_names() {
    assert!(Store::load(
        vec![country(1, "Arg"), country(2, "Arg")],
        vec![],
    )
    .is_none());
}

#[test]
fn load_rejects_unordered_identifiers() {
    assert!(Store::load(
        vec![country(2, "Arg"), country(1, "Bra")],
        vec![],
    )
    .is_none());
    assert!(Store::load(
        vec![country(0, "Arg")],
        vec![],
    )
    .is_none());
}

#[test]
fn load_rejects_dangling_country_reference() {
    assert!(Store::load(
        vec![country(1, "Arg")],
        vec![competition(1, "comp A", 9, b"x")],
    )
    .is_none());
}

#[test]
fn load_accepts_well_formed_snapshot() {
    let st = Store::load(
        vec![country(1, "Arg"), country(2, "Bra")],
        vec![
            competition(1, "comp A", 1, b"x"),
            competition(2, "comp B", 2, b"y"),
        ],
    )
    .unwrap();
    assert_eq!(st.competition_count(), 2);
    assert_eq!(st.get_competitions_by_country(2).len(), 1);
}

#[test]
fn listing_excludes_other_countries_and_sorts_by_name() {
    let st = Store::load(
        vec![country(1, "Arg"), country(2, "Bra")],
        vec![
            competition(1, "liga Z", 1, b"z"),
            competition(2, "liga A", 1, b"a"),
            competition(3, "liga M", 2, b"m"),
        ],
    )
    .unwrap();
    let listed = st.get_competitions_by_country(1);
    assert_eq!(listed.len(), 2);
    assert_eq!(listed[0].name, bv("liga A"));
    assert_eq!(listed[0].id, 2);
    assert_eq!(listed[1].name, bv("liga Z"));
    assert_eq!(listed[1].id, 1);
}

#[test]
fn listing_keeps_equal_names_apart_by_identity() {
    let st = Store::load(
        vec![country(1, "Arg")],
        vec![
            competition(1, "liga", 1, b"x"),
            competition(2, "liga", 1, b"y"),
        ],
    )
    .unwrap();
    let listed = st.get_competitions_by_country(1);
    assert_eq!(listed.len(), 2);
    assert_eq!(listed[0].name, bv("liga"));
    assert_eq!(listed[1].name, bv("liga"));
    assert_ne!(listed[0].id, listed[1].id);
}

#[test]
fn install_unknown_identifier_is_not_found() {
    let mut st = Store::new();
    match st.install_payload(1) {
        Err(InstallError::NotFound) => {}
        _ => panic!("empty store has no competition"),
    }
    apply_seed(&mut st, &vec![seeded_row("Arg", "comp A", b"payload")]).unwrap();
    match st.install_payload(99) {
        Err(InstallError::NotFound) => {}
        _ => panic!("identifier 99 was never assigned"),
    }
}

#[test]
fn install_returns_the_stored_payload_bytes() {
    let mut st = Store::new();
    apply_seed(
        &mut st,
        &vec![
            seeded_row("Arg", "comp A", b"first payload"),
            seeded_row("Bra", "comp B", b"second payload"),
        ],
    )
    .unwrap();
    assert_eq!(st.install_payload(1).unwrap(), b"first payload".to_vec());
    assert_eq!(st.install_payload(2).unwrap(), b"second payload".to_vec());
}

#[test]
fn install_rejects_empty_payload() {
    let mut st = Store::new();
    apply_seed(&mut st, &vec![seeded_row("Arg", "comp A", b"")]).unwrap();
    match st.install_payload(1) {
        Err(InstallError::EmptyPayload) => {}
        _ => panic!("a zero-length payload must be rejected"),
    }
}

#[test]
fn new_store_is_empty() {
    let st = Store::new();
    assert_eq!(st.competition_count(), 0);
    assert_eq!(st.get_countries().len(), 0);
}
