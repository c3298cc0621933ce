use switcher::seed::{apply_seed, plan_seed, ResolvedRow, SeedPlan};
use switcher::source::{parse_source, RawRow, SeedError};
use switcher::store::Store;

const HEADER: &str = "country,competition,country_flag,competition_logo,file\n";

fn bv(s: &str) -> Vec<u8> {
    s.as_bytes().to_vec()
}

fn raw(country: &str, competition: &str, n: u8) -> RawRow {
    RawRow {
        country: bv(country),
        competition: bv(competition),
        flag_path: bv(&format!("flags/{}", n)),
        logo_path: bv(&format!("logos/{}", n)),
        payload_path: bv(&format!("files/{}", n)),
    }
}

fn resolved(country: &str, competition: &str, n: u8) -> ResolvedRow {
    ResolvedRow {
        row: raw(country, competition, n),
        flag: Ok(vec![0xf0, n]),
        logo: Ok(vec![0x10, n]),
        payload: Ok(vec![0xb0, n]),
    }
}

#[test]
fn parse_extracts_and_trims_fields() {
    let csv = format!("{}{}", HEADER, " Arg , comp A ,flags/arg.svg,logos/a.png,files/a.big\n");
    let rows = parse_source(&csv.into_bytes()).unwrap();
    assert_eq!(rows.len(), 1);
    assert_eq!(rows[0].country, bv("Arg"));
    assert_eq!(rows[0].competition, bv("comp A"));
    assert_eq!(rows[0].flag_path, bv("flags/arg.svg"));
    assert_eq!(rows[0].logo_path, bv("logos/a.png"));
    assert_eq!(rows[0].payload_path, bv("files/a.big"));
}

#[test]
fn parse_handles_quoted_fields() {
    let csv = format!("{}{}", HEADER, "Arg,\"comp, the best\",f,l,p\n");
    let rows = parse_source(&csv.into_bytes()).unwrap();
    assert_eq!(rows.len(), 1);
    assert_eq!(rows[0].competition, bv("comp, the best"));
}

#[test]
fn parse_rejects_wrong_header() {
    let csv = "country,competition,flag,logo,file\nArg,comp A,f,l,p\n";
    match parse_source(&bv(csv)) {
        Err(SeedError::BadHeader) => {}
        other => panic!("expected BadHeader, got {:?}", discriminant_name(&other)),
    }
}

#[test]
fn parse_rejects_short_record() {
    let csv = format!("{}{}", HEADER, "Arg,comp A,f\n");
    match parse_source(&csv.into_bytes()) {
        Err(SeedError::Unparsable { cause }) => {
            assert!(!cause.is_empty());
        }
        other => panic!("expected Unparsable, got {:?}", discriminant_name(&other)),
    }
}

fn discriminant_name(r: &Result<Vec<RawRow>, SeedError>) -> &'static str {
    match r {
        Ok(_) => "Ok",
        Err(SeedError::Unparsable { .. }) => "Unparsable",
        Err(SeedError::BadHeader) => "BadHeader",
        Err(SeedError::AssetUnreadable { .. }) => "AssetUnreadable",
    }
}

#[test]
fn three_rows_seed_two_countries_three_competitions() {
    let csv = format!(
        "{}{}{}{}",
        HEADER,
        "Arg,comp A,flags/arg.svg,logos/a.png,files/a.big\n",
        "Arg,comp B,flags/arg.svg,logos/b.png,files/b.big\n",
        "Bra,comp C,flags/bra.svg,logos/c.png,files/c.big\n",
    );
    let mut store = Store::new();
    let rows = match plan_seed(&store, &csv.into_bytes()).unwrap() {
        SeedPlan::Reseed(rows) => rows,
        SeedPlan::UpToDate => panic!("empty store must be stale"),
    };
    assert_eq!(rows.len(), 3);
    let resolved_rows: Vec<ResolvedRow> = vec![
        ResolvedRow {
            row: rows.into_iter().next().unwrap(),
            flag: Ok(bv("arg-flag")),
            logo: Ok(bv("logo-a")),
            payload: Ok(bv("payload-a")),
        },
        resolved("Arg", "comp B", 2),
        resolved("Bra", "comp C", 3),
    ];
    apply_seed(&mut store, &resolved_rows).unwrap();

    assert_eq!(store.competition_count(), 3);
    let countries = store.get_countries();
    assert_eq!(countries.len(), 2);
    assert_eq!(countries[0].name, bv("Arg"));
    assert_eq!(countries[1].name, bv("Bra"));
    assert_eq!(countries[0].id, 1);
    assert_eq!(countries[1].id, 2);
    assert_eq!(countries[0].flag, bv("arg-flag"));

    let arg_comps = store.get_competitions_by_country(1);
    assert_eq!(arg_comps.len(), 2);
    assert_eq!(arg_comps[0].name, bv("comp A"));
    assert_eq!(arg_comps[1].name, bv("comp B"));

    let bra_comps = store.get_competitions_by_country(2);
    assert_eq!(bra_comps.len(), 1);
    assert_eq!(bra_comps[0].name, bv("comp C"));

    assert_eq!(store.get_competitions_by_country(77).len(), 0);
}

#[test]
fn up_to_date_store_is_left_alone() {
    let csv = format!(
        "{}{}{}",
        HEADER, "Arg,comp A,fa,la,pa\n", "Bra,comp B,fb,lb,pb\n",
    );
    let bytes = csv.into_bytes();
    let mut store = Store::new();
    match plan_seed(&store, &bytes).unwrap() {
        SeedPlan::Reseed(rows) => {
            let resolved_rows = vec![resolved("Arg", "comp A", 1), resolved("Bra", "comp B", 2)];
            assert_eq!(rows.len(), 2);
            apply_seed(&mut store, &resolved_rows).unwrap();
        }
        SeedPlan::UpToDate => panic!("empty store must be stale"),
    }
    // Same source again: two stored competitions, two source rows.
    match plan_seed(&store, &bytes).unwrap() {
        SeedPlan::UpToDate => {}
        SeedPlan::Reseed(_) => panic!("stored count >= source count must not reseed"),
    }
    assert_eq!(store.competition_count(), 2);
    // A shorter source is also treated as up to date.
    let shorter = format!("{}{}", HEADER, "Uru,comp U,f,l,p\n").into_bytes();
    match plan_seed(&store, &shorter).unwrap() {
        SeedPlan::UpToDate => {}
        SeedPlan::Reseed(_) => panic!("stored count >= source count must not reseed"),
    }
}

#[test]
fn header_only_source_with_empty_store_is_up_to_date() {
    let store = Store::new();
    match plan_seed(&store, &bv(HEADER)).unwrap() {
        SeedPlan::UpToDate => {}
        SeedPlan::Reseed(_) => panic!("0 stored rows >= 0 source rows"),
    }
}

#[test]
fn odd_header_skips_when_store_is_current_and_fails_when_stale() {
    let csv = "pais,torneo,bandera,logotipo,archivo\nArg,comp A,f,l,p\n";
    let mut store = Store::new();
    apply_seed(&mut store, &vec![resolved("Arg", "comp A", 1)]).unwrap();
    // One stored competition, one source row: counted as current before
    // any column validation.
    match plan_seed(&store, &bv(csv)).unwrap() {
        SeedPlan::UpToDate => {}
        SeedPlan::Reseed(_) => panic!("stored count >= source count must not reseed"),
    }
    // A stale store does reach the header check.
    let fresh = Store::new();
    match plan_seed(&fresh, &bv(csv)) {
        Err(SeedError::BadHeader) => {}
        _ => panic!("a stale store must reject the odd header"),
    }
}

#[test]
fn empty_source_counts_as_current() {
    let store = Store::new();
    match plan_seed(&store, &Vec::new()).unwrap() {
        SeedPlan::UpToDate => {}
        SeedPlan::Reseed(_) => panic!("an empty source has no rows to be behind on"),
    }
}

#[test]
fn unreadable_asset_fails_whole_import_and_preserves_store() {
    let mut store = Store::new();
    apply_seed(&mut store, &vec![resolved("Arg", "comp A", 1)]).unwrap();
    assert_eq!(store.competition_count(), 1);

    let bad = vec![
        resolved("Arg", "comp A", 1),
        ResolvedRow {
            row: raw("Bra", "comp B", 2),
            flag: Ok(bv("bra-flag")),
            logo: Err(String::from("permission denied")),
            payload: Ok(bv("payload-b")),
        },
        resolved("Uru", "comp C", 3),
    ];
    match apply_seed(&mut store, &bad) {
        Err(SeedError::AssetUnreadable { path, cause }) => {
            assert_eq!(path, bv("logos/2"));
            assert_eq!(cause, "permission denied");
        }
        _ => panic!("an unreadable asset must fail the import"),
    }
    // The store is exactly as before the failed attempt.
    assert_eq!(store.competition_count(), 1);
    let countries = store.get_countries();
    assert_eq!(countries.len(), 1);
    assert_eq!(countries[0].name, bv("Arg"));
    let comps = store.get_competitions_by_country(1);
    assert_eq!(comps.len(), 1);
    assert_eq!(comps[0].name, bv("comp A"));
}

#[test]
fn reported_failure_is_the_first_in_import_order() {
    let mut store = Store::new();
    let bad = vec![ResolvedRow {
        row: raw("Arg", "comp A", 1),
        flag: Err(String::from("missing flag")),
        logo: Err(String::from("missing logo")),
        payload: Ok(bv("p")),
    }];
    match apply_seed(&mut store, &bad) {
        Err(SeedError::AssetUnreadable { path, cause }) => {
            assert_eq!(path, bv("flags/1"));
            assert_eq!(cause, "missing flag");
        }
        _ => panic!("an unreadable asset must fail the import"),
    }
    assert_eq!(store.competition_count(), 0);
}

#[test]
fn identifiers_restart_after_reseed() {
    let mut store = Store::new();
    apply_seed(&mut store, &vec![resolved("Arg", "comp A", 1)]).unwrap();
    let rows = vec![
        resolved("Uru", "comp U", 1),
        resolved("Chi", "comp V", 2),
    ];
    apply_seed(&mut store, &rows).unwrap();
    let countries = store.get_countries();
    assert_eq!(countries.len(), 2);
    // Uru was created first in the new generation, so it has the
    // initial identifier again.
    for c in &countries {
        if c.name == bv("Uru") {
            assert_eq!(c.id, 1);
        } else {
            assert_eq!(c.name, bv("Chi"));
            assert_eq!(c.id, 2);
        }
    }
    let uru_comps = store.get_competitions_by_country(1);
    assert_eq!(uru_comps.len(), 1);
    assert_eq!(uru_comps[0].id, 1);
}

#[test]
fn repeated_country_reuses_cached_identifier() {
    let mut store = Store::new();
    let rows = vec![
        resolved("Arg", "comp A", 1),
        resolved("Bra", "comp B", 2),
        ResolvedRow {
            row: raw("Arg", "comp C", 3),
            flag: Ok(bv("other-flag")),
            logo: Ok(bv("logo-c")),
            payload: Ok(bv("payload-c")),
        },
    ];
    apply_seed(&mut store, &rows).unwrap();
    let countries = store.get_countries();
    // Only two countries, and Arg keeps the flag of its first occurrence.
    assert_eq!(countries.len(), 2);
    assert_eq!(countries[0].name, bv("Arg"));
    assert_eq!(countries[0].flag, vec![0xf0, 1]);
    let arg_comps = store.get_competitions_by_country(countries[0].id);
    assert_eq!(arg_comps.len(), 2);
    assert_eq!(arg_comps[0].name, bv("comp A"));
    assert_eq!(arg_comps[1].name, bv("comp C"));
}
