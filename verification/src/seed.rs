//! The seeding coordinator.
//!
//! Seeding replaces the whole store with what the source describes: for
//! each source row, the row's country is created on its first occurrence
//! (later rows reuse it), and a competition referencing it is inserted.
//! A full reset precedes the rebuild, so identifiers restart from the
//! initial value; the store is only replaced once every row has gone
//! through, so a failure leaves the caller's store exactly as it was.
//!
//! The staleness heuristic is the row-count comparison: when the store
//! already holds at least as many competitions as the source has rows,
//! seeding is skipped. A source edited in place without changing its row
//! count therefore does not trigger a re-seed; that is a documented
//! limitation of the heuristic, not something this module tries to fix.

use vstd::prelude::*;

use crate::bytes::clone_bytes;
use crate::bytes::cmp_bytes;
use crate::bytes::Cmp;
use crate::source::csv_table;
use crate::source::raw_row_views;
use crate::source::rows_of_records;
use crate::source::valid_header;
use crate::source::RawRow;
use crate::source::RawRowV;
use crate::source::SeedError;
use crate::store::competition_views;
use crate::store::country_views;
use crate::store::empty_store;
use crate::store::find_country_by_id;
use crate::store::find_country_by_name;
use crate::store::lemma_find_country_id_at;
use crate::store::wf_store;
use crate::store::Competition;
use crate::store::CompetitionV;
use crate::store::Country;
use crate::store::CountryV;
use crate::store::Store;
use crate::store::StoreV;

verus! {

/// A source row with every asset resolved to bytes: country name,
/// competition name, and the contents of the flag, logo and payload
/// files.
pub ghost struct RowV {
    pub country: Seq<u8>,
    pub competition: Seq<u8>,
    pub flag: Seq<u8>,
    pub logo: Seq<u8>,
    pub payload: Seq<u8>,
}

/// A source row together with the outcome of reading each of the three
/// asset files it names: the bytes read, or the reported cause of the
/// failure.
pub struct ResolvedRow {
    pub row: RawRow,
    pub flag: Result<Vec<u8>, String>,
    pub logo: Result<Vec<u8>, String>,
    pub payload: Result<Vec<u8>, String>,
}

/// Mathematical value of a resolved row.
pub ghost struct ResolvedRowV {
    pub row: RawRowV,
    pub flag: Result<Seq<u8>, Seq<char>>,
    pub logo: Result<Seq<u8>, Seq<char>>,
    pub payload: Result<Seq<u8>, Seq<char>>,
}

impl View for ResolvedRow {
    type V = ResolvedRowV;

    open spec fn view(&self) -> ResolvedRowV {
        ResolvedRowV {
            row: self.row@,
            flag: match self.flag {
                Ok(b) => Ok(b@),
                Err(c) => Err(c@),
            },
            logo: match self.logo {
                Ok(b) => Ok(b@),
                Err(c) => Err(c@),
            },
            payload: match self.payload {
                Ok(b) => Ok(b@),
                Err(c) => Err(c@),
            },
        }
    }
}

pub open spec fn resolved_views(s: Seq<ResolvedRow>) -> Seq<ResolvedRowV> {
    s.map_values(|r: ResolvedRow| r@)
}

/// The first unreadable asset of one row, if any, in the order the
/// importer reads them: flag, then logo, then payload.
pub open spec fn row_failure(r: ResolvedRowV) -> Option<(Seq<u8>, Seq<char>)> {
    if r.flag is Err {
        Some((r.row.flag_path, r.flag->Err_0))
    } else if r.logo is Err {
        Some((r.row.logo_path, r.logo->Err_0))
    } else if r.payload is Err {
        Some((r.row.payload_path, r.payload->Err_0))
    } else {
        None
    }
}

/// The first unreadable asset over all rows, in row order.
pub open spec fn first_failure(rows: Seq<ResolvedRowV>) -> Option<(Seq<u8>, Seq<char>)>
    decreases rows.len(),
{
    if rows.len() == 0 {
        None
    } else if row_failure(rows[0]) is Some {
        row_failure(rows[0])
    } else {
        first_failure(rows.drop_first())
    }
}

/// The fully-resolved value of a row all of whose assets were read.
pub open spec fn row_value(r: ResolvedRowV) -> RowV {
    RowV {
        country: r.row.country,
        competition: r.row.competition,
        flag: r.flag->Ok_0,
        logo: r.logo->Ok_0,
        payload: r.payload->Ok_0,
    }
}

pub open spec fn row_values(rows: Seq<ResolvedRowV>) -> Seq<RowV> {
    rows.map_values(|r: ResolvedRowV| row_value(r))
}

/// One seeding step: resolve or create the row's country, then insert
/// the row's competition referencing it. A country is created only on
/// the first occurrence of its name, with the flag read for that
/// occurrence; each table hands out identifiers in insertion order.
pub open spec fn seed_step(s: StoreV, row: RowV) -> StoreV {
    let s1 = if find_country_by_name(s.countries, row.country) is Some {
        s
    } else {
        StoreV {
            countries: s.countries.push(
                CountryV { id: s.next_country_id, name: row.country, flag: row.flag },
            ),
            competitions: s.competitions,
            next_country_id: s.next_country_id + 1,
            next_competition_id: s.next_competition_id,
        }
    };
    let cid: int = find_country_by_name(s1.countries, row.country)->Some_0.id;
    StoreV {
        countries: s1.countries,
        competitions: s1.competitions.push(
            CompetitionV {
                id: s1.next_competition_id,
                name: row.competition,
                logo: row.logo,
                country_id: cid,
                payload: row.payload,
            },
        ),
        next_country_id: s1.next_country_id,
        next_competition_id: s1.next_competition_id + 1,
    }
}

/// The store after seeding the first `n` rows into an empty store.
pub open spec fn seed_prefix(rows: Seq<RowV>, n: int) -> StoreV
    decreases n,
{
    if n <= 0 {
        empty_store()
    } else {
        seed_step(seed_prefix(rows, n - 1), rows[n - 1])
    }
}

/// The store a full seeding run builds from the given rows.
pub open spec fn seeded(rows: Seq<RowV>) -> StoreV {
    seed_prefix(rows, rows.len() as int)
}

/// What `find_country_by_name` finding (or not finding) a country means
/// for the rows themselves.
proof fn lemma_find_country_by_name_spec(cs: Seq<CountryV>, name: Seq<u8>)
    ensures
        match find_country_by_name(cs, name) {
            Some(c) => c.name == name && exists|j: int| 0 <= j < cs.len() && cs[j] == c,
            None => forall|j: int| 0 <= j < cs.len() ==> (#[trigger] cs[j]).name != name,
        },
    decreases cs.len(),
{
    if cs.len() > 0 {
        lemma_find_country_by_name_spec(cs.drop_first(), name);
        if cs[0].name != name {
            match find_country_by_name(cs.drop_first(), name) {
                Some(c) => {
                    let j: int = choose|j: int|
                        0 <= j < cs.drop_first().len() && cs.drop_first()[j] == c;
                    assert(cs[j + 1] == c);
                },
                None => {
                    assert forall|j: int|
                        0 <= j < cs.len() implies (#[trigger] cs[j]).name != name by {
                        if j > 0 {
                            assert(cs.drop_first()[j - 1] == cs[j]);
                        }
                    }
                },
            }
        }
    }
}

/// Appending a country does not disturb an identifier lookup that
/// already succeeds, and resolves its own identifier.
proof fn lemma_find_country_by_id_push(cs: Seq<CountryV>, c: CountryV, id: int)
    ensures
        find_country_by_id(cs, id) is Some ==> find_country_by_id(cs.push(c), id)
            == find_country_by_id(cs, id),
        find_country_by_id(cs, id) is None && c.id == id ==> find_country_by_id(cs.push(c), id)
            == Some(c),
    decreases cs.len(),
{
    if cs.len() > 0 {
        assert(cs.push(c).drop_first() =~= cs.drop_first().push(c));
        lemma_find_country_by_id_push(cs.drop_first(), c, id);
    } else {
        assert(cs.push(c).drop_first() =~= Seq::<CountryV>::empty());
    }
}

/// Same-name lookups agree before and after appending a country with a
/// fresh name.
proof fn lemma_find_country_by_name_push(cs: Seq<CountryV>, c: CountryV, name: Seq<u8>)
    ensures
        find_country_by_name(cs, name) is Some ==> find_country_by_name(cs.push(c), name)
            == find_country_by_name(cs, name),
        find_country_by_name(cs, name) is None && c.name == name ==> find_country_by_name(
            cs.push(c),
            name,
        ) == Some(c),
    decreases cs.len(),
{
    if cs.len() > 0 {
        assert(cs.push(c).drop_first() =~= cs.drop_first().push(c));
        lemma_find_country_by_name_push(cs.drop_first(), c, name);
    } else {
        assert(cs.push(c).drop_first() =~= Seq::<CountryV>::empty());
    }
}

/// Every prefix of a seeding run is well formed, and its identifier
/// sequences track how many rows went in: competitions get one
/// identifier per row, countries at most one.
pub proof fn lemma_seed_prefix_wf(rows: Seq<RowV>, n: int)
    requires
        0 <= n <= rows.len(),
    ensures
        wf_store(seed_prefix(rows, n)),
        seed_prefix(rows, n).competitions.len() == n,
        seed_prefix(rows, n).next_competition_id == n + 1,
        1 <= seed_prefix(rows, n).next_country_id <= n + 1,
        seed_prefix(rows, n).countries.len() == seed_prefix(rows, n).next_country_id - 1,
    decreases n,
{
    if n > 0 {
        lemma_seed_prefix_wf(rows, n - 1);
        let s = seed_prefix(rows, n - 1);
        let row = rows[n - 1];
        lemma_find_country_by_name_spec(s.countries, row.country);
        let s1 = if find_country_by_name(s.countries, row.country) is Some {
            s
        } else {
            StoreV {
                countries: s.countries.push(
                    CountryV { id: s.next_country_id, name: row.country, flag: row.flag },
                ),
                competitions: s.competitions,
                next_country_id: s.next_country_id + 1,
                next_competition_id: s.next_competition_id,
            }
        };
        if find_country_by_name(s.countries, row.country) is None {
            lemma_find_country_by_name_push(
                s.countries,
                CountryV { id: s.next_country_id, name: row.country, flag: row.flag },
                row.country,
            );
        }
        lemma_find_country_by_name_spec(s1.countries, row.country);
        let c = find_country_by_name(s1.countries, row.country)->Some_0;
        let j: int = choose|j: int| 0 <= j < s1.countries.len() && s1.countries[j] == c;
        assert(find_country_by_id(s1.countries, c.id) is Some) by {
            lemma_find_country_exists_id(s1.countries, c.id, j);
        }
        assert forall|i: int|
            0 <= i < seed_prefix(rows, n).competitions.len() implies find_country_by_id(
            seed_prefix(rows, n).countries,
            (#[trigger] seed_prefix(rows, n).competitions[i]).country_id,
        ) is Some by {
            if i < s.competitions.len() {
                assert(s.competitions[i] == seed_prefix(rows, n).competitions[i]);
                if find_country_by_name(s.countries, row.country) is None {
                    lemma_find_country_by_id_push(
                        s.countries,
                        CountryV { id: s.next_country_id, name: row.country, flag: row.flag },
                        s.competitions[i].country_id,
                    );
                }
            }
        }
    }
}

/// A country present at some index is found by its identifier.
proof fn lemma_find_country_exists_id(cs: Seq<CountryV>, id: int, j: int)
    requires
        0 <= j < cs.len(),
        cs[j].id == id,
    ensures
        find_country_by_id(cs, id) is Some,
    decreases j,
{
    if cs[0].id != id {
        assert(cs.drop_first()[j - 1] == cs[j]);
        lemma_find_country_exists_id(cs.drop_first(), id, j - 1);
    }
}

/// When nothing before position `j` carries `name` and the country at
/// `j` does, the name lookup yields that country.
proof fn lemma_find_country_name_at(cs: Seq<CountryV>, name: Seq<u8>, j: int)
    requires
        0 <= j < cs.len(),
        forall|k: int| 0 <= k < j ==> (#[trigger] cs[k]).name != name,
        cs[j].name == name,
    ensures
        find_country_by_name(cs, name) == Some(cs[j]),
    decreases j,
{
    if j > 0 {
        assert(forall|k: int|
            0 <= k < j - 1 ==> (#[trigger] cs.drop_first()[k]).name != name && cs.drop_first()[k]
                == cs[k + 1]);
        assert(cs.drop_first()[j - 1] == cs[j]);
        lemma_find_country_name_at(cs.drop_first(), name, j - 1);
    }
}

/// When no country carries `name`, the name lookup yields nothing.
proof fn lemma_find_country_name_none(cs: Seq<CountryV>, name: Seq<u8>)
    requires
        forall|k: int| 0 <= k < cs.len() ==> (#[trigger] cs[k]).name != name,
    ensures
        find_country_by_name(cs, name) is None,
    decreases cs.len(),
{
    if cs.len() > 0 {
        lemma_find_country_name_none(cs.drop_first(), name);
    }
}

/// After seeding `n` rows, each seeded competition carries its row's
/// name, logo and payload, and its country reference resolves to a
/// country named as in the row.
pub proof fn lemma_seed_prefix_rows(rows: Seq<RowV>, n: int)
    requires
        0 <= n <= rows.len(),
    ensures
        forall|i: int|
            0 <= i < n ==> {
                let c = (#[trigger] seed_prefix(rows, n).competitions[i]);
                &&& c.name == rows[i].competition
                &&& c.logo == rows[i].logo
                &&& c.payload == rows[i].payload
                &&& find_country_by_id(seed_prefix(rows, n).countries, c.country_id) matches Some(
                    ct,
                ) && ct.name == rows[i].country
            },
    decreases n,
{
    if n > 0 {
        lemma_seed_prefix_rows(rows, n - 1);
        lemma_seed_prefix_wf(rows, n - 1);
        lemma_seed_prefix_wf(rows, n);
        let s = seed_prefix(rows, n - 1);
        let sn = seed_prefix(rows, n);
        let row = rows[n - 1];
        let fresh = CountryV { id: s.next_country_id, name: row.country, flag: row.flag };
        lemma_find_country_by_name_spec(s.countries, row.country);
        if find_country_by_name(s.countries, row.country) is None {
            lemma_find_country_by_name_push(s.countries, fresh, row.country);
        }
        lemma_find_country_by_name_spec(sn.countries, row.country);
        let ct = find_country_by_name(sn.countries, row.country)->Some_0;
        let j: int = choose|j: int| 0 <= j < sn.countries.len() && sn.countries[j] == ct;
        assert forall|k: int| 0 <= k < j implies (#[trigger] sn.countries[k]).id != ct.id by {
            assert(sn.countries[k].id < sn.countries[j].id);
        }
        lemma_find_country_id_at(sn.countries, ct.id, j);
        assert forall|i: int| 0 <= i < n - 1 implies {
            let c = (#[trigger] sn.competitions[i]);
            find_country_by_id(sn.countries, c.country_id) matches Some(ct2) && ct2.name
                == rows[i].country
        } by {
            assert(sn.competitions[i] == s.competitions[i]);
            if find_country_by_name(s.countries, row.country) is None {
                lemma_find_country_by_id_push(s.countries, fresh, s.competitions[i].country_id);
            }
        }
    }
}

/// After a full seeding run there are exactly as many competitions as
/// source rows; the store is well formed (so every country reference
/// resolves and country names are unique); each competition carries its
/// row's name, logo and payload; and each competition's country
/// reference resolves to a country named by the row's country column.
pub proof fn lemma_seeded_matches_source(rows: Seq<RowV>)
    ensures
        wf_store(seeded(rows)),
        seeded(rows).competitions.len() == rows.len(),
        forall|i: int|
            0 <= i < rows.len() ==> {
                let c = (#[trigger] seeded(rows).competitions[i]);
                &&& c.name == rows[i].competition
                &&& c.logo == rows[i].logo
                &&& c.payload == rows[i].payload
                &&& find_country_by_id(seeded(rows).countries, c.country_id) matches Some(ct)
                    && ct.name == rows[i].country
            },
{
    lemma_seed_prefix_wf(rows, rows.len() as int);
    lemma_seed_prefix_rows(rows, rows.len() as int);
}

/// What the staleness check decided.
pub enum SeedPlan {
    /// The store already holds at least as many competitions as the
    /// source has rows: it is treated as current and left untouched.
    UpToDate,
    /// The store is stale: it should be reset and reseeded from these
    /// rows, once the caller has read the asset files they name.
    Reseed(Vec<RawRow>),
}

/// Decide whether the store needs reseeding from the source bytes.
///
/// The decision is the row-count heuristic: reseed exactly when the
/// store holds fewer competitions than the source has data rows. The
/// count comes before any column validation, so a source whose header
/// is off does not disturb an up-to-date store; a source that fails to
/// parse at all is reported as a seeding failure rather than counted.
/// Nothing is modified either way; a caller that gets `Reseed` back is
/// expected to read the asset files the rows name and hand the
/// resolved rows to `apply_seed`.
pub fn plan_seed(store: &Store, bytes: &Vec<u8>) -> (r: Result<SeedPlan, SeedError>)
    ensures
        match r {
            Ok(SeedPlan::UpToDate) => csv_table(bytes@) matches Some(t)
                && store@.competitions.len() >= t.1.len(),
            Ok(SeedPlan::Reseed(rows)) => csv_table(bytes@) matches Some(t) && valid_header(t.0)
                && store@.competitions.len() < t.1.len() && raw_row_views(rows@)
                == rows_of_records(t.1),
            Err(SeedError::Unparsable { .. }) => csv_table(bytes@) is None,
            Err(SeedError::BadHeader) => csv_table(bytes@) matches Some(t) && !valid_header(t.0)
                && store@.competitions.len() < t.1.len(),
            Err(SeedError::AssetUnreadable { .. }) => false,
        },
{
    let (header, records) = match crate::source::read_csv_table(bytes) {
        Ok(t) => t,
        Err(cause) => {
            return Err(SeedError::Unparsable { cause });
        },
    };
    if store.competition_count() >= records.len() {
        return Ok(SeedPlan::UpToDate);
    }
    if !crate::source::header_ok(&header) {
        return Err(SeedError::BadHeader);
    }
    Ok(SeedPlan::Reseed(crate::source::build_rows(&records)))
}

proof fn lemma_country_views_push(s: Seq<Country>, c: Country)
    ensures
        country_views(s.push(c)) =~= country_views(s).push(c@),
{
    let a = country_views(s.push(c));
    let b = country_views(s).push(c@);
    assert forall|j: int| 0 <= j < a.len() implies a[j] == b[j] by {
        if j < s.len() {
            assert(s.push(c)[j] == s[j]);
        } else {
            assert(s.push(c)[j] == c);
        }
    }
}

proof fn lemma_competition_views_push(s: Seq<Competition>, c: Competition)
    ensures
        competition_views(s.push(c)) =~= competition_views(s).push(c@),
{
    let a = competition_views(s.push(c));
    let b = competition_views(s).push(c@);
    assert forall|j: int| 0 <= j < a.len() implies a[j] == b[j] by {
        if j < s.len() {
            assert(s.push(c)[j] == s[j]);
        } else {
            assert(s.push(c)[j] == c);
        }
    }
}

/// The identifier of the country carrying `name`, when one does.
fn find_country_id(countries: &Vec<Country>, name: &Vec<u8>) -> (r: Option<i64>)
    ensures
        match r {
            Some(id) => find_country_by_name(country_views(countries@), name@) matches Some(c)
                && c.id == id as int,
            None => find_country_by_name(country_views(countries@), name@) is None,
        },
{
    let ghost vs = country_views(countries@);
    let mut i: usize = 0;
    while i < countries.len()
        invariant
            0 <= i <= countries@.len(),
            vs == country_views(countries@),
            forall|k: int| 0 <= k < i ==> (#[trigger] vs[k]).name != name@,
        decreases countries@.len() - i,
    {
        match cmp_bytes(&countries[i].name, name) {
            Cmp::Eq => {
                proof {
                    lemma_find_country_name_at(vs, name@, i as int);
                }
                return Some(countries[i].id);
            },
            _ => {
                i = i + 1;
            },
        }
    }
    proof {
        lemma_find_country_name_none(vs, name@);
    }
    None
}

proof fn lemma_first_failure_at(rows: Seq<ResolvedRowV>, k: int)
    requires
        0 <= k < rows.len(),
        forall|j: int| 0 <= j < k ==> row_failure(#[trigger] rows[j]) is None,
        row_failure(rows[k]) is Some,
    ensures
        first_failure(rows) == row_failure(rows[k]),
    decreases k,
{
    if k > 0 {
        assert(forall|j: int|
            0 <= j < k - 1 ==> rows.drop_first()[j] == rows[j + 1]);
        assert(rows.drop_first()[k - 1] == rows[k]);
        lemma_first_failure_at(rows.drop_first(), k - 1);
    }
}

proof fn lemma_first_failure_none(rows: Seq<ResolvedRowV>)
    requires
        forall|j: int| 0 <= j < rows.len() ==> row_failure(#[trigger] rows[j]) is None,
    ensures
        first_failure(rows) is None,
    decreases rows.len(),
{
    if rows.len() > 0 {
        lemma_first_failure_none(rows.drop_first());
    }
}

/// Index of the first row with an unreadable asset, if any.
fn scan_failure(rows: &Vec<ResolvedRow>) -> (r: Option<usize>)
    ensures
        match r {
            Some(k) => {
                &&& k < rows@.len()
                &&& row_failure(resolved_views(rows@)[k as int]) is Some
                &&& forall|j: int|
                    0 <= j < k ==> row_failure(#[trigger] resolved_views(rows@)[j]) is None
            },
            None => forall|j: int|
                0 <= j < rows@.len() ==> row_failure(#[trigger] resolved_views(rows@)[j]) is None,
        },
{
    let ghost vs = resolved_views(rows@);
    let mut i: usize = 0;
    while i < rows.len()
        invariant
            0 <= i <= rows@.len(),
            vs == resolved_views(rows@),
            forall|j: int| 0 <= j < i ==> row_failure(#[trigger] vs[j]) is None,
        decreases rows@.len() - i,
    {
        let rr = &rows[i];
        if rr.flag.is_err() || rr.logo.is_err() || rr.payload.is_err() {
            proof {
                assert(vs[i as int] == rows@[i as int]@);
            }
            return Some(i);
        }
        proof {
            assert(vs[i as int] == rows@[i as int]@);
        }
        i = i + 1;
    }
    None
}

/// Reset the store and rebuild it from the resolved rows, atomically:
/// on success the store is exactly the seeded store (identifiers
/// restarted from the initial value, one competition per row, one
/// country per distinct country name, in row order); when any asset of
/// any row was unreadable, the first such failure is reported and the
/// store is left untouched.
pub fn apply_seed(store: &mut Store, rows: &Vec<ResolvedRow>) -> (r: Result<(), SeedError>)
    requires
        old(store).wf(),
        rows@.len() < 0x7fff_ffff_ffff_ffff,
    ensures
        final(store).wf(),
        match r {
            Ok(_) => {
                &&& first_failure(resolved_views(rows@)) is None
                &&& final(store)@ == seeded(row_values(resolved_views(rows@)))
            },
            Err(SeedError::AssetUnreadable { path, cause }) => {
                &&& first_failure(resolved_views(rows@)) == Some((path@, cause@))
                &&& final(store)@ == old(store)@
            },
            _ => false,
        },
{
    let ghost vs = resolved_views(rows@);
    match scan_failure(rows) {
        Some(k) => {
            proof {
                lemma_first_failure_at(vs, k as int);
            }
            let rr = &rows[k];
            proof {
                assert(vs[k as int] == rows@[k as int]@);
            }
            match &rr.flag {
                Err(cause) => {
                    return Err(
                        SeedError::AssetUnreadable {
                            path: clone_bytes(&rr.row.flag_path),
                            cause: cause.clone(),
                        },
                    );
                },
                Ok(_) => {
                },
            }
            match &rr.logo {
                Err(cause) => {
                    return Err(
                        SeedError::AssetUnreadable {
                            path: clone_bytes(&rr.row.logo_path),
                            cause: cause.clone(),
                        },
                    );
                },
                Ok(_) => {
                },
            }
            match &rr.payload {
                Err(cause) => {
                    return Err(
                        SeedError::AssetUnreadable {
                            path: clone_bytes(&rr.row.payload_path),
                            cause: cause.clone(),
                        },
                    );
                },
                Ok(_) => {
                    proof {
                        assert(false);
                    }
                    return Err(SeedError::BadHeader);
                },
            }
        },
        None => {
            proof {
                lemma_first_failure_none(vs);
            }
            let ghost vals = row_values(vs);
            let mut st = Store::new();
            let mut i: usize = 0;
            proof {
                assert(st@ == seed_prefix(vals, 0));
            }
            while i < rows.len()
                invariant
                    0 <= i <= rows@.len(),
                    rows@.len() < 0x7fff_ffff_ffff_ffff,
                    vs == resolved_views(rows@),
                    vals == row_values(vs),
                    forall|j: int| 0 <= j < rows@.len() ==> row_failure(#[trigger] vs[j]) is None,
                    st@ == seed_prefix(vals, i as int),
                decreases rows@.len() - i,
            {
                proof {
                    lemma_seed_prefix_wf(vals, i as int);
                    assert(vs[i as int] == rows@[i as int]@);
                    assert(vals[i as int] == row_value(vs[i as int]));
                }
                let ghost s_before = st@;
                let rr = &rows[i];
                let flag_src = match &rr.flag {
                    Ok(b) => b,
                    Err(_) => {
                        proof {
                            assert(false);
                        }
                        &rr.row.country
                    },
                };
                let logo_src = match &rr.logo {
                    Ok(b) => b,
                    Err(_) => {
                        proof {
                            assert(false);
                        }
                        &rr.row.country
                    },
                };
                let payload_src = match &rr.payload {
                    Ok(b) => b,
                    Err(_) => {
                        proof {
                            assert(false);
                        }
                        &rr.row.country
                    },
                };
                let cid: i64 = match find_country_id(&st.countries, &rr.row.country) {
                    Some(id) => id,
                    None => {
                        let id: i64 = st.next_country_id;
                        let fresh = Country {
                            id,
                            name: clone_bytes(&rr.row.country),
                            flag: clone_bytes(flag_src),
                        };
                        proof {
                            lemma_country_views_push(st.countries@, fresh);
                        }
                        st.countries.push(fresh);
                        st.next_country_id = id + 1;
                        proof {
                            lemma_find_country_by_name_push(
                                s_before.countries,
                                CountryV {
                                    id: s_before.next_country_id,
                                    name: vals[i as int].country,
                                    flag: vals[i as int].flag,
                                },
                                vals[i as int].country,
                            );
                        }
                        id
                    },
                };
                let comp_id: i64 = st.next_competition_id;
                let comp = Competition {
                    id: comp_id,
                    name: clone_bytes(&rr.row.competition),
                    logo: clone_bytes(logo_src),
                    country_id: cid,
                    payload: clone_bytes(payload_src),
                };
                proof {
                    lemma_competition_views_push(st.competitions@, comp);
                }
                st.competitions.push(comp);
                st.next_competition_id = comp_id + 1;
                proof {
                    let step = seed_step(s_before, vals[i as int]);
                    assert(st@.countries =~= step.countries);
                    assert(st@.competitions =~= step.competitions);
                    assert(st@ == step);
                }
                i = i + 1;
            }
            proof {
                assert(vals.len() == rows@.len());
                assert(st@ == seeded(vals));
                lemma_seed_prefix_wf(vals, vals.len() as int);
            }
            *store = st;
            Ok(())
        },
    }
}

} // verus!
