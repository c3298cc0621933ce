//! The store: countries and competitions, with their well-formedness
//! invariant, the read-only listing queries, and the payload lookup behind
//! the install operation.
//!
//! A `Store` is the in-memory value of the embedded relational store: two
//! tables, `country` and `competition`, plus the next identifier each
//! table would assign. Persistence (and every other filesystem concern)
//! lives with the caller; all rules about the data itself are here.

use vstd::prelude::*;

use crate::bytes::clone_bytes;
use crate::bytes::cmp_bytes;
use crate::bytes::lemma_lex_trans;
use crate::bytes::lex_lt;
use crate::bytes::Cmp;

verus! {

/// Mathematical value of a country row.
pub ghost struct CountryV {
    pub id: int,
    pub name: Seq<u8>,
    pub flag: Seq<u8>,
}

/// Mathematical value of a competition row.
pub ghost struct CompetitionV {
    pub id: int,
    pub name: Seq<u8>,
    pub logo: Seq<u8>,
    pub country_id: int,
    pub payload: Seq<u8>,
}

/// Mathematical value of the whole store.
pub ghost struct StoreV {
    pub countries: Seq<CountryV>,
    pub competitions: Seq<CompetitionV>,
    pub next_country_id: int,
    pub next_competition_id: int,
}

/// A country row: store-assigned identifier, unique name, flag image.
pub struct Country {
    pub id: i64,
    pub name: Vec<u8>,
    pub flag: Vec<u8>,
}

impl View for Country {
    type V = CountryV;

    open spec fn view(&self) -> CountryV {
        CountryV { id: self.id as int, name: self.name@, flag: self.flag@ }
    }
}

/// A competition row: identifier, name, logo image, owning country
/// reference, and the installable payload.
pub struct Competition {
    pub id: i64,
    pub name: Vec<u8>,
    pub logo: Vec<u8>,
    pub country_id: i64,
    pub payload: Vec<u8>,
}

impl View for Competition {
    type V = CompetitionV;

    open spec fn view(&self) -> CompetitionV {
        CompetitionV {
            id: self.id as int,
            name: self.name@,
            logo: self.logo@,
            country_id: self.country_id as int,
            payload: self.payload@,
        }
    }
}

/// A competition as returned by the listing query: the installable payload
/// is deliberately left out, since it may be large and a listing does not
/// need it.
pub struct CompetitionListing {
    pub id: i64,
    pub name: Vec<u8>,
    pub logo: Vec<u8>,
}

/// Mathematical value of a listing entry.
pub ghost struct CompetitionListingV {
    pub id: int,
    pub name: Seq<u8>,
    pub logo: Seq<u8>,
}

impl View for CompetitionListing {
    type V = CompetitionListingV;

    open spec fn view(&self) -> CompetitionListingV {
        CompetitionListingV { id: self.id as int, name: self.name@, logo: self.logo@ }
    }
}

/// The listing entry a competition row yields.
pub open spec fn listing_of(c: CompetitionV) -> CompetitionListingV {
    CompetitionListingV { id: c.id, name: c.name, logo: c.logo }
}

pub open spec fn country_views(s: Seq<Country>) -> Seq<CountryV> {
    s.map_values(|c: Country| c@)
}

pub open spec fn competition_views(s: Seq<Competition>) -> Seq<CompetitionV> {
    s.map_values(|c: Competition| c@)
}

pub open spec fn listing_views(s: Seq<CompetitionListing>) -> Seq<CompetitionListingV> {
    s.map_values(|c: CompetitionListing| c@)
}

/// First country with the given name, if any.
pub open spec fn find_country_by_name(cs: Seq<CountryV>, name: Seq<u8>) -> Option<CountryV>
    decreases cs.len(),
{
    if cs.len() == 0 {
        None
    } else if cs[0].name == name {
        Some(cs[0])
    } else {
        find_country_by_name(cs.drop_first(), name)
    }
}

/// First country with the given identifier, if any.
pub open spec fn find_country_by_id(cs: Seq<CountryV>, id: int) -> Option<CountryV>
    decreases cs.len(),
{
    if cs.len() == 0 {
        None
    } else if cs[0].id == id {
        Some(cs[0])
    } else {
        find_country_by_id(cs.drop_first(), id)
    }
}

/// First competition with the given identifier, if any.
pub open spec fn find_competition_by_id(cs: Seq<CompetitionV>, id: int) -> Option<CompetitionV>
    decreases cs.len(),
{
    if cs.len() == 0 {
        None
    } else if cs[0].id == id {
        Some(cs[0])
    } else {
        find_competition_by_id(cs.drop_first(), id)
    }
}

/// The uniqueness invariant: country names are pairwise distinct.
pub open spec fn country_names_unique(cs: Seq<CountryV>) -> bool {
    forall|i: int, j: int|
        0 <= i < j < cs.len() ==> (#[trigger] cs[i]).name != (#[trigger] cs[j]).name
}

/// Well-formedness of a store value:
/// - country identifiers are strictly increasing in row order, start no
///   lower than the initial identifier, and stay below the next one to
///   assign;
/// - country names are pairwise distinct;
/// - the same identifier discipline holds for competitions;
/// - every competition's country reference resolves to a country row.
pub open spec fn wf_store(s: StoreV) -> bool {
    &&& forall|i: int, j: int|
        0 <= i < j < s.countries.len() ==> #[trigger] s.countries[i].id < #[trigger] s.countries[j].id
    &&& forall|i: int| 0 <= i < s.countries.len() ==> 1 <= (#[trigger] s.countries[i]).id < s.next_country_id
    &&& country_names_unique(s.countries)
    &&& forall|i: int, j: int|
        0 <= i < j < s.competitions.len() ==> #[trigger] s.competitions[i].id
            < #[trigger] s.competitions[j].id
    &&& forall|i: int|
        0 <= i < s.competitions.len() ==> 1 <= (#[trigger] s.competitions[i]).id
            < s.next_competition_id
    &&& forall|i: int|
        0 <= i < s.competitions.len() ==> find_country_by_id(
            s.countries,
            (#[trigger] s.competitions[i]).country_id,
        ) is Some
}

/// The store value before anything was ever seeded: both tables empty,
/// both identifier sequences at their initial value.
pub open spec fn empty_store() -> StoreV {
    StoreV {
        countries: Seq::empty(),
        competitions: Seq::empty(),
        next_country_id: 1,
        next_competition_id: 1,
    }
}

/// The in-memory store.
pub struct Store {
    pub countries: Vec<Country>,
    pub competitions: Vec<Competition>,
    pub next_country_id: i64,
    pub next_competition_id: i64,
}

impl View for Store {
    type V = StoreV;

    open spec fn view(&self) -> StoreV {
        StoreV {
            countries: country_views(self.countries@),
            competitions: competition_views(self.competitions@),
            next_country_id: self.next_country_id as int,
            next_competition_id: self.next_competition_id as int,
        }
    }
}

/// The next identifier the country table would assign, given its rows
/// in ascending-identifier order.
pub open spec fn next_country_id_of(cs: Seq<CountryV>) -> int {
    if cs.len() == 0 {
        1
    } else {
        cs.last().id + 1
    }
}

/// The next identifier the competition table would assign, given its
/// rows in ascending-identifier order.
pub open spec fn next_competition_id_of(cs: Seq<CompetitionV>) -> int {
    if cs.len() == 0 {
        1
    } else {
        cs.last().id + 1
    }
}

/// Whether a snapshot of the two tables, as read back from the backing
/// file in ascending-identifier order, is a well-formed store. The
/// bound on the last identifiers keeps the next identifier to assign
/// representable.
pub open spec fn loadable(cs: Seq<CountryV>, ps: Seq<CompetitionV>) -> bool {
    &&& wf_store(
        StoreV {
            countries: cs,
            competitions: ps,
            next_country_id: next_country_id_of(cs),
            next_competition_id: next_competition_id_of(ps),
        },
    )
    &&& cs.len() > 0 ==> cs.last().id < 0x7fff_ffff_ffff_ffff
    &&& ps.len() > 0 ==> ps.last().id < 0x7fff_ffff_ffff_ffff
}

/// Why an install request yields no payload.
#[derive(Debug)]
pub enum InstallError {
    /// No competition has the requested identifier. Distinct from an
    /// empty payload.
    NotFound,
    /// The competition exists but its stored payload is zero-length,
    /// which signals a seeding defect rather than anything worth writing.
    EmptyPayload,
}

impl Store {
    pub open spec fn wf(&self) -> bool {
        wf_store(self@)
    }

    /// A store with nothing in it yet.
    pub fn new() -> (s: Store)
        ensures
            s.wf(),
            s@ == empty_store(),
    {
        let s = Store {
            countries: Vec::new(),
            competitions: Vec::new(),
            next_country_id: 1,
            next_competition_id: 1,
        };
        proof {
            assert(s@.countries =~= empty_store().countries);
            assert(s@.competitions =~= empty_store().competitions);
            assert(s@ =~= empty_store());
        }
        s
    }

    /// Number of competition rows, the quantity the staleness heuristic
    /// compares against the source's row count.
    pub fn competition_count(&self) -> (n: usize)
        ensures
            n == self@.competitions.len(),
    {
        self.competitions.len()
    }

    /// Validate a snapshot read back from the backing file — both
    /// tables' rows, each in ascending-identifier order — and take it
    /// as the store; nothing when the snapshot violates the store's
    /// invariant (identifiers out of order or out of range, a duplicate
    /// country name, or a competition whose country reference does not
    /// resolve).
    pub fn load(countries: Vec<Country>, competitions: Vec<Competition>) -> (r: Option<Store>)
        ensures
            match r {
                Some(st) => {
                    &&& loadable(country_views(countries@), competition_views(competitions@))
                    &&& st.wf()
                    &&& st@.countries == country_views(countries@)
                    &&& st@.competitions == competition_views(competitions@)
                    &&& st@.next_country_id == next_country_id_of(country_views(countries@))
                    &&& st@.next_competition_id == next_competition_id_of(
                        competition_views(competitions@),
                    )
                },
                None => !loadable(country_views(countries@), competition_views(competitions@)),
            },
    {
        let ghost cvs = country_views(countries@);
        let ghost pvs = competition_views(competitions@);
        let ghost cand = StoreV {
            countries: cvs,
            competitions: pvs,
            next_country_id: next_country_id_of(cvs),
            next_competition_id: next_competition_id_of(pvs),
        };
        let mut i: usize = 0;
        while i < countries.len()
            invariant
                0 <= i <= countries@.len(),
                cvs == country_views(countries@),
                pvs == competition_views(competitions@),
                cand == (StoreV {
                    countries: cvs,
                    competitions: pvs,
                    next_country_id: next_country_id_of(cvs),
                    next_competition_id: next_competition_id_of(pvs),
                }),
                forall|k: int| 0 <= k < i ==> 1 <= (#[trigger] cvs[k]).id < 0x7fff_ffff_ffff_ffff,
                forall|k1: int, k2: int|
                    0 <= k1 < k2 < i ==> #[trigger] cvs[k1].id < #[trigger] cvs[k2].id,
                forall|k1: int, k2: int|
                    0 <= k1 < k2 < i ==> (#[trigger] cvs[k1]).name != (#[trigger] cvs[k2]).name,
            decreases countries@.len() - i,
        {
            let c = &countries[i];
            if c.id < 1 {
                proof {
                    if wf_store(cand) {
                        assert(1 <= (cand.countries[i as int]).id);
                    }
                    assert(!wf_store(cand));
                }
                return None;
            }
            if c.id >= 0x7fff_ffff_ffff_ffff {
                proof {
                    if wf_store(cand) {
                        assert(cvs[i as int].id <= cvs[cvs.len() - 1].id);
                        assert(!loadable(cvs, pvs));
                    }
                }
                return None;
            }
            if i > 0 && countries[i - 1].id >= c.id {
                proof {
                    if wf_store(cand) {
                        assert(cand.countries[i - 1].id < cand.countries[i as int].id);
                    }
                    assert(!wf_store(cand));
                }
                return None;
            }
            let mut j: usize = 0;
            while j < i
                invariant
                    0 <= j <= i < countries@.len(),
                    cvs == country_views(countries@),
                    pvs == competition_views(competitions@),
                    cand == (StoreV {
                        countries: cvs,
                        competitions: pvs,
                        next_country_id: next_country_id_of(cvs),
                        next_competition_id: next_competition_id_of(pvs),
                    }),
                    forall|k: int| 0 <= k < j ==> (#[trigger] cvs[k]).name != cvs[i as int].name,
                decreases i - j,
            {
                match cmp_bytes(&countries[j].name, &countries[i].name) {
                    Cmp::Eq => {
                        proof {
                            if wf_store(cand) {
                                assert((cand.countries[j as int]).name != (
                                cand.countries[i as int]).name);
                            }
                            assert(!wf_store(cand));
                        }
                        return None;
                    },
                    _ => {
                        j = j + 1;
                    },
                }
            }
            proof {
                assert forall|k1: int, k2: int|
                    0 <= k1 < k2 < i + 1 implies #[trigger] cvs[k1].id < #[trigger] cvs[k2].id by {
                    if k2 == i as int && k1 < i - 1 {
                        assert(cvs[k1].id < cvs[i - 1].id);
                    }
                }
            }
            i = i + 1;
        }
        let mut p: usize = 0;
        while p < competitions.len()
            invariant
                0 <= p <= competitions@.len(),
                cvs == country_views(countries@),
                pvs == competition_views(competitions@),
                cand == (StoreV {
                    countries: cvs,
                    competitions: pvs,
                    next_country_id: next_country_id_of(cvs),
                    next_competition_id: next_competition_id_of(pvs),
                }),
                forall|k: int| 0 <= k < p ==> 1 <= (#[trigger] pvs[k]).id < 0x7fff_ffff_ffff_ffff,
                forall|k1: int, k2: int|
                    0 <= k1 < k2 < p ==> #[trigger] pvs[k1].id < #[trigger] pvs[k2].id,
                forall|k: int|
                    0 <= k < p ==> find_country_by_id(cvs, (#[trigger] pvs[k]).country_id) is Some,
            decreases competitions@.len() - p,
        {
            let c = &competitions[p];
            if c.id < 1 {
                proof {
                    if wf_store(cand) {
                        assert(1 <= (cand.competitions[p as int]).id);
                    }
                    assert(!wf_store(cand));
                }
                return None;
            }
            if c.id >= 0x7fff_ffff_ffff_ffff {
                proof {
                    if wf_store(cand) {
                        assert(pvs[p as int].id <= pvs[pvs.len() - 1].id);
                        assert(!loadable(cvs, pvs));
                    }
                }
                return None;
            }
            if p > 0 && competitions[p - 1].id >= c.id {
                proof {
                    if wf_store(cand) {
                        assert(cand.competitions[p - 1].id < cand.competitions[p as int].id);
                    }
                    assert(!wf_store(cand));
                }
                return None;
            }
            if !country_id_present(&countries, c.country_id) {
                proof {
                    if wf_store(cand) {
                        assert(find_country_by_id(
                            cand.countries,
                            (cand.competitions[p as int]).country_id,
                        ) is Some);
                    }
                    assert(!wf_store(cand));
                }
                return None;
            }
            proof {
                assert forall|k1: int, k2: int|
                    0 <= k1 < k2 < p + 1 implies #[trigger] pvs[k1].id < #[trigger] pvs[k2].id by {
                    if k2 == p as int && k1 < p - 1 {
                        assert(pvs[k1].id < pvs[p - 1].id);
                    }
                }
            }
            p = p + 1;
        }
        let next_country_id: i64 = if countries.len() == 0 {
            1
        } else {
            countries[countries.len() - 1].id + 1
        };
        let next_competition_id: i64 = if competitions.len() == 0 {
            1
        } else {
            competitions[competitions.len() - 1].id + 1
        };
        let st = Store { countries, competitions, next_country_id, next_competition_id };
        proof {
            assert(cvs.len() > 0 ==> cvs.last() == cvs[cvs.len() - 1]);
            assert(pvs.len() > 0 ==> pvs.last() == pvs[pvs.len() - 1]);
            assert(st@ == cand);
            assert forall|k: int| 0 <= k < cvs.len() implies 1 <= (#[trigger] cvs[k]).id
                < cand.next_country_id by {
                if k < cvs.len() - 1 {
                    assert(cvs[k].id < cvs[cvs.len() - 1].id);
                }
            }
            assert forall|k: int| 0 <= k < pvs.len() implies 1 <= (#[trigger] pvs[k]).id
                < cand.next_competition_id by {
                if k < pvs.len() - 1 {
                    assert(pvs[k].id < pvs[pvs.len() - 1].id);
                }
            }
            assert(wf_store(cand));
        }
        Some(st)
    }

    /// All countries, ordered by name ascending. For any store state
    /// satisfying the uniqueness invariant the order is strictly
    /// ascending, with no duplicate names; every well-formed store
    /// satisfies it.
    pub fn get_countries(&self) -> (r: Vec<Country>)
        requires
            country_names_unique(self@.countries),
        ensures
            r@.len() == self@.countries.len(),
            country_views(r@).to_multiset() == self@.countries.to_multiset(),
            countries_sorted(country_views(r@)),
    {
        broadcast use vstd::seq_lib::group_to_multiset_ensures;

        let ghost all = self@.countries;
        let mut out: Vec<Country> = Vec::new();
        let mut i: usize = 0;
        proof {
            assert(all.subrange(0, 0) =~= Seq::<CountryV>::empty());
            assert(country_views(out@) =~= Seq::<CountryV>::empty());
        }
        while i < self.countries.len()
            invariant
                0 <= i <= self.countries@.len(),
                all == country_views(self.countries@),
                all == self@.countries,
                country_names_unique(all),
                countries_sorted(country_views(out@)),
                country_views(out@).to_multiset() == all.subrange(0, i as int).to_multiset(),
            decreases self.countries@.len() - i,
        {
            broadcast use vstd::seq_lib::group_to_multiset_ensures;

            let src = &self.countries[i];
            let c = Country { id: src.id, name: clone_bytes(&src.name), flag: clone_bytes(&src.flag) };
            proof {
                assert(c@ == all[i as int]);
                let prefix = all.subrange(0, i as int);
                assert forall|k: int|
                    0 <= k < out@.len() implies (#[trigger] country_views(out@)[k]).name
                    != c@.name by {
                    let x = country_views(out@)[k];
                    assert(country_views(out@).contains(x));
                    assert(country_views(out@).to_multiset().count(x) > 0);
                    assert(prefix.to_multiset().count(x) > 0);
                    assert(prefix.contains(x));
                    let j: int = choose|j: int| 0 <= j < prefix.len() && prefix[j] == x;
                    assert(all[j] == x && 0 <= j < i);
                }
            }
            insert_country_sorted(&mut out, c);
            proof {
                assert(all.subrange(0, i + 1 as int) =~= all.subrange(0, i as int).push(
                    all[i as int],
                ));
            }
            i = i + 1;
        }
        proof {
            assert(all.subrange(0, i as int) =~= all);
            assert(country_views(out@).to_multiset().len() == country_views(out@).len());
            assert(all.to_multiset().len() == all.len());
        }
        out
    }

    /// The competitions owned by the given country, ordered by name
    /// ascending, without their payloads. Competitions of other
    /// countries are filtered out; names need not be unique, and entries
    /// with equal names may come out in either order.
    pub fn get_competitions_by_country(&self, country_id: i64) -> (r: Vec<CompetitionListing>)
        ensures
            r@.len() == owned_listings(self@.competitions, country_id as int).len(),
            listing_views(r@).to_multiset() == owned_listings(
                self@.competitions,
                country_id as int,
            ).to_multiset(),
            listings_sorted(listing_views(r@)),
    {
        broadcast use vstd::seq_lib::group_to_multiset_ensures;

        let ghost all = self@.competitions;
        let mut out: Vec<CompetitionListing> = Vec::new();
        let mut i: usize = 0;
        proof {
            assert(all.subrange(0, 0) =~= Seq::<CompetitionV>::empty());
            assert(listing_views(out@) =~= Seq::<CompetitionListingV>::empty());
        }
        while i < self.competitions.len()
            invariant
                0 <= i <= self.competitions@.len(),
                all == competition_views(self.competitions@),
                listings_sorted(listing_views(out@)),
                listing_views(out@).to_multiset() == owned_listings(
                    all.subrange(0, i as int),
                    country_id as int,
                ).to_multiset(),
            decreases self.competitions@.len() - i,
        {
            broadcast use vstd::seq_lib::group_to_multiset_ensures;

            proof {
                assert(all.subrange(0, i + 1 as int) =~= all.subrange(0, i as int).push(
                    all[i as int],
                ));
                lemma_owned_listings_push(
                    all.subrange(0, i as int),
                    all[i as int],
                    country_id as int,
                );
            }
            let src = &self.competitions[i];
            if src.country_id == country_id {
                let c = CompetitionListing {
                    id: src.id,
                    name: clone_bytes(&src.name),
                    logo: clone_bytes(&src.logo),
                };
                proof {
                    assert(c@ == listing_of(all[i as int]));
                }
                insert_listing_sorted(&mut out, c);
            }
            i = i + 1;
        }
        proof {
            assert(all.subrange(0, i as int) =~= all);
            let goal = owned_listings(all, country_id as int);
            assert(listing_views(out@).to_multiset().len() == listing_views(out@).len());
            assert(goal.to_multiset().len() == goal.len());
        }
        out
    }

    /// The installable payload of the competition with the given
    /// identifier.
    ///
    /// The caller is expected to write the returned bytes to the fixed
    /// install target, overwriting whatever was there; nothing should be
    /// written when this returns an error.
    pub fn install_payload(&self, competition_id: i64) -> (r: Result<Vec<u8>, InstallError>)
        ensures
            match r {
                Ok(p) => {
                    &&& find_competition_by_id(self@.competitions, competition_id as int)
                        matches Some(c) && c.payload == p@
                    &&& p@.len() > 0
                },
                Err(InstallError::NotFound) => find_competition_by_id(
                    self@.competitions,
                    competition_id as int,
                ) is None,
                Err(InstallError::EmptyPayload) => find_competition_by_id(
                    self@.competitions,
                    competition_id as int,
                ) matches Some(c) && c.payload.len() == 0,
            },
    {
        let ghost cs = self@.competitions;
        let mut i: usize = 0;
        while i < self.competitions.len()
            invariant
                0 <= i <= self.competitions@.len(),
                cs == competition_views(self.competitions@),
                forall|j: int| 0 <= j < i ==> (#[trigger] cs[j]).id != competition_id as int,
            decreases self.competitions@.len() - i,
        {
            if self.competitions[i].id == competition_id {
                proof {
                    lemma_find_competition_at(cs, competition_id as int, i as int);
                }
                let p = crate::bytes::clone_bytes(&self.competitions[i].payload);
                if p.len() == 0 {
                    return Err(InstallError::EmptyPayload);
                }
                return Ok(p);
            }
            i = i + 1;
        }
        proof {
            lemma_find_competition_none(cs, competition_id as int);
        }
        Err(InstallError::NotFound)
    }
}

/// Country rows in strictly ascending name order.
pub open spec fn countries_sorted(s: Seq<CountryV>) -> bool {
    forall|i: int, j: int|
        0 <= i < j < s.len() ==> lex_lt((#[trigger] s[i]).name, (#[trigger] s[j]).name)
}

/// Listing entries in ascending name order (ties left in either order).
pub open spec fn listings_sorted(s: Seq<CompetitionListingV>) -> bool {
    forall|i: int, j: int|
        0 <= i < j < s.len() ==> lex_lt((#[trigger] s[i]).name, (#[trigger] s[j]).name) || (
        #[trigger] s[i]).name == (#[trigger] s[j]).name
}

/// The listing entries owned by the given country, in row order: the
/// competitions whose country reference equals `country_id`, each with
/// its payload left out.
pub open spec fn owned_listings(cs: Seq<CompetitionV>, country_id: int) -> Seq<CompetitionListingV>
    decreases cs.len(),
{
    if cs.len() == 0 {
        Seq::empty()
    } else {
        let rest = owned_listings(cs.drop_last(), country_id);
        if cs.last().country_id == country_id {
            rest.push(listing_of(cs.last()))
        } else {
            rest
        }
    }
}

proof fn lemma_owned_listings_push(cs: Seq<CompetitionV>, c: CompetitionV, country_id: int)
    ensures
        c.country_id == country_id ==> owned_listings(cs.push(c), country_id) == owned_listings(
            cs,
            country_id,
        ).push(listing_of(c)),
        c.country_id != country_id ==> owned_listings(cs.push(c), country_id) == owned_listings(
            cs,
            country_id,
        ),
{
    assert(cs.push(c).drop_last() =~= cs);
    assert(cs.push(c).last() == c);
}

/// Position in `out` (sorted, without `name`) where a country named
/// `name` belongs.
fn country_insert_pos(out: &Vec<Country>, name: &Vec<u8>) -> (pos: usize)
    requires
        countries_sorted(country_views(out@)),
        forall|k: int| 0 <= k < out@.len() ==> (#[trigger] country_views(out@)[k]).name != name@,
    ensures
        pos <= out@.len(),
        forall|k: int|
            0 <= k < pos ==> lex_lt((#[trigger] country_views(out@)[k]).name, name@),
        forall|k: int|
            pos <= k < out@.len() ==> lex_lt(name@, (#[trigger] country_views(out@)[k]).name),
{
    let ghost vs = country_views(out@);
    let mut pos: usize = 0;
    loop
        invariant
            0 <= pos <= out@.len(),
            vs == country_views(out@),
            countries_sorted(vs),
            forall|k: int| 0 <= k < out@.len() ==> (#[trigger] vs[k]).name != name@,
            forall|k: int| 0 <= k < pos ==> lex_lt((#[trigger] vs[k]).name, name@),
        decreases out@.len() - pos,
    {
        if pos == out.len() {
            return pos;
        }
        match cmp_bytes(&out[pos].name, name) {
            Cmp::Lt => {
                pos = pos + 1;
            },
            Cmp::Eq => {
                proof {
                    assert(vs[pos as int].name == name@);
                    assert(false);
                }
                return pos;
            },
            Cmp::Gt => {
                proof {
                    assert forall|k: int|
                        pos <= k < out@.len() implies lex_lt(name@, (#[trigger] vs[k]).name) by {
                        if k > pos {
                            lemma_lex_trans(name@, vs[pos as int].name, vs[k].name);
                        }
                    }
                }
                return pos;
            },
        }
    }
}

proof fn lemma_country_views_insert(s: Seq<Country>, i: int, c: Country)
    requires
        0 <= i <= s.len(),
    ensures
        country_views(s.insert(i, c)) =~= country_views(s).insert(i, c@),
{
    let a = country_views(s.insert(i, c));
    let b = country_views(s).insert(i, c@);
    assert forall|j: int| 0 <= j < a.len() implies a[j] == b[j] by {
        if j < i {
            assert(s.insert(i, c)[j] == s[j]);
        } else if j == i {
            assert(s.insert(i, c)[j] == c);
        } else {
            assert(s.insert(i, c)[j] == s[j - 1]);
        }
    }
}

/// Insert a country whose name is absent from a sorted listing, keeping
/// it sorted.
fn insert_country_sorted(out: &mut Vec<Country>, c: Country)
    requires
        countries_sorted(country_views(old(out)@)),
        forall|k: int|
            0 <= k < old(out)@.len() ==> (#[trigger] country_views(old(out)@)[k]).name != c@.name,
    ensures
        countries_sorted(country_views(final(out)@)),
        country_views(final(out)@).to_multiset() == country_views(old(out)@).to_multiset().insert(
            c@,
        ),
{
    broadcast use vstd::seq_lib::to_multiset_insert;

    let ghost vs = country_views(out@);
    let pos: usize = country_insert_pos(out, &c.name);
    out.insert(pos, c);
    proof {
        lemma_country_views_insert(old(out)@, pos as int, c);
        let ws = country_views(out@);
        assert(ws == vs.insert(pos as int, c@));
        assert forall|i: int, j: int|
            0 <= i < j < ws.len() implies lex_lt((#[trigger] ws[i]).name, (#[trigger] ws[j]).name) by {
            if i < pos && j == pos {
                assert(ws[i] == vs[i]);
            } else if i == pos && j > pos {
                assert(ws[j] == vs[j - 1]);
            } else if i < pos && j > pos {
                assert(ws[i] == vs[i] && ws[j] == vs[j - 1]);
                lemma_lex_trans(ws[i].name, c@.name, ws[j].name);
            } else if j < pos {
                assert(ws[i] == vs[i] && ws[j] == vs[j]);
            } else {
                assert(ws[i] == vs[i - 1] && ws[j] == vs[j - 1]);
            }
        }
    }
}

/// Position in `out` (sorted by name) where a listing named `name`
/// belongs; entries with an equal name stay in front of it.
fn listing_insert_pos(out: &Vec<CompetitionListing>, name: &Vec<u8>) -> (pos: usize)
    requires
        listings_sorted(listing_views(out@)),
    ensures
        pos <= out@.len(),
        forall|k: int|
            0 <= k < pos ==> lex_lt((#[trigger] listing_views(out@)[k]).name, name@) || (
            #[trigger] listing_views(out@)[k]).name == name@,
        forall|k: int|
            pos <= k < out@.len() ==> lex_lt(name@, (#[trigger] listing_views(out@)[k]).name),
{
    let ghost vs = listing_views(out@);
    let mut pos: usize = 0;
    loop
        invariant
            0 <= pos <= out@.len(),
            vs == listing_views(out@),
            listings_sorted(vs),
            forall|k: int|
                0 <= k < pos ==> lex_lt((#[trigger] vs[k]).name, name@) || (#[trigger] vs[k]).name
                    == name@,
        decreases out@.len() - pos,
    {
        if pos == out.len() {
            return pos;
        }
        match cmp_bytes(&out[pos].name, name) {
            Cmp::Lt => {
                pos = pos + 1;
            },
            Cmp::Eq => {
                pos = pos + 1;
            },
            Cmp::Gt => {
                proof {
                    assert forall|k: int|
                        pos <= k < out@.len() implies lex_lt(name@, (#[trigger] vs[k]).name) by {
                        if k > pos {
                            if vs[pos as int].name == vs[k].name {
                            } else {
                                lemma_lex_trans(name@, vs[pos as int].name, vs[k].name);
                            }
                        }
                    }
                }
                return pos;
            },
        }
    }
}

proof fn lemma_listing_views_insert(s: Seq<CompetitionListing>, i: int, c: CompetitionListing)
    requires
        0 <= i <= s.len(),
    ensures
        listing_views(s.insert(i, c)) =~= listing_views(s).insert(i, c@),
{
    let a = listing_views(s.insert(i, c));
    let b = listing_views(s).insert(i, c@);
    assert forall|j: int| 0 <= j < a.len() implies a[j] == b[j] by {
        if j < i {
            assert(s.insert(i, c)[j] == s[j]);
        } else if j == i {
            assert(s.insert(i, c)[j] == c);
        } else {
            assert(s.insert(i, c)[j] == s[j - 1]);
        }
    }
}

/// Insert a listing into a name-sorted listing, keeping it sorted.
fn insert_listing_sorted(out: &mut Vec<CompetitionListing>, c: CompetitionListing)
    requires
        listings_sorted(listing_views(old(out)@)),
    ensures
        listings_sorted(listing_views(final(out)@)),
        listing_views(final(out)@).to_multiset() == listing_views(old(out)@).to_multiset().insert(
            c@,
        ),
{
    broadcast use vstd::seq_lib::to_multiset_insert;

    let ghost vs = listing_views(out@);
    let pos: usize = listing_insert_pos(out, &c.name);
    out.insert(pos, c);
    proof {
        lemma_listing_views_insert(old(out)@, pos as int, c);
        let ws = listing_views(out@);
        assert(ws == vs.insert(pos as int, c@));
        assert forall|i: int, j: int|
            0 <= i < j < ws.len() implies lex_lt((#[trigger] ws[i]).name, (#[trigger] ws[j]).name)
            || (#[trigger] ws[i]).name == (#[trigger] ws[j]).name by {
            if i < pos && j == pos {
                assert(ws[i] == vs[i]);
            } else if i == pos && j > pos {
                assert(ws[j] == vs[j - 1]);
            } else if i < pos && j > pos {
                assert(ws[i] == vs[i] && ws[j] == vs[j - 1]);
                if vs[i].name == c@.name {
                } else {
                    lemma_lex_trans(ws[i].name, c@.name, ws[j].name);
                }
            } else if j < pos {
                assert(ws[i] == vs[i] && ws[j] == vs[j]);
            } else {
                assert(ws[i] == vs[i - 1] && ws[j] == vs[j - 1]);
            }
        }
    }
}

/// When nothing before position `j` carries `id` and the country at `j`
/// does, the identifier lookup yields that country.
pub(crate) proof fn lemma_find_country_id_at(cs: Seq<CountryV>, id: int, j: int)
    requires
        0 <= j < cs.len(),
        forall|k: int| 0 <= k < j ==> (#[trigger] cs[k]).id != id,
        cs[j].id == id,
    ensures
        find_country_by_id(cs, id) == Some(cs[j]),
    decreases j,
{
    if j > 0 {
        assert(forall|k: int|
            0 <= k < j - 1 ==> (#[trigger] cs.drop_first()[k]).id != id && cs.drop_first()[k]
                == cs[k + 1]);
        assert(cs.drop_first()[j - 1] == cs[j]);
        lemma_find_country_id_at(cs.drop_first(), id, j - 1);
    }
}

/// When no country carries `id`, the identifier lookup yields nothing.
proof fn lemma_find_country_id_none(cs: Seq<CountryV>, id: int)
    requires
        forall|k: int| 0 <= k < cs.len() ==> (#[trigger] cs[k]).id != id,
    ensures
        find_country_by_id(cs, id) is None,
    decreases cs.len(),
{
    if cs.len() > 0 {
        lemma_find_country_id_none(cs.drop_first(), id);
    }
}

/// Whether some country carries the given identifier.
fn country_id_present(countries: &Vec<Country>, id: i64) -> (b: bool)
    ensures
        b == (find_country_by_id(country_views(countries@), id as int) is Some),
{
    let ghost vs = country_views(countries@);
    let mut i: usize = 0;
    while i < countries.len()
        invariant
            0 <= i <= countries@.len(),
            vs == country_views(countries@),
            forall|k: int| 0 <= k < i ==> (#[trigger] vs[k]).id != id as int,
        decreases countries@.len() - i,
    {
        if countries[i].id == id {
            proof {
                lemma_find_country_id_at(vs, id as int, i as int);
            }
            return true;
        }
        i = i + 1;
    }
    proof {
        lemma_find_country_id_none(vs, id as int);
    }
    false
}

/// If no competition before position `i` carries `id` and the one at `i`
/// does, the first match is the one at `i`.
proof fn lemma_find_competition_at(cs: Seq<CompetitionV>, id: int, i: int)
    requires
        0 <= i < cs.len(),
        forall|j: int| 0 <= j < i ==> (#[trigger] cs[j]).id != id,
        cs[i].id == id,
    ensures
        find_competition_by_id(cs, id) == Some(cs[i]),
    decreases i,
{
    if i > 0 {
        lemma_find_competition_at(cs.drop_first(), id, i - 1);
    }
}

/// If no competition carries `id`, the lookup finds nothing.
proof fn lemma_find_competition_none(cs: Seq<CompetitionV>, id: int)
    requires
        forall|j: int| 0 <= j < cs.len() ==> (#[trigger] cs[j]).id != id,
    ensures
        find_competition_by_id(cs, id) is None,
    decreases cs.len(),
{
    if cs.len() > 0 {
        lemma_find_competition_none(cs.drop_first(), id);
    }
}

} // verus!
