//! The source importer: parsing the external tabular source.
//!
//! The source is a comma-separated table with a header row naming the
//! five columns `country`, `competition`, `country_flag`,
//! `competition_logo`, `file`; each data row names a country, a
//! competition, and the three asset paths whose contents get seeded.
//! Reading the source file (and the asset files) from disk is the
//! caller's business; this module turns the file's bytes into rows.

use vstd::prelude::*;

use crate::bytes::clone_bytes;
use crate::bytes::cmp_bytes;
use crate::bytes::trim_bytes;
use crate::bytes::trimmed;
use crate::bytes::Cmp;

verus! {

/// What the `csv` crate parses the source bytes into: the header row and
/// the data records, every field a byte string; nothing when the bytes
/// are not a well-formed table.
pub uninterp spec fn csv_table(bytes: Seq<u8>) -> Option<(Seq<Seq<u8>>, Seq<Seq<Seq<u8>>>)>;

/// Relies on `csv::ReaderBuilder::from_reader`, `Reader::byte_headers`
/// and `Reader::byte_records`: parses a comma-separated table with a
/// leading header row out of the given bytes, an outcome that depends on
/// the bytes alone. With flexible parsing off (the reader's default),
/// every data record the reader yields has exactly as many fields as the
/// header row.
#[verifier::external_body]
pub(crate) fn read_csv_table(bytes: &Vec<u8>) -> (r: Result<(Vec<Vec<u8>>, Vec<Vec<Vec<u8>>>), String>)
    ensures
        r is Ok <==> csv_table(bytes@) is Some,
        r matches Ok(t) ==> t.0.deep_view() == csv_table(bytes@)->Some_0.0,
        r matches Ok(t) ==> t.1.deep_view() == csv_table(bytes@)->Some_0.1,
        r matches Ok(t) ==> forall|i: int| 0 <= i < t.1@.len() ==> t.1@[i]@.len() == t.0@.len(),
{
    let mut rdr = csv::ReaderBuilder::new().from_reader(bytes.as_slice());
    let header: Vec<Vec<u8>> = match rdr.byte_headers() {
        Ok(h) => h.iter().map(|f| f.to_vec()).collect(),
        Err(e) => return Err(format!("{}", e)),
    };
    let mut records: Vec<Vec<Vec<u8>>> = Vec::new();
    for rec in rdr.byte_records() {
        match rec {
            Ok(r) => records.push(r.iter().map(|f| f.to_vec()).collect()),
            Err(e) => return Err(format!("{}", e)),
        }
    }
    Ok((header, records))
}

/// One row of the source table, asset paths still unresolved. The
/// country and competition names come trimmed of surrounding ASCII
/// whitespace; the paths are kept exactly as written.
pub struct RawRow {
    pub country: Vec<u8>,
    pub competition: Vec<u8>,
    pub flag_path: Vec<u8>,
    pub logo_path: Vec<u8>,
    pub payload_path: Vec<u8>,
}

/// Mathematical value of a source row.
pub ghost struct RawRowV {
    pub country: Seq<u8>,
    pub competition: Seq<u8>,
    pub flag_path: Seq<u8>,
    pub logo_path: Seq<u8>,
    pub payload_path: Seq<u8>,
}

impl View for RawRow {
    type V = RawRowV;

    open spec fn view(&self) -> RawRowV {
        RawRowV {
            country: self.country@,
            competition: self.competition@,
            flag_path: self.flag_path@,
            logo_path: self.logo_path@,
            payload_path: self.payload_path@,
        }
    }
}

pub open spec fn raw_row_views(s: Seq<RawRow>) -> Seq<RawRowV> {
    s.map_values(|r: RawRow| r@)
}

/// Why seeding gave up.
#[derive(Debug)]
pub enum SeedError {
    /// The source bytes are not a well-formed table.
    Unparsable { cause: String },
    /// The header row does not name the expected five columns.
    BadHeader,
    /// An asset file named by the source could not be read, so the whole
    /// import was abandoned.
    AssetUnreadable { path: Vec<u8>, cause: String },
}

/// The column names the source table must carry, in order: `country`,
/// `competition`, `country_flag`, `competition_logo`, `file`, each as
/// its byte string.
pub open spec fn expected_header() -> Seq<Seq<u8>> {
    seq![
        seq![0x63u8, 0x6f, 0x75, 0x6e, 0x74, 0x72, 0x79],
        seq![0x63u8, 0x6f, 0x6d, 0x70, 0x65, 0x74, 0x69, 0x74, 0x69, 0x6f, 0x6e],
        seq![0x63u8, 0x6f, 0x75, 0x6e, 0x74, 0x72, 0x79, 0x5f, 0x66, 0x6c, 0x61, 0x67],
        seq![
            0x63u8,
            0x6f,
            0x6d,
            0x70,
            0x65,
            0x74,
            0x69,
            0x74,
            0x69,
            0x6f,
            0x6e,
            0x5f,
            0x6c,
            0x6f,
            0x67,
            0x6f,
        ],
        seq![0x66u8, 0x69, 0x6c, 0x65],
    ]
}

pub open spec fn valid_header(h: Seq<Seq<u8>>) -> bool {
    h =~~= expected_header()
}

/// The row a well-formed five-field record yields.
pub open spec fn row_of_record(rec: Seq<Seq<u8>>) -> RawRowV {
    RawRowV {
        country: trimmed(rec[0]),
        competition: trimmed(rec[1]),
        flag_path: rec[2],
        logo_path: rec[3],
        payload_path: rec[4],
    }
}

/// The rows a table's records yield, in table order.
pub open spec fn rows_of_records(recs: Seq<Seq<Seq<u8>>>) -> Seq<RawRowV> {
    Seq::new(recs.len(), |i: int| row_of_record(recs[i]))
}

pub(crate) fn header_ok(header: &Vec<Vec<u8>>) -> (b: bool)
    ensures
        b == valid_header(header.deep_view()),
{
    if header.len() != 5 {
        proof {
            assert(!valid_header(header.deep_view()));
        }
        return false;
    }
    let names: Vec<Vec<u8>> = vec![
        vec![0x63u8, 0x6f, 0x75, 0x6e, 0x74, 0x72, 0x79],
        vec![0x63u8, 0x6f, 0x6d, 0x70, 0x65, 0x74, 0x69, 0x74, 0x69, 0x6f, 0x6e],
        vec![0x63u8, 0x6f, 0x75, 0x6e, 0x74, 0x72, 0x79, 0x5f, 0x66, 0x6c, 0x61, 0x67],
        vec![
            0x63u8,
            0x6f,
            0x6d,
            0x70,
            0x65,
            0x74,
            0x69,
            0x74,
            0x69,
            0x6f,
            0x6e,
            0x5f,
            0x6c,
            0x6f,
            0x67,
            0x6f,
        ],
        vec![0x66u8, 0x69, 0x6c, 0x65],
    ];
    proof {
        assert(names.deep_view() =~~= expected_header());
    }
    let mut i: usize = 0;
    while i < 5
        invariant
            0 <= i <= 5,
            header@.len() == 5,
            names@.len() == 5,
            names.deep_view() =~~= expected_header(),
            forall|k: int| 0 <= k < i ==> header.deep_view()[k] == expected_header()[k],
        decreases 5 - i,
    {
        match cmp_bytes(&header[i], &names[i]) {
            Cmp::Eq => {
                proof {
                    assert(header.deep_view()[i as int] == header@[i as int]@);
                    assert(names.deep_view()[i as int] == names@[i as int]@);
                }
                i = i + 1;
            },
            _ => {
                proof {
                    assert(header.deep_view()[i as int] == header@[i as int]@);
                    assert(names.deep_view()[i as int] == names@[i as int]@);
                    assert(header.deep_view()[i as int] != expected_header()[i as int]);
                    assert(!valid_header(header.deep_view()));
                }
                return false;
            },
        }
    }
    proof {
        assert(valid_header(header.deep_view()));
    }
    true
}

/// Parse the source file's bytes into rows.
///
/// Succeeds exactly when the bytes are a well-formed table whose header
/// names the five expected columns; the rows come back in table order,
/// names trimmed, paths untouched. No asset is read here.
pub fn parse_source(bytes: &Vec<u8>) -> (r: Result<Vec<RawRow>, SeedError>)
    ensures
        match r {
            Ok(rows) => {
                &&& csv_table(bytes@) matches Some(t)
                &&& valid_header(t.0)
                &&& raw_row_views(rows@) == rows_of_records(t.1)
            },
            Err(SeedError::Unparsable { .. }) => csv_table(bytes@) is None,
            Err(SeedError::BadHeader) => csv_table(bytes@) matches Some(t) && !valid_header(t.0),
            Err(SeedError::AssetUnreadable { .. }) => false,
        },
{
    let (header, records) = match read_csv_table(bytes) {
        Ok(t) => t,
        Err(cause) => {
            return Err(SeedError::Unparsable { cause });
        },
    };
    if !header_ok(&header) {
        return Err(SeedError::BadHeader);
    }
    Ok(build_rows(&records))
}

/// Turn the validated records of the table into rows: names trimmed,
/// paths untouched.
pub(crate) fn build_rows(records: &Vec<Vec<Vec<u8>>>) -> (rows: Vec<RawRow>)
    requires
        forall|k: int| 0 <= k < records@.len() ==> (#[trigger] records@[k])@.len() == 5,
    ensures
        raw_row_views(rows@) == rows_of_records(records.deep_view()),
{
    let ghost recs = records.deep_view();
    let mut rows: Vec<RawRow> = Vec::new();
    let mut i: usize = 0;
    while i < records.len()
        invariant
            0 <= i <= records@.len(),
            recs == records.deep_view(),
            forall|k: int| 0 <= k < records@.len() ==> (#[trigger] records@[k])@.len() == 5,
            rows@.len() == i,
            forall|k: int| 0 <= k < i ==> (#[trigger] rows@[k])@ == row_of_record(recs[k]),
        decreases records@.len() - i,
    {
        let rec = &records[i];
        let row = RawRow {
            country: trim_bytes(&rec[0]),
            competition: trim_bytes(&rec[1]),
            flag_path: clone_bytes(&rec[2]),
            logo_path: clone_bytes(&rec[3]),
            payload_path: clone_bytes(&rec[4]),
        };
        proof {
            let rv = records@[i as int];
            assert(recs[i as int] == rv.deep_view());
            assert forall|f: int| 0 <= f < 5 implies rv.deep_view()[f] == rv@[f]@ by {}
            assert(row@ == row_of_record(recs[i as int]));
        }
        rows.push(row);
        i = i + 1;
    }
    proof {
        assert(raw_row_views(rows@) =~= rows_of_records(recs));
    }
    rows
}

} // verus!
