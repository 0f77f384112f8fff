//! The rows of the state store, and their conversion from and to the
//! entities of the model.
//!
//! The store keeps paths as `file` URIs and the transition counts of a chain
//! as a MessagePack blob. Both encodings are the work of outside crates; the
//! functions here call them and say what they rely on.

use crate::common::Failure;
use crate::markov::weights_balanced;
use crate::state::{BadExe, Exe, Region};
use vstd::prelude::*;

verus! {

/// The singleton row of the table `states`.
#[derive(Debug)]
pub struct StateRow {
    /// Version of the software that wrote the state.
    pub version: String,
    /// Logical time.
    pub time: i32,
}

/// A row of the table `maps`.
#[derive(Debug)]
pub struct MapRow {
    pub seq: i32,
    pub update_time: i32,
    pub offset: i32,
    pub length: i64,
    pub uri: String,
}

/// A row of the table `badexes`.
#[derive(Debug)]
pub struct BadExeRow {
    pub update_time: i32,
    pub uri: String,
}

/// A row of the table `exes`.
#[derive(Debug)]
pub struct ExeRow {
    pub seq: i32,
    pub update_time: i32,
    pub time: i32,
    pub uri: String,
}

/// A row of the table `exemaps`. The probability is the bit pattern of a
/// double.
#[derive(Clone, Copy, Debug, PartialEq, Eq)]
pub struct ExeMapRow {
    pub seq: i32,
    pub map_seq: i32,
    pub prob: u64,
}

/// A row of the table `markovstates`. The mean dwell times are bit patterns
/// of doubles, which the caller turns into a blob; the transition counts are
/// a blob already.
#[derive(Debug)]
pub struct MarkovRow {
    pub a_seq: i32,
    pub b_seq: i32,
    pub time: i32,
    pub time_to_leave: [u64; 4],
    pub weight: Vec<u8>,
}

/// What the store holds of a chain, with the transition counts as a
/// matrix, or without them where the blob of the row holds no matrix.
#[derive(Clone, Copy, Debug, PartialEq, Eq)]
pub struct MarkovRecord {
    pub a_seq: i32,
    pub b_seq: i32,
    pub time: i32,
    pub time_to_leave: [u64; 4],
    pub weight: Option<[[i32; 4]; 4]>,
}

/// How the version that wrote a state compares with the running one.
#[derive(Clone, Copy, Debug, PartialEq, Eq, Structural)]
pub enum VersionCheck {
    /// The store holds no state: nothing has been saved yet.
    NoState,
    /// The major versions agree.
    Same,
    /// The state was written by a newer major version and is to be ignored.
    Newer,
    /// The state was written by an older major version and is taken in as
    /// far as it goes.
    Older,
}

#[verifier::external_type_specification]
#[verifier::external_body]
pub struct ExEncodeError(rmp_serde::encode::Error);

#[verifier::external_type_specification]
#[verifier::external_body]
pub struct ExDecodeError(rmp_serde::decode::Error);

/// The `file` URI that `Url::from_file_path` of the crate `url` makes of a
/// path on a Unix system, as text; nothing where it makes none.
pub uninterp spec fn file_uri(path: Seq<char>) -> Option<Seq<char>>;

#[verifier::external_type_specification]
#[verifier::external_body]
pub struct ExUrl(url::Url);

/// The text that a URL of the crate `url` holds: its serialization, which is
/// all that two URLs are compared by.
pub uninterp spec fn url_text(url: url::Url) -> Seq<char>;

/// The text of the URL that `Url::parse` of the crate `url` reads from a
/// text; nothing where the text is no URL.
pub uninterp spec fn parsed_url(text: Seq<char>) -> Option<Seq<char>>;

/// The file path that `Url::to_file_path` of the crate `url` makes, on a Unix
/// system, of the URL with the given text; nothing where the URL names no file
/// path that is valid UTF-8.
pub uninterp spec fn url_file_path(url: Seq<char>) -> Option<Seq<char>>;

/// The file path that a URI names: that of the URL that the text is read
/// as; nothing where the text is no URL or the URL names no file path.
pub open spec fn uri_file(uri: Seq<char>) -> Option<Seq<char>> {
    match parsed_url(uri) {
        Some(url) => url_file_path(url),
        None => None,
    }
}

/// The major version that `Version::parse` of the crate `semver` reads from a
/// text; nothing where the text is no version.
pub uninterp spec fn semver_major(text: Seq<char>) -> Option<u64>;

/// The MessagePack encoding that `to_vec` of the crate `rmp_serde` gives a
/// matrix of transition counts.
pub uninterp spec fn packed_weights(weight: [[i32; 4]; 4]) -> Seq<u8>;

/// The matrix of transition counts that `from_slice` of the crate
/// `rmp_serde` reads from a blob; nothing where it reads none.
pub uninterp spec fn unpacked_weights(blob: Seq<u8>) -> Option<[[i32; 4]; 4]>;

/// Calls `Url::from_file_path` on `path` and returns the URL as text, or
/// nothing where the call fails, as it does for a path that is not absolute.
/// The contract gives the result a name and claims nothing else of it.
#[verifier::external_body]
fn url_from_file_path(path: &str) -> (r: Option<String>)
    ensures
        r is Some <==> file_uri(path@) is Some,
        r is Some ==> Some(r->Some_0@) == file_uri(path@),
{
    url::Url::from_file_path(path).ok().map(|uri| uri.to_string())
}

/// Calls `Url::parse` on `text` and returns the URL, or nothing where the
/// text is no URL. The contract gives the text of the URL a name and claims
/// nothing else of it.
#[verifier::external_body]
fn url_parse(text: &str) -> (r: Option<url::Url>)
    ensures
        r is Some <==> parsed_url(text@) is Some,
        r is Some ==> Some(url_text(r->Some_0)) == parsed_url(text@),
{
    url::Url::parse(text).ok()
}

/// Calls `Url::to_file_path` on `url` and returns the path where the call
/// succeeds and the path is valid UTF-8. The contract gives the result a
/// name, as a function of the text of the URL, and claims nothing else of it.
#[verifier::external_body]
fn url_to_file_path(url: &url::Url) -> (r: Option<String>)
    ensures
        r is Some <==> url_file_path(url_text(*url)) is Some,
        r is Some ==> Some(r->Some_0@) == url_file_path(url_text(*url)),
{
    url.to_file_path().ok()?.into_os_string().into_string().ok()
}

/// Calls `Version::parse` on `text` and returns the major version, or
/// nothing where the text is no version. The contract gives the result a
/// name and claims nothing else of it.
#[verifier::external_body]
fn version_major(text: &str) -> (r: Option<u64>)
    ensures
        r == semver_major(text@),
{
    semver::Version::parse(text).ok().map(|version| version.major)
}

/// Calls `rmp_serde::to_vec` on a matrix of transition counts. The encoder
/// writes arrays of integers into a vector that grows as needed, and nothing
/// in that can fail but the growing of the vector for want of memory. The
/// contract claims that the call succeeds, and gives the bytes a name.
#[verifier::external_body]
fn pack_weights(weight: &[[i32; 4]; 4]) -> (r: Result<Vec<u8>, rmp_serde::encode::Error>)
    ensures
        r is Ok,
        r->Ok_0@ == packed_weights(*weight),
{
    rmp_serde::to_vec(weight)
}

/// Calls `rmp_serde::from_slice` on a blob to read a matrix of transition
/// counts. The contract gives the outcome a name and claims nothing else.
#[verifier::external_body]
fn unpack_weights(blob: &[u8]) -> (r: Result<[[i32; 4]; 4], rmp_serde::decode::Error>)
    ensures
        r is Ok <==> unpacked_weights(blob@) is Some,
        r is Ok ==> Some(r->Ok_0) == unpacked_weights(blob@),
{
    rmp_serde::from_slice(blob)
}

/// Converts the path of a file into a URI of the `file` scheme.
///
/// Fails with [`Failure::BadPath`] where the path has no such URI.
pub fn filename_to_uri(path: &str) -> (r: Result<String, Failure>)
    ensures
        r is Ok <==> file_uri(path@) is Some,
        r is Ok ==> Some(r->Ok_0@) == file_uri(path@),
        r is Err ==> r == Err::<String, Failure>(Failure::BadPath),
{
    match url_from_file_path(path) {
        Some(uri) => Ok(uri),
        None => Err(Failure::BadPath),
    }
}

/// Converts a URI of the `file` scheme into the path of the file.
///
/// Fails with [`Failure::BadUri`] where the URI names no file path.
pub fn uri_to_filename(uri: &str) -> (r: Result<String, Failure>)
    ensures
        r is Ok <==> uri_file(uri@) is Some,
        r is Ok ==> Some(r->Ok_0@) == uri_file(uri@),
        r is Err ==> r == Err::<String, Failure>(Failure::BadUri),
{
    let url = match url_parse(uri) {
        Some(url) => url,
        None => {
            return Err(Failure::BadUri);
        },
    };
    match url_to_file_path(&url) {
        Some(path) => Ok(path),
        None => Err(Failure::BadUri),
    }
}

/// How a state written by major version `stored` compares with the running
/// major version `running`.
pub open spec fn spec_compare_majors(running: u64, stored: u64) -> VersionCheck {
    if running < stored {
        VersionCheck::Newer
    } else if running > stored {
        VersionCheck::Older
    } else {
        VersionCheck::Same
    }
}

/// How a state written by major version `stored` compares with the running
/// major version `running`.
pub fn compare_majors(running: u64, stored: u64) -> (r: VersionCheck)
    ensures
        r == spec_compare_majors(running, stored),
{
    if running < stored {
        VersionCheck::Newer
    } else if running > stored {
        VersionCheck::Older
    } else {
        VersionCheck::Same
    }
}

/// Compares the version `stored` that wrote a state with the version
/// `running` of the software.
///
/// Fails with [`Failure::BadVersion`] where one of the two is no version.
pub fn check_version(running: &str, stored: &str) -> (r: Result<VersionCheck, Failure>)
    ensures
        r is Ok <==> semver_major(running@) is Some && semver_major(stored@) is Some,
        r is Ok ==> r->Ok_0 == spec_compare_majors(
            semver_major(running@)->Some_0,
            semver_major(stored@)->Some_0,
        ),
        r is Err ==> r == Err::<VersionCheck, Failure>(Failure::BadVersion),
{
    match (version_major(running), version_major(stored)) {
        (Some(mine), Some(theirs)) => Ok(compare_majors(mine, theirs)),
        _ => Err(Failure::BadVersion),
    }
}

impl Region {
    /// The region that a row of the store stands for, given the path that
    /// its URI names.
    pub open spec fn spec_from_row(row: MapRow, path: String) -> Region {
        Region {
            path,
            offset: row.offset as u64,
            length: row.length as u64,
            update_time: row.update_time,
            seq: row.seq,
            block: -1i64,
        }
    }

    /// Whether `row` is the row of this region, but for the URI.
    pub open spec fn spec_row(&self, row: MapRow) -> bool {
        &&& row.seq == self.seq
        &&& row.update_time == self.update_time
        &&& row.offset == self.offset as i32
        &&& row.length == self.length as i64
    }

    /// The region that a row of the store stands for.
    ///
    /// Fails with [`Failure::BadUri`] where the URI names no file path.
    pub fn from_row(row: &MapRow) -> (r: Result<Region, Failure>)
        ensures
            r is Ok <==> uri_file(row.uri@) is Some,
            r is Ok ==> Some(r->Ok_0.path@) == uri_file(row.uri@) && r->Ok_0
                == Self::spec_from_row(*row, r->Ok_0.path),
            r is Err ==> r == Err::<Region, Failure>(Failure::BadUri),
    {
        let path = match uri_to_filename(row.uri.as_str()) {
            Ok(path) => path,
            Err(_) => {
                return Err(Failure::BadUri);
            },
        };
        Ok(
            Region {
                path,
                offset: #[verifier::truncate]
                (row.offset as u64),
                length: #[verifier::truncate]
                (row.length as u64),
                update_time: row.update_time,
                seq: row.seq,
                block: -1,
            },
        )
    }

    /// The row of the store for this region.
    ///
    /// Fails with [`Failure::BadPath`] where the path has no URI.
    pub fn to_row(&self) -> (r: Result<MapRow, Failure>)
        ensures
            r is Ok <==> file_uri(self.path@) is Some,
            r is Ok ==> Some(r->Ok_0.uri@) == file_uri(self.path@) && self.spec_row(r->Ok_0),
            r is Err ==> r == Err::<MapRow, Failure>(Failure::BadPath),
    {
        let uri = match filename_to_uri(self.path.as_str()) {
            Ok(uri) => uri,
            Err(_) => {
                return Err(Failure::BadPath);
            },
        };
        Ok(
            MapRow {
                seq: self.seq,
                update_time: self.update_time,
                offset: #[verifier::truncate]
                (self.offset as i32),
                length: #[verifier::truncate]
                (self.length as i64),
                uri,
            },
        )
    }
}

impl Exe {
    /// The executable that a row of the store stands for, given the path that
    /// its URI names: one that is not running and has never changed state.
    pub open spec fn spec_from_row(row: ExeRow, path: String) -> Exe {
        Exe {
            path,
            time: row.time,
            update_time: row.update_time,
            size: 0,
            running_timestamp: -1i32,
            change_timestamp: -1i32,
            seq: row.seq,
        }
    }

    /// The executable that a row of the store stands for.
    ///
    /// Fails with [`Failure::BadUri`] where the URI names no file path.
    pub fn from_row(row: &ExeRow) -> (r: Result<Exe, Failure>)
        ensures
            r is Ok <==> uri_file(row.uri@) is Some,
            r is Ok ==> Some(r->Ok_0.path@) == uri_file(row.uri@) && r->Ok_0
                == Self::spec_from_row(*row, r->Ok_0.path),
            r is Err ==> r == Err::<Exe, Failure>(Failure::BadUri),
    {
        let path = match uri_to_filename(row.uri.as_str()) {
            Ok(path) => path,
            Err(_) => {
                return Err(Failure::BadUri);
            },
        };
        Ok(
            Exe {
                path,
                time: row.time,
                update_time: row.update_time,
                size: 0,
                running_timestamp: -1,
                change_timestamp: -1,
                seq: row.seq,
            },
        )
    }

    /// The row of the store for this executable.
    ///
    /// Fails with [`Failure::BadPath`] where the path has no URI.
    pub fn to_row(&self) -> (r: Result<ExeRow, Failure>)
        ensures
            r is Ok <==> file_uri(self.path@) is Some,
            r is Ok ==> {
                &&& Some(r->Ok_0.uri@) == file_uri(self.path@)
                &&& r->Ok_0.seq == self.seq
                &&& r->Ok_0.update_time == self.update_time
                &&& r->Ok_0.time == self.time
            },
            r is Err ==> r == Err::<ExeRow, Failure>(Failure::BadPath),
    {
        let uri = match filename_to_uri(self.path.as_str()) {
            Ok(uri) => uri,
            Err(_) => {
                return Err(Failure::BadPath);
            },
        };
        Ok(ExeRow { seq: self.seq, update_time: self.update_time, time: self.time, uri })
    }
}

impl BadExe {
    /// The entry that a row of the store stands for. The store keeps the
    /// size in the column of the update time.
    ///
    /// Fails with [`Failure::BadUri`] where the URI names no file path.
    pub fn from_row(row: &BadExeRow) -> (r: Result<BadExe, Failure>)
        ensures
            r is Ok <==> uri_file(row.uri@) is Some,
            r is Ok ==> Some(r->Ok_0.path@) == uri_file(row.uri@) && r->Ok_0.size
                == row.update_time as u64,
            r is Err ==> r == Err::<BadExe, Failure>(Failure::BadUri),
    {
        let path = match uri_to_filename(row.uri.as_str()) {
            Ok(path) => path,
            Err(_) => {
                return Err(Failure::BadUri);
            },
        };
        Ok(BadExe { path, size: #[verifier::truncate]
        (row.update_time as u64) })
    }

    /// The row of the store for this entry.
    ///
    /// Fails with [`Failure::BadPath`] where the path has no URI.
    pub fn to_row(&self) -> (r: Result<BadExeRow, Failure>)
        ensures
            r is Ok <==> file_uri(self.path@) is Some,
            r is Ok ==> Some(r->Ok_0.uri@) == file_uri(self.path@) && r->Ok_0.update_time
                == self.size as i32,
            r is Err ==> r == Err::<BadExeRow, Failure>(Failure::BadPath),
    {
        let uri = match filename_to_uri(self.path.as_str()) {
            Ok(uri) => uri,
            Err(_) => {
                return Err(Failure::BadPath);
            },
        };
        Ok(BadExeRow { update_time: #[verifier::truncate]
        (self.size as i32), uri })
    }
}

/// Whether no count of a matrix is negative and the count of transitions
/// out of each state is the sum of the counts to the other states.
pub fn check_weights(weight: &[[i32; 4]; 4]) -> (r: bool)
    ensures
        r == weights_balanced(*weight),
{
    let mut s: usize = 0;
    while s < 4
        invariant
            s <= 4,
            forall|i: int, j: int| 0 <= i < s && 0 <= j < 4 ==> #[trigger] weight[i][j] >= 0,
            forall|i: int| 0 <= i < s ==> #[trigger] crate::markov::spread(*weight, i) == weight[i][i],
        decreases 4 - s,
    {
        let row = &weight[s];
        if row[0] < 0 || row[1] < 0 || row[2] < 0 || row[3] < 0 {
            assert(weight[s as int][0] < 0 || weight[s as int][1] < 0 || weight[s as int][2] < 0
                || weight[s as int][3] < 0);
            return false;
        }
        let total: i64 = row[0] as i64 + row[1] as i64 + row[2] as i64 + row[3] as i64;
        if total - row[s] as i64 != row[s] as i64 {
            assert(crate::markov::spread(*weight, s as int) != weight[s as int][s as int]);
            return false;
        }
        proof {
            assert forall|j: int| 0 <= j < 4 implies #[trigger] weight[s as int][j] >= 0 by {
                if j == 0 {
                } else if j == 1 {
                } else if j == 2 {
                } else {
                }
            }
        }
        s = s + 1;
    }
    true
}

impl MarkovRecord {
    /// The record that a row of the store stands for.
    pub open spec fn spec_from_row(row: MarkovRow) -> MarkovRecord {
        MarkovRecord {
            a_seq: row.a_seq,
            b_seq: row.b_seq,
            time: row.time,
            time_to_leave: row.time_to_leave,
            weight: unpacked_weights(row.weight@),
        }
    }

    /// Whether `row` is the row of this record.
    pub open spec fn spec_row(&self, row: MarkovRow) -> bool {
        &&& row.a_seq == self.a_seq
        &&& row.b_seq == self.b_seq
        &&& row.time == self.time
        &&& row.time_to_leave == self.time_to_leave
        &&& self.weight is Some
        &&& row.weight@ == packed_weights(self.weight->Some_0)
    }

    /// The record that a row of the store stands for.
    pub fn from_row(row: &MarkovRow) -> (r: MarkovRecord)
        ensures
            r == Self::spec_from_row(*row),
    {
        let weight = match unpack_weights(row.weight.as_slice()) {
            Ok(weight) => Some(weight),
            Err(_) => None,
        };
        MarkovRecord {
            a_seq: row.a_seq,
            b_seq: row.b_seq,
            time: row.time,
            time_to_leave: row.time_to_leave,
            weight,
        }
    }

    /// The row of the store for this record.
    ///
    /// Fails with [`Failure::BadWeights`] where the record has no matrix of
    /// transition counts.
    pub fn to_row(&self) -> (r: Result<MarkovRow, Failure>)
        ensures
            r is Ok <==> self.weight is Some,
            r is Ok ==> self.spec_row(r->Ok_0),
            r is Err ==> r == Err::<MarkovRow, Failure>(Failure::BadWeights),
    {
        let weight = match &self.weight {
            Some(weight) => weight,
            None => {
                return Err(Failure::BadWeights);
            },
        };
        match pack_weights(weight) {
            Ok(weight) => Ok(
                MarkovRow {
                    a_seq: self.a_seq,
                    b_seq: self.b_seq,
                    time: self.time,
                    time_to_leave: self.time_to_leave,
                    weight,
                },
            ),
            Err(_) => Err(Failure::BadWeights),
        }
    }
}

} // verus!
