//! The data model of a collection of file records.
//!
//! These are the shapes in which the surrounding application hands data to
//! the aggregator: a collection ([`InfoFiles`]) carries its metadata
//! ([`Info`]) and a list of file records ([`File`]), each an optional path
//! of named segments plus a byte length.  [`InfoFiles::upverted_files`]
//! normalizes the records so that every path is non-empty, falling back to
//! the collection's display name.
use crate::seqs::dv;
use crate::seqs::dv_snoc_take_to;
use vstd::prelude::*;

verus! {

broadcast use crate::seqs::group_dv;

/// A byte length as reported for one file record.
pub type FileLength = i64;

/// A collection's display name.
#[derive(Clone)]
pub struct InfoName(String);

impl View for InfoName {
    type V = Seq<char>;

    closed spec fn view(&self) -> Seq<char> {
        self.0@
    }
}

impl InfoName {
    /// The name as a string slice.
    pub fn as_str(&self) -> (r: &str)
        ensures
            r@ == self@,
    {
        self.0.as_str()
    }

    /// An owned copy of the name.
    pub fn to_owned_string(&self) -> (r: String)
        ensures
            r@ == self@,
    {
        self.0.clone()
    }
}

impl From<String> for InfoName {
    fn from(s: String) -> (r: Self) {
        InfoName(s)
    }
}

impl vstd::std_specs::convert::FromSpecImpl<String> for InfoName {
    open spec fn obeys_from_spec() -> bool {
        true
    }

    closed spec fn from_spec(s: String) -> Self {
        InfoName(s)
    }
}

impl Default for InfoName {
    fn default() -> (r: Self)
        ensures
            r@ == Seq::<char>::empty(),
    {
        InfoName(String::new())
    }
}

/// Peer statistics of one collection.
#[derive(Clone, Debug)]
pub struct SwarmInfo {
    pub seeders: u32,
    pub completed: u32,
    pub leechers: u32,
}

impl Default for SwarmInfo {
    fn default() -> (r: Self)
        ensures
            r.seeders == 0 && r.completed == 0 && r.leechers == 0,
    {
        SwarmInfo { seeders: 0, completed: 0, leechers: 0 }
    }
}

/// Metadata of one collection.
#[derive(Clone)]
pub struct Info {
    pub info_id: i64,
    pub name: InfoName,
    pub info_hash: String,
    pub age: String,
    pub scrape_data: SwarmInfo,
    pub scrape_time: String,
}

impl Default for Info {
    fn default() -> (r: Self)
        ensures
            r.info_id == 0,
            r.name@ == Seq::<char>::empty(),
            r.info_hash@ == Seq::<char>::empty(),
            r.age@ == Seq::<char>::empty(),
            r.scrape_time@ == Seq::<char>::empty(),
    {
        Info {
            info_id: 0,
            name: InfoName::default(),
            info_hash: String::new(),
            age: String::new(),
            scrape_data: SwarmInfo::default(),
            scrape_time: String::new(),
        }
    }
}

/// One raw file record: an optional path of named segments and a length.
#[derive(Clone)]
pub struct File {
    pub path: Option<Vec<String>>,
    pub length: FileLength,
}

/// The spec-level shape of a raw file record.
pub ghost struct FileV {
    pub path: Option<Seq<Seq<char>>>,
    pub length: FileLength,
}

impl DeepView for File {
    type V = FileV;

    open spec fn deep_view(&self) -> FileV {
        FileV { path: self.path.deep_view(), length: self.length }
    }
}

impl Default for File {
    fn default() -> (r: Self)
        ensures
            r.path is None,
            r.length == 0,
    {
        File { path: None, length: 0 }
    }
}

/// One collection: its metadata and its file records.
#[derive(Clone)]
pub struct InfoFiles {
    pub info: Info,
    pub files: Vec<File>,
}

/// One entry of a search result.
#[derive(Clone)]
pub struct InfoItem {
    pub info_hash: String,
    pub name: String,
    pub swarm_info: SwarmInfo,
    pub size: u64,
    pub age: String,
    pub no_swarm_info: bool,
}

impl Default for InfoItem {
    fn default() -> (r: Self)
        ensures
            r.info_hash@ == Seq::<char>::empty(),
            r.name@ == Seq::<char>::empty(),
            r.size == 0,
            r.age@ == Seq::<char>::empty(),
            r.no_swarm_info == false,
    {
        InfoItem {
            info_hash: String::new(),
            name: String::new(),
            swarm_info: SwarmInfo::default(),
            size: 0,
            age: String::new(),
            no_swarm_info: false,
        }
    }
}

/// A whole search result.
#[derive(Clone)]
pub struct InfosSearch {
    pub total: usize,
    pub err: Option<String>,
    pub items: Vec<InfoItem>,
}

impl Default for InfosSearch {
    fn default() -> (r: Self)
        ensures
            r.total == 0,
            r.err is None,
            r.items@.len() == 0,
    {
        InfosSearch { total: 0, err: None, items: Vec::new() }
    }
}

/// A normalized file record: the path is always non-empty.
pub struct UpvertedFile {
    pub path: Vec<String>,
    pub length: FileLength,
}

/// The spec-level shape of a normalized file record.
pub ghost struct UpFileV {
    pub path: Seq<Seq<char>>,
    pub length: FileLength,
}

impl DeepView for UpvertedFile {
    type V = UpFileV;

    open spec fn deep_view(&self) -> UpFileV {
        UpFileV { path: self.path.deep_view(), length: self.length }
    }
}

/// The normalized path of one record: the record's own path when it is
/// present and non-empty, else the single synthetic segment `name`.
pub open spec fn upvert_path(path: Option<Seq<Seq<char>>>, name: Seq<char>) -> Seq<Seq<char>> {
    match path {
        Some(p) => if p.len() > 0 {
            p
        } else {
            seq![name]
        },
        None => seq![name],
    }
}

/// What normalizing a whole record list yields.
pub open spec fn upvert_spec(files: Seq<FileV>, name: Seq<char>) -> Seq<UpFileV> {
    files.map_values(
        (|f: FileV| UpFileV { path: upvert_path(f.path, name), length: f.length }),
    )
}

/// The one-segment path that stands in for a missing path.
fn single_segment(name: &InfoName) -> (r: Vec<String>)
    ensures
        dv(r@) == seq![name@],
{
    let mut v: Vec<String> = Vec::new();
    v.push(name.to_owned_string());
    proof {
        assert(dv(v@) =~= seq![name@]);
    }
    v
}

/// Copies the first `k` segments of a path.
pub(crate) fn path_prefix(v: &Vec<String>, k: usize) -> (r: Vec<String>)
    requires
        k <= v@.len(),
    ensures
        dv(r@) == dv(v@).take(k as int),
{
    let mut r: Vec<String> = Vec::new();
    proof {
        assert(dv(r@) =~= dv(v@).take(k as int).take(0));
    }
    let mut i: usize = 0;
    while i < k
        invariant
            i <= k <= v.len(),
            dv(r@) == dv(v@).take(k as int).take(i as int),
        decreases k - i,
    {
        let s = v[i].clone();
        let ghost prevv: Seq<String> = r@;
        r.push(s);
        proof {
            assert(s == v@[i as int]);
            assert(s.deep_view() == dv(v@).take(k as int)[i as int]);
            dv_snoc_take_to(prevv, s, dv(v@).take(k as int), i as int);
        }
        i += 1;
    }
    proof {
        assert(dv(v@).take(k as int).take(k as int) =~= dv(v@).take(k as int));
    }
    r
}

/// Copies a path, segment by segment.
pub(crate) fn clone_path(v: &Vec<String>) -> (r: Vec<String>)
    ensures
        r.deep_view() == v.deep_view(),
        dv(r@) == dv(v@),
{
    let r = path_prefix(v, v.len());
    proof {
        assert(dv(v@).take(v@.len() as int) =~= dv(v@));
    }
    r
}

impl InfoFiles {
    /// Normalizes every record: a present, non-empty path is kept verbatim;
    /// a missing or empty one becomes the single segment given by the
    /// collection's display name.
    pub fn upverted_files(&self) -> (r: Vec<UpvertedFile>)
        ensures
            r.deep_view() == upvert_spec(self.files.deep_view(), self.info.name@),
    {
        let ghost goal = upvert_spec(dv(self.files@), self.info.name@);
        let mut r: Vec<UpvertedFile> = Vec::new();
        proof {
            assert(dv(r@) =~= goal.take(0));
        }
        let mut i: usize = 0;
        while i < self.files.len()
            invariant
                i <= self.files.len(),
                goal == upvert_spec(dv(self.files@), self.info.name@),
                dv(r@) == goal.take(i as int),
            decreases self.files.len() - i,
        {
            let file = &self.files[i];
            let path: Vec<String> = match &file.path {
                Some(p) => {
                    if p.len() > 0 {
                        clone_path(p)
                    } else {
                        single_segment(&self.info.name)
                    }
                },
                None => single_segment(&self.info.name),
            };
            proof {
                assert(path.deep_view() == upvert_path(
                    file.deep_view().path,
                    self.info.name@,
                ));
            }
            let up = UpvertedFile { path, length: file.length };
            let ghost prevv: Seq<UpvertedFile> = r@;
            proof {
                assert(dv(self.files@)[i as int] == self.files@[i as int].deep_view());
                assert(goal[i as int] == UpFileV {
                    path: upvert_path(self.files@[i as int].deep_view().path, self.info.name@),
                    length: self.files@[i as int].length,
                });
                assert(up.deep_view() == goal[i as int]);
            }
            r.push(up);
            proof {
                dv_snoc_take_to(prevv, up, goal, i as int);
            }
            i += 1;
        }
        proof {
            assert(goal.take(goal.len() as int) =~= goal);
        }
        r
    }
}

} // verus!
