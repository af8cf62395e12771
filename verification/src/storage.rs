use vstd::prelude::*;
use vstd::string::{StrSliceExecFns, StringExecFns};

verus! {

/// `part` below `base`: joined with a `/`, unless `base` is empty or ends
/// in one. A `part` that starts with `/` stands alone.
pub open spec fn joined(base: Seq<char>, part: Seq<char>) -> Seq<char> {
    if part.len() > 0 && part[0] == '/' {
        part
    } else if base.len() == 0 || base.last() == '/' {
        base + part
    } else {
        base + seq!['/'] + part
    }
}

/// Computes `joined`.
pub fn join(base: &str, part: &str) -> (r: String)
    ensures
        r@ == joined(base@, part@),
{
    let part_len = part.unicode_len();
    if part_len > 0 && part.get_char(0) == '/' {
        return part.to_owned();
    }
    let base_len = base.unicode_len();
    let mut r = base.to_owned();
    if base_len > 0 && base.get_char(base_len - 1) != '/' {
        proof {
            reveal_strlit("/");
            assert("/"@ =~= seq!['/']);
        }
        r.append("/");
    }
    r.append(part);
    r
}

/// The form in which a collection is kept.
#[derive(Debug, Clone, Copy, PartialEq, Eq, Structural)]
pub enum StoredFormat {
    /// The compact binary form, in `data.bin`.
    Binary,
    /// The older textual form, in `data.json`.
    Json,
}

/// The form to load a collection from, given which of its files are
/// there: the binary form before the textual one.
pub open spec fn preferred_format(binary_present: bool, json_present: bool) -> Option<StoredFormat> {
    if binary_present {
        Some(StoredFormat::Binary)
    } else if json_present {
        Some(StoredFormat::Json)
    } else {
        None
    }
}

/// Where the collections of a database are kept: below `collections` in
/// the database's directory, each in a directory of its name.
#[derive(Debug)]
pub struct Storage {
    base_path: String,
}

impl Storage {
    /// The directory of the database.
    pub closed spec fn base(&self) -> Seq<char> {
        self.base_path@
    }

    /// The storage below `base_path`.
    pub fn new(base_path: String) -> (r: Storage)
        ensures
            r.base() == base_path@,
    {
        Storage { base_path }
    }

    /// The directory of the database.
    pub fn base_path(&self) -> (r: &String)
        ensures
            r@ == self.base(),
    {
        &self.base_path
    }

    /// The directory that holds the collections.
    pub fn collections_path(&self) -> (r: String)
        ensures
            r@ == joined(self.base(), "collections"@),
    {
        join(self.base_path.as_str(), "collections")
    }

    /// The directory of the collection named `name`.
    pub fn collection_path(&self, name: &str) -> (r: String)
        ensures
            r@ == joined(joined(self.base(), "collections"@), name@),
    {
        let dir = self.collections_path();
        join(dir.as_str(), name)
    }

    /// The file that holds the collection named `name` in the given form.
    pub fn data_path(&self, name: &str, format: StoredFormat) -> (r: String)
        ensures
            r@ == joined(
                joined(joined(self.base(), "collections"@), name@),
                match format {
                    StoredFormat::Binary => "data.bin"@,
                    StoredFormat::Json => "data.json"@,
                },
            ),
    {
        let dir = self.collection_path(name);
        match format {
            StoredFormat::Binary => join(dir.as_str(), "data.bin"),
            StoredFormat::Json => join(dir.as_str(), "data.json"),
        }
    }

    /// The form to load a collection from, given which of its two files
    /// are there.
    pub fn load_format(&self, binary_present: bool, json_present: bool) -> (r: Option<StoredFormat>)
        ensures
            r == preferred_format(binary_present, json_present),
    {
        if binary_present {
            Some(StoredFormat::Binary)
        } else if json_present {
            Some(StoredFormat::Json)
        } else {
            None
        }
    }

    /// Whether a collection is kept, given which of its two files are
    /// there: one of them is enough.
    pub fn collection_exists(&self, binary_present: bool, json_present: bool) -> (r: bool)
        ensures
            r == (binary_present || json_present),
            r == preferred_format(binary_present, json_present).is_some(),
    {
        binary_present || json_present
    }
}

} // verus!
