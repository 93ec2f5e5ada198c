//! Fragments: a logical row group stored as a set of data files, each file
//! holding a subset of the columns.

use crate::pb;
use vstd::prelude::*;

verus! {

/// A data file is one piece of file storing data.
#[derive(Debug, Clone)]
pub struct DataFile {
    /// Relative path of the data file to the dataset root.
    pub path: String,
    /// The ids of the fields stored in this file.
    fields: Vec<i32>,
}

impl DataFile {
    /// The ids of the fields stored in this file, in stored order.
    pub closed spec fn field_seq(&self) -> Seq<i32> {
        self.fields@
    }

    /// The relative path of this file, as characters.
    pub closed spec fn path_seq(&self) -> Seq<char> {
        self.path@
    }

    /// A data file at `path` that stores the columns `fields`.
    pub fn new(path: String, fields: Vec<i32>) -> (file: Self)
        ensures
            file.path_seq() == path@,
            file.field_seq() == fields@,
    {
        DataFile { path, fields }
    }

    /// The data file that a persisted message describes.
    pub fn from_message(proto: &pb::DataFile) -> (file: Self)
        ensures
            file.path_seq() == proto.path@,
            file.field_seq() == proto.fields@,
    {
        let fields = proto.fields.clone();
        assert(fields@ =~= proto.fields@);
        DataFile { path: proto.path.clone(), fields }
    }

    /// The message in which this data file is persisted.
    pub fn to_message(&self) -> (proto: pb::DataFile)
        ensures
            proto.path@ == self.path_seq(),
            proto.fields@ == self.field_seq(),
    {
        let fields = self.fields.clone();
        assert(fields@ =~= self.fields@);
        pb::DataFile { path: self.path.clone(), fields }
    }

    /// The ids of the fields stored in this file, in stored order.
    pub fn fields(&self) -> (ids: &Vec<i32>)
        ensures
            ids@ == self.field_seq(),
    {
        &self.fields
    }
}

/// A fragment is a set of files which hold different columns of the same
/// rows. A column of the schema that no file stores reads as all nulls.
#[derive(Debug, Clone)]
pub struct Fragment {
    /// Fragment id, unique within a dataset.
    pub id: u64,
    /// Files within the fragment.
    pub files: Vec<DataFile>,
}

/// Every element is smaller than each element after it.
pub open spec fn strictly_increasing(ids: Seq<i32>) -> bool {
    forall|i: int, j: int| 0 <= i < j < ids.len() ==> ids[i] < ids[j]
}

/// Some file among the first `n` of `files` stores the column `id`.
pub open spec fn stored_in_first(files: Seq<DataFile>, n: int, id: i32) -> bool {
    exists|f: int| 0 <= f < n && f < files.len() && #[trigger] files[f].field_seq().contains(id)
}

/// Puts `id` into the increasing list `ids`, unless it is there already.
fn insert_sorted(ids: &mut Vec<i32>, id: i32)
    requires
        strictly_increasing(old(ids)@),
    ensures
        strictly_increasing(final(ids)@),
        forall|x: i32| final(ids)@.contains(x) <==> (old(ids)@.contains(x) || x == id),
{
    let mut pos: usize = 0;
    while pos < ids.len() && ids[pos] < id
        invariant
            pos <= ids.len(),
            ids@ == old(ids)@,
            forall|k: int| 0 <= k < pos ==> ids@[k] < id,
        decreases ids.len() - pos,
    {
        pos += 1;
    }
    if pos < ids.len() && ids[pos] == id {
        assert(ids@[pos as int] == id);
    } else {
        let ghost before = ids@;
        ids.insert(pos, id);
        assert(ids@ == before.insert(pos as int, id));
        assert forall|x: i32| ids@.contains(x) <==> (before.contains(x) || x == id) by {
            if ids@.contains(x) {
                let k = choose|k: int| 0 <= k < ids@.len() && ids@[k] == x;
                if k < pos {
                    assert(before[k] == x);
                } else if k > pos {
                    assert(before[k - 1] == x);
                }
            }
            if before.contains(x) {
                let k = choose|k: int| 0 <= k < before.len() && before[k] == x;
                if k < pos {
                    assert(ids@[k] == x);
                } else {
                    assert(ids@[k + 1] == x);
                }
            }
            if x == id {
                assert(ids@[pos as int] == x);
            }
        }
        assert forall|i: int, j: int| 0 <= i < j < ids@.len() implies ids@[i] < ids@[j] by {
            if i < pos && j > pos {
                assert(ids@[j] == before[j - 1]);
                assert(before[pos as int] > id);
                if j - 1 > pos {
                    assert(before[pos as int] < before[j - 1]);
                }
            } else if i >= pos && i != pos {
                assert(ids@[i] == before[i - 1]);
                assert(ids@[j] == before[j - 1]);
            } else if i == pos {
                assert(ids@[j] == before[j - 1]);
                assert(before[pos as int] > id);
                if j - 1 > pos {
                    assert(before[pos as int] < before[j - 1]);
                }
            }
        }
    }
}

impl Fragment {
    /// The fragment that a persisted message describes: its id, and its
    /// files in order.
    pub fn from_message(p: &pb::DataFragment) -> (fragment: Self)
        ensures
            fragment.id == p.id,
            fragment.files@.len() == p.files@.len(),
            forall|k: int|
                0 <= k < p.files@.len() ==> (#[trigger] fragment.files@[k]).path_seq()
                    == p.files@[k].path@ && fragment.files@[k].field_seq() == p.files@[k].fields@,
    {
        let mut files: Vec<DataFile> = Vec::new();
        let mut k: usize = 0;
        while k < p.files.len()
            invariant
                k <= p.files@.len(),
                files@.len() == k,
                forall|j: int|
                    0 <= j < k ==> (#[trigger] files@[j]).path_seq() == p.files@[j].path@
                        && files@[j].field_seq() == p.files@[j].fields@,
            decreases p.files@.len() - k,
        {
            files.push(DataFile::from_message(&p.files[k]));
            k += 1;
        }
        Fragment { id: p.id, files }
    }

    /// The fragment stores the column `id` in at least one of its files.
    pub open spec fn stores(&self, id: i32) -> bool {
        stored_in_first(self.files@, self.files@.len() as int, id)
    }

    /// The ids of all fields stored by this fragment: the union over its
    /// files, in increasing order, each id once.
    pub fn field_ids(&self) -> (ids: Vec<i32>)
        ensures
            strictly_increasing(ids@),
            forall|id: i32| ids@.contains(id) <==> self.stores(id),
    {
        let mut ids: Vec<i32> = Vec::new();
        let mut f: usize = 0;
        while f < self.files.len()
            invariant
                f <= self.files.len(),
                strictly_increasing(ids@),
                forall|id: i32|
                    #[trigger] ids@.contains(id) <==> stored_in_first(self.files@, f as int, id),
            decreases self.files.len() - f,
        {
            let fields = self.files[f].fields();
            let ghost start = ids@;
            assert(forall|id: i32|
                #[trigger] start.contains(id) <==> stored_in_first(self.files@, f as int, id));
            let mut k: usize = 0;
            while k < fields.len()
                invariant
                    k <= fields.len(),
                    f < self.files.len(),
                    fields@ == self.files@[f as int].field_seq(),
                    strictly_increasing(ids@),
                    forall|id: i32|
                        #[trigger] ids@.contains(id) <==> (start.contains(id) || fields@.take(
                            k as int,
                        ).contains(id)),
                decreases fields.len() - k,
            {
                let ghost prev = ids@;
                assert(forall|id: i32|
                    #[trigger] prev.contains(id) <==> (start.contains(id) || fields@.take(
                        k as int,
                    ).contains(id)));
                insert_sorted(&mut ids, fields[k]);
                proof {
                    let t0 = fields@.take(k as int);
                    let t1 = fields@.take(k as int + 1);
                    let added = fields@[k as int];
                    assert(t1 =~= t0.push(added));
                    assert forall|id: i32|
                        ids@.contains(id) <==> (start.contains(id) || t1.contains(id)) by {
                        assert(ids@.contains(id) <==> (prev.contains(id) || id == added));
                        assert(prev.contains(id) <==> (start.contains(id) || t0.contains(id)));
                        if t1.contains(id) {
                            let j = choose|j: int| 0 <= j < t1.len() && t1[j] == id;
                            if j < k {
                                assert(t0[j] == id);
                            }
                        }
                        if t0.contains(id) {
                            let j = choose|j: int| 0 <= j < t0.len() && t0[j] == id;
                            assert(t1[j] == id);
                        }
                        if id == fields@[k as int] {
                            assert(t1[k as int] == id);
                        }
                    }
                }
                k += 1;
            }
            proof {
                assert(fields@.take(k as int) =~= fields@);
                assert forall|id: i32|
                    ids@.contains(id) <==> stored_in_first(self.files@, f as int + 1, id) by {
                    assert(ids@.contains(id) <==> (start.contains(id) || fields@.contains(id)));
                    assert(start.contains(id) <==> stored_in_first(self.files@, f as int, id));
                    if stored_in_first(self.files@, f as int + 1, id) {
                        let w = choose|w: int|
                            0 <= w < f as int + 1 && w < self.files@.len()
                                && #[trigger] self.files@[w].field_seq().contains(id);
                        if w < f {
                            assert(stored_in_first(self.files@, f as int, id));
                        }
                    }
                    if stored_in_first(self.files@, f as int, id) {
                        let w = choose|w: int|
                            0 <= w < f as int && w < self.files@.len()
                                && #[trigger] self.files@[w].field_seq().contains(id);
                        assert(self.files@[w].field_seq().contains(id));
                    }
                    if fields@.contains(id) {
                        assert(self.files@[f as int].field_seq().contains(id));
                    }
                }
            }
            f += 1;
        }
        ids
    }
}

} // verus!
