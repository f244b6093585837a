use vstd::prelude::*;
use crate::fzf::{Entry, EntryModel};
use crate::chars::{chars_of, chars_eq};

verus! {

/// A file modification timestamp; equality is the sole staleness signal.
#[derive(Clone, Copy, Debug, PartialEq, Eq, Structural)]
pub struct Mtime {
    pub secs: u64,
    pub nanos: u32,
}

/// The per-file cache record: the entries one parse produced, together with
/// the modification time the file had when it was parsed.
#[derive(Clone, Debug)]
pub struct Record {
    pub mtime: Mtime,
    pub entries: Vec<Entry<String, String>>,
}

pub ghost struct RecordModel {
    pub mtime: Mtime,
    pub entries: Seq<EntryModel>,
}

impl View for Record {
    type V = RecordModel;

    open spec fn view(&self) -> RecordModel {
        RecordModel { mtime: self.mtime, entries: self.entries.deep_view() }
    }
}

/// The record stored under `p`, if any: the first pair whose key is `p`.
pub open spec fn spec_find(s: Seq<(Seq<char>, RecordModel)>, p: Seq<char>) -> Option<RecordModel>
    decreases s.len(),
{
    if s.len() == 0 {
        None
    } else if s[0].0 == p {
        Some(s[0].1)
    } else {
        spec_find(s.drop_first(), p)
    }
}

/// The association with key `p` replaced by `r`, or appended when absent.
pub open spec fn spec_insert(
    s: Seq<(Seq<char>, RecordModel)>,
    p: Seq<char>,
    r: RecordModel,
) -> Seq<(Seq<char>, RecordModel)>
    decreases s.len(),
{
    if s.len() == 0 {
        seq![(p, r)]
    } else if s[0].0 == p {
        seq![(p, r)] + s.drop_first()
    } else {
        seq![s[0]] + spec_insert(s.drop_first(), p, r)
    }
}

/// A record is fresh for `mtime` when one is stored and its recorded
/// modification time equals the current one.
pub open spec fn spec_is_fresh(
    s: Seq<(Seq<char>, RecordModel)>,
    p: Seq<char>,
    mtime: Mtime,
) -> bool {
    match spec_find(s, p) {
        Some(r) => r.mtime == mtime,
        None => false,
    }
}

/// Paths are unique keys.
pub open spec fn spec_keys_distinct(s: Seq<(Seq<char>, RecordModel)>) -> bool {
    forall|i: int, j: int| 0 <= i < j < s.len() ==> s[i].0 != s[j].0
}

/// The process-wide store mapping each file path to its last parse result.
/// Concurrent access is imposed around the whole value by the caller; every
/// operation here is a single lookup or a single replacement.
pub struct Cache {
    files: Vec<(String, Record)>,
}

impl View for Cache {
    type V = Seq<(Seq<char>, RecordModel)>;

    closed spec fn view(&self) -> Seq<(Seq<char>, RecordModel)> {
        Seq::new(self.files@.len(), |i: int| (self.files@[i].0@, self.files@[i].1@))
    }
}

impl Cache {
    pub open spec fn wf(&self) -> bool {
        spec_keys_distinct(self@)
    }

    pub fn new() -> (r: Cache)
        ensures
            r@ == Seq::<(Seq<char>, RecordModel)>::empty(),
            r.wf(),
    {
        let r = Cache { files: Vec::new() };
        proof {
            assert(r@ =~= Seq::<(Seq<char>, RecordModel)>::empty());
        }
        r
    }

    /// How many files have a record.
    pub fn len(&self) -> (n: usize)
        ensures
            n == self@.len(),
    {
        self.files.len()
    }

    /// The stored associations, for iteration by a consumer.
    pub fn records(&self) -> (r: &Vec<(String, Record)>)
        ensures
            r@.len() == self@.len(),
            forall|i: int|
                0 <= i < self@.len() ==> self@[i] == (#[trigger] r@[i].0@, r@[i].1@),
    {
        &self.files
    }

    /// Finds the index holding path `p`, if any.
    fn find_index(&self, path: &Vec<char>) -> (r: Option<usize>)
        ensures
            match r {
                Some(i) => {
                    &&& i < self@.len()
                    &&& self@[i as int].0 == path@
                    &&& forall|j: int| 0 <= j < i ==> self@[j].0 != path@
                },
                None => forall|j: int| 0 <= j < self@.len() ==> self@[j].0 != path@,
            },
    {
        let mut i: usize = 0;
        while i < self.files.len()
            invariant
                i <= self.files.len(),
                self@.len() == self.files@.len(),
                forall|j: int| 0 <= j < i ==> self@[j].0 != path@,
            decreases self.files.len() - i,
        {
            let key = chars_of(self.files[i].0.as_str());
            if chars_eq(&key, path) {
                return Some(i);
            }
            i = i + 1;
        }
        None
    }

    /// The record stored for `path`, if any.
    pub fn lookup(&self, path: &str) -> (r: Option<&Record>)
        ensures
            match spec_find(self@, path@) {
                Some(m) => r is Some && r->Some_0@ == m,
                None => r is None,
            },
    {
        let p = chars_of(path);
        let idx = self.find_index(&p);
        proof {
            match idx {
                Some(i) => lemma_find_at(self@, path@, i as int),
                None => lemma_find_absent(self@, path@),
            }
        }
        match idx {
            Some(i) => Some(&self.files[i].1),
            None => None,
        }
    }

    /// Whether the record for `path` is fresh: present with this very mtime.
    ///
    /// Freshness is keyed purely on equality of the stored and current
    /// modification times — there is no content hashing. A file whose mtime
    /// was reset to an old value by external tooling is treated as fresh;
    /// that is an accepted trade-off for speed.
    pub fn is_fresh(&self, path: &str, mtime: Mtime) -> (r: bool)
        ensures
            r == spec_is_fresh(self@, path@, mtime),
    {
        match self.lookup(path) {
            Some(rec) => rec.mtime == mtime,
            None => false,
        }
    }

    /// Stores `record` for `path`, replacing any previous record whole.
    pub fn insert_or_replace(&mut self, path: String, record: Record)
        requires
            old(self).wf(),
        ensures
            final(self).wf(),
            final(self)@ == spec_insert(old(self)@, path@, record@),
    {
        let p = chars_of(path.as_str());
        let idx = self.find_index(&p);
        match idx {
            Some(i) => {
                let ghost old_view = self@;
                self.files.set(i, (path, record));
                proof {
                    assert(self@ =~= old_view.update(i as int, (path@, record@)));
                    lemma_insert_at(old_view, path@, record@, i as int);
                    assert forall|a: int, b: int|
                        0 <= a < b < self@.len() implies self@[a].0 != self@[b].0 by {
                        assert(old_view[a].0 != old_view[b].0);
                        assert(self@[a].0 == old_view[a].0 || a == i);
                        assert(self@[b].0 == old_view[b].0 || b == i);
                    }
                }
            },
            None => {
                let ghost old_view = self@;
                self.files.push((path, record));
                proof {
                    assert(self@ =~= old_view.push((path@, record@)));
                    lemma_insert_absent(old_view, path@, record@);
                    assert forall|a: int, b: int|
                        0 <= a < b < self@.len() implies self@[a].0 != self@[b].0 by {
                        if b < old_view.len() {
                            assert(old_view[a].0 != old_view[b].0);
                        } else {
                            assert(self@[b].0 == path@);
                            assert(old_view[a].0 != path@);
                        }
                    }
                }
            },
        }
    }
}

/// When `p` first occurs at index `i`, `spec_find` returns that record.
pub proof fn lemma_find_at(s: Seq<(Seq<char>, RecordModel)>, p: Seq<char>, i: int)
    requires
        0 <= i < s.len(),
        s[i].0 == p,
        forall|j: int| 0 <= j < i ==> s[j].0 != p,
    ensures
        spec_find(s, p) == Some(s[i].1),
    decreases i,
{
    if i > 0 {
        assert(s.drop_first()[i - 1] == s[i]);
        assert(forall|j: int| 0 <= j < i - 1 ==> s.drop_first()[j] == s[j + 1]);
        lemma_find_at(s.drop_first(), p, i - 1);
    }
}

/// When no association holds `p`, `spec_find` returns nothing.
pub proof fn lemma_find_absent(s: Seq<(Seq<char>, RecordModel)>, p: Seq<char>)
    requires
        forall|j: int| 0 <= j < s.len() ==> s[j].0 != p,
    ensures
        spec_find(s, p) == None::<RecordModel>,
    decreases s.len(),
{
    if s.len() > 0 {
        lemma_find_absent(s.drop_first(), p);
    }
}

/// Replacing at the first index holding `p` is what `spec_insert` does.
pub proof fn lemma_insert_at(
    s: Seq<(Seq<char>, RecordModel)>,
    p: Seq<char>,
    r: RecordModel,
    i: int,
)
    requires
        0 <= i < s.len(),
        s[i].0 == p,
        forall|j: int| 0 <= j < i ==> s[j].0 != p,
    ensures
        spec_insert(s, p, r) == s.update(i, (p, r)),
    decreases i,
{
    if i == 0 {
        assert(spec_insert(s, p, r) == seq![(p, r)] + s.drop_first());
        assert(seq![(p, r)] + s.drop_first() =~= s.update(0, (p, r)));
    } else {
        assert(forall|j: int| 0 <= j < i - 1 ==> s.drop_first()[j] == s[j + 1]);
        assert(s.drop_first()[i - 1] == s[i]);
        lemma_insert_at(s.drop_first(), p, r, i - 1);
        assert(seq![s[0]] + s.drop_first().update(i - 1, (p, r)) =~= s.update(i, (p, r)));
    }
}

/// Appending is what `spec_insert` does when `p` is absent.
pub proof fn lemma_insert_absent(s: Seq<(Seq<char>, RecordModel)>, p: Seq<char>, r: RecordModel)
    requires
        forall|j: int| 0 <= j < s.len() ==> s[j].0 != p,
    ensures
        spec_insert(s, p, r) == s.push((p, r)),
    decreases s.len(),
{
    if s.len() == 0 {
        assert(spec_insert(s, p, r) =~= s.push((p, r)));
    } else {
        lemma_insert_absent(s.drop_first(), p, r);
        assert(seq![s[0]] + s.drop_first().push((p, r)) =~= s.push((p, r)));
    }
}

/// After an insert, the inserted path maps to the new record and every other
/// path maps to what it mapped to before.
pub proof fn lemma_insert_find(
    s: Seq<(Seq<char>, RecordModel)>,
    p: Seq<char>,
    r: RecordModel,
    q: Seq<char>,
)
    ensures
        spec_find(spec_insert(s, p, r), q) == if q == p {
            Some(r)
        } else {
            spec_find(s, q)
        },
    decreases s.len(),
{
    if s.len() == 0 {
        let t = spec_insert(s, p, r);
        assert(t == seq![(p, r)]);
        assert(t[0] == (p, r));
        assert(t.len() == 1);
        if q != p {
            assert(t.drop_first() =~= Seq::<(Seq<char>, RecordModel)>::empty());
            assert(spec_find(t.drop_first(), q) == None::<RecordModel>);
        }
    } else if s[0].0 == p {
        let t = seq![(p, r)] + s.drop_first();
        assert(spec_insert(s, p, r) == t);
        assert(t[0] == (p, r));
        assert(t.len() > 0);
        assert(t.drop_first() =~= s.drop_first());
        if q != p {
            assert(spec_find(t, q) == spec_find(s.drop_first(), q));
            assert(spec_find(s, q) == spec_find(s.drop_first(), q));
        }
    } else {
        let t = seq![s[0]] + spec_insert(s.drop_first(), p, r);
        assert(spec_insert(s, p, r) == t);
        assert(t[0] == s[0]);
        assert(t.len() > 0);
        assert(t.drop_first() =~= spec_insert(s.drop_first(), p, r));
        lemma_insert_find(s.drop_first(), p, r, q);
        if t[0].0 == q {
            assert(spec_find(t, q) == Some(s[0].1));
            assert(spec_find(s, q) == Some(s[0].1));
        } else {
            assert(spec_find(t, q) == spec_find(spec_insert(s.drop_first(), p, r), q));
        }
    }
}

/// Inserting keeps keys distinct.
pub proof fn lemma_insert_distinct(s: Seq<(Seq<char>, RecordModel)>, p: Seq<char>, r: RecordModel)
    requires
        spec_keys_distinct(s),
    ensures
        spec_keys_distinct(spec_insert(s, p, r)),
    decreases s.len(),
{
    if s.len() == 0 {
    } else if s[0].0 == p {
        let t = seq![(p, r)] + s.drop_first();
        assert forall|a: int, b: int| 0 <= a < b < t.len() implies t[a].0 != t[b].0 by {
            if a == 0 {
                assert(t[b] == s[b]);
                assert(s[0].0 != s[b].0);
            } else {
                assert(t[a] == s[a] && t[b] == s[b]);
            }
        }
    } else {
        assert(forall|a: int, b: int|
            0 <= a < b < s.drop_first().len() ==> s.drop_first()[a].0 != s.drop_first()[b].0);
        lemma_insert_distinct(s.drop_first(), p, r);
        let t = seq![s[0]] + spec_insert(s.drop_first(), p, r);
        assert forall|a: int, b: int| 0 <= a < b < t.len() implies t[a].0 != t[b].0 by {
            if a == 0 {
                lemma_insert_keys(s.drop_first(), p, r, b - 1);
            } else {
                assert(t[a] == spec_insert(s.drop_first(), p, r)[a - 1]);
                assert(t[b] == spec_insert(s.drop_first(), p, r)[b - 1]);
            }
        }
    }
}

/// Every key of an insert result is a key of the input or the inserted one.
pub proof fn lemma_insert_keys(
    s: Seq<(Seq<char>, RecordModel)>,
    p: Seq<char>,
    r: RecordModel,
    i: int,
)
    requires
        0 <= i < spec_insert(s, p, r).len(),
    ensures
        spec_insert(s, p, r)[i].0 == p || exists|j: int|
            0 <= j < s.len() && s[j].0 == #[trigger] spec_insert(s, p, r)[i].0,
    decreases s.len(),
{
    if s.len() == 0 {
    } else if s[0].0 == p {
        if i > 0 {
            assert(spec_insert(s, p, r)[i] == s[i]);
        }
    } else {
        if i > 0 {
            lemma_insert_keys(s.drop_first(), p, r, i - 1);
            assert(spec_insert(s, p, r)[i] == spec_insert(s.drop_first(), p, r)[i - 1]);
            if spec_insert(s.drop_first(), p, r)[i - 1].0 != p {
                let j = choose|j: int|
                    0 <= j < s.drop_first().len() && s.drop_first()[j].0 == spec_insert(
                        s.drop_first(),
                        p,
                        r,
                    )[i - 1].0;
                assert(s[j + 1].0 == spec_insert(s, p, r)[i].0);
            }
        }
    }
}


/// A found record sits at a first index holding its path.
pub proof fn lemma_find_index(s: Seq<(Seq<char>, RecordModel)>, p: Seq<char>, r: RecordModel)
    requires
        spec_find(s, p) == Some(r),
    ensures
        exists|i: int| 0 <= i < s.len() && s[i] == (p, r),
    decreases s.len(),
{
    if s.len() > 0 {
        if s[0].0 == p {
            assert(s[0] == (p, r));
        } else {
            lemma_find_index(s.drop_first(), p, r);
            let i = choose|i: int| 0 <= i < s.drop_first().len() && s.drop_first()[i] == (p, r);
            assert(s[i + 1] == (p, r));
        }
    }
}

/// When `spec_find` returns nothing, no association holds `p`.
pub proof fn lemma_find_none(s: Seq<(Seq<char>, RecordModel)>, p: Seq<char>)
    requires
        spec_find(s, p) == None::<RecordModel>,
    ensures
        forall|j: int| 0 <= j < s.len() ==> s[j].0 != p,
    decreases s.len(),
{
    if s.len() > 0 {
        lemma_find_none(s.drop_first(), p);
        assert(forall|j: int| 1 <= j < s.len() ==> s[j] == s.drop_first()[j - 1]);
    }
}

} // verus!
