//! The module table: canonical module names mapped to module bodies, with a
//! running count of collected files. Keys are unique; inserting a name that
//! already exists overwrites the prior entry (last-collected wins). Entries
//! keep their insertion order, so iteration over the table is deterministic.

use vstd::prelude::*;

use crate::bytes::{bytes_eq, canon_seq, has_name, lower_trim, name_in};

verus! {

/// Unique keys in an association list of byte-string keys.
pub open spec fn tbl_wf(s: Seq<(Vec<u8>, Vec<u8>)>) -> bool {
    forall|i: int, j: int| 0 <= i < j < s.len() ==> s[i].0@ != s[j].0@
}

pub open spec fn tbl_has_key(s: Seq<(Vec<u8>, Vec<u8>)>, n: Seq<u8>) -> bool {
    exists|i: int| 0 <= i < s.len() && s[i].0@ == n
}

/// The index of a key (unique when `tbl_wf` holds).
pub open spec fn tbl_key_idx(s: Seq<(Vec<u8>, Vec<u8>)>, n: Seq<u8>) -> int {
    choose|i: int| 0 <= i < s.len() && s[i].0@ == n
}

/// The text stored under a key.
pub open spec fn tbl_text(s: Seq<(Vec<u8>, Vec<u8>)>, n: Seq<u8>) -> Seq<u8> {
    s[tbl_key_idx(s, n)].1@
}

/// Collector of modules: walks of directory trees hand each candidate file to
/// `record_file`, which decides inclusion and inserts into the shared table.
#[derive(Debug)]
pub struct DirWalker {
    /// Number of files collected (an overwrite still counts).
    pub size: usize,
    /// Module table: canonical name, full text; unique keys, insertion order.
    pub modules: Vec<(Vec<u8>, Vec<u8>)>,
}

impl DirWalker {
    pub open spec fn wf(self) -> bool {
        tbl_wf(self.modules@)
    }

    pub fn new() -> (r: Self)
        ensures
            r.size == 0,
            r.modules@.len() == 0,
            r.wf(),
    {
        DirWalker { size: 0, modules: Vec::new() }
    }

    /// Insert a module under an already-canonical name; a prior entry under
    /// the same name is overwritten in place (last-collected wins).
    pub fn insert_module(&mut self, name: Vec<u8>, text: Vec<u8>)
        requires
            old(self).wf(),
            old(self).size < usize::MAX,
        ensures
            final(self).wf(),
            final(self).size == old(self).size + 1,
            tbl_has_key(old(self).modules@, name@) ==> {
                let i = tbl_key_idx(old(self).modules@, name@);
                &&& final(self).modules@.len() == old(self).modules@.len()
                &&& (forall|j: int|
                    0 <= j < final(self).modules@.len() && j != i ==> final(self).modules@[j]
                        == old(self).modules@[j])
                &&& final(self).modules@[i].0@ == name@
                &&& final(self).modules@[i].1@ == text@
            },
            !tbl_has_key(old(self).modules@, name@) ==> {
                &&& final(self).modules@.len() == old(self).modules@.len() + 1
                &&& (forall|j: int|
                    0 <= j < old(self).modules@.len() ==> final(self).modules@[j] == old(
                        self,
                    ).modules@[j])
                &&& final(self).modules@.last().0@ == name@
                &&& final(self).modules@.last().1@ == text@
            },
    {
        let n = self.modules.len();
        let mut i: usize = 0;
        while i < n
            invariant
                0 <= i <= n,
                *self == *old(self),
                old(self).wf(),
                old(self).size < usize::MAX,
                n == self.modules@.len(),
                forall|k: int| 0 <= k < i ==> self.modules@[k].0@ != name@,
            decreases n - i,
        {
            if bytes_eq(&self.modules[i].0, &name) {
                proof {
                    lemma_tbl_key_idx_unique(self.modules@, name@, i as int);
                }
                let ghost before = self.modules@;
                self.modules.remove(i);
                self.modules.insert(i, (name, text));
                self.size = self.size + 1;
                proof {
                    assert forall|j: int|
                        0 <= j < self.modules@.len() && j != i implies self.modules@[j]
                        == before[j] by {
                        if j < i {
                            assert(before.remove(i as int)[j] == before[j]);
                        } else {
                            assert(before.remove(i as int)[j - 1] == before[j]);
                        }
                    }
                    assert(self.modules@[i as int] == (name, text));
                    assert forall|a: int, b: int|
                        0 <= a < b < self.modules@.len() implies self.modules@[a].0@
                        != self.modules@[b].0@ by {
                        if a != i && b != i {
                            assert(self.modules@[a] == before[a]);
                            assert(self.modules@[b] == before[b]);
                        } else if a == i {
                            assert(self.modules@[b] == before[b]);
                            assert(before[b].0@ != name@);
                        } else {
                            assert(self.modules@[a] == before[a]);
                            assert(before[a].0@ != name@);
                        }
                    }
                }
                return ;
            }
            i = i + 1;
        }
        proof {
            assert(!tbl_has_key(self.modules@, name@));
        }
        self.modules.push((name, text));
        self.size = self.size + 1;
    }

    /// Decide whether a directory entry is a compilable unit to collect: its
    /// extension must be the compilable-unit extension and its canonical stem
    /// must not be reserved. When included, the module is inserted under the
    /// canonical stem, overwriting any prior entry of that name.
    pub fn record_file(
        &mut self,
        stem: &Vec<u8>,
        ext: &Vec<u8>,
        text: Vec<u8>,
        ignore: &Vec<Vec<u8>>,
    ) -> (included: bool)
        requires
            old(self).wf(),
            old(self).size < usize::MAX,
        ensures
            final(self).wf(),
            included <==> (is_bend_ext(ext@) && !name_in(ignore@, canon_seq(stem@))),
            !included ==> *final(self) == *old(self),
            included ==> {
                let name = canon_seq(stem@);
                &&& final(self).size == old(self).size + 1
                &&& tbl_has_key(final(self).modules@, name)
                &&& tbl_text(final(self).modules@, name) == text@
                &&& (tbl_has_key(old(self).modules@, name) ==> final(self).modules@.len() == old(
                    self,
                ).modules@.len())
                &&& (!tbl_has_key(old(self).modules@, name) ==> final(self).modules@.len() == old(
                    self,
                ).modules@.len() + 1)
                &&& (forall|k: Seq<u8>|
                    tbl_has_key(final(self).modules@, k) <==> (tbl_has_key(old(self).modules@, k)
                        || k == name))
                &&& (forall|k: Seq<u8>|
                    tbl_has_key(old(self).modules@, k) && k != name ==> tbl_text(
                        final(self).modules@,
                        k,
                    ) == tbl_text(old(self).modules@, k))
            },
    {
        if !is_bend(ext) {
            return false;
        }
        let name = lower_trim(stem);
        if has_name(ignore, &name) {
            return false;
        }
        let ghost old_tbl = self.modules@;
        let ghost nm = name@;
        self.insert_module(name, text);
        proof {
            if tbl_has_key(old_tbl, nm) {
                let i = tbl_key_idx(old_tbl, nm);
                assert(self.modules@[i].0@ == nm);
                lemma_tbl_key_idx_unique(self.modules@, nm, i);
                assert(forall|k: Seq<u8>|
                    tbl_has_key(self.modules@, k) ==> (tbl_has_key(old_tbl, k) || k == nm))
                    by {
                    assert forall|k: Seq<u8>|
                        tbl_has_key(self.modules@, k) implies (tbl_has_key(old_tbl, k) || k
                        == nm) by {
                        let j = choose|j: int|
                            0 <= j < self.modules@.len() && self.modules@[j].0@ == k;
                        if j != i {
                            assert(old_tbl[j].0@ == k);
                        }
                    }
                }
                assert forall|k: Seq<u8>|
                    tbl_has_key(old_tbl, k) && k != nm implies tbl_has_key(self.modules@, k)
                    && tbl_text(self.modules@, k) == tbl_text(old_tbl, k) by {
                    let j = tbl_key_idx(old_tbl, k);
                    assert(old_tbl[j].0@ == k);
                    assert(j != i);
                    assert(self.modules@[j].0@ == k);
                    lemma_tbl_key_idx_unique(self.modules@, k, j);
                    lemma_tbl_key_idx_unique(old_tbl, k, j);
                }
            } else {
                let ghost l = self.modules@.len() - 1;
                assert(self.modules@[l].0@ == nm);
                lemma_tbl_key_idx_unique(self.modules@, nm, l);
                assert forall|k: Seq<u8>|
                    tbl_has_key(self.modules@, k) implies (tbl_has_key(old_tbl, k) || k == nm)
                    by {
                    let j = choose|j: int|
                        0 <= j < self.modules@.len() && self.modules@[j].0@ == k;
                    if j != l {
                        assert(old_tbl[j].0@ == k);
                    }
                }
                assert forall|k: Seq<u8>|
                    tbl_has_key(old_tbl, k) && k != nm implies tbl_has_key(self.modules@, k)
                    && tbl_text(self.modules@, k) == tbl_text(old_tbl, k) by {
                    let j = tbl_key_idx(old_tbl, k);
                    assert(old_tbl[j].0@ == k);
                    assert(self.modules@[j].0@ == k);
                    lemma_tbl_key_idx_unique(self.modules@, k, j);
                    lemma_tbl_key_idx_unique(old_tbl, k, j);
                }
            }
        }
        true
    }
}

/// With unique keys, any index holding the key is the chosen one.
pub proof fn lemma_tbl_key_idx_unique(s: Seq<(Vec<u8>, Vec<u8>)>, n: Seq<u8>, i: int)
    requires
        tbl_wf(s),
        0 <= i < s.len(),
        s[i].0@ == n,
    ensures
        tbl_key_idx(s, n) == i,
        tbl_has_key(s, n),
        tbl_text(s, n) == s[i].1@,
{
    assert(tbl_has_key(s, n));
    let c = tbl_key_idx(s, n);
    assert(0 <= c < s.len() && s[c].0@ == n);
    if c < i {
        assert(s[c].0@ != s[i].0@);
    } else if i < c {
        assert(s[i].0@ != s[c].0@);
    }
}

/// The compilable-unit extension, the bytes of "bend".
pub open spec fn is_bend_ext(e: Seq<u8>) -> bool {
    e == seq![98u8, 101u8, 110u8, 100u8]
}

/// Whether a file extension marks a compilable unit.
pub fn is_bend(ext: &Vec<u8>) -> (r: bool)
    ensures
        r <==> is_bend_ext(ext@),
{
    let r = ext.len() == 4 && ext[0] == 98 && ext[1] == 101 && ext[2] == 110 && ext[3] == 100;
    proof {
        if r {
            assert(ext@ =~= seq![98u8, 101u8, 110u8, 100u8]);
        }
    }
    r
}

/// Whether a raw stem canonicalizes to a reserved name; drives both the skip
/// of reserved files and the skip of reserved directories during a walk.
pub fn is_reserved(stem: &Vec<u8>, ignore: &Vec<Vec<u8>>) -> (r: bool)
    ensures
        r <==> name_in(ignore@, canon_seq(stem@)),
{
    let name = lower_trim(stem);
    has_name(ignore, &name)
}

/// Find the entry of a key in a module table.
pub fn find_tbl(t: &Vec<(Vec<u8>, Vec<u8>)>, k: &Vec<u8>) -> (r: Option<usize>)
    ensures
        r matches Some(i) ==> 0 <= i < t@.len() && t@[i as int].0@ == k@,
        r is None ==> !tbl_has_key(t@, k@),
{
    let n = t.len();
    let mut i: usize = 0;
    while i < n
        invariant
            0 <= i <= n,
            n == t@.len(),
            forall|i2: int| 0 <= i2 < i ==> t@[i2].0@ != k@,
        decreases n - i,
    {
        if bytes_eq(&t[i].0, k) {
            return Some(i);
        }
        i = i + 1;
    }
    None
}

} // verus!
