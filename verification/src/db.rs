//! The key-value store: a mapping from text keys to byte values, each with
//! an optional absolute expiry instant in milliseconds.
//!
//! An entry whose expiry has passed is logically absent: reads treat it as
//! missing even while it is still physically present, and `sweep` removes
//! such entries. The store is a plain value; callers that share it across
//! tasks wrap it in their own synchronization and pass clock readings in.

use vstd::prelude::*;
use vstd::utf8::encode_utf8;

verus! {

struct Entry {
    key: String,
    value: Vec<u8>,
    expires_at: Option<u64>,
}

/// The in-memory store.
pub struct Db {
    entries: Vec<Entry>,
}

/// The first entry for `k` at or after index `i`, as the stored pair of
/// value bytes and optional expiry instant.
spec fn lookup_from(es: Seq<Entry>, k: Seq<char>, i: int) -> Option<(Seq<u8>, Option<u64>)>
    decreases es.len() - i,
{
    if 0 <= i < es.len() {
        if es[i].key@ == k {
            Some((es[i].value@, es[i].expires_at))
        } else {
            lookup_from(es, k, i + 1)
        }
    } else {
        None
    }
}

/// Unique keys at every pair of positions.
spec fn unique_keys(es: Seq<Entry>) -> bool {
    forall|p: int, q: int| 0 <= p < q < es.len() ==> #[trigger] es[p].key@ != #[trigger] es[q].key@
}

/// Two encodings agree only on equal text.
proof fn lemma_utf8_injective(x: Seq<char>, y: Seq<char>)
    requires
        encode_utf8(x) == encode_utf8(y),
    ensures
        x == y,
{
    vstd::utf8::encode_utf8_decode_utf8(x);
    vstd::utf8::encode_utf8_decode_utf8(y);
}

/// Text equality, decided on the UTF-8 bytes.
fn str_eq(a: &str, b: &str) -> (r: bool)
    ensures
        r == (a@ == b@),
{
    let ab = a.as_bytes_vec();
    let bb = b.as_bytes_vec();
    if ab.len() != bb.len() {
        proof {
            if a@ == b@ {
                assert(ab@ == bb@);
            }
        }
        return false;
    }
    let mut i: usize = 0;
    while i < ab.len()
        invariant
            0 <= i <= ab.len(),
            ab.len() == bb.len(),
            ab@ == encode_utf8(a@),
            bb@ == encode_utf8(b@),
            forall|j: int| 0 <= j < i ==> ab@[j] == bb@[j],
        decreases ab.len() - i,
    {
        if ab[i] != bb[i] {
            proof {
                if a@ == b@ {
                    assert(ab@ == bb@);
                }
            }
            return false;
        }
        i = i + 1;
    }
    proof {
        assert(ab@ =~= bb@);
        lemma_utf8_injective(a@, b@);
    }
    true
}

/// Copies a byte vector.
fn copy_bytes(v: &Vec<u8>) -> (r: Vec<u8>)
    ensures
        r@ == v@,
{
    let mut out: Vec<u8> = Vec::new();
    let mut i: usize = 0;
    while i < v.len()
        invariant
            0 <= i <= v.len(),
            out@ == v@.take(i as int),
        decreases v.len() - i,
    {
        proof {
            assert(v@.take(i + 1) =~= v@.take(i as int).push(v@[i as int]));
        }
        out.push(v[i]);
        i = i + 1;
    }
    proof {
        assert(v@.take(v@.len() as int) =~= v@);
    }
    out
}

/// A lookup that succeeds names an entry; one that fails rules every
/// entry out.
proof fn lemma_lookup_char(es: Seq<Entry>, k: Seq<char>, i: int)
    requires
        0 <= i <= es.len(),
    ensures
        match lookup_from(es, k, i) {
            Some(p) => exists|j: int|
                #![auto]
                i <= j < es.len() && es[j].key@ == k && p == (es[j].value@, es[j].expires_at),
            None => forall|j: int| i <= j < es.len() ==> #[trigger] es[j].key@ != k,
        },
    decreases es.len() - i,
{
    if i < es.len() {
        lemma_lookup_char(es, k, i + 1);
    }
}


/// Removing one entry erases its key's lookup and leaves every other
/// key's lookup unchanged, provided keys are unique.
proof fn lemma_lookup_remove_char(es0: Seq<Entry>, es1: Seq<Entry>, idx: int, k: Seq<char>)
    requires
        unique_keys(es0),
        0 <= idx < es0.len(),
        es1 == es0.remove(idx),
    ensures
        lookup_from(es1, k, 0) == (if k == es0[idx].key@ {
            None::<(Seq<u8>, Option<u64>)>
        } else {
            lookup_from(es0, k, 0)
        }),
{
    lemma_lookup_char(es0, k, 0);
    lemma_lookup_char(es1, k, 0);
    assert(forall|j: int| 0 <= j < idx ==> #[trigger] es1[j] == es0[j]);
    assert(forall|j: int| idx <= j < es1.len() ==> #[trigger] es1[j] == es0[j + 1]);
    if k == es0[idx].key@ {
        if lookup_from(es1, k, 0) is Some {
            let j = choose|j: int|
                #![auto]
                0 <= j < es1.len() && es1[j].key@ == k;
            if j < idx {
                assert(es0[j].key@ == k && es0[idx].key@ == k);
                assert(false);
            } else {
                assert(es0[j + 1].key@ == k && es0[idx].key@ == k);
                assert(false);
            }
        }
    } else {
        match lookup_from(es0, k, 0) {
            Some(p) => {
                let j = choose|j: int|
                    #![auto]
                    0 <= j < es0.len() && es0[j].key@ == k && p == (es0[j].value@, es0[j].expires_at);
                let j1 = if j < idx {
                    j
                } else {
                    j - 1
                };
                assert(es1[j1].key@ == k);
                match lookup_from(es1, k, 0) {
                    Some(q) => {
                        let j2 = choose|j2: int|
                            #![auto]
                            0 <= j2 < es1.len() && es1[j2].key@ == k && q == (
                                es1[j2].value@,
                                es1[j2].expires_at,
                            );
                        let j2o = if j2 < idx {
                            j2
                        } else {
                            j2 + 1
                        };
                        assert(es0[j2o].key@ == k);
                        assert(j2o == j);
                    },
                    None => {
                        assert(es1[j1].key@ != k);
                        assert(false);
                    },
                }
            },
            None => {
                if lookup_from(es1, k, 0) is Some {
                    let j2 = choose|j2: int|
                        #![auto]
                        0 <= j2 < es1.len() && es1[j2].key@ == k;
                    let j2o = if j2 < idx {
                        j2
                    } else {
                        j2 + 1
                    };
                    assert(es0[j2o].key@ == k);
                    assert(false);
                }
            },
        }
    }
}

/// A later write wins. Given a store written twice under one key — each
/// hypothesis is the contract `set` ensures — the store holds the second
/// value with the second expiry and nothing of the first write remains,
/// not even an expiry the first write had set; every other key reads as it
/// did before either write.
pub proof fn lemma_second_write_wins(
    db0: Db,
    db1: Db,
    db2: Db,
    key: Seq<char>,
    v1: Seq<u8>,
    e1: Option<u64>,
    v2: Seq<u8>,
    e2: Option<u64>,
)
    requires
        forall|k: Seq<char>|
            #![auto]
            db1.spec_lookup(k) == (if k == key {
                Some((v1, e1))
            } else {
                db0.spec_lookup(k)
            }),
        forall|k: Seq<char>|
            #![auto]
            db2.spec_lookup(k) == (if k == key {
                Some((v2, e2))
            } else {
                db1.spec_lookup(k)
            }),
    ensures
        db2.spec_lookup(key) == Some((v2, e2)),
        forall|k: Seq<char>| #![auto] k != key ==> db2.spec_lookup(k) == db0.spec_lookup(k),
{
}

impl Db {
    /// The stored pair for `k`: its value bytes and optional expiry,
    /// whether or not the expiry has passed.
    pub closed spec fn spec_lookup(&self, k: Seq<char>) -> Option<(Seq<u8>, Option<u64>)> {
        lookup_from(self.entries@, k, 0)
    }

    /// Each key owns at most one entry.
    pub closed spec fn wf(&self) -> bool {
        unique_keys(self.entries@)
    }

    /// The value a read at instant `now` sees: the stored value if the
    /// entry has no expiry or its expiry lies strictly in the future,
    /// nothing otherwise.
    pub open spec fn spec_live(&self, k: Seq<char>, now: u64) -> Option<Seq<u8>> {
        match self.spec_lookup(k) {
            Some(p) => match p.1 {
                Some(deadline) => if now < deadline {
                    Some(p.0)
                } else {
                    None
                },
                None => Some(p.0),
            },
            None => None,
        }
    }

    /// An empty store.
    pub fn new() -> (db: Db)
        ensures
            db.wf(),
            forall|k: Seq<char>| db.spec_lookup(k) is None,
    {
        Db { entries: Vec::new() }
    }

    /// Looks `key` up at instant `now`. Fails closed: an entry whose
    /// expiry has passed reads as absent.
    pub fn get(&self, key: &str, now: u64) -> (r: Option<Vec<u8>>)
        requires
            self.wf(),
        ensures
            match self.spec_live(key@, now) {
                Some(v) => (r matches Some(rv) && rv@ == v),
                None => r is None,
            },
    {
        proof {
            lemma_lookup_char(self.entries@, key@, 0);
        }
        let mut i: usize = 0;
        while i < self.entries.len()
            invariant
                self.wf(),
                0 <= i <= self.entries.len(),
                forall|j: int| 0 <= j < i ==> self.entries@[j].key@ != key@,
            decreases self.entries.len() - i,
        {
            if str_eq(self.entries[i].key.as_str(), key) {
                proof {
                    lemma_lookup_char(self.entries@, key@, 0);
                    assert(self.spec_lookup(key@) matches Some(p) && p == (
                        self.entries@[i as int].value@,
                        self.entries@[i as int].expires_at,
                    ));
                }
                match self.entries[i].expires_at {
                    Some(deadline) => {
                        if now < deadline {
                            return Some(copy_bytes(&self.entries[i].value));
                        } else {
                            return None;
                        }
                    },
                    None => {
                        return Some(copy_bytes(&self.entries[i].value));
                    },
                }
            }
            i = i + 1;
        }
        proof {
            lemma_lookup_char(self.entries@, key@, 0);
        }
        None
    }

    /// Inserts or overwrites: afterwards `key` holds exactly `value` with
    /// expiry `expires_at`, and every other key is untouched. In
    /// particular an overwrite clears any expiry a previous write set.
    pub fn set(&mut self, key: String, value: Vec<u8>, expires_at: Option<u64>)
        requires
            old(self).wf(),
        ensures
            final(self).wf(),
            forall|k: Seq<char>|
                #![trigger final(self).spec_lookup(k)]
                final(self).spec_lookup(k) == (if k == key@ {
                    Some((value@, expires_at))
                } else {
                    old(self).spec_lookup(k)
                }),
    {
        let ghost es0 = self.entries@;
        let mut i: usize = 0;
        let mut found: bool = false;
        while i < self.entries.len() && !found
            invariant
                0 <= i <= self.entries.len(),
                self.entries@ == es0,
                !found ==> forall|j: int| 0 <= j < i ==> self.entries@[j].key@ != key@,
                found ==> i < self.entries.len() && self.entries@[i as int].key@ == key@,
            decreases self.entries.len() - i, (if found { 0int } else { 1int }),
        {
            if str_eq(self.entries[i].key.as_str(), key.as_str()) {
                found = true;
            } else {
                i = i + 1;
            }
        }
        if found {
            self.entries.remove(i);
            proof {
                let es1 = self.entries@;
                assert(forall|j: int| 0 <= j < i ==> es1[j] == es0[j]);
                assert(forall|j: int| i <= j < es1.len() ==> es1[j] == es0[j + 1]);
                assert(unique_keys(es1));
                assert forall|k: Seq<char>| #![auto] lookup_from(es1, k, 0) == (if k == key@ {
                    None::<(Seq<u8>, Option<u64>)>
                } else {
                    lookup_from(es0, k, 0)
                }) by {
                    lemma_lookup_char(es1, k, 0);
                    lemma_lookup_char(es0, k, 0);
                    if k == key@ {
                        if lookup_from(es1, k, 0) is Some {
                            let j = choose|j: int|
                                #![auto]
                                0 <= j < es1.len() && es1[j].key@ == k && lookup_from(es1, k, 0)
                                    == Some((es1[j].value@, es1[j].expires_at));
                            if j < i {
                                assert(es0[j].key@ == k && es0[i as int].key@ == k);
                                assert(false);
                            } else {
                                assert(es0[j + 1].key@ == k && es0[i as int].key@ == k);
                                assert(false);
                            }
                        }
                    } else {
                        match lookup_from(es0, k, 0) {
                            Some(p) => {
                                let j = choose|j: int|
                                    #![auto]
                                    0 <= j < es0.len() && es0[j].key@ == k && lookup_from(es0, k, 0)
                                        == Some((es0[j].value@, es0[j].expires_at));
                                let j1 = if j < i {
                                    j
                                } else {
                                    j - 1
                                };
                                assert(es1[j1].key@ == k);
                                match lookup_from(es1, k, 0) {
                                    Some(q) => {
                                        let j2 = choose|j2: int|
                                            #![auto]
                                            0 <= j2 < es1.len() && es1[j2].key@ == k && lookup_from(
                                                es1,
                                                k,
                                                0,
                                            ) == Some((es1[j2].value@, es1[j2].expires_at));
                                        let j2o = if j2 < i {
                                            j2
                                        } else {
                                            j2 + 1
                                        };
                                        assert(es0[j2o].key@ == k);
                                        assert(j2o == j);
                                    },
                                    None => {
                                        assert(es1[j1].key@ != k);
                                        assert(false);
                                    },
                                }
                            },
                            None => {
                                if lookup_from(es1, k, 0) is Some {
                                    let j2 = choose|j2: int|
                                        #![auto]
                                        0 <= j2 < es1.len() && es1[j2].key@ == k && lookup_from(
                                            es1,
                                            k,
                                            0,
                                        ) == Some((es1[j2].value@, es1[j2].expires_at));
                                    let j2o = if j2 < i {
                                        j2
                                    } else {
                                        j2 + 1
                                    };
                                    assert(es0[j2o].key@ == k);
                                    assert(false);
                                }
                            },
                        }
                    }
                }
            }
        } else {
            proof {
                lemma_lookup_char(self.entries@, key@, 0);
            }
        }
        let ghost es1 = self.entries@;
        proof {
            assert(lookup_from(es1, key@, 0) is None) by {
                lemma_lookup_char(es1, key@, 0);
                if lookup_from(es1, key@, 0) is Some {
                    let j = choose|j: int|
                        #![auto]
                        0 <= j < es1.len() && es1[j].key@ == key@;
                    assert(false);
                }
            }
            lemma_lookup_char(es1, key@, 0);
        }
        let e = Entry { key, value, expires_at };
        self.entries.push(e);
        proof {
            let es2 = self.entries@;
            assert(es2 == es1.push(e));
            assert(forall|j: int| 0 <= j < es1.len() ==> es2[j] == es1[j]);
            assert(es2[es1.len() as int] == e);
            assert forall|p: int, q: int| 0 <= p < q < es2.len() implies es2[p].key@ != es2[q].key@
                by {
                if q == es1.len() {
                    assert(es1[p].key@ != key@);
                }
            }
            assert forall|k: Seq<char>| #![auto] lookup_from(es2, k, 0) == (if k == key@ {
                Some((e.value@, e.expires_at))
            } else {
                lookup_from(es1, k, 0)
            }) by {
                lemma_lookup_char(es2, k, 0);
                lemma_lookup_char(es1, k, 0);
                if k == key@ {
                    match lookup_from(es2, k, 0) {
                        Some(p) => {
                            let j = choose|j: int|
                                #![auto]
                                0 <= j < es2.len() && es2[j].key@ == k && lookup_from(es2, k, 0)
                                    == Some((es2[j].value@, es2[j].expires_at));
                            if j < es1.len() {
                                assert(es1[j].key@ == k);
                                assert(false);
                            }
                        },
                        None => {
                            assert(es2[es1.len() as int].key@ != k);
                            assert(false);
                        },
                    }
                } else {
                    match lookup_from(es2, k, 0) {
                        Some(p) => {
                            let j = choose|j: int|
                                #![auto]
                                0 <= j < es2.len() && es2[j].key@ == k && lookup_from(es2, k, 0)
                                    == Some((es2[j].value@, es2[j].expires_at));
                            assert(j < es1.len());
                            assert(es1[j].key@ == k);
                            match lookup_from(es1, k, 0) {
                                Some(q) => {
                                    let j2 = choose|j2: int|
                                        #![auto]
                                        0 <= j2 < es1.len() && es1[j2].key@ == k && lookup_from(
                                            es1,
                                            k,
                                            0,
                                        ) == Some((es1[j2].value@, es1[j2].expires_at));
                                    assert(j2 == j);
                                },
                                None => {
                                    assert(es1[j].key@ != k);
                                    assert(false);
                                },
                            }
                        },
                        None => {
                            if lookup_from(es1, k, 0) is Some {
                                let j2 = choose|j2: int|
                                    #![auto]
                                    0 <= j2 < es1.len() && es1[j2].key@ == k;
                                assert(es2[j2].key@ == k);
                                assert(false);
                            }
                        },
                    }
                }
            }
        }
    }

    /// Removes every entry whose expiry instant has been reached. Entries
    /// that are still live, and entries without an expiry, stay exactly as
    /// they were.
    pub fn sweep(&mut self, now: u64)
        requires
            old(self).wf(),
        ensures
            final(self).wf(),
            forall|k: Seq<char>|
                #![trigger final(self).spec_lookup(k)]
                final(self).spec_lookup(k) == (match old(self).spec_lookup(k) {
                    Some(p) => match p.1 {
                        Some(d) => if d <= now {
                            None::<(Seq<u8>, Option<u64>)>
                        } else {
                            Some(p)
                        },
                        None => Some(p),
                    },
                    None => None::<(Seq<u8>, Option<u64>)>,
                }),
    {
        let ghost orig = *self;
        let mut i: usize = 0;
        while i < self.entries.len()
            invariant
                orig.wf(),
                self.wf(),
                0 <= i <= self.entries.len(),
                forall|j: int|
                    0 <= j < i ==> match #[trigger] self.entries@[j].expires_at {
                        Some(d) => d > now,
                        None => true,
                    },
                forall|k: Seq<char>|
                    #![trigger self.spec_lookup(k)]
                    match self.spec_lookup(k) {
                        Some(p) => orig.spec_lookup(k) == Some(p),
                        None => orig.spec_lookup(k) is None || (orig.spec_lookup(k) matches Some(q)
                            && q.1 matches Some(d) && d <= now),
                    },
                forall|k: Seq<char>|
                    #![trigger orig.spec_lookup(k)]
                    match orig.spec_lookup(k) {
                        Some(p) => match p.1 {
                            Some(d) => d > now ==> self.spec_lookup(k) == Some(p),
                            None => self.spec_lookup(k) == Some(p),
                        },
                        None => true,
                    },
            decreases self.entries.len() - i,
        {
            let expired = match self.entries[i].expires_at {
                Some(d) => d <= now,
                None => false,
            };
            if expired {
                let ghost es0 = self.entries@;
                let ghost ki = es0[i as int].key@;
                self.entries.remove(i);
                proof {
                    let es1 = self.entries@;
                    assert(forall|j: int| 0 <= j < i ==> #[trigger] es1[j] == es0[j]);
                    assert(forall|j: int| i <= j < es1.len() ==> #[trigger] es1[j] == es0[j + 1]);
                    assert forall|p: int, q: int| 0 <= p < q < es1.len() implies es1[p].key@
                        != es1[q].key@ by {
                        if q < i {
                            assert(es0[p].key@ != es0[q].key@);
                        } else if p < i {
                            assert(es0[p].key@ != es0[q + 1].key@);
                        } else {
                            assert(es0[p + 1].key@ != es0[q + 1].key@);
                        }
                    }
                    assert(lookup_from(es0, ki, 0) == Some((
                        es0[i as int].value@,
                        es0[i as int].expires_at,
                    ))) by {
                        lemma_lookup_char(es0, ki, 0);
                        match lookup_from(es0, ki, 0) {
                            Some(p) => {
                                let j = choose|j: int|
                                    #![auto]
                                    0 <= j < es0.len() && es0[j].key@ == ki && p == (
                                        es0[j].value@,
                                        es0[j].expires_at,
                                    );
                                assert(j == i);
                            },
                            None => {
                                assert(es0[i as int].key@ != ki);
                            },
                        }
                    }
                    assert forall|k: Seq<char>| #![auto] lookup_from(es1, k, 0) == (if k == ki {
                        None::<(Seq<u8>, Option<u64>)>
                    } else {
                        lookup_from(es0, k, 0)
                    }) by {
                        lemma_lookup_remove_char(es0, es1, i as int, k);
                    }
                }
            } else {
                i = i + 1;
            }
        }
        proof {
            assert forall|k: Seq<char>|
                #![trigger self.spec_lookup(k)]
                self.spec_lookup(k) == (match orig.spec_lookup(k) {
                    Some(p) => match p.1 {
                        Some(d) => if d <= now {
                            None::<(Seq<u8>, Option<u64>)>
                        } else {
                            Some(p)
                        },
                        None => Some(p),
                    },
                    None => None::<(Seq<u8>, Option<u64>)>,
                }) by {
                lemma_lookup_char(self.entries@, k, 0);
                match self.spec_lookup(k) {
                    Some(p) => {
                        let j = choose|j: int|
                            #![auto]
                            0 <= j < self.entries@.len() && self.entries@[j].key@ == k && p == (
                                self.entries@[j].value@,
                                self.entries@[j].expires_at,
                            );
                        assert(match self.entries@[j].expires_at {
                            Some(d) => d > now,
                            None => true,
                        });
                    },
                    None => {},
                }
            }
        }
    }

    /// The nearest expiry instant among all entries that have one: the
    /// deadline the reaper should next wake at, or nothing when no entry
    /// expires.
    pub fn next_deadline(&self) -> (r: Option<u64>)
        requires
            self.wf(),
        ensures
            match r {
                Some(d) => (exists|k: Seq<char>|
                    #![trigger self.spec_lookup(k)]
                    self.spec_lookup(k) matches Some(p) && p.1 == Some(d)) && (forall|k: Seq<char>|
                    #![trigger self.spec_lookup(k)]
                    match self.spec_lookup(k) {
                        Some(p) => match p.1 {
                            Some(e) => d <= e,
                            None => true,
                        },
                        None => true,
                    }),
                None => forall|k: Seq<char>|
                    #![trigger self.spec_lookup(k)]
                    !(self.spec_lookup(k) matches Some(p) && p.1 is Some),
            },
    {
        let mut best: Option<u64> = None;
        let mut i: usize = 0;
        while i < self.entries.len()
            invariant
                self.wf(),
                0 <= i <= self.entries.len(),
                match best {
                    Some(d) => (exists|j: int|
                        #![auto]
                        0 <= j < i && self.entries@[j].expires_at == Some(d)) && (forall|j: int|
                        0 <= j < i ==> match #[trigger] self.entries@[j].expires_at {
                            Some(e) => d <= e,
                            None => true,
                        }),
                    None => forall|j: int| 0 <= j < i ==> #[trigger] self.entries@[j].expires_at
                        is None,
                },
            decreases self.entries.len() - i,
        {
            match self.entries[i].expires_at {
                Some(e) => {
                    match best {
                        Some(d) => {
                            if e < d {
                                best = Some(e);
                            }
                        },
                        None => {
                            best = Some(e);
                        },
                    }
                },
                None => {},
            }
            i = i + 1;
        }
        proof {
            let es = self.entries@;
            match best {
                Some(d) => {
                    let j = choose|j: int|
                        #![auto]
                        0 <= j < es.len() && es[j].expires_at == Some(d);
                    let kj = es[j].key@;
                    lemma_lookup_char(es, kj, 0);
                    match lookup_from(es, kj, 0) {
                        Some(p) => {
                            let j2 = choose|j2: int|
                                #![auto]
                                0 <= j2 < es.len() && es[j2].key@ == kj && p == (
                                    es[j2].value@,
                                    es[j2].expires_at,
                                );
                            assert(j2 == j);
                            assert(self.spec_lookup(kj) matches Some(q) && q.1 == Some(d));
                        },
                        None => {
                            assert(es[j].key@ != kj);
                        },
                    }
                    assert forall|k: Seq<char>|
                        #![trigger self.spec_lookup(k)]
                        match self.spec_lookup(k) {
                            Some(p) => match p.1 {
                                Some(e) => d <= e,
                                None => true,
                            },
                            None => true,
                        } by {
                        lemma_lookup_char(es, k, 0);
                    }
                },
                None => {
                    assert forall|k: Seq<char>|
                        #![trigger self.spec_lookup(k)]
                        !(self.spec_lookup(k) matches Some(p) && p.1 is Some) by {
                        lemma_lookup_char(es, k, 0);
                    }
                },
            }
        }
        best
    }
}

} // verus!
