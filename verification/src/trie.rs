//! A digit trie: a prefix tree over keys that are sequences of decimal
//! digits (0 through 9).
//!
//! The trie stores a prefix-closed set of digit strings: `contains`
//! reports whether the given string is a stored path, and `insert` adds a
//! string together with all of its prefixes.

use vstd::prelude::*;

verus! {

/// A trie node with one optional child per decimal digit.
pub struct Trie {
    c0: Option<Box<Trie>>,
    c1: Option<Box<Trie>>,
    c2: Option<Box<Trie>>,
    c3: Option<Box<Trie>>,
    c4: Option<Box<Trie>>,
    c5: Option<Box<Trie>>,
    c6: Option<Box<Trie>>,
    c7: Option<Box<Trie>>,
    c8: Option<Box<Trie>>,
    c9: Option<Box<Trie>>,
}

/// The child of `t` reached by digit `d` (absent for anything else).
pub closed spec fn child(t: Trie, d: int) -> Option<Box<Trie>> {
    if d == 0 {
        t.c0
    } else if d == 1 {
        t.c1
    } else if d == 2 {
        t.c2
    } else if d == 3 {
        t.c3
    } else if d == 4 {
        t.c4
    } else if d == 5 {
        t.c5
    } else if d == 6 {
        t.c6
    } else if d == 7 {
        t.c7
    } else if d == 8 {
        t.c8
    } else if d == 9 {
        t.c9
    } else {
        None
    }
}

/// Whether the digit string `key` is a stored path of the trie.
pub open spec fn has_path(t: Trie, key: Seq<usize>) -> bool
    decreases key.len(),
{
    if key.len() == 0 {
        true
    } else {
        match child(t, key[0] as int) {
            None => false,
            Some(sub) => has_path(*sub, key.drop_first()),
        }
    }
}

/// `s` is a prefix of `k`.
pub open spec fn is_prefix(s: Seq<usize>, k: Seq<usize>) -> bool {
    s.len() <= k.len() && s == k.subrange(0, s.len() as int)
}

/// Every entry of `key` from position `i` on is a decimal digit.
pub open spec fn digits_from(key: Seq<usize>, i: int) -> bool {
    forall|j: int| i <= j < key.len() ==> key[j] < 10
}

/// Replace the child of `t` at digit `d`.
fn set_child(t: Trie, d: usize, c: Option<Box<Trie>>) -> (r: Trie)
    requires
        d < 10,
    ensures
        child(r, d as int) == c,
        forall|e: int| 0 <= e <= 9 && e != d ==> child(r, e) == child(t, e),
{
    let mut r = t;
    if d == 0 {
        r.c0 = c;
    } else if d == 1 {
        r.c1 = c;
    } else if d == 2 {
        r.c2 = c;
    } else if d == 3 {
        r.c3 = c;
    } else if d == 4 {
        r.c4 = c;
    } else if d == 5 {
        r.c5 = c;
    } else if d == 6 {
        r.c6 = c;
    } else if d == 7 {
        r.c7 = c;
    } else if d == 8 {
        r.c8 = c;
    } else {
        r.c9 = c;
    }
    r
}

/// Move the child of `t` at digit `d` out, leaving absence behind.
fn take_child(t: Trie, d: usize) -> (r: (Trie, Option<Box<Trie>>))
    requires
        d < 10,
    ensures
        r.1 == child(t, d as int),
        child(r.0, d as int) is None,
        forall|e: int| 0 <= e <= 9 && e != d ==> child(r.0, e) == child(t, e),
{
    let mut r = t;
    let c = if d == 0 {
        r.c0.take()
    } else if d == 1 {
        r.c1.take()
    } else if d == 2 {
        r.c2.take()
    } else if d == 3 {
        r.c3.take()
    } else if d == 4 {
        r.c4.take()
    } else if d == 5 {
        r.c5.take()
    } else if d == 6 {
        r.c6.take()
    } else if d == 7 {
        r.c7.take()
    } else if d == 8 {
        r.c8.take()
    } else {
        r.c9.take()
    };
    (r, c)
}

impl Trie {
    /// A trie holding only the empty string.
    pub fn new() -> (r: Trie)
        ensures
            forall|s: Seq<usize>| has_path(r, s) == (s.len() == 0),
            forall|e: int| child(r, e) is None,
    {
        let r = Trie {
            c0: None,
            c1: None,
            c2: None,
            c3: None,
            c4: None,
            c5: None,
            c6: None,
            c7: None,
            c8: None,
            c9: None,
        };
        proof {
            assert forall|s: Seq<usize>| has_path(r, s) == (s.len() == 0) by {
                if s.len() > 0 {
                    assert(child(r, s[0] as int) is None);
                }
            }
        }
        r
    }

    /// A chain trie holding exactly the prefixes of `key`.
    pub fn from_iter(key: &[usize]) -> (r: Trie)
        requires
            digits_from(key@, 0),
        ensures
            forall|s: Seq<usize>| has_path(r, s) == is_prefix(s, key@),
    {
        let r = chain_from(key, 0);
        proof {
            assert(key@.skip(0) =~= key@);
        }
        r
    }

    /// Whether `key` is a stored path.  Every entry of `key` must be a
    /// decimal digit.
    pub fn contains(&self, key: &[usize]) -> (r: bool)
        requires
            digits_from(key@, 0),
        ensures
            r == has_path(*self, key@),
    {
        let n = key.len();
        let mut t: &Trie = self;
        let mut i: usize = 0;
        proof {
            assert(key@.skip(0) =~= key@);
        }
        while i < n
            invariant
                i <= n,
                n == key@.len(),
                digits_from(key@, 0),
                has_path(*self, key@) == has_path(*t, key@.skip(i as int)),
            decreases n - i,
        {
            let d = key[i];
            let c = if d == 0 {
                &t.c0
            } else if d == 1 {
                &t.c1
            } else if d == 2 {
                &t.c2
            } else if d == 3 {
                &t.c3
            } else if d == 4 {
                &t.c4
            } else if d == 5 {
                &t.c5
            } else if d == 6 {
                &t.c6
            } else if d == 7 {
                &t.c7
            } else if d == 8 {
                &t.c8
            } else {
                &t.c9
            };
            proof {
                assert(*c == child(*t, d as int));
                assert(key@.skip(i as int).len() > 0);
                assert(key@.skip(i as int)[0] == key@[i as int]);
                assert(key@.skip(i as int).drop_first() =~= key@.skip(i + 1));
            }
            match c {
                None => {
                    return false;
                },
                Some(sub) => {
                    t = sub;
                },
            }
            i += 1;
        }
        proof {
            assert(key@.skip(n as int).len() == 0);
        }
        true
    }

    /// Add `key` as a stored path: afterwards the stored strings are the
    /// old ones together with every prefix of `key`.  Every entry of `key`
    /// must be a decimal digit.
    pub fn insert(&mut self, key: &[usize])
        requires
            digits_from(key@, 0),
        ensures
            forall|s: Seq<usize>|
                has_path(*final(self), s) == (has_path(*old(self), s) || is_prefix(s, key@)),
    {
        let mut tmp = Trie::new();
        core::mem::swap(self, &mut tmp);
        let r = insert_from(tmp, key, 0);
        *self = r;
        proof {
            assert(key@.skip(0) =~= key@);
        }
    }
}

/// A chain trie holding exactly the prefixes of `key` from position `i`.
fn chain_from(key: &[usize], i: usize) -> (r: Trie)
    requires
        i <= key@.len(),
        digits_from(key@, i as int),
    ensures
        forall|s: Seq<usize>| has_path(r, s) == is_prefix(s, key@.skip(i as int)),
    decreases key@.len() - i,
{
    if i == key.len() {
        let r = Trie::new();
        proof {
            assert forall|s: Seq<usize>|
                has_path(r, s) == is_prefix(s, key@.skip(i as int)) by {
                assert(key@.skip(i as int).len() == 0);
                if s.len() == 0 {
                    assert(s =~= key@.skip(i as int).subrange(0, 0));
                }
            }
        }
        r
    } else {
        let d = key[i];
        let sub = chain_from(key, i + 1);
        let r = set_child(Trie::new(), d, Some(Box::new(sub)));
        proof {
            let tail = key@.skip(i as int);
            assert(tail.len() > 0);
            assert(tail[0] == key@[i as int]);
            assert(tail.drop_first() =~= key@.skip(i + 1));
            assert forall|s: Seq<usize>| has_path(r, s) == is_prefix(s, tail) by {
                if s.len() == 0 {
                    assert(s =~= tail.subrange(0, 0));
                } else if s[0] == d {
                    assert(child(r, s[0] as int) == child(r, d as int));
                    assert(has_path(r, s) == has_path(sub, s.drop_first()));
                    if is_prefix(s.drop_first(), tail.drop_first()) {
                        assert(s =~= seq![s[0]] + s.drop_first());
                        assert(is_prefix(s, tail) == (s == tail.subrange(0, s.len() as int)));
                        assert(tail.subrange(0, s.len() as int) =~= seq![tail[0]]
                            + tail.drop_first().subrange(0, s.len() - 1));
                        assert(s =~= tail.subrange(0, s.len() as int));
                    }
                    if is_prefix(s, tail) {
                        assert(s.drop_first() =~= tail.subrange(0, s.len() as int).drop_first());
                        assert(tail.subrange(0, s.len() as int).drop_first() =~= tail.drop_first()
                            .subrange(0, s.len() - 1));
                    }
                } else {
                    assert(child(r, s[0] as int) is None);
                    if is_prefix(s, tail) {
                        assert(s[0] == tail.subrange(0, s.len() as int)[0]);
                        assert(false);
                    }
                }
            }
        }
        r
    }
}

/// Graft `key`'s suffix from position `i` into `t`: afterwards the stored
/// paths are the old ones plus the prefixes of that suffix.
fn insert_from(t: Trie, key: &[usize], i: usize) -> (r: Trie)
    requires
        i <= key@.len(),
        digits_from(key@, i as int),
    ensures
        forall|s: Seq<usize>|
            has_path(r, s) == (has_path(t, s) || is_prefix(s, key@.skip(i as int))),
    decreases key@.len() - i,
{
    if i == key.len() {
        proof {
            assert forall|s: Seq<usize>|
                has_path(t, s) == (has_path(t, s) || is_prefix(s, key@.skip(i as int))) by {
                if is_prefix(s, key@.skip(i as int)) {
                    assert(s.len() == 0);
                }
            }
        }
        t
    } else {
        let d = key[i];
        let (stripped, c) = take_child(t, d);
        let ghost t0 = t;
        let newc = match c {
            None => chain_from(key, i + 1),
            Some(sub) => insert_from(*sub, key, i + 1),
        };
        let r = set_child(stripped, d, Some(Box::new(newc)));
        proof {
            let tail = key@.skip(i as int);
            assert(tail.len() > 0);
            assert(tail[0] == key@[i as int]);
            assert(tail.drop_first() =~= key@.skip(i + 1));
            assert forall|s: Seq<usize>|
                has_path(r, s) == (has_path(t0, s) || is_prefix(s, tail)) by {
                if s.len() == 0 {
                    assert(s =~= tail.subrange(0, 0));
                } else if s[0] == d {
                    assert(child(r, s[0] as int) == child(r, d as int));
                    assert(has_path(r, s) == has_path(newc, s.drop_first()));
                    if c is Some {
                        assert(has_path(newc, s.drop_first()) == (has_path(*(c->0), s.drop_first())
                            || is_prefix(s.drop_first(), tail.drop_first())));
                    } else {
                        assert(has_path(newc, s.drop_first()) == is_prefix(s.drop_first(),
                            tail.drop_first()));
                        assert(!has_path(t0, s));
                    }
                    if is_prefix(s.drop_first(), tail.drop_first()) {
                        assert(s =~= seq![s[0]] + s.drop_first());
                        assert(tail.subrange(0, s.len() as int) =~= seq![tail[0]]
                            + tail.drop_first().subrange(0, s.len() - 1));
                        assert(s =~= tail.subrange(0, s.len() as int));
                        assert(is_prefix(s, tail));
                    }
                    if is_prefix(s, tail) {
                        assert(s.drop_first() =~= tail.subrange(0, s.len() as int).drop_first());
                        assert(tail.subrange(0, s.len() as int).drop_first() =~= tail.drop_first()
                            .subrange(0, s.len() - 1));
                        assert(is_prefix(s.drop_first(), tail.drop_first()));
                    }
                } else {
                    assert(child(r, s[0] as int) == child(t0, s[0] as int));
                    if is_prefix(s, tail) {
                        assert(s[0] == tail.subrange(0, s.len() as int)[0]);
                        assert(false);
                    }
                }
            }
        }
        r
    }
}

} // verus!
