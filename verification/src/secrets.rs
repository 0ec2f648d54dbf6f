//! The process-wide secret configuration: a set of named secrets loaded once
//! at startup and read-only thereafter. A missing secret is a startup
//! misconfiguration; callers must refuse to serve traffic rather than fail
//! per-request.

use vstd::prelude::*;

verus! {

/// One named secret.
pub struct SecretEntry {
    pub name: String,
    pub value: String,
}

/// The first value stored under `key`, if any.
pub open spec fn lookup(entries: Seq<SecretEntry>, key: Seq<char>) -> Option<Seq<char>>
    decreases entries.len(),
{
    if entries.len() == 0 {
        None
    } else if entries[0].name@ == key {
        Some(entries[0].value@)
    } else {
        lookup(entries.skip(1), key)
    }
}

/// An immutable store of named secrets, built once at startup.
pub struct Secrets {
    entries: Vec<SecretEntry>,
}

impl Secrets {
    /// The value this store holds under `key`, if any.
    pub closed spec fn spec_lookup(&self, key: Seq<char>) -> Option<Seq<char>> {
        lookup(self.entries@, key)
    }

    /// An empty store.
    pub fn new() -> (s: Self)
        ensures
            forall|k: Seq<char>| s.spec_lookup(k) is None,
    {
        let s = Secrets { entries: Vec::new() };
        proof {
            assert forall|k: Seq<char>| s.spec_lookup(k) is None by {
                assert(s.entries@.len() == 0);
            }
        }
        s
    }

    /// Adds a secret; a name added later shadows an earlier one.
    pub fn insert(&mut self, name: String, value: String)
        ensures
            forall|k: Seq<char>| final(self).spec_lookup(k) == if k == name@ {
                Some(value@)
            } else {
                old(self).spec_lookup(k)
            },
    {
        let ghost pre = self.entries@;
        let ghost n = name@;
        let ghost v = value@;
        self.entries.insert(0, SecretEntry { name, value });
        proof {
            assert forall|k: Seq<char>| self.spec_lookup(k) == (if k == n {
                Some(v)
            } else {
                lookup(pre, k)
            }) by {
                assert(self.entries@[0].name@ == n);
                assert(self.entries@[0].value@ == v);
                assert(self.entries@.skip(1) =~= pre);
            }
        }
    }

    /// Returns the secret stored under `key`, or `None` when the store was
    /// initialized without it.
    pub fn get_secret(&self, key: &str) -> (r: Option<String>)
        ensures
            r is Some <==> self.spec_lookup(key@) is Some,
            r matches Some(v) ==> Some(v@) == self.spec_lookup(key@),
    {
        let needle = key.to_owned();
        let n = self.entries.len();
        let mut i: usize = 0;
        while i < n
            invariant
                i <= n,
                n == self.entries@.len(),
                needle@ == key@,
                forall|q: int| 0 <= q < i ==> (#[trigger] self.entries@[q].name)@ != key@,
            decreases n - i,
        {
            proof {
                lemma_lookup_after_misses(self.entries@, key@, i as int);
            }
            if self.entries[i].name == needle {
                return Some(self.entries[i].value.clone());
            }
            i = i + 1;
        }
        proof {
            lemma_lookup_after_misses(self.entries@, key@, n as int);
            assert(self.entries@.skip(n as int) =~= Seq::<SecretEntry>::empty());
        }
        None
    }
}

/// Entries that do not match the key do not change a lookup.
proof fn lemma_lookup_after_misses(entries: Seq<SecretEntry>, key: Seq<char>, i: int)
    requires
        0 <= i <= entries.len(),
        forall|q: int| 0 <= q < i ==> (#[trigger] entries[q].name)@ != key,
    ensures
        lookup(entries, key) == lookup(entries.skip(i), key),
    decreases i,
{
    if i > 0 {
        assert(entries[0].name@ != key);
        assert forall|q: int| 0 <= q < i - 1 implies (#[trigger] entries.skip(1)[q].name)@
            != key by {
            assert(entries.skip(1)[q] == entries[q + 1]);
        }
        lemma_lookup_after_misses(entries.skip(1), key, i - 1);
        assert(entries.skip(1).skip(i - 1) =~= entries.skip(i));
    } else {
        assert(entries.skip(0) =~= entries);
    }
}

/// Builds the process secret store from entries loaded at startup; the first
/// entry with a given name wins.
pub fn initialize_secrets(entries: Vec<SecretEntry>) -> (s: Secrets)
    ensures
        forall|k: Seq<char>| s.spec_lookup(k) == lookup(entries@, k),
{
    let s = Secrets { entries };
    s
}

} // verus!
