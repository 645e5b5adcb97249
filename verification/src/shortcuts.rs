//! Global-shortcut bookkeeping: the registry of configured shortcuts that
//! backs registration, lookup and removal.
//!
//! The platform shortcut manager performs the actual registration; callers
//! hand in what it reported (whether an accelerator is already taken) and
//! drive it with what is returned. The registry itself — one configuration
//! per shortcut identifier, keyed by the identifier's bytes — is verified.

use vstd::prelude::*;
use vstd::utf8::encode_utf8;
use crate::json::bytes_eq;

verus! {

/// One configured global shortcut.
#[derive(Debug, Clone)]
pub struct ShortcutConfig {
    pub id: String,
    pub accelerator: String,
    pub description: String,
    pub enabled: bool,
}

/// What a registration attempt reports.
#[derive(Debug, Clone)]
pub struct ShortcutRegistrationResult {
    pub success: bool,
    pub shortcut_id: String,
    /// On a collision, the accelerator that was already taken.
    pub error: Option<String>,
}

/// The identity of a configuration: its identifier's bytes.
pub open spec fn cfg_key(c: ShortcutConfig) -> Seq<u8> {
    encode_utf8(c.id@)
}

/// The first configuration with the given identifier, if any.
pub open spec fn lookup_cfg(s: Seq<ShortcutConfig>, k: Seq<u8>) -> Option<ShortcutConfig>
    decreases s.len(),
{
    if s.len() == 0 {
        None
    } else if cfg_key(s[0]) == k {
        Some(s[0])
    } else {
        lookup_cfg(s.skip(1), k)
    }
}

/// No two entries share an identifier.
pub open spec fn unique_ids(s: Seq<ShortcutConfig>) -> bool {
    forall|i: int, j: int| 0 <= i < j < s.len() ==> cfg_key(s[i]) != cfg_key(s[j])
}

/// Looking past a prefix without the key changes nothing.
proof fn lemma_lookup_cfg_skip(s: Seq<ShortcutConfig>, k: Seq<u8>, i: int)
    requires
        0 <= i <= s.len(),
        forall|j: int| 0 <= j < i ==> cfg_key(#[trigger] s[j]) != k,
    ensures
        lookup_cfg(s, k) == lookup_cfg(s.skip(i), k),
    decreases i,
{
    if i > 0 {
        lemma_lookup_cfg_skip(s, k, i - 1);
        assert(s.skip(i - 1).skip(1) =~= s.skip(i));
        assert(s.skip(i - 1)[0] == s[i - 1]);
        assert(cfg_key(s.skip(i - 1)[0]) != k);
        assert(lookup_cfg(s.skip(i - 1), k) == lookup_cfg(s.skip(i - 1).skip(1), k));
    } else {
        assert(s.skip(0) =~= s);
    }
}

/// What replacing the entry at the key's position does to lookups.
proof fn lemma_lookup_cfg_update(s: Seq<ShortcutConfig>, i: int, c: ShortcutConfig, k: Seq<u8>)
    requires
        0 <= i < s.len(),
        forall|j: int| 0 <= j < i ==> cfg_key(#[trigger] s[j]) != cfg_key(c),
        cfg_key(s[i]) == cfg_key(c),
    ensures
        lookup_cfg(s.update(i, c), cfg_key(c)) == Some(c),
        k != cfg_key(c) && !(forall|j: int| 0 <= j < i ==> cfg_key(#[trigger] s[j]) != k)
            ==> lookup_cfg(s.update(i, c), k) == lookup_cfg(s, k),
        k != cfg_key(c) ==> lookup_cfg(s.update(i, c), k) == lookup_cfg(s, k),
    decreases s.len(),
{
    if i == 0 {
        assert(s.update(0, c)[0] == c);
        assert(s.update(0, c).skip(1) =~= s.skip(1));
    } else {
        assert(s.update(i, c)[0] == s[0]);
        assert(s.update(i, c).skip(1) =~= s.skip(1).update(i - 1, c));
        assert(forall|j: int| 0 <= j < i - 1 ==> cfg_key(#[trigger] s.skip(1)[j]) != cfg_key(c));
        lemma_lookup_cfg_update(s.skip(1), i - 1, c, k);
    }
}

/// What appending a fresh entry does to lookups.
proof fn lemma_lookup_cfg_push(s: Seq<ShortcutConfig>, c: ShortcutConfig, k: Seq<u8>)
    requires
        forall|j: int| 0 <= j < s.len() ==> cfg_key(#[trigger] s[j]) != cfg_key(c),
    ensures
        lookup_cfg(s.push(c), cfg_key(c)) == Some(c),
        k != cfg_key(c) ==> lookup_cfg(s.push(c), k) == lookup_cfg(s, k),
    decreases s.len(),
{
    if s.len() == 0 {
        assert(s.push(c)[0] == c);
        assert(s.push(c).skip(1) =~= Seq::<ShortcutConfig>::empty());
        assert(lookup_cfg(s.push(c), cfg_key(c)) == Some(c));
        if k != cfg_key(c) {
            assert(lookup_cfg(s.push(c), k) == lookup_cfg(s.push(c).skip(1), k));
            assert(lookup_cfg(Seq::<ShortcutConfig>::empty(), k) is None);
        }
    } else {
        assert(s.push(c)[0] == s[0]);
        assert(s.push(c).skip(1) =~= s.skip(1).push(c));
        lemma_lookup_cfg_push(s.skip(1), c, k);
        lemma_lookup_cfg_push(s.skip(1), c, cfg_key(c));
        assert(cfg_key(s[0]) != cfg_key(c));
        if cfg_key(s[0]) != k {
            assert(lookup_cfg(s.push(c), k) == lookup_cfg(s.skip(1).push(c), k));
            assert(lookup_cfg(s, k) == lookup_cfg(s.skip(1), k));
        }
    }
}

/// What removing the key's entry does to lookups.
proof fn lemma_lookup_cfg_remove(s: Seq<ShortcutConfig>, i: int, k: Seq<u8>)
    requires
        0 <= i < s.len(),
        unique_ids(s),
        forall|j: int| 0 <= j < i ==> cfg_key(#[trigger] s[j]) != cfg_key(s[i]),
    ensures
        lookup_cfg(s.remove(i), cfg_key(s[i])) is None,
        k != cfg_key(s[i]) ==> lookup_cfg(s.remove(i), k) == lookup_cfg(s, k),
    decreases s.len(),
{
    if i == 0 {
        assert(s.remove(0) =~= s.skip(1));
        lemma_lookup_cfg_none(s.skip(1), cfg_key(s[0]));
    } else {
        assert(s.remove(i)[0] == s[0]);
        assert(s.remove(i).skip(1) =~= s.skip(1).remove(i - 1));
        assert(forall|j: int| 0 <= j < i - 1 ==> cfg_key(#[trigger] s.skip(1)[j]) != cfg_key(
            s.skip(1)[i - 1],
        ));
        assert(unique_ids(s.skip(1))) by {
            assert(forall|a: int, b: int|
                0 <= a < b < s.skip(1).len() ==> cfg_key(#[trigger] s.skip(1)[a]) != cfg_key(
                    #[trigger] s.skip(1)[b],
                ));
        }
        lemma_lookup_cfg_remove(s.skip(1), i - 1, k);
    }
}

/// Where no entry carries the key, lookup finds nothing.
proof fn lemma_lookup_cfg_none(s: Seq<ShortcutConfig>, k: Seq<u8>)
    requires
        forall|j: int| 0 <= j < s.len() ==> cfg_key(#[trigger] s[j]) != k,
    ensures
        lookup_cfg(s, k) is None,
    decreases s.len(),
{
    if s.len() > 0 {
        lemma_lookup_cfg_none(s.skip(1), k);
    }
}

/// The registry of configured shortcuts: at most one configuration per
/// identifier.
pub struct ShortcutState {
    pub shortcuts: Vec<ShortcutConfig>,
}

impl ShortcutState {
    /// One configuration per identifier.
    pub open spec fn wf(&self) -> bool {
        unique_ids(self.shortcuts@)
    }

    /// An empty registry.
    pub fn new() -> (r: ShortcutState)
        ensures
            r.wf(),
            r.shortcuts@.len() == 0,
    {
        ShortcutState { shortcuts: Vec::new() }
    }

    /// How many shortcuts are configured.
    pub fn count(&self) -> (n: usize)
        ensures
            n == self.shortcuts@.len(),
    {
        self.shortcuts.len()
    }

    /// The position of the identifier's entry, if any.
    fn find_index(&self, id: &str) -> (r: Option<usize>)
        ensures
            match r {
                Some(i) => {
                    &&& 0 <= i < self.shortcuts@.len()
                    &&& cfg_key(self.shortcuts@[i as int]) == encode_utf8(id@)
                    &&& forall|j: int| 0 <= j < i ==> cfg_key(#[trigger] self.shortcuts@[j])
                        != encode_utf8(id@)
                },
                None => forall|j: int| 0 <= j < self.shortcuts@.len() ==> cfg_key(
                    #[trigger] self.shortcuts@[j],
                ) != encode_utf8(id@),
            },
{
        let n = self.shortcuts.len();
        let mut i: usize = 0;
        while i < n
            invariant
                i <= n,
                n == self.shortcuts@.len(),
                forall|j: int| 0 <= j < i ==> cfg_key(#[trigger] self.shortcuts@[j])
                    != encode_utf8(id@),
            decreases n - i,
        {
            if bytes_eq(self.shortcuts[i].id.as_str().as_bytes(), id.as_bytes()) {
                return Some(i);
            }
            i = i + 1;
        }
        None
    }

    /// The configuration of the identifier, if any.
    pub fn get_shortcut(&self, id: &str) -> (r: Option<&ShortcutConfig>)
        ensures
            match r {
                Some(c) => lookup_cfg(self.shortcuts@, encode_utf8(id@)) == Some(*c),
                None => lookup_cfg(self.shortcuts@, encode_utf8(id@)) is None,
            },
    {
        match self.find_index(id) {
            Some(i) => {
                proof {
                    lemma_lookup_cfg_skip(self.shortcuts@, encode_utf8(id@), i as int);
                    assert(self.shortcuts@.skip(i as int)[0] == self.shortcuts@[i as int]);
                }
                Some(&self.shortcuts[i])
            },
            None => {
                proof {
                    lemma_lookup_cfg_none(self.shortcuts@, encode_utf8(id@));
                }
                None
            },
        }
    }

    /// Store a configuration under its identifier, replacing any previous
    /// one. Every other identifier keeps its configuration.
    pub fn put(&mut self, config: ShortcutConfig)
        requires
            old(self).wf(),
        ensures
            final(self).wf(),
            lookup_cfg(final(self).shortcuts@, cfg_key(config)) == Some(config),
            forall|k: Seq<u8>| k != cfg_key(config) ==> lookup_cfg(final(self).shortcuts@, k)
                == lookup_cfg(old(self).shortcuts@, k),
    {
        let n = self.shortcuts.len();
        let mut i: usize = 0;
        while i < n
            invariant
                i <= n,
                n == self.shortcuts@.len(),
                self.shortcuts@ == old(self).shortcuts@,
                unique_ids(old(self).shortcuts@),
                forall|j: int| 0 <= j < i ==> cfg_key(#[trigger] self.shortcuts@[j])
                    != encode_utf8(config.id@),
            decreases n - i,
        {
            if bytes_eq(self.shortcuts[i].id.as_str().as_bytes(), config.id.as_str().as_bytes()) {
                let ghost prev = old(self).shortcuts@;
                self.shortcuts.remove(i);
                self.shortcuts.insert(i, config);
                proof {
                    assert(self.shortcuts@ =~= prev.update(i as int, config));
                    lemma_lookup_cfg_update(prev, i as int, config, cfg_key(config));
                    assert forall|k: Seq<u8>| k != cfg_key(config) implies lookup_cfg(
                        self.shortcuts@,
                        k,
                    ) == lookup_cfg(prev, k) by {
                        lemma_lookup_cfg_update(prev, i as int, config, k);
                    }
                    assert forall|a: int, b: int|
                        0 <= a < b < self.shortcuts@.len() implies cfg_key(
                        #[trigger] self.shortcuts@[a],
                    ) != cfg_key(#[trigger] self.shortcuts@[b]) by {
                        if a != i && b != i {
                            assert(self.shortcuts@[a] == prev[a]);
                            assert(self.shortcuts@[b] == prev[b]);
                        } else if a == i {
                            assert(self.shortcuts@[b] == prev[b]);
                            assert(cfg_key(prev[a]) != cfg_key(prev[b]));
                        } else {
                            assert(self.shortcuts@[a] == prev[a]);
                            assert(cfg_key(prev[a]) != cfg_key(prev[b]));
                        }
                    }
                }
                return ;
            }
            i = i + 1;
        }
        let ghost prev = old(self).shortcuts@;
        self.shortcuts.push(config);
        proof {
            lemma_lookup_cfg_push(prev, config, cfg_key(config));
            assert forall|k: Seq<u8>| k != cfg_key(config) implies lookup_cfg(
                self.shortcuts@,
                k,
            ) == lookup_cfg(prev, k) by {
                lemma_lookup_cfg_push(prev, config, k);
            }
            assert forall|a: int, b: int|
                0 <= a < b < self.shortcuts@.len() implies cfg_key(#[trigger] self.shortcuts@[a])
                != cfg_key(#[trigger] self.shortcuts@[b]) by {
                if b < prev.len() {
                    assert(self.shortcuts@[a] == prev[a]);
                    assert(self.shortcuts@[b] == prev[b]);
                } else {
                    assert(self.shortcuts@[a] == prev[a]);
                    assert(self.shortcuts@[b] == config);
                }
            }
        }
    }

    /// Remove and return the identifier's configuration; every other
    /// identifier keeps its own.
    pub fn take(&mut self, id: &str) -> (r: Option<ShortcutConfig>)
        requires
            old(self).wf(),
        ensures
            final(self).wf(),
            match r {
                Some(c) => {
                    &&& lookup_cfg(old(self).shortcuts@, encode_utf8(id@)) == Some(c)
                    &&& lookup_cfg(final(self).shortcuts@, encode_utf8(id@)) is None
                },
                None => {
                    &&& lookup_cfg(old(self).shortcuts@, encode_utf8(id@)) is None
                    &&& final(self).shortcuts@ == old(self).shortcuts@
                },
            },
            forall|k: Seq<u8>| k != encode_utf8(id@) ==> lookup_cfg(final(self).shortcuts@, k)
                == lookup_cfg(old(self).shortcuts@, k),
    {
        let ghost prev = self.shortcuts@;
        match self.find_index(id) {
            Some(i) => {
                proof {
                    lemma_lookup_cfg_skip(prev, encode_utf8(id@), i as int);
                    assert(prev.skip(i as int)[0] == prev[i as int]);
                }
                let c = self.shortcuts.remove(i);
                proof {
                    lemma_lookup_cfg_remove(prev, i as int, encode_utf8(id@));
                    assert forall|k: Seq<u8>| k != encode_utf8(id@) implies lookup_cfg(
                        self.shortcuts@,
                        k,
                    ) == lookup_cfg(prev, k) by {
                        lemma_lookup_cfg_remove(prev, i as int, k);
                    }
                    assert forall|a: int, b: int|
                        0 <= a < b < self.shortcuts@.len() implies cfg_key(
                        #[trigger] self.shortcuts@[a],
                    ) != cfg_key(#[trigger] self.shortcuts@[b]) by {
                        if a < i && b < i {
                            assert(self.shortcuts@[a] == prev[a]);
                            assert(self.shortcuts@[b] == prev[b]);
                        } else if a < i {
                            assert(self.shortcuts@[a] == prev[a]);
                            assert(self.shortcuts@[b] == prev[b + 1]);
                        } else {
                            assert(self.shortcuts@[a] == prev[a + 1]);
                            assert(self.shortcuts@[b] == prev[b + 1]);
                        }
                    }
                }
                Some(c)
            },
            None => {
                proof {
                    lemma_lookup_cfg_none(prev, encode_utf8(id@));
                }
                None
            },
        }
    }

    /// Forget every shortcut at once.
    pub fn clear_all(&mut self) -> (n: usize)
        ensures
            n == old(self).shortcuts@.len(),
            final(self).shortcuts@.len() == 0,
            final(self).wf(),
    {
        let n = self.shortcuts.len();
        self.shortcuts.clear();
        n
    }

    /// Attempt a registration: where the platform manager reports the
    /// accelerator as already taken, nothing changes and the attempt fails
    /// naming that accelerator; otherwise the configuration is stored under
    /// the identifier, enabled.
    pub fn register_shortcut(
        &mut self,
        manager_says_taken: bool,
        id: String,
        accelerator: String,
        description: String,
    ) -> (r: ShortcutRegistrationResult)
        requires
            old(self).wf(),
        ensures
            final(self).wf(),
            r.shortcut_id@ == id@,
            manager_says_taken ==> {
                &&& !r.success
                &&& r.error matches Some(a) && a@ == accelerator@
                &&& final(self).shortcuts@ == old(self).shortcuts@
            },
            !manager_says_taken ==> {
                &&& r.success
                &&& r.error is None
                &&& lookup_cfg(final(self).shortcuts@, encode_utf8(id@)) matches Some(c)
                    && c.id@ == id@ && c.accelerator@ == accelerator@ && c.enabled
                &&& forall|k: Seq<u8>| k != encode_utf8(id@) ==> lookup_cfg(
                    final(self).shortcuts@,
                    k,
                ) == lookup_cfg(old(self).shortcuts@, k)
            },
    {
        if manager_says_taken {
            return ShortcutRegistrationResult {
                success: false,
                shortcut_id: id,
                error: Some(accelerator),
            };
        }
        let id_copy = copy_string(&id);
        let config = ShortcutConfig { id, accelerator, description, enabled: true };
        proof {
            assert(cfg_key(config) == encode_utf8(config.id@));
        }
        self.put(config);
        ShortcutRegistrationResult { success: true, shortcut_id: id_copy, error: None }
    }
}

/// A fresh copy of a string, equal in content.
fn copy_string(s: &String) -> (r: String)
    ensures
        r@ == s@,
{
    s.clone()
}

} // verus!
