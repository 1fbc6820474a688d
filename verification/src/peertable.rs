//! The peer directory: a one-shot-insert mapping from public key to network
//! address. A key, once present, is terminal: a repeat insert is rejected
//! and the first address is preserved.

use vstd::prelude::*;

verus! {

/// The error of a failed insert: the key is already present.
#[derive(Clone, Copy, Debug, PartialEq, Eq, Structural)]
pub enum PeerError {
    AlreadyExists,
}

/// Some entry carries the key `k`.
pub open spec fn pt_has_key(s: Seq<(Seq<char>, Seq<char>)>, k: Seq<char>) -> bool {
    exists|i: int| 0 <= i < s.len() && (#[trigger] s[i]).0 == k
}

/// No two entries share a key.
pub open spec fn pt_keys_unique(s: Seq<(Seq<char>, Seq<char>)>) -> bool {
    forall|i: int, j: int| 0 <= i < j < s.len() ==> (#[trigger] s[i]).0 != (#[trigger] s[j]).0
}

/// The views of a sequence of directory entries.
pub open spec fn pt_views_of(s: Seq<(String, String)>) -> Seq<(Seq<char>, Seq<char>)> {
    s.map_values(|e: (String, String)| (e.0@, e.1@))
}

/// The peer directory. Its view is the sequence of `(key, address)` pairs
/// in insertion order; well-formedness keeps the keys unique, so each key
/// determines its address.
pub struct PeerTable {
    entries: Vec<(String, String)>,
}

impl View for PeerTable {
    type V = Seq<(Seq<char>, Seq<char>)>;

    closed spec fn view(&self) -> Seq<(Seq<char>, Seq<char>)> {
        pt_views_of(self.entries@)
    }
}

impl PeerTable {
    /// Keys are unique.
    pub open spec fn wf(self) -> bool {
        pt_keys_unique(self@)
    }

    /// An empty directory.
    pub fn new() -> (t: PeerTable)
        ensures
            t.wf(),
            t@ =~= Seq::<(Seq<char>, Seq<char>)>::empty(),
    {
        let t = PeerTable { entries: Vec::new() };
        proof {
            assert(t@ =~= Seq::<(Seq<char>, Seq<char>)>::empty());
        }
        t
    }

    /// Inserts `public_key -> ip` only if the key is absent; a present key
    /// is rejected with `AlreadyExists` and nothing changes.
    pub fn add_peer(&mut self, public_key: String, ip: String) -> (r: Result<(), PeerError>)
        requires
            old(self).wf(),
        ensures
            final(self).wf(),
            pt_has_key(old(self)@, public_key@) ==> r == Err::<(), PeerError>(
                PeerError::AlreadyExists,
            ) && final(self)@ == old(self)@,
            !pt_has_key(old(self)@, public_key@) ==> r == Ok::<(), PeerError>(()) && final(self)@
                =~= old(self)@.push((public_key@, ip@)),
    {
        if self.contains_key(&public_key) {
            return Err(PeerError::AlreadyExists);
        }
        let ghost s0 = self@;
        let ghost k = public_key@;
        let ghost v = ip@;
        self.entries.push((public_key, ip));
        proof {
            assert(self@ =~= s0.push((k, v)));
            lemma_add_peer_exactly_once(s0, k, v);
        }
        Ok(())
    }

    /// Looks the key up; pure.
    pub fn get_peer(&self, public_key: String) -> (r: Option<String>)
        requires
            self.wf(),
        ensures
            r is Some <==> pt_has_key(self@, public_key@),
            r matches Some(ip) ==> exists|i: int|
                0 <= i < self@.len() && #[trigger] self@[i] == (public_key@, ip@),
    {
        let mut i: usize = 0;
        while i < self.entries.len()
            invariant
                0 <= i <= self.entries.len(),
                self@.len() == self.entries@.len(),
                forall|j: int| 0 <= j < i ==> (#[trigger] self@[j]).0 != public_key@,
                forall|j: int|
                    0 <= j < self@.len() ==> #[trigger] self@[j] == (
                        self.entries@[j].0@,
                        self.entries@[j].1@,
                    ),
            decreases self.entries.len() - i,
        {
            if self.entries[i].0 == public_key {
                proof {
                    assert(self@[i as int].0 == public_key@);
                }
                let ip = self.entries[i].1.clone();
                proof {
                    assert(self@[i as int] == (public_key@, ip@));
                }
                return Some(ip);
            }
            i = i + 1;
        }
        None
    }

    /// An independent copy of the directory.
    pub fn clone(&self) -> (t: PeerTable)
        ensures
            t@ == self@,
    {
        let mut entries: Vec<(String, String)> = Vec::new();
        let mut i: usize = 0;
        while i < self.entries.len()
            invariant
                0 <= i <= self.entries.len(),
                pt_views_of(entries@) =~= self@.take(i as int),
                self@.len() == self.entries@.len(),
                forall|j: int|
                    0 <= j < self@.len() ==> #[trigger] self@[j] == (
                        self.entries@[j].0@,
                        self.entries@[j].1@,
                    ),
            decreases self.entries.len() - i,
        {
            let ghost e0 = entries@;
            let k = self.entries[i].0.clone();
            let v = self.entries[i].1.clone();
            let ghost kv = (k@, v@);
            entries.push((k, v));
            proof {
                assert(kv == self@[i as int]);
                assert(pt_views_of(entries@) =~= pt_views_of(e0).push(kv));
                assert(self@.take(i as int + 1) =~= self@.take(i as int).push(self@[i as int]));
                assert(pt_views_of(entries@) =~= self@.take(i as int + 1));
            }
            i = i + 1;
        }
        let t = PeerTable { entries };
        proof {
            assert(self@.take(self@.len() as int) =~= self@);
            assert(t@ =~= self@);
        }
        t
    }

    fn contains_key(&self, public_key: &String) -> (r: bool)
        ensures
            r == pt_has_key(self@, public_key@),
    {
        let mut i: usize = 0;
        while i < self.entries.len()
            invariant
                0 <= i <= self.entries.len(),
                self@.len() == self.entries@.len(),
                forall|j: int| 0 <= j < i ==> (#[trigger] self@[j]).0 != public_key@,
                forall|j: int|
                    0 <= j < self@.len() ==> #[trigger] self@[j] == (
                        self.entries@[j].0@,
                        self.entries@[j].1@,
                    ),
            decreases self.entries.len() - i,
        {
            if self.entries[i].0 == *public_key {
                proof {
                    assert(self@[i as int].0 == public_key@);
                }
                return true;
            }
            i = i + 1;
        }
        false
    }
}

/// Inserts are exactly once per key: after a first successful insert of
/// `k -> ip` the key is present — so by `add_peer`'s contract a second
/// insert of `k` is refused and changes nothing — the keys stay unique,
/// and every entry for `k` still carries the first address `ip`.
pub proof fn lemma_add_peer_exactly_once(
    s: Seq<(Seq<char>, Seq<char>)>,
    k: Seq<char>,
    ip: Seq<char>,
)
    requires
        pt_keys_unique(s),
        !pt_has_key(s, k),
    ensures
        pt_keys_unique(s.push((k, ip))),
        pt_has_key(s.push((k, ip)), k),
        forall|i: int|
            0 <= i < s.push((k, ip)).len() && (#[trigger] s.push((k, ip))[i]).0 == k ==> s.push(
                (k, ip),
            )[i].1 == ip,
{
    let s1 = s.push((k, ip));
    assert(s1[s.len() as int] == (k, ip));
    assert forall|i: int, j: int| 0 <= i < j < s1.len() implies (#[trigger] s1[i]).0 != (
    #[trigger] s1[j]).0 by {
        if j < s.len() {
            assert(s1[i] == s[i] && s1[j] == s[j]);
        } else {
            assert(s1[i] == s[i]);
            assert(s1[j] == (k, ip));
        }
    }
    assert forall|i: int| 0 <= i < s1.len() && (#[trigger] s1[i]).0 == k implies s1[i].1 == ip by {
        if i < s.len() {
            assert(s1[i] == s[i]);
        }
    }
}

} // verus!
