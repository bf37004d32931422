use vstd::prelude::*;
use crate::shard_map::{
    imap_get_index, imap_get_index_of, imap_insert, imap_len, imap_new, imap_pairs,
    imap_shift_remove, shard_entries,
};
use crate::types::{token_clone, token_eq, Addr};

verus! {

/// Repeated `get_addr` calls closer together than this advance the
/// round-robin cursor; sparser calls keep it still.
pub const QUIESCENCE_MS: u64 = 100;

/// Per-session map from shard identifier to the shard's last-known physical
/// address, with a rotation cursor for staleness-aware round-robin selection
/// and the time of the previous selection. Times are monotone clock
/// readings in milliseconds, supplied by the caller.
pub struct ShardedAddrs {
    map: indexmap::IndexMap<u8, Addr>,
    index: usize,
    last_time_ms: u64,
}

impl ShardedAddrs {
    /// The (shard id, address) pairs, in insertion order.
    pub closed spec fn entries(self) -> Seq<(u8, Addr)> {
        shard_entries(self.map)
    }

    /// The rotation cursor: the slot the previous selection came from.
    pub closed spec fn cursor(self) -> usize {
        self.index
    }

    /// When the previous selection was made.
    pub closed spec fn last_time(self) -> u64 {
        self.last_time_ms
    }

    /// Whether shard `k` has a binding.
    pub open spec fn has_shard(self, k: u8) -> bool {
        exists|j: int| 0 <= j < self.entries().len() && self.entries()[j].0 == k
    }

    /// At most one binding per shard id, and the cursor stays inside the map
    /// (at zero while the map is empty).
    pub open spec fn wf(self) -> bool {
        &&& forall|i: int, j: int|
            0 <= i < j < self.entries().len() ==> self.entries()[i].0 != self.entries()[j].0
        &&& self.entries().len() == 0 ==> self.cursor() == 0
        &&& self.entries().len() > 0 ==> self.cursor() < self.entries().len()
    }

    /// Seeds the map with one shard binding; the cursor starts on it.
    pub fn new(initial_shard: u8, initial_addr: Addr, now_ms: u64) -> (r: ShardedAddrs)
        ensures
            r.entries() =~= seq![(initial_shard, initial_addr)],
            r.cursor() == 0,
            r.last_time() == now_ms,
            r.wf(),
    {
        let mut map = imap_new();
        let _ = imap_insert(&mut map, initial_shard, initial_addr);
        ShardedAddrs { map, index: 0, last_time_ms: now_ms }
    }

    /// Selects an address. Within the quiescence window of the previous
    /// call the cursor first advances one slot (wrapping), spreading rapid
    /// repeated selections across the known paths in insertion order; once
    /// the window has elapsed the cursor stays put, so sparse callers get
    /// the same stable choice as last time.
    pub fn get_addr(&mut self, now_ms: u64) -> (r: Addr)
        requires
            old(self).wf(),
            old(self).entries().len() > 0,
            now_ms >= old(self).last_time(),
        ensures
            final(self).wf(),
            final(self).entries() == old(self).entries(),
            final(self).last_time() == now_ms,
            now_ms - old(self).last_time() > QUIESCENCE_MS ==> {
                &&& final(self).cursor() == old(self).cursor()
                &&& r == old(self).entries()[old(self).cursor() as int].1
            },
            now_ms - old(self).last_time() <= QUIESCENCE_MS ==> {
                &&& final(self).cursor() == (old(self).cursor() + 1) % (old(self).entries().len() as int)
                &&& r == old(self).entries()[final(self).cursor() as int].1
            },
    {
        let len = imap_len(&self.map);
        if now_ms - self.last_time_ms > QUIESCENCE_MS {
            self.last_time_ms = now_ms;
            match imap_get_index(&self.map, self.index) {
                Some(pair) => pair.1,
                None => {
                    proof {
                        assert(false);
                    }
                    Addr { host: 0, port: 0 }
                },
            }
        } else {
            self.last_time_ms = now_ms;
            self.index = (self.index + 1) % len;
            match imap_get_index(&self.map, self.index) {
                Some(pair) => pair.1,
                None => {
                    proof {
                        assert(false);
                    }
                    Addr { host: 0, port: 0 }
                },
            }
        }
    }

    /// Binds `shard` to `addr`: an existing binding for `shard` is replaced
    /// in place (its old address is returned), a new shard is appended; the
    /// cursor moves to the bound shard's slot.
    pub fn bind(&mut self, shard: u8, addr: Addr) -> (prev: Option<Addr>)
        requires
            old(self).wf(),
        ensures
            final(self).wf(),
            final(self).last_time() == old(self).last_time(),
            !old(self).has_shard(shard) ==> {
                &&& final(self).entries() == old(self).entries().push((shard, addr))
                &&& prev is None
            },
            forall|i: int|
                0 <= i < old(self).entries().len() && old(self).entries()[i].0 == shard ==> {
                    &&& final(self).entries() == old(self).entries().update(i, (shard, addr))
                    &&& prev == Some(old(self).entries()[i].1)
                },
            final(self).cursor() < final(self).entries().len(),
            final(self).entries()[final(self).cursor() as int] == (shard, addr),
    {
        let prev = imap_insert(&mut self.map, shard, addr);
        let idx = match imap_get_index_of(&self.map, shard) {
            Some(i) => i,
            None => {
                proof {
                    if old(self).has_shard(shard) {
                        let i = choose|i: int|
                            0 <= i < old(self).entries().len() && old(self).entries()[i].0
                                == shard;
                        assert(shard_entries(self.map) == shard_entries(old(self).map).update(
                            i,
                            (shard, addr),
                        ));
                        assert(shard_entries(self.map)[i].0 == shard);
                    } else {
                        let n = old(self).entries().len() as int;
                        assert(shard_entries(self.map)[n].0 == shard);
                    }
                    assert(false);
                }
                0
            },
        };
        self.index = idx;
        proof {
            if old(self).has_shard(shard) {
                let i = choose|i: int|
                    0 <= i < old(self).entries().len() && old(self).entries()[i].0 == shard;
                assert(self.entries() == old(self).entries().update(i, (shard, addr)));
                assert(self.entries()[idx as int].0 == shard);
                assert(idx == i);
            }
        }
        prev
    }

    /// Removes shard `k`'s binding, if any, shifting later pairs down; the
    /// cursor is re-derived modulo the new size.
    pub fn remove_shard(&mut self, k: u8) -> (prev: Option<Addr>)
        requires
            old(self).wf(),
        ensures
            final(self).wf(),
            final(self).last_time() == old(self).last_time(),
            !old(self).has_shard(k) ==> final(self).entries() == old(self).entries() && prev
                is None && final(self).cursor() == old(self).cursor(),
            forall|i: int|
                0 <= i < old(self).entries().len() && old(self).entries()[i].0 == k ==> {
                    &&& final(self).entries() == old(self).entries().remove(i)
                    &&& prev == Some(old(self).entries()[i].1)
                },
    {
        let prev = imap_shift_remove(&mut self.map, k);
        proof {
            if old(self).has_shard(k) {
                let i = choose|i: int|
                    0 <= i < old(self).entries().len() && old(self).entries()[i].0 == k;
                assert(shard_entries(self.map) == shard_entries(old(self).map).remove(i));
                old(self).entries().remove_ensures(i);
            }
        }
        if prev.is_some() {
            let len = imap_len(&self.map);
            if len == 0 {
                self.index = 0;
            } else {
                let j = self.index % len;
                proof {
                    assert(j < len) by (nonlinear_arith)
                        requires
                            len > 0,
                            j == (self.index as int) % (len as int),
                    ;
                }
                self.index = j;
            }
        }
        prev
    }

    /// The bindings as a vector of (shard id, address) pairs, in insertion
    /// order.
    pub fn pairs(&self) -> (v: Vec<(u8, Addr)>)
        ensures
            v@ == self.entries(),
    {
        imap_pairs(&self.map)
    }
}

} // verus!

verus! {

/// Whether some pair in `s` has key `k`.
pub open spec fn seq_has_key(s: Seq<(u8, Addr)>, k: u8) -> bool {
    exists|j: int| 0 <= j < s.len() && s[j].0 == k
}

/// The address key `k` is bound to in `s`, if any.
pub open spec fn key_addr(s: Seq<(u8, Addr)>, k: u8) -> Option<Addr> {
    if seq_has_key(s, k) {
        Some(s[choose|j: int| 0 <= j < s.len() && s[j].0 == k].1)
    } else {
        None
    }
}

/// With pairwise-distinct keys, the pair at any position is what `key_addr`
/// returns for its key.
pub proof fn lemma_key_addr_at(s: Seq<(u8, Addr)>, j: int)
    requires
        forall|a: int, b: int| 0 <= a < b < s.len() ==> s[a].0 != s[b].0,
        0 <= j < s.len(),
    ensures
        key_addr(s, s[j].0) == Some(s[j].1),
{
    assert(seq_has_key(s, s[j].0));
    let j2 = choose|i: int| 0 <= i < s.len() && s[i].0 == s[j].0;
    if j2 < j {
        assert(s[j2].0 != s[j].0);
    } else if j2 > j {
        assert(s[j].0 != s[j2].0);
    }
}

/// One session's registration: its resumption token, its opaque session
/// handle, and its per-shard address map.
struct SessEntry<S> {
    token: Vec<u8>,
    session: S,
    addrs: ShardedAddrs,
}

/// Server-side registry routing inbound datagrams to sessions: a forward
/// table from resumption token to (session, per-shard addresses), and a
/// reverse index from physical address to token. The two are kept exactly
/// consistent: the reverse index holds precisely the addresses bound in
/// some live session's shard map, each under its owning token.
pub struct SessionTable<S> {
    sessions: Vec<SessEntry<S>>,
    addr_index: Vec<(Addr, Vec<u8>)>,
}

impl<S> SessionTable<S> {
    /// How many sessions are live.
    pub closed spec fn n_sessions(self) -> int {
        self.sessions.len() as int
    }

    /// The token of the session at a position.
    pub closed spec fn token_at(self, i: int) -> Seq<u8> {
        self.sessions[i].token@
    }

    /// The session handle at a position.
    pub closed spec fn session_at(self, i: int) -> S {
        self.sessions[i].session
    }

    /// The shard map at a position.
    pub closed spec fn sharded_at(self, i: int) -> ShardedAddrs {
        self.sessions[i].addrs
    }

    /// The (shard id, address) pairs of the session at a position.
    pub open spec fn addrs_at(self, i: int) -> Seq<(u8, Addr)> {
        self.sharded_at(i).entries()
    }

    /// How many reverse-index entries there are.
    pub closed spec fn n_rev(self) -> int {
        self.addr_index.len() as int
    }

    /// The reverse-index entry at a position: (address, owning token).
    pub closed spec fn rev_at(self, k: int) -> (Addr, Seq<u8>) {
        (self.addr_index[k].0, self.addr_index[k].1@)
    }

    /// Whether a session with this token is live.
    pub open spec fn has_token(self, t: Seq<u8>) -> bool {
        exists|i: int| 0 <= i < self.n_sessions() && self.token_at(i) == t
    }

    /// The position of the session with this token (meaningful under `wf`
    /// when `has_token` holds).
    pub open spec fn sess_idx(self, t: Seq<u8>) -> int {
        choose|i: int| 0 <= i < self.n_sessions() && self.token_at(i) == t
    }

    /// The shard map of the session with this token.
    pub open spec fn addrs_of(self, t: Seq<u8>) -> Seq<(u8, Addr)> {
        self.addrs_at(self.sess_idx(t))
    }

    /// The session handle registered under this token.
    pub open spec fn session_of(self, t: Seq<u8>) -> S {
        self.session_at(self.sess_idx(t))
    }

    /// Whether some live session has a shard bound to `a`.
    pub open spec fn addr_bound(self, a: Addr) -> bool {
        exists|i: int, j: int|
            0 <= i < self.n_sessions() && 0 <= j < self.addrs_at(i).len() && (
            #[trigger] self.addrs_at(i)[j]).1 == a
    }

    /// What the reverse index maps `a` to, if anything.
    pub open spec fn rev_lookup(self, a: Addr) -> Option<Seq<u8>> {
        if exists|k: int| 0 <= k < self.n_rev() && self.rev_at(k).0 == a {
            Some(self.rev_at(choose|k: int| 0 <= k < self.n_rev() && self.rev_at(k).0 == a).1)
        } else {
            None
        }
    }

    /// Tokens name at most one session each.
    pub open spec fn tokens_distinct(self) -> bool {
        forall|i: int, j: int|
            0 <= i < j < self.n_sessions() ==> self.token_at(i) != self.token_at(j)
    }

    /// Every per-session shard map is well formed.
    pub open spec fn entries_wf(self) -> bool {
        forall|i: int| 0 <= i < self.n_sessions() ==> (#[trigger] self.sharded_at(i)).wf()
    }

    /// No physical address is bound by two different (session, shard) slots.
    pub open spec fn addrs_distinct(self) -> bool {
        forall|i1: int, j1: int, i2: int, j2: int|
            0 <= i1 < self.n_sessions() && 0 <= j1 < self.addrs_at(i1).len() && 0 <= i2
                < self.n_sessions() && 0 <= j2 < self.addrs_at(i2).len() && !(i1 == i2 && j1 == j2)
                ==> (#[trigger] self.addrs_at(i1)[j1]).1 != (#[trigger] self.addrs_at(i2)[j2]).1
    }

    /// The reverse index has at most one entry per address.
    pub open spec fn rev_keys_distinct(self) -> bool {
        forall|k1: int, k2: int|
            0 <= k1 < k2 < self.n_rev() ==> (#[trigger] self.rev_at(k1)).0 != (#[trigger] self.rev_at(
                k2,
            )).0
    }

    /// Whether the reverse index has an entry mapping `a` to `t`.
    pub open spec fn rev_maps(self, a: Addr, t: Seq<u8>) -> bool {
        exists|k: int| 0 <= k < self.n_rev() && #[trigger] self.rev_at(k) == (a, t)
    }

    /// Whether the session with token `t` has some shard bound to `a`.
    pub open spec fn fwd_binds(self, a: Addr, t: Seq<u8>) -> bool {
        exists|i: int, j: int|
            0 <= i < self.n_sessions() && 0 <= j < self.addrs_at(i).len() && self.token_at(i) == t
                && (#[trigger] self.addrs_at(i)[j]).1 == a
    }

    /// Every bound address appears in the reverse index under its owner's
    /// token.
    pub open spec fn fwd_in_rev(self) -> bool {
        forall|i: int, j: int|
            0 <= i < self.n_sessions() && 0 <= j < self.addrs_at(i).len() ==> self.rev_maps(
                (#[trigger] self.addrs_at(i)[j]).1,
                self.token_at(i),
            )
    }

    /// Every reverse-index entry corresponds to a live binding.
    pub open spec fn rev_in_fwd(self) -> bool {
        forall|k: int|
            0 <= k < self.n_rev() ==> self.fwd_binds(
                (#[trigger] self.rev_at(k)).0,
                self.rev_at(k).1,
            )
    }

    /// The table's invariant: the reverse index contains exactly the
    /// addresses currently bound in some live session's shard map — no
    /// orphans, no omissions — each mapped to the owning token.
    pub open spec fn wf(self) -> bool {
        &&& self.tokens_distinct()
        &&& self.entries_wf()
        &&& self.addrs_distinct()
        &&& self.rev_keys_distinct()
        &&& self.fwd_in_rev()
        &&& self.rev_in_fwd()
    }

    /// An empty table.
    pub fn new() -> (r: SessionTable<S>)
        ensures
            r.n_sessions() == 0,
            r.n_rev() == 0,
            r.wf(),
    {
        SessionTable { sessions: Vec::new(), addr_index: Vec::new() }
    }

    /// Finds the position of a token in the forward table.
    fn find_token_idx(&self, token: &Vec<u8>) -> (r: Option<usize>)
        ensures
            match r {
                Some(i) => 0 <= i < self.n_sessions() && self.token_at(i as int) == token@,
                None => !self.has_token(token@),
            },
    {
        let n = self.sessions.len();
        let mut i: usize = 0;
        while i < n
            invariant
                n == self.sessions.len(),
                0 <= i <= n,
                forall|j: int| 0 <= j < i ==> self.token_at(j) != token@,
            decreases n - i,
        {
            if token_eq(&self.sessions[i].token, token) {
                return Some(i);
            }
            i += 1;
        }
        None
    }

    /// Finds the position of an address in the reverse index.
    fn find_addr_idx(&self, addr: Addr) -> (r: Option<usize>)
        ensures
            match r {
                Some(k) => 0 <= k < self.n_rev() && self.rev_at(k as int).0 == addr,
                None => forall|k: int| 0 <= k < self.n_rev() ==> self.rev_at(k).0 != addr,
            },
    {
        let n = self.addr_index.len();
        let mut k: usize = 0;
        while k < n
            invariant
                n == self.addr_index.len(),
                0 <= k <= n,
                forall|j: int| 0 <= j < k ==> self.rev_at(j).0 != addr,
            decreases n - k,
        {
            if self.addr_index[k].0 == addr {
                return Some(k);
            }
            k += 1;
        }
        None
    }

    /// Resolves an inbound datagram's source address to its owning session,
    /// read-only, through the two-level index (address → token → session).
    /// Returns `None` exactly when no live session has a shard bound to the
    /// address.
    pub fn lookup(&self, addr: Addr) -> (r: Option<&S>)
        requires
            self.wf(),
        ensures
            match r {
                None => !self.addr_bound(addr),
                Some(s) => self.addr_bound(addr) && self.rev_lookup(addr) is Some && *s
                    == self.session_of(self.rev_lookup(addr).unwrap()),
            },
    {
        match self.find_addr_idx(addr) {
            None => {
                proof {
                    if self.addr_bound(addr) {
                        let (i, j) = choose|i: int, j: int|
                            0 <= i < self.n_sessions() && 0 <= j < self.addrs_at(i).len()
                                && self.addrs_at(i)[j].1 == addr;
                        assert(exists|k: int|
                            0 <= k < self.n_rev() && self.rev_at(k) == (self.addrs_at(i)[j].1, self.token_at(
                                i,
                            )));
                        let k = choose|k: int|
                            0 <= k < self.n_rev() && self.rev_at(k) == (self.addrs_at(i)[j].1, self.token_at(
                                i,
                            ));
                        assert(self.rev_at(k).0 == addr);
                        assert(false);
                    }
                }
                None
            },
            Some(k) => {
                let token = &self.addr_index[k].1;
                match self.find_token_idx(token) {
                    None => {
                        proof {
                            assert(0 <= k < self.n_rev());
                            let (i, j) = choose|i: int, j: int|
                                0 <= i < self.n_sessions() && 0 <= j < self.addrs_at(i).len()
                                    && self.token_at(i) == self.rev_at(k as int).1 && self.addrs_at(
                                    i,
                                )[j].1 == self.rev_at(k as int).0;
                            assert(self.has_token(token@));
                            assert(false);
                        }
                        None
                    },
                    Some(i) => {
                        proof {
                            let ki = k as int;
                            let (i0, j0) = choose|i0: int, j0: int|
                                0 <= i0 < self.n_sessions() && 0 <= j0 < self.addrs_at(i0).len()
                                    && self.token_at(i0) == self.rev_at(ki).1 && self.addrs_at(
                                    i0,
                                )[j0].1 == self.rev_at(ki).0;
                            assert(self.addr_bound(addr));
                            // the reverse entry found is the one rev_lookup denotes
                            let kc = choose|kc: int|
                                0 <= kc < self.n_rev() && self.rev_at(kc).0 == addr;
                            if kc != ki {
                                assert(self.rev_at(kc).0 != self.rev_at(ki).0);
                            }
                            assert(self.rev_lookup(addr) == Some(self.rev_at(ki).1));
                            // the session found is the owner's
                            let si = self.sess_idx(self.rev_at(ki).1);
                            assert(self.token_at(i as int) == self.rev_at(ki).1);
                            assert(self.has_token(self.rev_at(ki).1));
                            if si != i as int {
                                if si < i as int {
                                    assert(self.token_at(si) != self.token_at(i as int));
                                } else {
                                    assert(self.token_at(i as int) != self.token_at(si));
                                }
                            }
                        }
                        Some(&self.sessions[i].session)
                    },
                }
            },
        }
    }
}

} // verus!

verus! {

impl<S> SessionTable<S> {
    /// A binding seen at a position witnesses `addr_bound`.
    proof fn lemma_addr_bound_intro(t: SessionTable<S>, i: int, j: int)
        requires
            0 <= i < t.n_sessions(),
            0 <= j < t.addrs_at(i).len(),
        ensures
            t.addr_bound(t.addrs_at(i)[j].1),
    {
        assert(0 <= i < t.n_sessions() && 0 <= j < t.addrs_at(i).len() && (
        #[trigger] t.addrs_at(i)[j]).1 == t.addrs_at(i)[j].1);
    }

    /// Registers a freshly handshaken session under its resumption token,
    /// with its initial single-shard address map; the address enters the
    /// reverse index at once. Later shards attach through `rebind`.
    pub fn new_sess(&mut self, token: Vec<u8>, session: S, addrs: ShardedAddrs)
        requires
            old(self).wf(),
            !old(self).has_token(token@),
            addrs.wf(),
            addrs.entries().len() == 1,
            !old(self).addr_bound(addrs.entries()[0].1),
        ensures
            final(self).wf(),
            final(self).has_token(token@),
            final(self).addrs_of(token@) == addrs.entries(),
            final(self).session_of(token@) == session,
            forall|t: Seq<u8>|
                final(self).has_token(t) <==> (old(self).has_token(t) || t == token@),
            forall|t: Seq<u8>|
                old(self).has_token(t) ==> #[trigger] final(self).addrs_of(t) == old(
                    self,
                ).addrs_of(t) && final(self).session_of(t) == old(self).session_of(t),
            final(self).rev_lookup(addrs.entries()[0].1) == Some(token@),
            forall|a: Addr|
                a != addrs.entries()[0].1 ==> #[trigger] final(self).rev_lookup(a) == old(
                    self,
                ).rev_lookup(a),
    {
        let ghost t = token@;
        let ghost a0 = addrs.entries()[0].1;
        let pairs = addrs.pairs();
        let addr0 = pairs[0].1;
        let tok2 = token_clone(&token);
        let ghost os = *old(self);
        self.sessions.push(SessEntry { token, session, addrs });
        self.addr_index.push((addr0, tok2));
        proof {
            let n = os.n_sessions();
            let nr = os.n_rev();
            let fin = *self;
            // frame: old positions unchanged, one new position each
            assert(fin.n_sessions() == n + 1 && fin.n_rev() == nr + 1);
            assert(forall|i: int|
                0 <= i < n ==> #[trigger] fin.token_at(i) == os.token_at(i) && fin.session_at(i)
                    == os.session_at(i) && fin.sharded_at(i) == os.sharded_at(i));
            assert(forall|k: int| 0 <= k < nr ==> #[trigger] fin.rev_at(k) == os.rev_at(k));
            assert(fin.token_at(n) == t && fin.session_at(n) == session);
            assert(fin.sharded_at(n) == addrs);
            assert(fin.addrs_at(n) == addrs.entries());
            assert(fin.rev_at(nr) == (a0, t));
            // the new address was nowhere: neither forward nor reverse
            assert(forall|k: int| 0 <= k < nr ==> (#[trigger] os.rev_at(k)).0 != a0) by {
                assert forall|k: int| 0 <= k < nr implies (#[trigger] os.rev_at(k)).0 != a0 by {
                    if os.rev_at(k).0 == a0 {
                        assert(exists|i: int, j: int|
                            0 <= i < n && 0 <= j < os.addrs_at(i).len() && os.token_at(i)
                                == os.rev_at(k).1 && os.addrs_at(i)[j].1 == os.rev_at(k).0);
                        let (i, j) = choose|i: int, j: int|
                            0 <= i < n && 0 <= j < os.addrs_at(i).len() && os.token_at(i)
                                == os.rev_at(k).1 && os.addrs_at(i)[j].1 == os.rev_at(k).0;
                        assert(os.addrs_at(i)[j].1 == a0);
                        Self::lemma_addr_bound_intro(os, i, j);
                    }
                }
            }
            // the new token names no old session
            assert(forall|i: int| 0 <= i < n ==> #[trigger] os.token_at(i) != t);
            // invariant clauses
            assert(fin.tokens_distinct());
            assert(fin.entries_wf()) by {
                assert forall|i: int|
                    0 <= i < fin.n_sessions() implies (#[trigger] fin.sharded_at(i)).wf() by {
                    if i < n {
                        assert(fin.sharded_at(i) == os.sharded_at(i));
                        assert(os.sharded_at(i).wf());
                    } else {
                        assert(fin.sharded_at(i) == addrs);
                    }
                }
            }
            assert(fin.addrs_distinct()) by {
                assert forall|i1: int, j1: int, i2: int, j2: int|
                    0 <= i1 < fin.n_sessions() && 0 <= j1 < fin.addrs_at(i1).len() && 0 <= i2
                        < fin.n_sessions() && 0 <= j2 < fin.addrs_at(i2).len() && !(i1 == i2 && j1
                        == j2) implies (#[trigger] fin.addrs_at(i1)[j1]).1 != (
                #[trigger] fin.addrs_at(i2)[j2]).1 by {
                    if i1 < n && i2 < n {
                        assert(os.addrs_at(i1)[j1] == fin.addrs_at(i1)[j1]);
                        assert(os.addrs_at(i2)[j2] == fin.addrs_at(i2)[j2]);
                    } else if i1 == n && i2 < n {
                        assert(fin.addrs_at(i1)[j1].1 == a0);
                        if fin.addrs_at(i2)[j2].1 == a0 {
                            assert(os.addrs_at(i2)[j2].1 == a0);
                            Self::lemma_addr_bound_intro(os, i2, j2);
                        }
                    } else if i2 == n && i1 < n {
                        assert(fin.addrs_at(i2)[j2].1 == a0);
                        if fin.addrs_at(i1)[j1].1 == a0 {
                            assert(os.addrs_at(i1)[j1].1 == a0);
                            Self::lemma_addr_bound_intro(os, i1, j1);
                        }
                    }
                }
            }
            assert(fin.rev_keys_distinct());
            assert(fin.fwd_in_rev()) by {
                assert forall|i: int, j: int|
                    0 <= i < fin.n_sessions() && 0 <= j < fin.addrs_at(i).len() implies exists|
                    k: int,
                |
                    0 <= k < fin.n_rev() && fin.rev_at(k) == ((#[trigger] fin.addrs_at(i)[j]).1, fin.token_at(
                        i,
                    )) by {
                    if i < n {
                        assert(os.addrs_at(i)[j] == fin.addrs_at(i)[j]);
                        assert(exists|k: int|
                            0 <= k < nr && os.rev_at(k) == (os.addrs_at(i)[j].1, os.token_at(i)));
                        let k = choose|k: int|
                            0 <= k < nr && os.rev_at(k) == (os.addrs_at(i)[j].1, os.token_at(i));
                        assert(fin.rev_at(k) == (fin.addrs_at(i)[j].1, fin.token_at(i)));
                    } else {
                        assert(fin.rev_at(nr) == (fin.addrs_at(i)[j].1, fin.token_at(i)));
                    }
                }
            }
            assert(fin.rev_in_fwd()) by {
                assert forall|k: int| 0 <= k < fin.n_rev() implies exists|i: int, j: int|
                    0 <= i < fin.n_sessions() && 0 <= j < fin.addrs_at(i).len() && fin.token_at(i)
                        == (#[trigger] fin.rev_at(k)).1 && fin.addrs_at(i)[j].1 == fin.rev_at(
                    k,
                ).0 by {
                    if k < nr {
                        assert(os.rev_at(k) == fin.rev_at(k));
                        assert(exists|i: int, j: int|
                            0 <= i < n && 0 <= j < os.addrs_at(i).len() && os.token_at(i)
                                == os.rev_at(k).1 && os.addrs_at(i)[j].1 == os.rev_at(k).0);
                        let (i, j) = choose|i: int, j: int|
                            0 <= i < n && 0 <= j < os.addrs_at(i).len() && os.token_at(i)
                                == os.rev_at(k).1 && os.addrs_at(i)[j].1 == os.rev_at(k).0;
                        assert(fin.token_at(i) == fin.rev_at(k).1 && fin.addrs_at(i)[j].1
                            == fin.rev_at(k).0);
                    } else {
                        assert(fin.token_at(n) == fin.rev_at(nr).1 && fin.addrs_at(n)[0].1
                            == fin.rev_at(nr).0);
                    }
                }
            }
            // the published views
            assert(fin.has_token(t)) by {
                assert(fin.token_at(n) == t);
            }
            assert(fin.sess_idx(t) == n) by {
                let i = fin.sess_idx(t);
                assert(0 <= i < fin.n_sessions() && fin.token_at(i) == t);
                if i < n {
                    assert(os.token_at(i) != t);
                }
            }
            assert forall|tx: Seq<u8>| os.has_token(tx) implies #[trigger] fin.addrs_of(tx) == os.addrs_of(
                tx,
            ) && fin.session_of(tx) == os.session_of(tx) by {
                let i = os.sess_idx(tx);
                assert(0 <= i < n && os.token_at(i) == tx);
                assert(fin.token_at(i) == tx);
                assert(fin.has_token(tx));
                let i2 = fin.sess_idx(tx);
                assert(0 <= i2 < fin.n_sessions() && fin.token_at(i2) == tx);
                if i2 == n {
                    assert(os.token_at(i) != t);
                }
                if i2 != i {
                    if i2 < i {
                        assert(fin.token_at(i2) != fin.token_at(i));
                    } else {
                        assert(fin.token_at(i) != fin.token_at(i2));
                    }
                }
            }
            assert forall|tx: Seq<u8>|
                fin.has_token(tx) <==> (os.has_token(tx) || tx == t) by {
                if fin.has_token(tx) {
                    let i = choose|i: int| 0 <= i < fin.n_sessions() && fin.token_at(i) == tx;
                    if i < n {
                        assert(os.token_at(i) == tx);
                        assert(os.has_token(tx));
                    }
                }
                if os.has_token(tx) {
                    let i = choose|i: int| 0 <= i < n && os.token_at(i) == tx;
                    assert(fin.token_at(i) == tx);
                    assert(fin.has_token(tx));
                }
                if tx == t {
                    assert(fin.token_at(n) == t);
                    assert(fin.has_token(tx));
                }
            }
            assert(fin.rev_lookup(a0) == Some(t)) by {
                assert(fin.rev_at(nr).0 == a0);
                let k = choose|k: int| 0 <= k < fin.n_rev() && fin.rev_at(k).0 == a0;
                if k != nr {
                    assert(fin.rev_at(k).0 != fin.rev_at(nr).0);
                }
            }
            assert forall|a: Addr| a != a0 implies #[trigger] fin.rev_lookup(a) == os.rev_lookup(
                a,
            ) by {
                if exists|k: int| 0 <= k < nr && os.rev_at(k).0 == a {
                    let k = choose|k: int| 0 <= k < nr && os.rev_at(k).0 == a;
                    assert(fin.rev_at(k).0 == a);
                    let k2 = choose|k2: int| 0 <= k2 < fin.n_rev() && fin.rev_at(k2).0 == a;
                    assert(k2 != nr);
                    if k2 != k {
                        if k2 < k {
                            assert(fin.rev_at(k2).0 != fin.rev_at(k).0);
                        } else {
                            assert(fin.rev_at(k).0 != fin.rev_at(k2).0);
                        }
                    }
                } else {
                    if exists|k: int| 0 <= k < fin.n_rev() && fin.rev_at(k).0 == a {
                        let k = choose|k: int| 0 <= k < fin.n_rev() && fin.rev_at(k).0 == a;
                        assert(k != nr);
                        assert(os.rev_at(k).0 == a);
                    }
                }
            }
        }
    }
}

} // verus!

verus! {

impl<S> SessionTable<S> {
    /// Removes the binding of one physical address, wherever it is held:
    /// the owning session's shard map drops the shard slot bound to it and
    /// the reverse index drops its entry. Sessions themselves are untouched.
    #[verifier::rlimit(100)]
    fn unbind_addr(&mut self, addr: Addr)
        requires
            old(self).wf(),
        ensures
            final(self).wf(),
            final(self).n_sessions() == old(self).n_sessions(),
            final(self).n_rev() <= old(self).n_rev(),
            forall|i: int|
                0 <= i < old(self).n_sessions() ==> #[trigger] final(self).token_at(i) == old(
                    self,
                ).token_at(i) && final(self).session_at(i) == old(self).session_at(i),
            forall|i: int, k: u8|
                0 <= i < old(self).n_sessions() ==> #[trigger] key_addr(
                    final(self).addrs_at(i),
                    k,
                ) == (if key_addr(old(self).addrs_at(i), k) == Some(addr) {
                    None
                } else {
                    key_addr(old(self).addrs_at(i), k)
                }),
            !final(self).addr_bound(addr),
            final(self).rev_lookup(addr) is None,
            forall|a: Addr|
                a != addr ==> #[trigger] final(self).rev_lookup(a) == old(self).rev_lookup(a),
    {
        let ghost os = *old(self);
        match self.find_addr_idx(addr) {
            None => {
                proof {
                    // nothing maps to `addr` in the reverse index, so by
                    // exactness nothing binds it forward either
                    assert forall|i: int, j: int|
                        0 <= i < os.n_sessions() && 0 <= j < os.addrs_at(i).len() implies (
                    #[trigger] os.addrs_at(i)[j]).1 != addr by {
                        if os.addrs_at(i)[j].1 == addr {
                            assert(exists|k: int|
                                0 <= k < os.n_rev() && os.rev_at(k) == (os.addrs_at(i)[j].1, os.token_at(
                                    i,
                                )));
                            let k = choose|k: int|
                                0 <= k < os.n_rev() && os.rev_at(k) == (os.addrs_at(i)[j].1, os.token_at(
                                    i,
                                ));
                            assert(os.rev_at(k).0 == addr);
                        }
                    }
                    assert forall|i: int, k: u8|
                        0 <= i < os.n_sessions() implies #[trigger] key_addr(os.addrs_at(i), k)
                        != Some(addr) by {
                        if key_addr(os.addrs_at(i), k) == Some(addr) {
                            let j = choose|j: int|
                                0 <= j < os.addrs_at(i).len() && os.addrs_at(i)[j].0 == k;
                            assert(os.addrs_at(i)[j].1 == addr);
                        }
                    }
                    if os.addr_bound(addr) {
                        let (i, j) = choose|i: int, j: int|
                            0 <= i < os.n_sessions() && 0 <= j < os.addrs_at(i).len() && (
                            #[trigger] os.addrs_at(i)[j]).1 == addr;
                        assert(false);
                    }
                }
            },
            Some(ai) => {
                let pair = self.addr_index.remove(ai);
                let ghost tok = os.rev_at(ai as int).1;
                // exactness names the owning session
                proof {
                    assert(exists|i: int, j: int|
                        0 <= i < os.n_sessions() && 0 <= j < os.addrs_at(i).len() && os.token_at(i)
                            == os.rev_at(ai as int).1 && os.addrs_at(i)[j].1 == os.rev_at(
                            ai as int,
                        ).0);
                }
                let ghost (iw, jw) = choose|i: int, j: int|
                    0 <= i < os.n_sessions() && 0 <= j < os.addrs_at(i).len() && os.token_at(i)
                        == os.rev_at(ai as int).1 && os.addrs_at(i)[j].1 == os.rev_at(ai as int).0;
                let oi = match self.find_token_idx(&pair.1) {
                    Some(i) => i,
                    None => {
                        proof {
                            assert(self.token_at(iw) == tok);
                            assert(self.has_token(tok));
                            assert(false);
                        }
                        0
                    },
                };
                proof {
                    // the found session is the witness's
                    if oi as int != iw {
                        if (oi as int) < iw {
                            assert(os.token_at(oi as int) != os.token_at(iw));
                        } else {
                            assert(os.token_at(iw) != os.token_at(oi as int));
                        }
                        assert(false);
                    }
                }
                let mut e = self.sessions.remove(oi);
                let pairs = e.addrs.pairs();
                let ghost jr = jw;
                let np = pairs.len();
                let mut jj: usize = 0;
                proof {
                    assert(pairs@ == os.addrs_at(oi as int));
                    assert(pairs@[jr].1 == addr);
                }
                while pairs[jj].1 != addr
                    invariant
                        0 <= jj <= jr < pairs@.len(),
                        np == pairs@.len(),
                        pairs@[jr].1 == addr,
                        forall|x: int| 0 <= x < jj ==> pairs@[x].1 != addr,
                    decreases jr - jj,
                {
                    proof {
                        if jj as int == jr {
                            assert(pairs@[jr].1 == addr);
                        }
                    }
                    jj += 1;
                }
                let sh = pairs[jj].0;
                proof {
                    // only one slot binds `addr`, so the scan stopped at it
                    if jj as int != jr {
                        assert(os.addrs_at(iw)[jj as int].1 == addr);
                        assert(!(iw == iw && jj as int == jr));
                        assert(os.addrs_at(iw)[jj as int].1 != os.addrs_at(iw)[jr].1);
                        assert(false);
                    }
                    assert(e.addrs.wf());
                    assert(e.addrs.entries()[jr].0 == sh);
                }
                let _ = e.addrs.remove_shard(sh);
                proof {
                    assert(e.addrs.entries() == os.addrs_at(oi as int).remove(jr));
                    os.addrs_at(oi as int).remove_ensures(jr);
                }
                self.sessions.insert(oi, e);
                proof {
                    let fin = *self;
                    let n = os.n_sessions();
                    let nr = os.n_rev();
                    let aio = ai as int;
                    let oio = oi as int;
                    // frame facts
                    assert(fin.sessions@ =~= os.sessions@.remove(oio).insert(oio, e));
                    assert forall|i: int| 0 <= i < n implies #[trigger] fin.sessions@[i] == (if i
                        == oio {
                        e
                    } else {
                        os.sessions@[i]
                    }) by {
                        os.sessions@.remove_ensures(oio);
                        if i < oio {
                            assert(os.sessions@.remove(oio).insert(oio, e)[i] == os.sessions@.remove(
                                oio,
                            )[i]);
                        } else if i > oio {
                            assert(os.sessions@.remove(oio).insert(oio, e)[i] == os.sessions@.remove(
                                oio,
                            )[i - 1]);
                        }
                    }
                    assert(forall|i: int|
                        0 <= i < n ==> #[trigger] fin.token_at(i) == os.token_at(i)
                            && fin.session_at(i) == os.session_at(i));
                    assert(forall|i: int|
                        0 <= i < n && i != oio ==> #[trigger] fin.sharded_at(i) == os.sharded_at(
                            i,
                        ));
                    assert(fin.sharded_at(oio) == e.addrs);
                    assert(fin.addrs_at(oio) == os.addrs_at(oio).remove(jr));
                    assert(fin.n_rev() == nr - 1);
                    assert(fin.addr_index@ == os.addr_index@.remove(aio));
                    os.addr_index@.remove_ensures(aio);
                    assert forall|k: int| 0 <= k < nr - 1 implies #[trigger] fin.rev_at(k) == (if k
                        < aio {
                        os.rev_at(k)
                    } else {
                        os.rev_at(k + 1)
                    }) by {
                        if k < aio {
                            assert(fin.addr_index@[k] == os.addr_index@[k]);
                        } else {
                            assert(fin.addr_index@[k] == os.addr_index@[k + 1]);
                        }
                    }
                    // index remapping for the one shortened shard map
                    os.addrs_at(oio).remove_ensures(jr);
                    assert(forall|j: int|
                        0 <= j < fin.addrs_at(oio).len() ==> #[trigger] fin.addrs_at(oio)[j] == (
                        if j < jr {
                            os.addrs_at(oio)[j]
                        } else {
                            os.addrs_at(oio)[j + 1]
                        }));
                    // distinctness clauses survive taking subsets
                    assert(fin.tokens_distinct());
                    assert(fin.entries_wf()) by {
                        assert forall|i: int|
                            0 <= i < fin.n_sessions() implies (#[trigger] fin.sharded_at(
                            i,
                        )).wf() by {
                            if i != oio {
                                assert(fin.sharded_at(i) == os.sharded_at(i));
                                assert(os.sharded_at(i).wf());
                            }
                        }
                    }
                    assert(fin.addrs_distinct()) by {
                        assert forall|i1: int, j1: int, i2: int, j2: int|
                            0 <= i1 < fin.n_sessions() && 0 <= j1 < fin.addrs_at(i1).len() && 0
                                <= i2 < fin.n_sessions() && 0 <= j2 < fin.addrs_at(i2).len() && !(
                            i1 == i2 && j1 == j2) implies (#[trigger] fin.addrs_at(i1)[j1]).1 != (
                        #[trigger] fin.addrs_at(i2)[j2]).1 by {
                            let ja = if i1 == oio && j1 >= jr {
                                j1 + 1
                            } else {
                                j1
                            };
                            let jb = if i2 == oio && j2 >= jr {
                                j2 + 1
                            } else {
                                j2
                            };
                            assert(fin.addrs_at(i1)[j1] == os.addrs_at(i1)[ja]);
                            assert(fin.addrs_at(i2)[j2] == os.addrs_at(i2)[jb]);
                            assert(!(i1 == i2 && ja == jb));
                            assert(os.addrs_at(i1)[ja].1 != os.addrs_at(i2)[jb].1);
                        }
                    }
                    assert(fin.rev_keys_distinct()) by {
                        assert forall|k1: int, k2: int|
                            0 <= k1 < k2 < fin.n_rev() implies (#[trigger] fin.rev_at(k1)).0 != (
                        #[trigger] fin.rev_at(k2)).0 by {
                            let ka = if k1 < aio {
                                k1
                            } else {
                                k1 + 1
                            };
                            let kb = if k2 < aio {
                                k2
                            } else {
                                k2 + 1
                            };
                            assert(fin.rev_at(k1) == os.rev_at(ka));
                            assert(fin.rev_at(k2) == os.rev_at(kb));
                            assert(os.rev_at(ka).0 != os.rev_at(kb).0);
                        }
                    }
                    // the removed binding is gone from both sides
                    assert forall|i: int, j: int|
                        0 <= i < n && 0 <= j < fin.addrs_at(i).len() implies (
                    #[trigger] fin.addrs_at(i)[j]).1 != addr by {
                        let jx = if i == oio && j >= jr {
                            j + 1
                        } else {
                            j
                        };
                        assert(fin.addrs_at(i)[j] == os.addrs_at(i)[jx]);
                        if os.addrs_at(i)[jx].1 == addr {
                            assert(!(i == iw && jx == jr));
                            assert(os.addrs_at(i)[jx].1 != os.addrs_at(iw)[jr].1);
                            assert(false);
                        }
                    }
                    assert forall|k: int| 0 <= k < fin.n_rev() implies (#[trigger] fin.rev_at(
                        k,
                    )).0 != addr by {
                        let kx = if k < aio {
                            k
                        } else {
                            k + 1
                        };
                        assert(fin.rev_at(k) == os.rev_at(kx));
                        if os.rev_at(kx).0 == addr {
                            if kx < aio {
                                assert(os.rev_at(kx).0 != os.rev_at(aio).0);
                            } else {
                                assert(os.rev_at(aio).0 != os.rev_at(kx).0);
                            }
                            assert(false);
                        }
                    }
                    // exactness both ways
                    assert(fin.fwd_in_rev()) by {
                        assert forall|i: int, j: int|
                            0 <= i < fin.n_sessions() && 0 <= j < fin.addrs_at(i).len() implies
                        exists|k: int|
                            0 <= k < fin.n_rev() && fin.rev_at(k) == ((
                            #[trigger] fin.addrs_at(i)[j]).1, fin.token_at(i)) by {
                            let jx = if i == oio && j >= jr {
                                j + 1
                            } else {
                                j
                            };
                            assert(fin.addrs_at(i)[j] == os.addrs_at(i)[jx]);
                            assert(exists|k: int|
                                0 <= k < nr && os.rev_at(k) == (os.addrs_at(i)[jx].1, os.token_at(
                                    i,
                                )));
                            let ko = choose|k: int|
                                0 <= k < nr && os.rev_at(k) == (os.addrs_at(i)[jx].1, os.token_at(
                                    i,
                                ));
                            assert(fin.addrs_at(i)[j].1 != addr);
                            assert(ko != aio);
                            let kn = if ko < aio {
                                ko
                            } else {
                                ko - 1
                            };
                            assert(fin.rev_at(kn) == os.rev_at(ko));
                            assert(fin.rev_at(kn) == (fin.addrs_at(i)[j].1, fin.token_at(i)));
                        }
                    }
                    assert(fin.rev_in_fwd()) by {
                        assert forall|k: int| 0 <= k < fin.n_rev() implies exists|i: int, j: int|
                            0 <= i < fin.n_sessions() && 0 <= j < fin.addrs_at(i).len()
                                && fin.token_at(i) == (#[trigger] fin.rev_at(k)).1 && fin.addrs_at(
                                i,
                            )[j].1 == fin.rev_at(k).0 by {
                            let kx = if k < aio {
                                k
                            } else {
                                k + 1
                            };
                            assert(fin.rev_at(k) == os.rev_at(kx));
                            assert(exists|i: int, j: int|
                                0 <= i < n && 0 <= j < os.addrs_at(i).len() && os.token_at(i)
                                    == os.rev_at(kx).1 && os.addrs_at(i)[j].1 == os.rev_at(kx).0);
                            let (io, jo) = choose|i: int, j: int|
                                0 <= i < n && 0 <= j < os.addrs_at(i).len() && os.token_at(i)
                                    == os.rev_at(kx).1 && os.addrs_at(i)[j].1 == os.rev_at(kx).0;
                            assert(fin.rev_at(k).0 != addr);
                            assert(!(io == iw && jo == jr)) by {
                                if io == iw && jo == jr {
                                    assert(os.addrs_at(iw)[jr].1 == addr);
                                }
                            }
                            if io == oio {
                                let jn = if jo < jr {
                                    jo
                                } else {
                                    jo - 1
                                };
                                assert(jo != jr) by {
                                    if jo == jr {
                                        assert(os.addrs_at(oio)[jr].1 == addr);
                                    }
                                }
                                assert(fin.addrs_at(io)[jn] == os.addrs_at(io)[jo]);
                                assert(fin.token_at(io) == fin.rev_at(k).1 && fin.addrs_at(
                                    io,
                                )[jn].1 == fin.rev_at(k).0);
                            } else {
                                assert(fin.addrs_at(io)[jo] == os.addrs_at(io)[jo]);
                                assert(fin.token_at(io) == fin.rev_at(k).1 && fin.addrs_at(
                                    io,
                                )[jo].1 == fin.rev_at(k).0);
                            }
                        }
                    }
                    // pointwise shard-binding change
                    assert forall|i: int, k: u8| 0 <= i < n implies #[trigger] key_addr(
                        fin.addrs_at(i),
                        k,
                    ) == (if key_addr(os.addrs_at(i), k) == Some(addr) {
                        None
                    } else {
                        key_addr(os.addrs_at(i), k)
                    }) by {
                        if i != oio {
                            assert(fin.addrs_at(i) == os.addrs_at(i));
                            if key_addr(os.addrs_at(i), k) == Some(addr) {
                                let j = choose|j: int|
                                    0 <= j < os.addrs_at(i).len() && os.addrs_at(i)[j].0 == k;
                                assert(os.addrs_at(i)[j].1 == addr);
                                assert(!(i == iw && j == jr));
                                assert(os.addrs_at(i)[j].1 != os.addrs_at(iw)[jr].1);
                                assert(false);
                            }
                        } else {
                            let so = os.addrs_at(oio);
                            let sf = fin.addrs_at(oio);
                            if k == sh {
                                lemma_key_addr_at(so, jr);
                                assert(key_addr(so, k) == Some(addr));
                                if seq_has_key(sf, k) {
                                    let j = choose|j: int|
                                        0 <= j < sf.len() && sf[j].0 == k;
                                    let jx = if j < jr {
                                        j
                                    } else {
                                        j + 1
                                    };
                                    assert(so[jx].0 == sh);
                                    if jx < jr {
                                        assert(so[jx].0 != so[jr].0);
                                    } else {
                                        assert(so[jr].0 != so[jx].0);
                                    }
                                    assert(false);
                                }
                                assert(key_addr(sf, k) is None);
                            } else {
                                if seq_has_key(so, k) {
                                    let j = choose|j: int| 0 <= j < so.len() && so[j].0 == k;
                                    assert(j != jr);
                                    let jn = if j < jr {
                                        j
                                    } else {
                                        j - 1
                                    };
                                    assert(sf[jn] == so[j]);
                                    lemma_key_addr_at(so, j);
                                    assert(e.addrs.wf());
                                    lemma_key_addr_at(sf, jn);
                                    assert(key_addr(sf, k) == Some(so[j].1));
                                    assert(key_addr(so, k) == Some(so[j].1));
                                    assert(so[j].1 != addr) by {
                                        if so[j].1 == addr {
                                            assert(!(oio == iw && j == jr));
                                            assert(os.addrs_at(oio)[j].1 != os.addrs_at(
                                                iw,
                                            )[jr].1);
                                        }
                                    }
                                } else {
                                    if seq_has_key(sf, k) {
                                        let j = choose|j: int|
                                            0 <= j < sf.len() && sf[j].0 == k;
                                        let jx = if j < jr {
                                            j
                                        } else {
                                            j + 1
                                        };
                                        assert(so[jx].0 == k);
                                        assert(false);
                                    }
                                    assert(key_addr(so, k) is None);
                                    assert(key_addr(sf, k) is None);
                                }
                            }
                        }
                    }
                    // reverse lookups for other addresses are untouched
                    assert forall|a: Addr| a != addr implies #[trigger] fin.rev_lookup(a)
                        == os.rev_lookup(a) by {
                        if exists|k: int| 0 <= k < nr && os.rev_at(k).0 == a {
                            let ko = choose|k: int| 0 <= k < nr && os.rev_at(k).0 == a;
                            assert(ko != aio);
                            let kn = if ko < aio {
                                ko
                            } else {
                                ko - 1
                            };
                            assert(fin.rev_at(kn) == os.rev_at(ko));
                            assert(exists|k: int| 0 <= k < fin.n_rev() && fin.rev_at(k).0 == a);
                            let k2 = choose|k: int| 0 <= k < fin.n_rev() && fin.rev_at(k).0 == a;
                            if k2 != kn {
                                if k2 < kn {
                                    assert(fin.rev_at(k2).0 != fin.rev_at(kn).0);
                                } else {
                                    assert(fin.rev_at(kn).0 != fin.rev_at(k2).0);
                                }
                            }
                            assert(fin.rev_lookup(a) == Some(os.rev_at(ko).1));
                            let k3 = choose|k: int| 0 <= k < nr && os.rev_at(k).0 == a;
                            if k3 != ko {
                                if k3 < ko {
                                    assert(os.rev_at(k3).0 != os.rev_at(ko).0);
                                } else {
                                    assert(os.rev_at(ko).0 != os.rev_at(k3).0);
                                }
                            }
                            assert(os.rev_lookup(a) == Some(os.rev_at(ko).1));
                        } else {
                            if exists|k: int| 0 <= k < fin.n_rev() && fin.rev_at(k).0 == a {
                                let k2 = choose|k: int|
                                    0 <= k < fin.n_rev() && fin.rev_at(k).0 == a;
                                let kx = if k2 < aio {
                                    k2
                                } else {
                                    k2 + 1
                                };
                                assert(os.rev_at(kx).0 == a);
                                assert(false);
                            }
                        }
                    }
                    if fin.addr_bound(addr) {
                        let (i, j) = choose|i: int, j: int|
                            0 <= i < fin.n_sessions() && 0 <= j < fin.addrs_at(i).len() && (
                            #[trigger] fin.addrs_at(i)[j]).1 == addr;
                        assert(false);
                    }
                }
            },
        }
    }
}

} // verus!

verus! {

/// With pairwise-distinct keys, appending a pair leaves every other key's
/// binding unchanged.
pub proof fn lemma_key_addr_push(s: Seq<(u8, Addr)>, p: (u8, Addr), k: u8)
    requires
        k != p.0,
        forall|a: int, b: int| 0 <= a < b < s.len() ==> s[a].0 != s[b].0,
    ensures
        key_addr(s.push(p), k) == key_addr(s, k),
{
    let sp = s.push(p);
    if seq_has_key(s, k) {
        let j = choose|j: int| 0 <= j < s.len() && s[j].0 == k;
        assert(sp[j].0 == k);
        assert(seq_has_key(sp, k));
        let j2 = choose|j2: int| 0 <= j2 < sp.len() && sp[j2].0 == k;
        if j2 == s.len() as int {
            assert(sp[j2].0 == p.0);
        } else {
            if j2 < j {
                assert(s[j2].0 != s[j].0);
            } else if j2 > j {
                assert(s[j].0 != s[j2].0);
            }
        }
        assert(key_addr(sp, k) == Some(s[j].1));
        lemma_key_addr_at(s, j);
    } else {
        if seq_has_key(sp, k) {
            let j2 = choose|j2: int| 0 <= j2 < sp.len() && sp[j2].0 == k;
            if j2 < s.len() {
                assert(s[j2].0 == k);
            } else {
                assert(sp[j2].0 == p.0);
            }
            assert(false);
        }
    }
}

impl ShardedAddrs {
    /// The address a shard is currently bound to, if any.
    pub fn get_shard(&self, k: u8) -> (r: Option<Addr>)
        requires
            self.wf(),
        ensures
            r == key_addr(self.entries(), k),
    {
        match imap_get_index_of(&self.map, k) {
            Some(i) => {
                proof {
                    lemma_key_addr_at(self.entries(), i as int);
                }
                match imap_get_index(&self.map, i) {
                    Some(pair) => Some(pair.1),
                    None => {
                        proof {
                            assert(false);
                        }
                        None
                    },
                }
            },
            None => {
                proof {
                    assert(!seq_has_key(self.entries(), k));
                }
                None
            },
        }
    }
}

impl<S> SessionTable<S> {
    /// Rebinds shard `shard_id` of the session named by `token` to physical
    /// address `addr`, and returns whether the token was known. On success
    /// the address is evicted from wherever it was previously bound (any
    /// session, any shard), the shard's prior address leaves the reverse
    /// index, the new (address → token) entry enters it, and the session's
    /// rotation cursor moves to the rebound shard. An unknown token changes
    /// nothing.
    #[verifier::rlimit(100)]
    pub fn rebind(&mut self, addr: Addr, shard_id: u8, token: &Vec<u8>) -> (ok: bool)
        requires
            old(self).wf(),
        ensures
            final(self).wf(),
            ok == old(self).has_token(token@),
            !ok ==> *final(self) == *old(self),
            ok ==> {
                &&& final(self).n_sessions() == old(self).n_sessions()
                &&& forall|i: int|
                    0 <= i < old(self).n_sessions() ==> #[trigger] final(self).token_at(i) == old(
                        self,
                    ).token_at(i) && final(self).session_at(i) == old(self).session_at(i)
                &&& key_addr(final(self).addrs_at(old(self).sess_idx(token@)), shard_id) == Some(
                    addr,
                )
                &&& forall|i: int, k: u8|
                    0 <= i < old(self).n_sessions() && !(i == old(self).sess_idx(token@) && k
                        == shard_id) ==> #[trigger] key_addr(final(self).addrs_at(i), k) == (
                    if key_addr(old(self).addrs_at(i), k) == Some(addr) {
                        None
                    } else {
                        key_addr(old(self).addrs_at(i), k)
                    })
                &&& final(self).rev_lookup(addr) == Some(token@)
                &&& (match key_addr(old(self).addrs_at(old(self).sess_idx(token@)), shard_id) {
                    Some(pa) => pa != addr ==> final(self).rev_lookup(pa) is None,
                    None => true,
                })
                &&& forall|a: Addr|
                    a != addr && Some(a) != key_addr(
                        old(self).addrs_at(old(self).sess_idx(token@)),
                        shard_id,
                    ) ==> #[trigger] final(self).rev_lookup(a) == old(self).rev_lookup(a)
                &&& ({
                    let sa = final(self).sharded_at(old(self).sess_idx(token@));
                    sa.cursor() < sa.entries().len() && sa.entries()[sa.cursor() as int] == (
                    shard_id,
                    addr,
                    )
                })
            },
    {
        let ghost os = *old(self);
        let ghost tokv = token@;
        let ti = match self.find_token_idx(token) {
            None => {
                return false;
            },
            Some(i) => i,
        };
        let ghost tio = ti as int;
        proof {
            assert(os.sharded_at(tio).wf());
            // the found index is the one `sess_idx` denotes
            let si = os.sess_idx(tokv);
            assert(os.has_token(tokv));
            assert(0 <= si < os.n_sessions() && os.token_at(si) == tokv);
            if si != tio {
                if si < tio {
                    assert(os.token_at(si) != os.token_at(tio));
                } else {
                    assert(os.token_at(tio) != os.token_at(si));
                }
            }
            assert(os.sess_idx(tokv) == tio);
        }
        let pa_opt = self.sessions[ti].addrs.get_shard(shard_id);
        let ghost pa_spec = key_addr(os.addrs_at(tio), shard_id);
        self.unbind_addr(addr);
        let ghost mid = *self;
        if let Some(pa) = pa_opt {
            if pa != addr {
                self.unbind_addr(pa);
            }
        }
        let ghost mid2 = *self;
        proof {
            // after the evictions: the target slot is empty, and neither the
            // new address nor the displaced one is bound or indexed
            assert(mid2.n_sessions() == os.n_sessions());
            assert forall|i: int|
                0 <= i < os.n_sessions() implies #[trigger] mid2.token_at(i) == os.token_at(i)
                    && mid2.session_at(i) == os.session_at(i) by {
                assert(0 <= i < os.n_sessions());
                assert(mid.n_sessions() == os.n_sessions());
                assert(mid.token_at(i) == os.token_at(i));
                assert(mid.session_at(i) == os.session_at(i));
                assert(mid2.token_at(i) == mid.token_at(i));
                assert(mid2.session_at(i) == mid.session_at(i));
            }
            assert(key_addr(mid2.addrs_at(tio), shard_id) is None) by {
                match pa_spec {
                    Some(pa) => {
                        if pa == addr {
                            assert(key_addr(mid.addrs_at(tio), shard_id) is None);
                            if key_addr(mid2.addrs_at(tio), shard_id) is Some {
                                assert(key_addr(mid2.addrs_at(tio), shard_id) == (
                                if key_addr(mid.addrs_at(tio), shard_id) == Some(pa) {
                                    None
                                } else {
                                    key_addr(mid.addrs_at(tio), shard_id)
                                }));
                            }
                        } else {
                            assert(key_addr(mid.addrs_at(tio), shard_id) == Some(pa));
                            assert(key_addr(mid2.addrs_at(tio), shard_id) == (
                            if key_addr(mid.addrs_at(tio), shard_id) == Some(pa) {
                                None
                            } else {
                                key_addr(mid.addrs_at(tio), shard_id)
                            }));
                        }
                    },
                    None => {
                    },
                }
            }
            assert(!mid2.addr_bound(addr)) by {
                if mid2.addr_bound(addr) {
                    let (i, j) = choose|i: int, j: int|
                        0 <= i < mid2.n_sessions() && 0 <= j < mid2.addrs_at(i).len() && (
                        #[trigger] mid2.addrs_at(i)[j]).1 == addr;
                    let k = mid2.addrs_at(i)[j].0;
                    assert(mid2.sharded_at(i).wf());
                    lemma_key_addr_at(mid2.addrs_at(i), j);
                    assert(key_addr(mid2.addrs_at(i), k) == Some(addr));
                    match pa_spec {
                        Some(pa) => {
                            if pa != addr {
                                assert(key_addr(mid2.addrs_at(i), k) == (
                                if key_addr(mid.addrs_at(i), k) == Some(pa) {
                                    None
                                } else {
                                    key_addr(mid.addrs_at(i), k)
                                }));
                                assert(key_addr(mid.addrs_at(i), k) == Some(addr));
                            }
                        },
                        None => {},
                    }
                    assert(key_addr(mid.addrs_at(i), k) == Some(addr));
                    assert(key_addr(mid.addrs_at(i), k) == (
                    if key_addr(os.addrs_at(i), k) == Some(addr) {
                        None
                    } else {
                        key_addr(os.addrs_at(i), k)
                    }));
                    assert(false);
                }
            }
            assert(mid2.rev_lookup(addr) is None);
            assert(mid2.wf());
        }
        let mut e = self.sessions.remove(ti);
        let ghost base = e.addrs.entries();
        proof {
            assert(base == mid2.addrs_at(tio));
            assert(e.addrs.wf());
            assert(!e.addrs.has_shard(shard_id)) by {
                if e.addrs.has_shard(shard_id) {
                    let j = choose|j: int|
                        0 <= j < base.len() && base[j].0 == shard_id;
                    lemma_key_addr_at(base, j);
                }
            }
        }
        let _ = e.addrs.bind(shard_id, addr);
        self.sessions.insert(ti, e);
        self.addr_index.push((addr, token_clone(token)));
        proof {
            let fin = *self;
            let n = os.n_sessions();
            let nr2 = mid2.n_rev();
            // frame: one session's map grew by one slot; one reverse entry
            assert(fin.sessions@ =~= mid2.sessions@.remove(tio).insert(tio, e));
            assert forall|i: int| 0 <= i < n implies #[trigger] fin.sessions@[i] == (if i == tio {
                e
            } else {
                mid2.sessions@[i]
            }) by {
                mid2.sessions@.remove_ensures(tio);
                if i < tio {
                    assert(mid2.sessions@.remove(tio).insert(tio, e)[i] == mid2.sessions@.remove(
                        tio,
                    )[i]);
                } else if i > tio {
                    assert(mid2.sessions@.remove(tio).insert(tio, e)[i] == mid2.sessions@.remove(
                        tio,
                    )[i - 1]);
                }
            }
            assert(forall|i: int|
                0 <= i < n ==> #[trigger] fin.token_at(i) == mid2.token_at(i) && fin.session_at(i)
                    == mid2.session_at(i));
            assert(forall|i: int|
                0 <= i < n && i != tio ==> #[trigger] fin.sharded_at(i) == mid2.sharded_at(i));
            assert(fin.sharded_at(tio) == e.addrs);
            assert(fin.addrs_at(tio) == base.push((shard_id, addr)));
            assert(fin.n_rev() == nr2 + 1);
            assert(forall|k: int| 0 <= k < nr2 ==> #[trigger] fin.rev_at(k) == mid2.rev_at(k));
            assert(fin.rev_at(nr2) == (addr, tokv));
            assert(forall|k: int| 0 <= k < nr2 ==> (#[trigger] mid2.rev_at(k)).0 != addr);
            // invariant clauses, as after a fresh registration
            assert(fin.tokens_distinct());
            assert(fin.entries_wf()) by {
                assert forall|i: int|
                    0 <= i < fin.n_sessions() implies (#[trigger] fin.sharded_at(i)).wf() by {
                    if i != tio {
                        assert(fin.sharded_at(i) == mid2.sharded_at(i));
                        assert(mid2.sharded_at(i).wf());
                    }
                }
            }
            assert(fin.addrs_distinct()) by {
                assert forall|i1: int, j1: int, i2: int, j2: int|
                    0 <= i1 < fin.n_sessions() && 0 <= j1 < fin.addrs_at(i1).len() && 0 <= i2
                        < fin.n_sessions() && 0 <= j2 < fin.addrs_at(i2).len() && !(i1 == i2 && j1
                        == j2) implies (#[trigger] fin.addrs_at(i1)[j1]).1 != (
                #[trigger] fin.addrs_at(i2)[j2]).1 by {
                    let newslot1 = i1 == tio && j1 == base.len();
                    let newslot2 = i2 == tio && j2 == base.len();
                    if !newslot1 && !newslot2 {
                        assert(fin.addrs_at(i1)[j1] == mid2.addrs_at(i1)[j1]);
                        assert(fin.addrs_at(i2)[j2] == mid2.addrs_at(i2)[j2]);
                        assert(mid2.addrs_at(i1)[j1].1 != mid2.addrs_at(i2)[j2].1);
                    } else if newslot1 && !newslot2 {
                        assert(fin.addrs_at(i1)[j1].1 == addr);
                        assert(fin.addrs_at(i2)[j2] == mid2.addrs_at(i2)[j2]);
                        if mid2.addrs_at(i2)[j2].1 == addr {
                            Self::lemma_addr_bound_intro(mid2, i2, j2);
                        }
                    } else if newslot2 && !newslot1 {
                        assert(fin.addrs_at(i2)[j2].1 == addr);
                        assert(fin.addrs_at(i1)[j1] == mid2.addrs_at(i1)[j1]);
                        if mid2.addrs_at(i1)[j1].1 == addr {
                            Self::lemma_addr_bound_intro(mid2, i1, j1);
                        }
                    }
                }
            }
            assert(fin.rev_keys_distinct());
            assert(fin.fwd_in_rev()) by {
                assert forall|i: int, j: int|
                    0 <= i < fin.n_sessions() && 0 <= j < fin.addrs_at(i).len() implies fin.rev_maps(
                    (#[trigger] fin.addrs_at(i)[j]).1,
                    fin.token_at(i),
                ) by {
                    if i == tio && j == base.len() {
                        assert(fin.rev_at(nr2) == (fin.addrs_at(i)[j].1, fin.token_at(i)));
                        assert(fin.rev_maps(fin.addrs_at(i)[j].1, fin.token_at(i)));
                    } else {
                        assert(fin.addrs_at(i)[j] == mid2.addrs_at(i)[j]);
                        assert(mid2.rev_maps(mid2.addrs_at(i)[j].1, mid2.token_at(i)));
                        let k = choose|k: int|
                            0 <= k < nr2 && #[trigger] mid2.rev_at(k) == (mid2.addrs_at(i)[j].1, mid2.token_at(
                                i,
                            ));
                        assert(fin.rev_at(k) == (fin.addrs_at(i)[j].1, fin.token_at(i)));
                        assert(fin.rev_maps(fin.addrs_at(i)[j].1, fin.token_at(i)));
                    }
                }
            }
            assert(fin.rev_in_fwd()) by {
                assert forall|k: int| 0 <= k < fin.n_rev() implies fin.fwd_binds(
                    (#[trigger] fin.rev_at(k)).0,
                    fin.rev_at(k).1,
                ) by {
                    if k < nr2 {
                        assert(fin.rev_at(k) == mid2.rev_at(k));
                        assert(mid2.fwd_binds(mid2.rev_at(k).0, mid2.rev_at(k).1));
                        let (io, jo) = choose|io: int, jo: int|
                            0 <= io < mid2.n_sessions() && 0 <= jo < mid2.addrs_at(io).len()
                                && mid2.token_at(io) == mid2.rev_at(k).1 && (
                            #[trigger] mid2.addrs_at(io)[jo]).1 == mid2.rev_at(k).0;
                        if io == tio {
                            assert(fin.addrs_at(io)[jo] == base[jo]);
                            assert(fin.addrs_at(io)[jo] == mid2.addrs_at(io)[jo]);
                        } else {
                            assert(fin.addrs_at(io)[jo] == mid2.addrs_at(io)[jo]);
                        }
                        assert(fin.token_at(io) == fin.rev_at(k).1 && fin.addrs_at(io)[jo].1
                            == fin.rev_at(k).0);
                        assert(fin.fwd_binds(fin.rev_at(k).0, fin.rev_at(k).1));
                    } else {
                        assert(fin.rev_at(k) == (addr, tokv));
                        assert(fin.token_at(tio) == tokv);
                        assert(fin.addrs_at(tio)[base.len() as int].1 == addr);
                        assert(fin.fwd_binds(fin.rev_at(k).0, fin.rev_at(k).1));
                    }
                }
            }
            // the published clauses
            assert(key_addr(fin.addrs_at(tio), shard_id) == Some(addr)) by {
                lemma_key_addr_at(fin.addrs_at(tio), base.len() as int);
            }
            assert forall|i: int, k: u8|
                0 <= i < n && !(i == tio && k == shard_id) implies #[trigger] key_addr(
                fin.addrs_at(i),
                k,
            ) == (if key_addr(os.addrs_at(i), k) == Some(addr) {
                None
            } else {
                key_addr(os.addrs_at(i), k)
            }) by {
                // step through both evictions, then the append
                assert(key_addr(mid.addrs_at(i), k) == (if key_addr(os.addrs_at(i), k) == Some(
                    addr,
                ) {
                    None
                } else {
                    key_addr(os.addrs_at(i), k)
                }));
                let midv = key_addr(mid.addrs_at(i), k);
                let mid2v = key_addr(mid2.addrs_at(i), k);
                match pa_spec {
                    Some(pa) => {
                        if pa != addr {
                            assert(mid2v == (if midv == Some(pa) {
                                None
                            } else {
                                midv
                            }));
                            if midv == Some(pa) {
                                // only slot (tio, shard_id) held pa
                                assert(seq_has_key(mid.addrs_at(i), k));
                                let j = choose|j: int|
                                    0 <= j < mid.addrs_at(i).len() && mid.addrs_at(i)[j].0 == k;
                                assert(mid.sharded_at(i).wf());
                                lemma_key_addr_at(mid.addrs_at(i), j);
                                assert(mid.addrs_at(i)[j].1 == pa);
                                assert(seq_has_key(os.addrs_at(tio), shard_id)) by {
                                    if key_addr(os.addrs_at(tio), shard_id) is Some {
                                        assert(seq_has_key(os.addrs_at(tio), shard_id));
                                    }
                                }
                                let jp = choose|j: int|
                                    0 <= j < os.addrs_at(tio).len() && os.addrs_at(tio)[j].0
                                        == shard_id;
                                assert(os.addrs_at(tio)[jp].1 == pa);
                                // mid keeps (tio, shard_id) bound to pa, as pa != addr
                                assert(key_addr(mid.addrs_at(tio), shard_id) == Some(pa));
                                assert(seq_has_key(mid.addrs_at(tio), shard_id));
                                let jm = choose|j: int|
                                    0 <= j < mid.addrs_at(tio).len() && mid.addrs_at(tio)[j].0
                                        == shard_id;
                                assert(mid.sharded_at(tio).wf());
                                lemma_key_addr_at(mid.addrs_at(tio), jm);
                                assert(mid.addrs_at(tio)[jm].1 == pa);
                                // two slots of `mid` bound to pa must be one
                                assert(!(i == tio && j == jm) ==> mid.addrs_at(i)[j].1
                                    != mid.addrs_at(tio)[jm].1);
                                assert(i == tio && j == jm);
                                assert(k == shard_id);
                                assert(false);
                            }
                        }
                    },
                    None => {},
                }
                assert(mid2v == midv);
                if i == tio {
                    assert(fin.addrs_at(tio) == base.push((shard_id, addr)));
                    assert(e.addrs.wf());
                    lemma_key_addr_push(base, (shard_id, addr), k);
                    assert(key_addr(fin.addrs_at(i), k) == mid2v);
                } else {
                    assert(fin.addrs_at(i) == mid2.addrs_at(i));
                }
            }
            assert(fin.rev_lookup(addr) == Some(tokv)) by {
                assert(fin.rev_at(nr2).0 == addr);
                let k = choose|k: int| 0 <= k < fin.n_rev() && fin.rev_at(k).0 == addr;
                if k != nr2 {
                    assert(fin.rev_at(k) == mid2.rev_at(k));
                }
            }
            assert forall|a: Addr| a != addr implies #[trigger] fin.rev_lookup(a)
                == mid2.rev_lookup(a) by {
                if exists|k: int| 0 <= k < nr2 && mid2.rev_at(k).0 == a {
                    let k = choose|k: int| 0 <= k < nr2 && mid2.rev_at(k).0 == a;
                    assert(fin.rev_at(k).0 == a);
                    let k2 = choose|k2: int| 0 <= k2 < fin.n_rev() && fin.rev_at(k2).0 == a;
                    assert(k2 != nr2);
                    if k2 != k {
                        if k2 < k {
                            assert(fin.rev_at(k2).0 != fin.rev_at(k).0);
                        } else {
                            assert(fin.rev_at(k).0 != fin.rev_at(k2).0);
                        }
                    }
                    let k3 = choose|k3: int| 0 <= k3 < nr2 && mid2.rev_at(k3).0 == a;
                    if k3 != k {
                        if k3 < k {
                            assert(mid2.rev_at(k3).0 != mid2.rev_at(k).0);
                        } else {
                            assert(mid2.rev_at(k).0 != mid2.rev_at(k3).0);
                        }
                    }
                } else {
                    if exists|k: int| 0 <= k < fin.n_rev() && fin.rev_at(k).0 == a {
                        let k2 = choose|k2: int| 0 <= k2 < fin.n_rev() && fin.rev_at(k2).0 == a;
                        assert(k2 != nr2);
                        assert(mid2.rev_at(k2).0 == a);
                        assert(false);
                    }
                }
            }
            match pa_spec {
                Some(pa) => {
                    if pa != addr {
                        assert(mid2.rev_lookup(pa) is None);
                        assert(fin.rev_lookup(pa) is None);
                    }
                },
                None => {},
            }
            assert forall|a: Addr| a != addr && Some(a) != pa_spec implies #[trigger] fin.rev_lookup(
                a,
            ) == os.rev_lookup(a) by {
                assert(mid.rev_lookup(a) == os.rev_lookup(a));
                match pa_spec {
                    Some(pa) => {
                        if pa != addr {
                            assert(mid2.rev_lookup(a) == mid.rev_lookup(a));
                        }
                    },
                    None => {},
                }
                assert(fin.rev_lookup(a) == mid2.rev_lookup(a));
            }
            assert(fin.n_sessions() == os.n_sessions());
            assert forall|i: int|
                0 <= i < os.n_sessions() implies #[trigger] fin.token_at(i) == os.token_at(i)
                    && fin.session_at(i) == os.session_at(i) by {
                assert(fin.token_at(i) == mid2.token_at(i) && fin.session_at(i) == mid2.session_at(
                    i,
                ));
                assert(mid2.token_at(i) == os.token_at(i) && mid2.session_at(i) == os.session_at(
                    i,
                ));
            }
        }
        true
    }
}

} // verus!

verus! {

/// Whether `a` is among the addresses of the first `p` pairs.
pub open spec fn among(vals: Seq<(u8, Addr)>, p: int, a: Addr) -> bool {
    exists|x: int| 0 <= x < p && (#[trigger] vals[x]).1 == a
}

/// Extending the prefix by one pair adds exactly that pair's address.
pub proof fn lemma_among_step(vals: Seq<(u8, Addr)>, p: int, a: Addr)
    requires
        0 <= p < vals.len(),
    ensures
        among(vals, p + 1, a) == (among(vals, p, a) || vals[p].1 == a),
{
    if among(vals, p + 1, a) {
        let x = choose|x: int| 0 <= x < p + 1 && (#[trigger] vals[x]).1 == a;
        if x < p {
            assert(among(vals, p, a));
        } else {
            assert(vals[p].1 == a);
        }
    }
    if among(vals, p, a) {
        let x = choose|x: int| 0 <= x < p && (#[trigger] vals[x]).1 == a;
        assert(0 <= x < p + 1 && vals[x].1 == a);
        assert(among(vals, p + 1, a));
    }
    if vals[p].1 == a {
        assert(0 <= p < p + 1 && vals[p].1 == a);
        assert(among(vals, p + 1, a));
    }
}

impl<S> SessionTable<S> {
    /// Removes the session named by `token`, unregistering every address any
    /// of its shards had bound from the reverse index. Deleting an unknown
    /// token is a no-op.
    #[verifier::rlimit(100)]
    pub fn delete(&mut self, token: &Vec<u8>)
        requires
            old(self).wf(),
        ensures
            final(self).wf(),
            !old(self).has_token(token@) ==> *final(self) == *old(self),
            !final(self).has_token(token@),
            forall|t: Seq<u8>|
                t != token@ ==> (final(self).has_token(t) == old(self).has_token(t)),
            forall|t: Seq<u8>, k: u8|
                t != token@ && old(self).has_token(t) ==> #[trigger] key_addr(
                    final(self).addrs_of(t),
                    k,
                ) == key_addr(old(self).addrs_of(t), k) && final(self).session_of(t) == old(
                    self,
                ).session_of(t),
            forall|a: Addr|
                #[trigger] final(self).rev_lookup(a) == (if old(self).rev_lookup(a) == Some(
                    token@,
                ) {
                    None::<Seq<u8>>
                } else {
                    old(self).rev_lookup(a)
                }),
    {
        let ghost os = *old(self);
        let ghost tokv = token@;
        let ti = match self.find_token_idx(token) {
            None => {
                proof {
                    assert forall|a: Addr| #[trigger] os.rev_lookup(a) != Some(tokv) by {
                        if os.rev_lookup(a) == Some(tokv) {
                            let k = choose|k: int| 0 <= k < os.n_rev() && os.rev_at(k).0 == a;
                            assert(os.fwd_binds(os.rev_at(k).0, os.rev_at(k).1));
                            let (i, j) = choose|i: int, j: int|
                                0 <= i < os.n_sessions() && 0 <= j < os.addrs_at(i).len()
                                    && os.token_at(i) == os.rev_at(k).1 && (
                                #[trigger] os.addrs_at(i)[j]).1 == os.rev_at(k).0;
                            assert(os.token_at(i) == tokv);
                            assert(os.has_token(tokv));
                        }
                    }
                }
                return ;
            },
            Some(i) => i,
        };
        let ghost tio = ti as int;
        proof {
            let si = os.sess_idx(tokv);
            assert(os.has_token(tokv));
            assert(0 <= si < os.n_sessions() && os.token_at(si) == tokv);
            if si != tio {
                if si < tio {
                    assert(os.token_at(si) != os.token_at(tio));
                } else {
                    assert(os.token_at(tio) != os.token_at(si));
                }
            }
            assert(os.sess_idx(tokv) == tio);
        }
        let pairs = self.sessions[ti].addrs.pairs();
        let np = pairs.len();
        let mut p: usize = 0;
        proof {
            assert(pairs@ == os.addrs_at(tio));
            assert forall|i: int, k: u8| 0 <= i < os.n_sessions() implies #[trigger] key_addr(
                self.addrs_at(i),
                k,
            ) == (if (match key_addr(os.addrs_at(i), k) {
                Some(v) => among(pairs@, 0, v),
                None => false,
            }) {
                None
            } else {
                key_addr(os.addrs_at(i), k)
            }) by {
                if key_addr(os.addrs_at(i), k) is Some {
                    let v = key_addr(os.addrs_at(i), k).unwrap();
                    assert(!among(pairs@, 0, v));
                }
            }
            assert forall|a: Addr| #[trigger] self.rev_lookup(a) == (if among(pairs@, 0, a) {
                None
            } else {
                os.rev_lookup(a)
            }) by {
                assert(!among(pairs@, 0, a));
            }
        }
        while p < np
            invariant
                self.wf(),
                0 <= p <= np,
                np == pairs@.len(),
                0 <= tio < os.n_sessions(),
                os.wf(),
                os.token_at(tio) == tokv,
                pairs@ == os.addrs_at(tio),
                self.n_sessions() == os.n_sessions(),
                forall|i: int|
                    0 <= i < os.n_sessions() ==> #[trigger] self.token_at(i) == os.token_at(i)
                        && self.session_at(i) == os.session_at(i),
                forall|i: int, k: u8|
                    0 <= i < os.n_sessions() ==> #[trigger] key_addr(self.addrs_at(i), k) == (
                    if (match key_addr(os.addrs_at(i), k) {
                        Some(v) => among(pairs@, p as int, v),
                        None => false,
                    }) {
                        None
                    } else {
                        key_addr(os.addrs_at(i), k)
                    }),
                forall|a: Addr|
                    #[trigger] self.rev_lookup(a) == (if among(pairs@, p as int, a) {
                        None
                    } else {
                        os.rev_lookup(a)
                    }),
            decreases np - p,
        {
            let ghost pre = *self;
            let a = pairs[p].1;
            self.unbind_addr(a);
            proof {
                let cur = *self;
                let pi = p as int;
                assert forall|i: int, k: u8| 0 <= i < os.n_sessions() implies #[trigger] key_addr(
                    cur.addrs_at(i),
                    k,
                ) == (if (match key_addr(os.addrs_at(i), k) {
                    Some(v) => among(pairs@, pi + 1, v),
                    None => false,
                }) {
                    None
                } else {
                    key_addr(os.addrs_at(i), k)
                }) by {
                    assert(key_addr(cur.addrs_at(i), k) == (if key_addr(pre.addrs_at(i), k)
                        == Some(a) {
                        None
                    } else {
                        key_addr(pre.addrs_at(i), k)
                    }));
                    match key_addr(os.addrs_at(i), k) {
                        Some(v) => {
                            lemma_among_step(pairs@, pi, v);
                        },
                        None => {},
                    }
                }
                assert forall|aa: Addr| #[trigger] cur.rev_lookup(aa) == (if among(
                    pairs@,
                    pi + 1,
                    aa,
                ) {
                    None
                } else {
                    os.rev_lookup(aa)
                }) by {
                    lemma_among_step(pairs@, pi, aa);
                    if aa == a {
                        assert(cur.rev_lookup(a) is None);
                    } else {
                        assert(cur.rev_lookup(aa) == pre.rev_lookup(aa));
                    }
                }
                assert forall|i: int|
                    0 <= i < os.n_sessions() implies #[trigger] cur.token_at(i) == os.token_at(i)
                        && cur.session_at(i) == os.session_at(i) by {
                    assert(0 <= i < pre.n_sessions());
                    assert(cur.token_at(i) == pre.token_at(i) && cur.session_at(i)
                        == pre.session_at(i));
                }
            }
            p += 1;
        }
        // every binding of the doomed session is now gone; its slot list is
        // empty, so removing the entry leaves the reverse index exact
        proof {
            let mu = *self;
            assert(mu.addrs_at(tio).len() == 0) by {
                if mu.addrs_at(tio).len() > 0 {
                    let k0 = mu.addrs_at(tio)[0].0;
                    assert(mu.sharded_at(tio).wf());
                    lemma_key_addr_at(mu.addrs_at(tio), 0);
                    let v0 = mu.addrs_at(tio)[0].1;
                    assert(key_addr(mu.addrs_at(tio), k0) == Some(v0));
                    assert(key_addr(mu.addrs_at(tio), k0) == (
                    if (match key_addr(os.addrs_at(tio), k0) {
                        Some(v) => among(pairs@, np as int, v),
                        None => false,
                    }) {
                        None
                    } else {
                        key_addr(os.addrs_at(tio), k0)
                    }));
                    assert(false);
                }
            }
        }
        let ghost mu = *self;
        let _ = self.sessions.remove(ti);
        proof {
            let fin = *self;
            let n = os.n_sessions();
            let nm = n - 1;
            // frame: sessions lose position tio, the reverse index is as it was
            assert(fin.sessions@ == mu.sessions@.remove(tio));
            mu.sessions@.remove_ensures(tio);
            assert forall|i: int| 0 <= i < nm implies #[trigger] fin.sessions@[i] == (if i < tio {
                mu.sessions@[i]
            } else {
                mu.sessions@[i + 1]
            }) by {}
            assert(fin.n_rev() == mu.n_rev());
            assert(forall|k: int| 0 <= k < mu.n_rev() ==> #[trigger] fin.rev_at(k) == mu.rev_at(k));
            assert(fin.tokens_distinct()) by {
                assert forall|i: int, j: int|
                    0 <= i < j < fin.n_sessions() implies fin.token_at(i) != fin.token_at(j) by {
                    let ia = if i < tio { i } else { i + 1 };
                    let ja = if j < tio { j } else { j + 1 };
                    assert(fin.token_at(i) == mu.token_at(ia));
                    assert(fin.token_at(j) == mu.token_at(ja));
                    assert(mu.token_at(ia) != mu.token_at(ja));
                }
            }
            assert(fin.entries_wf()) by {
                assert forall|i: int|
                    0 <= i < fin.n_sessions() implies (#[trigger] fin.sharded_at(i)).wf() by {
                    let ia = if i < tio { i } else { i + 1 };
                    assert(fin.sharded_at(i) == mu.sharded_at(ia));
                    assert(mu.sharded_at(ia).wf());
                }
            }
            assert(fin.addrs_distinct()) by {
                assert forall|i1: int, j1: int, i2: int, j2: int|
                    0 <= i1 < fin.n_sessions() && 0 <= j1 < fin.addrs_at(i1).len() && 0 <= i2
                        < fin.n_sessions() && 0 <= j2 < fin.addrs_at(i2).len() && !(i1 == i2 && j1
                        == j2) implies (#[trigger] fin.addrs_at(i1)[j1]).1 != (
                #[trigger] fin.addrs_at(i2)[j2]).1 by {
                    let ia = if i1 < tio { i1 } else { i1 + 1 };
                    let ib = if i2 < tio { i2 } else { i2 + 1 };
                    assert(fin.addrs_at(i1)[j1] == mu.addrs_at(ia)[j1]);
                    assert(fin.addrs_at(i2)[j2] == mu.addrs_at(ib)[j2]);
                    assert(mu.addrs_at(ia)[j1].1 != mu.addrs_at(ib)[j2].1);
                }
            }
            assert(fin.rev_keys_distinct());
            assert(fin.fwd_in_rev()) by {
                assert forall|i: int, j: int|
                    0 <= i < fin.n_sessions() && 0 <= j < fin.addrs_at(i).len() implies fin.rev_maps(
                    (#[trigger] fin.addrs_at(i)[j]).1,
                    fin.token_at(i),
                ) by {
                    let ia = if i < tio { i } else { i + 1 };
                    assert(fin.addrs_at(i)[j] == mu.addrs_at(ia)[j]);
                    assert(fin.token_at(i) == mu.token_at(ia));
                    assert(mu.rev_maps(mu.addrs_at(ia)[j].1, mu.token_at(ia)));
                    let k = choose|k: int|
                        0 <= k < mu.n_rev() && #[trigger] mu.rev_at(k) == (mu.addrs_at(ia)[j].1, mu.token_at(
                            ia,
                        ));
                    assert(fin.rev_at(k) == (fin.addrs_at(i)[j].1, fin.token_at(i)));
                    assert(fin.rev_maps(fin.addrs_at(i)[j].1, fin.token_at(i)));
                }
            }
            assert(fin.rev_in_fwd()) by {
                assert forall|k: int| 0 <= k < fin.n_rev() implies fin.fwd_binds(
                    (#[trigger] fin.rev_at(k)).0,
                    fin.rev_at(k).1,
                ) by {
                    assert(fin.rev_at(k) == mu.rev_at(k));
                    assert(mu.fwd_binds(mu.rev_at(k).0, mu.rev_at(k).1));
                    let (io, jo) = choose|io: int, jo: int|
                        0 <= io < mu.n_sessions() && 0 <= jo < mu.addrs_at(io).len()
                            && mu.token_at(io) == mu.rev_at(k).1 && (
                        #[trigger] mu.addrs_at(io)[jo]).1 == mu.rev_at(k).0;
                    assert(io != tio);
                    let ia = if io < tio { io } else { io - 1 };
                    assert(fin.addrs_at(ia)[jo] == mu.addrs_at(io)[jo]);
                    assert(fin.token_at(ia) == mu.token_at(io));
                    assert(fin.fwd_binds(fin.rev_at(k).0, fin.rev_at(k).1));
                }
            }
            // published clauses
            assert(!fin.has_token(tokv)) by {
                if fin.has_token(tokv) {
                    let i = choose|i: int| 0 <= i < fin.n_sessions() && fin.token_at(i) == tokv;
                    let ia = if i < tio { i } else { i + 1 };
                    assert(fin.token_at(i) == mu.token_at(ia));
                    assert(ia != tio);
                    if ia < tio {
                        assert(os.token_at(ia) != os.token_at(tio));
                    } else {
                        assert(os.token_at(tio) != os.token_at(ia));
                    }
                    assert(false);
                }
            }
            assert forall|t: Seq<u8>| t != tokv implies (fin.has_token(t) == os.has_token(t)) by {
                if fin.has_token(t) {
                    let i = choose|i: int| 0 <= i < fin.n_sessions() && fin.token_at(i) == t;
                    let ia = if i < tio { i } else { i + 1 };
                    assert(fin.token_at(i) == mu.token_at(ia));
                    assert(mu.token_at(ia) == os.token_at(ia));
                    assert(os.token_at(ia) == t);
                    assert(os.has_token(t));
                }
                if os.has_token(t) {
                    let i = choose|i: int| 0 <= i < os.n_sessions() && os.token_at(i) == t;
                    assert(i != tio);
                    let ia = if i < tio { i } else { i - 1 };
                    assert(fin.token_at(ia) == mu.token_at(i));
                    assert(fin.has_token(t));
                }
            }
            assert forall|t: Seq<u8>, k: u8| t != tokv && os.has_token(t) implies #[trigger] key_addr(
                fin.addrs_of(t),
                k,
            ) == key_addr(os.addrs_of(t), k) && fin.session_of(t) == os.session_of(t) by {
                let i = os.sess_idx(t);
                assert(0 <= i < os.n_sessions() && os.token_at(i) == t);
                assert(i != tio);
                let ia = if i < tio { i } else { i - 1 };
                assert(fin.token_at(ia) == mu.token_at(i));
                assert(mu.token_at(i) == os.token_at(i));
                assert(fin.token_at(ia) == t);
                assert(fin.has_token(t));
                let i2 = fin.sess_idx(t);
                assert(0 <= i2 < fin.n_sessions() && fin.token_at(i2) == t);
                if i2 != ia {
                    let ib = if i2 < tio { i2 } else { i2 + 1 };
                    assert(fin.token_at(i2) == mu.token_at(ib));
                    assert(mu.token_at(ib) == os.token_at(ib));
                    assert(os.token_at(ib) == t);
                    if ib != i {
                        if ib < i {
                            assert(os.token_at(ib) != os.token_at(i));
                        } else {
                            assert(os.token_at(i) != os.token_at(ib));
                        }
                    }
                    assert(false);
                }
                assert(fin.sharded_at(ia) == mu.sharded_at(i));
                assert(fin.session_at(ia) == mu.session_at(i));
                assert(key_addr(mu.addrs_at(i), k) == (if (match key_addr(os.addrs_at(i), k) {
                    Some(v) => among(pairs@, np as int, v),
                    None => false,
                }) {
                    None
                } else {
                    key_addr(os.addrs_at(i), k)
                }));
                match key_addr(os.addrs_at(i), k) {
                    Some(v) => {
                        if among(pairs@, np as int, v) {
                            // another session's binding cannot be among the
                            // deleted session's addresses
                            let x = choose|x: int|
                                0 <= x < np && (#[trigger] pairs@[x]).1 == v;
                            assert(os.addrs_at(tio)[x].1 == v);
                            assert(seq_has_key(os.addrs_at(i), k));
                            let j = choose|j: int|
                                0 <= j < os.addrs_at(i).len() && os.addrs_at(i)[j].0 == k;
                            assert(os.addrs_at(i)[j].1 == v);
                            assert(!(i == tio && j == x));
                            assert(os.addrs_at(i)[j].1 != os.addrs_at(tio)[x].1);
                            assert(false);
                        }
                    },
                    None => {},
                }
            }
            assert forall|a: Addr| #[trigger] fin.rev_lookup(a) == (if os.rev_lookup(a) == Some(
                tokv,
            ) {
                None::<Seq<u8>>
            } else {
                os.rev_lookup(a)
            }) by {
                // the reverse index is untouched by the final removal
                assert(fin.rev_lookup(a) == mu.rev_lookup(a)) by {
                    if exists|k: int| 0 <= k < mu.n_rev() && mu.rev_at(k).0 == a {
                        let k = choose|k: int| 0 <= k < mu.n_rev() && mu.rev_at(k).0 == a;
                        assert(fin.rev_at(k).0 == a);
                        let k2 = choose|k2: int| 0 <= k2 < fin.n_rev() && fin.rev_at(k2).0 == a;
                        if k2 != k {
                            if k2 < k {
                                assert(fin.rev_at(k2).0 != fin.rev_at(k).0);
                            } else {
                                assert(fin.rev_at(k).0 != fin.rev_at(k2).0);
                            }
                        }
                        let k3 = choose|k3: int| 0 <= k3 < mu.n_rev() && mu.rev_at(k3).0 == a;
                        if k3 != k {
                            if k3 < k {
                                assert(mu.rev_at(k3).0 != mu.rev_at(k).0);
                            } else {
                                assert(mu.rev_at(k).0 != mu.rev_at(k3).0);
                            }
                        }
                    } else {
                        if exists|k: int| 0 <= k < fin.n_rev() && fin.rev_at(k).0 == a {
                            let k2 = choose|k2: int|
                                0 <= k2 < fin.n_rev() && fin.rev_at(k2).0 == a;
                            assert(mu.rev_at(k2).0 == a);
                            assert(false);
                        }
                    }
                }
                assert(mu.rev_lookup(a) == (if among(pairs@, np as int, a) {
                    None::<Seq<u8>>
                } else {
                    os.rev_lookup(a)
                }));
                // among the session's addresses iff the reverse index said `tokv`
                if among(pairs@, np as int, a) {
                    let x = choose|x: int| 0 <= x < np && (#[trigger] pairs@[x]).1 == a;
                    assert(os.addrs_at(tio)[x].1 == a);
                    assert(os.rev_maps(os.addrs_at(tio)[x].1, os.token_at(tio)));
                    let k = choose|k: int|
                        0 <= k < os.n_rev() && #[trigger] os.rev_at(k) == (a, tokv);
                    let k2 = choose|k2: int| 0 <= k2 < os.n_rev() && os.rev_at(k2).0 == a;
                    if k2 != k {
                        if k2 < k {
                            assert(os.rev_at(k2).0 != os.rev_at(k).0);
                        } else {
                            assert(os.rev_at(k).0 != os.rev_at(k2).0);
                        }
                    }
                    assert(os.rev_lookup(a) == Some(tokv));
                } else {
                    if os.rev_lookup(a) == Some(tokv) {
                        let k = choose|k: int| 0 <= k < os.n_rev() && os.rev_at(k).0 == a;
                        assert(os.fwd_binds(os.rev_at(k).0, os.rev_at(k).1));
                        let (io, jo) = choose|io: int, jo: int|
                            0 <= io < os.n_sessions() && 0 <= jo < os.addrs_at(io).len()
                                && os.token_at(io) == os.rev_at(k).1 && (
                            #[trigger] os.addrs_at(io)[jo]).1 == os.rev_at(k).0;
                        assert(os.token_at(io) == tokv);
                        if io != tio {
                            if io < tio {
                                assert(os.token_at(io) != os.token_at(tio));
                            } else {
                                assert(os.token_at(tio) != os.token_at(io));
                            }
                        }
                        assert(os.addrs_at(tio)[jo].1 == a);
                        assert(among(pairs@, np as int, a));
                        assert(false);
                    }
                }
            }
        }
    }
}

} // verus!

verus! {

/// The cursor position after `k` selections all made within the quiescence
/// window, starting from cursor `c0` over `n` slots: each one advances a
/// single slot, wrapping.
pub open spec fn burst_cursor(c0: int, n: int, k: nat) -> int
    decreases k,
{
    if k == 0 {
        c0
    } else {
        (burst_cursor(c0, n, (k - 1) as nat) + 1) % n
    }
}

/// Round-robin law: a run of `k` rapid selections lands the cursor on
/// `(c0 + k) mod n`. With `get_addr`'s contract this makes the returned
/// addresses walk the map cyclically in insertion order, every slot once
/// per `n` calls; a selection made after the window has elapsed repeats
/// the previous slot instead.
pub proof fn lemma_round_robin(c0: int, n: int, k: nat)
    requires
        n > 0,
        0 <= c0 < n,
    ensures
        burst_cursor(c0, n, k) == (c0 + k) % n,
    decreases k,
{
    if k == 0 {
        vstd::arithmetic::div_mod::lemma_small_mod(c0 as nat, n as nat);
    } else {
        lemma_round_robin(c0, n, (k - 1) as nat);
        let a = c0 + k - 1;
        vstd::arithmetic::div_mod::lemma_add_mod_noop(a, 1, n);
        if n == 1 {
            vstd::arithmetic::div_mod::lemma_small_mod(0, 1);
            assert((a % 1 + 1) % 1 == (a + 1) % 1);
        } else {
            vstd::arithmetic::div_mod::lemma_small_mod(1, n as nat);
        }
        assert((a % n + 1) % n == (a + 1) % n);
    }
}

} // verus!

verus! {

impl<S> SessionTable<S> {
    /// The address one shard of one session is currently bound to, if the
    /// token is known and the shard bound; read-only.
    pub fn shard_addr_of(&self, token: &Vec<u8>, shard: u8) -> (r: Option<Addr>)
        requires
            self.wf(),
        ensures
            self.has_token(token@) ==> r == key_addr(self.addrs_of(token@), shard),
            !self.has_token(token@) ==> r is None,
    {
        match self.find_token_idx(token) {
            None => None,
            Some(i) => {
                proof {
                    assert(self.sharded_at(i as int).wf());
                    let si = self.sess_idx(token@);
                    assert(self.has_token(token@));
                    assert(0 <= si < self.n_sessions() && self.token_at(si) == token@);
                    if si != i as int {
                        if si < i as int {
                            assert(self.token_at(si) != self.token_at(i as int));
                        } else {
                            assert(self.token_at(i as int) != self.token_at(si));
                        }
                    }
                }
                self.sessions[i].addrs.get_shard(shard)
            },
        }
    }
}

} // verus!

verus! {

impl<S> SessionTable<S> {
    /// Consistency law: under the invariant — which `new`, `new_sess`,
    /// `rebind` and `delete` all preserve — the reverse index holds an
    /// entry for an address exactly when some live session's shard map
    /// binds it: no orphans, no omissions; and the entry names the owning
    /// token's session.
    pub proof fn lemma_reverse_index_exact(t: SessionTable<S>, a: Addr)
        requires
            t.wf(),
        ensures
            (t.rev_lookup(a) is Some) <==> t.addr_bound(a),
            t.rev_lookup(a) is Some ==> t.fwd_binds(a, t.rev_lookup(a).unwrap()),
    {
        if t.rev_lookup(a) is Some {
            let k = choose|k: int| 0 <= k < t.n_rev() && t.rev_at(k).0 == a;
            assert(t.fwd_binds(t.rev_at(k).0, t.rev_at(k).1));
            let (i, j) = choose|i: int, j: int|
                0 <= i < t.n_sessions() && 0 <= j < t.addrs_at(i).len() && t.token_at(i)
                    == t.rev_at(k).1 && (#[trigger] t.addrs_at(i)[j]).1 == t.rev_at(k).0;
            Self::lemma_addr_bound_intro(t, i, j);
        }
        if t.addr_bound(a) {
            let (i, j) = choose|i: int, j: int|
                0 <= i < t.n_sessions() && 0 <= j < t.addrs_at(i).len() && (
                #[trigger] t.addrs_at(i)[j]).1 == a;
            assert(t.rev_maps(t.addrs_at(i)[j].1, t.token_at(i)));
            let k = choose|k: int|
                0 <= k < t.n_rev() && #[trigger] t.rev_at(k) == (a, t.token_at(i));
            assert(t.rev_at(k).0 == a);
            assert(t.rev_lookup(a) is Some);
        }
    }
}

} // verus!
