//! The sticky round-robin routing core.
//!
//! The routing state is a table from session id to backend index together
//! with a cycling cursor into the backend pool. `route_choice` and
//! `route_next` say, at the mathematical level, which backend a request is
//! sent to and how the state changes; the exec `LoadBalancer` is proved to
//! follow them exactly. Bindings learned from backend responses enter the
//! table through `record`. The table only ever grows: no entry is ever
//! evicted, a deliberate reproduction of the design's unbounded session
//! store. Likewise deliberate: a client-supplied, never-server-issued
//! session id becomes a valid sticky key merely by being presented once
//! (see `route_next`), so a client can choose its own affinity key before
//! any backend has issued it via `Set-Cookie`.

use vstd::prelude::*;
use vstd::pervasive::VecAdditionalExecFns;
use vstd::string::StringSliceAdditionalSpecFns;

use crate::ascii_bytes;
use crate::bytes::{bytes_eq, copy_bytes};
use crate::headers::{get_session_id, spec_session_id, RequestHeader, ResponseHeader};

verus! {

/// The mathematical state of the routing core: the affinity table, the
/// round-robin cursor, and the pool size.
pub ghost struct RouteState {
    pub table: Map<Seq<u8>, int>,
    pub cursor: int,
    pub n: int,
}

/// A well-formed routing state: a nonempty pool, the cursor inside it, and
/// every table entry naming a backend of the pool.
pub open spec fn wf_state(s: RouteState) -> bool {
    &&& s.n > 0
    &&& 0 <= s.cursor < s.n
    &&& forall|k: Seq<u8>| s.table.contains_key(k) ==> 0 <= #[trigger] s.table[k] < s.n
}

/// The backend a request carrying `sid` is routed to: its table binding when
/// one exists (sticky), the cursor's backend otherwise (round robin).
pub open spec fn route_choice(s: RouteState, sid: Option<Seq<u8>>) -> int {
    match sid {
        Some(id) => if s.table.contains_key(id) {
            s.table[id]
        } else {
            s.cursor
        },
        None => s.cursor,
    }
}

/// The state after routing one request carrying `sid`: a sticky hit changes
/// nothing; otherwise the cursor advances with wraparound, and an unknown id
/// is bound to the backend just chosen.
pub open spec fn route_next(s: RouteState, sid: Option<Seq<u8>>) -> RouteState {
    match sid {
        Some(id) => if s.table.contains_key(id) {
            s
        } else {
            RouteState {
                table: s.table.insert(id, s.cursor),
                cursor: (s.cursor + 1) % s.n,
                n: s.n,
            }
        },
        None => RouteState { table: s.table, cursor: (s.cursor + 1) % s.n, n: s.n },
    }
}

/// The state after a backend response bound `id` to `backend` via
/// `Set-Cookie`: the binding overwrites any earlier one.
pub open spec fn record(s: RouteState, id: Seq<u8>, backend: int) -> RouteState {
    RouteState { table: s.table.insert(id, backend), cursor: s.cursor, n: s.n }
}

/// The reading of an optional session id argument.
pub open spec fn sid_view(sid: Option<&Vec<u8>>) -> Option<Seq<u8>> {
    match sid {
        Some(v) => Some(v@),
        None => None,
    }
}

/// The affinity table that an association list denotes; later entries win.
pub open spec fn assoc_map(s: Seq<(Vec<u8>, usize)>) -> Map<Seq<u8>, int>
    decreases s.len(),
{
    if s.len() == 0 {
        Map::empty()
    } else {
        assoc_map(s.drop_last()).insert(s.last().0@, s.last().1 as int)
    }
}

proof fn lemma_assoc_map_keys(s: Seq<(Vec<u8>, usize)>)
    ensures
        forall|k: Seq<u8>|
            assoc_map(s).contains_key(k) <==> exists|i: int|
                0 <= i < s.len() && (#[trigger] s[i]).0@ == k,
    decreases s.len(),
{
    if s.len() > 0 {
        lemma_assoc_map_keys(s.drop_last());
        assert forall|k: Seq<u8>| assoc_map(s).contains_key(k) implies exists|i: int|
            0 <= i < s.len() && (#[trigger] s[i]).0@ == k by {
            if s.last().0@ == k {
                assert((s[s.len() - 1]).0@ == k);
            } else {
                assert(assoc_map(s.drop_last()).contains_key(k));
                let i = choose|i: int| 0 <= i < s.drop_last().len() && (#[trigger] s.drop_last()[i]).0@ == k;
                assert(s.drop_last()[i] == s[i]);
                assert((s[i]).0@ == k);
            }
        }
        assert forall|k: Seq<u8>|
            (exists|i: int| 0 <= i < s.len() && (#[trigger] s[i]).0@ == k) implies assoc_map(
            s,
        ).contains_key(k) by {
            let i = choose|i: int| 0 <= i < s.len() && (#[trigger] s[i]).0@ == k;
            if i == s.len() - 1 {
                assert(s.last().0@ == k);
            } else {
                assert(s.drop_last()[i] == s[i]);
                assert((s.drop_last()[i]).0@ == k);
                assert(assoc_map(s.drop_last()).contains_key(k));
            }
        }
    }
}

proof fn lemma_assoc_map_lookup(s: Seq<(Vec<u8>, usize)>, j: int)
    requires
        forall|a: int, b: int| 0 <= a < b < s.len() ==> (#[trigger] s[a]).0@ != (#[trigger] s[b]).0@,
        0 <= j < s.len(),
    ensures
        assoc_map(s).contains_key(s[j].0@),
        assoc_map(s)[s[j].0@] == s[j].1 as int,
    decreases s.len(),
{
    if j == s.len() - 1 {
    } else {
        assert(s[j].0@ != s[s.len() - 1].0@);
        assert(s.drop_last()[j] == s[j]);
        lemma_assoc_map_lookup(s.drop_last(), j);
    }
}

proof fn lemma_assoc_map_update(s: Seq<(Vec<u8>, usize)>, j: int, e: (Vec<u8>, usize))
    requires
        forall|a: int, b: int| 0 <= a < b < s.len() ==> (#[trigger] s[a]).0@ != (#[trigger] s[b]).0@,
        0 <= j < s.len(),
        e.0@ == s[j].0@,
    ensures
        assoc_map(s.update(j, e)) == assoc_map(s).insert(e.0@, e.1 as int),
    decreases s.len(),
{
    let t = s.update(j, e);
    if j == s.len() - 1 {
        assert(t.drop_last() =~= s.drop_last());
        assert(t.last() == e);
        assert(assoc_map(s.drop_last()).insert(s.last().0@, s.last().1 as int).insert(
            e.0@,
            e.1 as int,
        ) =~= assoc_map(s.drop_last()).insert(e.0@, e.1 as int));
    } else {
        assert(t.drop_last() =~= s.drop_last().update(j, e));
        assert(t.last() == s.last());
        assert(s.drop_last()[j] == s[j]);
        lemma_assoc_map_update(s.drop_last(), j, e);
        assert(s[j].0@ != s[s.len() - 1].0@);
        assert(assoc_map(s.drop_last()).insert(e.0@, e.1 as int).insert(
            s.last().0@,
            s.last().1 as int,
        ) =~= assoc_map(s.drop_last()).insert(s.last().0@, s.last().1 as int).insert(
            e.0@,
            e.1 as int,
        ));
    }
}

/// The routing state after `k` round-robin picks with no session cookie.
pub open spec fn rr_iter(s: RouteState, k: nat) -> RouteState
    decreases k,
{
    if k == 0 {
        s
    } else {
        route_next(rr_iter(s, (k - 1) as nat), None)
    }
}

/// Round robin cycles through the pool: with no session cookie ever
/// presented, the `i`-th pick is backend `(cursor + i) mod n`, and the
/// affinity table never changes.
pub proof fn lemma_round_robin(s: RouteState, i: nat)
    requires
        wf_state(s),
    ensures
        wf_state(rr_iter(s, i)),
        rr_iter(s, i).table == s.table,
        rr_iter(s, i).n == s.n,
        rr_iter(s, i).cursor == (s.cursor + i) % s.n,
        route_choice(rr_iter(s, i), None) == (s.cursor + i) % s.n,
    decreases i,
{
    if i == 0 {
        vstd::arithmetic::div_mod::lemma_small_mod(s.cursor as nat, s.n as nat);
    } else {
        lemma_round_robin(s, (i - 1) as nat);
        let m = rr_iter(s, (i - 1) as nat).cursor;
        vstd::arithmetic::div_mod::lemma_mod_division_less_than_divisor(m + 1, s.n);
        vstd::arithmetic::div_mod::lemma_small_mod(m as nat, s.n as nat);
        vstd::arithmetic::div_mod::lemma_add_mod_noop(m, 1, s.n);
        vstd::arithmetic::div_mod::lemma_add_mod_noop(s.cursor + i - 1, 1, s.n);
        assert((m + 1) % s.n == ((m % s.n) + (1int % s.n)) % s.n);
        assert(((s.cursor + i - 1) % s.n + 1int % s.n) % s.n == (s.cursor + i) % s.n);
    }
}

/// Round robin with wraparound: starting at the first backend, `n + 1`
/// cookieless picks in a row are backends `0, 1, ..., n - 1, 0` in pool
/// order.
pub proof fn lemma_round_robin_wraparound(s: RouteState, i: nat)
    requires
        wf_state(s),
        s.cursor == 0,
        i <= s.n,
    ensures
        route_choice(rr_iter(s, i), None) == if i < s.n {
            i as int
        } else {
            0int
        },
{
    lemma_round_robin(s, i);
    if i < s.n {
        vstd::arithmetic::div_mod::lemma_small_mod(i, s.n as nat);
    } else {
        vstd::arithmetic::div_mod::lemma_mod_self_0(s.n);
    }
}

/// Session affinity is authoritative: once a backend response carrying
/// `Set-Cookie: sessionID=id` has been recorded for `backend`, a request
/// carrying that id is routed to exactly that backend, whatever the cursor
/// position, and routing it changes nothing.
pub proof fn lemma_sticky_after_record(s: RouteState, id: Seq<u8>, backend: int)
    requires
        wf_state(s),
        0 <= backend < s.n,
    ensures
        wf_state(record(s, id, backend)),
        route_choice(record(s, id, backend), Some(id)) == backend,
        route_next(record(s, id, backend), Some(id)) == record(s, id, backend),
{
}

/// Routing never disturbs an existing binding: whatever request is routed,
/// with whatever cookie, a session id already in the table keeps its
/// backend. Only a later `Set-Cookie` record can change it, so stickiness
/// holds across any number of subsequent requests.
pub proof fn lemma_binding_stable(s: RouteState, sid: Option<Seq<u8>>, id: Seq<u8>)
    requires
        s.table.contains_key(id),
    ensures
        route_next(s, sid).table.contains_key(id),
        route_next(s, sid).table[id] == s.table[id],
{
}

/// A request carrying an unrecognized session id is still routed by round
/// robin, and binds its id to the backend so chosen: immediately afterwards
/// a request with the same id is sticky to that backend, while the cursor
/// has advanced exactly as for a plain round-robin pick.
pub proof fn lemma_unknown_id_binds(s: RouteState, id: Seq<u8>)
    requires
        wf_state(s),
        !s.table.contains_key(id),
    ensures
        wf_state(route_next(s, Some(id))),
        route_choice(s, Some(id)) == route_choice(s, None),
        route_choice(s, Some(id)) == s.cursor,
        route_next(s, Some(id)).table == s.table.insert(id, s.cursor),
        route_next(s, Some(id)).cursor == route_next(s, None).cursor,
        route_choice(route_next(s, Some(id)), Some(id)) == s.cursor,
        route_next(route_next(s, Some(id)), Some(id)) == route_next(s, Some(id)),
{
    vstd::arithmetic::div_mod::lemma_mod_division_less_than_divisor(s.cursor + 1, s.n);
}

/// A request with no session cookie mutates nothing but the cursor: in
/// particular it creates no affinity-table entry, so a failed connection
/// attempt for such a request leaves no trace in the table.
pub proof fn lemma_no_cookie_no_entry(s: RouteState)
    requires
        wf_state(s),
    ensures
        wf_state(route_next(s, None)),
        route_next(s, None).table == s.table,
        route_next(s, None).n == s.n,
{
    vstd::arithmetic::div_mod::lemma_mod_division_less_than_divisor(s.cursor + 1, s.n);
}

/// The HTTP load balancer's routing state: the sticky-session table, the
/// backend pool, and the round-robin cursor. One value of this type is the
/// shared state of the balancer; callers serialize access to it (each call
/// of a `&mut self` method is one atomic critical section).
pub struct LoadBalancer {
    /// Bind address of the load balancer.
    address: String,
    /// Sticky bindings: session id to backend index.
    db: Vec<(Vec<u8>, usize)>,
    /// The backend pool, immutable after construction.
    servers: Vec<String>,
    /// Index of the backend to use for the next round-robin pick.
    next_server_index: usize,
    /// If true, callers are expected to log status messages.
    verbose: bool,
}

impl View for LoadBalancer {
    type V = RouteState;

    closed spec fn view(&self) -> RouteState {
        RouteState {
            table: assoc_map(self.db@),
            cursor: self.next_server_index as int,
            n: self.servers@.len() as int,
        }
    }
}

impl LoadBalancer {
    /// The backend pool's addresses, in order.
    pub closed spec fn servers_view(&self) -> Seq<Seq<char>> {
        Seq::new(self.servers@.len(), |i: int| self.servers@[i]@)
    }

    /// The configured bind address.
    pub closed spec fn address_view(&self) -> Seq<char> {
        self.address@
    }

    /// The configured verbosity flag.
    pub closed spec fn verbose_view(&self) -> bool {
        self.verbose
    }

    /// The representation invariant: unique session ids, every binding into
    /// the pool, the cursor in range.
    pub closed spec fn wf(&self) -> bool {
        &&& self.servers@.len() > 0
        &&& (self.next_server_index as int) < self.servers@.len()
        &&& forall|a: int, b: int|
            0 <= a < b < self.db@.len() ==> (#[trigger] self.db@[a]).0@ != (
            #[trigger] self.db@[b]).0@
        &&& forall|i: int|
            0 <= i < self.db@.len() ==> ((#[trigger] self.db@[i]).1 as int) < self.servers@.len()
    }

    /// A well-formed balancer denotes a well-formed routing state.
    pub proof fn lemma_wf_state(&self)
        requires
            self.wf(),
        ensures
            wf_state(self@),
    {
        lemma_assoc_map_keys(self.db@);
        assert forall|k: Seq<u8>| self@.table.contains_key(k) implies 0 <= #[trigger] self@.table[k]
            < self@.n by {
            let i = choose|i: int| 0 <= i < self.db@.len() && (#[trigger] self.db@[i]).0@ == k;
            lemma_assoc_map_lookup(self.db@, i);
        }
    }

    /// Creates a new load balancer over the given backend pool.
    ///
    /// The pool must hold at least one address, otherwise `None` is
    /// returned. The fresh state has an empty affinity table and the cursor
    /// on the first backend.
    pub fn new(address: &str, server_addrs: &Vec<String>, verbose: bool) -> (r: Option<
        LoadBalancer,
    >)
        ensures
            r is None <==> server_addrs@.len() == 0,
            r matches Some(lb) ==> {
                &&& lb.wf()
                &&& lb@ == (RouteState {
                    table: Map::<Seq<u8>, int>::empty(),
                    cursor: 0,
                    n: server_addrs@.len() as int,
                })
                &&& lb.servers_view() == Seq::new(server_addrs@.len(), |i: int| server_addrs@[i]@)
                &&& lb.address_view() == address@
                &&& lb.verbose_view() == verbose
            },
    {
        if server_addrs.len() == 0 {
            return None;
        }
        let mut servers: Vec<String> = Vec::new();
        let mut i: usize = 0;
        while i < server_addrs.len()
            invariant
                i <= server_addrs@.len(),
                servers@.len() == i,
                forall|j: int| 0 <= j < i ==> (#[trigger] servers@[j])@ == server_addrs@[j]@,
            decreases server_addrs@.len() - i,
        {
            servers.push(server_addrs[i].clone());
            i += 1;
        }
        let lb = LoadBalancer {
            address: address.to_owned(),
            db: Vec::new(),
            servers,
            next_server_index: 0,
            verbose,
        };
        proof {
            assert(lb@.table =~= Map::<Seq<u8>, int>::empty());
            assert(lb.servers_view() =~= Seq::new(server_addrs@.len(), |i: int| server_addrs@[i]@));
        }
        Some(lb)
    }

    /// The configured bind address, for the caller that binds the socket.
    pub fn address(&self) -> (r: &String)
        ensures
            r@ == self.address_view(),
    {
        &self.address
    }

    /// Whether status messages should be logged.
    pub fn verbose(&self) -> (r: bool)
        ensures
            r == self.verbose_view(),
    {
        self.verbose
    }

    /// How many backends the pool holds.
    pub fn backend_count(&self) -> (r: usize)
        ensures
            r as int == self@.n,
    {
        self.servers.len()
    }

    /// The address of backend `i`.
    pub fn backend_address(&self, i: usize) -> (r: &String)
        requires
            (i as int) < self@.n,
        ensures
            r@ == self.servers_view()[i as int],
    {
        &self.servers[i]
    }

    /// The backend bound to `id`, if the affinity table knows it.
    pub fn session_backend(&self, id: &Vec<u8>) -> (r: Option<usize>)
        requires
            self.wf(),
        ensures
            match r {
                Some(b) => self@.table.contains_key(id@) && b as int == self@.table[id@],
                None => !self@.table.contains_key(id@),
            },
    {
        let mut i: usize = 0;
        while i < self.db.len()
            invariant
                self.wf(),
                i <= self.db@.len(),
                forall|j: int| 0 <= j < i ==> (#[trigger] self.db@[j]).0@ != id@,
            decreases self.db@.len() - i,
        {
            if bytes_eq(self.db[i].0.as_slice(), id.as_slice()) {
                proof {
                    lemma_assoc_map_lookup(self.db@, i as int);
                }
                return Some(self.db[i].1);
            }
            i += 1;
        }
        proof {
            lemma_assoc_map_keys(self.db@);
        }
        None
    }

    /// Routes one request that carried `session_id` (or none): a sticky hit
    /// is served from the table and changes nothing; otherwise the cursor's
    /// backend is chosen, the cursor advances with wraparound, and an
    /// unknown id is bound to the chosen backend. Exactly `route_choice` and
    /// `route_next` over the old state.
    pub fn choose_backend(&mut self, session_id: Option<&Vec<u8>>) -> (r: usize)
        requires
            old(self).wf(),
        ensures
            final(self).wf(),
            r as int == route_choice(old(self)@, sid_view(session_id)),
            final(self)@ == route_next(old(self)@, sid_view(session_id)),
            (r as int) < old(self)@.n,
            final(self).servers_view() == old(self).servers_view(),
            final(self).address_view() == old(self).address_view(),
            final(self).verbose_view() == old(self).verbose_view(),
    {
        proof {
            old(self).lemma_wf_state();
        }
        let mut pending: bool = false;
        match session_id {
            Some(id) => {
                match self.session_backend(id) {
                    Some(b) => {
                        return b;
                    },
                    None => {
                        pending = true;
                    },
                }
            },
            None => {},
        }
        let idx = self.next_server_index;
        let len = self.servers.len();
        assert(idx < len);
        self.next_server_index = (idx + 1) % len;
        if pending {
            let id = match session_id {
                Some(id) => id,
                None => {
                    proof {
                        assert(false);
                    }
                    return idx;
                },
            };
            let ghost olddb = self.db@;
            self.db.push((copy_bytes(id.as_slice()), idx));
            proof {
                let e = (self.db@.last().0, self.db@.last().1);
                assert(self.db@.last().0@ == id@);
                assert(self.db@.drop_last() =~= olddb);
                assert(assoc_map(self.db@) =~= assoc_map(olddb).insert(id@, idx as int));
                lemma_assoc_map_keys(olddb);
                assert forall|a: int, b: int|
                    0 <= a < b < self.db@.len() implies (#[trigger] self.db@[a]).0@ != (
                #[trigger] self.db@[b]).0@ by {
                    if b == self.db@.len() - 1 {
                        assert(olddb[a] == self.db@[a]);
                    } else {
                        assert(olddb[a] == self.db@[a]);
                        assert(olddb[b] == self.db@[b]);
                    }
                }
            }
        }
        proof {
            assert(final(self)@.table =~= route_next(old(self)@, sid_view(session_id)).table);
        }
        idx
    }

    /// Binds `id` to `backend`, overwriting any earlier binding. This is how
    /// a `Set-Cookie: sessionID=...` seen on a backend response becomes
    /// authoritative.
    pub fn record_session(&mut self, id: &Vec<u8>, backend: usize)
        requires
            old(self).wf(),
            (backend as int) < old(self)@.n,
        ensures
            final(self).wf(),
            final(self)@ == record(old(self)@, id@, backend as int),
            final(self).servers_view() == old(self).servers_view(),
            final(self).address_view() == old(self).address_view(),
            final(self).verbose_view() == old(self).verbose_view(),
    {
        let found = self.find_session_index(id);
        match found {
            Some(i) => {
                let ghost olddb = self.db@;
                self.db.set(i, (copy_bytes(id.as_slice()), backend));
                proof {
                    lemma_assoc_map_update(olddb, i as int, (self.db@[i as int].0, backend));
                    assert(self.db@[i as int].0@ == id@);
                    assert(assoc_map(self.db@) == assoc_map(olddb).insert(id@, backend as int));
                    assert forall|a: int, b: int|
                        0 <= a < b < self.db@.len() implies (#[trigger] self.db@[a]).0@ != (
                    #[trigger] self.db@[b]).0@ by {
                        assert(olddb[a].0@ == self.db@[a].0@ || a == i);
                        assert(olddb[b].0@ == self.db@[b].0@ || b == i);
                    }
                }
            },
            None => {
                let ghost olddb = self.db@;
                self.db.push((copy_bytes(id.as_slice()), backend));
                proof {
                    assert(self.db@.last().0@ == id@);
                    assert(self.db@.drop_last() =~= olddb);
                    assert(assoc_map(self.db@) =~= assoc_map(olddb).insert(id@, backend as int));
                    assert forall|a: int, b: int|
                        0 <= a < b < self.db@.len() implies (#[trigger] self.db@[a]).0@ != (
                    #[trigger] self.db@[b]).0@ by {
                        if b == self.db@.len() - 1 {
                            assert(olddb[a] == self.db@[a]);
                        } else {
                            assert(olddb[a] == self.db@[a]);
                            assert(olddb[b] == self.db@[b]);
                        }
                    }
                }
            },
        }
    }

    /// Where `id` sits in the association list, if anywhere.
    fn find_session_index(&self, id: &Vec<u8>) -> (r: Option<usize>)
        ensures
            match r {
                Some(j) => (j as int) < self.db@.len() && self.db@[j as int].0@ == id@,
                None => forall|j: int|
                    0 <= j < self.db@.len() ==> (#[trigger] self.db@[j]).0@ != id@,
            },
    {
        let mut i: usize = 0;
        while i < self.db.len()
            invariant
                i <= self.db@.len(),
                forall|j: int| 0 <= j < i ==> (#[trigger] self.db@[j]).0@ != id@,
            decreases self.db@.len() - i,
        {
            if bytes_eq(self.db[i].0.as_slice(), id.as_slice()) {
                return Some(i);
            }
            i += 1;
        }
        None
    }

    /// Routes one parsed request header:
    /// the session id is the first `sessionID=` cookie among the request's
    /// `Cookie` headers, and the choice and state change are `route_choice`
    /// and `route_next` over it.
    pub fn route_request(&mut self, request: &RequestHeader) -> (r: usize)
        requires
            old(self).wf(),
        ensures
            final(self).wf(),
            r as int == route_choice(
                old(self)@,
                spec_session_id(request@.headers, ascii_bytes("Cookie"@)),
            ),
            final(self)@ == route_next(
                old(self)@,
                spec_session_id(request@.headers, ascii_bytes("Cookie"@)),
            ),
            (r as int) < old(self)@.n,
            final(self).servers_view() == old(self).servers_view(),
            final(self).address_view() == old(self).address_view(),
            final(self).verbose_view() == old(self).verbose_view(),
    {
        proof {
            reveal_strlit("Cookie");
            assert(vstd::string::is_ascii("Cookie"));
            vstd::string::is_ascii_spec_bytes("Cookie");
            assert("Cookie".spec_bytes() =~= ascii_bytes("Cookie"@));
        }
        let sid = get_session_id(&request.headers, "Cookie");
        match sid {
            Some(id) => self.choose_backend(Some(&id)),
            None => self.choose_backend(None),
        }
    }

    /// Notes one parsed backend response: if a
    /// `Set-Cookie` header carries a `sessionID=` cookie, its id is bound to
    /// the backend that sent the response; otherwise nothing changes.
    pub fn note_response(&mut self, response: &ResponseHeader, backend: usize)
        requires
            old(self).wf(),
            (backend as int) < old(self)@.n,
        ensures
            final(self).wf(),
            final(self)@ == match spec_session_id(response@.headers, ascii_bytes("Set-Cookie"@)) {
                Some(id) => record(old(self)@, id, backend as int),
                None => old(self)@,
            },
            final(self).servers_view() == old(self).servers_view(),
            final(self).address_view() == old(self).address_view(),
            final(self).verbose_view() == old(self).verbose_view(),
    {
        proof {
            reveal_strlit("Set-Cookie");
            assert(vstd::string::is_ascii("Set-Cookie"));
            vstd::string::is_ascii_spec_bytes("Set-Cookie");
            assert("Set-Cookie".spec_bytes() =~= ascii_bytes("Set-Cookie"@));
        }
        match get_session_id(&response.headers, "Set-Cookie") {
            Some(id) => {
                self.record_session(&id, backend);
            },
            None => {},
        }
    }
}

} // verus!
