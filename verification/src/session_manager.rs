//! The mixing sessions that are running, each with the input ports it was
//! given, and the port pool they draw from.
//!
//! The media pipeline of a session is built and run by the caller; this
//! table only records it under the session's name.

use crate::port_range_manager::{
    lemma_release_all_in_use, ports_between, release_all, PortRangeError, PortRangeManager,
};
use vstd::prelude::*;

verus! {

/// Why a session operation was refused.
#[derive(Debug, Clone, Copy, PartialEq, Eq, Structural)]
pub enum SessionError {
    /// Fewer ports are free than the session asks for.
    NotEnoughPorts,
    /// No session goes by the given name.
    NotFound,
}

impl SessionError {
    /// The text the refusal is reported with, for the session named
    /// `session_id`.
    pub fn message(&self, session_id: &str) -> (s: String)
        ensures
            *self == SessionError::NotEnoughPorts ==> s@ == "Not enough available ports"@,
            *self == SessionError::NotFound ==> s@ == "Session "@ + session_id@ + " not found"@,
    {
        match self {
            SessionError::NotEnoughPorts => String::from_str("Not enough available ports"),
            SessionError::NotFound => {
                let mut s = String::from_str("Session ");
                s.append(session_id);
                s.append(" not found");
                s
            },
        }
    }
}

struct Session<P> {
    id: String,
    input_ports: Vec<u16>,
    pipeline: P,
}

/// The map that a list of named entries stands for: each name to the value
/// of its last entry.
pub open spec fn map_of<V>(s: Seq<(Seq<char>, V)>) -> Map<Seq<char>, V>
    decreases s.len(),
{
    if s.len() == 0 {
        Map::empty()
    } else {
        map_of(s.drop_last()).insert(s.last().0, s.last().1)
    }
}

/// No name occurs twice in the list.
pub open spec fn names_distinct<V>(s: Seq<(Seq<char>, V)>) -> bool {
    forall|i: int, j: int| 0 <= i < j < s.len() ==> s[i].0 != s[j].0
}

/// The sessions by name, each with its input ports and its pipeline; the
/// ports taken for the session that is being set up; and the pool of ports
/// that the sessions draw from. The operations keep `wf`, which
/// `MixerSessionManager` holds as its type invariant.
struct SessionTable<P> {
    sessions: Vec<Session<P>>,
    pending_ports: Vec<u16>,
    port_range_manager: PortRangeManager,
}

/// A copy of a list of ports.
fn copy_ports(v: &Vec<u16>) -> (r: Vec<u16>)
    ensures
        r@ == v@,
{
    let mut r: Vec<u16> = Vec::new();
    let mut i: usize = 0;
    while i < v.len()
        invariant
            0 <= i <= v@.len(),
            r@ == v@.take(i as int),
        decreases v@.len() - i,
    {
        r.push(v[i]);
        i = i + 1;
        assert(r@ =~= v@.take(i as int));
    }
    assert(v@.take(v@.len() as int) =~= v@);
    r
}

impl<P> SessionTable<P> {
    closed spec fn entries(&self) -> Seq<(Seq<char>, (Seq<u16>, P))> {
        self.sessions@.map_values(|e: Session<P>| (e.id@, (e.input_ports@, e.pipeline)))
    }

    closed spec fn session_ports(&self, i: int) -> Seq<u16> {
        self.sessions@[i].input_ports@
    }

    /// Each session's name, to its input ports and its pipeline.
    closed spec fn sessions(&self) -> Map<Seq<char>, (Seq<u16>, P)> {
        map_of(self.entries())
    }

    /// The ports taken from the pool for the session being set up, which
    /// the next `insert_session` gives to it.
    closed spec fn pending(&self) -> Seq<u16> {
        self.pending_ports@
    }

    /// The port pool.
    closed spec fn ports(&self) -> PortRangeManager {
        self.port_range_manager
    }

    /// The ports that the sessions and the pending list hold are all in use,
    /// none is held twice, and no two of them hold the same port.
    closed spec fn ports_held(&self) -> bool {
        let used = self.port_range_manager.used();
        let n = self.sessions@.len();
        &&& self.pending_ports@.no_duplicates()
        &&& forall|p: u16| #[trigger] self.pending_ports@.contains(p) ==> used.contains(p)
        &&& forall|i: int| 0 <= i < n ==> (#[trigger] self.session_ports(i)).no_duplicates()
        &&& forall|i: int, p: u16|
            0 <= i < n && #[trigger] self.session_ports(i).contains(p) ==> used.contains(p)
                && !self.pending_ports@.contains(p)
        &&& forall|i: int, j: int, p: u16|
            0 <= i < n && 0 <= j < n && i != j && #[trigger] self.session_ports(i).contains(p)
                ==> !(#[trigger] self.session_ports(j)).contains(p)
    }

    /// The table keeps one entry per name, the pool is well formed, and the
    /// sessions hold their ports as `ports_held` says.
    closed spec fn wf(&self) -> bool {
        &&& names_distinct(self.entries())
        &&& self.port_range_manager.wf()
        &&& self.ports_held()
    }

    /// No sessions, and the ports `port_range.0..=port_range.1` all free.
    fn new(port_range: (u16, u16)) -> (m: Self)
        ensures
            m.wf(),
            m.sessions() == Map::<Seq<char>, (Seq<u16>, P)>::empty(),
            m.pending() == Seq::<u16>::empty(),
            m.ports().available() == ports_between(port_range.0, port_range.1),
            m.ports().used() == Set::<u16>::empty(),
            m.ports().pool() == ports_between(port_range.0, port_range.1).to_set(),
    {
        let m = SessionTable {
            sessions: Vec::new(),
            pending_ports: Vec::new(),
            port_range_manager: PortRangeManager::new(port_range.0, port_range.1),
        };
        assert(m.entries() =~= Seq::empty());
        m
    }

    /// Takes `num_input_ports` ports from the pool for the session being set
    /// up, as `PortRangeManager::allocate_ports` does, and keeps them as
    /// its pending ports (ports pending from an earlier attempt stay in
    /// use); the sessions are unchanged.
    fn allocate_input_ports(&mut self, num_input_ports: usize) -> (res: Result<Vec<u16>, SessionError>)
        requires
            old(self).wf(),
        ensures
            final(self).wf(),
            final(self).sessions() == old(self).sessions(),
            final(self).ports().pool() == old(self).ports().pool(),
            match res {
                Ok(ports) => {
                    &&& num_input_ports <= old(self).ports().available().len()
                    &&& ports@ == old(self).ports().available().take(num_input_ports as int)
                    &&& final(self).pending() == ports@
                    &&& final(self).ports().available() == old(self).ports().available().skip(
                        num_input_ports as int,
                    )
                    &&& final(self).ports().used() == old(self).ports().used().union(ports@.to_set())
                },
                Err(e) => {
                    &&& old(self).ports().available().len() < num_input_ports
                    &&& e == SessionError::NotEnoughPorts
                    &&& final(self).pending() == old(self).pending()
                    &&& final(self).ports().available() == old(self).ports().available()
                    &&& final(self).ports().used() == old(self).ports().used()
                },
            },
    {
        let ghost used0 = self.port_range_manager.used();
        let ghost avail0 = self.port_range_manager.available();
        match self.port_range_manager.allocate_ports(num_input_ports) {
            Ok(ports) => {
                self.pending_ports = copy_ports(&ports);
                proof {
                    let used1 = self.port_range_manager.used();
                    assert forall|p: u16| #[trigger] self.pending_ports@.contains(p) implies used1.contains(p) by {
                        assert(ports@.to_set().contains(p));
                    }
                    assert forall|i: int, p: u16|
                        0 <= i < self.sessions@.len() && #[trigger] self.session_ports(i).contains(p)
                        implies used1.contains(p) && !self.pending_ports@.contains(p) by {
                        assert(old(self).session_ports(i).contains(p));
                        assert(used0.contains(p));
                        if ports@.contains(p) {
                            let k = choose|k: int| 0 <= k < ports@.len() && ports@[k] == p;
                            assert(avail0[k] == p);
                            assert(avail0.contains(p));
                        }
                    }
                    assert forall|i: int, j: int, p: u16|
                        0 <= i < self.sessions@.len() && 0 <= j < self.sessions@.len() && i != j
                            && #[trigger] self.session_ports(i).contains(p)
                        implies !(#[trigger] self.session_ports(j)).contains(p) by {
                        assert(old(self).session_ports(i).contains(p));
                        assert(old(self).session_ports(j) == self.session_ports(j));
                    }
                    assert forall|i: int| 0 <= i < self.sessions@.len() implies (
                    #[trigger] self.session_ports(i)).no_duplicates() by {
                        assert(old(self).session_ports(i) == self.session_ports(i));
                    }
                    assert(self.entries() == old(self).entries());
                    assert(self.ports_held());
                }
                Ok(ports)
            },
            Err(PortRangeError::NotEnoughPorts) => {
                proof {
                    assert(self.entries() == old(self).entries());
                    assert(self.port_range_manager.used() == used0);
                    assert forall|i: int| 0 <= i < self.sessions@.len() implies #[trigger] self.session_ports(i)
                        == old(self).session_ports(i) by {}
                    assert(self.ports_held());
                }
                Err(SessionError::NotEnoughPorts)
            },
        }
    }

    /// The position of the session named `key`, if there is one.
    fn find(&self, key: &String) -> (res: Option<usize>)
        ensures
            match res {
                Some(i) => i < self.entries().len() && self.entries()[i as int].0 == key@,
                None => forall|i: int| 0 <= i < self.entries().len() ==> self.entries()[i].0 != key@,
            },
    {
        let mut i: usize = 0;
        while i < self.sessions.len()
            invariant
                0 <= i <= self.sessions@.len(),
                forall|j: int| 0 <= j < i ==> self.entries()[j].0 != key@,
            decreases self.sessions@.len() - i,
        {
            if self.sessions[i].id == *key {
                return Some(i);
            }
            i = i + 1;
        }
        None
    }

    /// Records the session `session_id` with its pipeline and the pending
    /// ports as its input ports; nothing is pending afterwards. A session of
    /// that name that was there before is dropped, and its ports stay in
    /// use.
    fn insert_session(&mut self, session_id: String, pipeline: P)
        requires
            old(self).wf(),
        ensures
            final(self).wf(),
            final(self).sessions() == old(self).sessions().insert(
                session_id@,
                (old(self).pending(), pipeline),
            ),
            final(self).pending() == Seq::<u16>::empty(),
            final(self).ports() == old(self).ports(),
    {
        let ghost old_entries = self.entries();
        let ghost key = session_id@;
        let ghost value = (self.pending_ports@, pipeline);
        let ghost mut rest = old_entries;
        let ghost mut removed: int = -1;
        match self.find(&session_id) {
            Some(i) => {
                let _ = self.sessions.remove(i);
                proof {
                    assert(self.entries() =~= old_entries.remove(i as int));
                    lemma_map_of_remove(old_entries, i as int);
                    lemma_remove_keeps_distinct(old_entries, i as int);
                    rest = old_entries.remove(i as int);
                    removed = i as int;
                    assert forall|j: int| 0 <= j < rest.len() implies rest[j].0 != key by {
                        if j < i {
                            assert(rest[j] == old_entries[j]);
                        } else {
                            assert(rest[j] == old_entries[j + 1]);
                        }
                    }
                }
            },
            None => {},
        }
        let ghost kept = self.sessions@;
        assert(forall|a: int|
            0 <= a < kept.len() ==> #[trigger] kept[a] == old(self).sessions@[if 0 <= removed && a
                >= removed {
                a + 1
            } else {
                a
            }]);
        let mut input_ports: Vec<u16> = Vec::new();
        std::mem::swap(&mut input_ports, &mut self.pending_ports);
        self.sessions.push(Session { id: session_id, input_ports, pipeline });
        proof {
            assert(self.entries() =~= rest.push((key, value)));
            assert(rest.push((key, value)).drop_last() =~= rest);
            assert(map_of(rest.push((key, value))) == map_of(rest).insert(key, value));
            assert(map_of(rest).insert(key, value) =~= old(self).sessions().insert(key, value));
            let n = self.sessions@.len();
            let used = self.port_range_manager.used();
            assert(n == kept.len() + 1);
            assert(self.session_ports(n - 1) == old(self).pending());
            assert forall|a: int| 0 <= a < n - 1 implies #[trigger] self.session_ports(a)
                == old(self).session_ports(if 0 <= removed && a >= removed {
                a + 1
            } else {
                a
            }) by {
                assert(self.sessions@[a] == kept[a]);
            }
            assert forall|a: int| 0 <= a < n implies (#[trigger] self.session_ports(a)).no_duplicates() by {
                if a < n - 1 {
                    let b = if 0 <= removed && a >= removed { a + 1 } else { a };
                    assert(old(self).session_ports(b).no_duplicates());
                }
            }
            assert forall|a: int, p: u16|
                0 <= a < n && #[trigger] self.session_ports(a).contains(p)
                implies used.contains(p) && !self.pending_ports@.contains(p) by {
                if a < n - 1 {
                    let b = if 0 <= removed && a >= removed { a + 1 } else { a };
                    assert(old(self).session_ports(b).contains(p));
                } else {
                    assert(old(self).pending().contains(p));
                }
            }
            assert forall|a: int, c: int, p: u16|
                0 <= a < n && 0 <= c < n && a != c && #[trigger] self.session_ports(a).contains(p)
                implies !(#[trigger] self.session_ports(c)).contains(p) by {
                let a2 = if 0 <= removed && a >= removed { a + 1 } else { a };
                let c2 = if 0 <= removed && c >= removed { c + 1 } else { c };
                if a < n - 1 && c < n - 1 {
                    assert(old(self).session_ports(a2).contains(p));
                    if old(self).session_ports(c2).contains(p) {
                        assert(a2 != c2);
                    }
                } else if a < n - 1 {
                    assert(old(self).session_ports(a2).contains(p));
                    assert(!old(self).pending().contains(p));
                } else {
                    assert(old(self).pending().contains(p));
                    if self.session_ports(c).contains(p) {
                        assert(old(self).session_ports(c2).contains(p));
                    }
                }
            }
        }
    }

    /// The pipeline of the session named `session_id`.
    fn get_session(&self, session_id: &str) -> (res: Result<&P, SessionError>)
        requires
            self.wf(),
        ensures
            match res {
                Ok(p) => self.sessions().contains_key(session_id@) && *p == self.sessions()[session_id@].1,
                Err(e) => !self.sessions().contains_key(session_id@) && e == SessionError::NotFound,
            },
    {
        let key = session_id.to_owned();
        match self.find(&key) {
            Some(i) => {
                proof {
                    lemma_map_of_index(self.entries(), i as int);
                }
                Ok(&self.sessions[i].pipeline)
            },
            None => {
                proof {
                    lemma_map_of_absent(self.entries(), key@);
                }
                Err(SessionError::NotFound)
            },
        }
    }

    /// Drops the session named `session_id` and hands its input ports back
    /// to the pool, as `PortRangeManager::deallocate_ports` does; refuses,
    /// changing nothing, when there is no such session.
    fn remove_session(&mut self, session_id: &str) -> (res: Result<(), SessionError>)
        requires
            old(self).wf(),
        ensures
            final(self).wf(),
            final(self).ports().pool() == old(self).ports().pool(),
            final(self).pending() == old(self).pending(),
            match res {
                Ok(()) => {
                    &&& old(self).sessions().contains_key(session_id@)
                    &&& final(self).sessions() == old(self).sessions().remove(session_id@)
                    &&& (final(self).ports().available(), final(self).ports().used())
                        == release_all(
                        old(self).ports().available(),
                        old(self).ports().used(),
                        old(self).sessions()[session_id@].0,
                    )
                    &&& final(self).ports().available() == old(self).ports().available()
                        + old(self).sessions()[session_id@].0
                    &&& final(self).ports().used() == old(self).ports().used().difference(
                        old(self).sessions()[session_id@].0.to_set(),
                    )
                },
                Err(e) => {
                    &&& !old(self).sessions().contains_key(session_id@)
                    &&& e == SessionError::NotFound
                    &&& final(self).sessions() == old(self).sessions()
                    &&& final(self).ports() == old(self).ports()
                },
            },
    {
        let key = session_id.to_owned();
        let ghost old_entries = self.entries();
        match self.find(&key) {
            Some(i) => {
                proof {
                    lemma_map_of_index(old_entries, i as int);
                }
                let removed = self.sessions.remove(i);
                let ghost gone = removed.input_ports@;
                proof {
                    assert(self.entries() =~= old_entries.remove(i as int));
                    lemma_map_of_remove(old_entries, i as int);
                    lemma_remove_keeps_distinct(old_entries, i as int);
                    assert(gone == old(self).session_ports(i as int));
                    assert(gone.no_duplicates());
                    assert forall|p: u16| #[trigger] gone.contains(p) implies old(self).ports().used().contains(p) by {
                        assert(old(self).session_ports(i as int).contains(p));
                    }
                    lemma_release_all_in_use(old(self).ports().available(), old(self).ports().used(), gone);
                }
                self.port_range_manager.deallocate_ports(removed.input_ports.as_slice());
                proof {
                    let n = self.sessions@.len();
                    let used = self.port_range_manager.used();
                    assert(used == old(self).ports().used().difference(gone.to_set()));
                    assert forall|a: int| 0 <= a < n implies #[trigger] self.session_ports(a)
                        == old(self).session_ports(if a >= i { a + 1 } else { a }) by {
                        assert(self.sessions@[a] == old(self).sessions@[if a >= i { a + 1 } else { a }]);
                    }
                    assert forall|p: u16| #[trigger] self.pending_ports@.contains(p) implies used.contains(p) by {
                        if gone.to_set().contains(p) {
                            assert(old(self).session_ports(i as int).contains(p));
                        }
                    }
                    assert forall|a: int| 0 <= a < n implies (#[trigger] self.session_ports(a)).no_duplicates() by {
                        assert(old(self).session_ports(if a >= i { a + 1 } else { a }).no_duplicates());
                    }
                    assert forall|a: int, p: u16|
                        0 <= a < n && #[trigger] self.session_ports(a).contains(p)
                        implies used.contains(p) && !self.pending_ports@.contains(p) by {
                        let b = if a >= i { a + 1 } else { a };
                        assert(old(self).session_ports(b).contains(p));
                        if gone.to_set().contains(p) {
                            assert(old(self).session_ports(i as int).contains(p));
                        }
                    }
                    assert forall|a: int, c: int, p: u16|
                        0 <= a < n && 0 <= c < n && a != c && #[trigger] self.session_ports(a).contains(p)
                        implies !(#[trigger] self.session_ports(c)).contains(p) by {
                        let a2 = if a >= i { a + 1 } else { a };
                        let c2 = if c >= i { c + 1 } else { c };
                        assert(old(self).session_ports(a2).contains(p));
                        if old(self).session_ports(c2).contains(p) {
                            assert(a2 != c2);
                        }
                    }
                }
                Ok(())
            },
            None => {
                proof {
                    lemma_map_of_absent(old_entries, key@);
                }
                Err(SessionError::NotFound)
            },
        }
    }
}

/// The mixing sessions by name, each with its input ports and its pipeline;
/// the ports taken for the session that is being set up; and the pool of
/// ports that the sessions draw from.
pub struct MixerSessionManager<P> {
    table: SessionTable<P>,
}

impl<P> MixerSessionManager<P> {
    /// Each session's name, to its input ports and its pipeline.
    pub closed spec fn sessions(&self) -> Map<Seq<char>, (Seq<u16>, P)> {
        self.table.sessions()
    }

    /// The ports taken from the pool for the session being set up, which
    /// the next `insert_session` gives to it.
    pub closed spec fn pending(&self) -> Seq<u16> {
        self.table.pending()
    }

    /// The port pool.
    pub closed spec fn ports(&self) -> PortRangeManager {
        self.table.ports()
    }

    /// One session per name, a well-formed pool, and every port that a
    /// session or the pending list holds is in use and held by it alone.
    /// It holds of every manager at all times.
    #[verifier::type_invariant]
    pub closed spec fn wf(&self) -> bool {
        self.table.wf()
    }

    /// An empty table, for the moments when the real one is taken out.
    fn placeholder() -> (t: SessionTable<P>)
        ensures
            t.wf(),
    {
        SessionTable::new((1, 0))
    }

    /// No sessions, and the ports `port_range.0..=port_range.1` all free.
    pub fn new(port_range: (u16, u16)) -> (m: Self)
        ensures
            m.sessions() == Map::<Seq<char>, (Seq<u16>, P)>::empty(),
            m.pending() == Seq::<u16>::empty(),
            m.ports().available() == ports_between(port_range.0, port_range.1),
            m.ports().used() == Set::<u16>::empty(),
            m.ports().pool() == ports_between(port_range.0, port_range.1).to_set(),
    {
        MixerSessionManager { table: SessionTable::new(port_range) }
    }

    /// Takes `num_input_ports` ports from the pool for the session being set
    /// up, as `PortRangeManager::allocate_ports` does, and keeps them as
    /// its pending ports (ports pending from an earlier attempt stay in
    /// use); the sessions are unchanged.
    pub fn allocate_input_ports(&mut self, num_input_ports: usize) -> (res: Result<Vec<u16>, SessionError>)
        ensures
            final(self).sessions() == old(self).sessions(),
            final(self).ports().pool() == old(self).ports().pool(),
            match res {
                Ok(ports) => {
                    &&& num_input_ports <= old(self).ports().available().len()
                    &&& ports@ == old(self).ports().available().take(num_input_ports as int)
                    &&& final(self).pending() == ports@
                    &&& final(self).ports().available() == old(self).ports().available().skip(
                        num_input_ports as int,
                    )
                    &&& final(self).ports().used() == old(self).ports().used().union(ports@.to_set())
                },
                Err(e) => {
                    &&& old(self).ports().available().len() < num_input_ports
                    &&& e == SessionError::NotEnoughPorts
                    &&& final(self).pending() == old(self).pending()
                    &&& final(self).ports().available() == old(self).ports().available()
                    &&& final(self).ports().used() == old(self).ports().used()
                },
            },
    {
        proof {
            use_type_invariant(&*self);
        }
        let mut table = Self::placeholder();
        std::mem::swap(&mut table, &mut self.table);
        let res = table.allocate_input_ports(num_input_ports);
        std::mem::swap(&mut table, &mut self.table);
        res
    }

    /// Records the session `session_id` with its pipeline and the pending
    /// ports as its input ports; nothing is pending afterwards. A session of
    /// that name that was there before is dropped, and its ports stay in
    /// use.
    pub fn insert_session(&mut self, session_id: String, pipeline: P)
        ensures
            final(self).sessions() == old(self).sessions().insert(
                session_id@,
                (old(self).pending(), pipeline),
            ),
            final(self).pending() == Seq::<u16>::empty(),
            final(self).ports() == old(self).ports(),
    {
        proof {
            use_type_invariant(&*self);
        }
        let mut table = Self::placeholder();
        std::mem::swap(&mut table, &mut self.table);
        table.insert_session(session_id, pipeline);
        std::mem::swap(&mut table, &mut self.table);
    }

    /// The pipeline of the session named `session_id`.
    pub fn get_session(&self, session_id: &str) -> (res: Result<&P, SessionError>)
        ensures
            match res {
                Ok(p) => self.sessions().contains_key(session_id@) && *p == self.sessions()[session_id@].1,
                Err(e) => !self.sessions().contains_key(session_id@) && e == SessionError::NotFound,
            },
    {
        proof {
            use_type_invariant(self);
        }
        self.table.get_session(session_id)
    }

    /// Drops the session named `session_id` and hands its input ports back
    /// to the pool, as `PortRangeManager::deallocate_ports` does; refuses,
    /// changing nothing, when there is no such session.
    pub fn remove_session(&mut self, session_id: &str) -> (res: Result<(), SessionError>)
        ensures
            final(self).ports().pool() == old(self).ports().pool(),
            final(self).pending() == old(self).pending(),
            match res {
                Ok(()) => {
                    &&& old(self).sessions().contains_key(session_id@)
                    &&& final(self).sessions() == old(self).sessions().remove(session_id@)
                    &&& (final(self).ports().available(), final(self).ports().used())
                        == release_all(
                        old(self).ports().available(),
                        old(self).ports().used(),
                        old(self).sessions()[session_id@].0,
                    )
                    &&& final(self).ports().available() == old(self).ports().available()
                        + old(self).sessions()[session_id@].0
                    &&& final(self).ports().used() == old(self).ports().used().difference(
                        old(self).sessions()[session_id@].0.to_set(),
                    )
                },
                Err(e) => {
                    &&& !old(self).sessions().contains_key(session_id@)
                    &&& e == SessionError::NotFound
                    &&& final(self).sessions() == old(self).sessions()
                    &&& final(self).ports() == old(self).ports()
                },
            },
    {
        proof {
            use_type_invariant(&*self);
        }
        let mut table = Self::placeholder();
        std::mem::swap(&mut table, &mut self.table);
        let res = table.remove_session(session_id);
        std::mem::swap(&mut table, &mut self.table);
        res
    }
}

/// The input ports of the live sessions are held by them alone: each
/// session's ports are distinct, all in use (so none of them is free, and
/// all lie in the pool), none is pending for a session being set up, and
/// no port belongs to two sessions.
pub proof fn lemma_live_session_ports<P>(mgr: &MixerSessionManager<P>)
    requires
        mgr.wf(),
    ensures
        forall|k: Seq<char>| #[trigger] mgr.sessions().contains_key(k) ==> mgr.sessions()[k].0.no_duplicates(),
        forall|k: Seq<char>, p: u16|
            mgr.sessions().contains_key(k) && #[trigger] mgr.sessions()[k].0.contains(p)
                ==> mgr.ports().used().contains(p) && mgr.ports().pool().contains(p)
                && !mgr.ports().available().contains(p) && !mgr.pending().contains(p),
        forall|k1: Seq<char>, k2: Seq<char>, p: u16|
            mgr.sessions().contains_key(k1) && mgr.sessions().contains_key(k2) && k1 != k2
                && #[trigger] mgr.sessions()[k1].0.contains(p) ==> !(#[trigger] mgr.sessions()[k2].0.contains(p)),
{
    let m = &mgr.table;
    let e = m.entries();
    assert forall|k: Seq<char>| #[trigger] m.sessions().contains_key(k) implies exists|i: int|
        0 <= i < e.len() && e[i].0 == k && m.sessions()[k] == e[i].1 by {
        let i = lemma_map_of_key(e, k);
        lemma_map_of_index(e, i);
    }
    assert forall|k: Seq<char>| #[trigger] m.sessions().contains_key(k) implies m.sessions()[k].0.no_duplicates() by {
        let i = choose|i: int| 0 <= i < e.len() && e[i].0 == k && m.sessions()[k] == e[i].1;
        assert(m.session_ports(i).no_duplicates());
    }
    assert forall|k: Seq<char>, p: u16|
        m.sessions().contains_key(k) && #[trigger] m.sessions()[k].0.contains(p)
        implies m.ports().used().contains(p) && m.ports().pool().contains(p)
            && !m.ports().available().contains(p) && !m.pending().contains(p) by {
        let i = choose|i: int| 0 <= i < e.len() && e[i].0 == k && m.sessions()[k] == e[i].1;
        assert(m.session_ports(i).contains(p));
    }
    assert forall|k1: Seq<char>, k2: Seq<char>, p: u16|
        m.sessions().contains_key(k1) && m.sessions().contains_key(k2) && k1 != k2
            && #[trigger] m.sessions()[k1].0.contains(p)
        implies !(#[trigger] m.sessions()[k2].0.contains(p)) by {
        let i = choose|i: int| 0 <= i < e.len() && e[i].0 == k1 && m.sessions()[k1] == e[i].1;
        let j = choose|j: int| 0 <= j < e.len() && e[j].0 == k2 && m.sessions()[k2] == e[j].1;
        assert(e[i].1.0 == m.session_ports(i));
        assert(e[j].1.0 == m.session_ports(j));
        assert(m.session_ports(i).contains(p));
        assert(i != j);
        assert(!m.session_ports(j).contains(p));
    }
}

/// A name in the map is carried by some entry.
proof fn lemma_map_of_key<V>(s: Seq<(Seq<char>, V)>, k: Seq<char>) -> (i: int)
    requires
        map_of(s).contains_key(k),
    ensures
        0 <= i < s.len(),
        s[i].0 == k,
    decreases s.len(),
{
    if s.last().0 == k {
        s.len() - 1
    } else {
        let i = lemma_map_of_key(s.drop_last(), k);
        assert(s.drop_last()[i] == s[i]);
        i
    }
}

/// With distinct names, the map holds each entry's value under its name.
proof fn lemma_map_of_index<V>(s: Seq<(Seq<char>, V)>, i: int)
    requires
        names_distinct(s),
        0 <= i < s.len(),
    ensures
        map_of(s).contains_key(s[i].0),
        map_of(s)[s[i].0] == s[i].1,
    decreases s.len(),
{
    if i < s.len() - 1 {
        assert(s.drop_last()[i] == s[i]);
        lemma_map_of_index(s.drop_last(), i);
    }
}

/// A name that no entry carries is not in the map.
proof fn lemma_map_of_absent<V>(s: Seq<(Seq<char>, V)>, k: Seq<char>)
    requires
        forall|i: int| 0 <= i < s.len() ==> s[i].0 != k,
    ensures
        !map_of(s).contains_key(k),
    decreases s.len(),
{
    if s.len() > 0 {
        assert(s.last().0 != k);
        assert forall|i: int| 0 <= i < s.drop_last().len() implies s.drop_last()[i].0 != k by {
            assert(s.drop_last()[i] == s[i]);
        }
        lemma_map_of_absent(s.drop_last(), k);
    }
}

/// Dropping an entry keeps the names distinct.
proof fn lemma_remove_keeps_distinct<V>(s: Seq<(Seq<char>, V)>, i: int)
    requires
        names_distinct(s),
        0 <= i < s.len(),
    ensures
        names_distinct(s.remove(i)),
{
    let r = s.remove(i);
    assert forall|a: int, b: int| 0 <= a < b < r.len() implies r[a].0 != r[b].0 by {
        let a2 = if a < i { a } else { a + 1 };
        let b2 = if b < i { b } else { b + 1 };
        assert(r[a] == s[a2] && r[b] == s[b2]);
    }
}

/// With distinct names, dropping an entry drops its name from the map.
proof fn lemma_map_of_remove<V>(s: Seq<(Seq<char>, V)>, i: int)
    requires
        names_distinct(s),
        0 <= i < s.len(),
    ensures
        map_of(s.remove(i)) == map_of(s).remove(s[i].0),
    decreases s.len(),
{
    let d = s.drop_last();
    assert forall|a: int, b: int| 0 <= a < b < d.len() implies d[a].0 != d[b].0 by {
        assert(d[a] == s[a] && d[b] == s[b]);
    }
    if i == s.len() - 1 {
        assert(s.remove(i) =~= d);
        assert forall|j: int| 0 <= j < d.len() implies d[j].0 != s[i].0 by {
            assert(d[j] == s[j]);
        }
        lemma_map_of_absent(d, s[i].0);
        assert(map_of(d) =~= map_of(s).remove(s[i].0));
    } else {
        assert(d[i] == s[i]);
        lemma_map_of_remove(d, i);
        assert(s.remove(i) =~= d.remove(i).push(s.last()));
        assert(d.remove(i).push(s.last()).drop_last() =~= d.remove(i));
        assert(s.last().0 != s[i].0);
        assert(map_of(s.remove(i)) =~= map_of(s).remove(s[i].0));
    }
}

} // verus!
