//! A pool of UDP ports handed out to mixing sessions and taken back.

use std::collections::HashSet;
use vstd::prelude::*;

verus! {

/// The reason an allocation was refused.
#[derive(Debug, Clone, Copy, PartialEq, Eq, Structural)]
pub enum PortRangeError {
    /// Fewer ports are free than were asked for.
    NotEnoughPorts,
}

impl PortRangeError {
    /// The text the refusal is reported with.
    pub fn message(&self) -> (s: String)
        ensures
            s@ == "Not enough available ports"@,
    {
        String::from_str("Not enough available ports")
    }
}

/// The ports `start..=end` given at construction, split into the ones that
/// are free (in the order in which they will be handed out) and the ones
/// that are in use.
pub struct PortRangeManager {
    available_ports: Vec<u16>,
    used_ports: HashSet<u16>,
}

/// The ports `start..=end`, in ascending order (empty when `start > end`).
pub open spec fn ports_between(start: u16, end: u16) -> Seq<u16> {
    if start <= end {
        Seq::new((end - start + 1) as nat, |i: int| (start + i) as u16)
    } else {
        Seq::empty()
    }
}

/// No port of the free list `avail` occurs twice, and none is in `used`.
pub open spec fn ports_apart(avail: Seq<u16>, used: Set<u16>) -> bool {
    &&& avail.no_duplicates()
    &&& forall|p: u16| #[trigger] avail.contains(p) ==> !used.contains(p)
}

/// What handing back `ports` one after the other does to the free list and
/// the used set: a port that is in use leaves the used set and goes to the
/// back of the free list; any other port is ignored.
pub open spec fn release_all(avail: Seq<u16>, used: Set<u16>, ports: Seq<u16>) -> (Seq<u16>, Set<u16>)
    decreases ports.len(),
{
    if ports.len() == 0 {
        (avail, used)
    } else {
        let p = ports[0];
        if used.contains(p) {
            release_all(avail.push(p), used.remove(p), ports.drop_first())
        } else {
            release_all(avail, used, ports.drop_first())
        }
    }
}

impl PortRangeManager {
    /// The free ports, front first: the order in which they are handed out.
    pub closed spec fn available(&self) -> Seq<u16> {
        self.available_ports@
    }

    /// The ports that are in use.
    pub closed spec fn used(&self) -> Set<u16> {
        self.used_ports@
    }

    /// Every port the manager accounts for, free or in use.
    pub open spec fn pool(&self) -> Set<u16> {
        self.available().to_set().union(self.used())
    }

    /// No port is free twice, and no port is both free and in use.
    pub open spec fn wf(&self) -> bool {
        ports_apart(self.available(), self.used())
    }

    /// `wf` holds of every manager, at all times.
    #[verifier::type_invariant]
    closed spec fn always_wf(&self) -> bool {
        self.wf()
    }

    /// A manager of the ports `start..=end`, all free, lowest first.
    pub fn new(start: u16, end: u16) -> (m: Self)
        ensures
            m.wf(),
            m.available() == ports_between(start, end),
            m.used() == Set::<u16>::empty(),
            m.pool() == ports_between(start, end).to_set(),
    {
        let mut available_ports: Vec<u16> = Vec::new();
        if start <= end {
            let mut p: u16 = start;
            loop
                invariant_except_break
                    available_ports@.len() == p - start,
                invariant
                    start <= p <= end,
                    forall|i: int| 0 <= i < available_ports@.len() ==> available_ports@[i] == start + i,
                ensures
                    available_ports@.len() == end - start + 1,
                decreases end - p,
            {
                available_ports.push(p);
                if p == end {
                    break;
                }
                p = p + 1;
            }
            assert(available_ports@ =~= ports_between(start, end));
        } else {
            assert(available_ports@ =~= ports_between(start, end));
        }
        let m = PortRangeManager { available_ports, used_ports: HashSet::new() };
        assert(m.pool() =~= ports_between(start, end).to_set());
        m
    }
    /// Hands out the first `count` free ports, in order, and marks them as in
    /// use; refuses, changing nothing, when fewer than `count` are free.
    pub fn allocate_ports(&mut self, count: usize) -> (res: Result<Vec<u16>, PortRangeError>)
        ensures
            final(self).wf(),
            final(self).pool() == old(self).pool(),
            match res {
                Ok(ports) => {
                    &&& count <= old(self).available().len()
                    &&& ports@ == old(self).available().take(count as int)
                    &&& ports@.no_duplicates()
                    &&& forall|p: u16| #[trigger] ports@.contains(p) ==> !old(self).used().contains(p)
                    &&& final(self).available() == old(self).available().skip(count as int)
                    &&& final(self).used() == old(self).used().union(ports@.to_set())
                },
                Err(e) => {
                    &&& old(self).available().len() < count
                    &&& e == PortRangeError::NotEnoughPorts
                    &&& final(self).available() == old(self).available()
                    &&& final(self).used() == old(self).used()
                },
            },
    {
        proof {
            use_type_invariant(&*self);
        }
        if self.available_ports.len() < count {
            return Err(PortRangeError::NotEnoughPorts);
        }
        // Work on the two fields taken out of `self`, which stays well formed
        // while it holds nothing.
        let mut avail: Vec<u16> = Vec::new();
        std::mem::swap(&mut avail, &mut self.available_ports);
        let mut used: HashSet<u16> = HashSet::new();
        std::mem::swap(&mut used, &mut self.used_ports);
        let ghost before = avail@;
        let ghost used0 = used@;
        let mut allocated = avail.split_off(count);
        std::mem::swap(&mut allocated, &mut avail);
        assert(allocated@ =~= before.take(count as int));
        assert(avail@ =~= before.skip(count as int));
        let mut i: usize = 0;
        while i < allocated.len()
            invariant
                0 <= i <= allocated@.len(),
                used@ == used0.union(allocated@.take(i as int).to_set()),
                avail@ == before.skip(count as int),
                allocated@ == before.take(count as int),
            decreases allocated@.len() - i,
        {
            used.insert(allocated[i]);
            assert(allocated@.take(i + 1) =~= allocated@.take(i as int).push(allocated@[i as int]));
            proof {
                allocated@.take(i as int).lemma_push_to_set_commute(allocated@[i as int]);
            }
            i = i + 1;
        }
        assert(allocated@.take(allocated@.len() as int) =~= allocated@);
        proof {
            assert forall|x: int, y: int| 0 <= x < y < allocated@.len() implies allocated@[x] != allocated@[y] by {
                assert(allocated@[x] == before[x] && allocated@[y] == before[y]);
            }
            assert forall|p: u16| #[trigger] allocated@.contains(p) implies !used0.contains(p) by {
                let k = choose|k: int| 0 <= k < allocated@.len() && allocated@[k] == p;
                assert(before[k] == p);
                assert(before.contains(p));
            }
            lemma_split_keeps_pool(before, count as int, used0);
            lemma_split_keeps_disjoint(before, count as int, used0);
        }
        std::mem::swap(&mut used, &mut self.used_ports);
        std::mem::swap(&mut avail, &mut self.available_ports);
        Ok(allocated)
    }

    /// Takes back the given ports, one after the other: each one that is in
    /// use becomes free again, at the back of the free list; the others are
    /// ignored.
    pub fn deallocate_ports(&mut self, ports: &[u16])
        ensures
            final(self).wf(),
            final(self).pool() == old(self).pool(),
            (final(self).available(), final(self).used()) == release_all(
                old(self).available(),
                old(self).used(),
                ports@,
            ),
    {
        proof {
            use_type_invariant(&*self);
        }
        // Work on the two fields taken out of `self`, which stays well formed
        // while it holds nothing.
        let mut avail: Vec<u16> = Vec::new();
        std::mem::swap(&mut avail, &mut self.available_ports);
        let mut used: HashSet<u16> = HashSet::new();
        std::mem::swap(&mut used, &mut self.used_ports);
        let ghost avail0 = avail@;
        let ghost used0 = used@;
        let mut i: usize = 0;
        assert(ports@.skip(0) =~= ports@);
        while i < ports.len()
            invariant
                0 <= i <= ports@.len(),
                ports_apart(avail@, used@),
                avail@.to_set().union(used@) == avail0.to_set().union(used0),
                release_all(avail0, used0, ports@) == release_all(
                    avail@,
                    used@,
                    ports@.skip(i as int),
                ),
            decreases ports@.len() - i,
        {
            let port = ports[i];
            assert(ports@.skip(i as int).drop_first() =~= ports@.skip(i + 1));
            assert(ports@.skip(i as int)[0] == port);
            let ghost a = avail@;
            let ghost u = used@;
            assert(release_all(a, u, ports@.skip(i as int)) == (if u.contains(port) {
                release_all(a.push(port), u.remove(port), ports@.skip(i + 1))
            } else {
                release_all(a, u, ports@.skip(i + 1))
            }));
            if used.remove(&port) {
                avail.push(port);
                assert(used@ == u.remove(port));
                proof {
                    a.lemma_push_to_set_commute(port);
                    assert(avail@.to_set().union(used@) =~= a.to_set().union(u));
                    assert forall|q: u16| #[trigger] avail@.contains(q) implies !used@.contains(q) by {
                        if q != port {
                            assert(a.contains(q)) by {
                                let k = choose|k: int| 0 <= k < a.push(port).len() && a.push(port)[k] == q;
                                assert(k < a.len());
                            }
                        }
                    }
                    assert(!a.contains(port));
                    assert(avail@.no_duplicates()) by {
                        assert forall|x: int, y: int| 0 <= x < y < a.push(port).len() implies a.push(port)[x] != a.push(port)[y] by {
                            if y == a.len() {
                                assert(a.contains(a[x]));
                            }
                        }
                    }
                }
            } else {
                assert(used@ =~= u);
            }
            i = i + 1;
        }
        std::mem::swap(&mut used, &mut self.used_ports);
        std::mem::swap(&mut avail, &mut self.available_ports);
    }
}

/// Handing back the ports that an allocation just handed out undoes it: the
/// used set is as before, and the same ports are free again, the handed-back
/// ones now at the back of the free list.
pub proof fn lemma_release_undoes_allocate(m: PortRangeManager, count: nat)
    requires
        m.wf(),
        count <= m.available().len(),
    ensures
        release_all(
            m.available().skip(count as int),
            m.used().union(m.available().take(count as int).to_set()),
            m.available().take(count as int),
        ) == (m.available().skip(count as int) + m.available().take(count as int), m.used()),
        (m.available().skip(count as int) + m.available().take(count as int)).to_set()
            == m.available().to_set(),
{
    let s = m.available();
    let n = count as int;
    let taken = s.take(n);
    assert forall|x: int, y: int| 0 <= x < y < taken.len() implies taken[x] != taken[y] by {
        assert(taken[x] == s[x] && taken[y] == s[y]);
    }
    assert forall|p: u16| #[trigger] taken.contains(p) implies m.used().union(taken.to_set()).contains(p) by {
        assert(taken.to_set().contains(p));
    }
    lemma_release_all_in_use(s.skip(n), m.used().union(taken.to_set()), taken);
    assert forall|p: u16| #[trigger] taken.to_set().contains(p) implies !m.used().contains(p) by {
        let k = choose|k: int| 0 <= k < taken.len() && taken[k] == p;
        assert(s[k] == p);
        assert(s.contains(p));
    }
    assert(m.used().union(taken.to_set()).difference(taken.to_set()) =~= m.used());
    let rot = s.skip(n) + taken;
    assert forall|p: u16| #[trigger] rot.to_set().contains(p) <==> s.to_set().contains(p) by {
        if rot.to_set().contains(p) {
            let k = choose|k: int| 0 <= k < rot.len() && rot[k] == p;
            if k < s.len() - n {
                assert(s[k + n] == p);
            } else {
                assert(s[k - (s.len() - n)] == p);
            }
        }
        if s.to_set().contains(p) {
            let k = choose|k: int| 0 <= k < s.len() && s[k] == p;
            if k < n {
                assert(rot[s.len() - n + k] == p);
            } else {
                assert(rot[k - n] == p);
            }
        }
    }
    assert(rot.to_set() =~= s.to_set());
}

/// Handing back distinct ports that are all in use frees each of them, in
/// the order given: they join the back of the free list in that order and
/// leave the used set.
pub proof fn lemma_release_all_in_use(avail: Seq<u16>, used: Set<u16>, ports: Seq<u16>)
    requires
        ports.no_duplicates(),
        forall|p: u16| #[trigger] ports.contains(p) ==> used.contains(p),
    ensures
        release_all(avail, used, ports) == (avail + ports, used.difference(ports.to_set())),
    decreases ports.len(),
{
    if ports.len() == 0 {
        assert(avail + ports =~= avail);
        assert(used.difference(ports.to_set()) =~= used);
    } else {
        let p = ports[0];
        let rest = ports.drop_first();
        assert(ports.contains(p));
        assert forall|x: int, y: int| 0 <= x < y < rest.len() implies rest[x] != rest[y] by {
            assert(rest[x] == ports[x + 1] && rest[y] == ports[y + 1]);
        }
        assert forall|q: u16| #[trigger] rest.contains(q) implies used.remove(p).contains(q) by {
            let k = choose|k: int| 0 <= k < rest.len() && rest[k] == q;
            assert(ports[k + 1] == q);
            assert(ports.contains(q));
        }
        lemma_release_all_in_use(avail.push(p), used.remove(p), rest);
        assert(avail.push(p) + rest =~= avail + ports);
        assert forall|q: u16| #[trigger] used.remove(p).difference(rest.to_set()).contains(q) <==> used.difference(ports.to_set()).contains(q) by {
            if rest.to_set().contains(q) {
                let k = choose|k: int| 0 <= k < rest.len() && rest[k] == q;
                assert(ports[k + 1] == q);
            }
            if ports.to_set().contains(q) && q != p {
                let k = choose|k: int| 0 <= k < ports.len() && ports[k] == q;
                assert(k != 0);
                assert(rest[k - 1] == q);
            }
        }
        assert(used.remove(p).difference(rest.to_set()) =~= used.difference(ports.to_set()));
    }
}

/// Whatever is handed back, the used set loses exactly the handed-back
/// ports.
pub proof fn lemma_release_all_used(avail: Seq<u16>, used: Set<u16>, ports: Seq<u16>)
    ensures
        release_all(avail, used, ports).1 == used.difference(ports.to_set()),
    decreases ports.len(),
{
    if ports.len() == 0 {
        assert(used.difference(ports.to_set()) =~= used);
    } else {
        let p = ports[0];
        let rest = ports.drop_first();
        assert(ports.contains(p));
        if used.contains(p) {
            lemma_release_all_used(avail.push(p), used.remove(p), rest);
        } else {
            lemma_release_all_used(avail, used, rest);
        }
        assert forall|q: u16| #[trigger] ports.to_set().contains(q) <==> (q == p || rest.to_set().contains(q)) by {
            if ports.to_set().contains(q) && q != p {
                let k = choose|k: int| 0 <= k < ports.len() && ports[k] == q;
                assert(rest[k - 1] == q);
            }
            if rest.to_set().contains(q) {
                let k = choose|k: int| 0 <= k < rest.len() && rest[k] == q;
                assert(ports[k + 1] == q);
            }
        }
        assert(release_all(avail, used, ports).1 =~= used.difference(ports.to_set()));
    }
}

/// Moving the front of a duplicate-free free list into the used set keeps
/// the rest free of duplicates and apart from the used set.
proof fn lemma_split_keeps_disjoint(s: Seq<u16>, n: int, used: Set<u16>)
    requires
        0 <= n <= s.len(),
        s.no_duplicates(),
        forall|p: u16| #[trigger] s.contains(p) ==> !used.contains(p),
    ensures
        s.skip(n).no_duplicates(),
        forall|p: u16| #[trigger] s.skip(n).contains(p) ==> !used.union(s.take(n).to_set()).contains(p),
{
    assert forall|x: int, y: int| 0 <= x < y < s.skip(n).len() implies s.skip(n)[x] != s.skip(n)[y] by {
        assert(s.skip(n)[x] == s[x + n] && s.skip(n)[y] == s[y + n]);
    }
    assert forall|p: u16| #[trigger] s.skip(n).contains(p) implies !used.union(s.take(n).to_set()).contains(p) by {
        let k = choose|k: int| 0 <= k < s.skip(n).len() && s.skip(n)[k] == p;
        assert(s[k + n] == p);
        assert(s.contains(p));
        if s.take(n).to_set().contains(p) {
            let j = choose|j: int| 0 <= j < s.take(n).len() && s.take(n)[j] == p;
            assert(s[j] == p);
        }
    }
}

/// Cutting a free list in two and moving the front part into the used set
/// accounts for the same ports.
proof fn lemma_split_keeps_pool(s: Seq<u16>, n: int, used: Set<u16>)
    requires
        0 <= n <= s.len(),
    ensures
        s.skip(n).to_set().union(used.union(s.take(n).to_set())) == s.to_set().union(used),
{
    assert(s =~= s.take(n) + s.skip(n));
    assert forall|p: u16| s.to_set().contains(p) implies #[trigger] s.skip(n).to_set().union(used.union(s.take(n).to_set())).contains(p) by {
        let k = choose|k: int| 0 <= k < s.len() && s[k] == p;
        if k < n {
            assert(s.take(n)[k] == p);
        } else {
            assert(s.skip(n)[k - n] == p);
        }
    }
    assert forall|p: u16| #[trigger] s.skip(n).to_set().contains(p) implies s.to_set().contains(p) by {
        let k = choose|k: int| 0 <= k < s.skip(n).len() && s.skip(n)[k] == p;
        assert(s[k + n] == p);
    }
    assert forall|p: u16| #[trigger] s.take(n).to_set().contains(p) implies s.to_set().contains(p) by {
        let k = choose|k: int| 0 <= k < s.take(n).len() && s.take(n)[k] == p;
        assert(s[k] == p);
    }
    assert(s.skip(n).to_set().union(used.union(s.take(n).to_set())) =~= s.to_set().union(used));
}

} // verus!
