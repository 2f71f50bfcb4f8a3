//! Transport identities and per-node address lists.
//!
//! A peer identity and a multi-address are opaque transport-level byte
//! strings; the overlay only stores, compares and hands them back.  An
//! `Addresses` value is an ordered list with at most one entry per
//! address, each tagged connected or not.

use vstd::prelude::*;

verus! {

/// A transport-level peer identity, held as its opaque byte encoding.
#[derive(Clone, Debug)]
pub struct PeerId {
    pub bytes: Vec<u8>,
}

impl View for PeerId {
    type V = Seq<u8>;

    open spec fn view(&self) -> Seq<u8> {
        self.bytes@
    }
}

/// Compares two byte vectors element by element.
pub fn bytes_eq(a: &Vec<u8>, b: &Vec<u8>) -> (r: bool)
    ensures
        r == (a@ == b@),
{
    if a.len() != b.len() {
        return false;
    }
    let mut i: usize = 0;
    while i < a.len()
        invariant
            0 <= i <= a@.len(),
            a@.len() == b@.len(),
            forall|l: int| 0 <= l < i ==> a@[l] == b@[l],
        decreases a@.len() - i,
    {
        if a[i] != b[i] {
            return false;
        }
        i += 1;
    }
    proof {
        assert(a@ =~= b@);
    }
    true
}

/// Copies a byte vector.
pub fn bytes_dup(a: &Vec<u8>) -> (r: Vec<u8>)
    ensures
        r@ == a@,
{
    let mut out: Vec<u8> = Vec::new();
    let mut i: usize = 0;
    while i < a.len()
        invariant
            0 <= i <= a@.len(),
            out@ == a@.take(i as int),
        decreases a@.len() - i,
    {
        let b = a[i];
        out.push(b);
        proof {
            assert(a@.take(i + 1).drop_last() =~= a@.take(i as int));
        }
        i += 1;
    }
    proof {
        assert(a@.take(a@.len() as int) =~= a@);
    }
    out
}

impl PeerId {
    /// Copies the identity.
    pub fn duplicate(&self) -> (r: PeerId)
        ensures
            r@ == self@,
    {
        PeerId { bytes: bytes_dup(&self.bytes) }
    }

    /// Compares with another identity.
    pub fn same_as(&self, other: &PeerId) -> (r: bool)
        ensures
            r == (self@ == other@),
    {
        bytes_eq(&self.bytes, &other.bytes)
    }
}

/// A transport multi-address, held as its opaque byte encoding.
#[derive(Clone, Debug)]
pub struct Multiaddr {
    pub bytes: Vec<u8>,
}

impl View for Multiaddr {
    type V = Seq<u8>;

    open spec fn view(&self) -> Seq<u8> {
        self.bytes@
    }
}

impl Multiaddr {
    /// Copies the address.
    pub fn duplicate(&self) -> (r: Multiaddr)
        ensures
            r@ == self@,
    {
        Multiaddr { bytes: bytes_dup(&self.bytes) }
    }

    /// Compares with another address.
    pub fn same_as(&self, other: &Multiaddr) -> (r: bool)
        ensures
            r == (self@ == other@),
    {
        bytes_eq(&self.bytes, &other.bytes)
    }
}

/// One known address of a node, tagged with its connection state.
#[derive(Clone, Debug)]
pub struct AddrEntry {
    pub addr: Multiaddr,
    pub connected: bool,
}

/// The addresses known for one node: an ordered list with at most one
/// entry per address, each tagged connected or not.
#[derive(Clone, Debug)]
pub struct Addresses {
    entries: Vec<AddrEntry>,
}

impl View for Addresses {
    type V = Seq<(Seq<u8>, bool)>;

    closed spec fn view(&self) -> Seq<(Seq<u8>, bool)> {
        Seq::new(self.entries@.len(), |i: int| (self.entries@[i].addr@, self.entries@[i].connected))
    }
}

/// Whether the list holds an entry for the address.
pub open spec fn has_addr(s: Seq<(Seq<u8>, bool)>, a: Seq<u8>) -> bool {
    exists|i: int| 0 <= i < s.len() && s[i].0 == a
}

/// Whether any entry is tagged connected.
pub open spec fn any_connected(s: Seq<(Seq<u8>, bool)>) -> bool {
    exists|i: int| 0 <= i < s.len() && s[i].1
}

impl Addresses {
    /// No two entries share an address.
    pub open spec fn wf(&self) -> bool {
        forall|i: int, j: int| 0 <= i < j < self@.len() ==> self@[i].0 != self@[j].0
    }

    /// An empty list.
    pub fn new() -> (r: Addresses)
        ensures
            r@.len() == 0,
            r.wf(),
    {
        Addresses { entries: Vec::new() }
    }

    /// The number of known addresses.
    pub fn size(&self) -> (r: usize)
        ensures
            r == self@.len(),
    {
        self.entries.len()
    }

    /// The position of the entry for `addr`, if any.
    fn position_of(&self, addr: &Multiaddr) -> (r: Option<usize>)
        ensures
            match r {
                Some(i) => i < self@.len() && self@[i as int].0 == addr@,
                None => !has_addr(self@, addr@),
            },
    {
        let mut i: usize = 0;
        while i < self.entries.len()
            invariant
                0 <= i <= self@.len(),
                self@.len() == self.entries@.len(),
                forall|l: int| 0 <= l < self@.len() ==> self@[l].0 == self.entries@[l].addr@,
                forall|l: int| 0 <= l < i ==> self@[l].0 != addr@,
            decreases self@.len() - i,
        {
            if self.entries[i].addr.same_as(addr) {
                return Some(i);
            }
            i += 1;
        }
        None
    }

    /// Records the address as connected, creating its entry at the front
    /// if it was unknown.
    pub fn insert_connected(&mut self, addr: &Multiaddr)
        requires
            old(self).wf(),
        ensures
            final(self).wf(),
            has_addr(final(self)@, addr@),
            any_connected(final(self)@),
            forall|a: Seq<u8>| has_addr(old(self)@, a) ==> has_addr(final(self)@, a),
            forall|a: Seq<u8>| has_addr(final(self)@, a) ==> has_addr(old(self)@, a) || a == addr@,
            forall|i: int|
                0 <= i < final(self)@.len() && final(self)@[i].0 != addr@ ==> exists|j: int|
                    0 <= j < old(self)@.len() && old(self)@[j] == #[trigger] final(self)@[i],
            forall|i: int| 0 <= i < final(self)@.len() && final(self)@[i].0 == addr@
                ==> final(self)@[i].1,
    {
        let ghost pre = self@;
        let pos = self.position_of(addr);
        match pos {
            Some(i) => {
                self.entries.remove(i);
            },
            None => {},
        }
        let ghost mid = self@;
        proof {
            assert forall|l: int|
                0 <= l < mid.len() implies mid[l].0 != addr@ && (exists|j: int|
                    0 <= j < pre.len() && pre[j] == mid[l]) by {
                match pos {
                    Some(i) => {
                        if l < i {
                            assert(mid[l] == pre[l]);
                            assert(pre[l].0 != pre[i as int].0);
                        } else {
                            assert(mid[l] == pre[l + 1]);
                            assert(pre[l + 1].0 != pre[i as int].0);
                        }
                    },
                    None => {
                        assert(mid[l] == pre[l]);
                    },
                }
            }
            assert forall|x: int, y: int| 0 <= x < y < mid.len() implies mid[x].0 != mid[y].0 by {
                match pos {
                    Some(i) => {
                        let px: int = if x < i {
                            x
                        } else {
                            x + 1
                        };
                        let py: int = if y < i {
                            y
                        } else {
                            y + 1
                        };
                        assert(mid[x] == pre[px]);
                        assert(mid[y] == pre[py]);
                    },
                    None => {
                        assert(mid[x] == pre[x]);
                        assert(mid[y] == pre[y]);
                    },
                }
            }
        }
        let entry = AddrEntry { addr: addr.duplicate(), connected: true };
        self.entries.insert(0, entry);
        proof {
            assert(self@.len() == mid.len() + 1);
            assert(self@[0] == (addr@, true));
            assert(forall|l: int| 1 <= l < self@.len() ==> #[trigger] self@[l] == mid[l - 1]);
            assert forall|a: Seq<u8>| has_addr(pre, a) implies has_addr(self@, a) by {
                let j = choose|j: int| 0 <= j < pre.len() && pre[j].0 == a;
                if a == addr@ {
                    assert(self@[0].0 == a);
                } else {
                    match pos {
                        Some(i) => {
                            if j < i {
                                assert(mid[j] == pre[j]);
                                assert(self@[j + 1] == mid[j]);
                            } else {
                                assert(j != i);
                                assert(mid[j - 1] == pre[j]);
                                assert(self@[j] == mid[j - 1]);
                            }
                        },
                        None => {
                            assert(mid[j] == pre[j]);
                            assert(self@[j + 1] == mid[j]);
                        },
                    }
                }
            }
        }
    }

    /// Records the address as known but not connected; an existing entry
    /// is left as it is.
    pub fn insert_not_connected(&mut self, addr: &Multiaddr)
        requires
            old(self).wf(),
        ensures
            final(self).wf(),
            has_addr(final(self)@, addr@),
            has_addr(old(self)@, addr@) ==> final(self)@ == old(self)@,
            !has_addr(old(self)@, addr@) ==> final(self)@ == old(self)@.push((addr@, false)),
    {
        match self.position_of(addr) {
            Some(i) => {
                proof {
                    assert(self@[i as int].0 == addr@);
                }
            },
            None => {
                let entry = AddrEntry { addr: addr.duplicate(), connected: false };
                self.entries.push(entry);
                proof {
                    assert(final(self)@ =~= old(self)@.push((addr@, false)));
                    assert(self@[old(self)@.len() as int].0 == addr@);
                }
            },
        }
    }

    /// Tags the entry for the address, if any, as disconnected.
    pub fn set_disconnected(&mut self, addr: &Multiaddr)
        requires
            old(self).wf(),
        ensures
            final(self).wf(),
            final(self)@.len() == old(self)@.len(),
            forall|i: int|
                0 <= i < old(self)@.len() ==> (#[trigger] final(self)@[i]).0 == old(self)@[i].0,
            forall|i: int|
                0 <= i < old(self)@.len() ==> final(self)@[i].1 == (old(self)@[i].1 && old(self)@[i].0 != addr@),
    {
        match self.position_of(addr) {
            Some(i) => {
                let a = self.entries[i].addr.duplicate();
                self.entries[i] = AddrEntry { addr: a, connected: false };
                proof {
                    assert forall|l: int| 0 <= l < old(self)@.len() implies (#[trigger] final(self)@[l]).0 == old(self)@[l].0 && final(self)@[l].1 == (old(self)@[l].1 && old(self)@[l].0 != addr@) by {
                        if l != i {
                            assert(old(self)@[l].0 != addr@);
                        }
                    }
                }
            },
            None => {},
        }
    }

    /// Removes the entry for the address, if any.
    pub fn remove_addr(&mut self, addr: &Multiaddr)
        requires
            old(self).wf(),
        ensures
            final(self).wf(),
            !has_addr(final(self)@, addr@),
            forall|a: Seq<u8>|
                has_addr(old(self)@, a) && a != addr@ ==> has_addr(final(self)@, a),
            forall|a: Seq<u8>| has_addr(final(self)@, a) ==> has_addr(old(self)@, a),
            has_addr(old(self)@, addr@) ==> exists|k: int|
                0 <= k < old(self)@.len() && old(self)@[k].0 == addr@ && final(self)@ == old(
                    self,
                )@.remove(k),
            !has_addr(old(self)@, addr@) ==> final(self)@ == old(self)@,
    {
        let ghost pre = self@;
        let pos = self.position_of(addr);
        match pos {
            Some(i) => {
                self.entries.remove(i);
                proof {
                    assert forall|l: int|
                        0 <= l < self@.len() implies (#[trigger] self@[l]).0 != addr@ && (exists|
                        j: int,
                    |
                        0 <= j < pre.len() && pre[j] == self@[l]) by {
                        if l < i {
                            assert(self@[l] == pre[l]);
                            assert(pre[l].0 != pre[i as int].0);
                        } else {
                            assert(self@[l] == pre[l + 1]);
                            assert(pre[l + 1].0 != pre[i as int].0);
                        }
                    }
                    assert forall|x: int, y: int|
                        0 <= x < y < self@.len() implies self@[x].0 != self@[y].0 by {
                        let px: int = if x < i {
                            x
                        } else {
                            x + 1
                        };
                        let py: int = if y < i {
                            y
                        } else {
                            y + 1
                        };
                        assert(self@[x] == pre[px]);
                        assert(self@[y] == pre[py]);
                    }
                    assert forall|a: Seq<u8>|
                        has_addr(pre, a) && a != addr@ implies has_addr(self@, a) by {
                        let j = choose|j: int| 0 <= j < pre.len() && pre[j].0 == a;
                        assert(j != i);
                        if j < i {
                            assert(self@[j] == pre[j]);
                        } else {
                            assert(self@[j - 1] == pre[j]);
                        }
                    }
                }
            },
            None => {},
        }
        proof {
            match pos {
                Some(i) => {
                    assert(old(self)@[i as int].0 == addr@);
                    assert(self@ =~= old(self)@.remove(i as int));
                },
                None => {},
            }
        }
    }

    /// Whether any address is currently connected.
    pub fn is_connected(&self) -> (r: bool)
        ensures
            r == any_connected(self@),
    {
        let mut i: usize = 0;
        while i < self.entries.len()
            invariant
                0 <= i <= self@.len(),
                self@.len() == self.entries@.len(),
                forall|l: int|
                    0 <= l < self@.len() ==> (#[trigger] self@[l]).1 == self.entries@[l].connected,
                forall|l: int| 0 <= l < i ==> !self@[l].1,
            decreases self@.len() - i,
        {
            if self.entries[i].connected {
                proof {
                    assert(self@[i as int].1);
                }
                return true;
            }
            i += 1;
        }
        false
    }

    /// Copies the list.
    pub fn duplicate(&self) -> (r: Addresses)
        ensures
            r@ == self@,
    {
        let mut entries: Vec<AddrEntry> = Vec::new();
        let mut i: usize = 0;
        while i < self.entries.len()
            invariant
                0 <= i <= self.entries@.len(),
                entries@.len() == i,
                forall|l: int|
                    0 <= l < i ==> (#[trigger] entries@[l]).addr@ == self.entries@[l].addr@
                        && entries@[l].connected == self.entries@[l].connected,
            decreases self.entries@.len() - i,
        {
            let a = self.entries[i].addr.duplicate();
            let c = self.entries[i].connected;
            entries.push(AddrEntry { addr: a, connected: c });
            i += 1;
        }
        let r = Addresses { entries };
        proof {
            assert(r@ =~= self@);
        }
        r
    }

    /// The addresses, in list order.
    pub fn addr_list(&self) -> (r: Vec<Multiaddr>)
        ensures
            r@.len() == self@.len(),
            forall|i: int| 0 <= i < r@.len() ==> (#[trigger] r@[i])@ == self@[i].0,
    {
        let mut out: Vec<Multiaddr> = Vec::new();
        let mut i: usize = 0;
        while i < self.entries.len()
            invariant
                0 <= i <= self@.len(),
                self@.len() == self.entries@.len(),
                forall|l: int| 0 <= l < self@.len() ==> self@[l].0 == self.entries@[l].addr@,
                out@.len() == i,
                forall|l: int| 0 <= l < i ==> (#[trigger] out@[l])@ == self@[l].0,
            decreases self@.len() - i,
        {
            let a = self.entries[i].addr.duplicate();
            out.push(a);
            i += 1;
        }
        out
    }
}

} // verus!
