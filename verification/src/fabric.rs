//! Interfaces, interface tables and virtual networks.
//!
//! A `PifTable` owns the authoritative list of interface records of one
//! virtual network together with a derived prefix trie over every
//! record's endpoint prefixes.  The table keeps three invariants: names
//! are unique, endpoint paths are globally distinct, and the trie holds
//! exactly the endpoint-to-name associations of the records.
//! Registration is atomic: on any failure nothing is changed.

use vstd::prelude::*;
use vstd::pervasive::unreached;

use crate::prefix::IpAddress;
use crate::prefix::Prefix;
use crate::prefixtrie::PrefixTrie;
use crate::prefixtrie::TrieError;
use crate::prefixtrie::lpm_matches;
use crate::prefixtrie::lpm_witness;
use crate::prefixtrie::lemma_lpm_matches_unique;

verus! {

/// An opaque overlay network identifier; stored and returned unchanged.
#[derive(Clone, Copy, PartialEq, Eq, Structural, Debug)]
pub struct Vni {
    pub value: u32,
}

impl Vni {
    /// Wrap an identifier value; the fabric performs no validation.
    pub fn new(value: u32) -> (r: Vni)
        ensures
            r.value == value,
    {
        Vni { value }
    }

    /// The identifier value.
    pub fn as_u32(&self) -> (r: u32)
        ensures
            r == self.value,
    {
        self.value
    }
}

/// A physical or virtual interface: a name, the underlay endpoint
/// prefixes it is reachable through, the overlay prefixes it owns, and
/// the name of its owning virtual network.
#[derive(Clone, Debug)]
pub struct Pif {
    name: String,
    endpoints: Vec<Prefix>,
    ips: Vec<Prefix>,
    vpc: String,
}

impl Pif {
    /// The interface name.
    pub closed spec fn spec_name(self) -> Seq<char> {
        self.name@
    }

    /// The name of the owning virtual network.
    pub closed spec fn spec_vpc(self) -> Seq<char> {
        self.vpc@
    }

    /// The underlay endpoint prefixes.
    pub closed spec fn spec_endpoints(self) -> Seq<Prefix> {
        self.endpoints@
    }

    /// The overlay prefixes.
    pub closed spec fn spec_ips(self) -> Seq<Prefix> {
        self.ips@
    }

    /// A fresh interface with the given name and owning network and no
    /// prefixes yet.
    pub fn new(name: String, vpc: String) -> (r: Pif)
        ensures
            r.spec_name() == name@,
            r.spec_vpc() == vpc@,
            r.spec_endpoints() == Seq::<Prefix>::empty(),
            r.spec_ips() == Seq::<Prefix>::empty(),
    {
        Pif { name, endpoints: Vec::new(), ips: Vec::new(), vpc }
    }

    /// The interface name.
    pub fn name(&self) -> (r: &String)
        ensures
            r@ == self.spec_name(),
    {
        &self.name
    }

    /// The name of the owning virtual network.
    pub fn vpc(&self) -> (r: &String)
        ensures
            r@ == self.spec_vpc(),
    {
        &self.vpc
    }

    /// Append an underlay endpoint prefix; used to populate the
    /// interface before it is registered into a table.
    pub fn add_endpoint(&mut self, prefix: Prefix)
        ensures
            final(self).spec_name() == old(self).spec_name(),
            final(self).spec_vpc() == old(self).spec_vpc(),
            final(self).spec_ips() == old(self).spec_ips(),
            final(self).spec_endpoints() == old(self).spec_endpoints().push(prefix),
    {
        self.endpoints.push(prefix);
    }

    /// Append an overlay prefix; used to populate the interface before
    /// it is registered into a table.
    pub fn add_ip(&mut self, prefix: Prefix)
        ensures
            final(self).spec_name() == old(self).spec_name(),
            final(self).spec_vpc() == old(self).spec_vpc(),
            final(self).spec_endpoints() == old(self).spec_endpoints(),
            final(self).spec_ips() == old(self).spec_ips().push(prefix),
    {
        self.ips.push(prefix);
    }

    /// The underlay endpoint prefixes.
    pub fn endpoints(&self) -> (r: &Vec<Prefix>)
        ensures
            r@ == self.spec_endpoints(),
    {
        &self.endpoints
    }

    /// The overlay prefixes.
    pub fn iter_ips(&self) -> (r: &Vec<Prefix>)
        ensures
            r@ == self.spec_ips(),
    {
        &self.ips
    }
}

/// No two records carry the same name.
pub open spec fn names_unique(pifs: Seq<Pif>) -> bool {
    forall|i: int, j: int|
        #![trigger pifs[i].spec_name(), pifs[j].spec_name()]
        0 <= i < pifs.len() && 0 <= j < pifs.len() && i != j ==> pifs[i].spec_name()
            != pifs[j].spec_name()
}

/// Every endpoint prefix of every record is canonical.
pub open spec fn endpoints_valid(pifs: Seq<Pif>) -> bool {
    forall|i: int, e: int|
        0 <= i < pifs.len() && 0 <= e < pifs[i].spec_endpoints().len() ==> (
        #[trigger] pifs[i].spec_endpoints()[e]).valid()
}

/// No two endpoint prefixes anywhere in the records share a trie path.
pub open spec fn paths_distinct(pifs: Seq<Pif>) -> bool {
    forall|i: int, e: int, j: int, f: int|
        #![trigger pifs[i].spec_endpoints()[e], pifs[j].spec_endpoints()[f]]
        0 <= i < pifs.len() && 0 <= e < pifs[i].spec_endpoints().len() && 0 <= j < pifs.len() && 0
            <= f < pifs[j].spec_endpoints().len() && (i != j || e != f)
            ==> pifs[i].spec_endpoints()[e].path() != pifs[j].spec_endpoints()[f].path()
}

/// The records can be replayed into a table without any failure: unique
/// names, canonical endpoints, globally distinct endpoint paths.
pub open spec fn replayable(pifs: Seq<Pif>) -> bool {
    names_unique(pifs) && endpoints_valid(pifs) && paths_distinct(pifs)
}

/// Some endpoint prefix of the interface is not canonical.
pub open spec fn endpoint_invalid(pif: Pif) -> bool {
    exists|e: int|
        0 <= e < pif.spec_endpoints().len() && !(#[trigger] pif.spec_endpoints()[e]).valid()
}

/// Some endpoint prefix of the interface is already claimed in the
/// table's trie.
pub open spec fn endpoint_collides(t: PifTable, pif: Pif) -> bool {
    exists|e: int|
        0 <= e < pif.spec_endpoints().len() && t.trie_map().dom().contains(
            (#[trigger] pif.spec_endpoints()[e]).path(),
        )
}

/// The interface lists the same endpoint path twice.
pub open spec fn endpoints_duplicated(pif: Pif) -> bool {
    exists|e: int, f: int|
        #![trigger pif.spec_endpoints()[e], pif.spec_endpoints()[f]]
        0 <= e < pif.spec_endpoints().len() && 0 <= f < pif.spec_endpoints().len() && e != f
            && pif.spec_endpoints()[e].path() == pif.spec_endpoints()[f].path()
}

/// The contract of registration: on success the record is appended and
/// nothing stood in its way; on failure the table is unchanged and the
/// error names exactly which check failed, name first, then prefix
/// validity, then collisions.
pub open spec fn add_pif_post(
    pre: PifTable,
    post: PifTable,
    pif: Pif,
    r: Result<(), TrieError>,
) -> bool {
    match r {
        Ok(()) => {
            &&& !pre.spec_contains_name(pif.spec_name())
            &&& !endpoint_invalid(pif)
            &&& !endpoint_collides(pre, pif)
            &&& !endpoints_duplicated(pif)
            &&& post.spec_pifs() == pre.spec_pifs().push(pif)
        },
        Err(e) => {
            &&& post == pre
            &&& (e == TrieError::NameExists <==> pre.spec_contains_name(pif.spec_name()))
            &&& (e == TrieError::InvalidPrefix <==> !pre.spec_contains_name(pif.spec_name())
                && endpoint_invalid(pif))
            &&& (e == TrieError::EntryExists <==> !pre.spec_contains_name(pif.spec_name())
                && !endpoint_invalid(pif) && (endpoint_collides(pre, pif) || endpoints_duplicated(
                pif,
            )))
        },
    }
}

/// The contract of resolution: the answer is the table's
/// longest-prefix-match function of the address, it is the unique
/// longest-prefix-match answer over the trie's map view, and any name
/// returned belongs to a registered interface.
pub open spec fn resolve_post(t: PifTable, ip: IpAddress, r: Option<Seq<char>>) -> bool {
    &&& r == t.resolve_spec(ip)
    &&& lpm_matches(t.trie_map(), ip.addr_path(), r)
    &&& match r {
        Some(name) => t.spec_contains_name(name),
        None => true,
    }
}

/// A table rebuilt from records failed; the underlying error tells why.
#[derive(Clone, Copy, PartialEq, Eq, Structural, Debug)]
pub enum LoadError {
    ReconstructionFailed(TrieError),
}

/// The interface table of one virtual network: the authoritative record
/// list and the derived endpoint trie.
pub struct PifTable {
    pifs: Vec<Pif>,
    endpoint_trie: PrefixTrie,
}

impl PifTable {
    /// The registered interface records, in registration order.
    pub closed spec fn spec_pifs(self) -> Seq<Pif> {
        self.pifs@
    }

    /// The derived index: the map from endpoint trie paths to names.
    pub closed spec fn trie_map(self) -> Map<Seq<bool>, Seq<char>> {
        self.endpoint_trie@
    }

    /// The table's longest-prefix-match resolution function.
    pub closed spec fn resolve_spec(self, ip: IpAddress) -> Option<Seq<char>> {
        self.endpoint_trie.lpm_spec(ip.addr_path())
    }

    /// Some registered record carries this name.
    pub open spec fn spec_contains_name(self, name: Seq<char>) -> bool {
        exists|i: int|
            0 <= i < self.spec_pifs().len() && (#[trigger] self.spec_pifs()[i]).spec_name() == name
    }

    /// The derived trie holds exactly the records' endpoint
    /// associations: a path is stored iff it is some record's endpoint
    /// path, and it maps to that record's name.
    pub open spec fn trie_consistent(self) -> bool {
        let pifs = self.spec_pifs();
        let m = self.trie_map();
        &&& forall|k: Seq<bool>|
            #[trigger] m.dom().contains(k) <==> exists|i: int, e: int|
                0 <= i < pifs.len() && 0 <= e < pifs[i].spec_endpoints().len() && (
                #[trigger] pifs[i].spec_endpoints()[e]).path() == k
        &&& forall|i: int, e: int|
            0 <= i < pifs.len() && 0 <= e < pifs[i].spec_endpoints().len() ==> m.dom().contains(
                (#[trigger] pifs[i].spec_endpoints()[e]).path(),
            ) && m[pifs[i].spec_endpoints()[e].path()] == pifs[i].spec_name()
    }

    /// Well-formedness: replayable records and a consistent derived
    /// index.
    pub open spec fn wf(self) -> bool {
        replayable(self.spec_pifs()) && self.trie_consistent()
    }

    /// An empty table: no records, empty index.
    pub fn new() -> (r: Self)
        ensures
            r.wf(),
            r.spec_pifs() == Seq::<Pif>::empty(),
    {
        let r = PifTable { pifs: Vec::new(), endpoint_trie: PrefixTrie::new() };
        proof {
            assert(forall|k: Seq<bool>| !r.trie_map().dom().contains(k));
        }
        r
    }

    /// Whether an interface of this name is registered.
    pub fn contains_name(&self, name: &String) -> (r: bool)
        ensures
            r == self.spec_contains_name(name@),
    {
        let mut i: usize = 0;
        while i < self.pifs.len()
            invariant
                i <= self.pifs@.len(),
                forall|j: int| 0 <= j < i ==> (#[trigger] self.pifs@[j]).spec_name() != name@,
            decreases self.pifs@.len() - i,
        {
            let p = &self.pifs[i];
            if p.name == *name {
                proof {
                    assert(self.spec_pifs()[i as int].spec_name() == name@);
                }
                return true;
            }
            i = i + 1;
        }
        false
    }

    /// The registered records; the persisted form of the table is
    /// exactly this list, the trie being derived.
    pub fn records(&self) -> (r: &Vec<Pif>)
        ensures
            r@ == self.spec_pifs(),
    {
        &self.pifs
    }

    /// Register an interface.  The operation is atomic: every check runs
    /// before anything is changed, so a failure leaves both the record
    /// list and the trie exactly as they were.
    #[verifier::loop_isolation(false)]
    pub fn add_pif(&mut self, pif: Pif) -> (r: Result<(), TrieError>)
        requires
            old(self).wf(),
        ensures
            final(self).wf(),
            add_pif_post(*old(self), *final(self), pif, r),
    {
        let ghost eps = pif.spec_endpoints();
        if self.contains_name(&pif.name) {
            return Err(TrieError::NameExists);
        }
        // Validity pass: every endpoint prefix must be canonical.
        let mut e: usize = 0;
        while e < pif.endpoints.len()
            invariant
                e <= eps.len(),
                forall|j: int| 0 <= j < e ==> (#[trigger] eps[j]).valid(),
            decreases eps.len() - e,
        {
            if !pif.endpoints[e].is_valid() {
                proof {
                    assert(!(eps[e as int]).valid());
                }
                return Err(TrieError::InvalidPrefix);
            }
            e = e + 1;
        }
        proof {
            assert(!endpoint_invalid(pif));
        }
        // Collision pass: every endpoint path must be absent from the
        // trie and distinct from the interface's earlier endpoints.
        let mut paths: Vec<Vec<bool>> = Vec::new();
        let mut e: usize = 0;
        while e < pif.endpoints.len()
            invariant
                e <= eps.len(),
                paths@.len() == e,
                forall|j: int| 0 <= j < e ==> (#[trigger] paths@[j])@ == eps[j].path(),
                forall|j: int|
                    0 <= j < e ==> !self.trie_map().dom().contains((#[trigger] eps[j]).path()),
                forall|j: int, k: int|
                    #![trigger eps[j], eps[k]]
                    0 <= j < k < e ==> eps[j].path() != eps[k].path(),
            decreases eps.len() - e,
        {
            let p = &pif.endpoints[e];
            let path = p.to_path();
            if self.endpoint_trie.contains_path(&path) {
                proof {
                    assert(self.trie_map().dom().contains((eps[e as int]).path()));
                    assert(endpoint_collides(*self, pif));
                }
                return Err(TrieError::EntryExists);
            }
            let mut j: usize = 0;
            while j < paths.len()
                invariant
                    j <= paths@.len(),
                    forall|k: int| 0 <= k < j ==> (#[trigger] eps[k]).path() != eps[e as int].path(),
                decreases paths@.len() - j,
            {
                if vec_bool_eq(&paths[j], &path) {
                    proof {
                        assert((eps[j as int]).path() == (eps[e as int]).path());
                        assert(endpoints_duplicated(pif));
                    }
                    return Err(TrieError::EntryExists);
                }
                j = j + 1;
            }
            paths.push(path);
            e = e + 1;
        }
        proof {
            assert(!endpoint_collides(*self, pif));
            assert(!endpoints_duplicated(pif));
        }
        // Commit: every insert below is proven to succeed.
        let ghost pre = *self;
        let ghost pre_map = self.trie_map();
        let mut e: usize = 0;
        while e < pif.endpoints.len()
            invariant
                e <= eps.len(),
                self.spec_pifs() == pre.spec_pifs(),
                forall|k: Seq<bool>|
                    #[trigger] self.trie_map().dom().contains(k) <==> pre_map.dom().contains(k)
                        || exists|j: int| 0 <= j < e && (#[trigger] eps[j]).path() == k,
                forall|k: Seq<bool>|
                    #[trigger] pre_map.dom().contains(k) ==> self.trie_map()[k] == pre_map[k],
                forall|j: int|
                    0 <= j < e ==> self.trie_map()[(#[trigger] eps[j]).path()] == pif.spec_name(),
            decreases eps.len() - e,
        {
            let value = pif.name.clone();
            let ghost m_prev = self.trie_map();
            match self.endpoint_trie.insert(&pif.endpoints[e], value) {
                Ok(()) => {},
                Err(_) => {
                    proof {
                        assert(!self.trie_map().dom().contains((eps[e as int]).path()));
                        assert(false);
                    }
                    unreached()
                },
            }
            proof {
                let m_now = self.trie_map();
                let pe = eps[e as int].path();
                assert(m_now == m_prev.insert(pe, pif.spec_name()));
                assert forall|k: Seq<bool>| #[trigger] m_now.dom().contains(k) implies
                    pre_map.dom().contains(k) || exists|j: int|
                        0 <= j < e + 1 && (#[trigger] eps[j]).path() == k by {
                    if k == pe {
                        assert(0 <= e < e + 1 && eps[e as int].path() == k);
                    } else {
                        assert(m_prev.dom().contains(k));
                    }
                }
                assert forall|k: Seq<bool>|
                    pre_map.dom().contains(k) || (exists|j: int|
                        0 <= j < e + 1 && (#[trigger] eps[j]).path() == k) implies
                    #[trigger] m_now.dom().contains(k) by {
                    if pre_map.dom().contains(k) {
                        assert(m_prev.dom().contains(k));
                    } else {
                        let j = choose|j: int|
                            0 <= j < e + 1 && (#[trigger] eps[j]).path() == k;
                        if j < e {
                            assert(m_prev.dom().contains(k));
                        } else {
                            assert(k == pe);
                        }
                    }
                }
            }
            e = e + 1;
        }
        let ghost m_final = self.trie_map();
        proof {
            assert(e == eps.len());
        }
        self.pifs.push(pif);
        proof {
            assert(self.trie_map() == m_final);
        }
        proof {
            let newp = self.spec_pifs();
            let oldp = pre.spec_pifs();
            let n = oldp.len() as int;
            assert(newp == oldp.push(pif));
            assert(newp[n] == pif);
            assert(oldp == old(self).spec_pifs());
            assert(pre_map == old(self).trie_map());
            // Names stay unique.
            assert forall|i: int, j: int|
                #![trigger newp[i].spec_name(), newp[j].spec_name()]
                0 <= i < newp.len() && 0 <= j < newp.len() && i != j implies newp[i].spec_name()
                != newp[j].spec_name() by {
                if i < n && j < n {
                } else if i == n {
                    assert(newp[j] == oldp[j]);
                } else {
                    assert(newp[i] == oldp[i]);
                }
            }
            // Endpoints stay canonical.
            assert forall|i: int, e2: int|
                0 <= i < newp.len() && 0 <= e2 < newp[i].spec_endpoints().len() implies (
            #[trigger] newp[i].spec_endpoints()[e2]).valid() by {
                if i < n {
                    assert(newp[i] == oldp[i]);
                    assert(oldp[i].spec_endpoints()[e2].valid());
                } else {
                    assert(newp[i].spec_endpoints() == eps);
                }
            }
            // Paths stay globally distinct.
            assert forall|i: int, e2: int, j: int, f: int|
                #![trigger newp[i].spec_endpoints()[e2], newp[j].spec_endpoints()[f]]
                0 <= i < newp.len() && 0 <= e2 < newp[i].spec_endpoints().len() && 0 <= j
                    < newp.len() && 0 <= f < newp[j].spec_endpoints().len() && (i != j || e2 != f)
                 implies newp[i].spec_endpoints()[e2].path() != newp[j].spec_endpoints()[f].path()
                by {
                if i < n && j < n {
                    assert(newp[i] == oldp[i]);
                    assert(newp[j] == oldp[j]);
                    assert(oldp[i].spec_endpoints()[e2].path() != oldp[j].spec_endpoints()[f].path());
                } else if i == n && j == n {
                    assert(newp[i].spec_endpoints() == eps);
                } else if i == n {
                    assert(newp[i].spec_endpoints() == eps);
                    assert(newp[j] == oldp[j]);
                    assert(pre_map.dom().contains(oldp[j].spec_endpoints()[f].path()));
                    assert(!pre_map.dom().contains(eps[e2].path()));
                } else {
                    assert(newp[j].spec_endpoints() == eps);
                    assert(newp[i] == oldp[i]);
                    assert(pre_map.dom().contains(oldp[i].spec_endpoints()[e2].path()));
                    assert(!pre_map.dom().contains(eps[f].path()));
                }
            }
            // The trie is consistent with the extended records.
            let m = self.trie_map();
            assert forall|k: Seq<bool>| #[trigger] m.dom().contains(k) implies exists|i: int, e2: int|
                0 <= i < newp.len() && 0 <= e2 < newp[i].spec_endpoints().len() && (
            #[trigger] newp[i].spec_endpoints()[e2]).path() == k by {
                if pre_map.dom().contains(k) {
                    let (i, e2): (int, int) = choose|i: int, e2: int|
                        0 <= i < oldp.len() && 0 <= e2 < oldp[i].spec_endpoints().len() && (
                        #[trigger] oldp[i].spec_endpoints()[e2]).path() == k;
                    assert(newp[i] == oldp[i]);
                    assert(newp[i].spec_endpoints()[e2].path() == k);
                } else {
                    let j = choose|j: int| 0 <= j < eps.len() && (#[trigger] eps[j]).path() == k;
                    assert(newp[n].spec_endpoints() == eps);
                    assert(newp[n].spec_endpoints()[j].path() == k);
                }
            }
            assert forall|i: int, e2: int|
                0 <= i < newp.len() && 0 <= e2 < newp[i].spec_endpoints().len() implies m.dom().contains(
                (#[trigger] newp[i].spec_endpoints()[e2]).path(),
            ) && m[newp[i].spec_endpoints()[e2].path()] == newp[i].spec_name() by {
                if i < n {
                    assert(newp[i] == oldp[i]);
                    assert(pre_map.dom().contains(oldp[i].spec_endpoints()[e2].path()));
                    assert(m[oldp[i].spec_endpoints()[e2].path()] == pre_map[oldp[i].spec_endpoints()[e2].path()]);
                } else {
                    assert(newp[i].spec_endpoints() == eps);
                    assert(m[eps[e2].path()] == pif.spec_name());
                }
            }
            assert(self.trie_consistent());
        }
        Ok(())
    }

    /// Resolve an underlay address to the name of the owning interface:
    /// the value of the most specific registered endpoint prefix that
    /// contains the address, or `None` when no endpoint covers it.
    pub fn find_pif_by_endpoint(&self, ip: &IpAddress) -> (r: Option<String>)
        requires
            self.wf(),
        ensures
            resolve_post(*self, *ip, r.deep_view()),
    {
        let r = self.endpoint_trie.find_ip(ip);
        proof {
            self.endpoint_trie.lemma_lpm_spec_matches(ip.addr_path());
            match r {
                Some(ref s) => {
                    let m = self.trie_map();
                    let k = choose|k: Seq<bool>| #[trigger] lpm_witness(m, ip.addr_path(), k)
                        && m[k] == s@;
                    assert(m.dom().contains(k));
                    let (i, e): (int, int) = choose|i: int, e: int|
                        0 <= i < self.spec_pifs().len() && 0 <= e
                            < self.spec_pifs()[i].spec_endpoints().len() && (
                        #[trigger] self.spec_pifs()[i].spec_endpoints()[e]).path() == k;
                    assert(m[k] == self.spec_pifs()[i].spec_name());
                    assert(self.spec_contains_name(s@));
                },
                None => {},
            }
        }
        r
    }

    /// Rebuild a table from persisted records by replaying registration
    /// for each, in order.  Loading fails closed: on the first failed
    /// replay step the error is returned and no table is produced, so a
    /// partially reconstructed index can never be observed.
    #[verifier::loop_isolation(false)]
    pub fn from_records(records: Vec<Pif>) -> (r: Result<PifTable, LoadError>)
        ensures
            match r {
                Ok(t) => {
                    &&& t.wf()
                    &&& t.spec_pifs() == records@
                    &&& replayable(records@)
                },
                Err(e) => !replayable(records@),
            },
    {
        let ghost all = records@;
        let mut recs = records;
        let total = recs.len();
        let mut t = PifTable::new();
        let mut i: usize = 0;
        proof {
            assert(recs@ =~= all.skip(0));
            assert(t.spec_pifs() =~= all.take(0));
        }
        while recs.len() > 0
            invariant
                i + recs@.len() == total,
                recs@ == all.skip(i as int),
                t.wf(),
                t.spec_pifs() == all.take(i as int),
            decreases recs@.len(),
        {
            let pif = recs.remove(0);
            proof {
                assert(all.skip(i as int)[0] == all[i as int]);
                assert(recs@ =~= all.skip(i as int + 1));
            }
            let ghost t_pre = t;
            match t.add_pif(pif) {
                Ok(()) => {},
                Err(e) => {
                    proof {
                        lemma_failure_not_replayable(t_pre, pif, all, i as int, e);
                    }
                    return Err(LoadError::ReconstructionFailed(e));
                },
            }
            proof {
                assert(t.spec_pifs() =~= all.take(i as int + 1));
            }
            i = i + 1;
        }
        proof {
            assert(all.take(i as int) =~= all);
        }
        Ok(t)
    }
}

/// A failed replay step at position `i` refutes replayability of the
/// whole record list.
proof fn lemma_failure_not_replayable(t: PifTable, pif: Pif, all: Seq<Pif>, i: int, e: TrieError)
    requires
        t.wf(),
        0 <= i < all.len(),
        t.spec_pifs() == all.take(i),
        pif == all[i],
        add_pif_post(t, t, pif, Err(e)),
    ensures
        !replayable(all),
{
    let oldp = t.spec_pifs();
    if t.spec_contains_name(pif.spec_name()) {
        let j = choose|j: int|
            0 <= j < oldp.len() && (#[trigger] oldp[j]).spec_name() == pif.spec_name();
        assert(all[j] == oldp[j]);
        assert(all[j].spec_name() == all[i].spec_name());
        assert(!names_unique(all));
    } else if endpoint_invalid(pif) {
        let e2 = choose|e2: int|
            0 <= e2 < pif.spec_endpoints().len() && !(#[trigger] pif.spec_endpoints()[e2]).valid();
        assert(all[i].spec_endpoints()[e2] == pif.spec_endpoints()[e2]);
        assert(!endpoints_valid(all));
    } else if endpoint_collides(t, pif) {
        let e2 = choose|e2: int|
            0 <= e2 < pif.spec_endpoints().len() && t.trie_map().dom().contains(
                (#[trigger] pif.spec_endpoints()[e2]).path(),
            );
        let k = pif.spec_endpoints()[e2].path();
        let (j, f): (int, int) = choose|j: int, f: int|
            0 <= j < oldp.len() && 0 <= f < oldp[j].spec_endpoints().len() && (
            #[trigger] oldp[j].spec_endpoints()[f]).path() == k;
        assert(all[j] == oldp[j]);
        assert(all[j].spec_endpoints()[f].path() == all[i].spec_endpoints()[e2].path());
        assert(j != i);
        assert(!paths_distinct(all));
    } else {
        assert(endpoints_duplicated(pif));
        let (e2, f): (int, int) = choose|e2: int, f: int|
            #![trigger pif.spec_endpoints()[e2], pif.spec_endpoints()[f]]
            0 <= e2 < pif.spec_endpoints().len() && 0 <= f < pif.spec_endpoints().len() && e2 != f
                && pif.spec_endpoints()[e2].path() == pif.spec_endpoints()[f].path();
        assert(all[i].spec_endpoints()[e2].path() == all[i].spec_endpoints()[f].path());
        assert(!paths_distinct(all));
    }
}

/// A helper: elementwise equality of two bit vectors.
fn vec_bool_eq(a: &Vec<bool>, b: &Vec<bool>) -> (r: bool)
    ensures
        r == (a@ == b@),
{
    if a.len() != b.len() {
        proof {
            assert(a@.len() != b@.len());
        }
        return false;
    }
    let mut i: usize = 0;
    while i < a.len()
        invariant
            i <= a@.len(),
            a@.len() == b@.len(),
            forall|j: int| 0 <= j < i ==> a@[j] == b@[j],
        decreases a@.len() - i,
    {
        if a[i] != b[i] {
            return false;
        }
        i = i + 1;
    }
    proof {
        assert(a@ =~= b@);
    }
    true
}

/// Law: a well-formed table is determined by its records.  Two tables
/// holding the same record list resolve every address identically; in
/// particular a table rebuilt from its persisted records answers every
/// lookup exactly as the table that was persisted.
pub proof fn lemma_records_determine_resolution(t1: PifTable, t2: PifTable, ip: IpAddress)
    requires
        t1.wf(),
        t2.wf(),
        t1.spec_pifs() == t2.spec_pifs(),
    ensures
        t1.resolve_spec(ip) == t2.resolve_spec(ip),
{
    let m1 = t1.trie_map();
    let m2 = t2.trie_map();
    let pifs = t1.spec_pifs();
    assert forall|k: Seq<bool>| #[trigger] m1.dom().contains(k) implies m2.dom().contains(k)
        && m2[k] == m1[k] by {
        let (i, e): (int, int) = choose|i: int, e: int|
            0 <= i < pifs.len() && 0 <= e < pifs[i].spec_endpoints().len() && (
            #[trigger] pifs[i].spec_endpoints()[e]).path() == k;
        assert(m2.dom().contains(pifs[i].spec_endpoints()[e].path()));
        assert(m1[k] == pifs[i].spec_name());
        assert(m2[k] == pifs[i].spec_name());
    }
    assert forall|k: Seq<bool>| #[trigger] m2.dom().contains(k) implies m1.dom().contains(k) by {
        let (i, e): (int, int) = choose|i: int, e: int|
            0 <= i < pifs.len() && 0 <= e < pifs[i].spec_endpoints().len() && (
            #[trigger] pifs[i].spec_endpoints()[e]).path() == k;
        assert(m1.dom().contains(pifs[i].spec_endpoints()[e].path()));
    }
    assert(m1 =~= m2);
    t1.endpoint_trie.lemma_lpm_spec_matches(ip.addr_path());
    t2.endpoint_trie.lemma_lpm_spec_matches(ip.addr_path());
    lemma_lpm_matches_unique(m1, ip.addr_path(), t1.resolve_spec(ip), t2.resolve_spec(ip));
}

/// Law: a table with no registered interfaces resolves no address.
pub proof fn lemma_empty_table_resolves_none(t: PifTable, ip: IpAddress)
    requires
        t.wf(),
        t.spec_pifs().len() == 0,
    ensures
        t.resolve_spec(ip).is_none(),
{
    t.endpoint_trie.lemma_lpm_spec_matches(ip.addr_path());
    match t.resolve_spec(ip) {
        None => {},
        Some(v) => {
            let m = t.trie_map();
            let k = choose|k: Seq<bool>| #[trigger] lpm_witness(m, ip.addr_path(), k) && m[k] == v;
            assert(m.dom().contains(k));
            assert(false);
        },
    }
}

/// A virtual network: a name, an overlay network identifier, and its
/// own interface table.  Two virtual networks never share tables or
/// name spaces.
pub struct Vpc {
    name: String,
    vni: Vni,
    pif_table: PifTable,
}

impl Vpc {
    /// The network's name.
    pub closed spec fn spec_name(self) -> Seq<char> {
        self.name@
    }

    /// The overlay network identifier.
    pub closed spec fn spec_vni(self) -> Vni {
        self.vni
    }

    /// The network's interface table.
    pub closed spec fn spec_table(self) -> PifTable {
        self.pif_table
    }

    /// Well-formedness of the owned table.
    pub open spec fn wf(self) -> bool {
        self.spec_table().wf()
    }

    /// A fresh virtual network with an empty interface table.
    pub fn new(name: String, vni: Vni) -> (r: Vpc)
        ensures
            r.wf(),
            r.spec_name() == name@,
            r.spec_vni() == vni,
            r.spec_table().spec_pifs() == Seq::<Pif>::empty(),
    {
        Vpc { name, vni, pif_table: PifTable::new() }
    }

    /// The network's name.
    pub fn name(&self) -> (r: &String)
        ensures
            r@ == self.spec_name(),
    {
        &self.name
    }

    /// The overlay network identifier, returned unchanged.
    pub fn vni(&self) -> (r: Vni)
        ensures
            r == self.spec_vni(),
    {
        self.vni
    }

    /// The owned interface table.
    pub fn table(&self) -> (r: &PifTable)
        ensures
            *r == self.spec_table(),
    {
        &self.pif_table
    }

    /// Register an interface into this network's table; same atomic
    /// contract as the table's own registration.
    pub fn add_pif(&mut self, pif: Pif) -> (r: Result<(), TrieError>)
        requires
            old(self).wf(),
        ensures
            final(self).wf(),
            final(self).spec_name() == old(self).spec_name(),
            final(self).spec_vni() == old(self).spec_vni(),
            add_pif_post(old(self).spec_table(), final(self).spec_table(), pif, r),
    {
        self.pif_table.add_pif(pif)
    }

    /// Resolve an underlay address within this network alone.
    pub fn find_pif_by_endpoint(&self, ip: &IpAddress) -> (r: Option<String>)
        requires
            self.wf(),
        ensures
            resolve_post(self.spec_table(), *ip, r.deep_view()),
    {
        self.pif_table.find_pif_by_endpoint(ip)
    }
}

/// Law: virtual networks are isolated.  A lookup's answer is a function
/// of the network's own interface records alone: two networks holding
/// the same records answer alike whatever their names or identifiers,
/// and nothing of any other network enters the answer.
pub proof fn lemma_vpc_isolation(a: Vpc, b: Vpc, ip: IpAddress)
    requires
        a.wf(),
        b.wf(),
        a.spec_table().spec_pifs() == b.spec_table().spec_pifs(),
    ensures
        a.spec_table().resolve_spec(ip) == b.spec_table().resolve_spec(ip),
{
    lemma_records_determine_resolution(a.spec_table(), b.spec_table(), ip);
}

} // verus!
