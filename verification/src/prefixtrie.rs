//! A binary trie over address bits with longest-prefix-match lookup.
//!
//! The trie is keyed by bit paths (family marker bit first, then address
//! bits, most significant first) and stores one associated value per
//! exact path.  Its abstract view is the map from stored paths to stored
//! values; lookup returns the value of the longest stored path that is a
//! prefix of the queried address path.

use vstd::prelude::*;

use crate::prefix::IpAddress;
use crate::prefix::Prefix;

verus! {

/// Errors of the trie and of the table layer built on it.
#[derive(Clone, Copy, PartialEq, Eq, Structural, Debug)]
pub enum TrieError {
    /// The exact (address, length) pair already carries a value.
    EntryExists,
    /// An interface with the same name is already registered.
    NameExists,
    /// The prefix's mask length and address bits are inconsistent.
    InvalidPrefix,
}

/// `k` is an initial segment of `p`.
pub open spec fn is_prefix_of(k: Seq<bool>, p: Seq<bool>) -> bool {
    k.len() <= p.len() && k == p.take(k.len() as int)
}

/// `k` is a stored path matching `path` that no other stored match exceeds.
pub open spec fn lpm_witness(
    m: Map<Seq<bool>, Seq<char>>,
    path: Seq<bool>,
    k: Seq<bool>,
) -> bool {
    &&& m.dom().contains(k)
    &&& is_prefix_of(k, path)
    &&& forall|k2: Seq<bool>|
        #[trigger] m.dom().contains(k2) && is_prefix_of(k2, path) ==> k2.len() <= k.len()
}

/// `r` is the longest-prefix-match answer for `path` over the stored map
/// `m`: `None` exactly when no stored path matches, otherwise the value
/// of the longest stored path that is an initial segment of `path`.
pub open spec fn lpm_matches(
    m: Map<Seq<bool>, Seq<char>>,
    path: Seq<bool>,
    r: Option<Seq<char>>,
) -> bool {
    match r {
        None => forall|k: Seq<bool>| #[trigger] m.dom().contains(k) ==> !is_prefix_of(k, path),
        Some(v) => exists|k: Seq<bool>| #[trigger] lpm_witness(m, path, k) && m[k] == v,
    }
}

/// The longest-prefix-match answer is unique: two results that both
/// satisfy `lpm_matches` for the same map and path are equal.
pub proof fn lemma_lpm_matches_unique(
    m: Map<Seq<bool>, Seq<char>>,
    path: Seq<bool>,
    r1: Option<Seq<char>>,
    r2: Option<Seq<char>>,
)
    requires
        lpm_matches(m, path, r1),
        lpm_matches(m, path, r2),
    ensures
        r1 == r2,
{
    match (r1, r2) {
        (Some(v1), Some(v2)) => {
            let k1 = choose|k: Seq<bool>| #[trigger] lpm_witness(m, path, k) && m[k] == v1;
            let k2 = choose|k: Seq<bool>| #[trigger] lpm_witness(m, path, k) && m[k] == v2;
            assert(k1.len() <= k2.len() && k2.len() <= k1.len());
            assert(k1 == path.take(k1.len() as int));
            assert(k2 == path.take(k2.len() as int));
            assert(k1 == k2);
        },
        (Some(v1), None) => {
            let k1 = choose|k: Seq<bool>| #[trigger] lpm_witness(m, path, k) && m[k] == v1;
            assert(m.dom().contains(k1));
            assert(false);
        },
        (None, Some(v2)) => {
            let k2 = choose|k: Seq<bool>| #[trigger] lpm_witness(m, path, k) && m[k] == v2;
            assert(m.dom().contains(k2));
            assert(false);
        },
        (None, None) => {},
    }
}

/// Two nonempty sequences with equal heads and equal tails are equal.
proof fn lemma_head_tail_eq(a: Seq<bool>, b: Seq<bool>)
    requires
        a.len() > 0,
        b.len() > 0,
        a[0] == b[0],
        a.skip(1) == b.skip(1),
    ensures
        a == b,
{
    assert(a.skip(1).len() == a.len() - 1);
    assert(b.skip(1).len() == b.len() - 1);
    assert(a.len() == b.len());
    assert forall|j: int| 0 <= j < a.len() implies a[j] == b[j] by {
        if j > 0 {
            assert(a.skip(1)[j - 1] == a[j]);
            assert(b.skip(1)[j - 1] == b[j]);
        }
    }
    assert(a =~= b);
}

struct Node {
    value: Option<String>,
    left: Option<Box<Node>>,
    right: Option<Box<Node>>,
}

impl Node {
    /// The stored value of this node, abstractly.
    spec fn value_view(self) -> Option<Seq<char>> {
        match self.value {
            Some(s) => Some(s@),
            None => None,
        }
    }

    spec fn opt_value_at(node_opt: Option<Box<Node>>, path: Seq<bool>) -> Option<Seq<char>>
        decreases path.len(), 1int,
    {
        match node_opt {
            None => None,
            Some(n) => n.value_at(path),
        }
    }

    /// The value stored at the end of `path` under this node, if any.
    spec fn value_at(self, path: Seq<bool>) -> Option<Seq<char>>
        decreases path.len(), 0int,
    {
        if path.len() == 0 {
            self.value_view()
        } else {
            Node::opt_value_at(if path[0] { self.right } else { self.left }, path.skip(1))
        }
    }

    /// The longest-prefix-match answer for `path` under this node: the
    /// value stored deepest along `path`, if any node along it holds one.
    spec fn lpm_at(self, path: Seq<bool>) -> Option<Seq<char>>
        decreases path.len(),
    {
        let deeper = if path.len() == 0 {
            None
        } else {
            match (if path[0] { self.right } else { self.left }) {
                None => None,
                Some(n) => n.lpm_at(path.skip(1)),
            }
        };
        if deeper.is_some() {
            deeper
        } else {
            self.value_view()
        }
    }

    fn insert_opt(
        node_opt: &mut Option<Box<Node>>,
        path: &Vec<bool>,
        i: usize,
        value: String,
    ) -> (r: Result<(), TrieError>)
        requires
            i <= path@.len(),
        ensures
            match r {
                Ok(()) => {
                    &&& Node::opt_value_at(*old(node_opt), path@.skip(i as int)).is_none()
                    &&& Node::opt_value_at(*final(node_opt), path@.skip(i as int)) == Some(
                        value@,
                    )
                    &&& forall|q: Seq<bool>|
                        q != path@.skip(i as int) ==> Node::opt_value_at(*final(node_opt), q)
                            == Node::opt_value_at(*old(node_opt), q)
                },
                Err(e) => {
                    &&& e == TrieError::EntryExists
                    &&& Node::opt_value_at(*old(node_opt), path@.skip(i as int)).is_some()
                    &&& *final(node_opt) == *old(node_opt)
                },
            },
        decreases path@.len() - i, 1int,
    {
        let ghost target = path@.skip(i as int);
        match node_opt.take() {
            None => {
                let mut node = Node { value: None, left: None, right: None };
                let ghost empty_node = node;
                proof {
                    assert forall|q: Seq<bool>| (#[trigger] empty_node.value_at(q)).is_none() by {
                        if q.len() == 0 {
                        } else {
                            assert(empty_node.value_at(q) == Node::opt_value_at(
                                if q[0] {
                                    empty_node.right
                                } else {
                                    empty_node.left
                                },
                                q.skip(1),
                            ));
                        }
                    }
                }
                let r = Node::insert_at(&mut node, path, i, value);
                let ghost post_node = node;
                *node_opt = Some(Box::new(node));
                proof {
                    assert(Node::opt_value_at(*old(node_opt), target).is_none());
                    match r {
                        Ok(()) => {
                            assert(Node::opt_value_at(*node_opt, target) == post_node.value_at(
                                target,
                            ));
                            assert forall|q: Seq<bool>| q != target implies Node::opt_value_at(
                                *node_opt,
                                q,
                            ) == Node::opt_value_at(*old(node_opt), q) by {
                                assert(Node::opt_value_at(*node_opt, q) == post_node.value_at(q));
                                assert(post_node.value_at(q) == empty_node.value_at(q));
                                assert(empty_node.value_at(q).is_none());
                            }
                        },
                        Err(_) => {
                            assert(empty_node.value_at(target).is_some());
                            assert(false);
                        },
                    }
                }
                r
            },
            Some(mut boxed) => {
                let r = Node::insert_at(&mut *boxed, path, i, value);
                let ghost post_node = *boxed;
                *node_opt = Some(boxed);
                proof {
                    assert(Node::opt_value_at(*node_opt, target) == post_node.value_at(target));
                    match r {
                        Ok(()) => {
                            assert forall|q: Seq<bool>| q != target implies Node::opt_value_at(
                                *node_opt,
                                q,
                            ) == Node::opt_value_at(*old(node_opt), q) by {
                                assert(Node::opt_value_at(*node_opt, q) == post_node.value_at(q));
                            }
                        },
                        Err(_) => {},
                    }
                }
                r
            },
        }
    }

    fn insert_at(node: &mut Node, path: &Vec<bool>, i: usize, value: String) -> (r: Result<
        (),
        TrieError,
    >)
        requires
            i <= path@.len(),
        ensures
            match r {
                Ok(()) => {
                    &&& old(node).value_at(path@.skip(i as int)).is_none()
                    &&& final(node).value_at(path@.skip(i as int)) == Some(value@)
                    &&& forall|q: Seq<bool>|
                        q != path@.skip(i as int) ==> final(node).value_at(q) == old(
                            node,
                        ).value_at(q)
                },
                Err(e) => {
                    &&& e == TrieError::EntryExists
                    &&& old(node).value_at(path@.skip(i as int)).is_some()
                    &&& *final(node) == *old(node)
                },
            },
        decreases path@.len() - i, 0int,
    {
        let ghost target = path@.skip(i as int);
        if i == path.len() {
            proof {
                assert(target.len() == 0);
            }
            if node.value.is_some() {
                Err(TrieError::EntryExists)
            } else {
                node.value = Some(value);
                proof {
                    assert forall|q: Seq<bool>| q != target implies node.value_at(q) == old(
                        node,
                    ).value_at(q) by {
                        if q.len() == 0 {
                            assert(q =~= target);
                        } else {
                            assert(node.value_at(q) == Node::opt_value_at(
                                if q[0] {
                                    node.right
                                } else {
                                    node.left
                                },
                                q.skip(1),
                            ));
                            assert(old(node).value_at(q) == Node::opt_value_at(
                                if q[0] {
                                    old(node).right
                                } else {
                                    old(node).left
                                },
                                q.skip(1),
                            ));
                        }
                    }
                }
                Ok(())
            }
        } else {
            let ghost sub = path@.skip(i as int + 1);
            proof {
                assert(target.len() > 0);
                assert(target[0] == path@[i as int]);
                assert(target.skip(1) =~= sub);
            }
            let bit = path[i];
            let r = if bit {
                Node::insert_opt(&mut node.right, path, i + 1, value)
            } else {
                Node::insert_opt(&mut node.left, path, i + 1, value)
            };
            proof {
                let now_child = if bit {
                    node.right
                } else {
                    node.left
                };
                let old_child = if bit {
                    old(node).right
                } else {
                    old(node).left
                };
                assert(node.value_at(target) == Node::opt_value_at(now_child, sub));
                assert(old(node).value_at(target) == Node::opt_value_at(old_child, sub));
                match r {
                    Ok(()) => {
                        assert forall|q: Seq<bool>| q != target implies node.value_at(q) == old(
                            node,
                        ).value_at(q) by {
                            if q.len() == 0 {
                            } else {
                                assert(node.value_at(q) == Node::opt_value_at(
                                    if q[0] {
                                        node.right
                                    } else {
                                        node.left
                                    },
                                    q.skip(1),
                                ));
                                assert(old(node).value_at(q) == Node::opt_value_at(
                                    if q[0] {
                                        old(node).right
                                    } else {
                                        old(node).left
                                    },
                                    q.skip(1),
                                ));
                                if q[0] == bit {
                                    if q.skip(1) == sub {
                                        lemma_head_tail_eq(q, target);
                                        assert(false);
                                    }
                                }
                            }
                        }
                    },
                    Err(_) => {},
                }
            }
            r
        }
    }

    fn contains_at(node: &Node, path: &Vec<bool>, i: usize) -> (r: bool)
        requires
            i <= path@.len(),
        ensures
            r == node.value_at(path@.skip(i as int)).is_some(),
        decreases path@.len() - i,
    {
        let ghost target = path@.skip(i as int);
        if i == path.len() {
            proof {
                assert(target.len() == 0);
            }
            node.value.is_some()
        } else {
            proof {
                assert(target.len() > 0);
                assert(target[0] == path@[i as int]);
                assert(target.skip(1) =~= path@.skip(i as int + 1));
            }
            let child = if path[i] {
                &node.right
            } else {
                &node.left
            };
            match child {
                None => false,
                Some(n) => Node::contains_at(&**n, path, i + 1),
            }
        }
    }

    fn find_at(node: &Node, path: &Vec<bool>, i: usize) -> (r: Option<String>)
        requires
            i <= path@.len(),
        ensures
            match r {
                None => node.lpm_at(path@.skip(i as int)).is_none(),
                Some(s) => node.lpm_at(path@.skip(i as int)) == Some(s@),
            },
        decreases path@.len() - i,
    {
        let ghost target = path@.skip(i as int);
        let deeper: Option<String> = if i < path.len() {
            proof {
                assert(target.len() > 0);
                assert(target[0] == path@[i as int]);
                assert(target.skip(1) =~= path@.skip(i as int + 1));
            }
            let child = if path[i] {
                &node.right
            } else {
                &node.left
            };
            match child {
                None => None,
                Some(n) => Node::find_at(&**n, path, i + 1),
            }
        } else {
            proof {
                assert(target.len() == 0);
            }
            None
        };
        match deeper {
            Some(s) => Some(s),
            None => match &node.value {
                Some(s) => Some(s.clone()),
                None => None,
            },
        }
    }

    /// The deepest value found along `path` is the longest-prefix-match
    /// answer over the paths stored under this node.
    proof fn lemma_lpm_at_correct(self, path: Seq<bool>)
        ensures
            match self.lpm_at(path) {
                None => forall|k: Seq<bool>|
                    is_prefix_of(k, path) ==> (#[trigger] self.value_at(k)).is_none(),
                Some(v) => exists|k: Seq<bool>|
                    {
                        &&& is_prefix_of(k, path)
                        &&& #[trigger] self.value_at(k) == Some(v)
                        &&& forall|k2: Seq<bool>|
                            is_prefix_of(k2, path) && (#[trigger] self.value_at(
                                k2,
                            )).is_some() ==> k2.len() <= k.len()
                    },
            },
        decreases path.len(),
    {
        if path.len() == 0 {
            assert forall|k: Seq<bool>| is_prefix_of(k, path) implies k == path by {
                assert(k =~= path);
            }
            match self.lpm_at(path) {
                None => {},
                Some(v) => {
                    assert(is_prefix_of(path, path)) by {
                        assert(path =~= path.take(path.len() as int));
                    }
                    assert(self.value_at(path) == Some(v));
                },
            }
        } else {
            let child = if path[0] {
                self.right
            } else {
                self.left
            };
            let tail = path.skip(1);
            // A nonempty stored path matching `path` starts with path[0] and
            // its tail matches `tail` in the child.
            assert forall|k: Seq<bool>| is_prefix_of(k, path) && k.len() > 0 implies k[0] == path[0]
                && is_prefix_of(k.skip(1), tail) && self.value_at(k) == Node::opt_value_at(
                child,
                k.skip(1),
            ) by {
                assert(k == path.take(k.len() as int));
                assert(k[0] == path[0]);
                assert(k.skip(1) =~= tail.take(k.len() as int - 1));
                assert(self.value_at(k) == Node::opt_value_at(
                    if k[0] {
                        self.right
                    } else {
                        self.left
                    },
                    k.skip(1),
                ));
            }
            assert(is_prefix_of(Seq::<bool>::empty(), path)) by {
                assert(Seq::<bool>::empty() =~= path.take(0));
            }
            match child {
                None => {
                    assert(self.lpm_at(path) == self.value_view());
                    match self.value_view() {
                        None => {
                            assert forall|k: Seq<bool>| is_prefix_of(k, path) implies (
                            #[trigger] self.value_at(k)).is_none() by {
                                if k.len() == 0 {
                                    assert(k =~= Seq::<bool>::empty());
                                }
                            }
                        },
                        Some(v) => {
                            let k = Seq::<bool>::empty();
                            assert(self.value_at(k) == Some(v));
                            assert forall|k2: Seq<bool>|
                                is_prefix_of(k2, path) && (#[trigger] self.value_at(
                                    k2,
                                )).is_some() implies k2.len() <= k.len() by {
                                if k2.len() > 0 {
                                    assert(self.value_at(k2) == Node::opt_value_at(
                                        child,
                                        k2.skip(1),
                                    ));
                                }
                            }
                        },
                    }
                },
                Some(n) => {
                    n.lemma_lpm_at_correct(tail);
                    match n.lpm_at(tail) {
                        Some(v) => {
                            assert(self.lpm_at(path) == Some(v));
                            let kt = choose|kt: Seq<bool>|
                                {
                                    &&& is_prefix_of(kt, tail)
                                    &&& #[trigger] n.value_at(kt) == Some(v)
                                    &&& forall|k2: Seq<bool>|
                                        is_prefix_of(k2, tail) && (#[trigger] n.value_at(
                                            k2,
                                        )).is_some() ==> k2.len() <= kt.len()
                                };
                            let k = path.take(kt.len() as int + 1);
                            assert(is_prefix_of(k, path)) by {
                                assert(k =~= path.take(k.len() as int));
                            }
                            assert(k.len() > 0);
                            assert(k.skip(1) =~= kt) by {
                                assert(k.skip(1) =~= tail.take(kt.len() as int));
                                assert(kt == tail.take(kt.len() as int));
                            }
                            assert(self.value_at(k) == Some(v));
                            assert forall|k2: Seq<bool>|
                                is_prefix_of(k2, path) && (#[trigger] self.value_at(
                                    k2,
                                )).is_some() implies k2.len() <= k.len() by {
                                if k2.len() > 0 {
                                    assert(n.value_at(k2.skip(1)).is_some());
                                    assert(k2.skip(1).len() <= kt.len());
                                }
                            }
                        },
                        None => {
                            assert(self.lpm_at(path) == self.value_view());
                            match self.value_view() {
                                None => {
                                    assert forall|k: Seq<bool>| is_prefix_of(k, path) implies (
                                    #[trigger] self.value_at(k)).is_none() by {
                                        if k.len() == 0 {
                                            assert(k =~= Seq::<bool>::empty());
                                        } else {
                                            assert(n.value_at(k.skip(1)).is_none());
                                        }
                                    }
                                },
                                Some(v) => {
                                    let k = Seq::<bool>::empty();
                                    assert(self.value_at(k) == Some(v));
                                    assert forall|k2: Seq<bool>|
                                        is_prefix_of(k2, path) && (#[trigger] self.value_at(
                                            k2,
                                        )).is_some() implies k2.len() <= k.len() by {
                                        if k2.len() > 0 {
                                            assert(n.value_at(k2.skip(1)).is_none());
                                        }
                                    }
                                },
                            }
                        },
                    }
                },
            }
        }
    }
}

/// A binary trie over IPv4 and IPv6 prefixes at once: the root's two
/// subtrees hold the two address families, told apart by the leading
/// marker bit of every path.
pub struct PrefixTrie {
    root: Node,
}

impl View for PrefixTrie {
    type V = Map<Seq<bool>, Seq<char>>;

    /// The map from every stored bit path to its associated value.
    closed spec fn view(&self) -> Map<Seq<bool>, Seq<char>> {
        Map::new(
            |k: Seq<bool>| self.root.value_at(k).is_some(),
            |k: Seq<bool>|
                match self.root.value_at(k) {
                    Some(v) => v,
                    None => Seq::empty(),
                },
        )
    }
}

impl PrefixTrie {
    /// The longest-prefix-match answer for a bit path, as a function of
    /// the trie; `lemma_lpm_spec_matches` ties it to the map view.
    pub closed spec fn lpm_spec(self, path: Seq<bool>) -> Option<Seq<char>> {
        self.root.lpm_at(path)
    }

    /// An empty trie: no stored paths at all.
    pub fn new() -> (r: Self)
        ensures
            r@ == Map::<Seq<bool>, Seq<char>>::empty(),
    {
        let r = PrefixTrie { root: Node { value: None, left: None, right: None } };
        proof {
            assert forall|q: Seq<bool>| r.root.value_at(q).is_none() by {
                if q.len() == 0 {
                } else {
                    assert(r.root.value_at(q) == Node::opt_value_at(
                        if q[0] {
                            r.root.right
                        } else {
                            r.root.left
                        },
                        q.skip(1),
                    ));
                }
            }
            assert(r@ =~= Map::<Seq<bool>, Seq<char>>::empty());
        }
        r
    }

    /// Whether some value is stored at exactly this bit path.
    pub fn contains_path(&self, path: &Vec<bool>) -> (r: bool)
        ensures
            r == self@.dom().contains(path@),
    {
        let r = Node::contains_at(&self.root, path, 0);
        proof {
            assert(path@.skip(0) =~= path@);
        }
        r
    }

    /// Store `value` at the exact path of `prefix`.  Fails with
    /// `InvalidPrefix` on a non-canonical prefix and with `EntryExists`
    /// when the exact path already carries a value; the trie is unchanged
    /// on failure, and no other association changes on success.
    pub fn insert(&mut self, prefix: &Prefix, value: String) -> (r: Result<(), TrieError>)
        ensures
            match r {
                Ok(()) => {
                    &&& prefix.valid()
                    &&& !old(self)@.dom().contains(prefix.path())
                    &&& final(self)@ == old(self)@.insert(prefix.path(), value@)
                },
                Err(e) => {
                    &&& *final(self) == *old(self)
                    &&& (e == TrieError::InvalidPrefix <==> !prefix.valid())
                    &&& (e == TrieError::EntryExists <==> prefix.valid() && old(
                        self,
                    )@.dom().contains(prefix.path()))
                    &&& (e == TrieError::InvalidPrefix || e == TrieError::EntryExists)
                },
            },
    {
        if !prefix.is_valid() {
            return Err(TrieError::InvalidPrefix);
        }
        let path = prefix.to_path();
        let r = Node::insert_at(&mut self.root, &path, 0, value);
        proof {
            assert(path@.skip(0) =~= path@);
        }
        match r {
            Ok(()) => {
                proof {
                    assert(final(self)@ =~= old(self)@.insert(prefix.path(), value@));
                }
                Ok(())
            },
            Err(e) => {
                proof {
                    assert(old(self)@.dom().contains(prefix.path()));
                }
                Err(e)
            },
        }
    }

    /// Longest-prefix-match lookup of an address: the value of the most
    /// specific stored prefix containing it, or `None` when no stored
    /// prefix does.
    pub fn find_ip(&self, ip: &IpAddress) -> (r: Option<String>)
        ensures
            match r {
                None => self.lpm_spec(ip.addr_path()).is_none(),
                Some(s) => self.lpm_spec(ip.addr_path()) == Some(s@),
            },
    {
        let path = ip.to_path();
        let r = Node::find_at(&self.root, &path, 0);
        proof {
            assert(path@.skip(0) =~= path@);
        }
        r
    }

    /// The result of `lpm_spec` is the longest-prefix-match answer over
    /// the trie's map view.
    pub proof fn lemma_lpm_spec_matches(self, path: Seq<bool>)
        ensures
            lpm_matches(self@, path, self.lpm_spec(path)),
    {
        self.root.lemma_lpm_at_correct(path);
        match self.root.lpm_at(path) {
            None => {},
            Some(v) => {
                let k = choose|k: Seq<bool>|
                    {
                        &&& is_prefix_of(k, path)
                        &&& #[trigger] self.root.value_at(k) == Some(v)
                        &&& forall|k2: Seq<bool>|
                            is_prefix_of(k2, path) && (#[trigger] self.root.value_at(
                                k2,
                            )).is_some() ==> k2.len() <= k.len()
                    };
                assert(lpm_witness(self@, path, k));
                assert(self@[k] == v);
            },
        }
    }
}

} // verus!
