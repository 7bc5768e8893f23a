use vstd::prelude::*;

use crate::assoc::{assoc_has_key, assoc_key_index, assoc_lookup, assoc_put};
use crate::assoc::{lemma_assoc_key_index, lemma_assoc_push_preserves, lemma_assoc_put_lookup};
use crate::assoc::lemma_assoc_lookup_drop_first;
use crate::node::{alias_free, nodes_view, pairs_view, Node, NodeV};
use crate::node::{lemma_view_mapping, lemma_view_sequence};

verus! {

/// A failure of the alias-resolution pass.
///
/// `DanglingAlias(i)` reports an alias whose document index `i` is out of
/// range (surfaced only in strict mode; lenient mode substitutes null).
/// `CyclicAlias` reports an alias chain that exhausts the resolution
/// budget of one expansion per document; a chain can only be that long
/// by reaching some document twice, that is, when an anchor's content
/// refers back to itself, directly or transitively.
#[derive(Debug, Clone, Copy, PartialEq, Eq, Structural)]
pub enum ResolveError {
    DanglingAlias(usize),
    CyclicAlias,
}

/// The key text that triggers merging: `<<`.
pub open spec fn merge_key() -> Seq<char> {
    "<<"@
}

/// Merge the pairs of `src` into `acc` in order, inserting a pair only
/// when `acc` does not already contain its key: merged keys never
/// overwrite keys that are already present.
pub open spec fn merge_pairs(acc: Seq<(NodeV, NodeV)>, src: Seq<(NodeV, NodeV)>) -> Seq<
    (NodeV, NodeV),
>
    decreases src.len(),
{
    if src.len() == 0 {
        acc
    } else {
        let acc2 = if assoc_has_key(acc, src[0].0) {
            acc
        } else {
            acc.push(src[0])
        };
        merge_pairs(acc2, src.drop_first())
    }
}

/// One mapping entry applied to the mapping built so far: a merge key
/// with a mapping value merges that mapping's pairs; a merge key with any
/// other value is consumed without effect; any other key is inserted,
/// overwriting an existing equal key in place.
pub open spec fn step_map(acc: Seq<(NodeV, NodeV)>, rk: NodeV, rv: NodeV) -> Seq<(NodeV, NodeV)> {
    if rk == NodeV::Str(merge_key()) {
        match rv {
            NodeV::Mapping(src) => merge_pairs(acc, src),
            _ => acc,
        }
    } else {
        assoc_put(acc, rk, rv)
    }
}

/// Merging never overwrites a key that is already present: every key of
/// `acc` keeps the value it had before the merge, so an explicit entry
/// made before a merge key wins over the merge.
pub proof fn lemma_merge_keeps_present_keys(
    acc: Seq<(NodeV, NodeV)>,
    src: Seq<(NodeV, NodeV)>,
    k: NodeV,
)
    requires
        assoc_has_key(acc, k),
    ensures
        assoc_lookup(merge_pairs(acc, src), k) == assoc_lookup(acc, k),
    decreases src.len(),
{
    if src.len() > 0 {
        let p = src[0];
        if assoc_has_key(acc, p.0) {
            lemma_merge_keeps_present_keys(acc, src.drop_first(), k);
        } else {
            lemma_assoc_push_preserves(acc, p, k);
            lemma_merge_keeps_present_keys(acc.push(p), src.drop_first(), k);
        }
    }
}

/// Merging fills a key that is absent: after the merge the key is bound
/// to the first value the merge source gives it.
pub proof fn lemma_merge_fills_absent_keys(
    acc: Seq<(NodeV, NodeV)>,
    src: Seq<(NodeV, NodeV)>,
    k: NodeV,
)
    requires
        !assoc_has_key(acc, k),
        assoc_has_key(src, k),
    ensures
        assoc_lookup(merge_pairs(acc, src), k) == assoc_lookup(src, k),
    decreases src.len(),
{
    lemma_assoc_key_index(src, k);
    let p = src[0];
    if p.0 == k {
        let acc2 = acc.push(p);
        lemma_assoc_key_index(acc, k);
        lemma_assoc_key_index(acc2, k);
        let j = assoc_key_index(acc2, k);
        assert(acc2[acc.len() as int] == p);
        if 0 <= j < acc.len() {
            assert(acc2[j] == acc[j]);
        }
        assert(j == acc.len());
        lemma_merge_keeps_present_keys(acc2, src.drop_first(), k);
    } else {
        let acc2 = if assoc_has_key(acc, p.0) {
            acc
        } else {
            acc.push(p)
        };
        if !assoc_has_key(acc, p.0) {
            lemma_assoc_key_index(acc, k);
            lemma_assoc_key_index(acc.push(p), k);
            let j = assoc_key_index(acc.push(p), k);
            if j >= 0 {
                if j < acc.len() {
                    assert(acc.push(p)[j] == acc[j]);
                } else {
                    assert(acc.push(p)[j] == p);
                }
                assert(false);
            }
        }
        lemma_assoc_lookup_drop_first(src, k);
        lemma_merge_fills_absent_keys(acc2, src.drop_first(), k);
    }
}

/// An explicit entry always wins: after a non-merge entry is applied,
/// its key is bound to its value, also when an earlier merge or an
/// earlier explicit entry had supplied that key.
pub proof fn lemma_explicit_entry_wins(acc: Seq<(NodeV, NodeV)>, rk: NodeV, rv: NodeV)
    requires
        rk != NodeV::Str(merge_key()),
    ensures
        assoc_lookup(step_map(acc, rk, rv), rk) == Some(rv),
{
    lemma_assoc_put_lookup(acc, rk, rv);
}

/// Resolution of one node. `fuel` bounds the number of alias expansions
/// along any one chain; `strict` selects the dangling-alias policy.
pub open spec fn spec_resolve(n: NodeV, docs: Seq<NodeV>, fuel: nat, strict: bool) -> Result<
    NodeV,
    ResolveError,
>
    decreases fuel, n,
{
    match n {
        NodeV::Alias(i) => {
            if i < docs.len() {
                if fuel == 0 {
                    Err(ResolveError::CyclicAlias)
                } else {
                    spec_resolve(docs[i as int], docs, (fuel - 1) as nat, strict)
                }
            } else if strict {
                Err(ResolveError::DanglingAlias(i))
            } else {
                Ok(NodeV::Null)
            }
        },
        NodeV::Sequence(elts) => match spec_resolve_list(elts, docs, fuel, strict) {
            Ok(rs) => Ok(NodeV::Sequence(rs)),
            Err(e) => Err(e),
        },
        NodeV::Mapping(pairs) => match spec_resolve_map(pairs, docs, fuel, strict, Seq::empty()) {
            Ok(rs) => Ok(NodeV::Mapping(rs)),
            Err(e) => Err(e),
        },
        _ => Ok(n),
    }
}

/// Resolution of the elements of a sequence, left to right; the first
/// failure is the result.
pub open spec fn spec_resolve_list(
    elts: Seq<NodeV>,
    docs: Seq<NodeV>,
    fuel: nat,
    strict: bool,
) -> Result<Seq<NodeV>, ResolveError>
    decreases fuel, elts,
{
    if elts.len() == 0 {
        Ok(Seq::empty())
    } else {
        match spec_resolve(elts[0], docs, fuel, strict) {
            Err(e) => Err(e),
            Ok(r) => match spec_resolve_list(elts.drop_first(), docs, fuel, strict) {
                Err(e) => Err(e),
                Ok(rest) => Ok(seq![r] + rest),
            },
        }
    }
}

/// Resolution of the entries of a mapping, left to right, folding each
/// resolved entry into the mapping built so far; the first failure is
/// the result.
pub open spec fn spec_resolve_map(
    pairs: Seq<(NodeV, NodeV)>,
    docs: Seq<NodeV>,
    fuel: nat,
    strict: bool,
    acc: Seq<(NodeV, NodeV)>,
) -> Result<Seq<(NodeV, NodeV)>, ResolveError>
    decreases fuel, pairs,
{
    if pairs.len() == 0 {
        Ok(acc)
    } else {
        match spec_resolve(pairs[0].0, docs, fuel, strict) {
            Err(e) => Err(e),
            Ok(rk) => match spec_resolve(pairs[0].1, docs, fuel, strict) {
                Err(e) => Err(e),
                Ok(rv) => spec_resolve_map(
                    pairs.drop_first(),
                    docs,
                    fuel,
                    strict,
                    step_map(acc, rk, rv),
                ),
            },
        }
    }
}

/// The view of an exec resolution result.
pub open spec fn res_view(r: Result<Node, ResolveError>) -> Result<NodeV, ResolveError> {
    match r {
        Ok(n) => Ok(n@),
        Err(e) => Err(e),
    }
}

/// Holds when no mapping reachable in `n` contains a key equal to the
/// merge-key string `<<`.
pub open spec fn merge_key_free(n: NodeV) -> bool
    decreases n,
{
    match n {
        NodeV::Sequence(s) => forall|i: int| 0 <= i < s.len() ==> merge_key_free(#[trigger] s[i]),
        NodeV::Mapping(m) => forall|i: int|
            0 <= i < m.len() ==> (#[trigger] m[i]).0 != NodeV::Str(merge_key()) && merge_key_free(
                m[i].0,
            ) && merge_key_free(m[i].1),
        _ => true,
    }
}

/// A fully resolved node: no alias remains reachable, and every merge
/// key has been consumed.
pub open spec fn resolved(n: NodeV) -> bool {
    alias_free(n) && merge_key_free(n)
}

/// A mapping pair both of whose sides are resolved and whose key is not
/// the merge key.
pub open spec fn pair_resolved(p: (NodeV, NodeV)) -> bool {
    p.0 != NodeV::Str(merge_key()) && resolved(p.0) && resolved(p.1)
}

/// Every pair of `m` is resolved.
pub open spec fn pairs_resolved(m: Seq<(NodeV, NodeV)>) -> bool {
    forall|i: int| 0 <= i < m.len() ==> pair_resolved(#[trigger] m[i])
}

/// Ordered-map insertion of a resolved pair preserves resolvedness.
proof fn lemma_assoc_put_resolved(acc: Seq<(NodeV, NodeV)>, k: NodeV, v: NodeV)
    requires
        pairs_resolved(acc),
        pair_resolved((k, v)),
    ensures
        pairs_resolved(assoc_put(acc, k, v)),
{
    lemma_assoc_key_index(acc, k);
}

/// Merging resolved pairs into a resolved mapping preserves
/// resolvedness.
proof fn lemma_merge_pairs_resolved(acc: Seq<(NodeV, NodeV)>, src: Seq<(NodeV, NodeV)>)
    requires
        pairs_resolved(acc),
        pairs_resolved(src),
    ensures
        pairs_resolved(merge_pairs(acc, src)),
    decreases src.len(),
{
    if src.len() > 0 {
        let acc2 = if assoc_has_key(acc, src[0].0) {
            acc
        } else {
            acc.push(src[0])
        };
        assert(pairs_resolved(acc2));
        assert(pairs_resolved(src.drop_first())) by {
            assert(forall|j: int|
                0 <= j < src.len() - 1 ==> #[trigger] src.drop_first()[j] == src[j + 1]);
        }
        lemma_merge_pairs_resolved(acc2, src.drop_first());
    }
}

/// One resolved mapping entry applied to a resolved mapping leaves it
/// resolved.
proof fn lemma_step_map_resolved(acc: Seq<(NodeV, NodeV)>, rk: NodeV, rv: NodeV)
    requires
        pairs_resolved(acc),
        resolved(rk),
        resolved(rv),
    ensures
        pairs_resolved(step_map(acc, rk, rv)),
{
    if rk == NodeV::Str(merge_key()) {
        match rv {
            NodeV::Mapping(src) => {
                assert(pairs_resolved(src)) by {
                    assert(alias_free(rv) && merge_key_free(rv));
                }
                lemma_merge_pairs_resolved(acc, src);
            },
            _ => {},
        }
    } else {
        lemma_assoc_put_resolved(acc, rk, rv);
    }
}

/// Whatever resolution returns is fully resolved: the tree holds no
/// alias and no mapping in it holds a merge key.
pub proof fn lemma_resolve_resolved(n: NodeV, docs: Seq<NodeV>, fuel: nat, strict: bool)
    ensures
        spec_resolve(n, docs, fuel, strict) matches Ok(r) ==> resolved(r),
    decreases fuel, n,
{
    match n {
        NodeV::Alias(i) => {
            if i < docs.len() && fuel > 0 {
                lemma_resolve_resolved(docs[i as int], docs, (fuel - 1) as nat, strict);
            }
        },
        NodeV::Sequence(elts) => {
            lemma_resolve_list_resolved(elts, docs, fuel, strict);
        },
        NodeV::Mapping(pairs) => {
            lemma_resolve_map_resolved(pairs, docs, fuel, strict, Seq::empty());
        },
        _ => {},
    }
}

/// Every element that sequence resolution returns is fully resolved.
pub proof fn lemma_resolve_list_resolved(elts: Seq<NodeV>, docs: Seq<NodeV>, fuel: nat, strict: bool)
    ensures
        spec_resolve_list(elts, docs, fuel, strict) matches Ok(rs) ==> forall|i: int|
            0 <= i < rs.len() ==> resolved(#[trigger] rs[i]),
    decreases fuel, elts,
{
    if elts.len() > 0 {
        lemma_resolve_resolved(elts[0], docs, fuel, strict);
        lemma_resolve_list_resolved(elts.drop_first(), docs, fuel, strict);
        match spec_resolve(elts[0], docs, fuel, strict) {
            Ok(r) => {
                match spec_resolve_list(elts.drop_first(), docs, fuel, strict) {
                    Ok(rest) => {
                        let rs = seq![r] + rest;
                        assert forall|i: int| 0 <= i < rs.len() implies resolved(
                            #[trigger] rs[i],
                        ) by {
                            if i > 0 {
                                assert(rs[i] == rest[i - 1]);
                            }
                        }
                    },
                    Err(_) => {},
                }
            },
            Err(_) => {},
        }
    }
}

/// Every pair that mapping resolution returns is fully resolved,
/// provided every pair accumulated so far is.
pub proof fn lemma_resolve_map_resolved(
    pairs: Seq<(NodeV, NodeV)>,
    docs: Seq<NodeV>,
    fuel: nat,
    strict: bool,
    acc: Seq<(NodeV, NodeV)>,
)
    requires
        pairs_resolved(acc),
    ensures
        spec_resolve_map(pairs, docs, fuel, strict, acc) matches Ok(res) ==> pairs_resolved(res),
    decreases fuel, pairs,
{
    if pairs.len() > 0 {
        lemma_resolve_resolved(pairs[0].0, docs, fuel, strict);
        lemma_resolve_resolved(pairs[0].1, docs, fuel, strict);
        match spec_resolve(pairs[0].0, docs, fuel, strict) {
            Ok(rk) => {
                match spec_resolve(pairs[0].1, docs, fuel, strict) {
                    Ok(rv) => {
                        lemma_step_map_resolved(acc, rk, rv);
                        lemma_resolve_map_resolved(
                            pairs.drop_first(),
                            docs,
                            fuel,
                            strict,
                            step_map(acc, rk, rv),
                        );
                    },
                    Err(_) => {},
                }
            },
            Err(_) => {},
        }
    }
}

/// An alias whose index is in range resolves to exactly what its target
/// resolves to, one expansion step later: an alias and its target are
/// equivalent under resolution.
pub proof fn lemma_alias_expansion(i: usize, docs: Seq<NodeV>, fuel: nat, strict: bool)
    requires
        (i as int) < docs.len(),
        fuel > 0,
    ensures
        spec_resolve(NodeV::Alias(i), docs, fuel, strict) == spec_resolve(
            docs[i as int],
            docs,
            (fuel - 1) as nat,
            strict,
        ),
{
}

/// Whether `n` is the merge-key string `<<`.
fn is_merge_key(n: &Node) -> (r: bool)
    ensures
        r == (n@ == NodeV::Str(merge_key())),
{
    proof {
        reveal_with_fuel(<Node as View>::view, 2);
    }
    match n {
        Node::Str(s) => {
            let mk: String = "<<".to_owned();
            *s == mk
        },
        _ => false,
    }
}

/// Position of the first pair of `m` whose key equals `k`, if any.
fn find_key(m: &Vec<(Node, Node)>, k: &Node) -> (r: Option<usize>)
    ensures
        (match r {
            Some(i) => 0 <= i < m@.len() && assoc_key_index(pairs_view(m@), k@) == i,
            None => assoc_key_index(pairs_view(m@), k@) == -1,
        }),
{
    let mut i: usize = 0;
    while i < m.len()
        invariant
            i <= m@.len(),
            forall|j: int| 0 <= j < i ==> (#[trigger] pairs_view(m@)[j]).0 != k@,
        decreases m@.len() - i,
    {
        if m[i].0.deep_eq(k) {
            proof {
                assert(pairs_view(m@)[i as int].0 == k@);
                lemma_assoc_key_index(pairs_view(m@), k@);
            }
            return Some(i);
        }
        i += 1;
    }
    proof {
        lemma_assoc_key_index(pairs_view(m@), k@);
    }
    None
}

/// Insert `k -> v` into the ordered map `m`: overwrite the value at the
/// first equal key in place, or append the pair if the key is absent.
fn insert_pair(m: &mut Vec<(Node, Node)>, k: Node, v: Node)
    ensures
        pairs_view(final(m)@) == assoc_put(pairs_view(old(m)@), k@, v@),
{
    match find_key(m, &k) {
        Some(i) => {
            m[i] = (k, v);
            proof {
                assert(pairs_view(m@) =~= pairs_view(old(m)@).update(
                    assoc_key_index(pairs_view(old(m)@), k@),
                    (k@, v@),
                ));
            }
        },
        None => {
            m.push((k, v));
            proof {
                assert(pairs_view(m@) =~= pairs_view(old(m)@).push((k@, v@)));
            }
        },
    }
}

/// Merge the pairs of `src` into `m` in order, inserting a pair only
/// when `m` does not already contain its key.
fn merge_into(m: &mut Vec<(Node, Node)>, src: Vec<(Node, Node)>)
    ensures
        pairs_view(final(m)@) == merge_pairs(pairs_view(old(m)@), pairs_view(src@)),
{
    let mut rest = src;
    let ghost m0 = pairs_view(m@);
    let ghost src0 = pairs_view(rest@);
    while rest.len() > 0
        invariant
            merge_pairs(pairs_view(m@), pairs_view(rest@)) == merge_pairs(m0, src0),
        decreases rest@.len(),
    {
        let ghost mv = pairs_view(m@);
        let ghost rv = pairs_view(rest@);
        let p = rest.remove(0);
        proof {
            assert(rv[0] == (p.0@, p.1@));
            assert(pairs_view(rest@) =~= rv.drop_first());
        }
        match find_key(m, &p.0) {
            Some(_) => {
                proof {
                    assert(assoc_has_key(mv, p.0@));
                }
            },
            None => {
                m.push(p);
                proof {
                    assert(!assoc_has_key(mv, p.0@));
                    assert(pairs_view(m@) =~= mv.push((p.0@, p.1@)));
                }
            },
        }
    }
    proof {
        assert(merge_pairs(pairs_view(m@), pairs_view(rest@)) == pairs_view(m@));
    }
}

/// Resolve one node against the document list, with `fuel` alias
/// expansions left on the current chain and the given dangling-alias
/// policy.
fn resolve_node(n: &Node, docs: &Vec<Node>, fuel: usize, strict: bool) -> (r: Result<
    Node,
    ResolveError,
>)
    ensures
        res_view(r) == spec_resolve(n@, nodes_view(docs@), fuel as nat, strict),
    decreases fuel, n,
{
    proof {
        reveal_with_fuel(<Node as View>::view, 2);
    }
    let ghost dv = nodes_view(docs@);
    match n {
        Node::Null => Ok(Node::Null),
        Node::Bool(b) => Ok(Node::Bool(*b)),
        Node::Int(i) => Ok(Node::Int(*i)),
        Node::Float(s) => Ok(Node::Float(s.clone())),
        Node::Str(s) => Ok(Node::Str(s.clone())),
        Node::BadValue => Ok(Node::BadValue),
        Node::Alias(i) => {
            if *i < docs.len() {
                if fuel == 0 {
                    Err(ResolveError::CyclicAlias)
                } else {
                    let r = resolve_node(&docs[*i], docs, fuel - 1, strict);
                    proof {
                        assert(dv[*i as int] == docs@[*i as int]@);
                    }
                    r
                }
            } else if strict {
                Err(ResolveError::DanglingAlias(*i))
            } else {
                Ok(Node::Null)
            }
        },
        Node::Sequence(elts) => {
            proof {
                lemma_view_sequence(*elts);
            }
            let ghost ev = nodes_view(elts@);
            let mut out: Vec<Node> = Vec::new();
            let mut idx: usize = 0;
            proof {
                assert(ev.skip(0) =~= ev);
                assert(nodes_view(out@) =~= Seq::<NodeV>::empty());
            }
            while idx < elts.len()
                invariant
                    idx <= elts@.len(),
                    *n == Node::Sequence(*elts),
                    ev == nodes_view(elts@),
                    dv == nodes_view(docs@),
                    n@ == NodeV::Sequence(ev),
                    (spec_resolve_list(ev, dv, fuel as nat, strict) == match spec_resolve_list(
                        ev.skip(idx as int),
                        dv,
                        fuel as nat,
                        strict,
                    ) {
                        Ok(rem) => Ok::<Seq<NodeV>, ResolveError>(nodes_view(out@) + rem),
                        Err(e) => Err::<Seq<NodeV>, ResolveError>(e),
                    }),
                decreases elts@.len() - idx,
            {
                proof {
                    assert(decreases_to!(*n => elts@[idx as int]));
                    assert(ev.skip(idx as int)[0] == ev[idx as int]);
                    assert(ev[idx as int] == elts@[idx as int]@);
                    assert(ev.skip(idx as int).drop_first() =~= ev.skip(idx as int + 1));
                }
                match resolve_node(&elts[idx], docs, fuel, strict) {
                    Err(e) => {
                        return Err(e);
                    },
                    Ok(rn) => {
                        let ghost prev = nodes_view(out@);
                        out.push(rn);
                        proof {
                            assert(nodes_view(out@) =~= prev.push(rn@));
                            let rem = spec_resolve_list(
                                ev.skip(idx as int + 1),
                                dv,
                                fuel as nat,
                                strict,
                            );
                            match rem {
                                Ok(rest) => {
                                    assert(prev + (seq![rn@] + rest) =~= prev.push(rn@) + rest);
                                },
                                Err(_) => {},
                            }
                        }
                    },
                }
                idx += 1;
            }
            proof {
                assert(ev.skip(idx as int) =~= Seq::<NodeV>::empty());
                assert(nodes_view(out@) + Seq::<NodeV>::empty() =~= nodes_view(out@));
                lemma_view_sequence(out);
            }
            Ok(Node::Sequence(out))
        },
        Node::Mapping(pairs) => {
            proof {
                lemma_view_mapping(*pairs);
            }
            let ghost pv = pairs_view(pairs@);
            let mut out: Vec<(Node, Node)> = Vec::new();
            let mut idx: usize = 0;
            proof {
                assert(pv.skip(0) =~= pv);
                assert(pairs_view(out@) =~= Seq::<(NodeV, NodeV)>::empty());
            }
            while idx < pairs.len()
                invariant
                    idx <= pairs@.len(),
                    *n == Node::Mapping(*pairs),
                    pv == pairs_view(pairs@),
                    dv == nodes_view(docs@),
                    n@ == NodeV::Mapping(pv),
                    (spec_resolve_map(pv, dv, fuel as nat, strict, Seq::empty())
                        == spec_resolve_map(
                        pv.skip(idx as int),
                        dv,
                        fuel as nat,
                        strict,
                        pairs_view(out@),
                    )),
                decreases pairs@.len() - idx,
            {
                proof {
                    assert(decreases_to!(*n => pairs@[idx as int].0));
                    assert(decreases_to!(*n => pairs@[idx as int].1));
                    assert(pv.skip(idx as int)[0] == pv[idx as int]);
                    assert(pv[idx as int] == (pairs@[idx as int].0@, pairs@[idx as int].1@));
                    assert(pv.skip(idx as int).drop_first() =~= pv.skip(idx as int + 1));
                }
                let rk = match resolve_node(&pairs[idx].0, docs, fuel, strict) {
                    Ok(x) => x,
                    Err(e) => {
                        return Err(e);
                    },
                };
                let rv = match resolve_node(&pairs[idx].1, docs, fuel, strict) {
                    Ok(x) => x,
                    Err(e) => {
                        return Err(e);
                    },
                };
                let ghost acc0 = pairs_view(out@);
                let ghost rkv = rk@;
                let ghost rvv = rv@;
                if is_merge_key(&rk) {
                    match rv {
                        Node::Mapping(src) => {
                            proof {
                                lemma_view_mapping(src);
                            }
                            merge_into(&mut out, src);
                        },
                        _ => {
                            proof {
                                assert(!(rvv is Mapping));
                            }
                        },
                    }
                } else {
                    insert_pair(&mut out, rk, rv);
                }
                proof {
                    assert(pairs_view(out@) == step_map(acc0, rkv, rvv));
                }
                idx += 1;
            }
            proof {
                assert(pv.skip(idx as int) =~= Seq::<(NodeV, NodeV)>::empty());
                lemma_view_mapping(out);
            }
            Ok(Node::Mapping(out))
        },
    }
}

/// Expand every alias and merge key in `n` against the document list
/// `docs`, yielding an alias-free tree. In strict mode an out-of-range
/// alias is reported as `DanglingAlias`; in lenient mode it resolves to
/// null. An alias chain that refers back to itself is reported as
/// `CyclicAlias`.
pub fn resolve_aliases(n: &Node, docs: &Vec<Node>, strict: bool) -> (r: Result<Node, ResolveError>)
    ensures
        res_view(r) == spec_resolve(n@, nodes_view(docs@), docs@.len() as nat, strict),
{
    resolve_node(n, docs, docs.len(), strict)
}

} // verus!
