use vstd::prelude::*;

use crate::assoc::{assoc_key_index, assoc_put, lemma_assoc_key_index};
use crate::node::{alias_free, Node, NodeV};
use crate::numeric::{float_text_ok, float_text_parses};

verus! {

/// A generic host-neutral value.
///
/// `Float` carries the validated text form of the number; materialising
/// it as the host's IEEE double is the marshaling boundary's job, since
/// every accepted text is in `f64`'s documented grammar. A `Table` is an
/// ordered list of key/value pairs.
#[derive(Debug, PartialEq, Eq)]
pub enum Value {
    Null,
    Bool(bool),
    Int(i64),
    Float(String),
    Str(String),
    List(Vec<Value>),
    Table(Vec<(Value, Value)>),
}

/// The mathematical model of a `Value`.
#[verifier::ext_equal]
pub enum ValueV {
    Null,
    Bool(bool),
    Int(i64),
    Float(Seq<char>),
    Str(Seq<char>),
    List(Seq<ValueV>),
    Table(Seq<(ValueV, ValueV)>),
}

impl View for Value {
    type V = ValueV;

    open spec fn view(&self) -> ValueV
        decreases self,
    {
        match self {
            Value::Null => ValueV::Null,
            Value::Bool(b) => ValueV::Bool(*b),
            Value::Int(i) => ValueV::Int(*i),
            Value::Float(s) => ValueV::Float(s@),
            Value::Str(s) => ValueV::Str(s@),
            Value::List(v) => ValueV::List(
                Seq::new(
                    v@.len(),
                    |i: int|
                        if 0 <= i < v@.len() {
                            v@[i]@
                        } else {
                            ValueV::Null
                        },
                ),
            ),
            Value::Table(v) => ValueV::Table(
                Seq::new(
                    v@.len(),
                    |i: int|
                        if 0 <= i < v@.len() {
                            (v@[i].0@, v@[i].1@)
                        } else {
                            (ValueV::Null, ValueV::Null)
                        },
                ),
            ),
        }
    }
}

/// The views of a sequence of values, element by element.
pub open spec fn values_view(s: Seq<Value>) -> Seq<ValueV> {
    Seq::new(s.len(), |i: int| s[i]@)
}

/// The views of a sequence of value pairs, pair by pair.
pub open spec fn value_pairs_view(s: Seq<(Value, Value)>) -> Seq<(ValueV, ValueV)> {
    Seq::new(s.len(), |i: int| (s[i].0@, s[i].1@))
}

/// The view of a list value is the sequence of its elements' views.
pub proof fn lemma_view_list(v: Vec<Value>)
    ensures
        Value::List(v)@ == ValueV::List(values_view(v@)),
{
    reveal_with_fuel(<Value as View>::view, 2);
    assert(Value::List(v)@->List_0 =~= values_view(v@));
    assert(Value::List(v)@ =~= ValueV::List(values_view(v@)));
}

/// The view of a table value is the sequence of its pairs' views.
pub proof fn lemma_view_table(v: Vec<(Value, Value)>)
    ensures
        Value::Table(v)@ == ValueV::Table(value_pairs_view(v@)),
{
    reveal_with_fuel(<Value as View>::view, 2);
    assert(Value::Table(v)@->Table_0 =~= value_pairs_view(v@));
    assert(Value::Table(v)@ =~= ValueV::Table(value_pairs_view(v@)));
}

impl Value {
    /// Structural equality of two values, decided against their models.
    pub fn deep_eq(&self, other: &Value) -> (r: bool)
        ensures
            r == (self@ == other@),
        decreases self,
    {
        proof {
            reveal_with_fuel(<Value as View>::view, 2);
        }
        match (self, other) {
            (Value::Null, Value::Null) => true,
            (Value::Bool(x), Value::Bool(y)) => *x == *y,
            (Value::Int(x), Value::Int(y)) => *x == *y,
            (Value::Float(x), Value::Float(y)) => *x == *y,
            (Value::Str(x), Value::Str(y)) => *x == *y,
            (Value::List(x), Value::List(y)) => {
                proof {
                    assert(*self == Value::List(*x));
                    assert(*other == Value::List(*y));
                    lemma_view_list(*x);
                    lemma_view_list(*y);
                }
                if x.len() != y.len() {
                    proof {
                        assert(values_view(x@).len() != values_view(y@).len());
                    }
                    return false;
                }
                let mut i: usize = 0;
                while i < x.len()
                    invariant
                        i <= x@.len(),
                        x@.len() == y@.len(),
                        *self == Value::List(*x) && *other == Value::List(*y),
                        self@ == ValueV::List(values_view(x@)),
                        other@ == ValueV::List(values_view(y@)),
                        forall|j: int| 0 <= j < i ==> values_view(x@)[j] == values_view(y@)[j],
                    decreases x@.len() - i,
                {
                    proof {
                        assert(decreases_to!(*self => x@[i as int]));
                    }
                    if !x[i].deep_eq(&y[i]) {
                        proof {
                            assert(values_view(x@)[i as int] != values_view(y@)[i as int]);
                        }
                        return false;
                    }
                    i += 1;
                }
                proof {
                    assert(values_view(x@) =~= values_view(y@));
                }
                true
            },
            (Value::Table(x), Value::Table(y)) => {
                proof {
                    assert(*self == Value::Table(*x));
                    assert(*other == Value::Table(*y));
                    lemma_view_table(*x);
                    lemma_view_table(*y);
                }
                if x.len() != y.len() {
                    proof {
                        assert(value_pairs_view(x@).len() != value_pairs_view(y@).len());
                    }
                    return false;
                }
                let mut i: usize = 0;
                while i < x.len()
                    invariant
                        i <= x@.len(),
                        x@.len() == y@.len(),
                        *self == Value::Table(*x) && *other == Value::Table(*y),
                        self@ == ValueV::Table(value_pairs_view(x@)),
                        other@ == ValueV::Table(value_pairs_view(y@)),
                        forall|j: int|
                            0 <= j < i ==> value_pairs_view(x@)[j] == value_pairs_view(y@)[j],
                    decreases x@.len() - i,
                {
                    proof {
                        assert(decreases_to!(*self => x@[i as int].0));
                        assert(decreases_to!(*self => x@[i as int].1));
                    }
                    if !x[i].0.deep_eq(&y[i].0) {
                        proof {
                            assert(value_pairs_view(x@)[i as int] != value_pairs_view(y@)[i as int]);
                        }
                        return false;
                    }
                    if !x[i].1.deep_eq(&y[i].1) {
                        proof {
                            assert(value_pairs_view(x@)[i as int] != value_pairs_view(y@)[i as int]);
                        }
                        return false;
                    }
                    i += 1;
                }
                proof {
                    assert(value_pairs_view(x@) =~= value_pairs_view(y@));
                }
                true
            },
            _ => false,
        }
    }
}

/// A failure of the value-conversion pass: a float node whose text is
/// not a valid number, carrying the offending text.
#[derive(Debug, PartialEq, Eq)]
pub enum ConvertError {
    Number(String),
}

/// The sentinel text that stands in for a node the grammar engine
/// flagged as anomalous but not fatal.
pub open spec fn bad_value_marker() -> Seq<char> {
    "<<bad_value>>"@
}

/// Conversion of one resolved node into a generic value. An `Alias`
/// node is invalid input here and `convert` excludes it by contract;
/// for totality it is mapped to null.
pub open spec fn spec_convert(n: NodeV, collapse: bool) -> Result<ValueV, Seq<char>>
    decreases n,
{
    match n {
        NodeV::Null => Ok(ValueV::Null),
        NodeV::Bool(b) => Ok(ValueV::Bool(b)),
        NodeV::Int(i) => Ok(ValueV::Int(i)),
        NodeV::Float(t) => if float_text_ok(t) {
            Ok(ValueV::Float(t))
        } else {
            Err(t)
        },
        NodeV::Str(s) => Ok(ValueV::Str(s)),
        NodeV::Alias(_) => Ok(ValueV::Null),
        NodeV::BadValue => Ok(ValueV::Str(bad_value_marker())),
        NodeV::Sequence(elts) => match spec_convert_list(elts, collapse) {
            Ok(vs) => Ok(ValueV::List(vs)),
            Err(t) => Err(t),
        },
        NodeV::Mapping(pairs) => match spec_convert_pairs(pairs, collapse) {
            Ok(ps) => Ok(
                ValueV::Table(
                    if collapse {
                        collapse_pairs(ps)
                    } else {
                        ps
                    },
                ),
            ),
            Err(t) => Err(t),
        },
    }
}

/// Conversion of the elements of a sequence, left to right; the first
/// failure is the result.
pub open spec fn spec_convert_list(elts: Seq<NodeV>, collapse: bool) -> Result<
    Seq<ValueV>,
    Seq<char>,
>
    decreases elts,
{
    if elts.len() == 0 {
        Ok(Seq::empty())
    } else {
        match spec_convert(elts[0], collapse) {
            Err(t) => Err(t),
            Ok(v) => match spec_convert_list(elts.drop_first(), collapse) {
                Err(t) => Err(t),
                Ok(rest) => Ok(seq![v] + rest),
            },
        }
    }
}

/// Conversion of the pairs of a mapping, left to right, keys and values
/// alike; all pairs are kept in order, duplicates included.
pub open spec fn spec_convert_pairs(pairs: Seq<(NodeV, NodeV)>, collapse: bool) -> Result<
    Seq<(ValueV, ValueV)>,
    Seq<char>,
>
    decreases pairs,
{
    if pairs.len() == 0 {
        Ok(Seq::empty())
    } else {
        match spec_convert(pairs[0].0, collapse) {
            Err(t) => Err(t),
            Ok(k) => match spec_convert(pairs[0].1, collapse) {
                Err(t) => Err(t),
                Ok(v) => match spec_convert_pairs(pairs.drop_first(), collapse) {
                    Err(t) => Err(t),
                    Ok(rest) => Ok(seq![(k, v)] + rest),
                },
            },
        }
    }
}

/// The collapsing duplicate-key policy: each pair is folded into an
/// ordered map in order, so a later equal key overwrites the earlier
/// value in place and the last writer wins.
pub open spec fn collapse_pairs(ps: Seq<(ValueV, ValueV)>) -> Seq<(ValueV, ValueV)>
    decreases ps.len(),
{
    if ps.len() == 0 {
        Seq::empty()
    } else {
        assoc_put(collapse_pairs(ps.drop_last()), ps.last().0, ps.last().1)
    }
}

/// The view of an exec conversion result.
pub open spec fn conv_view(r: Result<Value, ConvertError>) -> Result<ValueV, Seq<char>> {
    match r {
        Ok(v) => Ok(v@),
        Err(ConvertError::Number(t)) => Err(t@),
    }
}

/// Position of the first pair of `m` whose key equals `k`, if any.
fn find_value_key(m: &Vec<(Value, Value)>, k: &Value) -> (r: Option<usize>)
    ensures
        (match r {
            Some(i) => 0 <= i < m@.len() && assoc_key_index(value_pairs_view(m@), k@) == i,
            None => assoc_key_index(value_pairs_view(m@), k@) == -1,
        }),
{
    let mut i: usize = 0;
    while i < m.len()
        invariant
            i <= m@.len(),
            forall|j: int| 0 <= j < i ==> (#[trigger] value_pairs_view(m@)[j]).0 != k@,
        decreases m@.len() - i,
    {
        if m[i].0.deep_eq(k) {
            proof {
                assert(value_pairs_view(m@)[i as int].0 == k@);
                lemma_assoc_key_index(value_pairs_view(m@), k@);
            }
            return Some(i);
        }
        i += 1;
    }
    proof {
        lemma_assoc_key_index(value_pairs_view(m@), k@);
    }
    None
}

/// Insert `k -> v` into the ordered table `m`: overwrite the value at
/// the first equal key in place, or append the pair if the key is
/// absent.
fn insert_value_pair(m: &mut Vec<(Value, Value)>, k: Value, v: Value)
    ensures
        value_pairs_view(final(m)@) == assoc_put(value_pairs_view(old(m)@), k@, v@),
{
    match find_value_key(m, &k) {
        Some(i) => {
            m[i] = (k, v);
            proof {
                assert(value_pairs_view(m@) =~= value_pairs_view(old(m)@).update(
                    assoc_key_index(value_pairs_view(old(m)@), k@),
                    (k@, v@),
                ));
            }
        },
        None => {
            m.push((k, v));
            proof {
                assert(value_pairs_view(m@) =~= value_pairs_view(old(m)@).push((k@, v@)));
            }
        },
    }
}

/// Convert a resolved, alias-free tree into a generic value.
///
/// With `collapse` false every mapping becomes an ordered pair list in
/// which duplicate keys survive in order; with `collapse` true each
/// entry is folded into an ordered map and the last writer of a key
/// wins. The only failure is a float whose text is not a valid number.
pub fn convert(n: &Node, collapse: bool) -> (r: Result<Value, ConvertError>)
    requires
        alias_free(n@),
    ensures
        conv_view(r) == spec_convert(n@, collapse),
    decreases n,
{
    proof {
        reveal_with_fuel(<Node as View>::view, 2);
    }
    match n {
        Node::Null => Ok(Value::Null),
        Node::Bool(b) => Ok(Value::Bool(*b)),
        Node::Int(i) => Ok(Value::Int(*i)),
        Node::Float(s) => {
            if float_text_parses(s.as_str()) {
                Ok(Value::Float(s.clone()))
            } else {
                Err(ConvertError::Number(s.clone()))
            }
        },
        Node::Str(s) => Ok(Value::Str(s.clone())),
        Node::Alias(_) => Ok(Value::Null),
        Node::BadValue => Ok(Value::Str("<<bad_value>>".to_owned())),
        Node::Sequence(elts) => {
            proof {
                crate::node::lemma_view_sequence(*elts);
            }
            let ghost ev = crate::node::nodes_view(elts@);
            let mut out: Vec<Value> = Vec::new();
            let mut idx: usize = 0;
            proof {
                assert(ev.skip(0) =~= ev);
                assert(values_view(out@) =~= Seq::<ValueV>::empty());
            }
            while idx < elts.len()
                invariant
                    idx <= elts@.len(),
                    *n == Node::Sequence(*elts),
                    ev == crate::node::nodes_view(elts@),
                    n@ == NodeV::Sequence(ev),
                    alias_free(n@),
                    (spec_convert_list(ev, collapse) == match spec_convert_list(
                        ev.skip(idx as int),
                        collapse,
                    ) {
                        Ok(rem) => Ok::<Seq<ValueV>, Seq<char>>(values_view(out@) + rem),
                        Err(t) => Err::<Seq<ValueV>, Seq<char>>(t),
                    }),
                decreases elts@.len() - idx,
            {
                proof {
                    assert(decreases_to!(*n => elts@[idx as int]));
                    assert(ev.skip(idx as int)[0] == ev[idx as int]);
                    assert(ev[idx as int] == elts@[idx as int]@);
                    assert(ev.skip(idx as int).drop_first() =~= ev.skip(idx as int + 1));
                    assert(alias_free(ev[idx as int]));
                }
                match convert(&elts[idx], collapse) {
                    Err(e) => {
                        return Err(e);
                    },
                    Ok(v) => {
                        let ghost prev = values_view(out@);
                        out.push(v);
                        proof {
                            assert(values_view(out@) =~= prev.push(v@));
                            let rem = spec_convert_list(ev.skip(idx as int + 1), collapse);
                            match rem {
                                Ok(rest) => {
                                    assert(prev + (seq![v@] + rest) =~= prev.push(v@) + rest);
                                },
                                Err(_) => {},
                            }
                        }
                    },
                }
                idx += 1;
            }
            proof {
                assert(ev.skip(idx as int) =~= Seq::<NodeV>::empty());
                assert(values_view(out@) + Seq::<ValueV>::empty() =~= values_view(out@));
                lemma_view_list(out);
            }
            Ok(Value::List(out))
        },
        Node::Mapping(pairs) => {
            proof {
                crate::node::lemma_view_mapping(*pairs);
            }
            let ghost pv = crate::node::pairs_view(pairs@);
            let mut raw: Vec<(Value, Value)> = Vec::new();
            let mut idx: usize = 0;
            proof {
                assert(pv.skip(0) =~= pv);
                assert(value_pairs_view(raw@) =~= Seq::<(ValueV, ValueV)>::empty());
            }
            while idx < pairs.len()
                invariant
                    idx <= pairs@.len(),
                    *n == Node::Mapping(*pairs),
                    pv == crate::node::pairs_view(pairs@),
                    n@ == NodeV::Mapping(pv),
                    alias_free(n@),
                    (spec_convert_pairs(pv, collapse) == match spec_convert_pairs(
                        pv.skip(idx as int),
                        collapse,
                    ) {
                        Ok(rem) => Ok::<Seq<(ValueV, ValueV)>, Seq<char>>(
                            value_pairs_view(raw@) + rem,
                        ),
                        Err(t) => Err::<Seq<(ValueV, ValueV)>, Seq<char>>(t),
                    }),
                decreases pairs@.len() - idx,
            {
                proof {
                    assert(decreases_to!(*n => pairs@[idx as int].0));
                    assert(decreases_to!(*n => pairs@[idx as int].1));
                    assert(pv.skip(idx as int)[0] == pv[idx as int]);
                    assert(pv[idx as int] == (pairs@[idx as int].0@, pairs@[idx as int].1@));
                    assert(pv.skip(idx as int).drop_first() =~= pv.skip(idx as int + 1));
                    assert(alias_free(pv[idx as int].0) && alias_free(pv[idx as int].1));
                }
                let k = match convert(&pairs[idx].0, collapse) {
                    Ok(x) => x,
                    Err(e) => {
                        return Err(e);
                    },
                };
                let v = match convert(&pairs[idx].1, collapse) {
                    Ok(x) => x,
                    Err(e) => {
                        return Err(e);
                    },
                };
                let ghost prev = value_pairs_view(raw@);
                let ghost kv = k@;
                let ghost vv = v@;
                raw.push((k, v));
                proof {
                    assert(value_pairs_view(raw@) =~= prev.push((kv, vv)));
                    let rem = spec_convert_pairs(pv.skip(idx as int + 1), collapse);
                    match rem {
                        Ok(rest) => {
                            assert(prev + (seq![(kv, vv)] + rest) =~= prev.push((kv, vv)) + rest);
                        },
                        Err(_) => {},
                    }
                }
                idx += 1;
            }
            proof {
                assert(pv.skip(idx as int) =~= Seq::<(NodeV, NodeV)>::empty());
                assert(value_pairs_view(raw@) + Seq::<(ValueV, ValueV)>::empty() =~= value_pairs_view(
                    raw@,
                ));
            }
            if collapse {
                let ghost ps = value_pairs_view(raw@);
                let mut table: Vec<(Value, Value)> = Vec::new();
                let mut j: usize = 0;
                proof {
                    assert(ps.take(0) =~= Seq::<(ValueV, ValueV)>::empty());
                    assert(value_pairs_view(table@) =~= Seq::<(ValueV, ValueV)>::empty());
                }
                while j < raw.len()
                    invariant
                        j <= raw@.len(),
                        ps == value_pairs_view(raw@),
                        value_pairs_view(table@) == collapse_pairs(ps.take(j as int)),
                    decreases raw@.len() - j,
                {
                    let kk = clone_value(&raw[j].0);
                    let vv2 = clone_value(&raw[j].1);
                    insert_value_pair(&mut table, kk, vv2);
                    proof {
                        assert(ps.take(j as int + 1).drop_last() =~= ps.take(j as int));
                        assert(ps.take(j as int + 1).last() == ps[j as int]);
                        assert(ps[j as int] == (raw@[j as int].0@, raw@[j as int].1@));
                    }
                    j += 1;
                }
                proof {
                    assert(ps.take(raw@.len() as int) =~= ps);
                    lemma_view_table(table);
                }
                Ok(Value::Table(table))
            } else {
                proof {
                    lemma_view_table(raw);
                }
                Ok(Value::Table(raw))
            }
        },
    }
}

/// A deep copy of a value, equal to its original.
pub fn clone_value(v: &Value) -> (r: Value)
    ensures
        r@ == v@,
    decreases v,
{
    proof {
        reveal_with_fuel(<Value as View>::view, 2);
    }
    match v {
        Value::Null => Value::Null,
        Value::Bool(b) => Value::Bool(*b),
        Value::Int(i) => Value::Int(*i),
        Value::Float(s) => Value::Float(s.clone()),
        Value::Str(s) => Value::Str(s.clone()),
        Value::List(elts) => {
            proof {
                lemma_view_list(*elts);
            }
            let mut out: Vec<Value> = Vec::new();
            let mut i: usize = 0;
            while i < elts.len()
                invariant
                    i <= elts@.len(),
                    *v == Value::List(*elts),
                    out@.len() == i,
                    forall|j: int| 0 <= j < i ==> out@[j]@ == values_view(elts@)[j],
                decreases elts@.len() - i,
            {
                proof {
                    assert(decreases_to!(*v => v->List_0));
                    assert(v->List_0 == *elts);
                    assert(decreases_to!(*elts => elts@));
                    assert(decreases_to!(elts@ => elts@[i as int]));
                    assert(decreases_to!(*v => elts@[i as int]));
                }
                let c = clone_value(&elts[i]);
                out.push(c);
                i += 1;
            }
            proof {
                lemma_view_list(out);
                lemma_view_list(*elts);
                assert(values_view(out@) =~= values_view(elts@));
            }
            Value::List(out)
        },
        Value::Table(prs) => {
            proof {
                lemma_view_table(*prs);
            }
            let mut out: Vec<(Value, Value)> = Vec::new();
            let mut i: usize = 0;
            while i < prs.len()
                invariant
                    i <= prs@.len(),
                    *v == Value::Table(*prs),
                    out@.len() == i,
                    forall|j: int|
                        0 <= j < i ==> (out@[j].0@, out@[j].1@) == value_pairs_view(prs@)[j],
                decreases prs@.len() - i,
            {
                proof {
                    assert(decreases_to!(*v => v->Table_0));
                    assert(v->Table_0 == *prs);
                    assert(decreases_to!(*prs => prs@));
                    assert(decreases_to!(prs@ => prs@[i as int]));
                    assert(decreases_to!(prs@[i as int] => prs@[i as int].0));
                    assert(decreases_to!(prs@[i as int] => prs@[i as int].1));
                    assert(decreases_to!(*v => prs@[i as int].0));
                    assert(decreases_to!(*v => prs@[i as int].1));
                }
                let ck = clone_value(&prs[i].0);
                let cv = clone_value(&prs[i].1);
                out.push((ck, cv));
                i += 1;
            }
            proof {
                lemma_view_table(out);
                lemma_view_table(*prs);
                assert(value_pairs_view(out@) =~= value_pairs_view(prs@));
            }
            Value::Table(out)
        },
    }
}

} // verus!
