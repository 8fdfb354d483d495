use vstd::pervasive::VecAdditionalExecFns;
use vstd::prelude::*;

verus! {

/// A parsed JSON node.
///
/// A tree of `Value`s is finite and acyclic: parsing constructs every node
/// exactly once, top down, and no node is mutated after construction.
///
/// A number keeps the exact literal text that was read (sign, integer part,
/// fraction, exponent); turning that literal into a machine float is left to
/// the caller, since this library states nothing about floating point.
///
/// An object is a list of key/value pairs whose keys are unique: inserting a
/// key that is already present overwrites the earlier value (last write
/// wins), and no key-order guarantee is given beyond that.
#[derive(Debug, PartialEq)]
pub enum Value {
    /// The literal `null`.
    Null,
    /// The literals `true` and `false`.
    Bool(bool),
    /// A string literal, with all escape sequences already resolved.
    String(String),
    /// A number literal, kept as the exact text that was read.
    Number(String),
    /// An array: an order-preserving, possibly empty sequence of values.
    Array(Vec<Value>),
    /// An object: a mapping from member names to values, keys unique.
    Object(Vec<(String, Value)>),
}

/// The mathematical shape of a parsed document: what a `Value` denotes.
///
/// Arrays denote sequences; objects denote maps, so two objects that hold
/// the same pairs in a different order denote the same thing.
pub enum SpecValue {
    /// The literal `null`.
    Null,
    /// A boolean literal.
    Bool(bool),
    /// The characters of a string, escapes resolved.
    Str(Seq<char>),
    /// The characters of a number literal, exactly as read.
    Num(Seq<char>),
    /// The denotations of an array's elements, in order.
    Arr(Seq<SpecValue>),
    /// The mapping that an object's pairs build up, last write winning.
    Obj(Map<Seq<char>, SpecValue>),
}

/// What a sequence of nodes denotes: each node's denotation, in order.
pub open spec fn view_of_seq(s: Seq<Value>) -> Seq<SpecValue>
    decreases s,
{
    if s.len() == 0 {
        Seq::empty()
    } else {
        view_of_seq(s.drop_last()).push(view_of(s.last()))
    }
}

/// What a list of pairs denotes: the map built by inserting the pairs in
/// order, so that a later pair with the same key overwrites an earlier one.
pub open spec fn view_of_obj(s: Seq<(String, Value)>) -> Map<Seq<char>, SpecValue>
    decreases s,
{
    if s.len() == 0 {
        Map::empty()
    } else {
        view_of_obj(s.drop_last()).insert(s.last().0@, view_of(s.last().1))
    }
}

/// What a node denotes.
pub open spec fn view_of(v: Value) -> SpecValue
    decreases v,
{
    match v {
        Value::Null => SpecValue::Null,
        Value::Bool(b) => SpecValue::Bool(b),
        Value::String(s) => SpecValue::Str(s@),
        Value::Number(t) => SpecValue::Num(t@),
        Value::Array(a) => SpecValue::Arr(view_of_seq(a@)),
        Value::Object(m) => SpecValue::Obj(view_of_obj(m@)),
    }
}

impl View for Value {
    type V = SpecValue;

    open spec fn view(&self) -> SpecValue {
        view_of(*self)
    }
}

/// No two pairs of the list carry the same key.
pub open spec fn obj_keys_unique(s: Seq<(String, Value)>) -> bool {
    forall|p: int, q: int| 0 <= p < q < s.len() ==> s[p].0@ != s[q].0@
}

/// Every value of the list is itself well formed.
pub open spec fn obj_vals_wf(s: Seq<(String, Value)>) -> bool
    decreases s,
{
    s.len() == 0 || (obj_vals_wf(s.drop_last()) && value_wf(s.last().1))
}

/// Every node of the sequence is well formed.
pub open spec fn seq_wf(s: Seq<Value>) -> bool
    decreases s,
{
    s.len() == 0 || (seq_wf(s.drop_last()) && value_wf(s.last()))
}

/// Well-formedness of a tree: every object in it has unique keys.
pub open spec fn value_wf(v: Value) -> bool
    decreases v,
{
    match v {
        Value::Array(a) => seq_wf(a@),
        Value::Object(m) => obj_keys_unique(m@) && obj_vals_wf(m@),
        _ => true,
    }
}

/// Pushing one node onto a sequence pushes its denotation, and keeps the
/// sequence well formed.
pub proof fn lemma_view_seq_push(s: Seq<Value>, v: Value)
    ensures
        view_of_seq(s.push(v)) == view_of_seq(s).push(view_of(v)),
        seq_wf(s) && value_wf(v) ==> seq_wf(s.push(v)),
{
    assert(s.push(v).drop_last() =~= s);
}

/// Pushing one pair onto a pair list inserts its denotation into the map,
/// and keeps the values well formed.
pub proof fn lemma_view_obj_push(s: Seq<(String, Value)>, k: String, v: Value)
    ensures
        view_of_obj(s.push((k, v))) == view_of_obj(s).insert(k@, view_of(v)),
        obj_vals_wf(s) && value_wf(v) ==> obj_vals_wf(s.push((k, v))),
{
    assert(s.push((k, v)).drop_last() =~= s);
}

/// Overwriting the one pair that carries a key denotes the same map as
/// inserting that key anew, and preserves well-formedness.
pub proof fn lemma_view_obj_update(s: Seq<(String, Value)>, idx: int, k: String, v: Value)
    requires
        0 <= idx < s.len(),
        obj_keys_unique(s),
        s[idx].0@ == k@,
    ensures
        view_of_obj(s.update(idx, (k, v))) == view_of_obj(s).insert(k@, view_of(v)),
        obj_keys_unique(s.update(idx, (k, v))),
        obj_vals_wf(s) && value_wf(v) ==> obj_vals_wf(s.update(idx, (k, v))),
    decreases s.len(),
{
    let t = s.update(idx, (k, v));
    assert(obj_keys_unique(t)) by {
        assert forall|p: int, q: int| 0 <= p < q < t.len() implies t[p].0@ != t[q].0@ by {
            assert(s[p].0@ != s[q].0@);
        }
    }
    if idx == s.len() - 1 {
        assert(t.drop_last() =~= s.drop_last());
        assert(view_of_obj(s.drop_last()).insert(s.last().0@, view_of(s.last().1)).insert(
            k@,
            view_of(v),
        ) =~= view_of_obj(s.drop_last()).insert(k@, view_of(v)));
    } else {
        assert(t.drop_last() =~= s.drop_last().update(idx, (k, v)));
        assert(obj_keys_unique(s.drop_last())) by {
            assert forall|p: int, q: int|
                0 <= p < q < s.drop_last().len() implies s.drop_last()[p].0@
                != s.drop_last()[q].0@ by {
                assert(s[p].0@ != s[q].0@);
            }
        }
        lemma_view_obj_update(s.drop_last(), idx, k, v);
        assert(t.last() == s.last());
        // The overwritten key differs from the last pair's key, so the two
        // insertions commute.
        assert(s[idx].0@ != s.last().0@);
        assert(view_of_obj(s.drop_last()).insert(k@, view_of(v)).insert(
            s.last().0@,
            view_of(s.last().1),
        ) =~= view_of_obj(s.drop_last()).insert(s.last().0@, view_of(s.last().1)).insert(
            k@,
            view_of(v),
        ));
    }
}

/// Puts one member into an object's pair list, last write wins: the pair
/// list afterwards denotes the old map with `key` bound to `val`.
#[verifier::loop_isolation(false)]
pub fn obj_insert(pairs: &mut Vec<(String, Value)>, key: String, val: Value)
    requires
        obj_keys_unique(old(pairs)@),
    ensures
        view_of_obj(final(pairs)@) == view_of_obj(old(pairs)@).insert(key@, view_of(val)),
        obj_keys_unique(final(pairs)@),
        obj_vals_wf(old(pairs)@) && value_wf(val) ==> obj_vals_wf(final(pairs)@),
{
    let ghost s0 = pairs@;
    let n = pairs.len();
    let mut i: usize = 0;
    while i < n
        invariant
            pairs@ == s0,
            n == s0.len(),
            i <= n,
            obj_keys_unique(s0),
            forall|p: int| 0 <= p < i ==> s0[p].0@ != key@,
        decreases n - i,
    {
        if pairs[i].0 == key {
            proof {
                lemma_view_obj_update(s0, i as int, key, val);
            }
            pairs.set(i, (key, val));
            return ;
        }
        i += 1;
    }
    proof {
        lemma_view_obj_push(s0, key, val);
        assert forall|p: int, q: int|
            0 <= p < q < s0.push((key, val)).len() implies s0.push((key, val))[p].0@ != s0.push(
            (key, val),
        )[q].0@ by {
            if q < s0.len() {
                assert(s0[p].0@ != s0[q].0@);
            }
        }
    }
    pairs.push((key, val));
}

} // verus!
