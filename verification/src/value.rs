//! The dynamic value tree underlying the wire format: a self-describing
//! binary-encodable value (null / bool / integer / float / text / bytes /
//! array / map / tagged value), together with its mathematical model.

use vstd::prelude::*;
use vstd::utf8::encode_utf8;

verus! {

broadcast use vstd::std_specs::vec::group_vec_axioms, vstd::slice::group_slice_axioms;

/// The mathematical model of a dynamic value: what a [`Value`] *is*,
/// independent of its in-memory representation. All encoding and validation
/// contracts in this crate are stated over this type.
#[verifier::ext_equal]
pub enum ValueModel {
    Null,
    Bool(bool),
    /// An integer in the encodable range `-2^64 <= i < 2^64`.
    Int(int),
    /// An IEEE 754 double-precision number, carried as its raw bit pattern.
    Float(u64),
    Text(Seq<char>),
    Bytes(Seq<u8>),
    Array(Seq<ValueModel>),
    Mapping(Seq<(ValueModel, ValueModel)>),
    Tag(u64, Box<ValueModel>),
}

/// A dynamic value: the generic self-describing value tree consumed and
/// produced by the wire format. Arbitrary application data (params, results,
/// error data) is carried as values of this type.
///
/// Floating-point numbers are carried as the raw bit pattern of an IEEE 754
/// double; this layer never does arithmetic on them.
#[derive(Debug, PartialEq)]
pub enum Value {
    Null,
    Bool(bool),
    /// An integer; only the range `-2^64 <= i < 2^64` is encodable
    /// (see [`ValueModel::wf`]).
    Integer(i128),
    /// Raw bits of an IEEE 754 double-precision number.
    Float(u64),
    Text(String),
    Bytes(Vec<u8>),
    Array(Vec<Value>),
    Mapping(Vec<(Value, Value)>),
    Tag(u64, Box<Value>),
}

impl Value {
    /// The mathematical model of this value.
    pub open spec fn model(self) -> ValueModel
        decreases self,
    {
        match self {
            Value::Null => ValueModel::Null,
            Value::Bool(b) => ValueModel::Bool(b),
            Value::Integer(i) => ValueModel::Int(i as int),
            Value::Float(bits) => ValueModel::Float(bits),
            Value::Text(s) => ValueModel::Text(s@),
            Value::Bytes(b) => ValueModel::Bytes(b@),
            Value::Array(a) => ValueModel::Array(seq_model(a@)),
            Value::Mapping(m) => ValueModel::Mapping(pairs_model(m@)),
            Value::Tag(t, b) => ValueModel::Tag(t, Box::new((*b).model())),
        }
    }
}

/// Models of a sequence of values, elementwise.
pub open spec fn seq_model(s: Seq<Value>) -> Seq<ValueModel>
    decreases s,
{
    if s.len() == 0 {
        Seq::empty()
    } else {
        seq_model(s.drop_last()).push(s.last().model())
    }
}

/// Models of a sequence of key-value pairs, elementwise.
pub open spec fn pairs_model(s: Seq<(Value, Value)>) -> Seq<(ValueModel, ValueModel)>
    decreases s,
{
    if s.len() == 0 {
        Seq::empty()
    } else {
        pairs_model(s.drop_last()).push((s.last().0.model(), s.last().1.model()))
    }
}

/// `seq_model` is the elementwise map of `Value::model`.
pub proof fn lemma_seq_model(s: Seq<Value>)
    ensures
        seq_model(s).len() == s.len(),
        forall|i: int| 0 <= i < s.len() ==> #[trigger] seq_model(s)[i] == s[i].model(),
    decreases s,
{
    if s.len() > 0 {
        lemma_seq_model(s.drop_last());
    }
}

/// `pairs_model` is the elementwise map of `Value::model` over both slots.
pub proof fn lemma_pairs_model(s: Seq<(Value, Value)>)
    ensures
        pairs_model(s).len() == s.len(),
        forall|i: int|
            0 <= i < s.len() ==> #[trigger] pairs_model(s)[i] == (
            s[i].0.model(),
            s[i].1.model(),
            ),
    decreases s,
{
    if s.len() > 0 {
        lemma_pairs_model(s.drop_last());
    }
}

impl ValueModel {
    /// Nesting depth of the tree: scalars have depth 0, and each array,
    /// map, or tag layer adds one. The decoder bounds this (see
    /// [`crate::codec::DECODE_DEPTH_LIMIT`]).
    pub open spec fn depth(self) -> nat
        decreases self,
    {
        match self {
            ValueModel::Array(a) => 1 + seq_depth(a),
            ValueModel::Mapping(m) => 1 + pairs_depth(m),
            ValueModel::Tag(_, b) => 1 + b.depth(),
            _ => 0,
        }
    }
}

/// Largest depth among the elements of `s` (0 when empty).
pub open spec fn seq_depth(s: Seq<ValueModel>) -> nat
    decreases s,
{
    if s.len() == 0 {
        0
    } else {
        let first = s[0].depth();
        let rest = seq_depth(s.drop_first());
        if first >= rest {
            first
        } else {
            rest
        }
    }
}

/// Largest depth among the keys and values of `s` (0 when empty).
pub open spec fn pairs_depth(s: Seq<(ValueModel, ValueModel)>) -> nat
    decreases s,
{
    if s.len() == 0 {
        0
    } else {
        let k = s[0].0.depth();
        let v = s[0].1.depth();
        let first = if k >= v {
            k
        } else {
            v
        };
        let rest = pairs_depth(s.drop_first());
        if first >= rest {
            first
        } else {
            rest
        }
    }
}

/// Every element of `s` nests at most `seq_depth(s)` deep.
pub proof fn lemma_seq_depth(s: Seq<ValueModel>)
    ensures
        forall|i: int| #![trigger s[i]] 0 <= i < s.len() ==> s[i].depth() <= seq_depth(s),
    decreases s,
{
    if s.len() > 0 {
        lemma_seq_depth(s.drop_first());
        assert forall|i: int| #![trigger s[i]] 0 <= i < s.len() implies s[i].depth() <= seq_depth(
            s,
        ) by {
            if i > 0 {
                assert(s.drop_first()[i - 1] == s[i]);
                assert(s.drop_first()[i - 1].depth() <= seq_depth(s.drop_first()));
            }
        }
    }
}

/// Every key and value of `s` nests at most `pairs_depth(s)` deep.
pub proof fn lemma_pairs_depth(s: Seq<(ValueModel, ValueModel)>)
    ensures
        forall|i: int|
            #![trigger s[i]]
            0 <= i < s.len() ==> s[i].0.depth() <= pairs_depth(s) && s[i].1.depth() <= pairs_depth(
                s,
            ),
    decreases s,
{
    if s.len() > 0 {
        lemma_pairs_depth(s.drop_first());
        assert forall|i: int| #![trigger s[i]]
            0 <= i < s.len() implies s[i].0.depth() <= pairs_depth(s) && s[i].1.depth()
            <= pairs_depth(s) by {
            if i > 0 {
                assert(s.drop_first()[i - 1] == s[i]);
                assert(s.drop_first()[i - 1].0.depth() <= pairs_depth(s.drop_first()));
            }
        }
    }
}

/// Structural height of a value: scalars have height 0, and each array,
/// map, or tag layer adds one. Used as the termination measure of the
/// executable functions that walk a value.
pub open spec fn vheight(v: Value) -> nat
    decreases v,
{
    match v {
        Value::Array(a) => 1 + seq_vheight(a@),
        Value::Mapping(m) => 1 + pairs_vheight(m@),
        Value::Tag(_, b) => 1 + vheight(*b),
        _ => 0,
    }
}

/// Largest height among the elements of `s` (0 when empty).
pub open spec fn seq_vheight(s: Seq<Value>) -> nat
    decreases s,
{
    if s.len() == 0 {
        0
    } else {
        let rest = seq_vheight(s.drop_last());
        let last = vheight(s.last());
        if last >= rest {
            last
        } else {
            rest
        }
    }
}

/// Largest height among the keys and values of `s` (0 when empty).
pub open spec fn pairs_vheight(s: Seq<(Value, Value)>) -> nat
    decreases s,
{
    if s.len() == 0 {
        0
    } else {
        let rest = pairs_vheight(s.drop_last());
        let k = vheight(s.last().0);
        let v = vheight(s.last().1);
        let here = if k >= v { k } else { v };
        if here >= rest {
            here
        } else {
            rest
        }
    }
}

/// Every element of `s` has height at most `seq_vheight(s)`.
pub proof fn lemma_seq_vheight(s: Seq<Value>)
    ensures
        forall|i: int| 0 <= i < s.len() ==> #[trigger] vheight(s[i]) <= seq_vheight(s),
    decreases s,
{
    if s.len() > 0 {
        lemma_seq_vheight(s.drop_last());
        assert forall|i: int| 0 <= i < s.len() implies #[trigger] vheight(s[i]) <= seq_vheight(
            s,
        ) by {
            if i < s.len() - 1 {
                assert(s.drop_last()[i] == s[i]);
            }
        }
    }
}

/// Every key and value of `s` has height at most `pairs_vheight(s)`.
pub proof fn lemma_pairs_vheight(s: Seq<(Value, Value)>)
    ensures
        forall|i: int|
            #![trigger s[i]]
            0 <= i < s.len() ==> vheight(s[i].0) <= pairs_vheight(s) && vheight(s[i].1)
                <= pairs_vheight(s),
    decreases s,
{
    if s.len() > 0 {
        lemma_pairs_vheight(s.drop_last());
        assert forall|i: int| #![trigger s[i]]
            0 <= i < s.len() implies vheight(s[i].0) <= pairs_vheight(s) && vheight(s[i].1)
            <= pairs_vheight(s) by {
            if i < s.len() - 1 {
                assert(s.drop_last()[i] == s[i]);
                assert(vheight(s.drop_last()[i].0) <= pairs_vheight(s.drop_last()));
            } else {
                assert(s[i] == s.last());
            }
        }
    }
}

impl View for Value {
    type V = ValueModel;

    open spec fn view(&self) -> ValueModel {
        self.model()
    }
}

/// The smallest encodable integer, `-2^64`.
pub open spec fn int_min() -> int {
    -0x1_0000_0000_0000_0000
}

/// The largest encodable integer, `2^64 - 1`.
pub open spec fn int_max() -> int {
    0xffff_ffff_ffff_ffff
}

impl ValueModel {
    /// Well-formedness: every integer in the tree lies in the encodable
    /// range `-2^64 <= i < 2^64` (the only representable but unencodable
    /// values a [`Value`] can hold).
    pub open spec fn wf(self) -> bool
        decreases self,
    {
        match self {
            ValueModel::Int(i) => int_min() <= i <= int_max(),
            ValueModel::Text(t) => encode_utf8(t).len() <= int_max(),
            ValueModel::Bytes(b) => b.len() <= int_max(),
            ValueModel::Array(a) => a.len() <= int_max() && seq_wf(a),
            ValueModel::Mapping(m) => m.len() <= int_max() && pairs_wf(m),
            ValueModel::Tag(_, b) => b.wf(),
            _ => true,
        }
    }
}

/// All elements of `s` are well-formed.
pub open spec fn seq_wf(s: Seq<ValueModel>) -> bool
    decreases s,
{
    s.len() == 0 || (seq_wf(s.drop_last()) && s.last().wf())
}

/// All keys and values of `s` are well-formed.
pub open spec fn pairs_wf(s: Seq<(ValueModel, ValueModel)>) -> bool
    decreases s,
{
    s.len() == 0 || (pairs_wf(s.drop_last()) && s.last().0.wf() && s.last().1.wf())
}

/// `seq_wf` says exactly that every element is well-formed.
pub proof fn lemma_seq_wf(s: Seq<ValueModel>)
    ensures
        seq_wf(s) == (forall|i: int| 0 <= i < s.len() ==> #[trigger] s[i].wf()),
    decreases s,
{
    if s.len() > 0 {
        lemma_seq_wf(s.drop_last());
        if seq_wf(s) {
            assert forall|i: int| 0 <= i < s.len() implies #[trigger] s[i].wf() by {
                if i < s.len() - 1 {
                    assert(s.drop_last()[i] == s[i]);
                }
            }
        } else {
            if s.last().wf() {
                let i = choose|i: int| 0 <= i < s.len() - 1 && !(#[trigger] s.drop_last()[i].wf());
                assert(s.drop_last()[i] == s[i]);
                assert(!s[i].wf());
            }
        }
    }
}

/// `pairs_wf` says exactly that every key and value is well-formed.
pub proof fn lemma_pairs_wf(s: Seq<(ValueModel, ValueModel)>)
    ensures
        pairs_wf(s) == (forall|i: int|
            #![trigger s[i]]
            0 <= i < s.len() ==> (s[i].0.wf() && s[i].1.wf())),
    decreases s,
{
    if s.len() > 0 {
        lemma_pairs_wf(s.drop_last());
        if pairs_wf(s) {
            assert forall|i: int| #![trigger s[i]]
                0 <= i < s.len() implies (s[i].0.wf() && s[i].1.wf()) by {
                if i < s.len() - 1 {
                    assert(s.drop_last()[i] == s[i]);
                    assert(s.drop_last()[i].0.wf() && s.drop_last()[i].1.wf());
                } else {
                    assert(s[i] == s.last());
                    assert(s.last().0.wf() && s.last().1.wf());
                }
            }
        } else {
            if s.last().0.wf() && s.last().1.wf() {
                assert(!pairs_wf(s.drop_last()));
                if forall|i: int| #![trigger s[i]]
                    0 <= i < s.len() ==> (s[i].0.wf() && s[i].1.wf()) {
                    assert forall|i: int| #![trigger s.drop_last()[i]]
                        0 <= i < s.drop_last().len() implies (s.drop_last()[i].0.wf()
                            && s.drop_last()[i].1.wf()) by {
                        assert(s.drop_last()[i] == s[i]);
                        assert(s[i].0.wf() && s[i].1.wf());
                    }
                    assert(false);
                }
            } else {
                assert(s[s.len() - 1] == s.last());
            }
        }
    }
}

impl Value {
    /// True when every integer in this value lies in the encodable range.
    #[verifier::loop_isolation(false)]
    pub fn is_wf(&self) -> (r: bool)
        ensures
            r == self@.wf(),
        decreases vheight(*self),
    {
        match self {
            Value::Integer(i) => -0x1_0000_0000_0000_0000i128 <= *i
                && *i <= 0xffff_ffff_ffff_ffffi128,
            Value::Text(s) => {
                // the byte length is a usize, so it is within the encodable
                // range
                let len = s.as_str().as_bytes().len();
                proof {
                    assert(encode_utf8(s@).len() == len);
                }
                true
            },
            Value::Bytes(b) => {
                // the length is a usize, so it is within the encodable range
                let len = b.len();
                proof {
                    assert(b@.len() == len);
                }
                true
            },
            Value::Array(a) => {
                // the length is a usize, so it is within the encodable range
                let len = a.len();
                proof {
                    assert(a@.len() == len);
                    lemma_seq_model(a@);
                    lemma_seq_vheight(a@);
                }
                let ghost mut bad: int = 0;
                let mut k: usize = 0;
                let mut ok = true;
                while k < a.len()
                    invariant
                        0 <= k <= a@.len(),
                        ok ==> forall|i: int| 0 <= i < k ==> #[trigger] a@[i].model().wf(),
                        !ok ==> 0 <= bad < a@.len() && !a@[bad].model().wf(),
                    decreases a@.len() - k,
                {
                    if !a[k].is_wf() {
                        proof {
                            if ok {
                                bad = k as int;
                            }
                        }
                        ok = false;
                    }
                    k = k + 1;
                }
                proof {
                    lemma_seq_wf(seq_model(a@));
                    if ok {
                        assert forall|i: int|
                            0 <= i < seq_model(a@).len() implies #[trigger] seq_model(
                            a@,
                        )[i].wf() by {
                            assert(seq_model(a@)[i] == a@[i].model());
                        }
                    } else {
                        assert(seq_model(a@)[bad] == a@[bad].model());
                        assert(!seq_model(a@)[bad].wf());
                    }
                }
                ok
            },
            Value::Mapping(m) => {
                // the length is a usize, so it is within the encodable range
                let len = m.len();
                proof {
                    assert(m@.len() == len);
                    lemma_pairs_model(m@);
                    lemma_pairs_vheight(m@);
                }
                let ghost mut bad: int = 0;
                let mut k: usize = 0;
                let mut ok = true;
                while k < m.len()
                    invariant
                        0 <= k <= m@.len(),
                        ok ==> forall|i: int|
                            #![trigger m@[i]]
                            0 <= i < k ==> (m@[i].0.model().wf() && m@[i].1.model().wf()),
                        !ok ==> 0 <= bad < m@.len() && !(m@[bad].0.model().wf()
                            && m@[bad].1.model().wf()),
                    decreases m@.len() - k,
                {
                    let w0 = m[k].0.is_wf();
                    let w1 = m[k].1.is_wf();
                    if !w0 || !w1 {
                        proof {
                            if ok {
                                bad = k as int;
                            }
                        }
                        ok = false;
                    }
                    k = k + 1;
                }
                proof {
                    lemma_pairs_wf(pairs_model(m@));
                    if ok {
                        assert forall|i: int| #![trigger pairs_model(m@)[i]]
                            0 <= i < pairs_model(m@).len() implies (pairs_model(m@)[i].0.wf()
                                && pairs_model(m@)[i].1.wf()) by {
                            assert(pairs_model(m@)[i] == (m@[i].0.model(), m@[i].1.model()));
                            assert(m@[i].0.model().wf() && m@[i].1.model().wf());
                        }
                    } else {
                        assert(pairs_model(m@)[bad] == (m@[bad].0.model(), m@[bad].1.model()));
                        assert(!(pairs_model(m@)[bad].0.wf() && pairs_model(m@)[bad].1.wf()));
                    }
                }
                ok
            },
            Value::Tag(_, b) => b.is_wf(),
            _ => true,
        }
    }
}

impl Clone for Value {
    /// A clone is an exact copy: it has the same model as the original.
    #[verifier::loop_isolation(false)]
    fn clone(&self) -> (res: Self)
        ensures
            res@ == self@,
        decreases vheight(*self),
    {
        match self {
            Value::Null => Value::Null,
            Value::Bool(b) => Value::Bool(*b),
            Value::Integer(i) => Value::Integer(*i),
            Value::Float(bits) => Value::Float(*bits),
            Value::Text(s) => Value::Text(s.clone()),
            Value::Bytes(b) => {
                let c = b.clone();
                assert(c@ =~= b@);
                Value::Bytes(c)
            },
            Value::Array(a) => {
                proof {
                    lemma_seq_vheight(a@);
                }
                let mut out: Vec<Value> = Vec::new();
                let mut k: usize = 0;
                while k < a.len()
                    invariant
                        0 <= k <= a@.len(),
                        out@.len() == k,
                        forall|i: int| 0 <= i < k ==> #[trigger] out@[i].model() == a@[i].model(),
                    decreases a@.len() - k,
                {
                    out.push(a[k].clone());
                    k = k + 1;
                }
                proof {
                    lemma_seq_model(a@);
                    lemma_seq_model(out@);
                    assert(seq_model(out@) =~= seq_model(a@));
                }
                Value::Array(out)
            },
            Value::Mapping(m) => {
                proof {
                    lemma_pairs_vheight(m@);
                }
                let mut out: Vec<(Value, Value)> = Vec::new();
                let mut k: usize = 0;
                while k < m.len()
                    invariant
                        0 <= k <= m@.len(),
                        out@.len() == k,
                        forall|i: int|
                            #![trigger out@[i]]
                            0 <= i < k ==> out@[i].0.model() == m@[i].0.model()
                                && out@[i].1.model() == m@[i].1.model(),
                    decreases m@.len() - k,
                {
                    out.push((m[k].0.clone(), m[k].1.clone()));
                    k = k + 1;
                }
                proof {
                    lemma_pairs_model(m@);
                    lemma_pairs_model(out@);
                    assert(pairs_model(out@) =~= pairs_model(m@));
                }
                Value::Mapping(out)
            },
            Value::Tag(t, b) => Value::Tag(*t, Box::new((**b).clone())),
        }
    }
}

} // verus!
