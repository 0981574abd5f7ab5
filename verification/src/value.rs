//! The generic document tree: any value either wire format can carry.
//!
//! A [`Value`] is deliberately a plain owned tree.  Its mathematical model is
//! [`ValueModel`], a ghost datatype over `Seq`; every codec contract speaks
//! of models.  Deeply nested trees are torn down iteratively with
//! [`drop_safely`], so no teardown recurses as deep as the data.

use vstd::prelude::*;

verus! {

broadcast use vstd::std_specs::vec::group_vec_axioms;

/// A number carried by the document tree.
///
/// Non-negative integers arrive as `U64`, negative ones as `I64`; keeping
/// the two apart avoids lossy casts.
#[derive(Debug, PartialEq)]
pub enum Number {
    U64(u64),
    I64(i64),
}

/// Any valid document value.
///
/// **Deep trees must be torn down with [`drop_safely`].**  `Value` has no
/// custom `Drop`: one would forbid the by-move destructuring the verified
/// codecs rely on, and the unsafe manual-drop devices that could restore
/// it have no place here.  Letting a tree nested many thousands of levels
/// deep simply fall out of scope therefore runs the compiler's recursive
/// drop glue, which can overflow the call stack; hand such a tree to
/// [`drop_safely`] instead.
#[derive(Debug, PartialEq)]
pub enum Value {
    Null,
    Bool(bool),
    Number(Number),
    Str(String),
    /// Raw bytes plus the alignment their consumer wants them placed at.
    Binary { bytes: Vec<u8>, align: usize },
    Array(Vec<Value>),
    /// Fields in insertion order; on lookup a later duplicate key wins.
    Object(Vec<(String, Value)>),
}

/// Ghost model of a [`Number`].
#[derive(PartialEq, Eq, Structural)]
pub enum NumberModel {
    U64(u64),
    I64(i64),
}

/// Ghost model of a [`Value`].
pub enum ValueModel {
    Null,
    Bool(bool),
    Number(NumberModel),
    Str(Seq<char>),
    Binary { bytes: Seq<u8>, align: usize },
    Array(Seq<ValueModel>),
    Object(Seq<(Seq<char>, ValueModel)>),
}

impl View for Number {
    type V = NumberModel;

    open spec fn view(&self) -> NumberModel {
        match self {
            Number::U64(n) => NumberModel::U64(*n),
            Number::I64(n) => NumberModel::I64(*n),
        }
    }
}

/// Model of one exec value.
pub open spec fn view_value(v: Value) -> ValueModel
    decreases v,
{
    match v {
        Value::Null => ValueModel::Null,
        Value::Bool(b) => ValueModel::Bool(b),
        Value::Number(n) => ValueModel::Number(n@),
        Value::Str(s) => ValueModel::Str(s@),
        Value::Binary { bytes, align } => ValueModel::Binary { bytes: bytes@, align },
        Value::Array(a) => ValueModel::Array(view_elements(a@)),
        Value::Object(o) => ValueModel::Object(view_fields(o@)),
    }
}

/// Models of a sequence of exec values.
pub open spec fn view_elements(s: Seq<Value>) -> Seq<ValueModel>
    decreases s,
{
    if s.len() == 0 {
        Seq::empty()
    } else {
        view_elements(s.drop_last()).push(view_value(s.last()))
    }
}

/// Models of a sequence of exec fields.
pub open spec fn view_fields(s: Seq<(String, Value)>) -> Seq<(Seq<char>, ValueModel)>
    decreases s,
{
    if s.len() == 0 {
        Seq::empty()
    } else {
        view_fields(s.drop_last()).push((s.last().0@, view_value(s.last().1)))
    }
}

impl View for Value {
    type V = ValueModel;

    open spec fn view(&self) -> ValueModel {
        view_value(*self)
    }
}

/// The model sequences are pointwise models of their exec sequences.
pub proof fn lemma_view_elements(s: Seq<Value>)
    ensures
        view_elements(s).len() == s.len(),
        forall|i: int| 0 <= i < s.len() ==> view_elements(s)[i] == view_value(#[trigger] s[i]),
    decreases s.len(),
{
    if s.len() > 0 {
        lemma_view_elements(s.drop_last());
        assert forall|i: int| 0 <= i < s.len() implies view_elements(s)[i] == view_value(
            #[trigger] s[i],
        ) by {
            if i < s.len() - 1 {
                assert(s.drop_last()[i] == s[i]);
            } else {
                assert(s.last() == s[i]);
            }
        }
    }
}

/// The model fields are pointwise models of their exec fields.
pub proof fn lemma_view_fields(s: Seq<(String, Value)>)
    ensures
        view_fields(s).len() == s.len(),
        forall|i: int| 0 <= i < s.len()
            ==> view_fields(s)[i] == ((#[trigger] s[i]).0@, view_value(s[i].1)),
    decreases s.len(),
{
    if s.len() > 0 {
        lemma_view_fields(s.drop_last());
        assert forall|i: int| 0 <= i < s.len() implies view_fields(s)[i] == (
        (#[trigger] s[i]).0@,
        view_value(s[i].1),
        ) by {
            if i < s.len() - 1 {
                assert(s.drop_last()[i] == s[i]);
            } else {
                assert(s.last() == s[i]);
            }
        }
    }
}

/// Number of tree nodes of a value; the measure every iterative walk of a
/// tree decreases.
pub open spec fn value_size(v: Value) -> nat
    decreases v,
{
    match v {
        Value::Array(a) => 1 + values_size(a@),
        Value::Object(o) => 1 + obj_values_size(o@),
        _ => 1,
    }
}

/// Total node count of a sequence of values.
pub open spec fn values_size(s: Seq<Value>) -> nat
    decreases s,
{
    if s.len() == 0 {
        0
    } else {
        values_size(s.drop_last()) + value_size(s.last())
    }
}

/// Total node count of the values of a field sequence.
pub open spec fn obj_values_size(s: Seq<(String, Value)>) -> nat
    decreases s,
{
    if s.len() == 0 {
        0
    } else {
        obj_values_size(s.drop_last()) + value_size(s.last().1)
    }
}

proof fn lemma_values_size_push(s: Seq<Value>, v: Value)
    ensures
        values_size(s.push(v)) == values_size(s) + value_size(v),
{
    assert(s.push(v).drop_last() =~= s);
}

/// Tears a value down iteratively, so that dropping an arbitrarily deep
/// tree never recurses as deep as the tree.  Plain `drop` would: a tree a
/// hundred thousand levels deep must go through here instead.
pub fn drop_safely(v: Value) {
    let mut stack: Vec<Value> = Vec::new();
    stack.push(v);
    proof {
        lemma_values_size_push(Seq::empty(), v);
    }
    while stack.len() > 0
        invariant
            true,
        decreases values_size(stack@),
    {
        let ghost pre = stack@;
        let x = stack.pop().unwrap();
        proof {
            assert(pre.drop_last() =~= stack@);
        }
        let ghost budget = values_size(stack@);
        proof {
            assert(pre.last() == x);
            assert(values_size(pre) == budget + value_size(x));
        }
        match x {
            Value::Array(mut a) => {
                let ghost a0 = a@;
                assert(value_size(x) == 1 + values_size(a0));
                while a.len() > 0
                    invariant
                        values_size(stack@) + values_size(a@) == budget + values_size(a0),
                    decreases a.len(),
                {
                    let ghost sa = stack@;
                    let ghost aa = a@;
                    let c = a.pop().unwrap();
                    stack.push(c);
                    proof {
                        assert(aa.drop_last() =~= a@);
                        lemma_values_size_push(sa, c);
                    }
                }
                assert(values_size(stack@) < values_size(pre));
            },
            Value::Object(mut o) => {
                let ghost o0 = o@;
                assert(value_size(x) == 1 + obj_values_size(o0));
                while o.len() > 0
                    invariant
                        values_size(stack@) + obj_values_size(o@) == budget + obj_values_size(o0),
                    decreases o.len(),
                {
                    let ghost sa = stack@;
                    let ghost oo = o@;
                    let f = o.pop().unwrap();
                    stack.push(f.1);
                    proof {
                        assert(oo.drop_last() =~= o@);
                        lemma_values_size_push(sa, f.1);
                    }
                }
                assert(values_size(stack@) < values_size(pre));
            },
            _ => {},
        }
    }
}

} // verus!
