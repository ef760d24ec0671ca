//! Data types for the parsed JSON document tree: scalar partial values,
//! tree values, members and objects, with their mathematical models.

use vstd::prelude::*;

use crate::jlexer::JFloat;

verus! {

// ---------------------------------------------------------------------------
// Models
// ---------------------------------------------------------------------------

/// Models of a sequence of scalar partial values.
pub open spec fn pvals(a: Seq<JPartialValue>) -> Seq<PValM> {
    a.map(|i: int, e: JPartialValue| e@)
}

/// Model of a scalar partial value.
pub enum PValM {
    String(Seq<char>),
    Integer(int),
    Float(int, int),
    True,
    False,
    Null,
}

/// Model of a member: a name and a value.
pub struct MemberM {
    pub name: Seq<char>,
    pub value: ValM,
}

/// Model of a tree value. An object is the sequence of its members, in
/// source order, duplicates kept.
pub enum ValM {
    Object(Seq<MemberM>),
    Array(Seq<PValM>),
    String(Seq<char>),
    Integer(int),
    Float(int, int),
    True,
    False,
    Null,
}

// ---------------------------------------------------------------------------
// Executable types
// ---------------------------------------------------------------------------

/// A scalar JSON value produced while validating the grammar.
#[derive(Debug, Clone, PartialEq)]
pub enum JPartialValue {
    String(String),
    Integer(isize),
    Float(JFloat),
    True,
    False,
    Null,
}

impl View for JPartialValue {
    type V = PValM;

    open spec fn view(&self) -> PValM {
        match self {
            JPartialValue::String(s) => PValM::String(s@),
            JPartialValue::Integer(i) => PValM::Integer(*i as int),
            JPartialValue::Float(f) => PValM::Float(f@.0, f@.1),
            JPartialValue::True => PValM::True,
            JPartialValue::False => PValM::False,
            JPartialValue::Null => PValM::Null,
        }
    }
}

/// Value type of the JSON syntax.
#[derive(Debug, PartialEq)]
pub enum JValue {
    Object(JObject),
    Array(Vec<JPartialValue>),
    String(String),
    Integer(isize),
    Float(JFloat),
    True,
    False,
    Null,
}

/// A member of an object: a name and a value.
#[derive(Debug, PartialEq)]
pub struct JMember {
    pub name: String,
    pub value: JValue,
}

/// An object: an ordered list of members. Order of discovery is preserved and
/// duplicate names are kept.
#[derive(Debug, PartialEq)]
pub struct JObject {
    /// members
    pub members: Vec<JMember>,
}

/// Model of a tree value.
pub open spec fn value_model(v: JValue) -> ValM
    decreases v, 0nat,
{
    match v {
        JValue::Object(o) => ValM::Object(object_model(o)),
        JValue::Array(a) => ValM::Array(pvals(a@)),
        JValue::String(s) => ValM::String(s@),
        JValue::Integer(i) => ValM::Integer(i as int),
        JValue::Float(f) => ValM::Float(f@.0, f@.1),
        JValue::True => ValM::True,
        JValue::False => ValM::False,
        JValue::Null => ValM::Null,
    }
}

/// Model of a member.
pub open spec fn member_model(m: JMember) -> MemberM
    decreases m, 0nat,
{
    MemberM { name: m.name@, value: value_model(m.value) }
}

/// Model of an object: its members in order.
pub open spec fn object_model(o: JObject) -> Seq<MemberM>
    decreases o, 0nat,
{
    members_model(o.members, 0)
}

/// Models of the members of `ms` from index `i` on.
pub open spec fn members_model(ms: Vec<JMember>, i: int) -> Seq<MemberM>
    decreases ms, ms.len() - i when 0 <= i <= ms.len()
{
    if i >= ms.len() {
        Seq::empty()
    } else {
        seq![member_model(ms[i])] + members_model(ms, i + 1)
    }
}

impl View for JValue {
    type V = ValM;

    open spec fn view(&self) -> ValM {
        value_model(*self)
    }
}

impl View for JMember {
    type V = MemberM;

    open spec fn view(&self) -> MemberM {
        member_model(*self)
    }
}

impl View for JObject {
    type V = Seq<MemberM>;

    open spec fn view(&self) -> Seq<MemberM> {
        object_model(*self)
    }
}

impl Default for JObject {
    /// The empty object, with zero members.
    fn default() -> (r: JObject)
        ensures
            r@ =~= Seq::<MemberM>::empty(),
    {
        JObject { members: Vec::new() }
    }
}

impl JValue {
    /// The tree value of a scalar partial value: a straightforward tag
    /// mapping.
    pub fn from_partial(v: JPartialValue) -> (r: JValue)
        ensures
            r@ == partial_to_value(v@),
    {
        match v {
            JPartialValue::String(s) => JValue::String(s),
            JPartialValue::Integer(i) => JValue::Integer(i),
            JPartialValue::Float(f) => JValue::Float(f),
            JPartialValue::True => JValue::True,
            JPartialValue::False => JValue::False,
            JPartialValue::Null => JValue::Null,
        }
    }
}

/// The tag mapping from scalar partial values to tree values.
pub open spec fn partial_to_value(v: PValM) -> ValM {
    match v {
        PValM::String(s) => ValM::String(s),
        PValM::Integer(i) => ValM::Integer(i),
        PValM::Float(m, sc) => ValM::Float(m, sc),
        PValM::True => ValM::True,
        PValM::False => ValM::False,
        PValM::Null => ValM::Null,
    }
}

/// Appending a member extends an object's model by that member's model.
pub proof fn lemma_members_model_push(ms: Vec<JMember>, m: JMember, pushed: Vec<JMember>, i: int)
    requires
        pushed@ == ms@.push(m),
        0 <= i <= ms.len(),
    ensures
        members_model(pushed, i) =~= members_model(ms, i) + seq![member_model(m)],
    decreases ms.len() - i,
{
    if i < ms.len() {
        assert(pushed[i] == ms[i]);
        lemma_members_model_push(ms, m, pushed, i + 1);
    } else {
        assert(pushed[i] == m);
        assert(members_model(pushed, i + 1) =~= Seq::empty());
    }
}

} // verus!
