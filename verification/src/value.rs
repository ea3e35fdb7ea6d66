use vstd::prelude::*;
use crate::text::char_string;

verus! {

/// A dynamically-typed value for parsed results.
///
/// `Value` represents the various result types that can be produced by parsers.
#[derive(Debug, PartialEq, Eq)]
pub enum Value {
    Str(String),
    Char(char),
    List(Vec<Value>),
    Nothing,
}

/// The mathematical model of a `Value`.
pub enum SpecValue {
    Str(Seq<char>),
    Char(char),
    List(Seq<SpecValue>),
    Nothing,
}

impl Value {
    pub open spec fn view(&self) -> SpecValue
        decreases self,
    {
        match self {
            Value::Str(s) => SpecValue::Str(s@),
            Value::Char(c) => SpecValue::Char(*c),
            Value::List(v) => SpecValue::List(value_views(v@)),
            Value::Nothing => SpecValue::Nothing,
        }
    }
}

/// The models of a sequence of values, element by element.
pub open spec fn value_views(s: Seq<Value>) -> Seq<SpecValue>
    decreases s,
{
    if s.len() == 0 {
        Seq::empty()
    } else {
        value_views(s.drop_last()).push(s.last().view())
    }
}

pub proof fn lemma_value_views(s: Seq<Value>)
    ensures
        value_views(s).len() == s.len(),
        forall|i: int| 0 <= i < s.len() ==> #[trigger] value_views(s)[i] == s[i].view(),
    decreases s.len(),
{
    if s.len() > 0 {
        lemma_value_views(s.drop_last());
    }
}

/// The text a value displays as: a string or a character as itself, a list
/// as the concatenation of its items, and `Nothing` as "None".
pub open spec fn render(v: SpecValue) -> Seq<char>
    decreases v,
{
    match v {
        SpecValue::Str(s) => s,
        SpecValue::Char(c) => seq![c],
        SpecValue::List(items) => render_list(items),
        SpecValue::Nothing => "None"@,
    }
}

/// The concatenation of the texts of the items.
pub open spec fn render_list(items: Seq<SpecValue>) -> Seq<char>
    decreases items,
{
    if items.len() == 0 {
        Seq::empty()
    } else {
        render_list(items.drop_last()) + render(items.last())
    }
}

/// The name of the kind of a value.
pub open spec fn kind_name(v: SpecValue) -> Seq<char> {
    match v {
        SpecValue::Str(_) => "Str"@,
        SpecValue::Char(_) => "Char"@,
        SpecValue::List(_) => "List"@,
        SpecValue::Nothing => "None"@,
    }
}

/// A deep copy of a value.
pub fn copy_value(v: &Value) -> (r: Value)
    ensures
        r.view() == v.view(),
    decreases v,
{
    match v {
        Value::Str(s) => Value::Str(s.clone()),
        Value::Char(c) => Value::Char(*c),
        Value::List(items) => Value::List(copy_values(items)),
        Value::Nothing => Value::Nothing,
    }
}

/// A deep copy of a vector of values.
pub fn copy_values(items: &Vec<Value>) -> (r: Vec<Value>)
    ensures
        value_views(r@) == value_views(items@),
    decreases items,
{
    let mut r: Vec<Value> = Vec::new();
    let mut i: usize = 0;
    while i < items.len()
        invariant
            i <= items@.len(),
            r@.len() == i,
            forall|j: int| 0 <= j < i ==> r@[j].view() == items@[j].view(),
        decreases items@.len() - i,
    {
        assert(decreases_to!(items => items@[i as int]));
        r.push(copy_value(&items[i]));
        i = i + 1;
    }
    proof {
        lemma_value_views(r@);
        lemma_value_views(items@);
        assert(value_views(r@) =~= value_views(items@));
    }
    r
}

impl Clone for Value {
    fn clone(&self) -> (r: Self)
        ensures
            r.view() == self.view(),
    {
        copy_value(self)
    }
}

impl Value {
    /// get inner list if it exists.
    pub fn unwrap_list(&self) -> (r: Vec<Value>)
        ensures
            value_views(r@) == match self.view() {
                SpecValue::List(items) => items,
                _ => Seq::empty(),
            },
    {
        if let Value::List(lst) = self {
            copy_values(lst)
        } else {
            let r: Vec<Value> = Vec::new();
            assert(value_views(r@) =~= Seq::empty());
            r
        }
    }

    /// Get the kind of a `Value`.
    pub fn kind(&self) -> (r: &'static str)
        ensures
            r@ == kind_name(self.view()),
    {
        match self {
            Value::Str(_) => "Str",
            Value::Char(_) => "Char",
            Value::List(_) => "List",
            Value::Nothing => "None",
        }
    }

    /// The concatenated texts of a list of values.
    fn format_list(items: &Vec<Value>) -> (r: String)
        ensures
            r@ == render_list(value_views(items@)),
        decreases items,
    {
        proof {
            lemma_value_views(items@);
        }
        if items.len() == 0 {
            return String::new();
        }
        if items.len() == 1 {
            assert(decreases_to!(items => items@[0]));
            let piece = items[0].render();
            proof {
                let vs = value_views(items@);
                assert(vs.drop_last() =~= Seq::<SpecValue>::empty());
                assert(render_list(vs.drop_last()) == Seq::<char>::empty());
                assert(vs.last() == items@[0].view());
                assert(Seq::<char>::empty() + piece@ =~= piece@);
            }
            return piece;
        }
        let mut result = String::new();
        let mut i: usize = 0;
        while i < items.len()
            invariant
                i <= items@.len(),
                value_views(items@).len() == items@.len(),
                forall|j: int| 0 <= j < items@.len() ==> #[trigger] value_views(items@)[j] == items@[j].view(),
                result@ == render_list(value_views(items@).take(i as int)),
            decreases items@.len() - i,
        {
            assert(decreases_to!(items => items@[i as int]));
            let piece = items[i].render();
            proof {
                let vs = value_views(items@);
                assert(vs.take(i + 1).drop_last() =~= vs.take(i as int));
            }
            if i > 0 {
                result.append(piece.as_str());
            } else {
                assert(value_views(items@).take(0) =~= Seq::<SpecValue>::empty());
                result = piece;
            }
            i = i + 1;
        }
        assert(value_views(items@).take(items@.len() as int) =~= value_views(items@));
        result
    }

    /// The text the value displays as.
    pub fn render(&self) -> (r: String)
        ensures
            r@ == render(self.view()),
        decreases self,
    {
        match self {
            Value::Str(s) => s.clone(),
            Value::Char(c) => char_string(*c),
            Value::List(items) => Value::format_list(items),
            Value::Nothing => String::from_str("None"),
        }
    }
}

} // verus!
