//! The data model of a preference set: named fields holding plain values,
//! together with the validity predicates that the record format relies on.

use vstd::prelude::*;

verus! {

/// One plain value held by a preference field.
#[derive(Clone, PartialEq, Eq, Debug)]
pub enum FieldValue {
    /// An unsigned integer.
    UInt(u64),
    /// A boolean.
    Bool(bool),
    /// A piece of text. Valid when every character is printable ASCII other
    /// than the double quote and the backslash, so that the record can frame
    /// it with quotes and no escaping.
    Text(String),
    /// The name of one alternative of an enumerated choice. Valid when it is
    /// an identifier.
    Choice(String),
}

/// The mathematical model of a [`FieldValue`]: text is a sequence of
/// characters.
pub enum ValModel {
    UInt(u64),
    Bool(bool),
    Text(Seq<char>),
    Choice(Seq<char>),
}

impl View for FieldValue {
    type V = ValModel;

    open spec fn view(&self) -> ValModel {
        match self {
            FieldValue::UInt(n) => ValModel::UInt(*n),
            FieldValue::Bool(b) => ValModel::Bool(*b),
            FieldValue::Text(s) => ValModel::Text(s@),
            FieldValue::Choice(s) => ValModel::Choice(s@),
        }
    }
}

/// One named field of a preference set.
#[derive(Clone, PartialEq, Eq, Debug)]
pub struct PrefField {
    /// The field's name, the key under which it stands in the record.
    pub name: String,
    /// The field's current value.
    pub value: FieldValue,
}

/// The mathematical model of a [`PrefField`].
pub struct FieldModel {
    pub name: Seq<char>,
    pub value: ValModel,
}

impl View for PrefField {
    type V = FieldModel;

    open spec fn view(&self) -> FieldModel {
        FieldModel { name: self.name@, value: self.value@ }
    }
}

/// An ordered collection of named preference fields, treated as one
/// persistence unit. The order is the declaration order of the fields and is
/// the order in which the record lists them.
#[derive(Clone, PartialEq, Eq, Debug)]
pub struct PreferenceSet {
    /// The fields, in declaration order.
    pub fields: Vec<PrefField>,
}

/// The model of a sequence of fields: each field's model, in order.
pub open spec fn fields_model(s: Seq<PrefField>) -> Seq<FieldModel> {
    s.map_values(|f: PrefField| f@)
}

impl View for PreferenceSet {
    type V = Seq<FieldModel>;

    open spec fn view(&self) -> Seq<FieldModel> {
        fields_model(self.fields@)
    }
}

/// An exact copy of one value.
pub fn clone_value(v: &FieldValue) -> (r: FieldValue)
    ensures
        r == *v,
{
    match v {
        FieldValue::UInt(n) => FieldValue::UInt(*n),
        FieldValue::Bool(b) => FieldValue::Bool(*b),
        FieldValue::Text(s) => FieldValue::Text(s.clone()),
        FieldValue::Choice(s) => FieldValue::Choice(s.clone()),
    }
}

/// An exact copy of one field.
pub fn clone_field(f: &PrefField) -> (r: PrefField)
    ensures
        r == *f,
{
    PrefField { name: f.name.clone(), value: clone_value(&f.value) }
}

/// An exact copy of a field list.
pub fn clone_fields(fs: &Vec<PrefField>) -> (r: Vec<PrefField>)
    ensures
        r@ == fs@,
{
    let mut out: Vec<PrefField> = Vec::new();
    let n = fs.len();
    let mut i: usize = 0;
    while i < n
        invariant
            i <= n,
            n == fs.len(),
            out@ == fs@.take(i as int),
        decreases n - i,
    {
        out.push(clone_field(&fs[i]));
        proof {
            assert(fs@.take(i as int).push(fs@[i as int]) =~= fs@.take(i + 1));
        }
        i += 1;
    }
    proof {
        assert(fs@.take(n as int) =~= fs@);
    }
    out
}

/// A copy of a preference set, equal to it in the model.
pub fn clone_set(v: &PreferenceSet) -> (r: PreferenceSet)
    ensures
        r@ == v@,
{
    PreferenceSet { fields: clone_fields(&v.fields) }
}

/// A decimal digit.
pub open spec fn is_digit(c: char) -> bool {
    48 <= c as u32 <= 57
}

/// A character that may start an identifier: an ASCII letter or underscore.
pub open spec fn is_ident_start(c: char) -> bool {
    (65 <= c as u32 <= 90) || (97 <= c as u32 <= 122) || c == '_'
}

/// A character that may continue an identifier.
pub open spec fn is_ident_char(c: char) -> bool {
    is_ident_start(c) || is_digit(c)
}

/// An identifier: nonempty, a letter or underscore first, letters, digits and
/// underscores after.
pub open spec fn is_ident(s: Seq<char>) -> bool {
    &&& s.len() > 0
    &&& is_ident_start(s[0])
    &&& forall|i: int| 1 <= i < s.len() ==> is_ident_char(#[trigger] s[i])
}

/// A character that may stand inside a text value: printable ASCII, but not
/// the double quote and not the backslash.
pub open spec fn text_char_ok(c: char) -> bool {
    32 <= c as u32 <= 126 && c != '"' && c != '\\'
}

/// The content of a valid text value.
pub open spec fn text_ok(s: Seq<char>) -> bool {
    forall|i: int| 0 <= i < s.len() ==> text_char_ok(#[trigger] s[i])
}

/// A value the record format can hold.
pub open spec fn val_wf(v: ValModel) -> bool {
    match v {
        ValModel::UInt(_) => true,
        ValModel::Bool(_) => true,
        ValModel::Text(s) => text_ok(s),
        ValModel::Choice(s) => is_ident(s),
    }
}

/// A field the record format can hold: an identifier as its name, a valid
/// value.
pub open spec fn field_wf(f: FieldModel) -> bool {
    is_ident(f.name) && val_wf(f.value)
}

/// No two fields share a name.
pub open spec fn names_distinct(fs: Seq<FieldModel>) -> bool {
    forall|i: int, j: int| 0 <= i < j < fs.len() ==> fs[i].name != fs[j].name
}

/// A well-formed preference set: every field well-formed, names pairwise
/// distinct.
pub open spec fn set_wf(fs: Seq<FieldModel>) -> bool {
    (forall|i: int| 0 <= i < fs.len() ==> field_wf(#[trigger] fs[i])) && names_distinct(fs)
}

/// Two values of the same kind: a field's kind is fixed when the set is
/// declared, only its payload moves.
pub open spec fn same_kind(a: ValModel, b: ValModel) -> bool {
    match (a, b) {
        (ValModel::UInt(_), ValModel::UInt(_)) => true,
        (ValModel::Bool(_), ValModel::Bool(_)) => true,
        (ValModel::Text(_), ValModel::Text(_)) => true,
        (ValModel::Choice(_), ValModel::Choice(_)) => true,
        _ => false,
    }
}

/// Every value is of its own kind.
pub proof fn lemma_same_kind_refl(v: ValModel)
    ensures
        same_kind(v, v),
{
}

/// A set that instantiates a schema: same fields in the same order, each
/// holding a value of its declared kind.
pub open spec fn matches_schema(v: Seq<FieldModel>, d: Seq<FieldModel>) -> bool {
    &&& v.len() == d.len()
    &&& forall|i: int| 0 <= i < v.len() ==> (#[trigger] v[i]).name == d[i].name
    &&& forall|i: int| 0 <= i < v.len() ==> same_kind((#[trigger] v[i]).value, d[i].value)
}

/// Whether `c` may start an identifier.
pub fn ident_start_char(c: char) -> (r: bool)
    ensures
        r == is_ident_start(c),
{
    let u = c as u32;
    (65 <= u && u <= 90) || (97 <= u && u <= 122) || c == '_'
}

/// Whether `c` is a decimal digit.
pub fn digit_char(c: char) -> (r: bool)
    ensures
        r == is_digit(c),
{
    let u = c as u32;
    48 <= u && u <= 57
}

/// Whether `c` may continue an identifier.
pub fn ident_char(c: char) -> (r: bool)
    ensures
        r == is_ident_char(c),
{
    ident_start_char(c) || digit_char(c)
}

/// Whether `c` may stand inside a text value.
pub fn text_char(c: char) -> (r: bool)
    ensures
        r == text_char_ok(c),
{
    let u = c as u32;
    32 <= u && u <= 126 && c != '"' && c != '\\'
}

} // verus!
