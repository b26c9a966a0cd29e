//! The record codec: turning a preference set into its durable textual
//! record.
//!
//! The record is a pretty, field-name-keyed text block, one field per line:
//!
//! ```text
//! (
//!     volume: 60,
//!     difficulty: Normal,
//! )
//! ```
//!
//! Unsigned integers print in decimal, booleans as `true`/`false`, text in
//! double quotes (valid text holds neither quotes nor backslashes, so no
//! escaping is needed), and choices as their bare identifier.

use vstd::prelude::*;

use crate::value::{
    field_wf, is_ident, is_ident_char, is_ident_start, names_distinct, set_wf, text_char_ok,
    text_ok, val_wf, FieldModel, FieldValue, PreferenceSet, ValModel,
};
use crate::value::{ident_char, ident_start_char, text_char};

verus! {

/// The character of one decimal digit value.
pub open spec fn dec_digit_char(d: nat) -> char {
    if d == 0 {
        '0'
    } else if d == 1 {
        '1'
    } else if d == 2 {
        '2'
    } else if d == 3 {
        '3'
    } else if d == 4 {
        '4'
    } else if d == 5 {
        '5'
    } else if d == 6 {
        '6'
    } else if d == 7 {
        '7'
    } else if d == 8 {
        '8'
    } else {
        '9'
    }
}

/// The decimal digits of `n`, most significant first, without leading zeros.
pub open spec fn dec_digits(n: nat) -> Seq<char>
    decreases n,
{
    if n < 10 {
        seq![dec_digit_char(n)]
    } else {
        dec_digits(n / 10).push(dec_digit_char(n % 10))
    }
}

/// The error returned when a set cannot be encoded: some field name is not an
/// identifier, two fields share a name, or a value holds characters the
/// record format cannot carry.
#[derive(Clone, Copy, PartialEq, Eq, Debug)]
pub struct EncodeError;

/// The text of one value.
pub open spec fn ser_value(v: ValModel) -> Seq<char> {
    match v {
        ValModel::UInt(n) => dec_digits(n as nat),
        ValModel::Bool(b) => if b {
            seq!['t', 'r', 'u', 'e']
        } else {
            seq!['f', 'a', 'l', 's', 'e']
        },
        ValModel::Text(s) => seq!['"'] + s + seq!['"'],
        ValModel::Choice(s) => s,
    }
}

/// The text of one field's line, without its terminating newline: four spaces
/// of indent, the name, a colon and a space, the value, a comma.
pub open spec fn entry_line(f: FieldModel) -> Seq<char> {
    seq![' ', ' ', ' ', ' '] + f.name + seq![':', ' '] + ser_value(f.value) + seq![',']
}

/// The text of the fields' lines, each closed by a newline.
pub open spec fn ser_entries(fs: Seq<FieldModel>) -> Seq<char>
    decreases fs.len(),
{
    if fs.len() == 0 {
        Seq::empty()
    } else {
        entry_line(fs[0]) + seq!['\n'] + ser_entries(fs.skip(1))
    }
}

/// The whole record: an opening parenthesis on its own line, the field lines,
/// a closing parenthesis.
pub open spec fn spec_serialize(fs: Seq<FieldModel>) -> Seq<char> {
    seq!['(', '\n'] + ser_entries(fs) + seq![')']
}

/// Serializing a concatenation of field lists concatenates their lines.
pub proof fn lemma_ser_entries_append(a: Seq<FieldModel>, b: Seq<FieldModel>)
    ensures
        ser_entries(a + b) == ser_entries(a) + ser_entries(b),
    decreases a.len(),
{
    if a.len() == 0 {
        assert(a + b =~= b);
        assert(ser_entries(a) + ser_entries(b) =~= ser_entries(b));
    } else {
        lemma_ser_entries_append(a.skip(1), b);
        assert((a + b).skip(1) =~= a.skip(1) + b);
        assert((a + b)[0] == a[0]);
        assert(entry_line(a[0]) + seq!['\n'] + (ser_entries(a.skip(1)) + ser_entries(b)) =~= (
        entry_line(a[0]) + seq!['\n'] + ser_entries(a.skip(1))) + ser_entries(b));
    }
}

/// Serializing one field yields its line and a newline.
pub proof fn lemma_ser_entries_one(f: FieldModel)
    ensures
        ser_entries(seq![f]) == entry_line(f) + seq!['\n'],
{
    assert(seq![f].skip(1) =~= Seq::<FieldModel>::empty());
    assert(ser_entries(seq![f].skip(1)) == Seq::<char>::empty());
    assert(seq![f][0] == f);
    assert(ser_entries(seq![f]) =~= entry_line(f) + seq!['\n']);
}

/// Relies on `String::push`: appends one character at the end of the string.
#[verifier::external_body]
pub(crate) fn push_char(s: &mut String, c: char)
    ensures
        final(s)@ == old(s)@.push(c),
{
    s.push(c)
}

/// Appends every character of `t` to `out`.
fn write_str(out: &mut String, t: &str)
    ensures
        final(out)@ == old(out)@ + t@,
{
    let n = t.unicode_len();
    let mut i: usize = 0;
    while i < n
        invariant
            i <= n,
            n == t@.len(),
            out@ == old(out)@ + t@.take(i as int),
        decreases n - i,
    {
        let c = t.get_char(i);
        push_char(out, c);
        proof {
            assert((old(out)@ + t@.take(i as int)).push(t@[i as int]) =~= old(out)@ + t@.take(
                i + 1,
            ));
        }
        i += 1;
    }
    proof {
        assert(old(out)@ + t@.take(n as int) =~= old(out)@ + t@);
    }
}

/// The character of one decimal digit.
fn digit_to_char(d: u64) -> (c: char)
    requires
        d < 10,
    ensures
        c == dec_digit_char(d as nat),
{
    if d == 0 {
        '0'
    } else if d == 1 {
        '1'
    } else if d == 2 {
        '2'
    } else if d == 3 {
        '3'
    } else if d == 4 {
        '4'
    } else if d == 5 {
        '5'
    } else if d == 6 {
        '6'
    } else if d == 7 {
        '7'
    } else if d == 8 {
        '8'
    } else {
        '9'
    }
}

/// Appends the decimal digits of `n` to `out`.
fn write_u64(out: &mut String, n: u64)
    ensures
        final(out)@ == old(out)@ + dec_digits(n as nat),
    decreases n,
{
    if n < 10 {
        let c = digit_to_char(n);
        push_char(out, c);
        proof {
            assert(old(out)@.push(dec_digit_char(n as nat)) =~= old(out)@ + dec_digits(n as nat));
        }
    } else {
        write_u64(out, n / 10);
        let c = digit_to_char(n % 10);
        push_char(out, c);
        proof {
            assert((old(out)@ + dec_digits((n / 10) as nat)).push(dec_digit_char((n % 10) as nat))
                =~= old(out)@ + dec_digits(n as nat));
        }
    }
}

/// Appends the text of one value to `out`.
fn write_value(out: &mut String, v: &FieldValue)
    ensures
        final(out)@ == old(out)@ + ser_value(v@),
{
    match v {
        FieldValue::UInt(n) => {
            write_u64(out, *n);
        },
        FieldValue::Bool(b) => {
            if *b {
                write_str(out, "true");
                proof {
                    reveal_strlit("true");
                    assert("true"@ =~= seq!['t', 'r', 'u', 'e']);
                }
            } else {
                write_str(out, "false");
                proof {
                    reveal_strlit("false");
                    assert("false"@ =~= seq!['f', 'a', 'l', 's', 'e']);
                }
            }
        },
        FieldValue::Text(s) => {
            push_char(out, '"');
            write_str(out, s.as_str());
            push_char(out, '"');
            proof {
                assert((old(out)@.push('"') + s@).push('"') =~= old(out)@ + (seq!['"'] + s@
                    + seq!['"']));
            }
        },
        FieldValue::Choice(s) => {
            write_str(out, s.as_str());
        },
    }
}

/// Whether the characters of `t` form an identifier.
pub fn ident_check(t: &str) -> (r: bool)
    ensures
        r == is_ident(t@),
{
    let n = t.unicode_len();
    if n == 0 {
        return false;
    }
    if !ident_start_char(t.get_char(0)) {
        return false;
    }
    let mut i: usize = 1;
    while i < n
        invariant
            1 <= i <= n,
            n == t@.len(),
            is_ident_start(t@[0]),
            forall|j: int| 1 <= j < i ==> is_ident_char(#[trigger] t@[j]),
        decreases n - i,
    {
        if !ident_char(t.get_char(i)) {
            return false;
        }
        i += 1;
    }
    true
}

/// Whether the characters of `t` may stand inside a text value.
pub fn text_check(t: &str) -> (r: bool)
    ensures
        r == text_ok(t@),
{
    let n = t.unicode_len();
    let mut i: usize = 0;
    while i < n
        invariant
            i <= n,
            n == t@.len(),
            forall|j: int| 0 <= j < i ==> text_char_ok(#[trigger] t@[j]),
        decreases n - i,
    {
        if !text_char(t.get_char(i)) {
            return false;
        }
        i += 1;
    }
    true
}

/// Whether the record format can carry `v`.
pub fn value_check(v: &FieldValue) -> (r: bool)
    ensures
        r == val_wf(v@),
{
    match v {
        FieldValue::UInt(_) => true,
        FieldValue::Bool(_) => true,
        FieldValue::Text(s) => text_check(s.as_str()),
        FieldValue::Choice(s) => ident_check(s.as_str()),
    }
}

/// Whether `v` is well-formed: identifier names, pairwise distinct, every
/// value one the record format can carry.
pub fn wf_check(v: &PreferenceSet) -> (r: bool)
    ensures
        r == set_wf(v@),
{
    let n = v.fields.len();
    let mut i: usize = 0;
    while i < n
        invariant
            i <= n,
            n == v.fields.len(),
            forall|j: int| 0 <= j < i ==> field_wf(#[trigger] v@[j]),
        decreases n - i,
    {
        let f = &v.fields[i];
        assert(v@[i as int] == v.fields@[i as int]@);
        if !ident_check(f.name.as_str()) {
            assert(!field_wf(v@[i as int]));
            return false;
        }
        if !value_check(&f.value) {
            assert(!field_wf(v@[i as int]));
            return false;
        }
        assert(field_wf(v@[i as int]));
        i += 1;
    }
    let mut a: usize = 0;
    while a < n
        invariant
            a <= n,
            n == v.fields.len(),
            forall|j: int| 0 <= j < n ==> field_wf(#[trigger] v@[j]),
            forall|p: int, q: int| 0 <= p < q < n && p < a ==> v@[p].name != v@[q].name,
        decreases n - a,
    {
        let mut b: usize = a + 1;
        while b < n
            invariant
                a < b,
                b <= n,
                a < n,
                n == v.fields.len(),
                forall|q: int| a < q < b ==> v@[a as int].name != v@[q].name,
            decreases n - b,
        {
            if v.fields[a].name == v.fields[b].name {
                assert(v@[a as int] == v.fields@[a as int]@);
                assert(v@[b as int] == v.fields@[b as int]@);
                assert(v@[a as int].name == v@[b as int].name);
                assert(!names_distinct(v@));
                return false;
            }
            b += 1;
        }
        a += 1;
    }
    true
}

/// Serializes `v` into its record text.
///
/// Succeeds exactly on well-formed sets; the record is then
/// [`spec_serialize`] of the set.
pub fn serialize(v: &PreferenceSet) -> (r: Result<String, EncodeError>)
    ensures
        match r {
            Ok(text) => set_wf(v@) && text@ == spec_serialize(v@),
            Err(_) => !set_wf(v@),
        },
{
    if !wf_check(v) {
        return Err(EncodeError);
    }
    let mut out = String::new();
    push_char(&mut out, '(');
    push_char(&mut out, '\n');
    proof {
        assert(out@ =~= seq!['(', '\n'] + ser_entries(v@.take(0)));
    }
    let n = v.fields.len();
    let mut i: usize = 0;
    while i < n
        invariant
            i <= n,
            n == v.fields.len(),
            out@ == seq!['(', '\n'] + ser_entries(v@.take(i as int)),
        decreases n - i,
    {
        let ghost prev = out@;
        let f = &v.fields[i];
        push_char(&mut out, ' ');
        push_char(&mut out, ' ');
        push_char(&mut out, ' ');
        push_char(&mut out, ' ');
        write_str(&mut out, f.name.as_str());
        push_char(&mut out, ':');
        push_char(&mut out, ' ');
        write_value(&mut out, &f.value);
        push_char(&mut out, ',');
        push_char(&mut out, '\n');
        proof {
            assert(out@ =~= prev + entry_line(v@[i as int]) + seq!['\n']);
            assert(v@.take(i + 1) =~= v@.take(i as int) + seq![v@[i as int]]);
            lemma_ser_entries_append(v@.take(i as int), seq![v@[i as int]]);
            lemma_ser_entries_one(v@[i as int]);
            assert(out@ =~= seq!['(', '\n'] + ser_entries(v@.take(i + 1)));
        }
        i += 1;
    }
    push_char(&mut out, ')');
    proof {
        assert(v@.take(n as int) =~= v@);
        assert(out@ =~= spec_serialize(v@));
    }
    Ok(out)
}

} // verus!
