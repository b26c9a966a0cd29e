//! Parsing a record back into a preference set.
//!
//! Parsing is schema-directed and lenient where leniency cannot corrupt the
//! set: the frame of the record (the parenthesis lines, and for each entry an
//! identifier, a colon and a trailing comma) must be intact or the whole
//! record is rejected; within an intact frame, an entry whose name no field
//! of the set carries is ignored, and so is an entry whose value does not
//! parse at the kind its field was declared with — those fields keep the
//! values they had, which is the default-then-overlay rule. Entries may be
//! indented by any number of spaces, and any number of spaces may follow the
//! colon; entries apply in order, so of two entries naming the same field the
//! later wins.

use vstd::prelude::*;

use crate::codec::push_char;
use crate::value::{
    clone_fields, digit_char, fields_model, ident_char, ident_start_char, is_digit, is_ident,
    is_ident_char, is_ident_start, text_char, text_char_ok, text_ok, FieldModel, FieldValue,
    PrefField, PreferenceSet, ValModel,
};

verus! {

/// The error returned when a record's frame is broken: no opening line, no
/// closing line, or an entry without identifier, colon or trailing comma.
#[derive(Clone, Copy, PartialEq, Eq, Debug)]
pub struct DecodeError;

/// The value of one decimal digit character.
pub open spec fn dval(c: char) -> nat {
    (c as u32 - 48) as nat
}

/// Every character a decimal digit.
pub open spec fn all_digits(s: Seq<char>) -> bool {
    forall|i: int| 0 <= i < s.len() ==> is_digit(#[trigger] s[i])
}

/// The number the digit characters of `s` denote.
pub open spec fn dec_val(s: Seq<char>) -> nat
    decreases s.len(),
{
    if s.len() == 0 {
        0
    } else {
        dec_val(s.drop_last()) * 10 + dval(s.last())
    }
}

/// Parses an unsigned decimal number: digits only, no leading zero, a value
/// that fits in a `u64`.
pub open spec fn parse_dec(s: Seq<char>) -> Option<u64> {
    if s.len() > 0 && all_digits(s) && (s[0] == '0' ==> s.len() == 1) && dec_val(s) <= u64::MAX {
        Some(dec_val(s) as u64)
    } else {
        None
    }
}

/// Parses one value at the kind `kind` was declared with.
pub open spec fn parse_value(kind: ValModel, s: Seq<char>) -> Option<ValModel> {
    match kind {
        ValModel::UInt(_) => match parse_dec(s) {
            Some(n) => Some(ValModel::UInt(n)),
            None => None,
        },
        ValModel::Bool(_) => if s == seq!['t', 'r', 'u', 'e'] {
            Some(ValModel::Bool(true))
        } else if s == seq!['f', 'a', 'l', 's', 'e'] {
            Some(ValModel::Bool(false))
        } else {
            None
        },
        ValModel::Text(_) => if s.len() >= 2 && s[0] == '"' && s[s.len() - 1] == '"' && text_ok(
            s.subrange(1, s.len() - 1),
        ) {
            Some(ValModel::Text(s.subrange(1, s.len() - 1)))
        } else {
            None
        },
        ValModel::Choice(_) => if is_ident(s) {
            Some(ValModel::Choice(s))
        } else {
            None
        },
    }
}

/// The number of spaces `s` starts with.
pub open spec fn sp_count(s: Seq<char>) -> int
    decreases s.len(),
{
    if s.len() > 0 && s[0] == ' ' {
        1 + sp_count(s.skip(1))
    } else {
        0
    }
}

/// `sp_count` names the first index that does not hold a space.
pub proof fn lemma_sp_count_from(s: Seq<char>, j: int)
    requires
        0 <= j <= s.len(),
        forall|k: int| 0 <= k < j ==> #[trigger] s[k] == ' ',
        j == s.len() || s[j] != ' ',
    ensures
        sp_count(s) == j,
    decreases s.len(),
{
    if j == 0 {
    } else {
        assert(s[0] == ' ');
        assert forall|k: int| 0 <= k < j - 1 implies #[trigger] s.skip(1)[k] == ' ' by {
            assert(s.skip(1)[k] == s[k + 1]);
        }
        if j - 1 < s.skip(1).len() {
            assert(s.skip(1)[j - 1] == s[j]);
        }
        lemma_sp_count_from(s.skip(1), j - 1);
    }
}

/// The length of the identifier-character run `s` starts with.
pub open spec fn ident_run(s: Seq<char>) -> int
    decreases s.len(),
{
    if s.len() > 0 && is_ident_char(s[0]) {
        1 + ident_run(s.skip(1))
    } else {
        0
    }
}

/// `ident_run` names the first index that does not hold an identifier
/// character.
pub proof fn lemma_ident_run_from(s: Seq<char>, j: int)
    requires
        0 <= j <= s.len(),
        forall|k: int| 0 <= k < j ==> is_ident_char(#[trigger] s[k]),
        j == s.len() || !is_ident_char(s[j]),
    ensures
        ident_run(s) == j,
    decreases s.len(),
{
    if j == 0 {
    } else {
        assert(is_ident_char(s[0]));
        assert forall|k: int| 0 <= k < j - 1 implies is_ident_char(#[trigger] s.skip(1)[k]) by {
            assert(s.skip(1)[k] == s[k + 1]);
        }
        if j - 1 < s.skip(1).len() {
            assert(s.skip(1)[j - 1] == s[j]);
        }
        lemma_ident_run_from(s.skip(1), j - 1);
    }
}

/// The index of the first newline of `s`, or `-1` when `s` holds none.
pub open spec fn first_nl(s: Seq<char>) -> int
    decreases s.len(),
{
    if s.len() == 0 {
        -1
    } else if s[0] == '\n' {
        0
    } else {
        let r = first_nl(s.skip(1));
        if r < 0 {
            -1
        } else {
            r + 1
        }
    }
}

/// `first_nl` names the first index that holds a newline.
pub proof fn lemma_first_nl_from(s: Seq<char>, j: int)
    requires
        0 <= j < s.len(),
        s[j] == '\n',
        forall|k: int| 0 <= k < j ==> #[trigger] s[k] != '\n',
    ensures
        first_nl(s) == j,
    decreases s.len(),
{
    if j == 0 {
    } else {
        assert(s[0] != '\n');
        assert forall|k: int| 0 <= k < j - 1 implies #[trigger] s.skip(1)[k] != '\n' by {
            assert(s.skip(1)[k] == s[k + 1]);
        }
        assert(s.skip(1)[j - 1] == s[j]);
        lemma_first_nl_from(s.skip(1), j - 1);
    }
}

/// Where `s` holds no newline, `first_nl` says so.
pub proof fn lemma_first_nl_none(s: Seq<char>)
    requires
        forall|k: int| 0 <= k < s.len() ==> #[trigger] s[k] != '\n',
    ensures
        first_nl(s) == -1,
    decreases s.len(),
{
    if s.len() > 0 {
        assert forall|k: int| 0 <= k < s.skip(1).len() implies #[trigger] s.skip(1)[k] != '\n' by {
            assert(s.skip(1)[k] == s[k + 1]);
        }
        lemma_first_nl_none(s.skip(1));
    }
}

/// Bounds of `first_nl`: a found newline lies within `s`, is a newline, and
/// is the first one.
pub proof fn lemma_first_nl_bounds(s: Seq<char>)
    ensures
        first_nl(s) == -1 || (0 <= first_nl(s) < s.len() && s[first_nl(s)] == '\n'),
    decreases s.len(),
{
    if s.len() > 0 && s[0] != '\n' {
        lemma_first_nl_bounds(s.skip(1));
        if first_nl(s.skip(1)) >= 0 {
            assert(s.skip(1)[first_nl(s.skip(1))] == s[first_nl(s.skip(1)) + 1]);
        }
    }
}

/// The index of the field of `fs` named `name`, first match, or `-1`.
pub open spec fn find_name(fs: Seq<FieldModel>, name: Seq<char>) -> int
    decreases fs.len(),
{
    if fs.len() == 0 {
        -1
    } else if fs[0].name == name {
        0
    } else {
        let r = find_name(fs.skip(1), name);
        if r < 0 {
            -1
        } else {
            r + 1
        }
    }
}

/// `find_name` names the first field carrying `name`, scanned from the
/// front.
pub proof fn lemma_find_name_from(fs: Seq<FieldModel>, name: Seq<char>, j: int)
    requires
        0 <= j < fs.len(),
        fs[j].name == name,
        forall|k: int| 0 <= k < j ==> (#[trigger] fs[k]).name != name,
    ensures
        find_name(fs, name) == j,
    decreases fs.len(),
{
    if j == 0 {
    } else {
        assert(fs[0].name != name);
        assert forall|k: int| 0 <= k < j - 1 implies (#[trigger] fs.skip(1)[k]).name != name by {
            assert(fs.skip(1)[k] == fs[k + 1]);
        }
        assert(fs.skip(1)[j - 1] == fs[j]);
        lemma_find_name_from(fs.skip(1), name, j - 1);
    }
}

/// Where no field of `fs` carries `name`, `find_name` says so.
pub proof fn lemma_find_name_none(fs: Seq<FieldModel>, name: Seq<char>)
    requires
        forall|k: int| 0 <= k < fs.len() ==> (#[trigger] fs[k]).name != name,
    ensures
        find_name(fs, name) == -1,
    decreases fs.len(),
{
    if fs.len() > 0 {
        assert forall|k: int| 0 <= k < fs.skip(1).len() implies (#[trigger] fs.skip(1)[k]).name
            != name by {
            assert(fs.skip(1)[k] == fs[k + 1]);
        }
        lemma_find_name_none(fs.skip(1), name);
    }
}

/// Bounds and meaning of `find_name`.
pub proof fn lemma_find_name_bounds(fs: Seq<FieldModel>, name: Seq<char>)
    ensures
        find_name(fs, name) == -1 || (0 <= find_name(fs, name) < fs.len() && fs[find_name(
            fs,
            name,
        )].name == name),
    decreases fs.len(),
{
    if fs.len() > 0 && fs[0].name != name {
        lemma_find_name_bounds(fs.skip(1), name);
        if find_name(fs.skip(1), name) >= 0 {
            assert(fs.skip(1)[find_name(fs.skip(1), name)] == fs[find_name(fs.skip(1), name) + 1]);
        }
    }
}

/// Parses one entry line (without its newline) against the fields parsed so
/// far. `None` is a broken frame; an unknown name or an ill-kinded value
/// leaves `acc` as it is.
pub open spec fn parse_entry(acc: Seq<FieldModel>, line: Seq<char>) -> Option<Seq<FieldModel>> {
    let rest = line.skip(sp_count(line));
    if rest.len() > 0 && is_ident_start(rest[0]) {
        let k = 1 + ident_run(rest.skip(1));
        let name = rest.take(k);
        let after = rest.skip(k);
        if after.len() > 0 && after[0] == ':' {
            let arg = after.skip(1);
            let vreg = arg.skip(sp_count(arg));
            if vreg.len() > 0 && vreg[vreg.len() - 1] == ',' {
                let vt = vreg.take(vreg.len() - 1);
                let i = find_name(acc, name);
                if i < 0 {
                    Some(acc)
                } else {
                    match parse_value(acc[i].value, vt) {
                        Some(w) => Some(
                            acc.update(i, FieldModel { name: acc[i].name, value: w }),
                        ),
                        None => Some(acc),
                    }
                }
            } else {
                None
            }
        } else {
            None
        }
    } else {
        None
    }
}

/// Parses the entry lines and the closing parenthesis line of a record,
/// overlaying each entry on `acc` in order.
pub open spec fn parse_entries(acc: Seq<FieldModel>, s: Seq<char>) -> Option<Seq<FieldModel>>
    decreases s.len(),
    via parse_entries_dec
{
    if s == seq![')'] || s == seq![')', '\n'] {
        Some(acc)
    } else {
        let i = first_nl(s);
        if i < 0 {
            None
        } else {
            match parse_entry(acc, s.take(i)) {
                Some(acc2) => parse_entries(acc2, s.skip(i + 1)),
                None => None,
            }
        }
    }
}

#[via_fn]
proof fn parse_entries_dec(acc: Seq<FieldModel>, s: Seq<char>) {
    lemma_first_nl_bounds(s);
}

/// Parses a whole record against the defaults `d`: the opening line, the
/// entries, the closing line. `None` is a broken frame; the fields of `d`
/// that no entry names, or whose entries are ill-kinded, keep their
/// defaults.
pub open spec fn spec_deserialize(d: Seq<FieldModel>, s: Seq<char>) -> Option<Seq<FieldModel>> {
    if s.len() >= 2 && s[0] == '(' && s[1] == '\n' {
        parse_entries(d, s.skip(2))
    } else {
        None
    }
}

/// A digit string prefix denotes no more than the whole string.
proof fn lemma_dec_val_prefix(s: Seq<char>, i: int)
    requires
        0 <= i <= s.len(),
    ensures
        dec_val(s.take(i)) <= dec_val(s),
    decreases s.len(),
{
    if i < s.len() {
        assert(s.drop_last().take(i) =~= s.take(i));
        lemma_dec_val_prefix(s.drop_last(), i);
    } else {
        assert(s.take(i) =~= s);
    }
}

/// Reading one more digit multiplies by ten and adds it.
proof fn lemma_dec_val_step(s: Seq<char>, i: int)
    requires
        0 <= i < s.len(),
    ensures
        dec_val(s.take(i + 1)) == dec_val(s.take(i)) * 10 + dval(s[i]),
{
    assert(s.take(i + 1).drop_last() =~= s.take(i));
    assert(s.take(i + 1).last() == s[i]);
}

/// The characters of `t`, one by one.
fn str_chars(t: &str) -> (r: Vec<char>)
    ensures
        r@ == t@,
{
    let n = t.unicode_len();
    let mut out: Vec<char> = Vec::new();
    let mut i: usize = 0;
    while i < n
        invariant
            i <= n,
            n == t@.len(),
            out@ == t@.take(i as int),
        decreases n - i,
    {
        out.push(t.get_char(i));
        proof {
            assert(t@.take(i as int).push(t@[i as int]) =~= t@.take(i + 1));
        }
        i += 1;
    }
    proof {
        assert(t@.take(n as int) =~= t@);
    }
    out
}

/// A copy of the characters of `cs` between `s` and `e`.
fn region_chars(cs: &Vec<char>, s: usize, e: usize) -> (r: Vec<char>)
    requires
        s <= e <= cs@.len(),
    ensures
        r@ == cs@.subrange(s as int, e as int),
{
    let mut out: Vec<char> = Vec::new();
    let mut i: usize = s;
    while i < e
        invariant
            s <= i <= e,
            e <= cs@.len(),
            out@ == cs@.subrange(s as int, i as int),
        decreases e - i,
    {
        out.push(cs[i]);
        proof {
            assert(cs@.subrange(s as int, i as int).push(cs@[i as int]) =~= cs@.subrange(
                s as int,
                i + 1,
            ));
        }
        i += 1;
    }
    out
}

/// The characters of `cs` between `s` and `e`, as a string.
fn region_string(cs: &Vec<char>, s: usize, e: usize) -> (r: String)
    requires
        s <= e <= cs@.len(),
    ensures
        r@ == cs@.subrange(s as int, e as int),
{
    let mut out = String::new();
    let mut i: usize = s;
    while i < e
        invariant
            s <= i <= e,
            e <= cs@.len(),
            out@ == cs@.subrange(s as int, i as int),
        decreases e - i,
    {
        push_char(&mut out, cs[i]);
        proof {
            assert(cs@.subrange(s as int, i as int).push(cs@[i as int]) =~= cs@.subrange(
                s as int,
                i + 1,
            ));
        }
        i += 1;
    }
    out
}

/// Parses the digits between `s` and `e` as an unsigned decimal number.
fn parse_dec_region(cs: &Vec<char>, s: usize, e: usize) -> (r: Option<u64>)
    requires
        s <= e <= cs@.len(),
    ensures
        ({
            let sub = cs@.subrange(s as int, e as int);
            match r {
                Some(n) => parse_dec(sub) == Some(n),
                None => parse_dec(sub) is None,
            }
        }),
{
    let ghost sub = cs@.subrange(s as int, e as int);
    if e == s {
        return None;
    }
    proof {
        assert(sub[0] == cs@[s as int]);
    }
    if cs[s] == '0' && e - s > 1 {
        return None;
    }
    let mut acc: u64 = 0;
    let mut i: usize = s;
    while i < e
        invariant
            s <= i <= e,
            e <= cs@.len(),
            sub == cs@.subrange(s as int, e as int),
            forall|k: int| 0 <= k < i - s ==> is_digit(#[trigger] sub[k]),
            acc as nat == dec_val(sub.take(i - s)),
        decreases e - i,
    {
        let c = cs[i];
        proof {
            assert(sub[i - s] == cs@[i as int]);
        }
        if !digit_char(c) {
            proof {
                assert(!all_digits(sub));
            }
            return None;
        }
        let d: u64 = ((c as u32) - 48) as u64;
        proof {
            assert(dval(c) == d);
            lemma_dec_val_step(sub, i - s);
        }
        if acc > (u64::MAX - d) / 10 {
            proof {
                let q = ((u64::MAX - d) / 10) as int;
                assert(10 * q + ((u64::MAX - d) as int) % 10 == (u64::MAX - d) as int);
                assert(acc as int >= q + 1);
                assert((acc as int) * 10 >= (q + 1) * 10);
                assert(dec_val(sub.take(i - s + 1)) > u64::MAX);
                lemma_dec_val_prefix(sub, i - s + 1);
            }
            return None;
        }
        proof {
            let q = ((u64::MAX - d) / 10) as int;
            assert(10 * q + ((u64::MAX - d) as int) % 10 == (u64::MAX - d) as int);
            assert((acc as int) * 10 <= q * 10);
        }
        acc = acc * 10 + d;
        i += 1;
    }
    proof {
        assert(sub.take(e - s) =~= sub);
        assert(all_digits(sub));
    }
    Some(acc)
}

/// Whether the characters between `s` and `e` read `true`.
fn region_is_true(cs: &Vec<char>, s: usize, e: usize) -> (r: bool)
    requires
        s <= e <= cs@.len(),
    ensures
        r == (cs@.subrange(s as int, e as int) == seq!['t', 'r', 'u', 'e']),
{
    let ghost sub = cs@.subrange(s as int, e as int);
    if e - s != 4 {
        proof {
            assert(seq!['t', 'r', 'u', 'e'].len() == 4);
            assert(sub.len() == e - s);
        }
        return false;
    }
    let m = cs[s] == 't' && cs[s + 1] == 'r' && cs[s + 2] == 'u' && cs[s + 3] == 'e';
    proof {
        assert(sub[0] == cs@[s as int]);
        assert(sub[1] == cs@[s + 1]);
        assert(sub[2] == cs@[s + 2]);
        assert(sub[3] == cs@[s + 3]);
        if m {
            assert(sub =~= seq!['t', 'r', 'u', 'e']);
        }
        if sub == seq!['t', 'r', 'u', 'e'] {
            assert(sub[0] == 't' && sub[1] == 'r' && sub[2] == 'u' && sub[3] == 'e');
        }
    }
    m
}

/// Whether the characters between `s` and `e` read `false`.
fn region_is_false(cs: &Vec<char>, s: usize, e: usize) -> (r: bool)
    requires
        s <= e <= cs@.len(),
    ensures
        r == (cs@.subrange(s as int, e as int) == seq!['f', 'a', 'l', 's', 'e']),
{
    let ghost sub = cs@.subrange(s as int, e as int);
    if e - s != 5 {
        proof {
            assert(seq!['f', 'a', 'l', 's', 'e'].len() == 5);
            assert(sub.len() == e - s);
        }
        return false;
    }
    let m = cs[s] == 'f' && cs[s + 1] == 'a' && cs[s + 2] == 'l' && cs[s + 3] == 's' && cs[s + 4]
        == 'e';
    proof {
        assert(sub[0] == cs@[s as int]);
        assert(sub[1] == cs@[s + 1]);
        assert(sub[2] == cs@[s + 2]);
        assert(sub[3] == cs@[s + 3]);
        assert(sub[4] == cs@[s + 4]);
        if m {
            assert(sub =~= seq!['f', 'a', 'l', 's', 'e']);
        }
        if sub == seq!['f', 'a', 'l', 's', 'e'] {
            assert(sub[0] == 'f' && sub[1] == 'a' && sub[2] == 'l' && sub[3] == 's' && sub[4]
                == 'e');
        }
    }
    m
}

/// Parses the characters between `s` and `e` at the kind of `kind`.
fn parse_value_region(kind: &FieldValue, cs: &Vec<char>, s: usize, e: usize) -> (r: Option<
    FieldValue,
>)
    requires
        s <= e <= cs@.len(),
    ensures
        ({
            let sub = cs@.subrange(s as int, e as int);
            match r {
                Some(fv) => parse_value(kind@, sub) == Some(fv@),
                None => parse_value(kind@, sub) is None,
            }
        }),
{
    let ghost sub = cs@.subrange(s as int, e as int);
    match kind {
        FieldValue::UInt(_) => {
            match parse_dec_region(cs, s, e) {
                Some(n) => Some(FieldValue::UInt(n)),
                None => None,
            }
        },
        FieldValue::Bool(_) => {
            if region_is_true(cs, s, e) {
                Some(FieldValue::Bool(true))
            } else if region_is_false(cs, s, e) {
                Some(FieldValue::Bool(false))
            } else {
                None
            }
        },
        FieldValue::Text(_) => {
            if e - s < 2 {
                return None;
            }
            proof {
                assert(sub[0] == cs@[s as int]);
                assert(sub[sub.len() - 1] == cs@[e - 1]);
            }
            if cs[s] != '"' || cs[e - 1] != '"' {
                return None;
            }
            let ghost mid = sub.subrange(1, sub.len() - 1);
            proof {
                assert(mid =~= cs@.subrange(s + 1, e - 1));
            }
            let mut i: usize = s + 1;
            while i < e - 1
                invariant
                    kind@ is Text,
                    s + 1 <= i <= e - 1,
                    e <= cs@.len(),
                    s + 2 <= e,
                    sub == cs@.subrange(s as int, e as int),
                    mid == sub.subrange(1, sub.len() - 1),
                    forall|k: int| s + 1 <= k < i ==> text_char_ok(#[trigger] cs@[k]),
                decreases e - 1 - i,
            {
                if !text_char(cs[i]) {
                    proof {
                        assert(mid[i - s - 1] == cs@[i as int]);
                        assert(!text_ok(mid));
                    }
                    return None;
                }
                i += 1;
            }
            proof {
                assert forall|k: int| 0 <= k < mid.len() implies text_char_ok(
                    #[trigger] mid[k],
                ) by {
                    assert(mid[k] == cs@[s + 1 + k]);
                }
            }
            let st = region_string(cs, s + 1, e - 1);
            Some(FieldValue::Text(st))
        },
        FieldValue::Choice(_) => {
            if e == s {
                return None;
            }
            proof {
                assert(sub[0] == cs@[s as int]);
            }
            if !ident_start_char(cs[s]) {
                return None;
            }
            let mut i: usize = s + 1;
            while i < e
                invariant
                    kind@ is Choice,
                    s + 1 <= i <= e,
                    e <= cs@.len(),
                    s < e,
                    sub == cs@.subrange(s as int, e as int),
                    forall|k: int| s + 1 <= k < i ==> is_ident_char(#[trigger] cs@[k]),
                decreases e - i,
            {
                if !ident_char(cs[i]) {
                    proof {
                        assert(sub[i - s] == cs@[i as int]);
                        assert(!is_ident(sub));
                    }
                    return None;
                }
                i += 1;
            }
            proof {
                assert forall|k: int| 1 <= k < sub.len() implies is_ident_char(
                    #[trigger] sub[k],
                ) by {
                    assert(sub[k] == cs@[s + k]);
                }
                assert(is_ident(sub));
            }
            let st = region_string(cs, s, e);
            Some(FieldValue::Choice(st))
        },
    }
}

/// Whether `name` reads the same as the characters of `cs` between `s` and
/// `e`.
fn name_eq_region(name: &String, cs: &Vec<char>, s: usize, e: usize) -> (r: bool)
    requires
        s <= e <= cs@.len(),
    ensures
        r == (name@ == cs@.subrange(s as int, e as int)),
{
    let ghost sub = cs@.subrange(s as int, e as int);
    let t = name.as_str();
    let n = t.unicode_len();
    if n != e - s {
        return false;
    }
    let mut i: usize = 0;
    while i < n
        invariant
            i <= n,
            n == t@.len(),
            t@ == name@,
            n == e - s,
            s <= e <= cs@.len(),
            sub == cs@.subrange(s as int, e as int),
            forall|k: int| 0 <= k < i ==> #[trigger] name@[k] == sub[k],
        decreases n - i,
    {
        let c = t.get_char(i);
        proof {
            assert(sub[i as int] == cs@[s + i]);
        }
        if c != cs[s + i] {
            return false;
        }
        i += 1;
    }
    proof {
        assert(name@ =~= sub);
    }
    true
}

/// The first field of `fs` whose name reads as the characters of `cs`
/// between `s` and `e`.
fn find_field(fs: &Vec<PrefField>, cs: &Vec<char>, s: usize, e: usize) -> (r: Option<usize>)
    requires
        s <= e <= cs@.len(),
    ensures
        ({
            let name = cs@.subrange(s as int, e as int);
            match r {
                Some(i) => 0 <= i < fs@.len() && find_name(fields_model(fs@), name) == i,
                None => find_name(fields_model(fs@), name) == -1,
            }
        }),
{
    let ghost name = cs@.subrange(s as int, e as int);
    let ghost fm = fields_model(fs@);
    let n = fs.len();
    let mut i: usize = 0;
    while i < n
        invariant
            i <= n,
            n == fs@.len(),
            name == cs@.subrange(s as int, e as int),
            s <= e <= cs@.len(),
            fm == fields_model(fs@),
            forall|k: int| 0 <= k < i ==> (#[trigger] fm[k]).name != name,
        decreases n - i,
    {
        proof {
            assert(fm[i as int] == fs@[i as int]@);
        }
        if name_eq_region(&fs[i].name, cs, s, e) {
            proof {
                lemma_find_name_from(fm, name, i as int);
            }
            return Some(i);
        }
        i += 1;
    }
    proof {
        lemma_find_name_none(fm, name);
    }
    None
}

/// Applies one entry line to the fields parsed so far; `false` is a broken
/// frame.
fn parse_entry_exec(out: &mut Vec<PrefField>, line: &Vec<char>) -> (ok: bool)
    ensures
        ok == (parse_entry(fields_model(old(out)@), line@) is Some),
        ok ==> parse_entry(fields_model(old(out)@), line@) == Some(fields_model(final(out)@)),
{
    let n = line.len();
    let mut j: usize = 0;
    while j < n && line[j] == ' '
        invariant
            j <= n,
            n == line@.len(),
            forall|k: int| 0 <= k < j ==> #[trigger] line@[k] == ' ',
        decreases n - j,
    {
        j += 1;
    }
    proof {
        lemma_sp_count_from(line@, j as int);
    }
    let ghost rest = line@.skip(j as int);
    if j == n {
        return false;
    }
    proof {
        assert(rest[0] == line@[j as int]);
    }
    if !ident_start_char(line[j]) {
        return false;
    }
    let mut k: usize = j + 1;
    while k < n && ident_char(line[k])
        invariant
            j + 1 <= k <= n,
            n == line@.len(),
            forall|m: int| j + 1 <= m < k ==> is_ident_char(#[trigger] line@[m]),
        decreases n - k,
    {
        k += 1;
    }
    proof {
        assert forall|m: int| 0 <= m < k - j - 1 implies is_ident_char(
            #[trigger] rest.skip(1)[m],
        ) by {
            assert(rest.skip(1)[m] == line@[j + 1 + m]);
        }
        if k < n {
            assert(rest.skip(1)[k - j - 1] == line@[k as int]);
        }
        lemma_ident_run_from(rest.skip(1), k - j - 1);
    }
    let ghost name = rest.take(k - j);
    let ghost after = rest.skip(k - j);
    proof {
        assert(name =~= line@.subrange(j as int, k as int));
        assert(after =~= line@.skip(k as int));
    }
    if k == n {
        return false;
    }
    proof {
        assert(after[0] == line@[k as int]);
    }
    if line[k] != ':' {
        return false;
    }
    let ghost arg = after.skip(1);
    proof {
        assert(arg =~= line@.skip(k + 1));
    }
    let mut m: usize = k + 1;
    while m < n && line[m] == ' '
        invariant
            k + 1 <= m <= n,
            n == line@.len(),
            forall|q: int| k + 1 <= q < m ==> #[trigger] line@[q] == ' ',
        decreases n - m,
    {
        m += 1;
    }
    proof {
        assert forall|q: int| 0 <= q < m - k - 1 implies #[trigger] arg[q] == ' ' by {
            assert(arg[q] == line@[k + 1 + q]);
        }
        if m < n {
            assert(arg[m - k - 1] == line@[m as int]);
        }
        lemma_sp_count_from(arg, m - k - 1);
    }
    let ghost vreg = arg.skip(m - k - 1);
    proof {
        assert(vreg =~= line@.skip(m as int));
    }
    if m == n {
        return false;
    }
    proof {
        assert(vreg[vreg.len() - 1] == line@[n - 1]);
    }
    if line[n - 1] != ',' {
        return false;
    }
    let ghost vt = vreg.take(vreg.len() - 1);
    proof {
        assert(vt =~= line@.subrange(m as int, n - 1));
    }
    let fi = find_field(out, line, j, k);
    match fi {
        None => true,
        Some(i) => {
            proof {
                assert(fields_model(out@)[i as int] == out@[i as int]@);
            }
            let w = parse_value_region(&out[i].value, line, m, n - 1);
            match w {
                None => true,
                Some(fv) => {
                    let nm = out[i].name.clone();
                    let ghost oldm = fields_model(out@);
                    out.set(i, PrefField { name: nm, value: fv });
                    proof {
                        assert(fields_model(out@) =~= oldm.update(
                            i as int,
                            FieldModel { name: oldm[i as int].name, value: fv@ },
                        ));
                    }
                    true
                },
            }
        },
    }
}

/// Parses the record `text` against the defaults of `defaults`: fields named
/// by well-kinded entries take the entries' values, every other field keeps
/// its default. Fails exactly when the record's frame is broken.
pub fn deserialize(defaults: &PreferenceSet, text: &str) -> (r: Result<PreferenceSet, DecodeError>)
    ensures
        match r {
            Ok(v) => spec_deserialize(defaults@, text@) == Some(v@),
            Err(_) => spec_deserialize(defaults@, text@) is None,
        },
{
    let cs = str_chars(text);
    let n = cs.len();
    if n < 2 {
        return Err(DecodeError);
    }
    if cs[0] != '(' {
        return Err(DecodeError);
    }
    if cs[1] != '\n' {
        return Err(DecodeError);
    }
    let mut out = clone_fields(&defaults.fields);
    let mut pos: usize = 2;
    loop
        invariant
            2 <= pos <= n,
            n == cs@.len(),
            cs@ == text@,
            text@.len() >= 2 && text@[0] == '(' && text@[1] == '\n',
            parse_entries(defaults@, text@.skip(2)) == parse_entries(
                fields_model(out@),
                cs@.skip(pos as int),
            ),
        decreases n - pos,
    {
        let ghost rem = cs@.skip(pos as int);
        let remlen = n - pos;
        if remlen == 1 && cs[pos] == ')' {
            proof {
                assert(rem =~= seq![')']);
            }
            return Ok(PreferenceSet { fields: out });
        }
        if remlen == 2 && cs[pos] == ')' && cs[pos + 1] == '\n' {
            proof {
                assert(rem =~= seq![')', '\n']);
            }
            return Ok(PreferenceSet { fields: out });
        }
        proof {
            if rem == seq![')'] {
                assert(rem.len() == 1);
                assert(rem[0] == cs@[pos as int]);
                assert(false);
            }
            if rem == seq![')', '\n'] {
                assert(rem.len() == 2);
                assert(rem[0] == cs@[pos as int]);
                assert(rem[1] == cs@[pos + 1]);
                assert(false);
            }
        }
        let mut j: usize = pos;
        while j < n && cs[j] != '\n'
            invariant
                pos <= j <= n,
                n == cs@.len(),
                forall|k: int| pos <= k < j ==> #[trigger] cs@[k] != '\n',
            decreases n - j,
        {
            j += 1;
        }
        if j == n {
            proof {
                assert forall|k: int| 0 <= k < rem.len() implies #[trigger] rem[k] != '\n' by {
                    assert(rem[k] == cs@[pos + k]);
                }
                lemma_first_nl_none(rem);
            }
            return Err(DecodeError);
        }
        proof {
            assert(cs@[j as int] == '\n');
            assert forall|k: int| 0 <= k < j - pos implies #[trigger] rem[k] != '\n' by {
                assert(rem[k] == cs@[pos + k]);
            }
            assert(rem[j - pos] == cs@[j as int]);
            lemma_first_nl_from(rem, j - pos);
            assert(rem.take(j - pos) =~= cs@.subrange(pos as int, j as int));
        }
        let line = region_chars(&cs, pos, j);
        let ok = parse_entry_exec(&mut out, &line);
        if !ok {
            return Err(DecodeError);
        }
        proof {
            assert(rem.skip(j - pos + 1) =~= cs@.skip(j + 1));
        }
        pos = j + 1;
    }
}

} // verus!
