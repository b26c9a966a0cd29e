//! The laws the codec obeys: a record serialized from a well-formed set
//! parses back to that set, and a record carrying only some of a set's
//! fields overlays exactly those fields on the defaults.

use vstd::prelude::*;

use crate::codec::{
    dec_digit_char, dec_digits, entry_line, ser_entries, ser_value, spec_serialize,
};
use crate::parse::{
    all_digits, dec_val, dval, find_name, first_nl, ident_run, parse_dec, parse_entries,
    parse_entry, parse_value, sp_count, spec_deserialize,
};
use crate::parse::{
    lemma_find_name_bounds, lemma_find_name_from, lemma_first_nl_from, lemma_ident_run_from,
    lemma_sp_count_from,
};
use crate::value::{
    field_wf, is_digit, is_ident_char, is_ident_start, lemma_same_kind_refl, matches_schema,
    names_distinct, same_kind,
    set_wf, text_char_ok, val_wf, FieldModel, ValModel,
};

verus! {

/// The digits of a number are digit characters, and only zero itself starts
/// with a zero.
proof fn lemma_dec_digits_shape(n: nat)
    ensures
        dec_digits(n).len() >= 1,
        all_digits(dec_digits(n)),
        dec_digits(n)[0] == '0' <==> n == 0,
    decreases n,
{
    if n < 10 {
        assert(is_digit(dec_digit_char(n)));
        assert(all_digits(dec_digits(n)));
    } else {
        lemma_dec_digits_shape(n / 10);
        let prev = dec_digits(n / 10);
        let c = dec_digit_char(n % 10);
        assert(is_digit(c));
        assert(dec_digits(n) == prev.push(c));
        assert forall|i: int| 0 <= i < dec_digits(n).len() implies is_digit(
            #[trigger] dec_digits(n)[i],
        ) by {
            if i < prev.len() {
                assert(prev.push(c)[i] == prev[i]);
            } else {
                assert(prev.push(c)[i] == c);
            }
        }
        assert(dec_digits(n)[0] == prev[0]);
        assert(n / 10 != 0);
    }
}

/// Parsing the digits of a number gives the number back.
proof fn lemma_dec_val_digits(n: nat)
    ensures
        dec_val(dec_digits(n)) == n,
    decreases n,
{
    if n < 10 {
        let s = dec_digits(n);
        assert(s.len() == 1);
        assert(s.drop_last().len() == 0);
        assert(dec_val(s.drop_last()) == 0) by {
            reveal_with_fuel(dec_val, 2);
        }
        assert(s.last() == dec_digit_char(n));
        assert(dval(dec_digit_char(n)) == n);
    } else {
        lemma_dec_val_digits(n / 10);
        let prev = dec_digits(n / 10);
        let c = dec_digit_char(n % 10);
        assert(prev.push(c).drop_last() =~= prev);
        assert(prev.push(c).last() == c);
        assert(dval(c) == n % 10);
        assert(dec_val(dec_digits(n)) == (n / 10) * 10 + n % 10);
        assert(n == 10 * (n as int / 10) + n as int % 10) by {
            vstd::arithmetic::div_mod::lemma_fundamental_div_mod(n as int, 10);
        }
    }
}

/// A serialized value is nonempty, starts with no space, and holds no
/// newline.
proof fn lemma_ser_value_shape(v: ValModel)
    requires
        val_wf(v),
    ensures
        ser_value(v).len() >= 1,
        ser_value(v)[0] != ' ',
        forall|i: int| 0 <= i < ser_value(v).len() ==> #[trigger] ser_value(v)[i] != '\n',
{
    let s = ser_value(v);
    match v {
        ValModel::UInt(n) => {
            lemma_dec_digits_shape(n as nat);
            assert forall|i: int| 0 <= i < s.len() implies #[trigger] s[i] != '\n' by {
                assert(is_digit(s[i]));
            }
            assert(is_digit(s[0]));
        },
        ValModel::Bool(b) => {
            assert forall|i: int| 0 <= i < s.len() implies #[trigger] s[i] != '\n' by {
                if b {
                    assert(i == 0 || i == 1 || i == 2 || i == 3);
                } else {
                    assert(i == 0 || i == 1 || i == 2 || i == 3 || i == 4);
                }
            }
        },
        ValModel::Text(t) => {
            assert(s[0] == '"');
            assert forall|i: int| 0 <= i < s.len() implies #[trigger] s[i] != '\n' by {
                if i == 0 || i == s.len() - 1 {
                } else {
                    assert(s[i] == t[i - 1]);
                    assert(text_char_ok(t[i - 1]));
                }
            }
        },
        ValModel::Choice(t) => {
            assert(s[0] == t[0]);
            assert(is_ident_start(t[0]));
            assert forall|i: int| 0 <= i < s.len() implies #[trigger] s[i] != '\n' by {
                if i == 0 {
                    assert(is_ident_start(s[0]));
                } else {
                    assert(is_ident_char(t[i]));
                }
            }
        },
    }
}

/// What one parsed entry does to the fields: nothing when no field carries
/// its name, otherwise the named field takes the entry's value.
pub open spec fn apply_entry_model(acc: Seq<FieldModel>, f: FieldModel) -> Seq<FieldModel> {
    let i = find_name(acc, f.name);
    if i < 0 {
        acc
    } else {
        acc.update(i, FieldModel { name: acc[i].name, value: f.value })
    }
}

/// Where a field of `acc` carries the name of `f`, it holds a value of the
/// kind of `f`.
pub open spec fn kind_ok(acc: Seq<FieldModel>, f: FieldModel) -> bool {
    find_name(acc, f.name) >= 0 ==> same_kind(acc[find_name(acc, f.name)].value, f.value)
}

/// The fields `fs` overlaid on `acc`, in order.
pub open spec fn overlay(acc: Seq<FieldModel>, fs: Seq<FieldModel>) -> Seq<FieldModel>
    decreases fs.len(),
{
    if fs.len() == 0 {
        acc
    } else {
        overlay(apply_entry_model(acc, fs[0]), fs.skip(1))
    }
}

/// Same kind both ways.
proof fn lemma_same_kind_sym(a: ValModel, b: ValModel)
    requires
        same_kind(a, b),
    ensures
        same_kind(b, a),
{
}

/// Same kind through a middle value.
proof fn lemma_same_kind_trans(a: ValModel, b: ValModel, c: ValModel)
    requires
        same_kind(a, b),
        same_kind(b, c),
    ensures
        same_kind(a, c),
{
}

/// Parsing a serialized value at its own kind gives the value back.
proof fn lemma_parse_ser_value(kind: ValModel, v: ValModel)
    requires
        val_wf(v),
        same_kind(kind, v),
    ensures
        parse_value(kind, ser_value(v)) == Some(v),
{
    let s = ser_value(v);
    match v {
        ValModel::UInt(n) => {
            lemma_dec_digits_shape(n as nat);
            lemma_dec_val_digits(n as nat);
            assert(parse_dec(s) == Some(n));
        },
        ValModel::Bool(b) => {
            if b {
            } else {
                assert(seq!['f', 'a', 'l', 's', 'e'].len() == 5);
                assert(seq!['t', 'r', 'u', 'e'].len() == 4);
                assert(s != seq!['t', 'r', 'u', 'e']);
            }
        },
        ValModel::Text(t) => {
            assert(s.len() == t.len() + 2);
            assert(s[0] == '"');
            assert(s[s.len() - 1] == '"');
            assert(s.subrange(1, s.len() - 1) =~= t);
        },
        ValModel::Choice(t) => {
            assert(s == t);
        },
    }
}

/// A well-formed field's line holds no newline.
proof fn lemma_entry_line_no_nl(f: FieldModel)
    requires
        field_wf(f),
    ensures
        forall|i: int| 0 <= i < entry_line(f).len() ==> #[trigger] entry_line(f)[i] != '\n',
{
    let line = entry_line(f);
    let nl = f.name.len() as int;
    let vs = ser_value(f.value);
    let vl = vs.len() as int;
    lemma_ser_value_shape(f.value);
    assert(line.len() == 4 + nl + 2 + vl + 1);
    assert forall|i: int| 0 <= i < line.len() implies #[trigger] line[i] != '\n' by {
        if i < 4 {
            assert(i == 0 || i == 1 || i == 2 || i == 3);
            assert(line[i] != '\n');
        } else if i < 4 + nl {
            assert(line[i] == f.name[i - 4]);
            if i - 4 == 0 {
                assert(is_ident_start(f.name[0]));
            } else {
                assert(is_ident_char(f.name[i - 4]));
            }
        } else if i == 4 + nl {
            assert(line[i] == ':');
        } else if i == 4 + nl + 1 {
            assert(line[i] == ' ');
        } else if i < 4 + nl + 2 + vl {
            assert(line[i] == vs[i - (4 + nl + 2)]);
        } else {
            assert(line[i] == ',');
        }
    }
}

/// Parsing the line of a well-formed field applies that field as one entry.
proof fn lemma_parse_entry_line(acc: Seq<FieldModel>, f: FieldModel)
    requires
        field_wf(f),
        kind_ok(acc, f),
    ensures
        parse_entry(acc, entry_line(f)) == Some(apply_entry_model(acc, f)),
{
    let line = entry_line(f);
    let nl = f.name.len() as int;
    let vs = ser_value(f.value);
    let vl = vs.len() as int;
    lemma_ser_value_shape(f.value);
    assert(line.len() == 4 + nl + 2 + vl + 1);
    assert(line[0] == ' ' && line[1] == ' ' && line[2] == ' ' && line[3] == ' ');
    assert forall|k: int| 0 <= k < 4 implies #[trigger] line[k] == ' ' by {
        assert(k == 0 || k == 1 || k == 2 || k == 3);
    }
    assert(line[4] == f.name[0]);
    assert(is_ident_start(f.name[0]));
    assert(line[4] != ' ');
    lemma_sp_count_from(line, 4);
    let rest = line.skip(4);
    assert(rest.skip(1) =~= line.skip(5));
    assert forall|m: int| 0 <= m < nl - 1 implies is_ident_char(#[trigger] line.skip(5)[m]) by {
        assert(line.skip(5)[m] == line[5 + m]);
        assert(line[5 + m] == f.name[m + 1]);
    }
    assert(line.skip(5)[nl - 1] == line[4 + nl]);
    assert(line[4 + nl] == ':');
    assert(!is_ident_char(':'));
    lemma_ident_run_from(line.skip(5), nl - 1);
    assert(ident_run(rest.skip(1)) == nl - 1);
    assert(rest.take(nl) =~= f.name);
    let after = rest.skip(nl);
    assert(after =~= line.skip(4 + nl));
    assert(after.len() == 2 + vl + 1);
    assert(after[0] == line[4 + nl]);
    let arg = after.skip(1);
    assert(arg =~= line.skip(4 + nl + 1));
    assert(arg.len() == 1 + vl + 1);
    assert(arg[0] == line[4 + nl + 1]);
    assert(line[4 + nl + 1] == ' ');
    assert(arg[1] == line[4 + nl + 2]);
    assert(line[4 + nl + 2] == vs[0]);
    assert(arg[1] != ' ');
    lemma_sp_count_from(arg, 1);
    let vreg = arg.skip(1);
    assert(vreg =~= line.skip(4 + nl + 2));
    assert(vreg.len() == vl + 1);
    assert(vreg[vl] == line[4 + nl + 2 + vl]);
    assert(line[4 + nl + 2 + vl] == ',');
    assert(vreg.take(vl) =~= vs);
    let i = find_name(acc, f.name);
    if i >= 0 {
        lemma_parse_ser_value(acc[i].value, f.value);
    }
}

/// One applied entry changes no length and no name.
proof fn lemma_apply_names(acc: Seq<FieldModel>, f: FieldModel)
    ensures
        apply_entry_model(acc, f).len() == acc.len(),
        forall|i: int|
            0 <= i < acc.len() ==> (#[trigger] apply_entry_model(acc, f)[i]).name == acc[i].name,
{
    lemma_find_name_bounds(acc, f.name);
}

/// One applied entry of a fitting kind keeps every field's kind.
proof fn lemma_apply_kinds(acc: Seq<FieldModel>, f: FieldModel)
    requires
        kind_ok(acc, f),
    ensures
        forall|i: int|
            0 <= i < acc.len() ==> same_kind(
                (#[trigger] apply_entry_model(acc, f)[i]).value,
                acc[i].value,
            ),
{
    lemma_find_name_bounds(acc, f.name);
    let r = apply_entry_model(acc, f);
    assert forall|i: int| 0 <= i < acc.len() implies same_kind(
        (#[trigger] r[i]).value,
        acc[i].value,
    ) by {
        let i0 = find_name(acc, f.name);
        if i0 >= 0 && i == i0 {
            lemma_same_kind_sym(acc[i0].value, f.value);
        } else {
            assert(r[i] == acc[i]);
            lemma_same_kind_refl(acc[i].value);
        }
    }
}

/// Two field lists with the same names agree on where any name stands.
proof fn lemma_find_name_pointwise(a: Seq<FieldModel>, b: Seq<FieldModel>, name: Seq<char>)
    requires
        a.len() == b.len(),
        forall|i: int| 0 <= i < a.len() ==> (#[trigger] a[i]).name == b[i].name,
    ensures
        find_name(a, name) == find_name(b, name),
    decreases a.len(),
{
    if a.len() > 0 {
        assert(a[0].name == b[0].name);
        assert forall|i: int| 0 <= i < a.skip(1).len() implies (#[trigger] a.skip(1)[i]).name
            == b.skip(1)[i].name by {
            assert(a.skip(1)[i] == a[i + 1]);
            assert(b.skip(1)[i] == b[i + 1]);
        }
        lemma_find_name_pointwise(a.skip(1), b.skip(1), name);
    }
}

/// A fitting kind still fits after another fitting entry applies.
proof fn lemma_kind_ok_preserved(acc: Seq<FieldModel>, f: FieldModel, g: FieldModel)
    requires
        kind_ok(acc, f),
        kind_ok(acc, g),
    ensures
        kind_ok(apply_entry_model(acc, f), g),
{
    let acc2 = apply_entry_model(acc, f);
    lemma_apply_names(acc, f);
    lemma_apply_kinds(acc, f);
    lemma_find_name_pointwise(acc2, acc, g.name);
    let i = find_name(acc, g.name);
    if i >= 0 {
        lemma_find_name_bounds(acc, g.name);
        lemma_same_kind_trans(acc2[i].value, acc[i].value, g.value);
    }
}

/// Overlaying changes no length and no name.
proof fn lemma_overlay_names(acc: Seq<FieldModel>, fs: Seq<FieldModel>)
    ensures
        overlay(acc, fs).len() == acc.len(),
        forall|i: int|
            0 <= i < acc.len() ==> (#[trigger] overlay(acc, fs)[i]).name == acc[i].name,
    decreases fs.len(),
{
    if fs.len() > 0 {
        lemma_apply_names(acc, fs[0]);
        lemma_overlay_names(apply_entry_model(acc, fs[0]), fs.skip(1));
    }
}

/// Parsing the serialized lines of well-formed, kind-fitting fields against
/// any field list overlays them on it.
proof fn lemma_parse_ser_entries(acc: Seq<FieldModel>, fs: Seq<FieldModel>)
    requires
        forall|k: int| 0 <= k < fs.len() ==> field_wf(#[trigger] fs[k]),
        forall|k: int| 0 <= k < fs.len() ==> kind_ok(acc, #[trigger] fs[k]),
    ensures
        parse_entries(acc, ser_entries(fs) + seq![')']) == Some(overlay(acc, fs)),
    decreases fs.len(),
{
    let s = ser_entries(fs) + seq![')'];
    if fs.len() == 0 {
        assert(s =~= seq![')']);
    } else {
        let f = fs[0];
        let el = entry_line(f);
        let ell = el.len() as int;
        let tail = ser_entries(fs.skip(1)) + seq![')'];
        assert(ser_entries(fs) == el + seq!['\n'] + ser_entries(fs.skip(1)));
        assert(s =~= el + seq!['\n'] + tail);
        lemma_ser_value_shape(f.value);
        lemma_entry_line_no_nl(f);
        assert(ell == 4 + f.name.len() + 2 + ser_value(f.value).len() + 1);
        assert(s[0] == el[0]);
        assert(el[0] == ' ');
        assert(seq![')'].len() == 1);
        assert(seq![')', '\n'].len() == 2);
        if s == seq![')'] {
            assert(s[0] == ')');
            assert(false);
        }
        if s == seq![')', '\n'] {
            assert(s[0] == ')');
            assert(false);
        }
        assert forall|k: int| 0 <= k < ell implies #[trigger] s[k] != '\n' by {
            assert(s[k] == el[k]);
        }
        assert(s[ell] == '\n');
        lemma_first_nl_from(s, ell);
        assert(s.take(ell) =~= el);
        lemma_parse_entry_line(acc, f);
        let acc2 = apply_entry_model(acc, f);
        assert(s.skip(ell + 1) =~= tail);
        assert forall|k: int| 0 <= k < fs.skip(1).len() implies field_wf(#[trigger] fs.skip(1)[k])
            && kind_ok(acc2, fs.skip(1)[k]) by {
            assert(fs.skip(1)[k] == fs[k + 1]);
            lemma_kind_ok_preserved(acc, f, fs[k + 1]);
        }
        lemma_parse_ser_entries(acc2, fs.skip(1));
        assert(overlay(acc, fs) == overlay(acc2, fs.skip(1)));
    }
}

/// The defaults with the first `j` fields' values taken from `v`.
spec fn mixed(d: Seq<FieldModel>, v: Seq<FieldModel>, j: int) -> Seq<FieldModel> {
    Seq::new(
        d.len(),
        |i: int|
            if i < j {
                v[i]
            } else {
                d[i]
            },
    )
}

/// Overlaying the remaining fields of a schema instance completes it.
proof fn lemma_overlay_mixed(d: Seq<FieldModel>, v: Seq<FieldModel>, j: int)
    requires
        set_wf(v),
        matches_schema(v, d),
        0 <= j <= v.len(),
    ensures
        overlay(mixed(d, v, j), v.skip(j)) == v,
    decreases v.len() - j,
{
    let m = mixed(d, v, j);
    if j == v.len() {
        assert(v.skip(j).len() == 0);
        assert(m =~= v);
    } else {
        assert(v.skip(j)[0] == v[j]);
        assert forall|p: int| 0 <= p < j implies (#[trigger] m[p]).name != v[j].name by {
            assert(m[p].name == v[p].name);
        }
        assert(m[j].name == d[j].name);
        assert(d[j].name == v[j].name);
        lemma_find_name_from(m, v[j].name, j);
        let m2 = apply_entry_model(m, v.skip(j)[0]);
        assert(m2 =~= mixed(d, v, j + 1));
        assert(v.skip(j).skip(1) =~= v.skip(j + 1));
        lemma_overlay_mixed(d, v, j + 1);
    }
}

/// Round trip: a well-formed instance of a schema, serialized and parsed
/// back against that schema's defaults, is itself again — every field takes
/// the serialized value and none keeps its default.
pub proof fn lemma_round_trip(d: Seq<FieldModel>, v: Seq<FieldModel>)
    requires
        set_wf(v),
        matches_schema(v, d),
    ensures
        spec_deserialize(d, spec_serialize(v)) == Some(v),
{
    let s = spec_serialize(v);
    let body = ser_entries(v) + seq![')'];
    assert(s[0] == '(');
    assert(s[1] == '\n');
    assert(s.len() >= 2);
    assert(s.skip(2) =~= body);
    assert forall|k: int| 0 <= k < v.len() implies field_wf(#[trigger] v[k]) && kind_ok(
        d,
        v[k],
    ) by {
        assert forall|p: int| 0 <= p < k implies (#[trigger] d[p]).name != v[k].name by {
            assert(d[p].name == v[p].name);
        }
        assert(d[k].name == v[k].name);
        lemma_find_name_from(d, v[k].name, k);
    }
    lemma_parse_ser_entries(d, v);
    assert(mixed(d, v, 0) =~= d);
    assert(v.skip(0) =~= v);
    lemma_overlay_mixed(d, v, 0);
}

/// Fields none of the entries name keep their values.
proof fn lemma_overlay_untouched(acc: Seq<FieldModel>, fs: Seq<FieldModel>, j: int)
    requires
        0 <= j < acc.len(),
        forall|k: int| 0 <= k < fs.len() ==> (#[trigger] fs[k]).name != acc[j].name,
    ensures
        overlay(acc, fs)[j] == acc[j],
    decreases fs.len(),
{
    if fs.len() > 0 {
        let acc2 = apply_entry_model(acc, fs[0]);
        lemma_apply_names(acc, fs[0]);
        lemma_find_name_bounds(acc, fs[0].name);
        let i0 = find_name(acc, fs[0].name);
        if i0 >= 0 {
            assert(acc[i0].name == fs[0].name);
            assert(i0 != j);
        }
        assert(acc2[j] == acc[j]);
        assert forall|k: int| 0 <= k < fs.skip(1).len() implies (#[trigger] fs.skip(1)[k]).name
            != acc2[j].name by {
            assert(fs.skip(1)[k] == fs[k + 1]);
        }
        lemma_overlay_untouched(acc2, fs.skip(1), j);
    }
}

/// The field an entry names takes the entry's value.
proof fn lemma_overlay_sets(acc: Seq<FieldModel>, fs: Seq<FieldModel>, k: int)
    requires
        names_distinct(fs),
        0 <= k < fs.len(),
        find_name(acc, fs[k].name) >= 0,
    ensures
        overlay(acc, fs)[find_name(acc, fs[k].name)] == (FieldModel {
            name: fs[k].name,
            value: fs[k].value,
        }),
    decreases fs.len(),
{
    let i0 = find_name(acc, fs[k].name);
    lemma_find_name_bounds(acc, fs[k].name);
    assert(acc[i0].name == fs[k].name);
    let acc2 = apply_entry_model(acc, fs[0]);
    lemma_apply_names(acc, fs[0]);
    if k == 0 {
        assert(acc2[i0] == FieldModel { name: fs[0].name, value: fs[0].value });
        assert forall|q: int| 0 <= q < fs.skip(1).len() implies (#[trigger] fs.skip(1)[q]).name
            != acc2[i0].name by {
            assert(fs.skip(1)[q] == fs[q + 1]);
        }
        lemma_overlay_untouched(acc2, fs.skip(1), i0);
    } else {
        assert forall|q: int| 0 <= q < fs.skip(1).len() implies (#[trigger] fs.skip(1)[q]).name
            == fs[q + 1].name by {
            assert(fs.skip(1)[q] == fs[q + 1]);
        }
        assert(fs.skip(1)[k - 1] == fs[k]);
        lemma_find_name_pointwise(acc2, acc, fs[k].name);
        assert forall|p: int, q: int|
            0 <= p < q < fs.skip(1).len() implies (#[trigger] fs.skip(1)[p]).name != (
        #[trigger] fs.skip(1)[q]).name by {
            assert(fs.skip(1)[p] == fs[p + 1]);
            assert(fs.skip(1)[q] == fs[q + 1]);
        }
        lemma_overlay_sets(acc2, fs.skip(1), k - 1);
    }
}

/// A parsed value has the kind it was parsed at.
proof fn lemma_parse_value_kind(kind: ValModel, s: Seq<char>)
    ensures
        parse_value(kind, s) matches Some(w) ==> same_kind(kind, w),
{
}

/// One parsed entry changes no length, no name and no kind.
proof fn lemma_parse_entry_shape(acc: Seq<FieldModel>, line: Seq<char>)
    ensures
        parse_entry(acc, line) matches Some(r) ==> r.len() == acc.len() && (forall|i: int|
            0 <= i < acc.len() ==> (#[trigger] r[i]).name == acc[i].name) && (forall|i: int|
            0 <= i < acc.len() ==> same_kind((#[trigger] r[i]).value, acc[i].value)),
{
    if parse_entry(acc, line) is Some {
        let r = parse_entry(acc, line)->Some_0;
        let rest = line.skip(sp_count(line));
        if rest.len() > 0 && is_ident_start(rest[0]) {
            let k = 1 + ident_run(rest.skip(1));
            let name = rest.take(k);
            lemma_find_name_bounds(acc, name);
            let i0 = find_name(acc, name);
            if i0 >= 0 {
                let after = rest.skip(k);
                let arg = after.skip(1);
                let vreg = arg.skip(sp_count(arg));
                let vt = vreg.take(vreg.len() - 1);
                lemma_parse_value_kind(acc[i0].value, vt);
                assert forall|i: int| 0 <= i < acc.len() implies same_kind(
                    (#[trigger] r[i]).value,
                    acc[i].value,
                ) by {
                    if !(parse_value(acc[i0].value, vt) is Some && i == i0) {
                        assert(r[i] == acc[i]);
                    }
                    lemma_same_kind_sym(acc[i0].value, r[i0].value);
                    lemma_same_kind_trans(r[i].value, acc[i].value, acc[i].value);
                }
            }
        }
    }
}

/// Parsing a record's entries changes no length, no name and no kind.
proof fn lemma_parse_entries_shape(acc: Seq<FieldModel>, s: Seq<char>)
    ensures
        parse_entries(acc, s) matches Some(r) ==> r.len() == acc.len() && (forall|i: int|
            0 <= i < acc.len() ==> (#[trigger] r[i]).name == acc[i].name) && (forall|i: int|
            0 <= i < acc.len() ==> same_kind((#[trigger] r[i]).value, acc[i].value)),
    decreases s.len(),
{
    if parse_entries(acc, s) is Some {
        if s == seq![')'] || s == seq![')', '\n'] {
            let r = parse_entries(acc, s)->Some_0;
            assert(r == acc);
            assert forall|i: int| 0 <= i < acc.len() implies same_kind(
                (#[trigger] r[i]).value,
                acc[i].value,
            ) by {
                lemma_same_kind_refl(acc[i].value);
            }
        } else {
            crate::parse::lemma_first_nl_bounds(s);
            let i = first_nl(s);
            let acc2 = parse_entry(acc, s.take(i))->Some_0;
            lemma_parse_entry_shape(acc, s.take(i));
            lemma_parse_entries_shape(acc2, s.skip(i + 1));
            let r = parse_entries(acc, s)->Some_0;
            assert forall|j: int| 0 <= j < acc.len() implies same_kind(
                (#[trigger] r[j]).value,
                acc[j].value,
            ) by {
                lemma_same_kind_trans(r[j].value, acc2[j].value, acc[j].value);
            }
        }
    }
}

/// What a load yields fits the schema it was loaded against: same fields,
/// same names, same kinds.
pub proof fn lemma_load_result_shape(d: Seq<FieldModel>, read: Option<Seq<char>>)
    ensures
        matches_schema(crate::pipeline::spec_load_result(d, read), d),
{
    assert forall|i: int| 0 <= i < d.len() implies same_kind(
        (#[trigger] d[i]).value,
        d[i].value,
    ) by {
        lemma_same_kind_refl(d[i].value);
    }
    match read {
        None => {},
        Some(t) => {
            if spec_deserialize(d, t) is Some {
                lemma_parse_entries_shape(d, t.skip(2));
            }
        },
    }
}

/// A name absent from `find_name`'s view is carried by no field.
proof fn lemma_find_name_found(fs: Seq<FieldModel>, name: Seq<char>, k: int)
    requires
        0 <= k < fs.len(),
        fs[k].name == name,
    ensures
        find_name(fs, name) >= 0,
    decreases fs.len(),
{
    if fs[0].name != name {
        assert(fs.skip(1)[k - 1] == fs[k]);
        lemma_find_name_found(fs.skip(1), name, k - 1);
    }
}

/// Partial records: a record carrying well-formed, kind-fitting entries for
/// some of a schema's fields, parsed against the defaults, populates exactly
/// the named fields with the record's values and leaves every other field at
/// its default.
pub proof fn lemma_partial_overlay(d: Seq<FieldModel>, w: Seq<FieldModel>)
    requires
        set_wf(w),
        forall|k: int| 0 <= k < w.len() ==> find_name(d, (#[trigger] w[k]).name) >= 0,
        forall|k: int|
            0 <= k < w.len() ==> same_kind(
                d[find_name(d, (#[trigger] w[k]).name)].value,
                w[k].value,
            ),
    ensures
        spec_deserialize(d, spec_serialize(w)) == Some(overlay(d, w)),
        overlay(d, w).len() == d.len(),
        forall|j: int| 0 <= j < d.len() ==> (#[trigger] overlay(d, w)[j]).name == d[j].name,
        forall|k: int|
            0 <= k < w.len() ==> overlay(d, w)[find_name(d, (#[trigger] w[k]).name)]
                == (FieldModel { name: w[k].name, value: w[k].value }),
        forall|j: int|
            0 <= j < d.len() && find_name(w, (#[trigger] d[j]).name) < 0 ==> overlay(d, w)[j]
                == d[j],
{
    let s = spec_serialize(w);
    let body = ser_entries(w) + seq![')'];
    assert(s[0] == '(');
    assert(s[1] == '\n');
    assert(s.len() >= 2);
    assert(s.skip(2) =~= body);
    lemma_parse_ser_entries(d, w);
    lemma_overlay_names(d, w);
    assert forall|k: int| 0 <= k < w.len() implies overlay(d, w)[find_name(
        d,
        (#[trigger] w[k]).name,
    )] == FieldModel { name: w[k].name, value: w[k].value } by {
        lemma_overlay_sets(d, w, k);
    }
    assert forall|j: int|
        0 <= j < d.len() && find_name(w, (#[trigger] d[j]).name) < 0 implies overlay(d, w)[j]
        == d[j] by {
        assert forall|k: int| 0 <= k < w.len() implies (#[trigger] w[k]).name != d[j].name by {
            if w[k].name == d[j].name {
                lemma_find_name_found(w, d[j].name, k);
            }
        }
        lemma_overlay_untouched(d, w, j);
    }
}

} // verus!
