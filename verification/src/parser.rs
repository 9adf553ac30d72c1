//! The full parser: builds the structural index of a record and turns it
//! into a zero-copy value tree, recursing through objects and arrays by
//! colon and comma positions alone.

use vstd::prelude::*;

use crate::backend::Backend;
use crate::builder::IndexBuilder;
use crate::errors::Error;
use crate::index::{field_label, field_start, object_value_range, trim_ws_left, trim_ws_right,
    StructuralIndex};
use crate::model::{colon_list, comma_list, delims_balanced, trim_left, trim_right, COMMA,
    LEFT_BRACE, LEFT_BRACKET, QUOTE, RIGHT_BRACE, RIGHT_BRACKET};
use crate::value::{false_bytes, is_number, null_bytes, true_bytes, ObjectField, Value, ValueType};

verus! {


/// One field of a value model.
#[verifier::ext_equal]
pub struct FieldModel {
    pub name: Seq<u8>,
    pub value: ValueModel,
}

/// The mathematical shape of a parsed value: every name and text a byte
/// sequence of the record.
#[verifier::ext_equal]
pub enum ValueModel {
    Null,
    Boolean(bool),
    Number(Seq<u8>),
    String(Seq<u8>),
    Array(Seq<ValueModel>),
    Object(Seq<FieldModel>),
    Raw(Seq<u8>),
}

/// An exec value tree read as its model.
pub open spec fn value_view(v: Value) -> ValueModel
    decreases v, 0int, 0int,
{
    match v {
        Value::Null => ValueModel::Null,
        Value::Boolean(b) => ValueModel::Boolean(b),
        Value::Number(t) => ValueModel::Number(t@),
        Value::String(es) => ValueModel::String(es@),
        Value::Array(items) => ValueModel::Array(values_view(items@, 0)),
        Value::Object(fs) => ValueModel::Object(fields_view_from(fs@, 0)),
        Value::Raw(t) => ValueModel::Raw(t@),
    }
}

/// The elements of an exec array from index `i` on, read as models.
pub open spec fn values_view(items: Seq<Value>, i: int) -> Seq<ValueModel>
    decreases items, 1int, items.len() - i,
{
    if 0 <= i < items.len() {
        seq![value_view(items[i])] + values_view(items, i + 1)
    } else {
        Seq::empty()
    }
}

/// The fields of an exec object from index `i` on, read as models.
pub open spec fn fields_view_from(fs: Seq<ObjectField>, i: int) -> Seq<FieldModel>
    decreases fs, 1int, fs.len() - i,
{
    if 0 <= i < fs.len() {
        seq![FieldModel { name: fs[i].name@, value: value_view(fs[i].value) }]
            + fields_view_from(fs, i + 1)
    } else {
        Seq::empty()
    }
}


/// Length and index reading of `values_view`.
pub proof fn lemma_values_view_index(items: Seq<Value>, i: int)
    requires
        0 <= i <= items.len(),
    ensures
        values_view(items, i).len() == items.len() - i,
        forall|k: int|
            0 <= k < items.len() - i ==> #[trigger] values_view(items, i)[k] == value_view(
                items[i + k],
            ),
    decreases items.len() - i,
{
    if i < items.len() {
        lemma_values_view_index(items, i + 1);
    }
}

/// Length and index reading of `fields_view_from`.
pub proof fn lemma_fields_view_index(fs: Seq<ObjectField>, i: int)
    requires
        0 <= i <= fs.len(),
    ensures
        fields_view_from(fs, i).len() == fs.len() - i,
        forall|k: int|
            0 <= k < fs.len() - i ==> #[trigger] fields_view_from(fs, i)[k] == (FieldModel {
                name: fs[i + k].name@,
                value: value_view(fs[i + k].value),
            }),
    decreases fs.len() - i,
{
    if i < fs.len() {
        lemma_fields_view_index(fs, i + 1);
    }
}

/// The value the parser reads at `[begin, end)`: classify the text and
/// recurse into composites by their comma and colon positions. `None` is a
/// malformed record.
#[verifier::opaque]
pub open spec fn parse_model(s: Seq<u8>, begin: int, end: int, level: int, l_max: int) -> Option<
    ValueModel,
>
    decreases end - begin, 3int, 0int,
{
    let sub = s.subrange(begin, end);
    if sub == null_bytes() {
        Some(ValueModel::Null)
    } else if sub == true_bytes() {
        Some(ValueModel::Boolean(true))
    } else if sub == false_bytes() {
        Some(ValueModel::Boolean(false))
    } else if sub.len() > 1 && sub[0] == QUOTE && sub[sub.len() - 1] == QUOTE {
        Some(ValueModel::String(sub.subrange(1, sub.len() - 1)))
    } else if sub.len() > 0 && sub[0] == LEFT_BRACKET && sub[sub.len() - 1] == RIGHT_BRACKET {
        array_model(s, begin, end, level, l_max)
    } else if sub.len() > 0 && sub[0] == LEFT_BRACE && sub[sub.len() - 1] == RIGHT_BRACE {
        object_model(s, begin, end, level, l_max)
    } else if is_number(sub) {
        Some(ValueModel::Number(sub))
    } else {
        Option::None
    }
}

/// The array at `[begin, end)`: its elements by the level's commas, with
/// the closing bracket as a final bound; a raw slice once `level` passes
/// the index depth.
#[verifier::opaque]
pub open spec fn array_model(s: Seq<u8>, begin: int, end: int, level: int, l_max: int) -> Option<
    ValueModel,
>
    decreases end - begin, 2int, 0int,
{
    if level >= l_max {
        Some(ValueModel::Raw(s.subrange(begin, end)))
    } else {
        let cp = comma_list(s, begin, end, level).push(end - 1);
        match array_elems(s, cp, 0, begin, end, level, l_max) {
            Option::None => Option::None,
            Option::Some(vs) => Some(ValueModel::Array(vs)),
        }
    }
}

/// The array elements with bound index at least `i`, in order.
#[verifier::opaque]
pub open spec fn array_elems(
    s: Seq<u8>,
    cp: Seq<int>,
    i: int,
    begin: int,
    end: int,
    level: int,
    l_max: int,
) -> Option<Seq<ValueModel>>
    decreases end - begin, 1int, cp.len() - i,
{
    if i >= cp.len() {
        Some(Seq::empty())
    } else {
        let lo = if i == 0 {
            begin + 1
        } else {
            cp[i - 1] + 1
        };
        let vs = trim_left(s, lo, cp[i]);
        let ve = trim_right(s, vs, cp[i]);
        if i == 0 && vs == ve {
            Some(Seq::empty())
        } else if 0 <= vs <= ve && ve - vs < end - begin {
            match parse_model(s, vs, ve, level + 1, l_max) {
                Option::None => Option::None,
                Option::Some(v) => match array_elems(s, cp, i + 1, begin, end, level, l_max) {
                    Option::None => Option::None,
                    Option::Some(rest) => Some(seq![v] + rest),
                },
            }
        } else {
            Option::None
        }
    }
}

/// The object at `[begin, end)`: its fields by the level's colons; a raw
/// slice once `level` passes the index depth.
#[verifier::opaque]
pub open spec fn object_model(s: Seq<u8>, begin: int, end: int, level: int, l_max: int) -> Option<
    ValueModel,
>
    decreases end - begin, 2int, 0int,
{
    if level >= l_max {
        Some(ValueModel::Raw(s.subrange(begin, end)))
    } else {
        let cp = colon_list(s, begin, end, level);
        match object_fields(s, cp, cp.len() as int, end, begin, end, level, l_max) {
            Option::None => Option::None,
            Option::Some(fs) => Some(ValueModel::Object(fs)),
        }
    }
}

/// The object fields at colon indices below `i`, scanned right to left with
/// each field's scope ending where the next name begins, listed in document
/// order.
#[verifier::opaque]
pub open spec fn object_fields(
    s: Seq<u8>,
    cp: Seq<int>,
    i: int,
    end_cur: int,
    begin: int,
    end: int,
    level: int,
    l_max: int,
) -> Option<Seq<FieldModel>>
    decreases end - begin, 1int, i,
{
    if i <= 0 {
        Some(Seq::empty())
    } else {
        let j = i - 1;
        let fb = if j == 0 {
            begin
        } else {
            cp[j - 1]
        };
        let c = cp[j];
        let fsi = field_start(s, fb, c);
        if fsi < 0 {
            Option::None
        } else if c + 1 > end_cur {
            Option::None
        } else {
            let vr = object_value_range(
                s,
                c + 1,
                end_cur,
                if j == cp.len() - 1 {
                    RIGHT_BRACE
                } else {
                    COMMA
                },
            );
            if vr.0 <= vr.1 && vr.1 - vr.0 < end - begin {
                match parse_model(s, vr.0 as int, vr.1 as int, level + 1, l_max) {
                    Option::None => Option::None,
                    Option::Some(v) => match object_fields(
                        s,
                        cp,
                        j,
                        fsi - 1,
                        begin,
                        end,
                        level,
                        l_max,
                    ) {
                        Option::None => Option::None,
                        Option::Some(rest) => Some(
                            rest.push(FieldModel { name: field_label(s, fb, c), value: v }),
                        ),
                    },
                }
            } else {
                Option::None
            }
        }
    }
}

/// The whole parse of a record: trim it, demand balanced delimiters, and
/// read the value at the top level.
pub open spec fn whole_parse(s: Seq<u8>, l_max: int) -> Option<ValueModel> {
    let tb = trim_left(s, 0, s.len() as int);
    let te = trim_right(s, tb, s.len() as int);
    let t = s.subrange(tb, te);
    if !delims_balanced(t) {
        Option::None
    } else {
        parse_model(t, 0, t.len() as int, 0, l_max)
    }
}

/// A parser around an index builder.
#[derive(Debug)]
pub struct Parser<B: Backend> {
    index_builder: IndexBuilder<B>,
}

impl<B: Backend> Parser<B> {
    /// The parser is usable whenever its builder is.
    pub closed spec fn wf(&self) -> bool {
        self.index_builder.wf()
    }

    /// The level the underlying builder resolves.
    pub closed spec fn level_of(&self) -> int {
        self.index_builder.spec_level() as int
    }

    /// Wrap an index builder.
    pub fn new(index_builder: IndexBuilder<B>) -> (r: Self)
        requires
            index_builder.wf(),
        ensures
            r.wf(),
            r.level_of() == index_builder.spec_level(),
    {
        Parser { index_builder }
    }

    /// Parse a whole record: trim it, index it, and read the value tree
    /// out of the index.
    pub fn parse<'s>(&self, record: &'s [u8]) -> (res: Result<Value<'s>, Error>)
        requires
            self.wf(),
        ensures
            res matches Err(e) ==> e == Error::InvalidRecord,
            ({
                let tb = crate::model::trim_left(record@, 0, record@.len() as int);
                let te = crate::model::trim_right(record@, tb, record@.len() as int);
                !crate::model::delims_balanced(record@.subrange(tb, te)) ==> res is Err
            }),
            res is Ok <==> whole_parse(record@, self.level_of()) is Some,
            res matches Ok(v) ==> Some(value_view(v)) == whole_parse(record@, self.level_of()),
    {
        let ghost w = whole_parse(record@, self.level_of());
        let n0 = record.len();
        let b = trim_ws_left(record, 0, n0);
        let e = trim_ws_right(record, b, n0);
        let trimmed = vstd::slice::slice_subrange(record, b, e);
        match self.index_builder.build(trimmed) {
            Result::Err(_) => {
                proof {
                    assert(w is None);
                }
                Result::Err(Error::InvalidRecord)
            },
            Result::Ok(index) => {
                proof {
                    assert(w == parse_model(
                        trimmed@,
                        0,
                        trimmed@.len() as int,
                        0,
                        self.level_of(),
                    ));
                }
                parse_impl(&index, 0, trimmed.len(), 0)
            },
        }
    }
}

/// Classify `record[begin..end]` and recurse into composites.
fn parse_impl<'s>(index: &StructuralIndex<'s>, begin: usize, end: usize, level: usize) -> (res:
    Result<Value<'s>, Error>)
    requires
        index.wf(),
        begin <= end <= index.record@.len(),
        level + (end - begin) <= index.record@.len(),
    ensures
        res matches Err(e) ==> e == Error::InvalidRecord,
        res is Ok <==> parse_model(
            index.record@,
            begin as int,
            end as int,
            level as int,
            index.level_spec(),
        ) is Some,
        res matches Ok(v) ==> Some(value_view(v)) == parse_model(
            index.record@,
            begin as int,
            end as int,
            level as int,
            index.level_spec(),
        ),
    decreases end - begin, 1int,
{
    let ghost pm = parse_model(
        index.record@,
        begin as int,
        end as int,
        level as int,
        index.level_spec(),
    );
    proof {
        reveal_with_fuel(parse_model, 1);
    }
    let sub = index.substr(begin, end);
    match crate::value::parse(sub) {
        Result::Err(_) => {
            proof {
                assert(!crate::value::lexes(sub@));
                assert(pm is None);
            }
            Result::Err(Error::InvalidRecord)
        },
        Result::Ok(ValueType::Atomic(v)) => {
            proof {
                assert(Some(value_view(v)) == pm);
            }
            Result::Ok(v)
        },
        Result::Ok(ValueType::Array) => {
            proof {
                assert(sub@.len() > 0 && sub@[0] == LEFT_BRACKET && sub@[sub@.len() - 1]
                    == RIGHT_BRACKET);
                assert(sub@ != null_bytes() && sub@ != true_bytes() && sub@ != false_bytes());
                assert(!(sub@.len() > 1 && sub@[0] == QUOTE && sub@[sub@.len() - 1] == QUOTE));
                assert(index.record@[begin as int] == LEFT_BRACKET);
                assert(index.record@[end - 1] == RIGHT_BRACKET);
                assert(end - begin >= 2);
                reveal_with_fuel(array_model, 1);
                assert(pm == array_model(
                    index.record@,
                    begin as int,
                    end as int,
                    level as int,
                    index.level_spec(),
                ));
            }
            parse_array(index, begin, end, level)
        },
        Result::Ok(ValueType::Object) => {
            proof {
                assert(sub@.len() > 0 && sub@[0] == LEFT_BRACE && sub@[sub@.len() - 1]
                    == RIGHT_BRACE);
                assert(sub@ != null_bytes() && sub@ != true_bytes() && sub@ != false_bytes());
                assert(!(sub@.len() > 1 && sub@[0] == QUOTE && sub@[sub@.len() - 1] == QUOTE));
                assert(!(sub@.len() > 0 && sub@[0] == LEFT_BRACKET && sub@[sub@.len() - 1]
                    == RIGHT_BRACKET));
                assert(index.record@[begin as int] == LEFT_BRACE);
                assert(index.record@[end - 1] == RIGHT_BRACE);
                assert(end - begin >= 2);
                reveal_with_fuel(object_model, 1);
                assert(pm == object_model(
                    index.record@,
                    begin as int,
                    end as int,
                    level as int,
                    index.level_spec(),
                ));
            }
            parse_object(index, begin, end, level)
        },
    }
}

/// Read the elements of the array at `record[begin..end]` by its commas at
/// `level`.
#[verifier::spinoff_prover]
#[verifier::rlimit(100)]
fn parse_array<'s>(index: &StructuralIndex<'s>, begin: usize, end: usize, level: usize) -> (res:
    Result<Value<'s>, Error>)
    requires
        index.wf(),
        begin <= end <= index.record@.len(),
        level + (end - begin) <= index.record@.len(),
        end - begin >= 2,
        index.record@[begin as int] == LEFT_BRACKET,
        index.record@[end - 1] == RIGHT_BRACKET,
    ensures
        res matches Err(e) ==> e == Error::InvalidRecord,
        res is Ok <==> array_model(
            index.record@,
            begin as int,
            end as int,
            level as int,
            index.level_spec(),
        ) is Some,
        res matches Ok(v) ==> Some(value_view(v)) == array_model(
            index.record@,
            begin as int,
            end as int,
            level as int,
            index.level_spec(),
        ),
    decreases end - begin, 0int,
{
    let ghost s = index.record@;
    let ghost lmax = index.level_spec();
    let ghost out = array_model(s, begin as int, end as int, level as int, lmax);
    let rlen = index.record.len();
    let mut cp: Vec<usize> = Vec::new();
    if !index.comma_positions(begin, end, level, &mut cp) {
        let raw = Value::raw(index.substr(begin, end));
        proof {
            reveal_with_fuel(array_model, 1);
            assert(out == Some(value_view(raw)));
        }
        return Result::Ok(raw);
    }
    proof {
        assert forall|j: int| 0 <= j < cp@.len() implies begin < #[trigger] cp@[j] by {
            assert(crate::model::comma_at_level(index.record@, level as int, cp@[j] as int));
        }
        if cp@.len() > 0 {
            assert(crate::model::comma_at_level(
                index.record@,
                level as int,
                cp@[cp@.len() - 1] as int,
            ));
            assert(cp@[cp@.len() - 1] < end - 1);
        }
    }
    let ghost cpl0 = crate::index::int_list(cp@);
    cp.push(end - 1);
    let ghost cpl = cpl0.push(end as int - 1);
    proof {
        assert(cpl == crate::index::int_list(cp@)) by {
            assert(cpl =~= crate::index::int_list(cp@));
        }
        assert((level as int) < lmax);
        assert(cpl0 == crate::model::comma_list(s, begin as int, end as int, level as int));
        assert(cpl == crate::model::comma_list(s, begin as int, end as int, level as int).push(
            end as int - 1,
        ));
        reveal_with_fuel(array_model, 1);
        reveal_with_fuel(array_elems, 1);
        assert(array_model(s, begin as int, end as int, level as int, lmax) == (
        match array_elems(
            s,
            crate::model::comma_list(s, begin as int, end as int, level as int).push(
                end as int - 1,
            ),
            0,
            begin as int,
            end as int,
            level as int,
            lmax,
        ) {
            Option::None => Option::None,
            Option::Some(vs) => Some(ValueModel::Array(vs)),
        }));
        assert(out == (match array_elems(s, cpl, 0, begin as int, end as int, level as int, lmax) {
            Option::None => Option::None,
            Option::Some(vs) => Some(ValueModel::Array(vs)),
        }));
    }
    let n = cp.len();
    let mut result: Vec<Value<'s>> = Vec::new();
    let mut i: usize = 0;
    while i < n
        invariant
            index.wf(),
            s == index.record@,
            lmax == index.level_spec(),
            begin <= end <= index.record@.len(),
            level + (end - begin) <= index.record@.len(),
            end - begin >= 2,
            i <= n,
            n == cp@.len(),
            n >= 1,
            rlen == index.record@.len(),
            cpl == crate::index::int_list(cp@),
            cp@[n - 1] == end - 1,
            out == array_model(s, begin as int, end as int, level as int, lmax),
            forall|j: int| 0 <= j < n ==> begin < #[trigger] cp@[j] < end,
            forall|j: int| 0 <= j && j + 1 < n ==> #[trigger] cp@[j] < cp@[j + 1],
            result@.len() <= i,
            out == (match array_elems(
                s,
                cpl,
                i as int,
                begin as int,
                end as int,
                level as int,
                lmax,
            ) {
                Option::None => Option::None,
                Option::Some(rest) => Some(
                    ValueModel::Array(values_view(result@, 0) + rest),
                ),
            }),
        decreases n - i,
    {
        let lo = if i == 0 {
            begin + 1
        } else {
            cp[i - 1] + 1
        };
        let (vsi, vei) = index.find_array_value(lo, cp[i]);
        proof {
            reveal_with_fuel(array_elems, 1);
            assert(vsi as int == crate::model::trim_left(s, lo as int, cp@[i as int] as int));
            assert(vei as int == crate::model::trim_right(s, vsi as int, cp@[i as int] as int));
        }
        if i == 0 && vsi == vei {
            let empty: Vec<Value<'s>> = Vec::new();
            proof {
                lemma_values_view_index(result@, 0);
                lemma_values_view_index(empty@, 0);
                assert(values_view(empty@, 0) =~= values_view(result@, 0) + Seq::<
                    ValueModel,
                >::empty());
                assert(out == Some(value_view(Value::Array(empty))));
            }
            return Result::Ok(Value::Array(empty));
        }
        proof {
            assert(vsi >= lo >= begin + 1);
            assert((vei as int) - (vsi as int) < end - begin);
        }
        let value = match parse_impl(index, vsi, vei, level + 1) {
            Result::Ok(v) => v,
            Result::Err(e) => {
                proof {
                    reveal_with_fuel(array_elems, 1);
                    assert(out is None);
                }
                return Result::Err(e);
            },
        };
        let ghost prev = result@;
        result.push(value);
        proof {
            reveal_with_fuel(array_elems, 1);
            lemma_values_view_index(prev, 0);
            lemma_values_view_index(result@, 0);
            assert forall|rest: Seq<ValueModel>| true implies values_view(result@, 0) + rest
                =~= values_view(prev, 0) + (seq![value_view(value)] + rest) by {}
        }
        i = i + 1;
    }
    proof {
        reveal_with_fuel(array_elems, 1);
        lemma_values_view_index(result@, 0);
        assert(values_view(result@, 0) + Seq::<ValueModel>::empty() =~= values_view(result@, 0));
        assert(out == Some(value_view(Value::Array(result))));
    }
    Result::Ok(Value::Array(result))
}

/// Read the fields of the object at `record[begin..end]` by its colons at
/// `level`, right to left so that each field's scope ends where the next
/// field's name begins.
#[verifier::spinoff_prover]
#[verifier::rlimit(100)]
fn parse_object<'s>(index: &StructuralIndex<'s>, begin: usize, end: usize, level: usize) -> (res:
    Result<Value<'s>, Error>)
    requires
        index.wf(),
        begin <= end <= index.record@.len(),
        level + (end - begin) <= index.record@.len(),
        end - begin >= 2,
        index.record@[begin as int] == LEFT_BRACE,
        index.record@[end - 1] == RIGHT_BRACE,
    ensures
        res matches Err(e) ==> e == Error::InvalidRecord,
        res is Ok <==> object_model(
            index.record@,
            begin as int,
            end as int,
            level as int,
            index.level_spec(),
        ) is Some,
        res matches Ok(v) ==> Some(value_view(v)) == object_model(
            index.record@,
            begin as int,
            end as int,
            level as int,
            index.level_spec(),
        ),
    decreases end - begin, 0int,
{
    let ghost s = index.record@;
    let ghost lmax = index.level_spec();
    let ghost out = object_model(s, begin as int, end as int, level as int, lmax);
    let rlen = index.record.len();
    let mut cp: Vec<usize> = Vec::new();
    if !index.colon_positions(begin, end, level, &mut cp) {
        let raw = Value::raw(index.substr(begin, end));
        proof {
            reveal_with_fuel(object_model, 1);
            assert(out == Some(value_view(raw)));
        }
        return Result::Ok(raw);
    }
    let ghost cpl = crate::index::int_list(cp@);
    proof {
        assert forall|j: int| 0 <= j < cp@.len() implies begin <= #[trigger] cp@[j] < end by {
            assert(crate::model::colon_at_level(index.record@, level as int, cp@[j] as int));
        }
        assert((level as int) < lmax);
        assert(cpl == colon_list(s, begin as int, end as int, level as int));
        reveal_with_fuel(object_model, 1);
        reveal_with_fuel(object_fields, 1);
        assert(out == (match object_fields(
            s,
            cpl,
            cpl.len() as int,
            end as int,
            begin as int,
            end as int,
            level as int,
            lmax,
        ) {
            Option::None => Option::None,
            Option::Some(fs) => Some(ValueModel::Object(fs)),
        }));
    }
    let n = cp.len();
    let mut rev: Vec<ObjectField<'s>> = Vec::new();
    let ghost mut collected: Seq<FieldModel> = Seq::empty();
    let mut end_cur = end;
    let mut i = n;
    while i > 0
        invariant
            index.wf(),
            s == index.record@,
            lmax == index.level_spec(),
            begin <= end <= index.record@.len(),
            level + (end - begin) <= index.record@.len(),
            i <= n,
            n == cp@.len(),
            rlen == index.record@.len(),
            cpl == crate::index::int_list(cp@),
            end_cur <= end,
            out == object_model(s, begin as int, end as int, level as int, lmax),
            forall|j: int| 0 <= j < n ==> begin <= #[trigger] cp@[j] < end,
            forall|j: int| 0 <= j && j + 1 < n ==> #[trigger] cp@[j] < cp@[j + 1],
            rev@.len() == collected.len(),
            rev@.len() == n - i,
            forall|k: int|
                0 <= k < rev@.len() ==> collected[collected.len() - 1 - k] == (FieldModel {
                    name: (#[trigger] rev@[k]).name@,
                    value: value_view(rev@[k].value),
                }),
            out == (match object_fields(
                s,
                cpl,
                i as int,
                end_cur as int,
                begin as int,
                end as int,
                level as int,
                lmax,
            ) {
                Option::None => Option::None,
                Option::Some(rest) => Some(ValueModel::Object(rest + collected)),
            }),
        decreases i,
    {
        i = i - 1;
        let ghost jj = i as int;
        let ghost fb_spec = if jj == 0 {
            begin as int
        } else {
            cpl[jj - 1]
        };
        let ghost c_spec = cpl[jj];
        let fb = if i == 0 {
            begin
        } else {
            cp[i - 1]
        };
        proof {
            assert(fb as int == fb_spec);
            assert(cp@[jj] as int == c_spec);
        }
        let (field, fsi) = match index.find_object_field(fb, cp[i]) {
            Result::Ok(p) => p,
            Result::Err(e) => {
                proof {
                    assert(field_start(s, fb_spec, c_spec) < 0);
                    assert(out is None) by {
                        reveal_with_fuel(object_fields, 1);
                    }
                }
                return Result::Err(e);
            },
        };
        proof {
            assert(fsi as int == field_start(s, fb_spec, c_spec));
            assert(field@ == field_label(s, fb_spec, c_spec));
        }
        if cp[i] + 1 > end_cur {
            // a field name that reaches back across its own colon: the
            // record is malformed
            proof {
                assert(out is None) by {
                    reveal_with_fuel(object_fields, 1);
                }
            }
            return Result::Err(Error::InvalidRecord);
        }
        let (vsi, vei) = index.find_object_value(cp[i] + 1, end_cur, i == n - 1);
        proof {
            assert((vsi, vei) == object_value_range(s, c_spec + 1, end_cur as int, if jj
                == cpl.len() - 1 {
                RIGHT_BRACE
            } else {
                COMMA
            }));
            assert(vsi >= cp@[jj] + 1 >= begin + 1);
            assert((vei as int) - (vsi as int) < end - begin);
        }
        let value = match parse_impl(index, vsi, vei, level + 1) {
            Result::Ok(v) => v,
            Result::Err(e) => {
                proof {
                    assert(out is None) by {
                        reveal_with_fuel(object_fields, 1);
                    }
                }
                return Result::Err(e);
            },
        };
        let ghost fm = FieldModel { name: field@, value: value_view(value) };
        let ghost oldc = collected;
        rev.push(ObjectField { name: field, value });
        proof {
            collected = seq![fm] + collected;
            assert forall|rest: Seq<FieldModel>| #[trigger] (rest.push(fm) + oldc) == rest + (
            seq![fm] + oldc) by {
                assert(rest.push(fm) + oldc =~= rest + (seq![fm] + oldc));
            }
            assert(scan_obj_step(
                s,
                cpl,
                jj,
                fsi as int - 1,
                begin as int,
                end as int,
                level as int,
                lmax,
                out,
                collected,
            )) by {
                reveal_with_fuel(object_fields, 1);
            }
        }
        end_cur = fsi - 1;
    }
    proof {
        reveal_with_fuel(object_fields, 1);
        assert(out == Some(ValueModel::Object(collected)) || out is None);
        assert(out == Some(ValueModel::Object(collected)));
    }
    let result = reverse_fields(rev);
    proof {
        assert forall|k: int|
            0 <= k < result@.len() implies collected[k] == (FieldModel {
            name: (#[trigger] result@[k]).name@,
            value: value_view(result@[k].value),
        }) by {
            assert(result@[k] == rev@[rev@.len() - 1 - k]);
        }
        lemma_fields_view_index(result@, 0);
        assert(fields_view_from(result@, 0) =~= collected);
        assert(out == Some(value_view(Value::Object(result))));
    }
    Result::Ok(Value::Object(result))
}

/// Reverse a field list, restoring document order after a right-to-left
/// scan.
fn reverse_fields<'s>(rev: Vec<ObjectField<'s>>) -> (result: Vec<ObjectField<'s>>)
    ensures
        result@.len() == rev@.len(),
        forall|k: int|
            0 <= k < rev@.len() ==> #[trigger] result@[k] == rev@[rev@.len() - 1 - k],
{
    let ghost rev0 = rev@;
    let mut rev = rev;
    let mut result: Vec<ObjectField<'s>> = Vec::new();
    loop
        invariant_except_break
            rev@.len() + result@.len() == rev0.len(),
            rev@ == rev0.subrange(0, rev@.len() as int),
            forall|k: int|
                0 <= k < result@.len() ==> #[trigger] result@[k] == rev0[rev0.len() - 1 - k],
        ensures
            result@.len() == rev0.len(),
            forall|k: int|
                0 <= k < result@.len() ==> #[trigger] result@[k] == rev0[rev0.len() - 1 - k],
        decreases rev@.len(),
    {
        match rev.pop() {
            Option::Some(f) => {
                proof {
                    assert(f == rev0[rev@.len() as int]);
                    assert(rev@ =~= rev0.subrange(0, rev@.len() as int));
                }
                result.push(f);
            },
            Option::None => {
                proof {
                    assert(result@.len() == rev0.len());
                }
                break ;
            },
        }
    }
    result
}

/// One descending step of the object scan folded into the builder's
/// bookkeeping: the model of the remaining fields, joined with what is
/// already collected, still yields the whole object.
pub open spec fn scan_obj_step(
    s: Seq<u8>,
    cp: Seq<int>,
    i: int,
    end_cur: int,
    begin: int,
    end: int,
    level: int,
    l_max: int,
    out: Option<ValueModel>,
    collected: Seq<FieldModel>,
) -> bool {
    out == (match object_fields(s, cp, i, end_cur, begin, end, level, l_max) {
        Option::None => Option::None,
        Option::Some(rest) => Some(ValueModel::Object(rest + collected)),
    })
}

} // verus!
