//! The `KEY=VALUE;KEY=VALUE;` grammar both halves of the scan-key protocol are written in.
//!
//! A key matches only at the start of a field, before its first `=`, so no value can
//! rename a later field. A missing `;` ends the last field at the end of input. A `;`
//! inside a quoted value still separates. Surrounding double quotes are stripped.
use vstd::prelude::*;
use vstd::slice::slice_subrange;

use crate::text;
use crate::text::{split, split_once};

verus! {

/// `value` without the double quotes around it, where it has both.
pub open spec fn unquoted(value: Seq<char>) -> Seq<char> {
    if value.len() >= 2 && value[0] == '"' && value.last() == '"' {
        value.subrange(1, value.len() - 1)
    } else {
        value
    }
}

/// What stands behind the first `=` of the first of `parts` whose name is `key`.
pub open spec fn first_value(parts: Seq<Seq<char>>, key: Seq<char>) -> Option<Seq<char>>
    decreases parts.len(),
{
    if parts.len() == 0 {
        None
    } else {
        match split_once(parts[0], '=') {
            Some((name, value)) => if name == key {
                Some(value)
            } else {
                first_value(parts.drop_first(), key)
            },
            None => first_value(parts.drop_first(), key),
        }
    }
}

/// The value of `key` in a `;`-separated payload.
pub open spec fn field_of(payload: Seq<char>, key: Seq<char>) -> Option<Seq<char>> {
    match first_value(split(payload, ';'), key) {
        Some(value) => Some(unquoted(value)),
        None => None,
    }
}

/// The value of `key` in a `;`-separated payload, with surrounding quotes removed.
///
/// `None` when the key is absent, and `Some("")` when it is present and empty: `BRID=;` is
/// a real, meaningful field.
pub fn field<'a>(payload: &'a str, key: &str) -> (r: Option<&'a str>)
    ensures
        match r {
            Some(value) => field_of(payload@, key@) == Some(value@),
            None => field_of(payload@, key@) is None,
        },
{
    let v = text::chars(payload);
    let k = text::chars(key);
    let ghost all = payload@;
    let mut start: usize = 0;
    let mut more = true;
    assert(all.skip(0) =~= all);
    while more
        invariant
            v@ == all,
            all == payload@,
            k@ == key@,
            start <= v@.len(),
            more ==> first_value(split(all, ';'), k@) == first_value(
                split(all.skip(start as int), ';'),
                k@,
            ),
            !more ==> first_value(split(all, ';'), k@) is None,
        decreases v@.len() - start + if more {
            1int
        } else {
            0int
        },
    {
        let rest = slice_subrange(v.as_slice(), start, v.len());
        assert(rest@ =~= all.skip(start as int));
        let len: usize = text::position(rest, ';');
        let segment = slice_subrange(rest, 0, len);
        let ghost parts = split(rest@, ';');
        assert(segment@ =~= rest@.take(len as int));
        let at: usize = text::position(segment, '=');
        let mut found = false;
        if at < segment.len() {
            let name = slice_subrange(segment, 0, at);
            assert(name@ =~= segment@.take(at as int));
            found = text::same_chars(name, k.as_slice());
        }
        proof {
            if len < rest@.len() {
                assert(parts[0] == segment@);
                assert(parts.drop_first() =~= split(rest@.skip(len + 1), ';'));
            } else {
                assert(segment@ =~= rest@);
                assert(parts[0] == segment@);
                assert(parts.drop_first() =~= seq![]);
                assert(first_value(parts.drop_first(), k@) is None);
            }
        }
        if found {
            let from: usize = start + at + 1;
            let to: usize = start + len;
            let ghost value = segment@.skip(at + 1);
            assert(value =~= all.subrange(from as int, to as int));
            if to - from >= 2 && v[from] == '"' && v[to - 1] == '"' {
                let out = payload.substring_char(from + 1, to - 1);
                assert(out@ =~= unquoted(value));
                return Some(out);
            }
            let out = payload.substring_char(from, to);
            assert(out@ =~= unquoted(value));
            return Some(out);
        }
        if len < rest.len() {
            assert(rest@.skip(len + 1) =~= all.skip(start + len + 1));
            start = start + len + 1;
        } else {
            more = false;
        }
    }
    None
}

// -------------------------------------------------------------------------- rendering

/// Fields written one after the other, each as its name, `=`, its value and `;`.
pub open spec fn render(fields: Seq<(Seq<char>, Seq<char>)>) -> Seq<char>
    decreases fields.len(),
{
    if fields.len() == 0 {
        seq![]
    } else {
        fields[0].0 + seq!['='] + fields[0].1 + seq![';'] + render(fields.drop_first())
    }
}

/// Whether fields can be read back: no `;` in a name or a value, no `=` in a name.
pub open spec fn plain(fields: Seq<(Seq<char>, Seq<char>)>) -> bool {
    forall|i: int|
        0 <= i < fields.len() ==> !(#[trigger] fields[i]).0.contains(';') && !fields[i].0.contains(
            '=',
        ) && !fields[i].1.contains(';')
}

/// The value of the first of `fields` whose name is `key`.
pub open spec fn lookup(fields: Seq<(Seq<char>, Seq<char>)>, key: Seq<char>) -> Option<Seq<char>>
    decreases fields.len(),
{
    if fields.len() == 0 {
        None
    } else if fields[0].0 == key {
        Some(fields[0].1)
    } else {
        lookup(fields.drop_first(), key)
    }
}

/// Reading fields that were written gives, for every name, the value it was first written
/// with, without quotes around it.
pub proof fn law_fields_read_back(fields: Seq<(Seq<char>, Seq<char>)>, key: Seq<char>)
    requires
        plain(fields),
    ensures
        field_of(render(fields), key) == match lookup(fields, key) {
            Some(value) => Some(unquoted(value)),
            None => None,
        },
{
    lemma_rendered(fields, key);
}

proof fn lemma_rendered(fields: Seq<(Seq<char>, Seq<char>)>, key: Seq<char>)
    requires
        plain(fields),
    ensures
        first_value(split(render(fields), ';'), key) == lookup(fields, key),
    decreases fields.len(),
{
    if fields.len() == 0 {
        text::lemma_split_none(Seq::<char>::empty(), ';');
        let parts = seq![Seq::<char>::empty()];
        assert(split_once(parts[0], '=') is None);
        assert(parts.drop_first() =~= seq![]);
        reveal_with_fuel(first_value, 2);
    } else {
        let (name, value) = fields[0];
        let rest = fields.drop_first();
        assert forall|i: int| 0 <= i < rest.len() implies !(#[trigger] rest[i]).0.contains(';')
            && !rest[i].0.contains('=') && !rest[i].1.contains(';') by {
            assert(rest[i] == fields[i + 1]);
        }
        lemma_rendered(rest, key);
        let segment = name + seq!['='] + value;
        assert(!segment.contains(';')) by {
            if segment.contains(';') {
                let j = segment.index_of(';');
                if j < name.len() {
                    assert(name[j] == ';');
                } else if j > name.len() {
                    assert(value[j - name.len() - 1] == ';');
                }
            }
        }
        assert(render(fields) =~= segment + seq![';'] + render(rest));
        text::lemma_split_first(segment, ';', render(rest));
        let parts = split(render(fields), ';');
        assert(parts[0] == segment);
        assert(parts.drop_first() =~= split(render(rest), ';'));
        text::lemma_split_first(name, '=', value);
        assert(segment.take(name.len() as int) =~= name);
        assert(segment.skip(name.len() as int + 1) =~= value);
    }
}

/// Whether no name occurs twice.
pub open spec fn distinct(fields: Seq<(Seq<char>, Seq<char>)>) -> bool {
    forall|i: int, j: int|
        0 <= i < j < fields.len() ==> (#[trigger] fields[i]).0 != (#[trigger] fields[j]).0
}

proof fn lemma_lookup(fields: Seq<(Seq<char>, Seq<char>)>, key: Seq<char>)
    ensures
        match lookup(fields, key) {
            Some(value) => fields.contains((key, value)),
            None => forall|i: int| 0 <= i < fields.len() ==> (#[trigger] fields[i]).0 != key,
        },
    decreases fields.len(),
{
    if fields.len() > 0 && fields[0].0 == key {
        assert(fields[0] == (key, fields[0].1));
    } else if fields.len() > 0 {
        let rest = fields.drop_first();
        lemma_lookup(rest, key);
        match lookup(rest, key) {
            Some(value) => {
                let j = choose|j: int| 0 <= j < rest.len() && rest[j] == (key, value);
                assert(fields[j + 1] == (key, value));
            },
            None => {
                assert forall|i: int| 0 <= i < fields.len() implies (#[trigger] fields[i]).0
                    != key by {
                    if i > 0 {
                        assert(rest[i - 1] == fields[i]);
                    }
                }
            },
        }
    }
}

/// The order of fields does not matter: where no name occurs twice, the same fields in
/// another order read the same.
pub proof fn law_field_order_does_not_matter(
    a: Seq<(Seq<char>, Seq<char>)>,
    b: Seq<(Seq<char>, Seq<char>)>,
    key: Seq<char>,
)
    requires
        plain(a),
        plain(b),
        distinct(a),
        distinct(b),
        a.to_multiset() == b.to_multiset(),
    ensures
        field_of(render(a), key) == field_of(render(b), key),
{
    law_fields_read_back(a, key);
    law_fields_read_back(b, key);
    lemma_lookup(a, key);
    lemma_lookup(b, key);
    broadcast use vstd::seq_lib::group_to_multiset_ensures;

    match (lookup(a, key), lookup(b, key)) {
        (Some(v), Some(w)) => {
            assert(a.to_multiset().count((key, v)) > 0);
            assert(b.contains((key, v)));
            let i = choose|i: int| 0 <= i < b.len() && b[i] == (key, v);
            let j = choose|j: int| 0 <= j < b.len() && b[j] == (key, w);
            if i < j {
                assert(b[i].0 != b[j].0);
            } else if j < i {
                assert(b[j].0 != b[i].0);
            }
        },
        (Some(v), None) => {
            assert(a.to_multiset().count((key, v)) > 0);
            assert(b.contains((key, v)));
            let i = choose|i: int| 0 <= i < b.len() && b[i] == (key, v);
            assert(b[i].0 != key);
        },
        (None, Some(w)) => {
            assert(b.to_multiset().count((key, w)) > 0);
            assert(a.contains((key, w)));
            let i = choose|i: int| 0 <= i < a.len() && a[i] == (key, w);
            assert(a[i].0 != key);
        },
        (None, None) => {},
    }
}

/// Another field changes nothing that is read under any other name, wherever it stands.
pub proof fn law_other_fields_change_nothing(
    fields: Seq<(Seq<char>, Seq<char>)>,
    at: int,
    other: (Seq<char>, Seq<char>),
    key: Seq<char>,
)
    requires
        0 <= at <= fields.len(),
        plain(fields),
        plain(seq![other]),
        other.0 != key,
    ensures
        field_of(render(fields.insert(at, other)), key) == field_of(render(fields), key),
{
    let more = fields.insert(at, other);
    assert(seq![other][0] == other);
    assert forall|i: int| 0 <= i < more.len() implies !(#[trigger] more[i]).0.contains(';')
        && !more[i].0.contains('=') && !more[i].1.contains(';') by {
        if i < at {
            assert(more[i] == fields[i]);
        } else if i > at {
            assert(more[i] == fields[i - 1]);
        }
    }
    law_fields_read_back(fields, key);
    law_fields_read_back(more, key);
    lemma_lookup_insert(fields, at, other, key);
}

proof fn lemma_lookup_insert(
    fields: Seq<(Seq<char>, Seq<char>)>,
    at: int,
    other: (Seq<char>, Seq<char>),
    key: Seq<char>,
)
    requires
        0 <= at <= fields.len(),
        other.0 != key,
    ensures
        lookup(fields.insert(at, other), key) == lookup(fields, key),
    decreases at,
{
    let more = fields.insert(at, other);
    if at == 0 {
        assert(more.drop_first() =~= fields);
    } else {
        assert(more.drop_first() =~= fields.drop_first().insert(at - 1, other));
        lemma_lookup_insert(fields.drop_first(), at - 1, other, key);
    }
}

/// Quotes around a value are not part of it; anywhere else, and on one side alone, they are.
pub proof fn law_quotes_around_a_value_are_dropped(value: Seq<char>, bare: Seq<char>)
    requires
        bare.len() < 2 || bare[0] != '"' || bare.last() != '"',
    ensures
        unquoted(seq!['"'] + value + seq!['"']) == value,
        unquoted(bare) == bare,
{
    let quoted = seq!['"'] + value + seq!['"'];
    assert(quoted.subrange(1, quoted.len() - 1) =~= value);
}

/// What a payload says under a name is what was first written under it: behind fields with
/// other names, and whatever follows; a name that is not written says nothing.
pub proof fn law_the_first_field_counts(
    fields: Seq<(Seq<char>, Seq<char>)>,
    i: int,
    key: Seq<char>,
)
    requires
        plain(fields),
    ensures
        0 <= i < fields.len() && fields[i].0 == key && (forall|j: int|
            0 <= j < i ==> (#[trigger] fields[j]).0 != key) ==> field_of(render(fields), key)
            == Some(unquoted(fields[i].1)),
        (forall|j: int| 0 <= j < fields.len() ==> (#[trigger] fields[j]).0 != key) ==> field_of(
            render(fields),
            key,
        ) is None,
{
    law_fields_read_back(fields, key);
    lemma_lookup_at(fields, i, key);
}

proof fn lemma_lookup_at(fields: Seq<(Seq<char>, Seq<char>)>, i: int, key: Seq<char>)
    ensures
        0 <= i < fields.len() && fields[i].0 == key && (forall|j: int|
            0 <= j < i ==> (#[trigger] fields[j]).0 != key) ==> lookup(fields, key) == Some(
            fields[i].1,
        ),
        (forall|j: int| 0 <= j < fields.len() ==> (#[trigger] fields[j]).0 != key) ==> lookup(
            fields,
            key,
        ) is None,
    decreases fields.len(),
{
    if fields.len() > 0 {
        let less = fields.drop_first();
        lemma_lookup_at(less, i - 1, key);
        if forall|j: int| 0 <= j < fields.len() ==> (#[trigger] fields[j]).0 != key {
            assert(fields[0].0 != key);
            assert forall|j: int| 0 <= j < less.len() implies (#[trigger] less[j]).0 != key by {
                let k: int = j + 1;
                assert(fields[k].0 != key);
            }
        }
        if 0 < i < fields.len() && fields[i].0 == key && (forall|j: int|
            0 <= j < i ==> (#[trigger] fields[j]).0 != key) {
            assert(fields[0].0 != key);
            assert(less[i - 1] == fields[i]);
            assert forall|j: int| 0 <= j < i - 1 implies (#[trigger] less[j]).0 != key by {
                let k: int = j + 1;
                assert(fields[k].0 != key);
            }
        }
    }
}

} // verus!
