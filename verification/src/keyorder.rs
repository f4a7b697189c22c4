//! The order that keys stand for, and the proof that their bytes keep it.

use vstd::prelude::*;

use crate::double;
use crate::double::Double;
use crate::order;
use crate::value;
use crate::value::{MissingOrder, Part};

verus! {

/// `a` lies below `b`.
pub open spec fn number_before(a: Double, b: Double) -> bool {
    a.place() < b.place()
}

/// Two key parts have the same value. The two zeros are one number.
pub open spec fn same_value(a: Part, b: Part) -> bool {
    match (a, b) {
        (Part::Num(x), Part::Num(y)) => x.place() == y.place(),
        _ => a == b,
    }
}

/// Two lists of key parts have the same values.
pub open spec fn same_values(a: Seq<Part>, b: Seq<Part>) -> bool {
    a.len() == b.len() && forall|i: int|
        0 <= i < a.len() ==> same_value(#[trigger] a[i], #[trigger] b[i])
}

/// Two present values of one type in ascending order: numbers by magnitude,
/// dates by instant, strings byte by byte.
pub open spec fn value_before(a: Part, b: Part) -> bool {
    match (a, b) {
        (Part::Num(x), Part::Num(y)) => number_before(x, y),
        (Part::Date(x), Part::Date(y)) => x < y,
        (Part::Str(x), Part::Str(y)) => order::bytes_lt(
            vstd::utf8::encode_utf8(x),
            vstd::utf8::encode_utf8(y),
        ),
        _ => false,
    }
}

/// One key part stands before another: present values in ascending or
/// descending order, missing ones first or last whatever that order is.
pub open spec fn part_before(a: Part, b: Part, desc: bool, missing: MissingOrder) -> bool {
    if a is Missing || b is Missing {
        if missing == MissingOrder::First {
            a is Missing && !(b is Missing)
        } else {
            b is Missing && !(a is Missing)
        }
    } else if desc {
        value_before(b, a)
    } else {
        value_before(a, b)
    }
}

/// Two parts that can come from one key: of the same type or missing, and
/// numbers only where a type is a number.
pub open spec fn comparable(a: Part, b: Part) -> bool {
    match (a, b) {
        (Part::Num(x), Part::Num(y)) => !x.is_nan() && !y.is_nan(),
        (Part::Date(_), Part::Date(_)) => true,
        (Part::Str(_), Part::Str(_)) => true,
        (Part::Missing, _) => true,
        (_, Part::Missing) => true,
        _ => false,
    }
}

/// Lists of parts that can come from the same keys.
pub open spec fn all_comparable(a: Seq<Part>, b: Seq<Part>) -> bool {
    a.len() == b.len() && forall|i: int|
        0 <= i < a.len() ==> comparable(#[trigger] a[i], #[trigger] b[i])
}

/// The first part that differs in value decides.
pub open spec fn parts_before(
    a: Seq<Part>,
    b: Seq<Part>,
    desc: Seq<bool>,
    missing: MissingOrder,
) -> bool
    decreases a.len(),
{
    if a.len() == 0 || b.len() == 0 || desc.len() == 0 {
        false
    } else if same_value(a[0], b[0]) {
        parts_before(a.drop_first(), b.drop_first(), desc.drop_first(), missing)
    } else {
        part_before(a[0], b[0], desc[0], missing)
    }
}

/// The encodings of the parts one after the other.
pub open spec fn key_bytes(parts: Seq<Part>, desc: Seq<bool>, missing: MissingOrder) -> Seq<u8>
    decreases parts.len(),
{
    if parts.len() == 0 || desc.len() == 0 {
        Seq::empty()
    } else {
        value::encoding(parts[0], desc[0], missing) + key_bytes(
            parts.drop_first(),
            desc.drop_first(),
            missing,
        )
    }
}

/// Adding a part at the end adds its encoding at the end.
pub proof fn lemma_key_bytes_push(
    parts: Seq<Part>,
    desc: Seq<bool>,
    missing: MissingOrder,
    p: Part,
    d: bool,
)
    requires
        parts.len() == desc.len(),
    ensures
        key_bytes(parts.push(p), desc.push(d), missing) == key_bytes(parts, desc, missing)
            + value::encoding(p, d, missing),
    decreases parts.len(),
{
    let ps = parts.push(p);
    let ds = desc.push(d);
    if parts.len() == 0 {
        assert(key_bytes(ps.drop_first(), ds.drop_first(), missing) =~= Seq::<u8>::empty());
        assert(key_bytes(ps, ds, missing) =~= Seq::<u8>::empty() + value::encoding(p, d, missing));
    } else {
        assert(ps.drop_first() =~= parts.drop_first().push(p));
        assert(ds.drop_first() =~= desc.drop_first().push(d));
        lemma_key_bytes_push(parts.drop_first(), desc.drop_first(), missing, p, d);
        let head = value::encoding(parts[0], desc[0], missing);
        let tail = key_bytes(parts.drop_first(), desc.drop_first(), missing);
        assert(head + (tail + value::encoding(p, d, missing)) =~= (head + tail) + value::encoding(
            p,
            d,
            missing,
        ));
    }
}

// ---------------------------------------------------------------------------
// Fixed-width numbers

spec fn fits(n: nat, w: nat) -> bool
    decreases w,
{
    if w == 0 {
        n == 0
    } else {
        fits(n / 256, (w - 1) as nat)
    }
}

proof fn lemma_big_endian(a: nat, b: nat, w: nat)
    requires
        fits(a, w),
        fits(b, w),
    ensures
        a != b ==> order::apart(value::big_endian(a, w), value::big_endian(b, w)),
        order::bytes_lt(value::big_endian(a, w), value::big_endian(b, w)) <==> a < b,
    decreases w,
{
    if w == 0 {
        order::lemma_irreflexive(value::big_endian(a, w));
    } else {
        let v = (w - 1) as nat;
        let ha = value::big_endian(a / 256, v);
        let hb = value::big_endian(b / 256, v);
        let xa = (a % 256) as u8;
        let xb = (b % 256) as u8;
        lemma_big_endian(a / 256, b / 256, v);
        assert(value::big_endian(a, w) =~= ha + seq![xa]);
        assert(value::big_endian(b, w) =~= hb + seq![xb]);
        if a / 256 != b / 256 {
            order::lemma_apart_extends(ha, hb, seq![xa], seq![xb]);
        } else {
            order::lemma_common_prefix(ha, seq![xa], seq![xb]);
            if xa != xb {
                order::lemma_shared_is(seq![xa], seq![xb], 0);
            } else {
                order::lemma_irreflexive(seq![xa]);
                assert(a == b);
            }
        }
    }
}

proof fn lemma_big_endian_8(a: nat, b: nat)
    requires
        a <= u64::MAX,
        b <= u64::MAX,
    ensures
        a != b ==> order::apart(value::big_endian(a, 8), value::big_endian(b, 8)),
        order::bytes_lt(value::big_endian(a, 8), value::big_endian(b, 8)) <==> a < b,
{
    reveal_with_fuel(fits, 9);
    lemma_big_endian(a, b, 8);
}

proof fn lemma_ordered(a: Double, b: Double)
    requires
        !a.is_nan(),
        !b.is_nan(),
    ensures
        value::ordered(a) < value::ordered(b) <==> number_before(a, b),
        value::ordered(a) == value::ordered(b) <==> a.place() == b.place(),
        value::ordered(a) <= u64::MAX,
{
    double::lemma_size_order(a.magnitude(), b.magnitude());
    double::lemma_size_order(b.magnitude(), a.magnitude());
    double::lemma_size_order(0, a.magnitude());
    double::lemma_size_order(0, b.magnitude());
}

// ---------------------------------------------------------------------------
// Strings

proof fn lemma_escaped_append(a: Seq<u8>, b: Seq<u8>)
    ensures
        value::escaped(a + b) == value::escaped(a) + value::escaped(b),
    decreases b.len(),
{
    if b.len() == 0 {
        assert(a + b =~= a);
        assert(value::escaped(a) + value::escaped(b) =~= value::escaped(a));
    } else {
        assert((a + b).drop_last() =~= a + b.drop_last());
        lemma_escaped_append(a, b.drop_last());
        assert(value::escaped(a + b) =~= value::escaped(a) + value::escaped(b));
    }
}

/// How the terminated encoding of a string begins.
proof fn lemma_escaped_head(x: Seq<u8>)
    ensures
        ({
            let e = value::escaped(x) + seq![0u8, 0u8];
            &&& e.len() >= 1
            &&& x.len() == 0 ==> e.len() == 2 && e[0] == 0 && e[1] == 0
            &&& x.len() > 0 && x[0] == 0 ==> e.len() >= 2 && e[0] == 0 && e[1] == 1
            &&& x.len() > 0 && x[0] != 0 ==> e[0] == x[0]
        }),
{
    if x.len() > 0 {
        let head = seq![x[0]];
        let tail = x.drop_first();
        assert(head + tail =~= x);
        lemma_escaped_append(head, tail);
        assert(head.drop_last() =~= Seq::<u8>::empty());
        reveal_with_fuel(value::escaped, 2);
    }
}

proof fn lemma_strings(x: Seq<u8>, y: Seq<u8>)
    ensures
        ({
            let a = value::escaped(x) + seq![0u8, 0u8];
            let b = value::escaped(y) + seq![0u8, 0u8];
            &&& x != y ==> order::apart(a, b)
            &&& order::bytes_lt(a, b) <==> order::bytes_lt(x, y)
        }),
{
    let end = seq![0u8, 0u8];
    let a = value::escaped(x) + end;
    let b = value::escaped(y) + end;
    order::lemma_trichotomy(x, y);
    if x == y {
        order::lemma_irreflexive(a);
    } else {
        order::lemma_shared(x, y);
        let i = order::shared(x, y);
        let p = x.take(i);
        let xs = x.skip(i);
        let ys = y.skip(i);
        assert(p =~= y.take(i));
        assert(p + xs =~= x);
        assert(p + ys =~= y);
        lemma_escaped_append(p, xs);
        lemma_escaped_append(p, ys);
        lemma_escaped_head(xs);
        lemma_escaped_head(ys);
        let ea = value::escaped(xs) + end;
        let eb = value::escaped(ys) + end;
        assert(a =~= value::escaped(p) + ea);
        assert(b =~= value::escaped(p) + eb);
        order::lemma_common_prefix(value::escaped(p), ea, eb);
        if xs.len() > 0 && ys.len() > 0 {
            assert(xs[0] == x[i] && ys[0] == y[i]);
            order::lemma_shared_is(ea, eb, 0);
        } else if xs.len() > 0 {
            if xs[0] == 0 {
                order::lemma_shared_is(ea, eb, 1);
            } else {
                order::lemma_shared_is(ea, eb, 0);
            }
        } else if ys.len() > 0 {
            if ys[0] == 0 {
                order::lemma_shared_is(ea, eb, 1);
            } else {
                order::lemma_shared_is(ea, eb, 0);
            }
        } else {
            assert(x =~= y);
        }
    }
}

// ---------------------------------------------------------------------------
// Laws

proof fn lemma_values(a: Part, b: Part)
    requires
        comparable(a, b),
        !(a is Missing),
        !(b is Missing),
    ensures
        same_value(a, b) ==> value::value_bytes(a) == value::value_bytes(b),
        !same_value(a, b) ==> order::apart(value::value_bytes(a), value::value_bytes(b)),
        order::bytes_lt(value::value_bytes(a), value::value_bytes(b)) <==> value_before(a, b),
{
    match (a, b) {
        (Part::Num(x), Part::Num(y)) => {
            lemma_ordered(x, y);
            lemma_ordered(y, x);
            lemma_big_endian_8(value::ordered(x), value::ordered(y));
        },
        (Part::Date(x), Part::Date(y)) => {
            lemma_big_endian_8((x + double::SIGN) as nat, (y + double::SIGN) as nat);
        },
        (Part::Str(x), Part::Str(y)) => {
            lemma_strings(vstd::utf8::encode_utf8(x), vstd::utf8::encode_utf8(y));
            vstd::utf8::encode_utf8_decode_utf8(x);
            vstd::utf8::encode_utf8_decode_utf8(y);
        },
        _ => {},
    }
}

/// The bytes of one key part compare as the part does: equal values encode to
/// the same bytes, and no encoding is a prefix of that of another value.
pub proof fn law_encoding_keeps_order(a: Part, b: Part, desc: bool, missing: MissingOrder)
    requires
        comparable(a, b),
    ensures
        same_value(a, b) ==> value::encoding(a, desc, missing) == value::encoding(
            b,
            desc,
            missing,
        ),
        !same_value(a, b) ==> order::apart(
            value::encoding(a, desc, missing),
            value::encoding(b, desc, missing),
        ),
        order::bytes_lt(value::encoding(a, desc, missing), value::encoding(b, desc, missing))
            <==> part_before(a, b, desc, missing),
{
    let ea = value::encoding(a, desc, missing);
    let eb = value::encoding(b, desc, missing);
    if a is Missing || b is Missing {
        if a == b {
            order::lemma_irreflexive(ea);
        } else {
            assert(ea[0] != eb[0]);
            order::lemma_shared_is(ea, eb, 0);
        }
    } else {
        lemma_values(a, b);
        lemma_values(b, a);
        let va = value::value_bytes(a);
        let vb = value::value_bytes(b);
        let t = seq![value::TAG_PRESENT];
        if same_value(a, b) {
            order::lemma_irreflexive(ea);
            order::lemma_irreflexive(va);
        } else if desc {
            order::lemma_inverted(va, vb);
            order::lemma_common_prefix(t, order::inverted(va), order::inverted(vb));
        } else {
            order::lemma_common_prefix(t, va, vb);
        }
    }
}

/// Missing parts stay where they are placed: `desc` turns the order of
/// present values around and does not move missing ones.
pub proof fn law_missing_placement_is_absolute(a: Part, b: Part, missing: MissingOrder)
    requires
        comparable(a, b),
    ensures
        a is Missing || b is Missing ==> order::bytes_lt(
            value::encoding(a, true, missing),
            value::encoding(b, true, missing),
        ) == order::bytes_lt(
            value::encoding(a, false, missing),
            value::encoding(b, false, missing),
        ),
        !(a is Missing) && !(b is Missing) ==> order::bytes_lt(
            value::encoding(a, true, missing),
            value::encoding(b, true, missing),
        ) == order::bytes_lt(
            value::encoding(b, false, missing),
            value::encoding(a, false, missing),
        ),
{
    law_encoding_keeps_order(a, b, true, missing);
    law_encoding_keeps_order(a, b, false, missing);
    law_encoding_keeps_order(b, a, false, missing);
}

/// Keys of several parts compare part by part: the first part that differs
/// in value decides. Keys are the same bytes exactly where all parts have the
/// same value.
pub proof fn law_parts_compare_in_order(
    a: Seq<Part>,
    b: Seq<Part>,
    desc: Seq<bool>,
    missing: MissingOrder,
)
    requires
        all_comparable(a, b),
        desc.len() == a.len(),
    ensures
        same_values(a, b) ==> key_bytes(a, desc, missing) == key_bytes(b, desc, missing),
        !same_values(a, b) ==> order::apart(
            key_bytes(a, desc, missing),
            key_bytes(b, desc, missing),
        ),
        order::bytes_lt(key_bytes(a, desc, missing), key_bytes(b, desc, missing))
            <==> parts_before(a, b, desc, missing),
    decreases a.len(),
{
    let ka = key_bytes(a, desc, missing);
    let kb = key_bytes(b, desc, missing);
    if a.len() == 0 {
        assert(a =~= b);
        order::lemma_irreflexive(ka);
    } else {
        assert(comparable(a[0], b[0]));
        law_encoding_keeps_order(a[0], b[0], desc[0], missing);
        let ea = value::encoding(a[0], desc[0], missing);
        let eb = value::encoding(b[0], desc[0], missing);
        let ta = key_bytes(a.drop_first(), desc.drop_first(), missing);
        let tb = key_bytes(b.drop_first(), desc.drop_first(), missing);
        if same_value(a[0], b[0]) {
            assert forall|i: int| 0 <= i < a.len() - 1 implies comparable(
                #[trigger] a.drop_first()[i],
                #[trigger] b.drop_first()[i],
            ) by {
                assert(comparable(a[i + 1], b[i + 1]));
            }
            law_parts_compare_in_order(a.drop_first(), b.drop_first(), desc.drop_first(), missing);
            order::lemma_common_prefix(ea, ta, tb);
            assert(same_values(a, b) <==> same_values(a.drop_first(), b.drop_first())) by {
                if same_values(a, b) {
                    assert forall|i: int| 0 <= i < a.len() - 1 implies same_value(
                        #[trigger] a.drop_first()[i],
                        #[trigger] b.drop_first()[i],
                    ) by {
                        assert(same_value(a[i + 1], b[i + 1]));
                    }
                }
                if same_values(a.drop_first(), b.drop_first()) {
                    assert forall|i: int| 0 <= i < a.len() implies same_value(
                        #[trigger] a[i],
                        #[trigger] b[i],
                    ) by {
                        if i > 0 {
                            assert(same_value(a.drop_first()[i - 1], b.drop_first()[i - 1]));
                        }
                    }
                }
            }
        } else {
            order::lemma_apart_extends(ea, eb, ta, tb);
        }
    }
}

/// Complementing whole keys turns the entire order around, missing parts
/// with it.
pub proof fn law_reverse_flips_the_order(
    a: Seq<Part>,
    b: Seq<Part>,
    desc: Seq<bool>,
    missing: MissingOrder,
)
    requires
        all_comparable(a, b),
        desc.len() == a.len(),
    ensures
        order::bytes_lt(
            order::inverted(key_bytes(a, desc, missing)),
            order::inverted(key_bytes(b, desc, missing)),
        ) <==> parts_before(b, a, desc, missing),
        same_values(a, b) <==> order::inverted(key_bytes(a, desc, missing)) == order::inverted(
            key_bytes(b, desc, missing),
        ),
{
    law_parts_compare_in_order(a, b, desc, missing);
    assert(all_comparable(b, a));
    law_parts_compare_in_order(b, a, desc, missing);
    let ka = key_bytes(a, desc, missing);
    let kb = key_bytes(b, desc, missing);
    if same_values(a, b) {
        assert(same_values(b, a));
        order::lemma_irreflexive(order::inverted(ka));
        order::lemma_irreflexive(ka);
    } else {
        order::lemma_inverted(ka, kb);
        order::lemma_shared(order::inverted(ka), order::inverted(kb));
    }
}

} // verus!
