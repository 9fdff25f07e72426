use vstd::prelude::*;
use crate::btree::{text_lt, text_less};
use crate::value::{Json, Value, arr_view, obj_view, lemma_view_parts};

verus! {

pub open spec fn digit_char(d: int) -> char {
    if d == 0 { '0' } else if d == 1 { '1' } else if d == 2 { '2' } else if d == 3 { '3' }
    else if d == 4 { '4' } else if d == 5 { '5' } else if d == 6 { '6' } else if d == 7 { '7' }
    else if d == 8 { '8' } else { '9' }
}

/// Decimal digits of a natural number, without leading zeros.
pub open spec fn nat_text(n: nat) -> Seq<char>
    decreases n,
{
    if n < 10 {
        seq![digit_char(n as int)]
    } else {
        nat_text(n / 10) + seq![digit_char((n % 10) as int)]
    }
}

/// Decimal text of an integer, with a leading `-` when negative.
pub open spec fn int_text(n: int) -> Seq<char> {
    if n < 0 {
        seq!['-'] + nat_text((-n) as nat)
    } else {
        nat_text(n as nat)
    }
}

fn digit_str(d: u128) -> (r: &'static str)
    requires
        d < 10,
    ensures
        r@ == seq![digit_char(d as int)],
{
    proof {
        reveal_strlit("0");
        reveal_strlit("1");
        reveal_strlit("2");
        reveal_strlit("3");
        reveal_strlit("4");
        reveal_strlit("5");
        reveal_strlit("6");
        reveal_strlit("7");
        reveal_strlit("8");
        reveal_strlit("9");
    }
    if d == 0 { "0" } else if d == 1 { "1" } else if d == 2 { "2" } else if d == 3 { "3" }
    else if d == 4 { "4" } else if d == 5 { "5" } else if d == 6 { "6" } else if d == 7 { "7" }
    else if d == 8 { "8" } else { "9" }
}

/// Decimal text of `n`.
pub fn u128_text(n: u128) -> (r: String)
    ensures
        r@ == nat_text(n as nat),
    decreases n,
{
    if n < 10 {
        String::from_str(digit_str(n))
    } else {
        let head = u128_text(n / 10);
        head.concat(digit_str(n % 10))
    }
}

/// Decimal text of `n`, with a leading `-` when negative.
pub fn i128_text(n: i128) -> (r: String)
    ensures
        r@ == int_text(n as int),
{
    if n < 0 {
        let m: u128 = if n == i128::MIN {
            170141183460469231731687303715884105728u128
        } else {
            (-n) as u128
        };
        proof {
            reveal_strlit("-");
        }
        String::from_str("-").concat(u128_text(m).as_str())
    } else {
        u128_text(n as u128)
    }
}

pub open spec fn hex_char(d: int) -> char {
    if d < 10 {
        digit_char(d)
    } else if d == 10 { 'a' } else if d == 11 { 'b' } else if d == 12 { 'c' }
    else if d == 13 { 'd' } else if d == 14 { 'e' } else { 'f' }
}

/// How one character of a string is written inside JSON quotes.
pub open spec fn escape_char(c: char) -> Seq<char> {
    if c == '"' {
        seq!['\\', '"']
    } else if c == '\\' {
        seq!['\\', '\\']
    } else if c == '\n' {
        seq!['\\', 'n']
    } else if c == '\r' {
        seq!['\\', 'r']
    } else if c == '\t' {
        seq!['\\', 't']
    } else if c == '\x08' {
        seq!['\\', 'b']
    } else if c == '\x0c' {
        seq!['\\', 'f']
    } else if (c as u32) < 0x20 {
        seq!['\\', 'u', '0', '0', hex_char((c as u32) as int / 16), hex_char((c as u32) as int % 16)]
    } else {
        seq![c]
    }
}

pub open spec fn escape_text(s: Seq<char>) -> Seq<char>
    decreases s.len(),
{
    if s.len() == 0 {
        Seq::empty()
    } else {
        escape_text(s.drop_last()) + escape_char(s.last())
    }
}

pub open spec fn quoted(s: Seq<char>) -> Seq<char> {
    seq!['"'] + escape_text(s) + seq!['"']
}

/// Compact JSON text of a document, object keys in sorted order as serde_json
/// writes them.
pub open spec fn json_text(j: Json) -> Seq<char>
    decreases j,
{
    match j {
        Json::Null => seq!['n', 'u', 'l', 'l'],
        Json::Bool(b) => if b {
            seq!['t', 'r', 'u', 'e']
        } else {
            seq!['f', 'a', 'l', 's', 'e']
        },
        Json::Int(n) => int_text(n),
        Json::Float(t) => t,
        Json::Str(s) => quoted(s),
        Json::Arr(a) => seq!['['] + items_text(a, a.len() as int) + seq![']'],
        Json::Obj(m) => seq!['{'] + entries_text(m, key_order(m), m.len() as int) + seq!['}'],
    }
}

/// The first `n` elements, written and separated by commas.
pub open spec fn items_text(a: Seq<Json>, n: int) -> Seq<char>
    decreases a, n,
{
    if n <= 0 || n > a.len() {
        Seq::empty()
    } else if n == 1 {
        json_text(a[0])
    } else {
        items_text(a, n - 1) + seq![','] + json_text(a[n - 1])
    }
}

/// Position, within the first `n` of `rem`, of the index whose key is least
/// (the first of equal ones).
pub open spec fn min_at(keys: Seq<Seq<char>>, rem: Seq<int>, n: int) -> int
    decreases n,
{
    if n <= 1 {
        0
    } else {
        let p = min_at(keys, rem, n - 1);
        if text_lt(keys[rem[n - 1]], keys[rem[p]]) {
            n - 1
        } else {
            p
        }
    }
}

/// The indices of `rem` in the order of their keys.
pub open spec fn order_from(keys: Seq<Seq<char>>, rem: Seq<int>) -> Seq<int>
    decreases rem.len(),
{
    if rem.len() == 0 {
        Seq::empty()
    } else {
        let p = min_at(keys, rem, rem.len() as int);
        if 0 <= p < rem.len() {
            seq![rem[p]] + order_from(keys, rem.remove(p))
        } else {
            Seq::empty()
        }
    }
}

/// The positions of an object's entries sorted by key, as serde_json writes them.
pub open spec fn key_order(m: Seq<(Seq<char>, Json)>) -> Seq<int> {
    order_from(Seq::new(m.len(), |i: int| m[i].0), Seq::new(m.len(), |i: int| i))
}

/// One entry written as `"key":value`.
pub open spec fn entry_text(m: Seq<(Seq<char>, Json)>, i: int) -> Seq<char>
    decreases m, 0int,
{
    if 0 <= i < m.len() {
        quoted(m[i].0) + seq![':'] + json_text(m[i].1)
    } else {
        Seq::empty()
    }
}

/// The entries at the first `n` positions of `ord`, separated by commas.
pub open spec fn entries_text(m: Seq<(Seq<char>, Json)>, ord: Seq<int>, n: int) -> Seq<char>
    decreases m, n,
{
    if n <= 0 || n > ord.len() {
        Seq::empty()
    } else if n == 1 {
        entry_text(m, ord[0])
    } else {
        entries_text(m, ord, n - 1) + seq![','] + entry_text(m, ord[n - 1])
    }
}

proof fn lemma_order_len(keys: Seq<Seq<char>>, rem: Seq<int>, x: int)
    ensures
        order_from(keys, rem).len() == rem.len(),
        (forall|j: int| 0 <= j < rem.len() ==> 0 <= #[trigger] rem[j] < x) ==> forall|j: int|
            0 <= j < rem.len() ==> 0 <= #[trigger] order_from(keys, rem)[j] < x,
    decreases rem.len(),
{
    if rem.len() > 0 {
        let p = min_at(keys, rem, rem.len() as int);
        lemma_min_at_range(keys, rem, rem.len() as int);
        let r2 = rem.remove(p);
        lemma_order_len(keys, r2, x);
        if forall|j: int| 0 <= j < rem.len() ==> 0 <= #[trigger] rem[j] < x {
            assert forall|j: int| 0 <= j < r2.len() implies 0 <= #[trigger] r2[j] < x by {
                if j < p {
                    assert(r2[j] == rem[j]);
                } else {
                    assert(r2[j] == rem[j + 1]);
                }
            }
            assert forall|j: int| 0 <= j < rem.len() implies 0 <= #[trigger] order_from(keys, rem)[j] < x by {
                if j > 0 {
                    assert(order_from(keys, rem)[j] == order_from(keys, r2)[j - 1]);
                }
            }
        }
    }
}

proof fn lemma_min_at_range(keys: Seq<Seq<char>>, rem: Seq<int>, n: int)
    ensures
        n >= 1 ==> 0 <= min_at(keys, rem, n) < n,
    decreases n,
{
    if n > 1 {
        lemma_min_at_range(keys, rem, n - 1);
    }
}

/// The key under which a value is indexed or joined: a string stands for its own
/// characters, anything else for its JSON text.
pub open spec fn canonical(j: Json) -> Seq<char> {
    match j {
        Json::Str(s) => s,
        _ => json_text(j),
    }
}

fn hex_str(d: u32) -> (r: &'static str)
    requires
        d < 16,
    ensures
        r@ == seq![hex_char(d as int)],
{
    if d < 10 {
        return digit_str(d as u128);
    }
    proof {
        reveal_strlit("a");
        reveal_strlit("b");
        reveal_strlit("c");
        reveal_strlit("d");
        reveal_strlit("e");
        reveal_strlit("f");
    }
    if d == 10 { "a" } else if d == 11 { "b" } else if d == 12 { "c" }
    else if d == 13 { "d" } else if d == 14 { "e" } else { "f" }
}

fn push_escaped_char(out: &mut String, s: &str, i: usize, n: usize)
    requires
        i < n,
        n == s@.len(),
    ensures
        final(out)@ == old(out)@ + escape_char(s@[i as int]),
{
    let c = s.get_char(i);
    proof {
        reveal_strlit("\\\"");
        reveal_strlit("\\\\");
        reveal_strlit("\\n");
        reveal_strlit("\\r");
        reveal_strlit("\\t");
        reveal_strlit("\\b");
        reveal_strlit("\\f");
        reveal_strlit("\\u00");
    }
    if c == '"' {
        out.append("\\\"");
    } else if c == '\\' {
        out.append("\\\\");
    } else if c == '\n' {
        out.append("\\n");
    } else if c == '\r' {
        out.append("\\r");
    } else if c == '\t' {
        out.append("\\t");
    } else if c == '\x08' {
        out.append("\\b");
    } else if c == '\x0c' {
        out.append("\\f");
    } else if (c as u32) < 0x20 {
        out.append("\\u00");
        out.append(hex_str((c as u32) / 16));
        out.append(hex_str((c as u32) % 16));
        proof {
            assert(final(out)@ =~= old(out)@ + escape_char(c));
        }
    } else {
        out.append(s.substring_char(i, i + 1));
        proof {
            assert(s@.subrange(i as int, i as int + 1) =~= seq![c]);
        }
    }
}

/// Appends `s` in JSON quotes, escaped.
pub fn push_quoted(out: &mut String, s: &str)
    ensures
        final(out)@ == old(out)@ + quoted(s@),
{
    let ghost o = out@;
    proof {
        reveal_strlit("\"");
    }
    out.append("\"");
    let n = s.unicode_len();
    let mut i: usize = 0;
    while i < n
        invariant
            n == s@.len(),
            0 <= i <= n,
            out@ == o + seq!['"'] + escape_text(s@.subrange(0, i as int)),
        decreases n - i,
    {
        push_escaped_char(out, s, i, n);
        proof {
            let t = s@.subrange(0, i as int + 1);
            assert(t.drop_last() =~= s@.subrange(0, i as int));
        }
        i = i + 1;
    }
    out.append("\"");
    proof {
        assert(s@.subrange(0, n as int) =~= s@);
        assert(out@ =~= o + quoted(s@));
    }
}

/// Appends the compact JSON text of `v`.
pub fn push_json(out: &mut String, v: &Value)
    ensures
        final(out)@ == old(out)@ + json_text(v@),
    decreases v,
{
    let ghost o = out@;
    proof {
        lemma_view_parts(v);
        reveal_strlit("null");
        reveal_strlit("true");
        reveal_strlit("false");
        reveal_strlit("[");
        reveal_strlit("]");
        reveal_strlit("{");
        reveal_strlit("}");
        reveal_strlit(",");
        reveal_strlit(":");
    }
    match v {
        Value::Null => out.append("null"),
        Value::Bool(b) => if *b {
            out.append("true")
        } else {
            out.append("false")
        },
        Value::Int(n) => {
            let t = i128_text(*n);
            out.append(t.as_str());
        },
        Value::Float(t) => out.append(t.as_str()),
        Value::Str(s) => push_quoted(out, s.as_str()),
        Value::Array(a) => {
            out.append("[");
            let mut i: usize = 0;
            while i < a.len()
                invariant
                    *v == Value::Array(*a),
                    0 <= i <= a@.len(),
                    out@ == o + seq!['['] + items_text(arr_view(a@), i as int),
                decreases a@.len() - i,
            {
                proof {
                    assert(decreases_to!(*v => v->Array_0));
                    assert(decreases_to!(*a => a@));
                    assert(decreases_to!(a@ => a@[i as int]));
                    reveal_strlit(",");
                }
                if i > 0 {
                    out.append(",");
                }
                push_json(out, &a[i]);
                proof {
                    assert(arr_view(a@)[i as int] == a@[i as int]@);
                    assert(out@ =~= o + seq!['['] + items_text(arr_view(a@), i as int + 1));
                }
                i = i + 1;
            }
            out.append("]");
            proof {
                assert(out@ =~= o + json_text(v@));
            }
        },
        Value::Object(m) => {
            let order = key_order_of(m);
            let ghost mv = obj_view(m@);
            out.append("{");
            let mut t: usize = 0;
            while t < order.len()
                invariant
                    *v == Value::Object(*m),
                    mv == obj_view(m@),
                    ints(order@) == key_order(mv),
                    order@.len() == m@.len(),
                    forall|j: int| 0 <= j < order@.len() ==> (#[trigger] order@[j]) < m@.len(),
                    0 <= t <= order@.len(),
                    out@ == o + seq!['{'] + entries_text(mv, key_order(mv), t as int),
                decreases order@.len() - t,
            {
                let i = order[t];
                proof {
                    assert(decreases_to!(*v => v->Object_0));
                    assert(decreases_to!(*m => m@));
                    assert(decreases_to!(m@ => m@[i as int]));
                    assert(decreases_to!(m@[i as int] => m@[i as int].1));
                    reveal_strlit(",");
                    reveal_strlit(":");
                    assert(key_order(mv)[t as int] == i as int);
                }
                if t > 0 {
                    out.append(",");
                }
                push_quoted(out, m[i].0.as_str());
                out.append(":");
                push_json(out, &m[i].1);
                proof {
                    assert(mv[i as int] == (m@[i as int].0@, m@[i as int].1@));
                    assert(entry_text(mv, i as int) == quoted(m@[i as int].0@) + seq![':'] + json_text(m@[i as int].1@));
                    assert(out@ =~= o + seq!['{'] + entries_text(mv, key_order(mv), t as int + 1));
                }
                t = t + 1;
            }
            out.append("}");
            proof {
                assert(out@ =~= o + json_text(v@));
            }
        },
    }
}

pub open spec fn ints(s: Seq<usize>) -> Seq<int> {
    Seq::new(s.len(), |i: int| s[i] as int)
}

/// The positions of the entries of `m` sorted by key.
fn key_order_of(m: &Vec<(String, Value)>) -> (r: Vec<usize>)
    ensures
        ints(r@) == key_order(obj_view(m@)),
        r@.len() == m@.len(),
        forall|j: int| 0 <= j < r@.len() ==> (#[trigger] r@[j]) < m@.len(),
{
    let ghost mv = obj_view(m@);
    let ghost keys = Seq::new(mv.len(), |i: int| mv[i].0);
    let ghost init = Seq::new(mv.len(), |i: int| i);
    let n = m.len();
    let mut rem: Vec<usize> = Vec::new();
    let mut k: usize = 0;
    while k < n
        invariant
            n == m@.len(),
            0 <= k <= n,
            ints(rem@) == Seq::new(k as nat, |i: int| i),
        decreases n - k,
    {
        let ghost pr = ints(rem@);
        rem.push(k);
        proof {
            assert(ints(rem@) =~= pr.push(k as int));
            assert(ints(rem@) =~= Seq::new(k as nat + 1, |i: int| i));
        }
        k = k + 1;
    }
    let mut order: Vec<usize> = Vec::new();
    proof {
        assert(ints(rem@) =~= init);
        assert forall|j: int| 0 <= j < rem@.len() implies (#[trigger] rem@[j]) < n by {
            assert(ints(rem@)[j] == j);
        }
        assert(ints(order@) + order_from(keys, ints(rem@)) =~= order_from(keys, init));
    }
    while rem.len() > 0
        invariant
            n == m@.len(),
            mv == obj_view(m@),
            keys == Seq::new(mv.len(), |i: int| mv[i].0),
            init == Seq::new(mv.len(), |i: int| i),
            ints(order@) + order_from(keys, ints(rem@)) == order_from(keys, init),
            forall|j: int| 0 <= j < rem@.len() ==> (#[trigger] rem@[j]) < n,
            forall|j: int| 0 <= j < order@.len() ==> (#[trigger] order@[j]) < n,
        decreases rem@.len(),
    {
        let ghost rv = ints(rem@);
        let mut p: usize = 0;
        let mut j: usize = 1;
        while j < rem.len()
            invariant
                n == m@.len(),
                mv == obj_view(m@),
                keys == Seq::new(mv.len(), |i: int| mv[i].0),
                rv == ints(rem@),
                forall|q: int| 0 <= q < rem@.len() ==> (#[trigger] rem@[q]) < n,
                1 <= j <= rem@.len(),
                p < j,
                p as int == min_at(keys, rv, j as int),
            decreases rem@.len() - j,
        {
            if text_less(&m[rem[j]].0, &m[rem[p]].0) {
                p = j;
            }
            j = j + 1;
        }
        let ghost ord0 = ints(order@);
        let ghost rs = rem@;
        let x = rem[p];
        order.push(x);
        rem.remove(p);
        proof {
            assert(ints(order@) =~= ord0.push(x as int));
            assert(ints(rem@) =~= rv.remove(p as int));
            lemma_min_at_range(keys, rv, rv.len() as int);
            assert(order_from(keys, rv) == seq![rv[p as int]] + order_from(keys, rv.remove(p as int)));
            assert(ints(order@) + order_from(keys, ints(rem@)) =~= ord0 + order_from(keys, rv));
            assert(rem@ =~= rs.remove(p as int));
            assert forall|q: int| 0 <= q < rem@.len() implies (#[trigger] rem@[q]) < n by {
                if q < p {
                    assert(rem@[q] == rs[q]);
                } else {
                    assert(rem@[q] == rs[q + 1]);
                }
            }
        }
    }
    proof {
        assert(ints(rem@) =~= Seq::<int>::empty());
        assert(ints(order@) =~= order_from(keys, init));
        lemma_order_len(keys, init, n as int);
    }
    order
}

/// The compact JSON text of `v`.
pub fn to_json_text(v: &Value) -> (r: String)
    ensures
        r@ == json_text(v@),
{
    let mut out = String::new();
    push_json(&mut out, v);
    proof {
        assert(out@ =~= json_text(v@));
    }
    out
}

/// The key under which `v` is indexed or joined.
pub fn canonical_key(v: &Value) -> (r: String)
    ensures
        r@ == canonical(v@),
{
    match v {
        Value::Str(s) => s.clone(),
        _ => to_json_text(v),
    }
}

} // verus!
