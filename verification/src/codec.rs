use vstd::prelude::*;
use crate::datetime::{dec_digits, push_dec_digits};
use crate::id_pool::{IdPool, PoolView};
use crate::path::{is_digit, digits_value};
use crate::text::string_from_chars;
use crate::todo_list::{TodoItem, TodoList, ItemView, ListView, models_of};
use vstd::string::StrSliceExecFns;

verus! {

/// The persisted form of a list: a compact text record. Every number is a
/// decimal followed by `;`; text is length-prefixed, so no escaping is ever
/// needed; an option is `n`, or `s` followed by the value; a flag is `t` or
/// `f`. A list is its items (count-prefixed) followed by its pool (next
/// counter, recycle stack, used set, each length-prefixed).
pub open spec fn enc_num(n: int) -> Seq<char> {
    dec_digits(n) + seq![';']
}

pub open spec fn enc_str(s: Seq<char>) -> Seq<char> {
    enc_num(s.len() as int) + s
}

pub open spec fn enc_nums_body(v: Seq<usize>) -> Seq<char>
    decreases v.len(),
{
    if v.len() == 0 {
        Seq::empty()
    } else {
        enc_num(v.first() as int) + enc_nums_body(v.drop_first())
    }
}

pub open spec fn enc_nums(v: Seq<usize>) -> Seq<char> {
    enc_num(v.len() as int) + enc_nums_body(v)
}

pub open spec fn enc_pool(p: PoolView) -> Seq<char> {
    enc_num(p.next as int) + enc_nums(p.recycled) + enc_nums(p.used)
}

pub open spec fn enc_flag(b: bool) -> Seq<char> {
    if b {
        seq!['t']
    } else {
        seq!['f']
    }
}

pub open spec fn enc_opt_str(o: Option<Seq<char>>) -> Seq<char> {
    match o {
        None => seq!['n'],
        Some(s) => seq!['s'] + enc_str(s),
    }
}

pub open spec fn enc_item(iv: ItemView) -> Seq<char>
    decreases iv,
{
    enc_num(iv.id as int) + enc_flag(iv.completed) + enc_str(iv.description) + enc_opt_str(
        iv.deadline,
    ) + (match iv.sub_list {
        None => seq!['n'],
        Some(l) => seq!['s'] + enc_list(l),
    })
}

pub open spec fn enc_items_body(v: Seq<ItemView>) -> Seq<char>
    decreases v,
{
    if v.len() == 0 {
        Seq::empty()
    } else {
        enc_item(v.first()) + enc_items_body(v.drop_first())
    }
}

/// The whole serialized form of a list.
pub open spec fn enc_list(lv: ListView) -> Seq<char>
    decreases lv,
{
    enc_num(lv.items.len() as int) + enc_items_body(lv.items) + enc_pool(lv.pool)
}

/// Whether the text holds the given prefix at `pos`.
pub open spec fn starts_at(text: Seq<char>, pos: int, prefix: Seq<char>) -> bool {
    &&& 0 <= pos
    &&& pos + prefix.len() <= text.len()
    &&& text.subrange(pos, pos + prefix.len()) == prefix
}

/// A prefix made of two parts starts with the first part, and the second
/// part starts where the first ends.
proof fn lemma_starts_at_split(text: Seq<char>, pos: int, a: Seq<char>, b: Seq<char>)
    requires
        starts_at(text, pos, a + b),
    ensures
        starts_at(text, pos, a),
        starts_at(text, pos + a.len(), b),
{
    let ab = a + b;
    assert(text.subrange(pos, pos + a.len()) =~= a) by {
        assert(forall|i: int|
            0 <= i < a.len() ==> text.subrange(pos, pos + ab.len() as int)[i] == #[trigger] ab[i]);
        assert(forall|i: int| 0 <= i < a.len() ==> #[trigger] ab[i] == a[i]);
    }
    assert forall|i: int|
        0 <= i < b.len() implies text.subrange(pos + a.len(), pos + a.len() + b.len())[i]
        == b[i] by {
        assert(text.subrange(pos + a.len(), pos + a.len() + b.len())[i] == text[pos + a.len()
            + i]);
        assert(text.subrange(pos, pos + ab.len() as int)[a.len() + i] == text[pos + a.len() + i]);
        assert(ab[a.len() + i] == b[i]);
    }
    assert(text.subrange(pos + a.len(), pos + a.len() + b.len()) =~= b);
}

/// One step of a serialized number sequence body.
proof fn lemma_nums_body_step(v: Seq<usize>, k: int)
    requires
        0 <= k < v.len(),
    ensures
        enc_nums_body(v.skip(k)) == enc_num(v[k] as int) + enc_nums_body(v.skip(k + 1)),
    decreases v.len() - k,
{
    assert(v.skip(k).len() > 0);
    assert(v.skip(k).first() == v[k]);
    assert(v.skip(k).drop_first() =~= v.skip(k + 1));
}

/// One step of a serialized item sequence body.
proof fn lemma_items_body_step(v: Seq<ItemView>, k: int)
    requires
        0 <= k < v.len(),
    ensures
        enc_items_body(v.skip(k)) == enc_item(v[k]) + enc_items_body(v.skip(k + 1)),
    decreases v.len() - k,
{
    assert(v.skip(k).len() > 0);
    assert(v.skip(k).first() == v[k]);
    assert(v.skip(k).drop_first() =~= v.skip(k + 1));
}

/// What a serialized number looks like in the text: its digits, then the
/// terminating `;`.
proof fn lemma_num_prefix(t: Seq<char>, pos: int, n: int)
    requires
        0 <= n,
        starts_at(t, pos, enc_num(n)),
    ensures
        pos + dec_digits(n).len() + 1 <= t.len(),
        forall|i: int|
            0 <= i < dec_digits(n).len() ==> is_digit(#[trigger] t[pos + i]),
        t[pos + dec_digits(n).len()] == ';',
        t.subrange(pos, pos + dec_digits(n).len()) == dec_digits(n),
        digits_value(t.subrange(pos, pos + dec_digits(n).len())) == n,
        !is_digit(';'),
{
    lemma_dec_digits(n);
    let d = dec_digits(n);
    lemma_starts_at_split(t, pos, d, seq![';']);
    assert(t.subrange(pos + d.len(), pos + d.len() + 1)[0] == ';');
    assert forall|i: int| 0 <= i < d.len() implies is_digit(#[trigger] t[pos + i]) by {
        assert(t.subrange(pos, pos + d.len())[i] == t[pos + i]);
        assert(is_digit(d[i]));
    }
}

/// The digits of a non-negative number: at least one, all digits, and they
/// read back as the number.
proof fn lemma_dec_digits(n: int)
    requires
        0 <= n,
    ensures
        dec_digits(n).len() >= 1,
        forall|i: int| 0 <= i < dec_digits(n).len() ==> is_digit(#[trigger] dec_digits(n)[i]),
        digits_value(dec_digits(n)) == n,
    decreases n,
{
    if n < 10 {
        assert(digits_value(dec_digits(n)) == digits_value(Seq::<char>::empty()) * 10
            + crate::path::digit_val(dec_digits(n)[0])) by {
            assert(dec_digits(n).drop_last() =~= Seq::<char>::empty());
        }
    } else {
        lemma_dec_digits(n / 10);
        let d = dec_digits(n);
        assert(d == dec_digits(n / 10).push(crate::datetime::digit_char(n % 10)));
        assert(d.drop_last() =~= dec_digits(n / 10));
        assert(digits_value(d) == digits_value(dec_digits(n / 10)) * 10 + crate::path::digit_val(
            d.last(),
        ));
    }
}

/// Two equal texts that both start with an equally long prefix have equal
/// prefixes and equal remainders.
proof fn lemma_prefix_split(xa: Seq<char>, xb: Seq<char>, ra: Seq<char>, rb: Seq<char>)
    requires
        xa.len() == xb.len(),
        xa + ra == xb + rb,
    ensures
        xa == xb,
        ra == rb,
{
    assert(xa =~= xb) by {
        assert(forall|i: int| 0 <= i < xa.len() ==> (xa + ra)[i] == #[trigger] xa[i]);
        assert(forall|i: int| 0 <= i < xb.len() ==> (xb + rb)[i] == #[trigger] xb[i]);
    }
    assert((xa + ra).len() == xa.len() + ra.len());
    assert((xb + rb).len() == xb.len() + rb.len());
    assert(ra.len() == rb.len());
    assert forall|i: int| 0 <= i < ra.len() implies ra[i] == rb[i] by {
        assert((xa + ra)[xa.len() + i] == ra[i]);
        assert((xb + rb)[xb.len() + i] == rb[i]);
    }
    assert(ra =~= rb);
}

/// A serialized number is read back unambiguously: its digits end at the
/// first `;`, which no digit can be.
proof fn lemma_num_inj(a: int, b: int, ra: Seq<char>, rb: Seq<char>)
    requires
        0 <= a,
        0 <= b,
        enc_num(a) + ra == enc_num(b) + rb,
    ensures
        a == b,
        ra == rb,
{
    lemma_dec_digits(a);
    lemma_dec_digits(b);
    let da = dec_digits(a);
    let db = dec_digits(b);
    let t = enc_num(a) + ra;
    assert(t == enc_num(b) + rb);
    assert(forall|i: int| 0 <= i < da.len() + 1 + ra.len() ==> t[i] == #[trigger] (da
        + seq![';'] + ra)[i]) by {
        assert(enc_num(a) + ra =~= da + seq![';'] + ra);
    }
    assert(t =~= da + seq![';'] + ra);
    assert(t =~= db + seq![';'] + rb);
    assert(!is_digit(';'));
    if da.len() < db.len() {
        assert(t[da.len() as int] == ';');
        assert(t[da.len() as int] == db[da.len() as int]);
        assert(is_digit(db[da.len() as int]));
        assert(false);
    }
    if db.len() < da.len() {
        assert(t[db.len() as int] == ';');
        assert(t[db.len() as int] == da[db.len() as int]);
        assert(is_digit(da[db.len() as int]));
        assert(false);
    }
    lemma_prefix_split(enc_num(a), enc_num(b), ra, rb);
    assert(da =~= db) by {
        assert(forall|i: int| 0 <= i < da.len() ==> enc_num(a)[i] == #[trigger] da[i]);
        assert(forall|i: int| 0 <= i < db.len() ==> enc_num(b)[i] == #[trigger] db[i]);
    }
}

/// A serialized text is read back unambiguously.
proof fn lemma_str_inj(sa: Seq<char>, sb: Seq<char>, ra: Seq<char>, rb: Seq<char>)
    requires
        enc_str(sa) + ra == enc_str(sb) + rb,
    ensures
        sa == sb,
        ra == rb,
{
    assert(enc_str(sa) + ra =~= enc_num(sa.len() as int) + (sa + ra));
    assert(enc_str(sb) + rb =~= enc_num(sb.len() as int) + (sb + rb));
    lemma_num_inj(sa.len() as int, sb.len() as int, sa + ra, sb + rb);
    lemma_prefix_split(sa, sb, ra, rb);
}

/// A serialized number sequence of known length is read back unambiguously.
proof fn lemma_nums_body_inj(va: Seq<usize>, vb: Seq<usize>, ra: Seq<char>, rb: Seq<char>)
    requires
        va.len() == vb.len(),
        enc_nums_body(va) + ra == enc_nums_body(vb) + rb,
    ensures
        va == vb,
        ra == rb,
    decreases va.len(),
{
    if va.len() == 0 {
        assert(enc_nums_body(va) + ra =~= ra);
        assert(enc_nums_body(vb) + rb =~= rb);
        assert(va =~= vb);
    } else {
        assert(enc_nums_body(va) + ra =~= enc_num(va.first() as int) + (enc_nums_body(
            va.drop_first(),
        ) + ra));
        assert(enc_nums_body(vb) + rb =~= enc_num(vb.first() as int) + (enc_nums_body(
            vb.drop_first(),
        ) + rb));
        lemma_num_inj(
            va.first() as int,
            vb.first() as int,
            enc_nums_body(va.drop_first()) + ra,
            enc_nums_body(vb.drop_first()) + rb,
        );
        lemma_nums_body_inj(va.drop_first(), vb.drop_first(), ra, rb);
        assert forall|i: int| 0 <= i < va.len() implies va[i] == vb[i] by {
            if i == 0 {
                assert(va[0] == va.first());
                assert(vb[0] == vb.first());
            } else {
                assert(va.drop_first()[i - 1] == va[i]);
                assert(vb.drop_first()[i - 1] == vb[i]);
            }
        }
        assert(va =~= vb);
    }
}

/// A serialized number sequence is read back unambiguously.
proof fn lemma_nums_inj(va: Seq<usize>, vb: Seq<usize>, ra: Seq<char>, rb: Seq<char>)
    requires
        enc_nums(va) + ra == enc_nums(vb) + rb,
    ensures
        va == vb,
        ra == rb,
{
    assert(enc_nums(va) + ra =~= enc_num(va.len() as int) + (enc_nums_body(va) + ra));
    assert(enc_nums(vb) + rb =~= enc_num(vb.len() as int) + (enc_nums_body(vb) + rb));
    lemma_num_inj(
        va.len() as int,
        vb.len() as int,
        enc_nums_body(va) + ra,
        enc_nums_body(vb) + rb,
    );
    lemma_nums_body_inj(va, vb, ra, rb);
}

/// A serialized pool is read back unambiguously.
proof fn lemma_pool_inj(pa: PoolView, pb: PoolView, ra: Seq<char>, rb: Seq<char>)
    requires
        enc_pool(pa) + ra == enc_pool(pb) + rb,
    ensures
        pa == pb,
        ra == rb,
{
    assert(enc_pool(pa) + ra =~= enc_num(pa.next as int) + (enc_nums(pa.recycled) + (enc_nums(
        pa.used,
    ) + ra)));
    assert(enc_pool(pb) + rb =~= enc_num(pb.next as int) + (enc_nums(pb.recycled) + (enc_nums(
        pb.used,
    ) + rb)));
    lemma_num_inj(
        pa.next as int,
        pb.next as int,
        enc_nums(pa.recycled) + (enc_nums(pa.used) + ra),
        enc_nums(pb.recycled) + (enc_nums(pb.used) + rb),
    );
    lemma_nums_inj(pa.recycled, pb.recycled, enc_nums(pa.used) + ra, enc_nums(pb.used) + rb);
    lemma_nums_inj(pa.used, pb.used, ra, rb);
    assert(pa =~= pb);
}

/// A serialized option of text is read back unambiguously.
proof fn lemma_opt_str_inj(
    oa: Option<Seq<char>>,
    ob: Option<Seq<char>>,
    ra: Seq<char>,
    rb: Seq<char>,
)
    requires
        enc_opt_str(oa) + ra == enc_opt_str(ob) + rb,
    ensures
        oa == ob,
        ra == rb,
{
    let t = enc_opt_str(oa) + ra;
    match (oa, ob) {
        (None, None) => {
            lemma_prefix_split(seq!['n'], seq!['n'], ra, rb);
        },
        (None, Some(sb)) => {
            assert(t[0] == 'n');
            assert((enc_opt_str(ob) + rb)[0] == 's');
        },
        (Some(sa), None) => {
            assert(t[0] == 's');
            assert((enc_opt_str(ob) + rb)[0] == 'n');
        },
        (Some(sa), Some(sb)) => {
            assert(enc_opt_str(oa) + ra =~= seq!['s'] + (enc_str(sa) + ra));
            assert(enc_opt_str(ob) + rb =~= seq!['s'] + (enc_str(sb) + rb));
            lemma_prefix_split(seq!['s'], seq!['s'], enc_str(sa) + ra, enc_str(sb) + rb);
            lemma_str_inj(sa, sb, ra, rb);
        },
    }
}

/// A serialized item is read back unambiguously.
#[verifier::rlimit(100)]
#[verifier::spinoff_prover]
proof fn lemma_item_inj(ia: ItemView, ib: ItemView, ra: Seq<char>, rb: Seq<char>)
    requires
        enc_item(ia) + ra == enc_item(ib) + rb,
    ensures
        ia == ib,
        ra == rb,
    decreases ia,
{
    let suba = match ia.sub_list {
        None => seq!['n'],
        Some(l) => seq!['s'] + enc_list(l),
    };
    let subb = match ib.sub_list {
        None => seq!['n'],
        Some(l) => seq!['s'] + enc_list(l),
    };
    let da = enc_opt_str(ia.deadline) + (suba + ra);
    let db = enc_opt_str(ib.deadline) + (subb + rb);
    let ca = enc_str(ia.description) + da;
    let cb = enc_str(ib.description) + db;
    let ta = enc_flag(ia.completed) + ca;
    let tb = enc_flag(ib.completed) + cb;
    assert(enc_item(ia) + ra =~= enc_num(ia.id as int) + ta);
    assert(enc_item(ib) + rb =~= enc_num(ib.id as int) + tb);
    lemma_num_inj(ia.id as int, ib.id as int, ta, tb);
    lemma_prefix_split(enc_flag(ia.completed), enc_flag(ib.completed), ca, cb);
    assert(ia.completed == ib.completed) by {
        if ia.completed != ib.completed {
            assert(enc_flag(true)[0] == 't');
            assert(enc_flag(false)[0] == 'f');
        }
    }
    lemma_str_inj(ia.description, ib.description, da, db);
    lemma_opt_str_inj(ia.deadline, ib.deadline, suba + ra, subb + rb);
    match (ia.sub_list, ib.sub_list) {
        (None, None) => {
            lemma_prefix_split(seq!['n'], seq!['n'], ra, rb);
            assert(ia =~= ib);
        },
        (None, Some(lb)) => {
            assert((suba + ra)[0] == 'n');
            assert((subb + rb)[0] == 's');
        },
        (Some(la), None) => {
            assert((suba + ra)[0] == 's');
            assert((subb + rb)[0] == 'n');
        },
        (Some(la), Some(lb)) => {
            assert(suba + ra =~= seq!['s'] + (enc_list(la) + ra));
            assert(subb + rb =~= seq!['s'] + (enc_list(lb) + rb));
            lemma_prefix_split(seq!['s'], seq!['s'], enc_list(la) + ra, enc_list(lb) + rb);
            lemma_list_inj(la, lb, ra, rb);
            assert(ia =~= ib);
        },
    }
}

/// A serialized item sequence of known length is read back unambiguously.
proof fn lemma_items_body_inj(va: Seq<ItemView>, vb: Seq<ItemView>, ra: Seq<char>, rb: Seq<char>)
    requires
        va.len() == vb.len(),
        enc_items_body(va) + ra == enc_items_body(vb) + rb,
    ensures
        va == vb,
        ra == rb,
    decreases va,
{
    if va.len() == 0 {
        assert(enc_items_body(va) + ra =~= ra);
        assert(enc_items_body(vb) + rb =~= rb);
        assert(va =~= vb);
    } else {
        assert(enc_items_body(va) + ra =~= enc_item(va.first()) + (enc_items_body(va.drop_first())
            + ra));
        assert(enc_items_body(vb) + rb =~= enc_item(vb.first()) + (enc_items_body(vb.drop_first())
            + rb));
        lemma_item_inj(
            va.first(),
            vb.first(),
            enc_items_body(va.drop_first()) + ra,
            enc_items_body(vb.drop_first()) + rb,
        );
        lemma_items_body_inj(va.drop_first(), vb.drop_first(), ra, rb);
        assert forall|i: int| 0 <= i < va.len() implies va[i] == vb[i] by {
            if i == 0 {
                assert(va[0] == va.first());
                assert(vb[0] == vb.first());
            } else {
                assert(va.drop_first()[i - 1] == va[i]);
                assert(vb.drop_first()[i - 1] == vb[i]);
            }
        }
        assert(va =~= vb);
    }
}

/// A serialized list is read back unambiguously.
proof fn lemma_list_inj(a: ListView, b: ListView, ra: Seq<char>, rb: Seq<char>)
    requires
        enc_list(a) + ra == enc_list(b) + rb,
    ensures
        a == b,
        ra == rb,
    decreases a,
{
    assert(enc_list(a) + ra =~= enc_num(a.items.len() as int) + (enc_items_body(a.items)
        + (enc_pool(a.pool) + ra)));
    assert(enc_list(b) + rb =~= enc_num(b.items.len() as int) + (enc_items_body(b.items)
        + (enc_pool(b.pool) + rb)));
    lemma_num_inj(
        a.items.len() as int,
        b.items.len() as int,
        enc_items_body(a.items) + (enc_pool(a.pool) + ra),
        enc_items_body(b.items) + (enc_pool(b.pool) + rb),
    );
    lemma_items_body_inj(a.items, b.items, enc_pool(a.pool) + ra, enc_pool(b.pool) + rb);
    lemma_pool_inj(a.pool, b.pool, ra, rb);
    assert(a =~= b);
}

/// Appending one number to a serialized number sequence body.
proof fn lemma_nums_body_snoc(v: Seq<usize>, x: usize)
    ensures
        enc_nums_body(v.push(x)) == enc_nums_body(v) + enc_num(x as int),
    decreases v.len(),
{
    if v.len() == 0 {
        assert(v.push(x).len() == 1);
        assert(v.push(x).first() == x);
        assert(v.push(x).drop_first() =~= Seq::<usize>::empty());
        assert(enc_nums_body(v.push(x).drop_first()) == Seq::<char>::empty());
        assert(enc_nums_body(v.push(x)) == enc_num(x as int) + enc_nums_body(
            v.push(x).drop_first(),
        ));
        assert(enc_nums_body(v) == Seq::<char>::empty());
        assert(enc_nums_body(v.push(x)) =~= enc_nums_body(v) + enc_num(x as int));
    } else {
        assert(v.push(x).first() == v.first());
        assert(v.push(x).drop_first() =~= v.drop_first().push(x));
        lemma_nums_body_snoc(v.drop_first(), x);
        assert(enc_nums_body(v.push(x)) == enc_num(v.first() as int) + (enc_nums_body(
            v.drop_first(),
        ) + enc_num(x as int)));
        assert(enc_nums_body(v.push(x)) =~= enc_nums_body(v) + enc_num(x as int));
    }
}

/// Appending one item to a serialized item sequence body.
proof fn lemma_items_body_snoc(v: Seq<ItemView>, x: ItemView)
    ensures
        enc_items_body(v.push(x)) == enc_items_body(v) + enc_item(x),
    decreases v.len(),
{
    if v.len() == 0 {
        assert(v.push(x).len() == 1);
        assert(v.push(x).first() == x);
        assert(v.push(x).drop_first() =~= Seq::<ItemView>::empty());
        assert(enc_items_body(v.push(x).drop_first()) == Seq::<char>::empty());
        assert(enc_items_body(v.push(x)) == enc_item(x) + enc_items_body(
            v.push(x).drop_first(),
        ));
        assert(enc_items_body(v) == Seq::<char>::empty());
        assert(enc_items_body(v.push(x)) =~= enc_items_body(v) + enc_item(x));
    } else {
        assert(v.push(x).first() == v.first());
        assert(v.push(x).drop_first() =~= v.drop_first().push(x));
        lemma_items_body_snoc(v.drop_first(), x);
        assert(enc_items_body(v.push(x)) == enc_item(v.first()) + (enc_items_body(v.drop_first())
            + enc_item(x)));
        assert(enc_items_body(v.push(x)) =~= enc_items_body(v) + enc_item(x));
    }
}

/// Append a serialized number.
fn push_num(out: &mut Vec<char>, n: usize)
    ensures
        final(out)@ == old(out)@ + enc_num(n as int),
{
    push_dec_digits(out, n as u64);
    out.push(';');
    proof {
        assert(final(out)@ =~= old(out)@ + enc_num(n as int));
    }
}

/// Append a serialized text.
fn push_str_enc(out: &mut Vec<char>, s: &String)
    ensures
        final(out)@ == old(out)@ + enc_str(s@),
        s@.len() <= usize::MAX,
{
    let n = s.as_str().unicode_len();
    push_num(out, n);
    let mut i: usize = 0;
    while i < n
        invariant
            i <= n,
            n == s@.len(),
            out@ == old(out)@ + enc_num(n as int) + s@.subrange(0, i as int),
        decreases n - i,
    {
        let c = s.as_str().get_char(i);
        out.push(c);
        proof {
            assert(out@ =~= old(out)@ + enc_num(n as int) + s@.subrange(0, i + 1));
        }
        i = i + 1;
    }
    proof {
        assert(s@.subrange(0, n as int) =~= s@);
        assert(final(out)@ =~= old(out)@ + enc_str(s@));
    }
}

/// Append a serialized number sequence.
fn push_nums(out: &mut Vec<char>, v: &Vec<usize>)
    ensures
        final(out)@ == old(out)@ + enc_nums(v@),
        v@.len() <= usize::MAX,
{
    let n = v.len();
    push_num(out, n);
    let mut i: usize = 0;
    while i < n
        invariant
            i <= n,
            n == v@.len(),
            out@ == old(out)@ + enc_num(n as int) + enc_nums_body(v@.subrange(0, i as int)),
        decreases n - i,
    {
        push_num(out, v[i]);
        proof {
            lemma_nums_body_snoc(v@.subrange(0, i as int), v@[i as int]);
            assert(v@.subrange(0, i as int).push(v@[i as int]) =~= v@.subrange(0, i + 1));
            assert(out@ =~= old(out)@ + enc_num(n as int) + enc_nums_body(
                v@.subrange(0, i + 1),
            ));
        }
        i = i + 1;
    }
    proof {
        assert(v@.subrange(0, n as int) =~= v@);
        assert(final(out)@ =~= old(out)@ + enc_nums(v@));
    }
}

/// Append the serialized form of one item.
#[verifier::rlimit(100)]
#[verifier::spinoff_prover]
fn encode_item(item: &TodoItem, out: &mut Vec<char>)
    ensures
        final(out)@ == old(out)@ + enc_item(item.model()),
        item.model().fits(),
    decreases *item,
{
    let ghost o0 = out@;
    let ghost iv = item.model();
    push_num(out, item.id);
    if item.completed {
        out.push('t');
    } else {
        out.push('f');
    }
    proof {
        assert(out@ =~= o0 + enc_num(iv.id as int) + enc_flag(iv.completed));
    }
    push_str_enc(out, &item.description);
    let ghost o1 = out@;
    match &item.deadline {
        None => {
            out.push('n');
        },
        Some(d) => {
            out.push('s');
            push_str_enc(out, d);
        },
    }
    proof {
        assert(out@ =~= o1 + enc_opt_str(iv.deadline));
    }
    let ghost o2 = out@;
    match &item.sub_list {
        None => {
            out.push('n');
        },
        Some(l) => {
            out.push('s');
            encode_list(l, out);
        },
    }
    proof {
        assert(out@ =~= o2 + (match iv.sub_list {
            None => seq!['n'],
            Some(l) => seq!['s'] + enc_list(l),
        }));
        assert(final(out)@ =~= o0 + enc_item(iv));
    }
}

/// Append the serialized form of a whole list.
fn encode_list(list: &TodoList, out: &mut Vec<char>)
    ensures
        final(out)@ == old(out)@ + enc_list(list.model()),
        list.model().fits(),
    decreases *list,
{
    let ghost o0 = out@;
    let ghost lv = list.model();
    let n = list.items.len();
    push_num(out, n);
    let mut i: usize = 0;
    while i < n
        invariant
            i <= n,
            n == list.items@.len(),
            lv == list.model(),
            out@ == o0 + enc_num(n as int) + enc_items_body(lv.items.subrange(0, i as int)),
            forall|j: int| 0 <= j < i ==> (#[trigger] lv.items[j]).fits(),
        decreases n - i,
    {
        encode_item(&list.items[i], out);
        proof {
            assert(list.items@[i as int].model() == lv.items[i as int]);
            lemma_items_body_snoc(lv.items.subrange(0, i as int), lv.items[i as int]);
            assert(lv.items.subrange(0, i as int).push(lv.items[i as int]) =~= lv.items.subrange(
                0,
                i + 1,
            ));
            assert(out@ =~= o0 + enc_num(n as int) + enc_items_body(lv.items.subrange(0, i + 1)));
        }
        i = i + 1;
    }
    proof {
        assert(lv.items.subrange(0, n as int) =~= lv.items);
    }
    push_num(out, list.id_pool.next_id);
    push_nums(out, &list.id_pool.recycled_ids);
    push_nums(out, &list.id_pool.used_ids);
    proof {
        assert(final(out)@ =~= o0 + enc_list(lv));
    }
}

impl TodoList {
    /// The serialized text of this list: the persisted file's whole content.
    pub fn to_text(&self) -> (s: String)
        ensures
            s@ == enc_list(self.model()),
            self.model().fits(),
    {
        let mut out: Vec<char> = Vec::new();
        encode_list(self, &mut out);
        string_from_chars(&out)
    }
}

/// Read a serialized number: digits, then `;`. When the caller expects the
/// serialized form of a known number `n` at `pos`, the read succeeds and
/// returns exactly `n` and the position after its terminator.
fn read_num(text: &Vec<char>, pos: usize, Ghost(en): Ghost<Option<int>>) -> (r: Option<
    (usize, usize),
>)
    requires
        pos <= text@.len(),
    ensures
        r matches Some((_, p2)) ==> pos < p2 <= text@.len(),
        (en matches Some(nn) ==> ((0 <= nn <= usize::MAX && starts_at(
            text@,
            pos as int,
            enc_num(nn),
        )) ==> r == Some((nn as usize, (pos + enc_num(nn).len()) as usize)))),
{
    let ghost t = text@;
    let n = text.len();
    let mut val: usize = 0;
    let mut k = pos;
    let mut seen: bool = false;
    while k < n
        invariant
            pos <= k <= n,
            n == t.len(),
            t == text@,
            crate::path::all_digits(t.subrange(pos as int, k as int)),
            val == digits_value(t.subrange(pos as int, k as int)),
            seen == (k > pos),
        decreases n - k,
    {
        let c = text[k];
        let cu = c as u32;
        let ghost prefix = t.subrange(pos as int, k as int);
        let ghost prefix2 = t.subrange(pos as int, k as int + 1);
        proof {
            assert(prefix2.drop_last() =~= prefix);
            assert(prefix2.last() == t[k as int]);
        }
        if cu >= 48 && cu <= 57 {
            let d = (cu - 48) as usize;
            if val > usize::MAX / 10 || (val == usize::MAX / 10 && d > usize::MAX % 10) {
                proof {
                    assert(digits_value(prefix2) == val * 10 + d);
                    if let Some(nn) = en {
                        if 0 <= nn <= usize::MAX && starts_at(t, pos as int, enc_num(nn)) {
                            lemma_num_prefix(t, pos as int, nn);
                            let dl = dec_digits(nn).len() as int;
                            assert(k < pos + dl) by {
                                if k as int == pos + dl {
                                    assert(t[k as int] == ';');
                                } else if k > pos + dl {
                                    assert(is_digit(prefix[dl]));
                                    assert(prefix[dl] == t[pos + dl]);
                                }
                            }
                            assert(prefix2 =~= dec_digits(nn).subrange(0, k as int + 1 - pos)) by {
                                assert(forall|i: int|
                                    0 <= i < k as int + 1 - pos ==> prefix2[i] == #[trigger] t[pos
                                        + i]);
                                assert(forall|i: int|
                                    0 <= i < dl ==> t.subrange(pos as int, pos + dl)[i]
                                        == #[trigger] t[pos + i]);
                            }
                            lemma_dec_digits(nn);
                            crate::path::lemma_digits_value_mono(
                                dec_digits(nn),
                                k as int + 1 - pos,
                            );
                            assert(digits_value(prefix2) <= nn);
                            assert(false);
                        }
                    }
                }
                return None;
            }
            val = val * 10 + d;
            proof {
                assert(crate::path::all_digits(prefix2)) by {
                    assert(forall|i: int|
                        0 <= i < prefix.len() ==> prefix2[i] == #[trigger] prefix[i]);
                }
            }
            seen = true;
            k = k + 1;
        } else if c == ';' {
            if seen {
                proof {
                    if let Some(nn) = en {
                        if 0 <= nn <= usize::MAX && starts_at(t, pos as int, enc_num(nn)) {
                            lemma_num_prefix(t, pos as int, nn);
                            let dl = dec_digits(nn).len() as int;
                            assert(k as int == pos + dl) by {
                                if (k as int) < pos + dl {
                                    assert(is_digit(t[pos + (k as int - pos)]));
                                } else if k > pos + dl {
                                    assert(is_digit(prefix[dl]));
                                    assert(prefix[dl] == t[pos + dl]);
                                }
                            }
                            assert(prefix == t.subrange(pos as int, pos + dl));
                            assert(val == nn);
                            assert(enc_num(nn).len() == dl + 1);
                        }
                    }
                }
                return Some((val, k + 1));
            }
            proof {
                if let Some(nn) = en {
                    if 0 <= nn <= usize::MAX && starts_at(t, pos as int, enc_num(nn)) {
                        lemma_num_prefix(t, pos as int, nn);
                        assert(k == pos);
                        assert(is_digit(t[pos as int + 0]));
                        assert(false);
                    }
                }
            }
            return None;
        } else {
            proof {
                if let Some(nn) = en {
                    if 0 <= nn <= usize::MAX && starts_at(t, pos as int, enc_num(nn)) {
                        lemma_num_prefix(t, pos as int, nn);
                        let dl = dec_digits(nn).len() as int;
                        if (k as int) < pos + dl {
                            assert(is_digit(t[pos + (k as int - pos)]));
                        } else if k as int == pos + dl {
                            assert(t[k as int] == ';');
                        } else {
                            assert(is_digit(prefix[dl]));
                            assert(prefix[dl] == t[pos + dl]);
                        }
                        assert(false);
                    }
                }
            }
            return None;
        }
    }
    proof {
        if let Some(nn) = en {
            if 0 <= nn <= usize::MAX && starts_at(t, pos as int, enc_num(nn)) {
                lemma_num_prefix(t, pos as int, nn);
                let dl = dec_digits(nn).len() as int;
                assert(is_digit(t.subrange(pos as int, k as int)[dl]));
                assert(t.subrange(pos as int, k as int)[dl] == t[pos + dl]);
                assert(false);
            }
        }
    }
    None
}

/// Read a serialized text: a length, then that many characters. When the
/// caller expects the serialized form of a known text at `pos`, the read
/// succeeds and returns exactly that text.
fn read_str(text: &Vec<char>, pos: usize, Ghost(es): Ghost<Option<Seq<char>>>) -> (r: Option<
    (String, usize),
>)
    requires
        pos <= text@.len(),
    ensures
        r matches Some((_, p2)) ==> pos < p2 <= text@.len(),
        (es matches Some(sq) ==> ((sq.len() <= usize::MAX && starts_at(
            text@,
            pos as int,
            enc_str(sq),
        )) ==> (r matches Some((x, p2)) && x@ == sq && p2 == pos + enc_str(sq).len()))),
{
    let ghost t = text@;
    proof {
        if let Some(sq) = es {
            if sq.len() <= usize::MAX && starts_at(t, pos as int, enc_str(sq)) {
                lemma_starts_at_split(t, pos as int, enc_num(sq.len() as int), sq);
            }
        }
    }
    match read_num(text, pos, Ghost(match es {
        Some(sq) => Some(sq.len() as int),
        None => None,
    })) {
        None => None,
        Some((len, p)) => {
            if len > text.len() - p {
                proof {
                    if let Some(sq) = es {
                        if sq.len() <= usize::MAX && starts_at(t, pos as int, enc_str(sq)) {
                            assert(false);
                        }
                    }
                }
                return None;
            }
            let end = p + len;
            let mut cs: Vec<char> = Vec::new();
            let mut k = p;
            while k < end
                invariant
                    p <= k <= end,
                    end <= t.len(),
                    t == text@,
                    cs@ == t.subrange(p as int, k as int),
                decreases end - k,
            {
                cs.push(text[k]);
                proof {
                    assert(cs@ =~= t.subrange(p as int, k + 1));
                }
                k = k + 1;
            }
            proof {
                if let Some(sq) = es {
                    if sq.len() <= usize::MAX && starts_at(t, pos as int, enc_str(sq)) {
                        assert(cs@ == t.subrange(p as int, p + sq.len()));
                        assert(cs@ == sq);
                        assert(end as int == pos + enc_str(sq).len());
                    }
                }
            }
            Some((string_from_chars(&cs), end))
        },
    }
}

/// Read a serialized number sequence. When the caller expects the
/// serialized form of a known sequence at `pos`, the read succeeds and
/// returns exactly that sequence.
fn read_nums(text: &Vec<char>, pos: usize, Ghost(ev): Ghost<Option<Seq<usize>>>) -> (r: Option<
    (Vec<usize>, usize),
>)
    requires
        pos <= text@.len(),
    ensures
        r matches Some((_, p2)) ==> pos < p2 <= text@.len(),
        (ev matches Some(v) ==> ((v.len() <= usize::MAX && starts_at(
            text@,
            pos as int,
            enc_nums(v),
        )) ==> (r matches Some((x, p2)) && x@ == v && p2 == pos + enc_nums(v).len()))),
{
    let ghost t = text@;
    // Pins the text length within machine bounds for the position casts below.
    let _n = text.len();
    proof {
        if let Some(v) = ev {
            if v.len() <= usize::MAX && starts_at(t, pos as int, enc_nums(v)) {
                lemma_starts_at_split(t, pos as int, enc_num(v.len() as int), enc_nums_body(v));
                assert(v.skip(0) =~= v);
            }
        }
    }
    match read_num(text, pos, Ghost(match ev {
        Some(v) => Some(v.len() as int),
        None => None,
    })) {
        None => None,
        Some((count, p0)) => {
            let mut x: Vec<usize> = Vec::new();
            let mut p = p0;
            let mut k: usize = 0;
            proof {
                if let Some(v) = ev {
                    if v.len() <= usize::MAX && starts_at(t, pos as int, enc_nums(v)) {
                        assert(v.subrange(0, 0) =~= Seq::<usize>::empty());
                        assert(x@ =~= v.subrange(0, 0));
                        assert(enc_nums_body(v.subrange(0, 0)) == Seq::<char>::empty());
                        assert(enc_nums_body(v.skip(0)) == enc_nums_body(v));
                    }
                }
            }
            while k < count
                invariant
                    pos < p <= t.len(),
                    t == text@,
                    t.len() <= usize::MAX,
                    k <= count,
                    (ev matches Some(v) ==> ((v.len() <= usize::MAX && starts_at(
                        t,
                        pos as int,
                        enc_nums(v),
                    )) ==> {
                        &&& count == v.len()
                        &&& k <= v.len()
                        &&& x@ == v.subrange(0, k as int)
                        &&& p as int == pos + enc_num(v.len() as int).len() + enc_nums_body(
                            v.subrange(0, k as int),
                        ).len()
                        &&& starts_at(t, p as int, enc_nums_body(v.skip(k as int)))
                    })),
                decreases count - k,
            {
                proof {
                    if let Some(v) = ev {
                        if v.len() <= usize::MAX && starts_at(t, pos as int, enc_nums(v)) {
                            lemma_nums_body_step(v, k as int);
                            lemma_starts_at_split(
                                t,
                                p as int,
                                enc_num(v[k as int] as int),
                                enc_nums_body(v.skip(k as int + 1)),
                            );
                        }
                    }
                }
                match read_num(text, p, Ghost(match ev {
                    Some(v) => if k < v.len() {
                        Some(v[k as int] as int)
                    } else {
                        None
                    },
                    None => None,
                })) {
                    None => {
                        proof {
                            if let Some(v) = ev {
                                if v.len() <= usize::MAX && starts_at(t, pos as int, enc_nums(v)) {
                                    assert(false);
                                }
                            }
                        }
                        return None;
                    },
                    Some((y, p2)) => {
                        x.push(y);
                        proof {
                            if let Some(v) = ev {
                                if v.len() <= usize::MAX && starts_at(t, pos as int, enc_nums(v)) {
                                    lemma_nums_body_snoc(v.subrange(0, k as int), v[k as int]);
                                    assert(v.subrange(0, k as int).push(v[k as int])
                                        =~= v.subrange(0, k as int + 1));
                                    assert(x@ =~= v.subrange(0, k as int + 1));
                                    assert(enc_nums_body(v.subrange(0, k as int + 1)).len()
                                        == enc_nums_body(v.subrange(0, k as int)).len() + enc_num(
                                        v[k as int] as int,
                                    ).len());
                                }
                            }
                        }
                        p = p2;
                    },
                }
                k = k + 1;
            }
            proof {
                if let Some(v) = ev {
                    if v.len() <= usize::MAX && starts_at(t, pos as int, enc_nums(v)) {
                        assert(v.subrange(0, v.len() as int) =~= v);
                        assert(x@ == v);
                        assert(p as int == pos + enc_nums(v).len());
                    }
                }
            }
            Some((x, p))
        },
    }
}

/// Read one serialized item. When the caller expects the serialized form
/// of a known item at `pos`, the read succeeds and returns exactly that
/// item.
fn read_item(text: &Vec<char>, pos: usize, Ghost(ei): Ghost<Option<ItemView>>) -> (r: Option<
    (TodoItem, usize),
>)
    requires
        pos <= text@.len(),
    ensures
        r matches Some((_, p2)) ==> pos < p2 <= text@.len(),
        (ei matches Some(iv) ==> ((iv.fits() && starts_at(text@, pos as int, enc_item(iv))) ==> (
        r matches Some((it, p2)) && it.model() == iv && p2 == pos + enc_item(iv).len()))),
    decreases text@.len() - pos, 0int,
{
    let ghost t = text@;
    let ghost hyp = match ei {
        Some(iv) => iv.fits() && starts_at(t, pos as int, enc_item(iv)),
        None => false,
    };
    proof {
        if let Some(iv) = ei {
            if hyp {
                let a = enc_num(iv.id as int);
                let b = enc_flag(iv.completed);
                let c = enc_str(iv.description);
                let d = enc_opt_str(iv.deadline);
                let e = match iv.sub_list {
                    None => seq!['n'],
                    Some(l) => seq!['s'] + enc_list(l),
                };
                lemma_starts_at_split(t, pos as int, a + b + c + d, e);
                lemma_starts_at_split(t, pos as int, a + b + c, d);
                lemma_starts_at_split(t, pos as int, a + b, c);
                lemma_starts_at_split(t, pos as int, a, b);
            }
        }
    }
    let n = text.len();
    let (id, p1) = match read_num(text, pos, Ghost(match ei {
        Some(iv) => Some(iv.id as int),
        None => None,
    })) {
        None => {
            proof {
                assert(!hyp);
            }
            return None;
        },
        Some(x) => x,
    };
    if p1 >= n {
        proof {
            assert(!hyp);
        }
        return None;
    }
    let fc = text[p1];
    proof {
        if let Some(iv) = ei {
            if hyp {
                assert(t.subrange(p1 as int, p1 as int + 1)[0] == t[p1 as int]);
                assert(t[p1 as int] == enc_flag(iv.completed)[0]);
            }
        }
    }
    let completed = if fc == 't' {
        true
    } else if fc == 'f' {
        false
    } else {
        proof {
            assert(!hyp);
        }
        return None;
    };
    let (description, p2) = match read_str(text, p1 + 1, Ghost(match ei {
        Some(iv) => Some(iv.description),
        None => None,
    })) {
        None => {
            proof {
                assert(!hyp);
            }
            return None;
        },
        Some(x) => x,
    };
    if p2 >= n {
        proof {
            assert(!hyp);
        }
        return None;
    }
    let dc = text[p2];
    proof {
        if let Some(iv) = ei {
            if hyp {
                assert(t.subrange(p2 as int, p2 as int + enc_opt_str(iv.deadline).len())[0] == t[
                    p2 as int
                ]);
                assert(t[p2 as int] == enc_opt_str(iv.deadline)[0]);
                if let Some(tl) = iv.deadline {
                    lemma_starts_at_split(t, p2 as int, seq!['s'], enc_str(tl));
                }
            }
        }
    }
    let (deadline, p3) = if dc == 'n' {
        (None, p2 + 1)
    } else if dc == 's' {
        match read_str(text, p2 + 1, Ghost(match ei {
            Some(iv) => iv.deadline,
            None => None,
        })) {
            None => {
                proof {
                    assert(!hyp);
                }
                return None;
            },
            Some((d, p)) => (Some(d), p),
        }
    } else {
        proof {
            assert(!hyp);
        }
        return None;
    };
    if p3 >= n {
        proof {
            assert(!hyp);
        }
        return None;
    }
    let sc = text[p3];
    proof {
        if let Some(iv) = ei {
            if hyp {
                let e = match iv.sub_list {
                    None => seq!['n'],
                    Some(l) => seq!['s'] + enc_list(l),
                };
                assert(t.subrange(p3 as int, p3 as int + e.len())[0] == t[p3 as int]);
                assert(t[p3 as int] == e[0]);
                if let Some(l) = iv.sub_list {
                    lemma_starts_at_split(t, p3 as int, seq!['s'], enc_list(l));
                }
            }
        }
    }
    let (sub_list, p4) = if sc == 'n' {
        (None, p3 + 1)
    } else if sc == 's' {
        match read_list(text, p3 + 1, Ghost(match ei {
            Some(iv) => iv.sub_list,
            None => None,
        })) {
            None => {
                proof {
                    assert(!hyp);
                }
                return None;
            },
            Some((l, p)) => (Some(l), p),
        }
    } else {
        proof {
            assert(!hyp);
        }
        return None;
    };
    let it = TodoItem { id, description, completed, deadline, sub_list };
    proof {
        if let Some(iv) = ei {
            if hyp {
                assert(it.model() =~= iv);
                assert(p4 as int == pos + enc_item(iv).len());
            }
        }
    }
    Some((it, p4))
}

/// Read one serialized list. When the caller expects the serialized form of
/// a known list at `pos`, the read succeeds and returns exactly that list.
fn read_list(text: &Vec<char>, pos: usize, Ghost(el): Ghost<Option<ListView>>) -> (r: Option<
    (TodoList, usize),
>)
    requires
        pos <= text@.len(),
    ensures
        r matches Some((_, p2)) ==> pos < p2 <= text@.len(),
        (el matches Some(lv) ==> ((lv.fits() && starts_at(text@, pos as int, enc_list(lv))) ==> (
        r matches Some((l, p2)) && l.model() == lv && p2 == pos + enc_list(lv).len()))),
    decreases text@.len() - pos, 1int,
{
    let ghost t = text@;
    // Pins the text length within machine bounds for the position casts below.
    let _n = text.len();
    let ghost hyp = match el {
        Some(lv) => lv.fits() && starts_at(t, pos as int, enc_list(lv)),
        None => false,
    };
    proof {
        if let Some(lv) = el {
            if hyp {
                assert(enc_list(lv) =~= enc_num(lv.items.len() as int) + (enc_items_body(lv.items)
                    + enc_pool(lv.pool)));
                lemma_starts_at_split(
                    t,
                    pos as int,
                    enc_num(lv.items.len() as int),
                    enc_items_body(lv.items) + enc_pool(lv.pool),
                );
            }
        }
    }
    let (count, p0) = match read_num(text, pos, Ghost(match el {
        Some(lv) => Some(lv.items.len() as int),
        None => None,
    })) {
        None => {
            proof {
                assert(!hyp);
            }
            return None;
        },
        Some(x) => x,
    };
    let mut items: Vec<TodoItem> = Vec::new();
    let mut p = p0;
    let mut k: usize = 0;
    proof {
        if let Some(lv) = el {
            if hyp {
                assert(lv.items.skip(0) =~= lv.items);
                assert(lv.items.subrange(0, 0) =~= Seq::<ItemView>::empty());
                assert(models_of(items@) =~= Seq::<ItemView>::empty());
                assert(enc_items_body(lv.items.subrange(0, 0)) == Seq::<char>::empty());
                assert(enc_items_body(lv.items.skip(0)) == enc_items_body(lv.items));
            }
        }
    }
    while k < count
        invariant
            pos < p <= t.len(),
            t == text@,
            k <= count,
            (el matches Some(lv) ==> ((lv.fits() && starts_at(t, pos as int, enc_list(lv)))
                ==> {
                &&& count == lv.items.len()
                &&& k <= lv.items.len()
                &&& models_of(items@) == lv.items.subrange(0, k as int)
                &&& p as int == pos + enc_num(lv.items.len() as int).len() + enc_items_body(
                    lv.items.subrange(0, k as int),
                ).len()
                &&& starts_at(
                    t,
                    p as int,
                    enc_items_body(lv.items.skip(k as int)) + enc_pool(lv.pool),
                )
            })),
        decreases count - k,
    {
        proof {
            if let Some(lv) = el {
                if lv.fits() && starts_at(t, pos as int, enc_list(lv)) {
                    lemma_items_body_step(lv.items, k as int);
                    assert(enc_items_body(lv.items.skip(k as int)) + enc_pool(lv.pool)
                        =~= enc_item(lv.items[k as int]) + (enc_items_body(
                        lv.items.skip(k as int + 1),
                    ) + enc_pool(lv.pool)));
                    lemma_starts_at_split(
                        t,
                        p as int,
                        enc_item(lv.items[k as int]),
                        enc_items_body(lv.items.skip(k as int + 1)) + enc_pool(lv.pool),
                    );
                }
            }
        }
        match read_item(text, p, Ghost(match el {
            Some(lv) => if k < lv.items.len() {
                Some(lv.items[k as int])
            } else {
                None
            },
            None => None,
        })) {
            None => {
                proof {
                    if let Some(lv) = el {
                        if lv.fits() && starts_at(t, pos as int, enc_list(lv)) {
                            assert(lv.items[k as int].fits());
                            assert(false);
                        }
                    }
                }
                return None;
            },
            Some((it, p2)) => {
                items.push(it);
                proof {
                    if let Some(lv) = el {
                        if lv.fits() && starts_at(t, pos as int, enc_list(lv)) {
                            assert(lv.items[k as int].fits());
                            lemma_items_body_snoc(
                                lv.items.subrange(0, k as int),
                                lv.items[k as int],
                            );
                            assert(lv.items.subrange(0, k as int).push(lv.items[k as int])
                                =~= lv.items.subrange(0, k as int + 1));
                            assert(models_of(items@) =~= lv.items.subrange(0, k as int + 1));
                            assert(enc_items_body(lv.items.subrange(0, k as int + 1)).len()
                                == enc_items_body(lv.items.subrange(0, k as int)).len()
                                + enc_item(lv.items[k as int]).len());
                        }
                    }
                }
                p = p2;
            },
        }
        k = k + 1;
    }
    proof {
        if let Some(lv) = el {
            if hyp {
                assert(lv.items.subrange(0, lv.items.len() as int) =~= lv.items);
                assert(lv.items.skip(count as int) =~= Seq::<ItemView>::empty());
                assert(enc_items_body(lv.items.skip(count as int)) + enc_pool(lv.pool)
                    =~= enc_pool(lv.pool));
                assert(starts_at(t, p as int, enc_pool(lv.pool)));
                assert(enc_pool(lv.pool) =~= enc_num(lv.pool.next as int) + (enc_nums(
                    lv.pool.recycled,
                ) + enc_nums(lv.pool.used)));
                lemma_starts_at_split(
                    t,
                    p as int,
                    enc_num(lv.pool.next as int),
                    enc_nums(lv.pool.recycled) + enc_nums(lv.pool.used),
                );
                lemma_starts_at_split(
                    t,
                    p as int + enc_num(lv.pool.next as int).len(),
                    enc_nums(lv.pool.recycled),
                    enc_nums(lv.pool.used),
                );
            }
        }
    }
    let (next_id, p5) = match read_num(text, p, Ghost(match el {
        Some(lv) => Some(lv.pool.next as int),
        None => None,
    })) {
        None => {
            proof {
                assert(!hyp);
            }
            return None;
        },
        Some(x) => x,
    };
    let (recycled_ids, p6) = match read_nums(text, p5, Ghost(match el {
        Some(lv) => Some(lv.pool.recycled),
        None => None,
    })) {
        None => {
            proof {
                assert(!hyp);
            }
            return None;
        },
        Some(x) => x,
    };
    let (used_ids, p7) = match read_nums(text, p6, Ghost(match el {
        Some(lv) => Some(lv.pool.used),
        None => None,
    })) {
        None => {
            proof {
                assert(!hyp);
            }
            return None;
        },
        Some(x) => x,
    };
    let l = TodoList { items, id_pool: IdPool { next_id, recycled_ids, used_ids } };
    proof {
        if let Some(lv) = el {
            if hyp {
                assert(models_of(l.items@) == lv.items);
                assert(l.id_pool@ =~= lv.pool);
                assert(l.model() =~= lv);
                assert(enc_list(lv).len() == enc_num(lv.items.len() as int).len()
                    + enc_items_body(lv.items).len() + enc_pool(lv.pool).len());
                assert(enc_pool(lv.pool).len() == enc_num(lv.pool.next as int).len() + enc_nums(
                    lv.pool.recycled,
                ).len() + enc_nums(lv.pool.used).len());
                assert(enc_items_body(lv.items.subrange(0, count as int)) == enc_items_body(
                    lv.items,
                ));
                assert(p7 as int == pos + enc_list(lv).len());
            }
        }
    }
    Some((l, p7))
}

/// Whether two character vectors hold the same characters.
/// Whether two character vectors hold the same characters.
fn eq_chars(a: &Vec<char>, b: &Vec<char>) -> (r: bool)
    ensures
        r <==> a@ == b@,
{
    if a.len() != b.len() {
        proof {
            assert(a@.len() != b@.len());
        }
        return false;
    }
    let mut i: usize = 0;
    while i < a.len()
        invariant
            i <= a@.len(),
            a@.len() == b@.len(),
            forall|j: int| 0 <= j < i ==> a@[j] == b@[j],
        decreases a@.len() - i,
    {
        if a[i] != b[i] {
            return false;
        }
        i = i + 1;
    }
    proof {
        assert(a@ =~= b@);
    }
    true
}

/// The characters of a text, in order.
pub fn chars_of(s: &str) -> (v: Vec<char>)
    ensures
        v@ == s@,
{
    let n = s.unicode_len();
    let mut v: Vec<char> = Vec::new();
    let mut i: usize = 0;
    while i < n
        invariant
            i <= n,
            n == s@.len(),
            v@ == s@.subrange(0, i as int),
        decreases n - i,
    {
        v.push(s.get_char(i));
        proof {
            assert(v@ =~= s@.subrange(0, i + 1));
        }
        i = i + 1;
    }
    proof {
        assert(s@.subrange(0, n as int) =~= s@);
    }
    v
}

impl TodoList {
    /// Read a list back from serialized text. Succeeds only on text that is
    /// exactly the serialized form of the returned list: the raw parse is
    /// validated by re-serializing and comparing, so a success pins the text
    /// down completely, and with the lossless law the list as well. And
    /// success is owed: on the serialized form of any list within machine
    /// bounds — every list `to_text` serializes is — the read succeeds, so a
    /// saved list always loads.
    pub fn from_text(text: &str) -> (r: Option<TodoList>)
        ensures
            r matches Some(l) ==> enc_list(l.model()) == text@,
            forall|lv: ListView| lv.fits() && enc_list(lv) == text@ ==> r is Some,
    {
        let cs = chars_of(text);
        let ghost expect: Option<ListView> = if exists|lv: ListView|
            lv.fits() && enc_list(lv) == text@ {
            Some(choose|lv: ListView| lv.fits() && enc_list(lv) == text@)
        } else {
            None
        };
        proof {
            if let Some(lv0) = expect {
                assert(cs@.subrange(0, enc_list(lv0).len() as int) =~= enc_list(lv0));
                assert(starts_at(cs@, 0, enc_list(lv0)));
            }
        }
        match read_list(&cs, 0, Ghost(expect)) {
            None => {
                proof {
                    assert(!(exists|lv: ListView| lv.fits() && enc_list(lv) == text@));
                }
                None
            },
            Some((l, p)) => {
                if p != cs.len() {
                    proof {
                        assert(!(exists|lv: ListView| lv.fits() && enc_list(lv) == text@));
                    }
                    return None;
                }
                let mut re: Vec<char> = Vec::new();
                encode_list(&l, &mut re);
                if eq_chars(&re, &cs) {
                    Some(l)
                } else {
                    proof {
                        assert(!(exists|lv: ListView| lv.fits() && enc_list(lv) == text@));
                    }
                    None
                }
            },
        }
    }
}

/// Round-trip law: serialization loses nothing.
/// Round-trip law: serialization loses nothing. Two lists with the same
/// serialized text are the same list: same items in the same order, same
/// identifiers, completed flags, deadlines, nested lists, and the same pool
/// state. Reading a saved list back therefore yields a list structurally equal to
/// the one saved.
pub proof fn lemma_codec_lossless(a: ListView, b: ListView)
    requires
        enc_list(a) == enc_list(b),
    ensures
        a == b,
{
    lemma_list_inj(a, b, Seq::empty(), Seq::empty());
}

} // verus!
