//! Ordering entries by name, as `CString`'s `Ord` orders names.
use vstd::prelude::*;
use crate::cpio::{CpioEntry, EntryView};

verus! {

/// Byte-wise lexicographic order: `a` is a prefix of `b`, or at the first byte where they
/// differ `a`'s is smaller.
pub open spec fn lex_le(a: Seq<u8>, b: Seq<u8>) -> bool
    decreases a.len(),
{
    if a.len() == 0 {
        true
    } else if b.len() == 0 {
        false
    } else if a[0] < b[0] {
        true
    } else if a[0] > b[0] {
        false
    } else {
        lex_le(a.drop_first(), b.drop_first())
    }
}

pub proof fn lemma_lex_reflexive(a: Seq<u8>)
    ensures
        lex_le(a, a),
    decreases a.len(),
{
    if a.len() > 0 {
        lemma_lex_reflexive(a.drop_first());
    }
}

pub proof fn lemma_lex_total(a: Seq<u8>, b: Seq<u8>)
    ensures
        lex_le(a, b) || lex_le(b, a),
    decreases a.len(),
{
    if a.len() > 0 && b.len() > 0 && a[0] == b[0] {
        lemma_lex_total(a.drop_first(), b.drop_first());
    }
}

pub proof fn lemma_lex_antisymmetric(a: Seq<u8>, b: Seq<u8>)
    requires
        lex_le(a, b),
        lex_le(b, a),
    ensures
        a == b,
    decreases a.len(),
{
    if a.len() == 0 {
        assert(b.len() == 0);
        assert(a =~= b);
    } else {
        lemma_lex_antisymmetric(a.drop_first(), b.drop_first());
        assert(a =~= seq![a[0]] + a.drop_first());
        assert(b =~= seq![b[0]] + b.drop_first());
    }
}

pub proof fn lemma_lex_transitive(a: Seq<u8>, b: Seq<u8>, c: Seq<u8>)
    requires
        lex_le(a, b),
        lex_le(b, c),
    ensures
        lex_le(a, c),
    decreases a.len(),
{
    if a.len() > 0 && b.len() > 0 && c.len() > 0 && a[0] == b[0] && b[0] == c[0] {
        lemma_lex_transitive(a.drop_first(), b.drop_first(), c.drop_first());
    }
}

/// Whether `a` comes no later than `b` in byte-wise lexicographic order.
pub fn lex_le_exec(a: &[u8], b: &[u8]) -> (r: bool)
    ensures
        r == lex_le(a@, b@),
        r == byte_order_before(a@, b@),
{
    proof {
        lemma_lex_le_bytes(a@, b@);
    }
    let mut i: usize = 0;
    assert(a@.skip(0) =~= a@ && b@.skip(0) =~= b@);
    while i < a.len() && i < b.len()
        invariant
            i <= a@.len(),
            i <= b@.len(),
            lex_le(a@, b@) == lex_le(a@.skip(i as int), b@.skip(i as int)),
            lex_le(a@, b@) == byte_order_before(a@, b@),
        decreases a@.len() - i,
    {
        assert(a@.skip(i as int)[0] == a@[i as int]);
        assert(b@.skip(i as int)[0] == b@[i as int]);
        if a[i] < b[i] {
            return true;
        }
        if a[i] > b[i] {
            return false;
        }
        assert(a@.skip(i as int).drop_first() =~= a@.skip(i + 1));
        assert(b@.skip(i as int).drop_first() =~= b@.skip(i + 1));
        i = i + 1;
    }
    i == a.len()
}

/// The views of entries.
pub open spec fn entry_views(v: Seq<CpioEntry>) -> Seq<EntryView> {
    v.map_values(|e: CpioEntry| e@)
}

/// Entries in order of their names.
pub open spec fn sorted_by_name(s: Seq<EntryView>) -> bool {
    forall|i: int, j: int| 0 <= i < j < s.len() ==> lex_le(#[trigger] s[i].header.name, #[trigger] s[j].header.name)
}

/// The entries of `s` named `k`, in their order in `s`.
pub open spec fn named(s: Seq<EntryView>, k: Seq<u8>) -> Seq<EntryView> {
    s.filter(|e: EntryView| e.header.name == k)
}

/// `out` is `inp` sorted by name, with entries of equal names in their order in `inp`
/// (what a stable sort by name gives).
pub open spec fn is_stable_sort_of(out: Seq<EntryView>, inp: Seq<EntryView>) -> bool {
    &&& sorted_by_name(out)
    &&& forall|k: Seq<u8>| #[trigger] named(out, k) == named(inp, k)
}

proof fn lemma_filter_none<A>(s: Seq<A>, pred: spec_fn(A) -> bool)
    requires
        forall|i: int| 0 <= i < s.len() ==> !pred(#[trigger] s[i]),
    ensures
        s.filter(pred) == Seq::<A>::empty(),
{
    assert(s.all(|x: A| !pred(x))) by {
        assert forall|i: int| 0 <= i < s.len() implies (|x: A| !pred(x))(#[trigger] s[i]) by {}
    }
    s.lemma_all_neg_filter_empty(pred);
    assert(s.filter(pred) =~= Seq::<A>::empty());
}

/// Sorts entries by name, keeping entries of equal names in their order (as `sort_by` on
/// names does).
pub fn sort_by_name(entries: Vec<CpioEntry>) -> (res: Vec<CpioEntry>)
    ensures
        is_stable_sort_of(entry_views(res@), entry_views(entries@)),
        res@.len() == entries@.len(),
        forall|a: int|
            0 <= a < res@.len() ==> entry_views(entries@).contains(#[trigger] entry_views(res@)[a]),
{
    let ghost input = entry_views(entries@);
    let mut rest = entries;
    let mut out: Vec<CpioEntry> = Vec::new();
    let ghost mut i: int = 0;
    assert(entry_views(rest@) =~= input.skip(0));
    assert forall|k: Seq<u8>| #[trigger] named(entry_views(out@), k) == named(input.take(0), k) by {
        assert(entry_views(out@) =~= input.take(0));
    }
    while rest.len() > 0
        invariant
            0 <= i <= input.len(),
            input == entry_views(entries@),
            entry_views(rest@) == input.skip(i),
            out@.len() == i,
            input.len() == entries@.len(),
            sorted_by_name(entry_views(out@)),
            forall|k: Seq<u8>| #[trigger] named(entry_views(out@), k) == named(input.take(i), k),
            forall|a: int| 0 <= a < out@.len() ==> input.contains(#[trigger] entry_views(out@)[a]),
        decreases rest@.len(),
    {
        let ghost old_out = entry_views(out@);
        let ghost old_rest = rest@;
        let x = rest.remove(0);
        proof {
            assert(entry_views(old_rest).len() == old_rest.len());
            assert(input.skip(i).len() > 0);
            assert(entry_views(old_rest)[0] == old_rest[0]@);
            assert(input.skip(i)[0] == input[i]);
            assert(x@ == input[i]);
            assert(rest@ =~= old_rest.drop_first());
            assert(entry_views(rest@) =~= entry_views(old_rest).drop_first());
            assert(input.skip(i).drop_first() =~= input.skip(i + 1));
        }
        let mut j: usize = 0;
        loop
            invariant
                j <= out@.len(),
                entry_views(out@) == old_out,
                forall|m: int| 0 <= m < j ==> lex_le(#[trigger] old_out[m].header.name, x@.header.name),
            ensures
                j <= out@.len(),
                forall|m: int| 0 <= m < j ==> lex_le(#[trigger] old_out[m].header.name, x@.header.name),
                j < out@.len() ==> !lex_le(old_out[j as int].header.name, x@.header.name),
            decreases out@.len() - j,
        {
            if j >= out.len() {
                break;
            }
            assert(old_out[j as int] == out@[j as int]@);
            if !lex_le_exec(out[j].header.name.as_slice(), x.header.name.as_slice()) {
                break;
            }
            j = j + 1;
        }
        let ghost xv = x@;
        out.insert(j, x);
        proof {
            let nv = entry_views(out@);
            assert(nv =~= old_out.insert(j as int, xv));
            // sorted
            assert forall|a: int, b: int| 0 <= a < b < nv.len() implies lex_le(
                #[trigger] nv[a].header.name,
                #[trigger] nv[b].header.name,
            ) by {
                if b == j {
                    assert(nv[a] == old_out[a]);
                } else if a == j {
                    let y = old_out[j as int].header.name;
                    lemma_lex_total(y, xv.header.name);
                    assert(nv[b] == old_out[b - 1]);
                    if b - 1 > j {
                        assert(lex_le(old_out[j as int].header.name, old_out[b - 1].header.name));
                    } else {
                        lemma_lex_reflexive(y);
                    }
                    lemma_lex_transitive(xv.header.name, y, old_out[b - 1].header.name);
                } else if b < j {
                    assert(nv[a] == old_out[a] && nv[b] == old_out[b]);
                } else if a < j {
                    assert(nv[a] == old_out[a] && nv[b] == old_out[b - 1]);
                } else {
                    assert(nv[a] == old_out[a - 1] && nv[b] == old_out[b - 1]);
                }
            }
            assert forall|a: int| 0 <= a < out@.len() implies input.contains(#[trigger] nv[a]) by {
                if a < j {
                    assert(nv[a] == old_out[a]);
                } else if a == j {
                    assert(input[i] == xv);
                } else {
                    assert(nv[a] == old_out[a - 1]);
                }
            }
            // stable
            let front = old_out.take(j as int);
            let back = old_out.skip(j as int);
            assert(nv =~= front + seq![xv] + back);
            assert(old_out =~= front + back);
            assert(input.take(i + 1) =~= input.take(i).push(xv));
            assert forall|k: Seq<u8>| #[trigger] named(nv, k) == named(input.take(i + 1), k) by {
                let pred = |e: EntryView| e.header.name == k;
                Seq::filter_distributes_over_add(front + seq![xv], back, pred);
                Seq::filter_distributes_over_add(front, seq![xv], pred);
                Seq::filter_distributes_over_add(front, back, pred);
                input.take(i).lemma_filter_push(xv, pred);
                seq![xv].lemma_filter_push(xv, pred);
                assert(seq![xv] =~= Seq::<EntryView>::empty().push(xv));
                Seq::<EntryView>::empty().lemma_filter_push(xv, pred);
                assert(Seq::<EntryView>::empty().filter(pred) =~= Seq::<EntryView>::empty()) by {
                    lemma_filter_none(Seq::<EntryView>::empty(), pred);
                }
                if k == xv.header.name {
                    assert forall|m: int| 0 <= m < back.len() implies !pred(#[trigger] back[m]) by {
                        let y = old_out[j as int].header.name;
                        assert(back[m] == old_out[j + m]);
                        if back[m].header.name == k {
                            if m > 0 {
                                assert(lex_le(old_out[j as int].header.name, old_out[j + m].header.name));
                            } else {
                                lemma_lex_reflexive(y);
                            }
                            assert(lex_le(y, xv.header.name));
                            assert(false);
                        }
                    }
                    lemma_filter_none(back, pred);
                    assert(named(nv, k) =~= named(old_out, k).push(xv));
                } else {
                    assert(named(nv, k) =~= named(old_out, k));
                }
            }
            i = i + 1;
        }
    }
    assert(input.take(i) =~= input);
    out
}

} // verus!


verus! {

proof fn lemma_named_cons(a: Seq<EntryView>, k: Seq<u8>)
    requires
        a.len() > 0,
    ensures
        named(a, k) == (if a[0].header.name == k {
            seq![a[0]] + named(a.drop_first(), k)
        } else {
            named(a.drop_first(), k)
        }),
{
    let pred = |e: EntryView| e.header.name == k;
    assert(a =~= seq![a[0]] + a.drop_first());
    a.drop_first().lemma_filter_prepend(a[0], pred);
    if a[0].header.name != k {
        assert(Seq::<EntryView>::empty() + named(a.drop_first(), k) =~= named(a.drop_first(), k));
    }
}

proof fn lemma_named_member(a: Seq<EntryView>, i: int)
    requires
        0 <= i < a.len(),
    ensures
        named(a, a[i].header.name).contains(a[i]),
        named(a, a[i].header.name).len() > 0,
{
    let pred = |e: EntryView| e.header.name == a[i].header.name;
    a.lemma_filter_contains(pred, i);
}

proof fn lemma_sorted_drop_first(a: Seq<EntryView>)
    requires
        sorted_by_name(a),
        a.len() > 0,
    ensures
        sorted_by_name(a.drop_first()),
{
    assert forall|i: int, j: int| 0 <= i < j < a.drop_first().len() implies lex_le(
        #[trigger] a.drop_first()[i].header.name,
        #[trigger] a.drop_first()[j].header.name,
    ) by {
        assert(a.drop_first()[i] == a[i + 1] && a.drop_first()[j] == a[j + 1]);
    }
}

/// Two orders by name of the same entries that agree, name by name, on the order of entries
/// of that name are the same order.
proof fn lemma_sorted_named_unique(a: Seq<EntryView>, b: Seq<EntryView>)
    requires
        sorted_by_name(a),
        sorted_by_name(b),
        forall|k: Seq<u8>| #[trigger] named(a, k) == named(b, k),
    ensures
        a == b,
    decreases a.len(),
{
    if a.len() == 0 {
        if b.len() > 0 {
            lemma_named_member(b, 0);
            assert(named(a, b[0].header.name) =~= Seq::<EntryView>::empty()) by {
                lemma_filter_none(a, |e: EntryView| e.header.name == b[0].header.name);
            }
        }
        assert(a =~= b);
    } else if b.len() == 0 {
        lemma_named_member(a, 0);
        assert(named(b, a[0].header.name) =~= Seq::<EntryView>::empty()) by {
            lemma_filter_none(b, |e: EntryView| e.header.name == a[0].header.name);
        }
    } else {
        let m = a[0].header.name;
        let p = b[0].header.name;
        // the first names agree
        lemma_named_member(b, 0);
        let pa = |e: EntryView| e.header.name == p;
        assert(named(a, p) == named(b, p));
        assert(a.filter(pa).contains(b[0]));
        a.lemma_filter_contains_rev(pa, b[0]);
        let j = choose|j: int| 0 <= j < a.len() && a[j] == b[0];
        if j == 0 {
            lemma_lex_reflexive(m);
        }
        assert(lex_le(m, p));
        lemma_named_member(a, 0);
        let pb = |e: EntryView| e.header.name == m;
        assert(named(a, m) == named(b, m));
        assert(b.filter(pb).contains(a[0]));
        b.lemma_filter_contains_rev(pb, a[0]);
        let i = choose|i: int| 0 <= i < b.len() && b[i] == a[0];
        if i == 0 {
            lemma_lex_reflexive(p);
        }
        assert(lex_le(p, m));
        lemma_lex_antisymmetric(m, p);
        // so do the first entries, and the rest agree name by name
        lemma_named_cons(a, m);
        lemma_named_cons(b, m);
        assert(named(a, m)[0] == a[0]);
        assert(named(b, m)[0] == b[0]);
        assert forall|k: Seq<u8>| #[trigger] named(a.drop_first(), k) == named(b.drop_first(), k) by {
            lemma_named_cons(a, k);
            lemma_named_cons(b, k);
            if k == m {
                assert(named(a.drop_first(), k) =~= named(a, k).drop_first());
                assert(named(b.drop_first(), k) =~= named(b, k).drop_first());
            }
        }
        lemma_sorted_drop_first(a);
        lemma_sorted_drop_first(b);
        lemma_sorted_named_unique(a.drop_first(), b.drop_first());
        assert(a =~= seq![a[0]] + a.drop_first());
        assert(b =~= seq![b[0]] + b.drop_first());
    }
}

/// A stable sort by name has one outcome: the order in which `strip --sort` writes entries is
/// determined by the entries.
pub proof fn lemma_stable_sort_unique(a: Seq<EntryView>, b: Seq<EntryView>, s: Seq<EntryView>)
    requires
        is_stable_sort_of(a, s),
        is_stable_sort_of(b, s),
    ensures
        a == b,
{
    assert forall|k: Seq<u8>| #[trigger] named(a, k) == named(b, k) by {
        assert(named(a, k) == named(s, k));
        assert(named(b, k) == named(s, k));
    }
    lemma_sorted_named_unique(a, b);
}

/// A stable sort holds only entries of what it sorts.
pub proof fn lemma_stable_sort_members(a: Seq<EntryView>, s: Seq<EntryView>)
    requires
        is_stable_sort_of(a, s),
    ensures
        forall|i: int| 0 <= i < a.len() ==> s.contains(#[trigger] a[i]),
{
    assert forall|i: int| 0 <= i < a.len() implies s.contains(#[trigger] a[i]) by {
        lemma_named_member(a, i);
        let pred = |e: EntryView| e.header.name == a[i].header.name;
        assert(named(s, a[i].header.name) == named(a, a[i].header.name));
        s.lemma_filter_contains_rev(pred, a[i]);
    }
}

} // verus!

verus! {

/// `a` is a prefix of `b`, or at the first place where they differ `a`'s byte has the smaller
/// value (plain unsigned byte values, as `CString`'s `Ord` compares names).
pub open spec fn byte_order_before(a: Seq<u8>, b: Seq<u8>) -> bool {
    ||| (a.len() <= b.len() && a == b.take(a.len() as int))
    ||| exists|i: int| 0 <= i < a.len() && i < b.len() && a.take(i) == b.take(i) && #[trigger] a[i] < b[i]
}

/// The order of names is byte-wise: a name comes no later than another exactly when it is a
/// prefix of it, or at the first byte where they differ its byte value is smaller.
pub proof fn lemma_lex_le_bytes(a: Seq<u8>, b: Seq<u8>)
    ensures
        lex_le(a, b) <==> byte_order_before(a, b),
        a.len() > 0 && b.len() > 0 && a[0] != b[0] ==> (lex_le(a, b) <==> a[0] < b[0]),
    decreases a.len(),
{
    if a.len() == 0 {
        assert(a =~= b.take(0));
    } else if b.len() == 0 {
        if byte_order_before(a, b) {
            let i = choose|i: int| 0 <= i < a.len() && i < b.len() && a.take(i) == b.take(i) && #[trigger] a[i] < b[i];
            assert(false);
        }
    } else if a[0] < b[0] {
        assert(a.take(0) =~= b.take(0));
        assert(0 < a.len() && 0 < b.len() && a.take(0) == b.take(0) && a[0] < b[0]);
    } else if a[0] > b[0] {
        if a.len() <= b.len() && a == b.take(a.len() as int) {
            assert(a[0] == b.take(a.len() as int)[0]);
        }
        if exists|i: int| 0 <= i < a.len() && i < b.len() && a.take(i) == b.take(i) && #[trigger] a[i] < b[i] {
            let i = choose|i: int| 0 <= i < a.len() && i < b.len() && a.take(i) == b.take(i) && #[trigger] a[i] < b[i];
            if i > 0 {
                assert(a.take(i)[0] == b.take(i)[0]);
            }
        }
    } else {
        let a1 = a.drop_first();
        let b1 = b.drop_first();
        lemma_lex_le_bytes(a1, b1);
        // prefixes
        if a.len() <= b.len() && a == b.take(a.len() as int) {
            assert(a1 =~= b1.take(a1.len() as int));
        }
        if a1.len() <= b1.len() && a1 == b1.take(a1.len() as int) {
            assert(a =~= b.take(a.len() as int)) by {
                assert forall|j: int| 0 <= j < a.len() implies a[j] == b.take(a.len() as int)[j] by {
                    if j > 0 {
                        assert(a1[j - 1] == b1.take(a1.len() as int)[j - 1]);
                    }
                }
            }
        }
        // first differing bytes
        if exists|i: int| 0 <= i < a.len() && i < b.len() && a.take(i) == b.take(i) && #[trigger] a[i] < b[i] {
            let i = choose|i: int| 0 <= i < a.len() && i < b.len() && a.take(i) == b.take(i) && #[trigger] a[i] < b[i];
            assert(i > 0);
            assert(a1.take(i - 1) =~= b1.take(i - 1)) by {
                assert forall|j: int| 0 <= j < i - 1 implies a1[j] == b1[j] by {
                    assert(a.take(i)[j + 1] == b.take(i)[j + 1]);
                }
            }
            assert(a1[i - 1] < b1[i - 1]);
        }
        if exists|i: int| 0 <= i < a1.len() && i < b1.len() && a1.take(i) == b1.take(i) && #[trigger] a1[i] < b1[i] {
            let i = choose|i: int| 0 <= i < a1.len() && i < b1.len() && a1.take(i) == b1.take(i) && #[trigger] a1[i] < b1[i];
            assert(a.take(i + 1) =~= b.take(i + 1)) by {
                assert forall|j: int| 0 <= j < i + 1 implies a[j] == b[j] by {
                    if j > 0 {
                        assert(a1.take(i)[j - 1] == b1.take(i)[j - 1]);
                    }
                }
            }
            assert(a[i + 1] < b[i + 1]);
        }
    }
}

} // verus!
