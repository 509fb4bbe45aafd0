//! The bencode format: byte strings, integers, lists and dictionaries, with a
//! canonical encoding in which dictionary keys come in ascending byte order.
use vstd::prelude::*;

use crate::wire::{copy_range, push_all};

verus! {

broadcast use vstd::std_specs::vec::group_vec_axioms, vstd::seq::group_seq_axioms;

/// Deepest nesting of lists and dictionaries that `decode` accepts.
pub const MAX_DEPTH: usize = 64;

/// Mathematical model of a bencoded value.
pub enum Term {
    Bytes(Seq<u8>),
    Int(int),
    List(Seq<Term>),
    Dict(Seq<(Seq<u8>, Term)>),
}

// ---------------------------------------------------------------------------
// Byte-string order
/// Lexicographic order on byte strings; a proper prefix comes first.
pub open spec fn bytes_lt(a: Seq<u8>, b: Seq<u8>) -> bool
    decreases a.len(),
{
    if a.len() == 0 {
        b.len() > 0
    } else if b.len() == 0 {
        false
    } else if a[0] != b[0] {
        a[0] < b[0]
    } else {
        bytes_lt(a.drop_first(), b.drop_first())
    }
}

/// No byte string is below itself.
pub proof fn lemma_bytes_lt_irreflexive(a: Seq<u8>)
    ensures
        !bytes_lt(a, a),
    decreases a.len(),
{
    if a.len() > 0 {
        lemma_bytes_lt_irreflexive(a.drop_first());
    }
}

/// Of two byte strings, exactly one of: equal, first below, second below.
pub proof fn lemma_bytes_lt_total(a: Seq<u8>, b: Seq<u8>)
    ensures
        a == b || bytes_lt(a, b) || bytes_lt(b, a),
        !(bytes_lt(a, b) && bytes_lt(b, a)),
    decreases a.len(),
{
    if a.len() > 0 && b.len() > 0 && a[0] == b[0] {
        lemma_bytes_lt_total(a.drop_first(), b.drop_first());
        if a.drop_first() == b.drop_first() {
            assert(a =~= seq![a[0]] + a.drop_first());
            assert(b =~= seq![b[0]] + b.drop_first());
        }
    }
    if a.len() == 0 && b.len() == 0 {
        assert(a =~= b);
    }
}

/// `bytes_lt` is transitive.
pub proof fn lemma_bytes_lt_transitive(a: Seq<u8>, b: Seq<u8>, c: Seq<u8>)
    requires
        bytes_lt(a, b),
        bytes_lt(b, c),
    ensures
        bytes_lt(a, c),
    decreases a.len(),
{
    if a.len() > 0 && b.len() > 0 && c.len() > 0 && a[0] == b[0] && b[0] == c[0] {
        lemma_bytes_lt_transitive(a.drop_first(), b.drop_first(), c.drop_first());
    }
}

/// `bytes_lt` as executable code.
pub fn bytes_less(a: &[u8], b: &[u8]) -> (r: bool)
    ensures
        r == bytes_lt(a@, b@),
{
    let mut i: usize = 0;
    assert(a@.subrange(0, a@.len() as int) =~= a@);
    assert(b@.subrange(0, b@.len() as int) =~= b@);
    while i < a.len() && i < b.len()
        invariant
            i <= a@.len(),
            i <= b@.len(),
            a@.subrange(0, i as int) == b@.subrange(0, i as int),
            bytes_lt(a@, b@) == bytes_lt(a@.subrange(i as int, a@.len() as int), b@.subrange(i as int, b@.len() as int)),
        decreases a@.len() - i,
    {
        if a[i] != b[i] {
            return a[i] < b[i];
        }
        let ghost sa = a@.subrange(i as int, a@.len() as int);
        let ghost sb = b@.subrange(i as int, b@.len() as int);
        assert(sa.drop_first() =~= a@.subrange(i + 1, a@.len() as int));
        assert(sb.drop_first() =~= b@.subrange(i + 1, b@.len() as int));
        assert(a@.subrange(0, i + 1) =~= a@.subrange(0, i as int).push(a@[i as int]));
        assert(b@.subrange(0, i + 1) =~= b@.subrange(0, i as int).push(b@[i as int]));
        i += 1;
    }
    i == a.len() && i < b.len()
}

/// Whether two byte strings are equal, as executable code.
pub fn bytes_equal(a: &[u8], b: &[u8]) -> (r: bool)
    ensures
        r == (a@ == b@),
{
    if a.len() != b.len() {
        return false;
    }
    let mut i: usize = 0;
    while i < a.len()
        invariant
            i <= a@.len(),
            a@.len() == b@.len(),
            forall|j: int| 0 <= j < i ==> a@[j] == b@[j],
        decreases a@.len() - i,
    {
        if a[i] != b[i] {
            return false;
        }
        i += 1;
    }
    assert(a@ =~= b@);
    true
}

// ---------------------------------------------------------------------------
// Dictionaries as sorted sequences of entries
/// Keys strictly ascending: sorted, each key once.
pub open spec fn keys_sorted<V>(d: Seq<(Seq<u8>, V)>) -> bool {
    forall|i: int, j: int| 0 <= i < j < d.len() ==> bytes_lt(#[trigger] d[i].0, #[trigger] d[j].0)
}

/// How many leading entries have a key below `k`.
pub open spec fn lower_bound<V>(d: Seq<(Seq<u8>, V)>, k: Seq<u8>) -> nat
    decreases d.len(),
{
    if d.len() == 0 {
        0
    } else if bytes_lt(d[0].0, k) {
        1 + lower_bound(d.drop_first(), k)
    } else {
        0
    }
}

/// `d` with `k` bound to `v`: an entry for `k` is replaced, otherwise a new
/// one goes in before the first larger key.
pub open spec fn dict_insert<V>(d: Seq<(Seq<u8>, V)>, k: Seq<u8>, v: V) -> Seq<(Seq<u8>, V)> {
    let j = lower_bound(d, k) as int;
    if j < d.len() && d[j].0 == k {
        d.update(j, (k, v))
    } else {
        d.insert(j, (k, v))
    }
}

/// The dictionary built by inserting the pairs of `ps` in order.
pub open spec fn dict_of_pairs<V>(ps: Seq<(Seq<u8>, V)>) -> Seq<(Seq<u8>, V)>
    decreases ps.len(),
{
    if ps.len() == 0 {
        Seq::empty()
    } else {
        dict_insert(dict_of_pairs(ps.drop_last()), ps.last().0, ps.last().1)
    }
}

/// The key-to-value map of a sequence of pairs; a later pair wins.
pub open spec fn map_of_pairs<V>(ps: Seq<(Seq<u8>, V)>) -> Map<Seq<u8>, V>
    decreases ps.len(),
{
    if ps.len() == 0 {
        Map::empty()
    } else {
        map_of_pairs(ps.drop_last()).insert(ps.last().0, ps.last().1)
    }
}

/// The value of the first entry for `k`.
pub open spec fn dict_lookup<V>(d: Seq<(Seq<u8>, V)>, k: Seq<u8>) -> Option<V>
    decreases d.len(),
{
    if d.len() == 0 {
        None
    } else if d[0].0 == k {
        Some(d[0].1)
    } else {
        dict_lookup(d.drop_first(), k)
    }
}

proof fn lemma_lower_bound<V>(d: Seq<(Seq<u8>, V)>, k: Seq<u8>)
    ensures
        lower_bound(d, k) <= d.len(),
        forall|i: int| 0 <= i < lower_bound(d, k) ==> bytes_lt(#[trigger] d[i].0, k),
        lower_bound(d, k) < d.len() ==> !bytes_lt(d[lower_bound(d, k) as int].0, k),
    decreases d.len(),
{
    if d.len() > 0 && bytes_lt(d[0].0, k) {
        lemma_lower_bound(d.drop_first(), k);
        assert forall|i: int| 0 <= i < lower_bound(d, k) implies bytes_lt(#[trigger] d[i].0, k) by {
            if i > 0 {
                assert(d[i] == d.drop_first()[i - 1]);
            }
        }
    }
}

proof fn lemma_insert_sorted<V>(d: Seq<(Seq<u8>, V)>, k: Seq<u8>, v: V)
    requires
        keys_sorted(d),
    ensures
        keys_sorted(dict_insert(d, k, v)),
        map_of_pairs(dict_insert(d, k, v)) == map_of_pairs(d).insert(k, v),
{
    lemma_lower_bound(d, k);
    let j = lower_bound(d, k) as int;
    let r = dict_insert(d, k, v);
    if j < d.len() && d[j].0 == k {
        assert forall|a: int, b: int| 0 <= a < b < r.len() implies bytes_lt(#[trigger] r[a].0, #[trigger] r[b].0) by {
            assert(r[a].0 == d[a].0 && r[b].0 == d[b].0);
        }
    } else {
        // every key from position j on lies above k
        assert forall|i: int| j <= i < d.len() implies bytes_lt(k, #[trigger] d[i].0) by {
            lemma_bytes_lt_total(k, d[j].0);
            if i > j {
                lemma_bytes_lt_transitive(k, d[j].0, d[i].0);
            }
        }
        assert forall|a: int, b: int| 0 <= a < b < r.len() implies bytes_lt(#[trigger] r[a].0, #[trigger] r[b].0) by {
            if a < j && b < j {
                assert(r[a] == d[a] && r[b] == d[b]);
            } else if a < j && b == j {
                assert(r[a] == d[a]);
            } else if a < j && b > j {
                assert(r[a] == d[a]);
                assert(r[b] == d[b - 1]);
            } else if a == j {
                assert(r[b] == d[b - 1]);
            } else {
                assert(r[a] == d[a - 1] && r[b] == d[b - 1]);
            }
        }
    }
    lemma_map_of_sorted_insert(d, k, v);
}

proof fn lemma_map_of_pairs_dom<V>(d: Seq<(Seq<u8>, V)>)
    ensures
        forall|k: Seq<u8>| #[trigger] map_of_pairs(d).contains_key(k) <==> exists|i: int| 0 <= i < d.len() && d[i].0 == k,
    decreases d.len(),
{
    if d.len() > 0 {
        lemma_map_of_pairs_dom(d.drop_last());
        assert forall|k: Seq<u8>| #[trigger] map_of_pairs(d).contains_key(k) <==> exists|i: int| 0 <= i < d.len() && d[i].0 == k by {
            assert(map_of_pairs(d) == map_of_pairs(d.drop_last()).insert(d.last().0, d.last().1));
            if k == d.last().0 {
                assert(d[d.len() - 1].0 == k);
            }
            if map_of_pairs(d).contains_key(k) && k != d.last().0 {
                assert(map_of_pairs(d.drop_last()).contains_key(k));
                let i = choose|i: int| 0 <= i < d.drop_last().len() && d.drop_last()[i].0 == k;
                assert(d[i].0 == k);
            }
            if exists|i: int| 0 <= i < d.len() && d[i].0 == k {
                let i = choose|i: int| 0 <= i < d.len() && d[i].0 == k;
                if i < d.len() - 1 {
                    assert(d.drop_last()[i].0 == k);
                }
            }
        }
    }
}

/// In a sorted dictionary, the map sends each key to its own entry's value.
proof fn lemma_map_of_sorted<V>(d: Seq<(Seq<u8>, V)>)
    requires
        keys_sorted(d),
    ensures
        forall|i: int| 0 <= i < d.len() ==> map_of_pairs(d)[#[trigger] d[i].0] == d[i].1,
        forall|k: Seq<u8>| #[trigger] map_of_pairs(d).contains_key(k) <==> exists|i: int| 0 <= i < d.len() && d[i].0 == k,
    decreases d.len(),
{
    lemma_map_of_pairs_dom(d);
    if d.len() > 0 {
        let p = d.drop_last();
        assert(keys_sorted(p)) by {
            assert forall|a: int, b: int| 0 <= a < b < p.len() implies bytes_lt(#[trigger] p[a].0, #[trigger] p[b].0) by {
                assert(p[a] == d[a] && p[b] == d[b]);
            }
        }
        lemma_map_of_sorted(p);
        assert forall|i: int| 0 <= i < d.len() implies map_of_pairs(d)[#[trigger] d[i].0] == d[i].1 by {
            if i < d.len() - 1 {
                assert(p[i] == d[i]);
                assert(bytes_lt(d[i].0, d.last().0));
                lemma_bytes_lt_irreflexive(d[i].0);
            }
        }
    }
}

proof fn lemma_map_of_sorted_insert<V>(d: Seq<(Seq<u8>, V)>, k: Seq<u8>, v: V)
    requires
        keys_sorted(d),
        keys_sorted(dict_insert(d, k, v)),
    ensures
        map_of_pairs(dict_insert(d, k, v)) == map_of_pairs(d).insert(k, v),
{
    let r = dict_insert(d, k, v);
    lemma_lower_bound(d, k);
    lemma_map_of_sorted(d);
    lemma_map_of_sorted(r);
    let j = lower_bound(d, k) as int;
    assert(r[j] == (k, v));
    assert forall|key: Seq<u8>| #[trigger] map_of_pairs(r).contains_key(key) <==> map_of_pairs(d).insert(k, v).contains_key(key) by {
        if map_of_pairs(d).contains_key(key) {
            let i = choose|i: int| 0 <= i < d.len() && d[i].0 == key;
            if i < j {
                assert(r[i] == d[i]);
            } else if r.len() == d.len() {
                assert(r[i].0 == d[i].0);
            } else {
                assert(r[i + 1] == d[i]);
            }
        }
        if map_of_pairs(r).contains_key(key) && key != k {
            let i = choose|i: int| 0 <= i < r.len() && r[i].0 == key;
            if i < j {
                assert(r[i] == d[i]);
            } else if r.len() == d.len() {
                assert(r[i].0 == d[i].0);
            } else {
                assert(i != j);
                if i > j {
                    assert(r[i] == d[i - 1]);
                }
            }
        }
    }
    assert forall|key: Seq<u8>| #[trigger] map_of_pairs(r).contains_key(key) implies map_of_pairs(r)[key] == map_of_pairs(d).insert(k, v)[key] by {
        let i = choose|i: int| 0 <= i < r.len() && r[i].0 == key;
        assert(map_of_pairs(r)[r[i].0] == r[i].1);
        if key == k {
            lemma_bytes_lt_irreflexive(k);
            if i < j {
                assert(bytes_lt(r[i].0, r[j].0));
            } else if i > j {
                assert(bytes_lt(r[j].0, r[i].0));
            }
        } else {
            if i < j {
                assert(r[i] == d[i]);
                assert(map_of_pairs(d)[d[i].0] == d[i].1);
            } else if r.len() == d.len() {
                assert(r[i] == d[i]);
                assert(map_of_pairs(d)[d[i].0] == d[i].1);
            } else {
                assert(r[i] == d[i - 1]);
                assert(map_of_pairs(d)[d[i - 1].0] == d[i - 1].1);
            }
        }
    }
    assert(map_of_pairs(r) =~= map_of_pairs(d).insert(k, v));
}

/// Inserting pairs one by one keeps the keys sorted and gives the map in
/// which the last pair for each key wins.
pub proof fn lemma_dict_of_pairs(ps: Seq<(Seq<u8>, Term)>)
    ensures
        keys_sorted(dict_of_pairs(ps)),
        map_of_pairs(dict_of_pairs(ps)) == map_of_pairs(ps),
    decreases ps.len(),
{
    if ps.len() > 0 {
        lemma_dict_of_pairs(ps.drop_last());
        lemma_insert_sorted(dict_of_pairs(ps.drop_last()), ps.last().0, ps.last().1);
    }
}

/// Two sorted dictionaries with the same map are the same sequence.
pub proof fn lemma_sorted_dicts_equal(a: Seq<(Seq<u8>, Term)>, b: Seq<(Seq<u8>, Term)>)
    requires
        keys_sorted(a),
        keys_sorted(b),
        map_of_pairs(a) == map_of_pairs(b),
    ensures
        a == b,
    decreases a.len(),
{
    lemma_map_of_sorted(a);
    lemma_map_of_sorted(b);
    if a.len() == 0 {
        if b.len() > 0 {
            assert(map_of_pairs(b).contains_key(b[0].0));
        }
        assert(a =~= b);
    } else if b.len() == 0 {
        assert(map_of_pairs(a).contains_key(a[0].0));
    } else {
        let ka = a.last().0;
        let kb = b.last().0;
        assert(map_of_pairs(a).contains_key(a[a.len() - 1].0));
        assert(map_of_pairs(b).contains_key(b[b.len() - 1].0));
        // the largest keys agree
        let ia = choose|i: int| 0 <= i < b.len() && b[i].0 == ka;
        let ib = choose|i: int| 0 <= i < a.len() && a[i].0 == kb;
        if ka != kb {
            if ia < b.len() - 1 {
                assert(bytes_lt(b[ia].0, b[b.len() - 1].0));
            }
            if ib < a.len() - 1 {
                assert(bytes_lt(a[ib].0, a[a.len() - 1].0));
            }
            lemma_bytes_lt_total(ka, kb);
        }
        assert(ka == kb);
        assert(map_of_pairs(a)[a[a.len() - 1].0] == a.last().1);
        assert(map_of_pairs(b)[b[b.len() - 1].0] == b.last().1);
        let pa = a.drop_last();
        let pb = b.drop_last();
        assert(keys_sorted(pa)) by {
            assert forall|x: int, y: int| 0 <= x < y < pa.len() implies bytes_lt(#[trigger] pa[x].0, #[trigger] pa[y].0) by {
                assert(pa[x] == a[x] && pa[y] == a[y]);
            }
        }
        assert(keys_sorted(pb)) by {
            assert forall|x: int, y: int| 0 <= x < y < pb.len() implies bytes_lt(#[trigger] pb[x].0, #[trigger] pb[y].0) by {
                assert(pb[x] == b[x] && pb[y] == b[y]);
            }
        }
        lemma_map_of_sorted(pa);
        lemma_map_of_sorted(pb);
        lemma_bytes_lt_irreflexive(ka);
        assert(!map_of_pairs(pa).contains_key(ka)) by {
            if map_of_pairs(pa).contains_key(ka) {
                let i = choose|i: int| 0 <= i < pa.len() && pa[i].0 == ka;
                assert(bytes_lt(a[i].0, a[a.len() - 1].0));
            }
        }
        assert(!map_of_pairs(pb).contains_key(ka)) by {
            if map_of_pairs(pb).contains_key(ka) {
                let i = choose|i: int| 0 <= i < pb.len() && pb[i].0 == ka;
                assert(bytes_lt(b[i].0, b[b.len() - 1].0));
            }
        }
        assert(map_of_pairs(pa) =~= map_of_pairs(a).remove(ka));
        assert(map_of_pairs(pb) =~= map_of_pairs(b).remove(ka));
        lemma_sorted_dicts_equal(pa, pb);
        assert(a =~= pa.push(a.last()));
        assert(b =~= pb.push(b.last()));
    }
}

/// Inserting pairs in any order that binds the same keys to the same values
/// builds the same dictionary: its keys ascend strictly, so its encoding
/// lists them in ascending byte order whatever the order of insertion.
pub proof fn lemma_insertion_order(ps1: Seq<(Seq<u8>, Term)>, ps2: Seq<(Seq<u8>, Term)>)
    requires
        map_of_pairs(ps1) == map_of_pairs(ps2),
    ensures
        keys_sorted(dict_of_pairs(ps1)),
        dict_of_pairs(ps1) == dict_of_pairs(ps2),
        encode_term(Term::Dict(dict_of_pairs(ps1))) == encode_term(Term::Dict(dict_of_pairs(ps2))),
{
    lemma_dict_of_pairs(ps1);
    lemma_dict_of_pairs(ps2);
    lemma_sorted_dicts_equal(dict_of_pairs(ps1), dict_of_pairs(ps2));
}

// ---------------------------------------------------------------------------
// Canonical encoding
pub open spec fn is_digit(c: u8) -> bool {
    48 <= c <= 57
}

/// Decimal digits of `n`, without leading zeros.
pub open spec fn decimal(n: nat) -> Seq<u8>
    decreases n,
{
    if n < 10 {
        seq![(48 + n) as u8]
    } else {
        decimal(n / 10).push((48 + n % 10) as u8)
    }
}

/// Decimal form of `i`, with a leading `-` when negative.
pub open spec fn signed_decimal(i: int) -> Seq<u8> {
    if i < 0 {
        seq![45u8] + decimal((-i) as nat)
    } else {
        decimal(i as nat)
    }
}

/// `<length>:<bytes>`
pub open spec fn encode_bytes(b: Seq<u8>) -> Seq<u8> {
    decimal(b.len()) + seq![58u8] + b
}

/// The canonical encoding of a value.
pub open spec fn encode_term(t: Term) -> Seq<u8>
    decreases t,
{
    match t {
        Term::Bytes(b) => encode_bytes(b),
        Term::Int(i) => seq![105u8] + signed_decimal(i) + seq![101u8],
        Term::List(items) => seq![108u8] + encode_items(items) + seq![101u8],
        Term::Dict(es) => seq![100u8] + encode_entries(es) + seq![101u8],
    }
}

pub open spec fn encode_items(s: Seq<Term>) -> Seq<u8>
    decreases s,
{
    if s.len() == 0 {
        Seq::empty()
    } else {
        encode_term(s[0]) + encode_items(s.drop_first())
    }
}

pub open spec fn encode_entries(s: Seq<(Seq<u8>, Term)>) -> Seq<u8>
    decreases s,
{
    if s.len() == 0 {
        Seq::empty()
    } else {
        encode_bytes(s[0].0) + encode_term(s[0].1) + encode_entries(s.drop_first())
    }
}

proof fn lemma_encode_items_append(a: Seq<Term>, b: Seq<Term>)
    ensures
        encode_items(a + b) == encode_items(a) + encode_items(b),
    decreases a.len(),
{
    if a.len() == 0 {
        assert(a + b =~= b);
    } else {
        assert((a + b).drop_first() =~= a.drop_first() + b);
        lemma_encode_items_append(a.drop_first(), b);
    }
}

proof fn lemma_encode_entries_append(a: Seq<(Seq<u8>, Term)>, b: Seq<(Seq<u8>, Term)>)
    ensures
        encode_entries(a + b) == encode_entries(a) + encode_entries(b),
    decreases a.len(),
{
    if a.len() == 0 {
        assert(a + b =~= b);
    } else {
        assert((a + b).drop_first() =~= a.drop_first() + b);
        lemma_encode_entries_append(a.drop_first(), b);
    }
}

proof fn lemma_encode_items_step(s: Seq<Term>, i: int)
    requires
        0 <= i < s.len(),
    ensures
        encode_items(s.take(i + 1)) == encode_items(s.take(i)) + encode_term(s[i]),
{
    assert(s.take(i + 1) =~= s.take(i) + seq![s[i]]);
    lemma_encode_items_append(s.take(i), seq![s[i]]);
    assert(seq![s[i]].drop_first() =~= Seq::<Term>::empty());
    assert(encode_items(seq![s[i]]) == encode_term(s[i]) + encode_items(Seq::<Term>::empty()));
    assert(encode_items(seq![s[i]]) =~= encode_term(s[i]));
}

proof fn lemma_encode_entries_step(s: Seq<(Seq<u8>, Term)>, i: int)
    requires
        0 <= i < s.len(),
    ensures
        encode_entries(s.take(i + 1)) == encode_entries(s.take(i)) + encode_bytes(s[i].0) + encode_term(s[i].1),
{
    assert(s.take(i + 1) =~= s.take(i) + seq![s[i]]);
    lemma_encode_entries_append(s.take(i), seq![s[i]]);
    assert(seq![s[i]].drop_first() =~= Seq::<(Seq<u8>, Term)>::empty());
    assert(encode_entries(seq![s[i]]) == encode_bytes(s[i].0) + encode_term(s[i].1) + encode_entries(
        Seq::<(Seq<u8>, Term)>::empty(),
    ));
    assert(encode_entries(seq![s[i]]) =~= encode_bytes(s[i].0) + encode_term(s[i].1));
}

fn push_decimal(out: &mut Vec<u8>, n: u64)
    ensures
        final(out)@ == old(out)@ + decimal(n as nat),
    decreases n,
{
    if n >= 10 {
        push_decimal(out, n / 10);
    }
    out.push(48 + (n % 10) as u8);
    assert(out@ =~= old(out)@ + decimal(n as nat));
}

fn push_byte_string(out: &mut Vec<u8>, b: &[u8])
    ensures
        final(out)@ == old(out)@ + encode_bytes(b@),
{
    push_decimal(out, b.len() as u64);
    out.push(58);
    push_all(out, b);
    assert(out@ =~= old(out)@ + encode_bytes(b@));
}

fn encode_into(v: &BencodeValue, out: &mut Vec<u8>)
    ensures
        final(out)@ == old(out)@ + encode_term(v@),
    decreases v,
{
    match v {
        BencodeValue::ByteString(b) => {
            push_byte_string(out, b.as_slice());
        },
        BencodeValue::Integer(i) => {
            out.push(105);
            if *i < 0 {
                out.push(45);
                push_decimal(out, (0i128 - *i as i128) as u64);
            } else {
                push_decimal(out, *i as u64);
            }
            out.push(101);
            assert(out@ =~= old(out)@ + encode_term(v@));
        },
        BencodeValue::List(items) => {
            proof {
                lemma_list_view(*items);
            }
            let ghost s = list_view(items@);
            out.push(108);
            let mut i: usize = 0;
            assert(s.take(0) =~= Seq::<Term>::empty());
            while i < items.len()
                invariant
                    i <= items@.len(),
                    s == list_view(items@),
                    *v == BencodeValue::List(*items),
                    out@ == old(out)@ + seq![108u8] + encode_items(s.take(i as int)),
                decreases items@.len() - i,
            {
                proof {
                    lemma_encode_items_step(s, i as int);
                }
                assert(decreases_to!(*v => (*v)->List_0));
                assert(decreases_to!(*items => items[i as int]));
                encode_into(&items[i], out);
                i += 1;
            }
            assert(s.take(i as int) =~= s);
            out.push(101);
            assert(out@ =~= old(out)@ + encode_term(v@));
        },
        BencodeValue::Dictionary(d) => {
            proof {
                lemma_dict_view(*d);
            }
            let ghost s = d@;
            out.push(100);
            let mut i: usize = 0;
            assert(s.take(0) =~= Seq::<(Seq<u8>, Term)>::empty());
            while i < d.entries.len()
                invariant
                    i <= d.entries@.len(),
                    s == d@,
                    *v == BencodeValue::Dictionary(*d),
                    out@ == old(out)@ + seq![100u8] + encode_entries(s.take(i as int)),
                decreases d.entries@.len() - i,
            {
                proof {
                    lemma_encode_entries_step(s, i as int);
                }
                push_byte_string(out, d.entries[i].0.as_slice());
                assert(decreases_to!(*v => (*v)->Dictionary_0));
                assert(decreases_to!(*d => d.entries));
                assert(decreases_to!(d.entries => d.entries[i as int]));
                assert(decreases_to!(d.entries[i as int] => d.entries[i as int].1));
                encode_into(&d.entries[i].1, out);
                i += 1;
            }
            assert(s.take(i as int) =~= s);
            out.push(101);
            assert(out@ =~= old(out)@ + encode_term(v@));
        },
    }
}

/// The canonical encoding of `v`: dictionary keys in ascending byte order.
pub fn encode(v: &BencodeValue) -> (r: Vec<u8>)
    ensures
        r@ == encode_term(v@),
{
    let mut out: Vec<u8> = Vec::new();
    encode_into(v, &mut out);
    assert(out@ =~= encode_term(v@));
    out
}

// ---------------------------------------------------------------------------
// Decoding
/// How many ASCII digits follow, starting at `pos`.
pub open spec fn digit_run(b: Seq<u8>, pos: int) -> nat
    decreases b.len() - pos,
{
    if 0 <= pos < b.len() && is_digit(b[pos]) {
        1 + digit_run(b, pos + 1)
    } else {
        0
    }
}

/// The number that a string of decimal digits spells.
pub open spec fn digits_value(s: Seq<u8>) -> int
    decreases s.len(),
{
    if s.len() == 0 {
        0
    } else {
        digits_value(s.drop_last()) * 10 + (s.last() - 48)
    }
}

/// `<length>:<bytes>` at `pos`: the bytes and the position after them.
pub open spec fn parse_string(b: Seq<u8>, pos: int) -> Option<(Seq<u8>, int)> {
    let k = digit_run(b, pos) as int;
    let colon = pos + k;
    let n = digits_value(b.subrange(pos, colon));
    if 0 <= pos && k > 0 && colon < b.len() && b[colon] == 58 && n <= b.len() - colon - 1 {
        Some((b.subrange(colon + 1, colon + 1 + n), colon + 1 + n))
    } else {
        None
    }
}

/// `i<digits>e` or `i-<digits>e` at `pos`, the number fitting an `i64`.
pub open spec fn parse_int(b: Seq<u8>, pos: int) -> Option<(Term, int)> {
    let neg = pos + 1 < b.len() && b[pos + 1] == 45;
    let start = if neg {
        pos + 2
    } else {
        pos + 1
    };
    let k = digit_run(b, start) as int;
    let end = start + k;
    let m = digits_value(b.subrange(start, end));
    let v = if neg {
        -m
    } else {
        m
    };
    if 0 <= pos && k > 0 && end < b.len() && b[end] == 101 && i64::MIN <= v <= i64::MAX {
        Some((Term::Int(v), end + 1))
    } else {
        None
    }
}

/// The value that starts at `pos`, and the position after it. Lists and
/// dictionaries may nest `depth` levels deep.
pub open spec fn parse_value(b: Seq<u8>, pos: int, depth: nat) -> Option<(Term, int)>
    decreases b.len() - pos, 0int,
{
    if !(0 <= pos < b.len()) {
        None
    } else if is_digit(b[pos]) {
        match parse_string(b, pos) {
            Some((s, q)) => Some((Term::Bytes(s), q)),
            None => None,
        }
    } else if b[pos] == 105 {
        parse_int(b, pos)
    } else if b[pos] == 108 && depth > 0 {
        match parse_items(b, pos + 1, (depth - 1) as nat) {
            Some((items, q)) => Some((Term::List(items), q)),
            None => None,
        }
    } else if b[pos] == 100 && depth > 0 {
        match parse_entries(b, pos + 1, (depth - 1) as nat) {
            Some((es, q)) => Some((Term::Dict(dict_of_pairs(es)), q)),
            None => None,
        }
    } else {
        None
    }
}

/// Values up to the closing `e`, and the position after it.
pub open spec fn parse_items(b: Seq<u8>, pos: int, depth: nat) -> Option<(Seq<Term>, int)>
    decreases b.len() - pos, 1int,
{
    if !(0 <= pos < b.len()) {
        None
    } else if b[pos] == 101 {
        Some((Seq::empty(), pos + 1))
    } else {
        match parse_value(b, pos, depth) {
            Some((v, q)) => if pos < q <= b.len() {
                match parse_items(b, q, depth) {
                    Some((vs, r)) => Some((seq![v] + vs, r)),
                    None => None,
                }
            } else {
                None
            },
            None => None,
        }
    }
}

/// Key-value pairs, in input order, up to the closing `e`, and the position
/// after it. Every key must be a byte string.
pub open spec fn parse_entries(b: Seq<u8>, pos: int, depth: nat) -> Option<(Seq<(Seq<u8>, Term)>, int)>
    decreases b.len() - pos, 1int,
{
    if !(0 <= pos < b.len()) {
        None
    } else if b[pos] == 101 {
        Some((Seq::empty(), pos + 1))
    } else if !is_digit(b[pos]) {
        None
    } else {
        match parse_string(b, pos) {
            Some((k, q1)) => if pos < q1 <= b.len() {
                match parse_value(b, q1, depth) {
                    Some((v, q2)) => if q1 < q2 <= b.len() {
                        match parse_entries(b, q2, depth) {
                            Some((es, r)) => Some((seq![(k, v)] + es, r)),
                            None => None,
                        }
                    } else {
                        None
                    },
                    None => None,
                }
            } else {
                None
            },
            None => None,
        }
    }
}

/// The value at the start of `b` and the bytes after it.
pub open spec fn decode_spec(b: Seq<u8>) -> Option<(Term, Seq<u8>)> {
    match parse_value(b, 0, MAX_DEPTH as nat) {
        Some((t, q)) => Some((t, b.subrange(q, b.len() as int))),
        None => None,
    }
}

/// A malformed input, with the offset at which decoding gave up.
#[derive(Debug, Clone, Copy, PartialEq, Eq, Structural)]
pub struct DecodeError {
    pub offset: usize,
}

proof fn lemma_digits_value_push(s: Seq<u8>, c: u8)
    ensures
        digits_value(s.push(c)) == digits_value(s) * 10 + (c - 48),
{
    assert(s.push(c).drop_last() =~= s);
}

proof fn lemma_digits_value_monotone(s: Seq<u8>, m: int)
    requires
        0 <= m <= s.len(),
        forall|i: int| 0 <= i < s.len() ==> is_digit(#[trigger] s[i]),
    ensures
        digits_value(s.take(m)) <= digits_value(s),
        digits_value(s) >= 0,
    decreases s.len(),
{
    if s.len() > 0 {
        let p = s.drop_last();
        lemma_digits_value_monotone(p, if m == s.len() { 0 } else { m });
        if m < s.len() {
            assert(s.take(m) =~= p.take(m));
        } else {
            assert(s.take(m) =~= s);
        }
        assert(digits_value(s) == digits_value(p) * 10 + (s.last() - 48));
    } else {
        assert(s.take(m) =~= s);
    }
}

/// Reads the digits at `start`; fails once their value exceeds `limit`.
fn scan_number(b: &[u8], start: usize, limit: u64) -> (r: Option<(usize, u64)>)
    requires
        start <= b@.len(),
    ensures
        ({
            let k = digit_run(b@, start as int) as int;
            match r {
                Some((end, n)) => end == start + k && n == digits_value(b@.subrange(start as int, end as int))
                    && n <= limit,
                None => digits_value(b@.subrange(start as int, start + k)) > limit,
            }
        }),
{
    let ghost k = digit_run(b@, start as int) as int;
    let mut q: usize = start;
    let mut acc: u64 = 0;
    assert(b@.subrange(start as int, start as int) =~= Seq::<u8>::empty());
    while q < b.len() && 48 <= b[q] && b[q] <= 57
        invariant
            start <= q <= b@.len(),
            digit_run(b@, start as int) == (q - start) + digit_run(b@, q as int),
            acc == digits_value(b@.subrange(start as int, q as int)),
            acc <= limit,
            k == digit_run(b@, start as int),
            forall|i: int| start <= i < q ==> is_digit(#[trigger] b@[i]),
        decreases b@.len() - q,
    {
        let d = (b[q] - 48) as u64;
        proof {
            lemma_digits_value_push(b@.subrange(start as int, q as int), b@[q as int]);
            assert(b@.subrange(start as int, q + 1) =~= b@.subrange(start as int, q as int).push(b@[q as int]));
        }
        if d > limit || acc > (limit - d) / 10 {
            proof {
                if d <= limit {
                    assert(acc * 10 + d > limit) by (nonlinear_arith)
                        requires
                            acc > (limit - d) / 10,
                            d <= limit,
                    ;
                }
                lemma_digit_run_all(b@, start as int);
                let full = b@.subrange(start as int, start + k);
                assert(full.take(q + 1 - start) =~= b@.subrange(start as int, q + 1));
                lemma_digits_value_monotone(full, q + 1 - start);
            }
            return None;
        }
        assert(acc * 10 + d <= limit) by (nonlinear_arith)
            requires
                acc <= (limit - d) / 10,
                d <= limit,
        ;
        acc = acc * 10 + d;
        q += 1;
    }
    Some((q, acc))
}

proof fn lemma_digit_run_all(b: Seq<u8>, pos: int)
    requires
        0 <= pos <= b.len(),
    ensures
        pos + digit_run(b, pos) <= b.len(),
        forall|i: int| pos <= i < pos + digit_run(b, pos) ==> is_digit(#[trigger] b[i]),
        pos + digit_run(b, pos) < b.len() ==> !is_digit(b[pos + digit_run(b, pos)]),
    decreases b.len() - pos,
{
    if pos < b.len() && is_digit(b[pos]) {
        lemma_digit_run_all(b, pos + 1);
    }
}

/// `acc` put in front of the sequence that a parse gave.
pub open spec fn prepend<T>(acc: Seq<T>, r: Option<(Seq<T>, int)>) -> Option<(Seq<T>, int)> {
    match r {
        Some((s, q)) => Some((acc + s, q)),
        None => None,
    }
}

fn decode_string(b: &[u8], pos: usize) -> (r: Result<(Vec<u8>, usize), DecodeError>)
    requires
        pos <= b@.len(),
    ensures
        match parse_string(b@, pos as int) {
            None => r is Err,
            Some((s, q)) => r matches Ok((v, p)) && v@ == s && p == q,
        },
        r matches Ok((_, p)) ==> pos < p <= b@.len(),
        r matches Err(e) ==> e.offset <= b@.len(),
{
    let len = b.len();
    proof {
        lemma_digit_run_all(b@, pos as int);
    }
    match scan_number(b, pos, len as u64) {
        None => Err(DecodeError { offset: pos }),
        Some((colon, n)) => {
            if colon == pos || colon >= len || b[colon] != 58 || n as usize > len - colon - 1 {
                return Err(DecodeError { offset: colon });
            }
            let end = colon + 1 + n as usize;
            let v = copy_range(b, colon + 1, end);
            Ok((v, end))
        },
    }
}

fn decode_int(b: &[u8], pos: usize) -> (r: Result<(i64, usize), DecodeError>)
    requires
        pos < b@.len(),
    ensures
        match parse_int(b@, pos as int) {
            None => r is Err,
            Some((t, q)) => r matches Ok((v, p)) && t == Term::Int(v as int) && p == q,
        },
        r matches Ok((_, p)) ==> pos < p <= b@.len(),
        r matches Err(e) ==> e.offset <= b@.len(),
{
    let len = b.len();
    let neg = pos + 1 < len && b[pos + 1] == 45;
    let start = if neg {
        pos + 2
    } else {
        pos + 1
    };
    proof {
        lemma_digit_run_all(b@, start as int);
    }
    match scan_number(b, start, 0x8000_0000_0000_0000u64) {
        None => Err(DecodeError { offset: start }),
        Some((end, m)) => {
            if end == start || end >= len || b[end] != 101 {
                return Err(DecodeError { offset: end });
            }
            if neg {
                let v = (0i128 - m as i128) as i64;
                Ok((v, end + 1))
            } else if m > 0x7fff_ffff_ffff_ffffu64 {
                Err(DecodeError { offset: start })
            } else {
                Ok((m as i64, end + 1))
            }
        },
    }
}

proof fn lemma_parse_items_step(b: Seq<u8>, p: int, depth: nat, v: Term, q: int)
    requires
        0 <= p < b.len(),
        b[p] != 101,
        parse_value(b, p, depth) == Some((v, q)),
        p < q <= b.len(),
    ensures
        parse_items(b, p, depth) == prepend(seq![v], parse_items(b, q, depth)),
{
}

fn decode_value(b: &[u8], pos: usize, depth: usize) -> (r: Result<(BencodeValue, usize), DecodeError>)
    requires
        pos <= b@.len(),
    ensures
        match parse_value(b@, pos as int, depth as nat) {
            None => r is Err,
            Some((t, q)) => r matches Ok((v, p)) && v@ == t && p == q,
        },
        r matches Ok((_, p)) ==> pos < p <= b@.len(),
        r matches Err(e) ==> e.offset <= b@.len(),
    decreases b@.len() - pos,
{
    let len = b.len();
    if pos >= len {
        return Err(DecodeError { offset: pos });
    }
    let c = b[pos];
    if 48 <= c && c <= 57 {
        match decode_string(b, pos) {
            Ok((s, q)) => {
                let v = BencodeValue::ByteString(s);
                assert(v@ == Term::Bytes(s@));
                Ok((v, q))
            },
            Err(e) => Err(e),
        }
    } else if c == 105 {
        match decode_int(b, pos) {
            Ok((i, q)) => {
                let v = BencodeValue::Integer(i);
                assert(v@ == Term::Int(i as int));
                Ok((v, q))
            },
            Err(e) => Err(e),
        }
    } else if c == 108 && depth > 0 {
        let ghost d = (depth - 1) as nat;
        let mut items: Vec<BencodeValue> = Vec::new();
        let mut p: usize = pos + 1;
        assert(list_view(items@) =~= Seq::<Term>::empty());
        assert(prepend(Seq::<Term>::empty(), parse_items(b@, p as int, d)) =~= parse_items(b@, p as int, d)) by {
            if let Some((s0, q0)) = parse_items(b@, p as int, d) {
                assert(Seq::<Term>::empty() + s0 =~= s0);
            }
        }
        loop
            invariant
                pos < p <= len,
                len == b@.len(),
                d == depth - 1,
                depth > 0,
                b@[pos as int] == 108,
                parse_items(b@, pos + 1, d) == prepend(list_view(items@), parse_items(b@, p as int, d)),
            decreases len - p,
        {
            if p >= len {
                return Err(DecodeError { offset: p });
            }
            if b[p] == 101 {
                let v = BencodeValue::List(items);
                proof {
                    lemma_list_view(items);
                    assert(list_view(items@) + Seq::<Term>::empty() =~= list_view(items@));
                }
                return Ok((v, p + 1));
            }
            match decode_value(b, p, depth - 1) {
                Err(e) => {
                    return Err(e);
                },
                Ok((x, q)) => {
                    proof {
                        lemma_parse_items_step(b@, p as int, d, x@, q as int);
                        let lv = list_view(items@);
                        assert(list_view(items@.push(x)) =~= lv.push(x@));
                        if let Some((s0, q0)) = parse_items(b@, q as int, d) {
                            assert(lv + (seq![x@] + s0) =~= lv.push(x@) + s0);
                        }
                    }
                    items.push(x);
                    p = q;
                },
            }
        }
    } else if c == 100 && depth > 0 {
        let ghost d = (depth - 1) as nat;
        let mut dict = Dict::new();
        let ghost mut acc: Seq<(Seq<u8>, Term)> = Seq::empty();
        let mut p: usize = pos + 1;
        assert(prepend(acc, parse_entries(b@, p as int, d)) =~= parse_entries(b@, p as int, d)) by {
            if let Some((s0, q0)) = parse_entries(b@, p as int, d) {
                assert(acc + s0 =~= s0);
            }
        }
        loop
            invariant
                pos < p <= len,
                len == b@.len(),
                d == depth - 1,
                depth > 0,
                b@[pos as int] == 100,
                dict@ == dict_of_pairs(acc),
                parse_entries(b@, pos + 1, d) == prepend(acc, parse_entries(b@, p as int, d)),
            decreases len - p,
        {
            if p >= len {
                return Err(DecodeError { offset: p });
            }
            if b[p] == 101 {
                let v = BencodeValue::Dictionary(dict);
                proof {
                    lemma_dict_view(dict);
                    assert(acc + Seq::<(Seq<u8>, Term)>::empty() =~= acc);
                }
                return Ok((v, p + 1));
            }
            if !(48 <= b[p] && b[p] <= 57) {
                return Err(DecodeError { offset: p });
            }
            let (key, q1) = match decode_string(b, p) {
                Err(e) => {
                    return Err(e);
                },
                Ok(kq) => kq,
            };
            match decode_value(b, q1, depth - 1) {
                Err(e) => {
                    return Err(e);
                },
                Ok((x, q2)) => {
                    let ghost kv = key@;
                    let ghost xv = x@;
                    proof {
                        if let Some((s0, r0)) = parse_entries(b@, q2 as int, d) {
                            assert(acc + (seq![(kv, xv)] + s0) =~= acc.push((kv, xv)) + s0);
                        }
                        assert(acc.push((kv, xv)).drop_last() =~= acc);
                    }
                    dict.insert(key, x);
                    proof {
                        acc = acc.push((kv, xv));
                    }
                    p = q2;
                },
            }
        }
    } else {
        Err(DecodeError { offset: pos })
    }
}

/// Decodes the value at the start of `b`; also hands back the bytes after it.
pub fn decode(b: &[u8]) -> (r: Result<(BencodeValue, Vec<u8>), DecodeError>)
    ensures
        match decode_spec(b@) {
            None => r is Err,
            Some((t, rest)) => r matches Ok((v, rem)) && v@ == t && rem@ == rest,
        },
        r matches Err(e) ==> e.offset <= b@.len(),
{
    match decode_value(b, 0, MAX_DEPTH) {
        Err(e) => Err(e),
        Ok((v, p)) => {
            let rest = copy_range(b, p, b.len());
            Ok((v, rest))
        },
    }
}

// ---------------------------------------------------------------------------
// Round trip
/// Integers fit an `i64`, dictionary keys ascend strictly, and lists and
/// dictionaries nest at most `depth` levels deep.
pub open spec fn well_formed(t: Term, depth: nat) -> bool
    decreases t,
{
    match t {
        Term::Bytes(_) => true,
        Term::Int(i) => i64::MIN <= i <= i64::MAX,
        Term::List(items) => depth > 0 && items_well_formed(items, (depth - 1) as nat),
        Term::Dict(es) => depth > 0 && keys_sorted(es) && entries_well_formed(es, (depth - 1) as nat),
    }
}

pub open spec fn items_well_formed(s: Seq<Term>, depth: nat) -> bool
    decreases s,
{
    s.len() == 0 || (well_formed(s[0], depth) && items_well_formed(s.drop_first(), depth))
}

pub open spec fn entries_well_formed(s: Seq<(Seq<u8>, Term)>, depth: nat) -> bool
    decreases s,
{
    s.len() == 0 || (well_formed(s[0].1, depth) && entries_well_formed(s.drop_first(), depth))
}

/// `b` holds `s` at position `p`.
spec fn holds_at(b: Seq<u8>, p: int, s: Seq<u8>) -> bool {
    0 <= p && p + s.len() <= b.len() && b.subrange(p, p + s.len()) == s
}

proof fn lemma_holds_at_split(b: Seq<u8>, p: int, x: Seq<u8>, y: Seq<u8>)
    requires
        holds_at(b, p, x + y),
    ensures
        holds_at(b, p, x),
        holds_at(b, p + x.len(), y),
{
    assert(b.subrange(p, p + x.len()) =~= (x + y).subrange(0, x.len() as int));
    assert((x + y).subrange(0, x.len() as int) =~= x);
    assert(b.subrange(p + x.len(), p + x.len() + y.len()) =~= (x + y).subrange(x.len() as int, (x + y).len() as int));
    assert((x + y).subrange(x.len() as int, (x + y).len() as int) =~= y);
}

proof fn lemma_decimal(n: nat)
    ensures
        decimal(n).len() > 0,
        forall|i: int| 0 <= i < decimal(n).len() ==> is_digit(#[trigger] decimal(n)[i]),
        digits_value(decimal(n)) == n,
    decreases n,
{
    if n >= 10 {
        lemma_decimal(n / 10);
        lemma_digits_value_push(decimal(n / 10), (48 + n % 10) as u8);
        assert(((48 + n % 10) as u8) as int == 48 + n % 10);
        assert((n / 10) * 10 + n % 10 == n) by (nonlinear_arith);
    } else {
        let one = seq![(48 + n) as u8];
        assert(one.drop_last() =~= Seq::<u8>::empty());
        assert(digits_value(one) == digits_value(one.drop_last()) * 10 + (one.last() - 48));
        assert(digits_value(Seq::<u8>::empty()) == 0);
        assert(((48 + n) as u8) as int == 48 + n);
    }
}

/// The digits of `n` at `p`, followed by a non-digit, are read back as `n`.
proof fn lemma_read_decimal(b: Seq<u8>, p: int, n: nat)
    requires
        holds_at(b, p, decimal(n)),
        p + decimal(n).len() < b.len(),
        !is_digit(b[p + decimal(n).len()]),
    ensures
        digit_run(b, p) == decimal(n).len(),
        digits_value(b.subrange(p, p + decimal(n).len())) == n,
{
    lemma_decimal(n);
    let dn = decimal(n);
    assert forall|i: int| p <= i < p + dn.len() implies is_digit(#[trigger] b[i]) by {
        assert(b[i] == b.subrange(p, p + dn.len())[i - p]);
    }
    lemma_digit_run_exact(b, p, dn.len() as int);
}

proof fn lemma_digit_run_exact(b: Seq<u8>, p: int, k: int)
    requires
        0 <= p,
        0 <= k,
        p + k < b.len(),
        forall|i: int| p <= i < p + k ==> is_digit(#[trigger] b[i]),
        !is_digit(b[p + k]),
    ensures
        digit_run(b, p) == k,
    decreases k,
{
    if k > 0 {
        lemma_digit_run_exact(b, p + 1, k - 1);
    }
}

proof fn lemma_encode_first_byte(t: Term)
    ensures
        encode_term(t).len() > 0,
        encode_term(t)[0] != 101,
        t is Bytes <==> is_digit(encode_term(t)[0]),
{
    match t {
        Term::Bytes(b) => {
            lemma_decimal(b.len());
        },
        _ => {},
    }
}

proof fn lemma_parse_string_encoded(b: Seq<u8>, p: int, s: Seq<u8>)
    requires
        holds_at(b, p, encode_bytes(s)),
    ensures
        parse_string(b, p) == Some((s, p + encode_bytes(s).len())),
{
    let dn = decimal(s.len());
    lemma_holds_at_split(b, p, dn + seq![58u8], s);
    lemma_holds_at_split(b, p, dn, seq![58u8]);
    assert(b[p + dn.len()] == b.subrange(p + dn.len(), p + dn.len() + 1)[0]);
    lemma_read_decimal(b, p, s.len());
}

proof fn lemma_parse_encoded(b: Seq<u8>, p: int, t: Term, depth: nat)
    requires
        holds_at(b, p, encode_term(t)),
        well_formed(t, depth),
    ensures
        parse_value(b, p, depth) == Some((t, p + encode_term(t).len())),
    decreases t,
{
    let e = encode_term(t);
    lemma_encode_first_byte(t);
    assert(b[p] == b.subrange(p, p + e.len())[0]);
    match t {
        Term::Bytes(s) => {
            lemma_parse_string_encoded(b, p, s);
        },
        Term::Int(i) => {
            let sd = signed_decimal(i);
            lemma_holds_at_split(b, p, seq![105u8] + sd, seq![101u8]);
            lemma_holds_at_split(b, p, seq![105u8], sd);
            let m: nat = if i < 0 { (-i) as nat } else { i as nat };
            let start = if i < 0 { p + 2 } else { p + 1 };
            lemma_decimal(m);
            if i < 0 {
                lemma_holds_at_split(b, p + 1, seq![45u8], decimal(m));
                assert(b[p + 1] == b.subrange(p + 1, p + 2)[0]);
            } else {
                assert(b[p + 1] == decimal(m)[0]);
            }
            assert(b[p + 1 + sd.len()] == b.subrange(p + 1 + sd.len(), p + 2 + sd.len())[0]);
            lemma_read_decimal(b, start, m);
        },
        Term::List(items) => {
            let ei = encode_items(items);
            lemma_holds_at_split(b, p, seq![108u8] + ei, seq![101u8]);
            lemma_holds_at_split(b, p, seq![108u8], ei);
            assert(b[p + 1 + ei.len()] == b.subrange(p + 1 + ei.len(), p + 2 + ei.len())[0]);
            lemma_parse_items_encoded(b, p + 1, items, (depth - 1) as nat);
        },
        Term::Dict(es) => {
            let ee = encode_entries(es);
            lemma_holds_at_split(b, p, seq![100u8] + ee, seq![101u8]);
            lemma_holds_at_split(b, p, seq![100u8], ee);
            assert(b[p + 1 + ee.len()] == b.subrange(p + 1 + ee.len(), p + 2 + ee.len())[0]);
            lemma_parse_entries_encoded(b, p + 1, es, (depth - 1) as nat);
            lemma_dict_of_pairs(es);
            lemma_sorted_dicts_equal(dict_of_pairs(es), es);
        },
    }
}

proof fn lemma_parse_items_encoded(b: Seq<u8>, p: int, items: Seq<Term>, depth: nat)
    requires
        holds_at(b, p, encode_items(items)),
        p + encode_items(items).len() < b.len(),
        b[p + encode_items(items).len()] == 101,
        items_well_formed(items, depth),
    ensures
        parse_items(b, p, depth) == Some((items, p + encode_items(items).len() + 1)),
    decreases items,
{
    if items.len() == 0 {
        assert(items =~= Seq::<Term>::empty());
    } else {
        let e0 = encode_term(items[0]);
        let rest = items.drop_first();
        lemma_holds_at_split(b, p, e0, encode_items(rest));
        lemma_encode_first_byte(items[0]);
        assert(b[p] == b.subrange(p, p + e0.len())[0]);
        lemma_parse_encoded(b, p, items[0], depth);
        lemma_parse_items_encoded(b, p + e0.len(), rest, depth);
        assert(seq![items[0]] + rest =~= items);
    }
}

proof fn lemma_parse_entries_encoded(b: Seq<u8>, p: int, es: Seq<(Seq<u8>, Term)>, depth: nat)
    requires
        holds_at(b, p, encode_entries(es)),
        p + encode_entries(es).len() < b.len(),
        b[p + encode_entries(es).len()] == 101,
        entries_well_formed(es, depth),
    ensures
        parse_entries(b, p, depth) == Some((es, p + encode_entries(es).len() + 1)),
    decreases es,
{
    if es.len() == 0 {
        assert(es =~= Seq::<(Seq<u8>, Term)>::empty());
    } else {
        let ek = encode_bytes(es[0].0);
        let ev = encode_term(es[0].1);
        let rest = es.drop_first();
        lemma_holds_at_split(b, p, ek + ev, encode_entries(rest));
        lemma_holds_at_split(b, p, ek, ev);
        lemma_encode_first_byte(Term::Bytes(es[0].0));
        assert(b[p] == b.subrange(p, p + ek.len())[0]);
        lemma_parse_string_encoded(b, p, es[0].0);
        lemma_encode_first_byte(es[0].1);
        lemma_parse_encoded(b, p + ek.len(), es[0].1, depth);
        lemma_parse_entries_encoded(b, p + ek.len() + ev.len(), rest, depth);
        assert(seq![(es[0].0, es[0].1)] + rest =~= es);
    }
}

/// Decoding the canonical encoding of a well-formed value, followed by any
/// bytes, gives back that value and those bytes; so re-encoding what was
/// decoded from canonical bytes reproduces them exactly.
pub proof fn lemma_decode_encode(t: Term, rest: Seq<u8>)
    requires
        well_formed(t, MAX_DEPTH as nat),
    ensures
        decode_spec(encode_term(t) + rest) == Some((t, rest)),
        decode_spec(encode_term(t) + rest) matches Some((t2, r2)) && encode_term(t2) + r2 == encode_term(
            t,
        ) + rest,
{
    let b = encode_term(t) + rest;
    assert(b.subrange(0, encode_term(t).len() as int) =~= encode_term(t));
    lemma_parse_encoded(b, 0, t, MAX_DEPTH as nat);
    assert(b.subrange(encode_term(t).len() as int, b.len() as int) =~= rest);
}

// ---------------------------------------------------------------------------
// Executable values
/// A bencoded value.
#[derive(Debug)]
pub enum BencodeValue {
    ByteString(Vec<u8>),
    Integer(i64),
    List(Vec<BencodeValue>),
    Dictionary(Dict),
}

/// A bencode dictionary: entries kept in ascending key order, each key once,
/// whatever order they were inserted in.
#[derive(Debug)]
pub struct Dict {
    entries: Vec<(Vec<u8>, BencodeValue)>,
}

pub closed spec fn value_view(v: BencodeValue) -> Term
    decreases v,
{
    match v {
        BencodeValue::ByteString(b) => Term::Bytes(b@),
        BencodeValue::Integer(i) => Term::Int(i as int),
        BencodeValue::List(items) => Term::List(
            Seq::new(
                items@.len(),
                |i: int|
                    if 0 <= i < items@.len() {
                        value_view(items@[i])
                    } else {
                        Term::Int(0)
                    },
            ),
        ),
        BencodeValue::Dictionary(d) => Term::Dict(
            Seq::new(
                d.entries@.len(),
                |i: int|
                    if 0 <= i < d.entries@.len() {
                        (d.entries@[i].0@, value_view(d.entries@[i].1))
                    } else {
                        (Seq::empty(), Term::Int(0))
                    },
            ),
        ),
    }
}

pub closed spec fn list_view(s: Seq<BencodeValue>) -> Seq<Term> {
    Seq::new(s.len(), |i: int| value_view(s[i]))
}

pub closed spec fn entries_view(s: Seq<(Vec<u8>, BencodeValue)>) -> Seq<(Seq<u8>, Term)> {
    Seq::new(s.len(), |i: int| (s[i].0@, value_view(s[i].1)))
}

impl View for BencodeValue {
    type V = Term;

    closed spec fn view(&self) -> Term {
        value_view(*self)
    }
}

impl View for Dict {
    type V = Seq<(Seq<u8>, Term)>;

    closed spec fn view(&self) -> Seq<(Seq<u8>, Term)> {
        entries_view(self.entries@)
    }
}

/// The model of each kind of value.
pub proof fn lemma_value_view(v: BencodeValue)
    ensures
        match v {
            BencodeValue::ByteString(b) => v@ == Term::Bytes(b@),
            BencodeValue::Integer(i) => v@ == Term::Int(i as int),
            BencodeValue::List(items) => v@ is List && v@->List_0.len() == items@.len() && forall|i: int|
                0 <= i < items@.len() ==> #[trigger] v@->List_0[i] == items@[i]@,
            BencodeValue::Dictionary(d) => v@ == Term::Dict(d@),
        },
{
    match v {
        BencodeValue::List(items) => lemma_list_view(items),
        BencodeValue::Dictionary(d) => lemma_dict_view(d),
        _ => {},
    }
}

impl BencodeValue {
    /// A copy of this value.
    pub fn duplicate(&self) -> (r: BencodeValue)
        ensures
            r@ == self@,
        decreases self,
    {
        match self {
            BencodeValue::ByteString(b) => {
                let c = copy_range(b.as_slice(), 0, b.len());
                assert(c@ =~= b@);
                proof {
                    lemma_value_view(*self);
                    lemma_value_view(BencodeValue::ByteString(c));
                }
                BencodeValue::ByteString(c)
            },
            BencodeValue::Integer(i) => BencodeValue::Integer(*i),
            BencodeValue::List(items) => {
                let mut out: Vec<BencodeValue> = Vec::new();
                let mut i: usize = 0;
                while i < items.len()
                    invariant
                        i <= items@.len(),
                        *self == BencodeValue::List(*items),
                        list_view(out@) == list_view(items@).take(i as int),
                    decreases items@.len() - i,
                {
                    assert(decreases_to!(*self => (*self)->List_0));
                    assert(decreases_to!(*items => items[i as int]));
                    let x = items[i].duplicate();
                    let ghost before = out@;
                    out.push(x);
                    proof {
                        lemma_list_view_push(before, x);
                        assert(list_view(items@).take(i + 1) =~= list_view(items@).take(i as int).push(
                            list_view(items@)[i as int],
                        ));
                    }
                    i += 1;
                }
                proof {
                    lemma_list_view(out);
                    lemma_list_view(*items);
                    assert(list_view(items@).take(i as int) =~= list_view(items@));
                }
                BencodeValue::List(out)
            },
            BencodeValue::Dictionary(d) => {
                proof {
                    use_type_invariant(d);
                }
                let mut out: Vec<(Vec<u8>, BencodeValue)> = Vec::new();
                let mut i: usize = 0;
                while i < d.entries.len()
                    invariant
                        i <= d.entries@.len(),
                        *self == BencodeValue::Dictionary(*d),
                        entries_view(out@) == entries_view(d.entries@).take(i as int),
                    decreases d.entries@.len() - i,
                {
                    assert(decreases_to!(*self => (*self)->Dictionary_0));
                    assert(decreases_to!(*d => d.entries));
                    assert(decreases_to!(d.entries => d.entries[i as int]));
                    assert(decreases_to!(d.entries[i as int] => d.entries[i as int].1));
                    let k = copy_range(d.entries[i].0.as_slice(), 0, d.entries[i].0.len());
                    let x = d.entries[i].1.duplicate();
                    let ghost before = out@;
                    out.push((k, x));
                    proof {
                        lemma_entries_view_push(before, (k, x));
                        assert(k@ =~= d.entries@[i as int].0@);
                        assert(entries_view(d.entries@).take(i + 1) =~= entries_view(d.entries@).take(
                            i as int,
                        ).push(entries_view(d.entries@)[i as int]));
                    }
                    i += 1;
                }
                assert(entries_view(d.entries@).take(i as int) =~= entries_view(d.entries@));
                let r = Dict { entries: out };
                proof {
                    lemma_dict_view(r);
                    lemma_dict_view(*d);
                }
                BencodeValue::Dictionary(r)
            },
        }
    }
}

proof fn lemma_list_view_push(s: Seq<BencodeValue>, x: BencodeValue)
    ensures
        list_view(s.push(x)) == list_view(s).push(x@),
{
    assert(list_view(s.push(x)) =~= list_view(s).push(x@));
}

proof fn lemma_entries_view_push(s: Seq<(Vec<u8>, BencodeValue)>, x: (Vec<u8>, BencodeValue))
    ensures
        entries_view(s.push(x)) == entries_view(s).push((x.0@, x.1@)),
{
    assert(entries_view(s.push(x)) =~= entries_view(s).push((x.0@, x.1@)));
}

proof fn lemma_list_view(items: Vec<BencodeValue>)
    ensures
        BencodeValue::List(items)@ == Term::List(list_view(items@)),
{
    assert(list_view(items@) =~= BencodeValue::List(items)@->List_0);
}

proof fn lemma_dict_view(d: Dict)
    ensures
        BencodeValue::Dictionary(d)@ == Term::Dict(d@),
{
    assert(d@ =~= BencodeValue::Dictionary(d)@->Dict_0);
}

proof fn lemma_entries_view_replace(e: Seq<(Vec<u8>, BencodeValue)>, j: int, x: (Vec<u8>, BencodeValue))
    requires
        0 <= j < e.len(),
    ensures
        entries_view(e.remove(j).insert(j, x)) == entries_view(e).update(j, (x.0@, value_view(x.1))),
{
    assert(entries_view(e.remove(j).insert(j, x)) =~= entries_view(e).update(j, (x.0@, value_view(x.1))));
}

proof fn lemma_entries_view_insert(e: Seq<(Vec<u8>, BencodeValue)>, j: int, x: (Vec<u8>, BencodeValue))
    requires
        0 <= j <= e.len(),
    ensures
        entries_view(e.insert(j, x)) == entries_view(e).insert(j, (x.0@, value_view(x.1))),
{
    assert(entries_view(e.insert(j, x)) =~= entries_view(e).insert(j, (x.0@, value_view(x.1))));
}

impl Dict {
    #[verifier::type_invariant]
    closed spec fn wf(&self) -> bool {
        keys_sorted(self@)
    }

    pub fn new() -> (r: Dict)
        ensures
            r@ == Seq::<(Seq<u8>, Term)>::empty(),
    {
        let r = Dict { entries: Vec::new() };
        assert(r@ =~= Seq::<(Seq<u8>, Term)>::empty());
        r
    }

    pub fn len(&self) -> (r: usize)
        ensures
            r == self@.len(),
    {
        self.entries.len()
    }

    /// Binds `key` to `value`, replacing an earlier binding of `key`.
    #[verifier::rlimit(40)]
    pub fn insert(&mut self, key: Vec<u8>, value: BencodeValue)
        ensures
            final(self)@ == dict_insert(old(self)@, key@, value@),
    {
        proof {
            use_type_invariant(&*self);
        }
        let ghost d = self@;
        assert(d.subrange(0, d.len() as int) =~= d);
        let mut j: usize = 0;
        while j < self.entries.len() && bytes_less(self.entries[j].0.as_slice(), key.as_slice())
            invariant
                d == self@,
                j <= d.len(),
                lower_bound(d, key@) == j + lower_bound(d.subrange(j as int, d.len() as int), key@),
            decreases d.len() - j,
        {
            let ghost t = d.subrange(j as int, d.len() as int);
            assert(t[0] == d[j as int]);
            assert(t.drop_first() =~= d.subrange(j + 1, d.len() as int));
            j += 1;
        }
        proof {
            let t = d.subrange(j as int, d.len() as int);
            if j < d.len() {
                assert(t[0] == d[j as int]);
            }
            assert(lower_bound(d, key@) == j);
            lemma_insert_sorted(d, key@, value@);
        }
        let ghost kv = key@;
        let ghost vv = value@;
        let mut taken = Dict::new();
        std::mem::swap(self, &mut taken);
        let Dict { mut entries } = taken;
        assert(entries_view(entries@) == d);
        let ghost e = entries@;
        if j < entries.len() && bytes_equal(entries[j].0.as_slice(), key.as_slice()) {
            entries.remove(j);
            entries.insert(j, (key, value));
            proof {
                lemma_entries_view_replace(e, j as int, entries@[j as int]);
            }
        } else {
            entries.insert(j, (key, value));
            proof {
                lemma_entries_view_insert(e, j as int, entries@[j as int]);
            }
        }
        *self = Dict { entries };
    }

    /// The entries, in ascending key order.
    pub fn entries(&self) -> (r: &Vec<(Vec<u8>, BencodeValue)>)
        ensures
            entries_view(r@) == self@,
    {
        &self.entries
    }

    /// The value bound to `key`, if any.
    pub fn get(&self, key: &[u8]) -> (r: Option<&BencodeValue>)
        ensures
            match dict_lookup(self@, key@) {
                None => r is None,
                Some(t) => r matches Some(v) && v@ == t,
            },
    {
        let ghost d = self@;
        assert(d.subrange(0, d.len() as int) =~= d);
        let mut j: usize = 0;
        while j < self.entries.len()
            invariant
                d == self@,
                j <= d.len(),
                dict_lookup(d, key@) == dict_lookup(d.subrange(j as int, d.len() as int), key@),
            decreases d.len() - j,
        {
            let ghost t = d.subrange(j as int, d.len() as int);
            assert(t[0] == d[j as int]);
            if bytes_equal(self.entries[j].0.as_slice(), key) {
                return Some(&self.entries[j].1);
            }
            assert(t.drop_first() =~= d.subrange(j + 1, d.len() as int));
            j += 1;
        }
        None
    }
}

} // verus!
