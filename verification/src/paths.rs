use vstd::prelude::*;

verus! {

/// Strict lexicographic order on character sequences; for strings this is
/// the order of `String` (UTF-8 byte order equals code point order).
pub open spec fn seq_lt(a: Seq<char>, b: Seq<char>) -> bool
    decreases a.len(),
{
    if a.len() == 0 {
        b.len() > 0
    } else if b.len() == 0 {
        false
    } else if a[0] < b[0] {
        true
    } else if a[0] > b[0] {
        false
    } else {
        seq_lt(a.drop_first(), b.drop_first())
    }
}

/// Each element is strictly below every later one.
pub open spec fn sorted_strict(s: Seq<Seq<char>>) -> bool {
    forall|i: int, j: int| 0 <= i < j < s.len() ==> seq_lt(#[trigger] s[i], #[trigger] s[j])
}

/// The texts of a sequence of strings.
pub open spec fn strs(v: Seq<String>) -> Seq<Seq<char>> {
    v.map_values(|s: String| s@)
}

/// `out` is strictly sorted and takes its elements from `src[0..i]`.
pub open spec fn drawn_sorted(out: Seq<Seq<char>>, src: Seq<Seq<char>>, i: int) -> bool {
    &&& sorted_strict(out)
    &&& forall|k: int| 0 <= k < out.len() ==> src.subrange(0, i).contains(#[trigger] out[k])
}

pub proof fn lemma_drawn_sorted_skip(out: Seq<Seq<char>>, src: Seq<Seq<char>>, i: int)
    requires
        drawn_sorted(out, src, i),
        0 <= i < src.len(),
    ensures
        drawn_sorted(out, src, i + 1),
{
    assert forall|k: int| 0 <= k < out.len() implies src.subrange(0, i + 1).contains(#[trigger] out[k]) by {
        let j = choose|j: int| 0 <= j < i && src.subrange(0, i)[j] == out[k];
        assert(src.subrange(0, i + 1)[j] == out[k]);
    }
}

pub proof fn lemma_drawn_sorted_push(out: Seq<Seq<char>>, src: Seq<Seq<char>>, i: int)
    requires
        drawn_sorted(out, src, i),
        sorted_strict(src),
        0 <= i < src.len(),
    ensures
        drawn_sorted(out.push(src[i]), src, i + 1),
{
    let o2 = out.push(src[i]);
    assert forall|a: int, b: int| 0 <= a < b < o2.len() implies seq_lt(#[trigger] o2[a], #[trigger] o2[b]) by {
        if b < out.len() {
            assert(o2[a] == out[a] && o2[b] == out[b]);
        } else {
            assert(o2[a] == out[a]);
            assert(src.subrange(0, i).contains(out[a]));
            let j = choose|j: int| 0 <= j < i && src.subrange(0, i)[j] == out[a];
            assert(src[j] == out[a]);
            assert(seq_lt(src[j], src[i]));
        }
    }
    assert forall|k: int| 0 <= k < o2.len() implies src.subrange(0, i + 1).contains(#[trigger] o2[k]) by {
        if k < out.len() {
            assert(o2[k] == out[k]);
            assert(src.subrange(0, i).contains(out[k]));
            let j = choose|j: int| 0 <= j < i && src.subrange(0, i)[j] == out[k];
            assert(src.subrange(0, i + 1)[j] == o2[k]);
        } else {
            assert(o2[k] == src[i]);
            assert(src.subrange(0, i + 1)[i] == o2[k]);
        }
    }
}

/// The keys of a list of (path, hash) pairs.
pub open spec fn pair_keys(v: Seq<(String, [u8; 32])>) -> Seq<Seq<char>> {
    v.map_values(|e: (String, [u8; 32])| e.0@)
}

pub open spec fn pair_has(v: Seq<(String, [u8; 32])>, p: Seq<char>) -> bool {
    exists|i: int| 0 <= i < v.len() && v[i].0@ == p
}

pub open spec fn pair_index(v: Seq<(String, [u8; 32])>, p: Seq<char>) -> int {
    choose|i: int| 0 <= i < v.len() && v[i].0@ == p
}

/// The hash stored under a path.
pub open spec fn pair_lookup(v: Seq<(String, [u8; 32])>, p: Seq<char>) -> Option<Seq<u8>> {
    if pair_has(v, p) {
        Some(v[pair_index(v, p)].1@)
    } else {
        None
    }
}

/// A path map: keys strictly increasing, as a `BTreeMap` iterates them.
pub open spec fn pairs_wf(v: Seq<(String, [u8; 32])>) -> bool {
    sorted_strict(pair_keys(v))
}

pub proof fn lemma_sorted_distinct(s: Seq<Seq<char>>, i: int, j: int)
    requires
        sorted_strict(s),
        0 <= i < s.len(),
        0 <= j < s.len(),
        i != j,
    ensures
        s[i] != s[j],
{
    if i < j {
        lemma_lt_irrefl(s[i]);
        assert(seq_lt(s[i], s[j]));
    } else {
        lemma_lt_irrefl(s[j]);
        assert(seq_lt(s[j], s[i]));
    }
}

pub proof fn lemma_lt_irrefl(a: Seq<char>)
    ensures
        !seq_lt(a, a),
    decreases a.len(),
{
    if a.len() > 0 {
        lemma_lt_irrefl(a.drop_first());
    }
}

/// Index of the pair with the given key.
pub fn find_pair(v: &Vec<(String, [u8; 32])>, p: &String) -> (r: Option<usize>)
    ensures
        r matches Some(i) ==> i < v@.len() && v@[i as int].0@ == p@,
        r is None ==> !pair_has(v@, p@),
{
    let mut i: usize = 0;
    while i < v.len()
        invariant
            i <= v@.len(),
            forall|j: int| 0 <= j < i ==> v@[j].0@ != p@,
        decreases v@.len() - i,
    {
        if v[i].0 == *p {
            return Some(i);
        }
        i = i + 1;
    }
    None
}

/// No key occurs twice.
pub open spec fn pairs_distinct(v: Seq<(String, [u8; 32])>) -> bool {
    forall|i: int, j: int| 0 <= i < v.len() && 0 <= j < v.len() && i != j ==> v[i].0@ != v[j].0@
}

pub proof fn lemma_sorted_pairs_distinct(v: Seq<(String, [u8; 32])>)
    requires
        pairs_wf(v),
    ensures
        pairs_distinct(v),
{
    assert forall|i: int, j: int| 0 <= i < v.len() && 0 <= j < v.len() && i != j implies v[i].0@ != v[j].0@ by {
        lemma_sorted_distinct(pair_keys(v), i, j);
        assert(pair_keys(v)[i] == v[i].0@ && pair_keys(v)[j] == v[j].0@);
    }
}

pub proof fn lemma_pair_lookup_at(v: Seq<(String, [u8; 32])>, i: int)
    requires
        pairs_distinct(v),
        0 <= i < v.len(),
    ensures
        pair_has(v, v[i].0@),
        pair_lookup(v, v[i].0@) == Some(v[i].1@),
{
    let p = v[i].0@;
    assert(pair_has(v, p));
    let k = pair_index(v, p);
    assert(k == i);
}


/// `out` is strictly sorted and holds exactly the elements of `src[0..i]`
/// that satisfy `pred`.
pub open spec fn selected(
    out: Seq<Seq<char>>,
    src: Seq<Seq<char>>,
    i: int,
    pred: spec_fn(Seq<char>) -> bool,
) -> bool {
    &&& drawn_sorted(out, src, i)
    &&& forall|x: Seq<char>| #[trigger] out.contains(x) <==> (src.subrange(0, i).contains(x) && pred(x))
}

pub proof fn lemma_selected_start(src: Seq<Seq<char>>, pred: spec_fn(Seq<char>) -> bool)
    ensures
        selected(Seq::empty(), src, 0, pred),
{
    assert forall|x: Seq<char>| #[trigger] Seq::<Seq<char>>::empty().contains(x) <==> (src.subrange(0, 0).contains(x) && pred(x)) by {
        assert(src.subrange(0, 0).len() == 0);
    }
}

pub proof fn lemma_selected_step(
    out: Seq<Seq<char>>,
    src: Seq<Seq<char>>,
    i: int,
    pred: spec_fn(Seq<char>) -> bool,
)
    requires
        selected(out, src, i, pred),
        sorted_strict(src),
        0 <= i < src.len(),
    ensures
        pred(src[i]) ==> selected(out.push(src[i]), src, i + 1, pred),
        !pred(src[i]) ==> selected(out, src, i + 1, pred),
{
    let s0 = src.subrange(0, i);
    let s1 = src.subrange(0, i + 1);
    assert(s1 =~= s0.push(src[i]));
    assert forall|x: Seq<char>| s1.contains(x) <==> (s0.contains(x) || x == src[i]) by {
        if s1.contains(x) {
            let j = choose|j: int| 0 <= j < s1.len() && s1[j] == x;
            if j < i {
                assert(s0[j] == x);
            }
        }
        if s0.contains(x) {
            let j = choose|j: int| 0 <= j < s0.len() && s0[j] == x;
            assert(s1[j] == x);
        }
        if x == src[i] {
            assert(s1[i] == x);
        }
    }
    if pred(src[i]) {
        lemma_drawn_sorted_push(out, src, i);
        let o2 = out.push(src[i]);
        assert forall|x: Seq<char>| #[trigger] o2.contains(x) <==> (s1.contains(x) && pred(x)) by {
            if o2.contains(x) {
                let j = choose|j: int| 0 <= j < o2.len() && o2[j] == x;
                if j < out.len() {
                    assert(out[j] == x);
                    assert(out.contains(x));
                }
            }
            if out.contains(x) {
                let j = choose|j: int| 0 <= j < out.len() && out[j] == x;
                assert(o2[j] == x);
            }
            if x == src[i] {
                assert(o2[out.len() as int] == x);
            }
        }
    } else {
        lemma_drawn_sorted_skip(out, src, i);
    }
}


/// The hash a list of pairs holds for a key.
pub fn lookup_pair(v: &Vec<(String, [u8; 32])>, p: &String) -> (r: Option<[u8; 32]>)
    requires
        pairs_distinct(v@),
    ensures
        match r {
            Some(h) => pair_lookup(v@, p@) == Some(h@),
            None => pair_lookup(v@, p@) is None,
        },
{
    match find_pair(v, p) {
        Some(j) => {
            proof {
                lemma_pair_lookup_at(v@, j as int);
            }
            Some(v[j].1)
        },
        None => None,
    }
}


pub proof fn lemma_lt_asym(a: Seq<char>, b: Seq<char>)
    ensures
        seq_lt(a, b) ==> !seq_lt(b, a),
    decreases a.len(),
{
    if a.len() > 0 && b.len() > 0 && a[0] == b[0] {
        lemma_lt_asym(a.drop_first(), b.drop_first());
    }
}

pub proof fn lemma_lt_trans(a: Seq<char>, b: Seq<char>, c: Seq<char>)
    requires
        seq_lt(a, b),
        seq_lt(b, c),
    ensures
        seq_lt(a, c),
    decreases a.len(),
{
    if a.len() > 0 && b.len() > 0 && c.len() > 0 {
        if a[0] == b[0] && b[0] == c[0] {
            lemma_lt_trans(a.drop_first(), b.drop_first(), c.drop_first());
        }
    }
}

pub proof fn lemma_lt_total(a: Seq<char>, b: Seq<char>)
    ensures
        a == b || seq_lt(a, b) || seq_lt(b, a),
    decreases a.len(),
{
    if a.len() > 0 && b.len() > 0 {
        if a[0] == b[0] {
            lemma_lt_total(a.drop_first(), b.drop_first());
            if a.drop_first() == b.drop_first() {
                assert(a =~= seq![a[0]] + a.drop_first());
                assert(b =~= seq![b[0]] + b.drop_first());
            }
        }
    } else if a.len() == 0 && b.len() == 0 {
        assert(a =~= b);
    }
}

/// Whether `a` comes strictly before `b`.
pub fn chars_lt(a: &[char], b: &[char]) -> (r: bool)
    ensures
        r == seq_lt(a@, b@),
{
    let mut i: usize = 0;
    assert(a@.subrange(0, a@.len() as int) =~= a@);
    assert(b@.subrange(0, b@.len() as int) =~= b@);
    while i < a.len() && i < b.len()
        invariant
            i <= a@.len(),
            i <= b@.len(),
            seq_lt(a@, b@) == seq_lt(a@.subrange(i as int, a@.len() as int), b@.subrange(i as int, b@.len() as int)),
        decreases a@.len() - i,
    {
        let ghost x = a@.subrange(i as int, a@.len() as int);
        let ghost y = b@.subrange(i as int, b@.len() as int);
        assert(x[0] == a@[i as int] && y[0] == b@[i as int]);
        if a[i] < b[i] {
            return true;
        }
        if a[i] > b[i] {
            return false;
        }
        assert(x.drop_first() =~= a@.subrange(i + 1, a@.len() as int));
        assert(y.drop_first() =~= b@.subrange(i + 1, b@.len() as int));
        i = i + 1;
    }
    let ghost x = a@.subrange(i as int, a@.len() as int);
    let ghost y = b@.subrange(i as int, b@.len() as int);
    assert(x.len() == 0 || y.len() == 0);
    i == a.len() && i < b.len()
}

/// Whether string `a` comes strictly before string `b`.
pub fn string_lt(a: &String, b: &String) -> (r: bool)
    ensures
        r == seq_lt(a@, b@),
{
    let x = crate::text::str_chars(a.as_str());
    let y = crate::text::str_chars(b.as_str());
    chars_lt(x.as_slice(), y.as_slice())
}


/// Position `i` comes before position `j` when ordered by name and, for equal
/// names, by position: the order of a stable sort by name.
pub open spec fn key_lt(names: Seq<Seq<char>>, i: int, j: int) -> bool {
    seq_lt(names[i], names[j]) || (names[i] == names[j] && i < j)
}

/// `order` lists each of the positions `0..n` once.
pub open spec fn is_perm(order: Seq<int>, n: int) -> bool {
    &&& order.len() == n
    &&& forall|k: int| 0 <= k < order.len() ==> 0 <= #[trigger] order[k] < n
    &&& order.no_duplicates()
}

/// `order` is the stable sort of the positions of `names` by name.
pub open spec fn stable_order(names: Seq<Seq<char>>, order: Seq<int>) -> bool {
    &&& is_perm(order, names.len() as int)
    &&& forall|k: int, l: int| 0 <= k < l < order.len() ==> key_lt(names, #[trigger] order[k], #[trigger] order[l])
}

pub open spec fn ints(v: Seq<usize>) -> Seq<int> {
    v.map_values(|x: usize| x as int)
}

pub open spec fn char_views(v: Seq<Vec<char>>) -> Seq<Seq<char>> {
    v.map_values(|c: Vec<char>| c@)
}

proof fn lemma_key_lt_asym(names: Seq<Seq<char>>, i: int, j: int)
    ensures
        key_lt(names, i, j) ==> !key_lt(names, j, i),
{
    lemma_lt_asym(names[i], names[j]);
    lemma_lt_irrefl(names[i]);
}

/// Sorts the positions of `names` stably by name (insertion sort).
pub fn stable_order_by_name(names: &Vec<Vec<char>>) -> (order: Vec<usize>)
    ensures
        stable_order(char_views(names@), ints(order@)),
{
    let ghost nv = char_views(names@);
    let mut order: Vec<usize> = Vec::new();
    let mut i: usize = 0;
    while i < names.len()
        invariant
            nv == char_views(names@),
            i <= names@.len(),
            stable_order(nv.subrange(0, i as int), ints(order@)),
            forall|k: int| 0 <= k < order@.len() ==> order@[k] < i,
        decreases names@.len() - i,
    {
        let mut pos: usize = 0;
        while pos < order.len() && !chars_lt(names[i].as_slice(), names[order[pos]].as_slice())
            invariant
                nv == char_views(names@),
                i < names@.len(),
                pos <= order@.len(),
                forall|k: int| 0 <= k < order@.len() ==> order@[k] < i,
                forall|k: int| 0 <= k < pos ==> !seq_lt(nv[i as int], #[trigger] nv[order@[k] as int]),
            decreases order@.len() - pos,
        {
            assert(nv[order@[pos as int] as int] == names@[order@[pos as int] as int]@);
            pos = pos + 1;
        }
        let ghost old_order = order@;
        proof {
            assert(nv[i as int] == names@[i as int]@);
            if pos < old_order.len() {
                assert(nv[old_order[pos as int] as int] == names@[old_order[pos as int] as int]@);
            }
        }
        order.insert(pos, i);
        proof {
            let ns = nv.subrange(0, i + 1);
            let o = ints(order@);
            let oo = ints(old_order);
            assert(o =~= oo.subrange(0, pos as int).push(i as int) + oo.subrange(pos as int, oo.len() as int));
            assert forall|k: int| 0 <= k < o.len() implies 0 <= #[trigger] o[k] < i + 1 by {
                if k < pos {
                    assert(o[k] == oo[k]);
                } else if k > pos {
                    assert(o[k] == oo[k - 1]);
                }
            }
            assert forall|k: int, l: int| 0 <= k < o.len() && 0 <= l < o.len() && k != l implies o[k] != o[l] by {
                if k != pos && l != pos {
                    let kk = if k < pos { k } else { k - 1 };
                    let ll = if l < pos { l } else { l - 1 };
                    assert(o[k] == oo[kk] && o[l] == oo[ll]);
                } else if k == pos {
                    let ll = if l < pos { l } else { l - 1 };
                    assert(o[l] == oo[ll]);
                    assert(oo[ll] < i);
                } else {
                    let kk = if k < pos { k } else { k - 1 };
                    assert(o[k] == oo[kk]);
                    assert(oo[kk] < i);
                }
            }
            assert forall|k: int, l: int| 0 <= k < l < o.len() implies key_lt(ns, #[trigger] o[k], #[trigger] o[l]) by {
                let os = nv.subrange(0, i as int);
                if l < pos {
                    assert(o[k] == oo[k] && o[l] == oo[l]);
                    assert(key_lt(os, oo[k], oo[l]));
                    assert(ns[oo[k]] == os[oo[k]] && ns[oo[l]] == os[oo[l]]);
                } else if k > pos {
                    assert(o[k] == oo[k - 1] && o[l] == oo[l - 1]);
                    assert(key_lt(os, oo[k - 1], oo[l - 1]));
                    assert(ns[oo[k - 1]] == os[oo[k - 1]] && ns[oo[l - 1]] == os[oo[l - 1]]);
                } else if k < pos && l > pos {
                    assert(o[k] == oo[k] && o[l] == oo[l - 1]);
                    assert(key_lt(os, oo[k], oo[l - 1]));
                    assert(ns[oo[k]] == os[oo[k]] && ns[oo[l - 1]] == os[oo[l - 1]]);
                } else if l == pos {
                    assert(o[k] == oo[k] && o[l] == i);
                    assert(!seq_lt(nv[i as int], nv[oo[k]]));
                    lemma_lt_total(nv[i as int], nv[oo[k]]);
                    assert(ns[oo[k]] == nv[oo[k]] && ns[i as int] == nv[i as int]);
                } else {
                    assert(k == pos);
                    assert(o[k] == i && o[l] == oo[l - 1]);
                    assert(ns[oo[l - 1]] == nv[oo[l - 1]] && ns[i as int] == nv[i as int]);
                    assert(seq_lt(nv[i as int], nv[oo[pos as int]]));
                    if l - 1 > pos {
                        assert(key_lt(os, oo[pos as int], oo[l - 1]));
                        assert(os[oo[pos as int]] == nv[oo[pos as int]] && os[oo[l - 1]] == nv[oo[l - 1]]);
                        if seq_lt(nv[oo[pos as int]], nv[oo[l - 1]]) {
                            lemma_lt_trans(nv[i as int], nv[oo[pos as int]], nv[oo[l - 1]]);
                        }
                    }
                }
            }
        }
        i = i + 1;
    }
    assert(nv.subrange(0, i as int) =~= nv);
    order
}

/// There is only one stable order of positions by name.
pub proof fn lemma_stable_order_unique(names: Seq<Seq<char>>, o1: Seq<int>, o2: Seq<int>)
    requires
        stable_order(names, o1),
        stable_order(names, o2),
    ensures
        o1 == o2,
{
    let n = names.len() as int;
    assert forall|p: int| 0 <= p < n implies o1[p] == o2[p] by {
        lemma_stable_order_position(names, o1, o2, p);
    }
    assert(o1 =~= o2);
}

proof fn lemma_perm_covers(o: Seq<int>, n: int, x: int)
    requires
        is_perm(o, n),
        0 <= x < n,
    ensures
        o.contains(x),
{
    let s = o.to_set();
    let full = Set::new(|y: int| 0 <= y < n);
    o.unique_seq_to_set();
    assert(s.subset_of(full));
    assert(full =~= vstd::set_lib::set_int_range(0, n));
    vstd::set_lib::lemma_int_range(0, n);
    if !o.contains(x) {
        assert(s.subset_of(full.remove(x)));
        vstd::set_lib::lemma_len_subset(s, full.remove(x));
    }
}

proof fn lemma_stable_order_position(names: Seq<Seq<char>>, o1: Seq<int>, o2: Seq<int>, p: int)
    requires
        stable_order(names, o1),
        stable_order(names, o2),
        0 <= p < names.len(),
    ensures
        o1[p] == o2[p],
    decreases p,
{
    let n = names.len() as int;
    let x = o1[p];
    let y = o2[p];
    if x != y {
        assert forall|j: int| 0 <= j < p implies o1[j] == o2[j] by {
            lemma_stable_order_position(names, o1, o2, j);
        }
        lemma_perm_covers(o1, n, y);
        lemma_perm_covers(o2, n, x);
        let q = choose|q: int| 0 <= q < o1.len() && o1[q] == y;
        let r = choose|r: int| 0 <= r < o2.len() && o2[r] == x;
        if q < p {
            assert(o2[q] == y);
        }
        if r < p {
            assert(o1[r] == x);
        }
        assert(key_lt(names, o1[p], o1[q]));
        assert(key_lt(names, o2[p], o2[r]));
        lemma_key_lt_asym(names, x, y);
    }
}

/// The place where position `i` goes among the sorted positions `o`: before
/// the first position whose name is strictly greater.
pub open spec fn insert_pos(names: Seq<Seq<char>>, o: Seq<int>, i: int, from: int) -> int
    decreases o.len() - from,
{
    if from >= o.len() {
        o.len() as int
    } else if seq_lt(names[i], names[o[from]]) {
        from
    } else {
        insert_pos(names, o, i, from + 1)
    }
}

proof fn lemma_insert_pos(names: Seq<Seq<char>>, o: Seq<int>, i: int, from: int)
    requires
        0 <= from <= o.len(),
        forall|k: int| 0 <= k < from ==> !seq_lt(names[i], #[trigger] names[o[k]]),
    ensures
        from <= insert_pos(names, o, i, from) <= o.len(),
        forall|k: int| 0 <= k < insert_pos(names, o, i, from) ==> !seq_lt(names[i], #[trigger] names[o[k]]),
        insert_pos(names, o, i, from) < o.len() ==> seq_lt(names[i], names[o[insert_pos(names, o, i, from)]]),
    decreases o.len() - from,
{
    if from < o.len() && !seq_lt(names[i], names[o[from]]) {
        lemma_insert_pos(names, o, i, from + 1);
    }
}

/// Inserting the next position at its place keeps the order stable.
proof fn lemma_stable_insert(names: Seq<Seq<char>>, oo: Seq<int>, i: int, pos: int)
    requires
        0 <= i < names.len(),
        stable_order(names.subrange(0, i), oo),
        0 <= pos <= oo.len(),
        forall|k: int| 0 <= k < pos ==> !seq_lt(names[i], #[trigger] names[oo[k]]),
        pos < oo.len() ==> seq_lt(names[i], names[oo[pos]]),
    ensures
        stable_order(names.subrange(0, i + 1), oo.insert(pos, i)),
{
    let ns = names.subrange(0, i + 1);
    let os = names.subrange(0, i);
    let o = oo.insert(pos, i);
    assert forall|k: int| 0 <= k < oo.len() implies oo[k] < i by {
        assert(0 <= #[trigger] oo[k] < os.len());
    }
    assert forall|k: int| 0 <= k < o.len() implies 0 <= #[trigger] o[k] < i + 1 by {
        if k < pos {
            assert(o[k] == oo[k]);
        } else if k > pos {
            assert(o[k] == oo[k - 1]);
        }
    }
    assert forall|k: int, l: int| 0 <= k < o.len() && 0 <= l < o.len() && k != l implies o[k] != o[l] by {
        if k != pos && l != pos {
            let kk = if k < pos { k } else { k - 1 };
            let ll = if l < pos { l } else { l - 1 };
            assert(o[k] == oo[kk] && o[l] == oo[ll]);
        } else if k == pos {
            let ll = if l < pos { l } else { l - 1 };
            assert(o[l] == oo[ll]);
        } else {
            let kk = if k < pos { k } else { k - 1 };
            assert(o[k] == oo[kk]);
        }
    }
    assert forall|k: int, l: int| 0 <= k < l < o.len() implies key_lt(ns, #[trigger] o[k], #[trigger] o[l]) by {
        if l < pos {
            assert(o[k] == oo[k] && o[l] == oo[l]);
            assert(key_lt(os, oo[k], oo[l]));
            assert(ns[oo[k]] == os[oo[k]] && ns[oo[l]] == os[oo[l]]);
        } else if k > pos {
            assert(o[k] == oo[k - 1] && o[l] == oo[l - 1]);
            assert(key_lt(os, oo[k - 1], oo[l - 1]));
            assert(ns[oo[k - 1]] == os[oo[k - 1]] && ns[oo[l - 1]] == os[oo[l - 1]]);
        } else if k < pos && l > pos {
            assert(o[k] == oo[k] && o[l] == oo[l - 1]);
            assert(key_lt(os, oo[k], oo[l - 1]));
            assert(ns[oo[k]] == os[oo[k]] && ns[oo[l - 1]] == os[oo[l - 1]]);
        } else if l == pos {
            assert(o[k] == oo[k] && o[l] == i);
            assert(!seq_lt(names[i], names[oo[k]]));
            lemma_lt_total(names[i], names[oo[k]]);
            assert(ns[oo[k]] == names[oo[k]] && ns[i] == names[i]);
        } else {
            assert(k == pos);
            assert(o[k] == i && o[l] == oo[l - 1]);
            assert(ns[oo[l - 1]] == names[oo[l - 1]] && ns[i] == names[i]);
            if l - 1 > pos {
                assert(key_lt(os, oo[pos], oo[l - 1]));
                assert(os[oo[pos]] == names[oo[pos]] && os[oo[l - 1]] == names[oo[l - 1]]);
                if seq_lt(names[oo[pos]], names[oo[l - 1]]) {
                    lemma_lt_trans(names[i], names[oo[pos]], names[oo[l - 1]]);
                }
            }
        }
    }
}

/// Every list of names has a stable order by name.
pub proof fn lemma_stable_order_exists(names: Seq<Seq<char>>)
    ensures
        exists|o: Seq<int>| stable_order(names, o),
    decreases names.len(),
{
    if names.len() == 0 {
        assert(stable_order(names, Seq::<int>::empty()));
    } else {
        let i = names.len() - 1;
        let prev = names.subrange(0, i);
        lemma_stable_order_exists(prev);
        let oo = choose|o: Seq<int>| stable_order(prev, o);
        assert(names.subrange(0, i) == prev);
        lemma_insert_pos(names, oo, i, 0);
        let pos = insert_pos(names, oo, i, 0);
        lemma_stable_insert(names, oo, i, pos);
        assert(names.subrange(0, i + 1) =~= names);
        assert(stable_order(names, oo.insert(pos, i)));
    }
}

/// When no name occurs twice, reordering the items does not change the order
/// by name: the sorted items are the same.
pub proof fn lemma_stable_order_permuted(n1: Seq<Seq<char>>, n2: Seq<Seq<char>>, perm: Seq<int>, o1: Seq<int>)
    requires
        n1.len() == n2.len(),
        is_perm(perm, n1.len() as int),
        forall|i: int| 0 <= i < n1.len() ==> n2[#[trigger] perm[i]] == n1[i],
        forall|i: int, j: int| 0 <= i < n1.len() && 0 <= j < n1.len() && i != j ==> n1[i] != n1[j],
        stable_order(n1, o1),
    ensures
        stable_order(n2, o1.map_values(|k: int| perm[k])),
{
    let o2 = o1.map_values(|k: int| perm[k]);
    let n = n1.len() as int;
    assert forall|k: int| 0 <= k < o2.len() implies 0 <= #[trigger] o2[k] < n by {
        assert(0 <= o1[k] < n);
        assert(0 <= perm[o1[k]] < n);
    }
    assert forall|k: int, l: int| 0 <= k < o2.len() && 0 <= l < o2.len() && k != l implies o2[k] != o2[l] by {
        assert(0 <= o1[k] < n && 0 <= o1[l] < n);
        assert(o1[k] != o1[l]);
    }
    assert forall|k: int, l: int| 0 <= k < l < o2.len() implies key_lt(n2, #[trigger] o2[k], #[trigger] o2[l]) by {
        assert(key_lt(n1, o1[k], o1[l]));
        assert(0 <= o1[k] < n && 0 <= o1[l] < n);
        assert(n2[perm[o1[k]]] == n1[o1[k]]);
        assert(n2[perm[o1[l]]] == n1[o1[l]]);
        assert(o1[k] != o1[l]);
    }
}

} // verus!
