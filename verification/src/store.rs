//! The F-key → program bindings, keyed by F-key label ("F13".."F24"). Kept
//! in key order, the order in which they are listed and persisted.

use vstd::prelude::*;

verus! {

/// What a trigger key is bound to.
pub struct Entry {
    /// Path to the app/file/folder, or a URL (or a shell command line).
    pub path: String,
    /// Friendly label shown in the UI.
    pub name: String,
    /// Action kind: "app" (program/file), "folder", "url" or "command".
    pub kind: String,
}

/// The abstract value of an [`Entry`].
pub struct EntryView {
    pub path: Seq<char>,
    pub name: Seq<char>,
    pub kind: Seq<char>,
}

impl View for Entry {
    type V = EntryView;

    open spec fn view(&self) -> EntryView {
        EntryView { path: self.path@, name: self.name@, kind: self.kind@ }
    }
}

impl Clone for Entry {
    fn clone(&self) -> (r: Self)
        ensures
            r@ == self@,
    {
        Entry { path: self.path.clone(), name: self.name.clone(), kind: self.kind.clone() }
    }
}

/// The kind of an entry whose configuration names none: "app".
pub fn default_kind() -> (s: String)
    ensures
        s@ == "app"@,
{
    String::from_str("app")
}

// ── Key order ───────────────────────────────────────────────────────────────

/// Lexicographic order of keys by Unicode code point (the order of `String`'s
/// `Ord`, which compares the UTF-8 bytes).
pub open spec fn key_less(a: Seq<char>, b: Seq<char>) -> bool
    decreases a.len(),
{
    if a.len() == 0 {
        b.len() > 0
    } else if b.len() == 0 {
        false
    } else if a[0] != b[0] {
        (a[0] as int) < (b[0] as int)
    } else {
        key_less(a.drop_first(), b.drop_first())
    }
}

/// No key is less than itself.
pub proof fn lemma_key_less_irreflexive(a: Seq<char>)
    ensures
        !key_less(a, a),
    decreases a.len(),
{
    if a.len() > 0 {
        lemma_key_less_irreflexive(a.drop_first());
    }
}

/// Two different keys are ordered one way or the other, never both.
pub proof fn lemma_key_less_total(a: Seq<char>, b: Seq<char>)
    ensures
        a != b ==> (key_less(a, b) || key_less(b, a)),
        !(key_less(a, b) && key_less(b, a)),
    decreases a.len(),
{
    if a.len() > 0 && b.len() > 0 {
        lemma_key_less_total(a.drop_first(), b.drop_first());
        if a[0] == b[0] && a.drop_first() == b.drop_first() {
            assert(a =~= seq![a[0]] + a.drop_first());
            assert(b =~= seq![b[0]] + b.drop_first());
        }
    } else if a.len() == 0 && b.len() == 0 {
        assert(a =~= b);
    }
}

/// The key order is transitive.
pub proof fn lemma_key_less_transitive(a: Seq<char>, b: Seq<char>, c: Seq<char>)
    requires
        key_less(a, b),
        key_less(b, c),
    ensures
        key_less(a, c),
    decreases a.len(),
{
    if a.len() > 0 && b.len() > 0 && c.len() > 0 && a[0] == b[0] && b[0] == c[0] {
        lemma_key_less_transitive(a.drop_first(), b.drop_first(), c.drop_first());
    }
}

/// The key order is the dictionary order by code point: `a` comes before `b`
/// when it is a proper prefix of `b`, or when at the first position where
/// they differ `a` has the smaller code point.
pub proof fn law_key_order(a: Seq<char>, b: Seq<char>)
    ensures
        key_less(a, b) <==> (a.len() < b.len() && a == b.take(a.len() as int)) || exists|i: int|
            0 <= i < a.len() && i < b.len() && a.take(i) == b.take(i) && (#[trigger] a[i] as int)
                < (b[i] as int),
    decreases a.len(),
{
    if a.len() == 0 {
        assert(a =~= b.take(0));
    } else if b.len() == 0 {
    } else if a[0] != b[0] {
        if (a[0] as int) < (b[0] as int) {
            assert(a.take(0) =~= b.take(0));
        }
        if exists|i: int|
            0 <= i < a.len() && i < b.len() && a.take(i) == b.take(i) && (#[trigger] a[i] as int)
                < (b[i] as int) {
            let i = choose|i: int|
                0 <= i < a.len() && i < b.len() && a.take(i) == b.take(i) && (#[trigger] a[i]
                    as int) < (b[i] as int);
            if i > 0 {
                assert(a.take(i)[0] == b.take(i)[0]);
            }
        }
        if a.len() < b.len() && a == b.take(a.len() as int) {
            assert(a[0] == b.take(a.len() as int)[0]);
        }
    } else {
        let a1 = a.drop_first();
        let b1 = b.drop_first();
        law_key_order(a1, b1);
        if a1.len() < b1.len() && a1 == b1.take(a1.len() as int) {
            assert forall|k: int| 0 <= k < a.len() implies a[k] == b.take(a.len() as int)[k] by {
                if k > 0 {
                    assert(a[k] == a1[k - 1]);
                    assert(a1[k - 1] == b1.take(a1.len() as int)[k - 1]);
                }
            }
            assert(a =~= b.take(a.len() as int));
        }
        if a.len() < b.len() && a == b.take(a.len() as int) {
            assert(a1 =~= b1.take(a1.len() as int));
        }
        if exists|i: int|
            0 <= i < a1.len() && i < b1.len() && a1.take(i) == b1.take(i) && (#[trigger] a1[i]
                as int) < (b1[i] as int) {
            let i = choose|i: int|
                0 <= i < a1.len() && i < b1.len() && a1.take(i) == b1.take(i) && (#[trigger] a1[i]
                    as int) < (b1[i] as int);
            assert(a.take(i + 1) =~= seq![a[0]] + a1.take(i));
            assert(b.take(i + 1) =~= seq![b[0]] + b1.take(i));
            assert(a[i + 1] == a1[i]);
        }
        if exists|i: int|
            0 <= i < a.len() && i < b.len() && a.take(i) == b.take(i) && (#[trigger] a[i] as int)
                < (b[i] as int) {
            let i = choose|i: int|
                0 <= i < a.len() && i < b.len() && a.take(i) == b.take(i) && (#[trigger] a[i]
                    as int) < (b[i] as int);
            assert(i > 0);
            assert(a1.take(i - 1) =~= a.take(i).drop_first());
            assert(b1.take(i - 1) =~= b.take(i).drop_first());
            assert(a1[i - 1] == a[i]);
        }
    }
}

/// The result of comparing two keys.
pub enum KeyOrder {
    Less,
    Equal,
    Greater,
}

/// Compares two keys in the order of [`key_less`].
pub fn key_order(a: &str, b: &str) -> (o: KeyOrder)
    ensures
        o is Less <==> key_less(a@, b@),
        o is Equal <==> a@ == b@,
        o is Greater <==> key_less(b@, a@),
{
    let la = a.unicode_len();
    let lb = b.unicode_len();
    let mut i: usize = 0;
    proof {
        assert(a@.skip(0) =~= a@);
        assert(b@.skip(0) =~= b@);
        lemma_key_less_total(a@, b@);
    }
    while i < la && i < lb
        invariant
            la == a@.len(),
            lb == b@.len(),
            i <= la,
            i <= lb,
            a@.take(i as int) =~= b@.take(i as int),
            key_less(a@, b@) == key_less(a@.skip(i as int), b@.skip(i as int)),
            key_less(b@, a@) == key_less(b@.skip(i as int), a@.skip(i as int)),
        decreases la - i,
    {
        let ca = a.get_char(i);
        let cb = b.get_char(i);
        if ca != cb {
            proof {
                lemma_key_less_total(a@, b@);
                assert(a@[i as int] != b@[i as int]);
            }
            if (ca as u32) < (cb as u32) {
                return KeyOrder::Less;
            } else {
                return KeyOrder::Greater;
            }
        }
        proof {
            assert(a@.skip(i as int).drop_first() =~= a@.skip(i + 1));
            assert(b@.skip(i as int).drop_first() =~= b@.skip(i + 1));
            assert(a@.take(i + 1) =~= a@.take(i as int).push(ca));
            assert(b@.take(i + 1) =~= b@.take(i as int).push(cb));
        }
        i = i + 1;
    }
    proof {
        lemma_key_less_total(a@, b@);
        if la == lb {
            assert(a@ =~= a@.take(i as int));
            assert(b@ =~= b@.take(i as int));
        } else if la < lb {
            assert(a@ =~= a@.take(i as int));
            assert(a@ != b@);
        } else {
            assert(b@ =~= b@.take(i as int));
            assert(a@ != b@);
        }
    }
    if la == lb {
        KeyOrder::Equal
    } else if la < lb {
        KeyOrder::Less
    } else {
        KeyOrder::Greater
    }
}


// ── Association lists ───────────────────────────────────────────────────────

/// The abstract value of a list of bindings.
pub open spec fn pairs_view(v: Seq<(String, Entry)>) -> Seq<(Seq<char>, EntryView)> {
    v.map_values(|p: (String, Entry)| (p.0@, p.1@))
}

/// The keys of the bindings are strictly increasing in key order.
pub open spec fn keys_sorted(s: Seq<(Seq<char>, EntryView)>) -> bool {
    forall|i: int, j: int| 0 <= i < j < s.len() ==> key_less(#[trigger] s[i].0, #[trigger] s[j].0)
}

/// Some binding of the list has key `k`.
pub open spec fn has_key(s: Seq<(Seq<char>, EntryView)>, k: Seq<char>) -> bool {
    exists|i: int| 0 <= i < s.len() && #[trigger] s[i].0 == k
}

/// The map that a list of bindings with distinct keys stands for.
pub open spec fn assoc_map(s: Seq<(Seq<char>, EntryView)>) -> Map<Seq<char>, EntryView> {
    Map::new(
        |k: Seq<char>| has_key(s, k),
        |k: Seq<char>| s[choose|i: int| 0 <= i < s.len() && #[trigger] s[i].0 == k].1,
    )
}

proof fn lemma_sorted_distinct(s: Seq<(Seq<char>, EntryView)>, i: int, j: int)
    requires
        keys_sorted(s),
        0 <= i < s.len(),
        0 <= j < s.len(),
        i != j,
    ensures
        s[i].0 != s[j].0,
{
    if i < j {
        assert(key_less(s[i].0, s[j].0));
        lemma_key_less_irreflexive(s[i].0);
    } else {
        assert(key_less(s[j].0, s[i].0));
        lemma_key_less_irreflexive(s[j].0);
    }
}

/// In a sorted list the binding at `i` is what the map holds for its key.
proof fn lemma_assoc_at(s: Seq<(Seq<char>, EntryView)>, i: int)
    requires
        keys_sorted(s),
        0 <= i < s.len(),
    ensures
        assoc_map(s).contains_key(s[i].0),
        assoc_map(s)[s[i].0] == s[i].1,
{
    assert(has_key(s, s[i].0));
    let j = choose|j: int| 0 <= j < s.len() && #[trigger] s[j].0 == s[i].0;
    if j != i {
        lemma_sorted_distinct(s, i, j);
    }
}

/// Inserts or replaces the binding for `key` in a sorted list.
fn insert_binding(v: &mut Vec<(String, Entry)>, key: String, entry: Entry)
    requires
        keys_sorted(pairs_view(old(v)@)),
    ensures
        keys_sorted(pairs_view(final(v)@)),
        assoc_map(pairs_view(final(v)@)) == assoc_map(pairs_view(old(v)@)).insert(key@, entry@),
{
    let ghost s0 = pairs_view(v@);
    let ghost k = key@;
    let ghost e = entry@;
    let n = v.len();
    let mut j: usize = 0;
    while j < n
        invariant
            n == v@.len(),
            v@ == old(v)@,
            s0 == pairs_view(v@),
            k == key@,
            e == entry@,
            keys_sorted(s0),
            j <= n,
            forall|i: int| 0 <= i < j ==> key_less(#[trigger] s0[i].0, k),
        ensures
            j <= n,
            v@ == old(v)@,
            forall|i: int| 0 <= i < j ==> key_less(#[trigger] s0[i].0, k),
            j < n ==> key_less(k, s0[j as int].0),
        decreases n - j,
    {
        let o = key_order(v[j].0.as_str(), key.as_str());
        assert(s0[j as int].0 == v@[j as int].0@);
        match o {
            KeyOrder::Less => {
                j = j + 1;
            },
            KeyOrder::Equal => {
                v.set(j, (key, entry));
                proof {
                    let s1 = pairs_view(v@);
                    assert(v@ == old(v)@.update(j as int, (key, entry)));
                    assert(s1 =~= s0.update(j as int, (k, e)));
                    assert forall|a: int, b: int| 0 <= a < b < s1.len() implies key_less(
                        #[trigger] s1[a].0,
                        #[trigger] s1[b].0,
                    ) by {
                        assert(key_less(s0[a].0, s0[b].0));
                    }
                    assert forall|q: Seq<char>| #[trigger]
                        assoc_map(s1).contains_key(q) <==> assoc_map(s0).insert(k, e).contains_key(q)
                        by {
                        if has_key(s0, q) {
                            let i = choose|i: int| 0 <= i < s0.len() && #[trigger] s0[i].0 == q;
                            assert(s1[i].0 == q);
                        }
                        if has_key(s1, q) {
                            let i = choose|i: int| 0 <= i < s1.len() && #[trigger] s1[i].0 == q;
                            assert(s0[i].0 == q);
                        }
                    }
                    assert forall|q: Seq<char>| #[trigger] assoc_map(s1).contains_key(q) implies
                        assoc_map(s1)[q] == assoc_map(s0).insert(k, e)[q] by {
                        let i = choose|i: int| 0 <= i < s1.len() && #[trigger] s1[i].0 == q;
                        lemma_assoc_at(s1, i);
                        if i != j {
                            lemma_assoc_at(s0, i);
                        }
                    }
                    assert(assoc_map(s1) =~= assoc_map(s0).insert(k, e));
                }
                return ;
            },
            KeyOrder::Greater => {
                break ;
            },
        }
    }
    // Every key before `j` is below `key`, and `key` is below the one at `j`.
    v.insert(j, (key, entry));
    proof {
        let s1 = pairs_view(v@);
        assert(s1 =~= s0.insert(j as int, (k, e)));
        if j < n {
            lemma_key_less_total(s0[j as int].0, k);
        }
        assert forall|a: int, b: int| 0 <= a < b < s1.len() implies key_less(
            #[trigger] s1[a].0,
            #[trigger] s1[b].0,
        ) by {
            if b < j {
                assert(key_less(s0[a].0, s0[b].0));
            } else if b == j {
            } else if a < j {
                assert(key_less(s0[a].0, k));
                if b - 1 > j {
                    assert(key_less(s0[j as int].0, s0[b - 1].0));
                    lemma_key_less_transitive(k, s0[j as int].0, s0[b - 1].0);
                }
                lemma_key_less_transitive(s0[a].0, k, s0[b - 1].0);
            } else if a == j {
                if b - 1 > j {
                    assert(key_less(s0[j as int].0, s0[b - 1].0));
                    lemma_key_less_transitive(k, s0[j as int].0, s0[b - 1].0);
                }
            } else {
                assert(key_less(s0[a - 1].0, s0[b - 1].0));
            }
        }
        assert forall|q: Seq<char>| #[trigger]
            assoc_map(s1).contains_key(q) <==> assoc_map(s0).insert(k, e).contains_key(q) by {
            if has_key(s0, q) {
                let i = choose|i: int| 0 <= i < s0.len() && #[trigger] s0[i].0 == q;
                if i < j {
                    assert(s1[i].0 == q);
                } else {
                    assert(s1[i + 1].0 == q);
                }
            }
            if q == k {
                assert(s1[j as int].0 == q);
            }
            if has_key(s1, q) && q != k {
                let i = choose|i: int| 0 <= i < s1.len() && #[trigger] s1[i].0 == q;
                if i < j {
                    assert(s0[i].0 == q);
                } else {
                    assert(s0[i - 1].0 == q);
                }
            }
        }
        assert forall|q: Seq<char>| #[trigger] assoc_map(s1).contains_key(q) implies assoc_map(
            s1,
        )[q] == assoc_map(s0).insert(k, e)[q] by {
            let i = choose|i: int| 0 <= i < s1.len() && #[trigger] s1[i].0 == q;
            lemma_assoc_at(s1, i);
            if i != j {
                lemma_sorted_distinct(s1, i, j as int);
            }
            if i < j {
                lemma_assoc_at(s0, i);
            } else if i > j {
                lemma_assoc_at(s0, i - 1);
            }
        }
        assert(assoc_map(s1) =~= assoc_map(s0).insert(k, e));
    }
}


/// The position of the binding for `key`, if there is one.
fn find_binding(v: &Vec<(String, Entry)>, key: &str) -> (r: Option<usize>)
    requires
        keys_sorted(pairs_view(v@)),
    ensures
        r matches Some(i) ==> i < v@.len() && v@[i as int].0@ == key@,
        r is None ==> !has_key(pairs_view(v@), key@),
{
    let ghost s0 = pairs_view(v@);
    let mut j: usize = 0;
    while j < v.len()
        invariant
            s0 == pairs_view(v@),
            j <= v@.len(),
            forall|i: int| 0 <= i < j ==> #[trigger] s0[i].0 != key@,
        decreases v@.len() - j,
    {
        if let KeyOrder::Equal = key_order(v[j].0.as_str(), key) {
            return Some(j);
        }
        assert(s0[j as int].0 == v@[j as int].0@);
        j = j + 1;
    }
    None
}

/// Removes the binding for `key` from a sorted list, if there is one.
fn remove_binding(v: &mut Vec<(String, Entry)>, key: &str)
    requires
        keys_sorted(pairs_view(old(v)@)),
    ensures
        keys_sorted(pairs_view(final(v)@)),
        assoc_map(pairs_view(final(v)@)) == assoc_map(pairs_view(old(v)@)).remove(key@),
{
    let ghost s0 = pairs_view(v@);
    let ghost k = key@;
    match find_binding(v, key) {
        None => {
            proof {
                assert(assoc_map(s0) =~= assoc_map(s0).remove(k));
            }
        },
        Some(j) => {
            let _ = v.remove(j);
            proof {
                let s1 = pairs_view(v@);
                assert(s1 =~= s0.remove(j as int));
                assert forall|a: int, b: int| 0 <= a < b < s1.len() implies key_less(
                    #[trigger] s1[a].0,
                    #[trigger] s1[b].0,
                ) by {
                    if a < j && b < j {
                        assert(key_less(s0[a].0, s0[b].0));
                    } else if a < j {
                        assert(key_less(s0[a].0, s0[b + 1].0));
                    } else {
                        assert(key_less(s0[a + 1].0, s0[b + 1].0));
                    }
                }
                assert forall|q: Seq<char>| #[trigger]
                    assoc_map(s1).contains_key(q) <==> assoc_map(s0).remove(k).contains_key(q) by {
                    if has_key(s0, q) && q != k {
                        let i = choose|i: int| 0 <= i < s0.len() && #[trigger] s0[i].0 == q;
                        if i < j {
                            assert(s1[i].0 == q);
                        } else {
                            assert(s1[i - 1].0 == q);
                        }
                    }
                    if has_key(s1, q) {
                        let i = choose|i: int| 0 <= i < s1.len() && #[trigger] s1[i].0 == q;
                        if i < j {
                            assert(s0[i].0 == q);
                            lemma_sorted_distinct(s0, i, j as int);
                        } else {
                            assert(s0[i + 1].0 == q);
                            lemma_sorted_distinct(s0, i + 1, j as int);
                        }
                    }
                }
                assert forall|q: Seq<char>| #[trigger] assoc_map(s1).contains_key(q) implies
                    assoc_map(s1)[q] == assoc_map(s0).remove(k)[q] by {
                    let i = choose|i: int| 0 <= i < s1.len() && #[trigger] s1[i].0 == q;
                    lemma_assoc_at(s1, i);
                    if i < j {
                        lemma_assoc_at(s0, i);
                    } else {
                        lemma_assoc_at(s0, i + 1);
                    }
                }
                assert(assoc_map(s1) =~= assoc_map(s0).remove(k));
            }
        },
    }
}


// ── The store ───────────────────────────────────────────────────────────────

/// The map that a list of bindings stands for when they are applied in
/// order: a later binding for a key overrides an earlier one.
pub open spec fn apply_bindings(s: Seq<(Seq<char>, EntryView)>) -> Map<Seq<char>, EntryView>
    decreases s.len(),
{
    if s.len() == 0 {
        Map::empty()
    } else {
        apply_bindings(s.drop_last()).insert(s.last().0, s.last().1)
    }
}

/// The in-memory key → entry bindings, kept sorted by key.
pub struct Store {
    bindings: Vec<(String, Entry)>,
}

impl Store {
    #[verifier::type_invariant]
    spec fn sorted(self) -> bool {
        keys_sorted(pairs_view(self.bindings@))
    }

    /// The bindings as a map from key to entry.
    pub closed spec fn as_map(self) -> Map<Seq<char>, EntryView> {
        assoc_map(pairs_view(self.bindings@))
    }
}

impl View for Store {
    type V = Map<Seq<char>, EntryView>;

    open spec fn view(&self) -> Map<Seq<char>, EntryView> {
        self.as_map()
    }
}

impl Store {
    /// The store for the bindings read back from disk, applied in order;
    /// empty when there were none to read (`None`).
    pub fn load(saved: Option<Vec<(String, Entry)>>) -> (s: Store)
        ensures
            saved is None ==> s@ == Map::<Seq<char>, EntryView>::empty(),
            saved matches Some(v) ==> s@ == apply_bindings(pairs_view(v@)),
    {
        let mut b: Vec<(String, Entry)> = Vec::new();
        proof {
            assert(assoc_map(pairs_view(b@)) =~= Map::<Seq<char>, EntryView>::empty());
        }
        match saved {
            None => {},
            Some(v) => {
                let ghost s0 = pairs_view(v@);
                let n = v.len();
                let mut i: usize = 0;
                while i < n
                    invariant
                        n == v@.len(),
                        s0 == pairs_view(v@),
                        i <= n,
                        keys_sorted(pairs_view(b@)),
                        assoc_map(pairs_view(b@)) == apply_bindings(s0.subrange(0, i as int)),
                    decreases n - i,
                {
                    let key = v[i].0.clone();
                    let entry = v[i].1.clone();
                    proof {
                        assert(s0.subrange(0, i + 1).drop_last() =~= s0.subrange(0, i as int));
                    }
                    insert_binding(&mut b, key, entry);
                    i = i + 1;
                }
                proof {
                    assert(s0.subrange(0, n as int) =~= s0);
                }
            },
        }
        Store { bindings: b }
    }

    /// All bindings, in key order.
    pub fn snapshot(&self) -> (r: Vec<(String, Entry)>)
        ensures
            keys_sorted(pairs_view(r@)),
            assoc_map(pairs_view(r@)) == self@,
    {
        proof {
            use_type_invariant(self);
        }
        let mut r: Vec<(String, Entry)> = Vec::new();
        let mut i: usize = 0;
        while i < self.bindings.len()
            invariant
                i <= self.bindings@.len(),
                pairs_view(r@) =~= pairs_view(self.bindings@).subrange(0, i as int),
            decreases self.bindings@.len() - i,
        {
            let key = self.bindings[i].0.clone();
            let entry = self.bindings[i].1.clone();
            let ghost prev = r@;
            r.push((key, entry));
            proof {
                assert(r@ == prev.push((key, entry)));
                assert(pairs_view(r@) =~= pairs_view(prev).push(pairs_view(self.bindings@)[i as int]));
            }
            i = i + 1;
        }
        proof {
            assert(pairs_view(r@) =~= pairs_view(self.bindings@));
        }
        r
    }

    /// The entry bound to `key`, if any.
    pub fn get(&self, key: &str) -> (r: Option<Entry>)
        ensures
            r matches Some(e) ==> self@.contains_key(key@) && self@[key@] == e@,
            r is None ==> !self@.contains_key(key@),
    {
        proof {
            use_type_invariant(self);
        }
        match find_binding(&self.bindings, key) {
            Some(i) => {
                proof {
                    lemma_assoc_at(pairs_view(self.bindings@), i as int);
                }
                Some(self.bindings[i].1.clone())
            },
            None => None,
        }
    }

    /// Binds `key` to `entry`, replacing any earlier binding of `key`.
    pub fn set(&mut self, key: String, entry: Entry)
        ensures
            final(self)@ == old(self)@.insert(key@, entry@),
    {
        proof {
            use_type_invariant(&*self);
        }
        let mut b: Vec<(String, Entry)> = Vec::new();
        std::mem::swap(&mut b, &mut self.bindings);
        insert_binding(&mut b, key, entry);
        self.bindings = b;
    }

    /// Removes the binding of `key`, if any.
    pub fn remove(&mut self, key: &str)
        ensures
            final(self)@ == old(self)@.remove(key@),
    {
        proof {
            use_type_invariant(&*self);
        }
        let mut b: Vec<(String, Entry)> = Vec::new();
        std::mem::swap(&mut b, &mut self.bindings);
        remove_binding(&mut b, key);
        self.bindings = b;
    }
}


// ── Laws ────────────────────────────────────────────────────────────────────

/// Reading a key back after binding it gives the entry just bound, and
/// binding a key leaves every other key's binding as it was.
pub proof fn law_get_after_set(
    m: Map<Seq<char>, EntryView>,
    key: Seq<char>,
    entry: EntryView,
    other: Seq<char>,
)
    requires
        other != key,
    ensures
        m.insert(key, entry).contains_key(key),
        m.insert(key, entry)[key] == entry,
        m.insert(key, entry).contains_key(other) == m.contains_key(other),
        m.contains_key(other) ==> m.insert(key, entry)[other] == m[other],
{
}

/// After removing a key it is unbound, and every other key's binding is as
/// it was.
pub proof fn law_get_after_remove(m: Map<Seq<char>, EntryView>, key: Seq<char>, other: Seq<char>)
    requires
        other != key,
    ensures
        !m.remove(key).contains_key(key),
        m.remove(key).contains_key(other) == m.contains_key(other),
        m.contains_key(other) ==> m.remove(key)[other] == m[other],
{
}

/// Binding a key twice keeps only the second entry, and removing a key
/// undoes any binding of it made just before.
pub proof fn law_set_overrides(
    m: Map<Seq<char>, EntryView>,
    key: Seq<char>,
    first: EntryView,
    second: EntryView,
)
    ensures
        m.insert(key, first).insert(key, second) == m.insert(key, second),
        m.insert(key, first).remove(key) == m.remove(key),
{
    assert(m.insert(key, first).insert(key, second) =~= m.insert(key, second));
    assert(m.insert(key, first).remove(key) =~= m.remove(key));
}

/// Loading what a snapshot listed gives back the same bindings: applying a
/// key-sorted list of bindings in order yields the map the list stands for.
pub proof fn law_load_snapshot(s: Seq<(Seq<char>, EntryView)>)
    requires
        keys_sorted(s),
    ensures
        apply_bindings(s) == assoc_map(s),
    decreases s.len(),
{
    if s.len() > 0 {
        let t = s.drop_last();
        assert(keys_sorted(t)) by {
            assert forall|i: int, j: int| 0 <= i < j < t.len() implies key_less(
                #[trigger] t[i].0,
                #[trigger] t[j].0,
            ) by {
                assert(key_less(s[i].0, s[j].0));
            }
        }
        law_load_snapshot(t);
        let last = s.last();
        assert forall|q: Seq<char>| #[trigger]
            assoc_map(s).contains_key(q) <==> assoc_map(t).insert(last.0, last.1).contains_key(q) by {
            if has_key(s, q) && q != last.0 {
                let i = choose|i: int| 0 <= i < s.len() && #[trigger] s[i].0 == q;
                assert(t[i].0 == q);
            }
            if has_key(t, q) {
                let i = choose|i: int| 0 <= i < t.len() && #[trigger] t[i].0 == q;
                assert(s[i].0 == q);
            }
            if q == last.0 {
                assert(s[s.len() - 1].0 == q);
            }
        }
        assert forall|q: Seq<char>| #[trigger] assoc_map(s).contains_key(q) implies assoc_map(s)[q]
            == assoc_map(t).insert(last.0, last.1)[q] by {
            let i = choose|i: int| 0 <= i < s.len() && #[trigger] s[i].0 == q;
            lemma_assoc_at(s, i);
            if i < s.len() - 1 {
                lemma_sorted_distinct(s, i, s.len() - 1);
                lemma_assoc_at(t, i);
            }
        }
        assert(assoc_map(s) =~= assoc_map(t).insert(last.0, last.1));
    } else {
        assert(assoc_map(s) =~= Map::<Seq<char>, EntryView>::empty());
    }
}

} // verus!
