//! Texts: the values of strings, their equality and their order.
use vstd::prelude::*;

verus! {

/// The texts of a sequence of strings.
pub open spec fn texts(names: Seq<String>) -> Seq<Seq<char>> {
    names.map_values(|s: String| s@)
}

/// The text of an optional string.
pub open spec fn optional_text(text: Option<String>) -> Option<Seq<char>> {
    match text {
        Some(t) => Some(t@),
        None => None,
    }
}

/// The texts of an optional list of strings.
pub open spec fn optional_texts(list: Option<Vec<String>>) -> Option<Seq<Seq<char>>> {
    match list {
        Some(l) => Some(texts(l@)),
        None => None,
    }
}

/// Trusted: `==` on `str`, which holds exactly of equal texts.
#[verifier::external_body]
pub(crate) fn text_eq(a: &str, b: &str) -> (r: bool)
    ensures
        r == (a@ == b@),
{
    a == b
}

/// The order of texts: `a` is at or before `b` where, at the first position
/// at which they differ, `a` has the lower code point, or where `a` ends
/// there.
pub open spec fn text_le(a: Seq<char>, b: Seq<char>) -> bool
    decreases a.len(),
{
    if a.len() == 0 {
        true
    } else if b.len() == 0 {
        false
    } else if (a[0] as int) == (b[0] as int) {
        text_le(a.drop_first(), b.drop_first())
    } else {
        (a[0] as int) < (b[0] as int)
    }
}

/// Every text is at or before itself.
pub proof fn lemma_text_le_reflexive(a: Seq<char>)
    ensures
        text_le(a, a),
    decreases a.len(),
{
    if a.len() > 0 {
        lemma_text_le_reflexive(a.drop_first());
    }
}

/// Of two texts, one is at or before the other.
pub proof fn lemma_text_le_total(a: Seq<char>, b: Seq<char>)
    ensures
        text_le(a, b) || text_le(b, a),
    decreases a.len(),
{
    if a.len() > 0 && b.len() > 0 && (a[0] as int) == (b[0] as int) {
        lemma_text_le_total(a.drop_first(), b.drop_first());
    }
}

/// The order of texts is transitive.
pub proof fn lemma_text_le_transitive(a: Seq<char>, b: Seq<char>, c: Seq<char>)
    requires
        text_le(a, b),
        text_le(b, c),
    ensures
        text_le(a, c),
    decreases a.len(),
{
    if a.len() > 0 && b.len() > 0 && c.len() > 0 && (a[0] as int) == (b[0] as int) && (b[0] as int) == (
    c[0] as int) {
        lemma_text_le_transitive(a.drop_first(), b.drop_first(), c.drop_first());
    }
}

/// Two texts of which each is at or before the other are one text.
pub proof fn lemma_text_le_antisymmetric(a: Seq<char>, b: Seq<char>)
    requires
        text_le(a, b),
        text_le(b, a),
    ensures
        a == b,
    decreases a.len(),
{
    if a.len() > 0 {
        assert(b.len() > 0);
        assert(a[0] == b[0]);
        lemma_text_le_antisymmetric(a.drop_first(), b.drop_first());
        assert(a =~= seq![a[0]] + a.drop_first());
        assert(b =~= seq![b[0]] + b.drop_first());
    } else {
        assert(a =~= b);
    }
}

/// Trusted: `<=` on `str`. The standard library orders strings
/// lexicographically by their bytes, which is the order of their code
/// points: the order that `text_le` writes out.
#[verifier::external_body]
pub(crate) fn text_at_or_before(a: &str, b: &str) -> (r: bool)
    ensures
        r == text_le(a@, b@),
{
    a <= b
}

/// Whether the texts stand in ascending order.
pub open spec fn ascending(names: Seq<Seq<char>>) -> bool {
    forall|i: int, j: int| 0 <= i < j < names.len() ==> text_le(#[trigger] names[i], #[trigger] names[j])
}

/// There is one way to put different texts in ascending order: two
/// ascending sequences without repeats that hold the same texts are equal.
pub proof fn lemma_ascending_unique(a: Seq<Seq<char>>, b: Seq<Seq<char>>)
    requires
        ascending(a),
        ascending(b),
        a.no_duplicates(),
        b.no_duplicates(),
        forall|k: Seq<char>| #[trigger] a.contains(k) <==> b.contains(k),
    ensures
        a == b,
    decreases a.len(),
{
    if a.len() == 0 {
        if b.len() > 0 {
            assert(b.contains(b[0]));
            assert(a.contains(b[0]));
        }
        assert(a =~= b);
    } else {
        let x = a.last();
        assert(a[a.len() - 1] == x);
        assert(a.contains(x));
        assert(b.contains(x));
        let y = b.last();
        assert(b[b.len() - 1] == y);
        assert(b.contains(y));
        assert(a.contains(y));
        let ix = choose|i: int| 0 <= i < b.len() && b[i] == x;
        let iy = choose|i: int| 0 <= i < a.len() && a[i] == y;
        lemma_text_le_reflexive(x);
        assert(text_le(x, y));
        assert(text_le(y, x));
        lemma_text_le_antisymmetric(x, y);
        let head = a.drop_last();
        let other = b.drop_last();
        assert forall|k: Seq<char>| #[trigger] head.contains(k) <==> other.contains(k) by {
            if head.contains(k) {
                let i = choose|i: int| 0 <= i < head.len() && head[i] == k;
                assert(a[i] == k);
                assert(a.contains(k));
                assert(b.contains(k));
                let j = choose|j: int| 0 <= j < b.len() && b[j] == k;
                assert(j < b.len() - 1);
                assert(other[j] == k);
            }
            if other.contains(k) {
                let i = choose|i: int| 0 <= i < other.len() && other[i] == k;
                assert(b[i] == k);
                assert(b.contains(k));
                assert(a.contains(k));
                let j = choose|j: int| 0 <= j < a.len() && a[j] == k;
                assert(j < a.len() - 1);
                assert(head[j] == k);
            }
        }
        assert(ascending(head)) by {
            assert forall|i: int, j: int| 0 <= i < j < head.len() implies text_le(
                #[trigger] head[i],
                #[trigger] head[j],
            ) by {
                assert(head[i] == a[i] && head[j] == a[j]);
            }
        }
        assert(ascending(other)) by {
            assert forall|i: int, j: int| 0 <= i < j < other.len() implies text_le(
                #[trigger] other[i],
                #[trigger] other[j],
            ) by {
                assert(other[i] == b[i] && other[j] == b[j]);
            }
        }
        lemma_ascending_unique(head, other);
        assert(a =~= head.push(x));
        assert(b =~= other.push(y));
    }
}

/// Moving one item of a sequence towards the front keeps the items, and
/// keeps them free of repeats.
proof fn lemma_moved(s: Seq<Seq<char>>, i: int, j: int)
    requires
        0 <= j <= i < s.len(),
    ensures
        s.remove(i).insert(j, s[i]).len() == s.len(),
        forall|k: Seq<char>| #[trigger] s.remove(i).insert(j, s[i]).contains(k) <==> s.contains(k),
        s.no_duplicates() ==> s.remove(i).insert(j, s[i]).no_duplicates(),
        s.remove(i).insert(j, s[i]).to_multiset() == s.to_multiset(),
{
    let t = s.remove(i).insert(j, s[i]);
    assert(t.len() == s.len());
    assert(t.to_multiset() == s.to_multiset()) by {
        broadcast use vstd::multiset::group_multiset_axioms;

        vstd::seq_lib::to_multiset_remove(s, i);
        vstd::seq_lib::to_multiset_insert(s.remove(i), j, s[i]);
        s.to_multiset_ensures();
        assert(s.contains(s[i]));
        assert(s.to_multiset().count(s[i]) > 0);
        assert(t.to_multiset() =~= s.to_multiset());
    }
    assert forall|n: int| 0 <= n < t.len() implies #[trigger] t[n] == s[if n < j {
        n
    } else if n == j {
        i
    } else if n <= i {
        n - 1
    } else {
        n
    }] by {}
    assert forall|k: Seq<char>| #[trigger] t.contains(k) <==> s.contains(k) by {
        if t.contains(k) {
            let n = choose|n: int| 0 <= n < t.len() && t[n] == k;
            let m = if n < j {
                n
            } else if n == j {
                i
            } else if n <= i {
                n - 1
            } else {
                n
            };
            assert(s[m] == k);
        }
        if s.contains(k) {
            let m = choose|m: int| 0 <= m < s.len() && s[m] == k;
            let n = if m < j {
                m
            } else if m == i {
                j
            } else if m < i {
                m + 1
            } else {
                m
            };
            assert(t[n] == k);
        }
    }
}

/// Placing `x` behind the last item of an ascending sequence that is at or
/// before it keeps the sequence ascending.
proof fn lemma_placed(names: Seq<Seq<char>>, x: Seq<char>, j: int)
    requires
        ascending(names),
        0 <= j <= names.len(),
        forall|k: int| j <= k < names.len() ==> !text_le(#[trigger] names[k], x),
        j > 0 ==> text_le(names[j - 1], x),
    ensures
        ascending(names.insert(j, x)),
{
    let placed = names.insert(j, x);
    assert forall|a: int, b: int| 0 <= a < b < placed.len() implies text_le(
        #[trigger] placed[a],
        #[trigger] placed[b],
    ) by {
        if b < j {
            assert(placed[a] == names[a] && placed[b] == names[b]);
        } else if b == j {
            assert(placed[a] == names[a]);
            if a < j - 1 {
                assert(text_le(names[a], names[j - 1]));
            } else {
                lemma_text_le_reflexive(names[a]);
            }
            lemma_text_le_transitive(names[a], names[j - 1], x);
        } else if a < j {
            assert(placed[a] == names[a] && placed[b] == names[b - 1]);
        } else if a == j {
            assert(placed[b] == names[b - 1]);
            lemma_text_le_total(names[b - 1], x);
        } else {
            assert(placed[a] == names[a - 1] && placed[b] == names[b - 1]);
        }
    }
}

/// Sorts the texts in ascending order. The sorted sequence holds the texts
/// that were given, each as often as it was given.
pub fn sort_texts(names: &mut Vec<String>)
    ensures
        ascending(texts(final(names)@)),
        texts(final(names)@).to_multiset() == texts(old(names)@).to_multiset(),
        final(names)@.len() == old(names)@.len(),
        forall|k: Seq<char>| #[trigger] texts(final(names)@).contains(k) <==> texts(old(names)@).contains(k),
        texts(old(names)@).no_duplicates() ==> texts(final(names)@).no_duplicates(),
{
    let ghost given = texts(names@);
    let mut i: usize = 0;
    while i < names.len()
        invariant
            0 <= i <= names.len(),
            names@.len() == given.len(),
            ascending(texts(names@).take(i as int)),
            texts(names@).to_multiset() == given.to_multiset(),
            forall|k: Seq<char>| #[trigger] texts(names@).contains(k) <==> given.contains(k),
            given.no_duplicates() ==> texts(names@).no_duplicates(),
        decreases names.len() - i,
    {
        let ghost before = texts(names@);
        let ghost x = before[i as int];
        let ghost prefix = before.take(i as int);
        let mut j: usize = i;
        while j > 0 && !text_at_or_before(names[j - 1].as_str(), names[i].as_str())
            invariant
                0 <= j <= i < names.len(),
                before == texts(names@),
                x == before[i as int],
                forall|k: int| j <= k < i ==> !text_le(#[trigger] before[k], x),
            decreases j,
        {
            j -= 1;
        }
        let name = names.remove(i);
        names.insert(j, name);
        proof {
            let after = texts(names@);
            assert(after =~= before.remove(i as int).insert(j as int, x));
            lemma_moved(before, i as int, j as int);
            assert(forall|k: int| j <= k < prefix.len() ==> prefix[k] == before[k]);
            if j > 0 {
                assert(prefix[j - 1] == before[j - 1]);
            }
            lemma_placed(prefix, x, j as int);
            assert(after.take(i + 1) =~= prefix.insert(j as int, x));
        }
        i += 1;
    }
    assert(texts(names@).take(i as int) =~= texts(names@));
}

/// Whether `order` lists each key of `entries` once, and nothing else.
pub open spec fn enumerates<V>(order: Seq<Seq<char>>, entries: Map<Seq<char>, V>) -> bool {
    &&& order.no_duplicates()
    &&& forall|k: Seq<char>| #[trigger] order.contains(k) <==> entries.contains_key(k)
}

/// Whether `order` lists each key of `entries` once and nothing else, in
/// ascending order. A table has one such order.
pub open spec fn lists_in_order<V>(order: Seq<Seq<char>>, entries: Map<Seq<char>, V>) -> bool {
    enumerates(order, entries) && ascending(order)
}

/// Two orders that list the keys of one table in ascending order are equal.
pub proof fn lemma_one_order<V>(first: Seq<Seq<char>>, second: Seq<Seq<char>>, entries: Map<Seq<char>, V>)
    requires
        lists_in_order(first, entries),
        lists_in_order(second, entries),
    ensures
        first == second,
{
    assert forall|k: Seq<char>| #[trigger] first.contains(k) <==> second.contains(k) by {
        assert(first.contains(k) <==> entries.contains_key(k));
        assert(second.contains(k) <==> entries.contains_key(k));
    }
    lemma_ascending_unique(first, second);
}

/// The keys of a table in ascending order. It is what every listing of the
/// keys in ascending order is, where there is one; a table of finitely many
/// entries has one.
pub open spec fn key_order<V>(entries: Map<Seq<char>, V>) -> Seq<Seq<char>> {
    choose|order: Seq<Seq<char>>| lists_in_order(order, entries)
}

/// A listing of the keys of a table in ascending order is the table's key
/// order.
pub proof fn lemma_key_order<V>(order: Seq<Seq<char>>, entries: Map<Seq<char>, V>)
    requires
        lists_in_order(order, entries),
    ensures
        key_order(entries) == order,
{
    lemma_one_order(order, key_order(entries), entries);
}

} // verus!
