//! The order in which moves are listed: the most frequent first, and among
//! equally frequent ones by their notation, as texts compare.

use crate::text::chars_of;
use vstd::prelude::*;

verus! {

/// Whether the text `a` comes before the text `b`: at the first place where
/// they differ `a` has the smaller character, or `a` ends there and `b` goes
/// on.
pub open spec fn text_before(a: Seq<char>, b: Seq<char>) -> bool
    decreases a.len(),
{
    if b.len() == 0 {
        false
    } else if a.len() == 0 {
        true
    } else if a[0] != b[0] {
        a[0] < b[0]
    } else {
        text_before(a.drop_first(), b.drop_first())
    }
}

/// No text comes before itself.
pub proof fn lemma_text_before_irreflexive(a: Seq<char>)
    ensures
        !text_before(a, a),
    decreases a.len(),
{
    if a.len() > 0 {
        lemma_text_before_irreflexive(a.drop_first());
    }
}

/// Of two different texts one comes before the other.
pub proof fn lemma_text_before_total(a: Seq<char>, b: Seq<char>)
    ensures
        text_before(a, b) || text_before(b, a) || a == b,
        !(text_before(a, b) && text_before(b, a)),
    decreases a.len(),
{
    if a.len() == 0 || b.len() == 0 {
        if a.len() == 0 && b.len() == 0 {
            assert(a =~= b);
        }
    } else if a[0] == b[0] {
        lemma_text_before_total(a.drop_first(), b.drop_first());
        if a.drop_first() == b.drop_first() {
            assert(a =~= seq![a[0]] + a.drop_first());
            assert(b =~= seq![b[0]] + b.drop_first());
        }
    }
}

/// The order of texts is transitive.
pub proof fn lemma_text_before_transitive(a: Seq<char>, b: Seq<char>, c: Seq<char>)
    requires
        text_before(a, b),
        text_before(b, c),
    ensures
        text_before(a, c),
    decreases a.len(),
{
    if a.len() > 0 && a[0] == b[0] && b[0] == c[0] {
        lemma_text_before_transitive(a.drop_first(), b.drop_first(), c.drop_first());
    }
}

/// Whether the text `a` comes before the text `b`.
pub fn comes_before(a: &str, b: &str) -> (out: bool)
    ensures
        out == text_before(a@, b@),
{
    let left = chars_of(a);
    let right = chars_of(b);
    let mut i: usize = 0;
    assert(a@.skip(0) =~= a@);
    assert(b@.skip(0) =~= b@);
    while i < left.len() && i < right.len()
        invariant
            i <= left.len(),
            i <= right.len(),
            left@ == a@,
            right@ == b@,
            text_before(a@, b@) == text_before(a@.skip(i as int), b@.skip(i as int)),
        decreases left.len() - i,
    {
        let ghost rest_a = a@.skip(i as int);
        let ghost rest_b = b@.skip(i as int);
        assert(rest_a[0] == left[i as int]);
        assert(rest_b[0] == right[i as int]);
        if left[i] != right[i] {
            return left[i] < right[i];
        }
        assert(rest_a.drop_first() =~= a@.skip(i + 1));
        assert(rest_b.drop_first() =~= b@.skip(i + 1));
        i += 1;
    }
    i < right.len()
}

/// What a move is ordered by: how often it is played, and its notation.
pub struct RankKey {
    pub frequency: u32,
    pub san: Seq<char>,
}

/// Whether a move with key `a` is listed before one with key `b`: it is
/// played more often, or as often and its notation comes first.
pub open spec fn ranks_before(a: RankKey, b: RankKey) -> bool {
    a.frequency > b.frequency || (a.frequency == b.frequency && text_before(a.san, b.san))
}

/// Whether `keys` is in order: no key is listed before an earlier one.
pub open spec fn in_rank_order(keys: Seq<RankKey>) -> bool {
    forall|i: int, j: int|
        0 <= i < j < keys.len() ==> !ranks_before(#[trigger] keys[j], #[trigger] keys[i])
}

/// The place that `key` takes in the ordered `keys`: behind every key that
/// is not listed after it, so that among equals the one that came first
/// stays first.
pub open spec fn place_of(keys: Seq<RankKey>, key: RankKey) -> int
    decreases keys.len(),
{
    if keys.len() > 0 && ranks_before(key, keys.last()) {
        place_of(keys.drop_last(), key)
    } else {
        keys.len() as int
    }
}

/// The order in which the items with keys `keys` are listed, as the indices
/// of the items: index `k` is put into what the items before it give, at the
/// place that its key takes there.
pub open spec fn ranking(keys: Seq<RankKey>) -> Seq<int>
    decreases keys.len(),
{
    if keys.len() == 0 {
        Seq::empty()
    } else {
        let earlier = ranking(keys.drop_last());
        let placed = earlier.map_values(|i: int| keys[i]);
        earlier.insert(place_of(placed, keys.last()), keys.len() - 1)
    }
}

/// The place of a key lies within the list, every key from it on is listed
/// after the key, and the one just before it is not.
pub proof fn lemma_place_of(keys: Seq<RankKey>, key: RankKey)
    ensures
        0 <= place_of(keys, key) <= keys.len(),
        forall|i: int| place_of(keys, key) <= i < keys.len() ==> ranks_before(key, #[trigger] keys[i]),
        place_of(keys, key) > 0 ==> !ranks_before(key, keys[place_of(keys, key) - 1]),
    decreases keys.len(),
{
    if keys.len() > 0 && ranks_before(key, keys.last()) {
        lemma_place_of(keys.drop_last(), key);
        let shorter = keys.drop_last();
        assert forall|i: int| place_of(keys, key) <= i < keys.len() implies ranks_before(
            key,
            #[trigger] keys[i],
        ) by {
            if i < shorter.len() {
                assert(shorter[i] == keys[i]);
            }
        }
        if place_of(keys, key) > 0 {
            assert(shorter[place_of(keys, key) - 1] == keys[place_of(keys, key) - 1]);
        }
    }
}

/// The order of keys is transitive, and so is its complement.
pub proof fn lemma_ranks_before_order(a: RankKey, b: RankKey, c: RankKey)
    ensures
        ranks_before(a, b) && ranks_before(b, c) ==> ranks_before(a, c),
        !ranks_before(b, a) && !ranks_before(c, b) ==> !ranks_before(c, a),
        !ranks_before(a, a),
{
    lemma_text_before_irreflexive(a.san);
    lemma_text_before_total(a.san, b.san);
    lemma_text_before_total(b.san, c.san);
    lemma_text_before_total(a.san, c.san);
    if text_before(a.san, b.san) && text_before(b.san, c.san) {
        lemma_text_before_transitive(a.san, b.san, c.san);
    }
    if text_before(c.san, b.san) && text_before(b.san, a.san) {
        lemma_text_before_transitive(c.san, b.san, a.san);
    }
    if text_before(c.san, a.san) && text_before(a.san, b.san) {
        lemma_text_before_transitive(c.san, a.san, b.san);
    }
    if text_before(b.san, c.san) && text_before(c.san, a.san) {
        lemma_text_before_transitive(b.san, c.san, a.san);
    }
}

/// Putting a key at its place keeps an ordered list ordered.
pub proof fn lemma_insert_keeps_order(keys: Seq<RankKey>, key: RankKey)
    requires
        in_rank_order(keys),
    ensures
        in_rank_order(keys.insert(place_of(keys, key), key)),
{
    lemma_place_of(keys, key);
    let p = place_of(keys, key);
    let after = keys.insert(p, key);
    assert forall|i: int, j: int| 0 <= i < j < after.len() implies !ranks_before(
        #[trigger] after[j],
        #[trigger] after[i],
    ) by {
        if j == p {
            // after[i] is an earlier key, at most the one just before the place.
            assert(after[i] == keys[i]);
            if i < p - 1 {
                assert(!ranks_before(keys[p - 1], keys[i]));
            }
            lemma_ranks_before_order(keys[i], keys[p - 1], key);
            lemma_ranks_before_order(key, keys[i], keys[i]);
        } else if i == p {
            assert(after[j] == keys[j - 1]);
            assert(ranks_before(key, keys[j - 1]));
            lemma_ranks_before_order(key, keys[j - 1], key);
        } else {
            let a = if i < p {
                i
            } else {
                i - 1
            };
            let b = if j < p {
                j
            } else {
                j - 1
            };
            assert(after[i] == keys[a]);
            assert(after[j] == keys[b]);
        }
    }
}

/// The listing holds every index once, and lists the keys in order.
pub proof fn lemma_ranking(keys: Seq<RankKey>)
    ensures
        ranking(keys).len() == keys.len(),
        forall|k: int| 0 <= k < keys.len() ==> 0 <= #[trigger] ranking(keys)[k] < keys.len(),
        forall|i: int| 0 <= i < keys.len() ==> #[trigger] ranking(keys).contains(i),
        ranking(keys).no_duplicates(),
        in_rank_order(ranking(keys).map_values(|i: int| keys[i])),
    decreases keys.len(),
{
    if keys.len() > 0 {
        let shorter = keys.drop_last();
        lemma_ranking(shorter);
        let earlier = ranking(shorter);
        let placed = earlier.map_values(|i: int| keys[i]);
        let placed_short = earlier.map_values(|i: int| shorter[i]);
        assert(placed =~= placed_short);
        let last = keys.len() - 1;
        let p = place_of(placed, keys.last());
        lemma_place_of(placed, keys.last());
        lemma_insert_keeps_order(placed, keys.last());
        let listing = ranking(keys);
        assert(listing == earlier.insert(p, last));
        assert(listing.map_values(|i: int| keys[i]) =~= placed.insert(p, keys.last()));
        assert forall|i: int| 0 <= i < keys.len() implies #[trigger] listing.contains(i) by {
            if i == last {
                assert(listing[p] == last);
            } else {
                assert(earlier.contains(i));
                let k = choose|k: int| 0 <= k < earlier.len() && earlier[k] == i;
                if k < p {
                    assert(listing[k] == i);
                } else {
                    assert(listing[k + 1] == i);
                }
            }
        }
        assert forall|a: int, b: int| 0 <= a < listing.len() && 0 <= b < listing.len() && a
            != b implies listing[a] != listing[b] by {
            let x = if a < p {
                a
            } else {
                a - 1
            };
            let y = if b < p {
                b
            } else {
                b - 1
            };
            if a != p && b != p {
                assert(listing[a] == earlier[x]);
                assert(listing[b] == earlier[y]);
            } else if a == p {
                assert(listing[b] == earlier[y]);
            } else {
                assert(listing[a] == earlier[x]);
            }
        }
    }
}

/// Among moves with equal keys the one that came first is listed first.
pub proof fn lemma_ranking_is_stable(keys: Seq<RankKey>, a: int, b: int)
    requires
        0 <= a < b < ranking(keys).len(),
        !ranks_before(keys[ranking(keys)[a]], keys[ranking(keys)[b]]),
        ranking(keys).len() == keys.len(),
    ensures
        ranking(keys)[a] < ranking(keys)[b],
    decreases keys.len(),
{
    lemma_ranking(keys);
    let shorter = keys.drop_last();
    lemma_ranking(shorter);
    let earlier = ranking(shorter);
    let placed = earlier.map_values(|i: int| keys[i]);
    let last = keys.len() - 1;
    let p = place_of(placed, keys.last());
    lemma_place_of(placed, keys.last());
    let listing = ranking(keys);
    if b == p {
        assert(listing[a] == earlier[a]);
    } else if a == p {
        // Everything behind the place is listed after the new key.
        assert(listing[b] == earlier[b - 1]);
        assert(placed[b - 1] == keys[earlier[b - 1]]);
        assert(ranks_before(keys.last(), placed[b - 1]));
    } else {
        let x = if a < p {
            a
        } else {
            a - 1
        };
        let y = if b < p {
            b
        } else {
            b - 1
        };
        assert(listing[a] == earlier[x]);
        assert(listing[b] == earlier[y]);
        assert(shorter[earlier[x]] == keys[earlier[x]]);
        assert(shorter[earlier[y]] == keys[earlier[y]]);
        lemma_ranking_is_stable(shorter, x, y);
    }
}

// ---------------------------------------------------------------------------
// Ordering a list
// ---------------------------------------------------------------------------

/// What a move is ordered by.
#[derive(Debug)]
pub struct SortKey {
    pub frequency: u32,
    pub san: String,
}

impl View for SortKey {
    type V = RankKey;

    open spec fn view(&self) -> RankKey {
        RankKey { frequency: self.frequency, san: self.san@ }
    }
}

/// The keys of `keys`, one by one.
pub open spec fn keys_of(keys: Seq<SortKey>) -> Seq<RankKey> {
    Seq::new(keys.len(), |i: int| keys[i]@)
}

/// The indices of `order` as numbers.
pub open spec fn indices(order: Seq<usize>) -> Seq<int> {
    Seq::new(order.len(), |i: int| order[i] as int)
}

/// Whether a move with key `a` is listed before one with key `b`.
pub fn listed_before(a: &SortKey, b: &SortKey) -> (out: bool)
    ensures
        out == ranks_before(a@, b@),
{
    a.frequency > b.frequency || (a.frequency == b.frequency && comes_before(
        a.san.as_str(),
        b.san.as_str(),
    ))
}

/// The order in which items with the keys `keys` are listed: the index of
/// the item that comes first, then of the one that comes second, and so on.
pub fn ranking_of(keys: &Vec<SortKey>) -> (out: Vec<usize>)
    ensures
        indices(out@) == ranking(keys_of(keys@)),
        out.len() == keys.len(),
        forall|k: int| 0 <= k < out.len() ==> (#[trigger] out[k]) < keys.len(),
        indices(out@).no_duplicates(),
{
    let ghost all = keys_of(keys@);
    let mut order: Vec<usize> = Vec::new();
    let mut k: usize = 0;
    assert(all.take(0) =~= Seq::<RankKey>::empty());
    assert(indices(order@) =~= ranking(all.take(0)));
    while k < keys.len()
        invariant
            k <= keys.len(),
            all == keys_of(keys@),
            order.len() == k,
            indices(order@) == ranking(all.take(k as int)),
            forall|j: int| 0 <= j < order.len() ==> (#[trigger] order[j]) < k,
        decreases keys.len() - k,
    {
        let ghost shorter = all.take(k as int);
        let ghost longer = all.take(k + 1);
        let ghost earlier = indices(order@);
        let ghost placed = earlier.map_values(|i: int| longer[i]);
        assert(longer.drop_last() =~= shorter);
        assert(longer.last() == keys[k as int]@);
        let mut p: usize = order.len();
        assert(placed.take(p as int) =~= placed);
        while p > 0 && listed_before(&keys[k], &keys[order[p - 1]])
            invariant
                p <= order.len(),
                k < keys.len(),
                order.len() == k,
                all == keys_of(keys@),
                longer == all.take(k + 1),
                earlier == indices(order@),
                placed == earlier.map_values(|i: int| longer[i]),
                forall|j: int| 0 <= j < order.len() ==> (#[trigger] order[j]) < k,
                place_of(placed, keys[k as int]@) == place_of(
                    placed.take(p as int),
                    keys[k as int]@,
                ),
            decreases p,
        {
            assert(placed.take(p as int).drop_last() =~= placed.take(p - 1));
            p -= 1;
        }
        proof {
            assert(placed.take(order.len() as int) =~= placed);
            if p > 0 {
                let front = placed.take(p as int);
                assert(front.last() == longer[order[p - 1] as int]);
                assert(longer[order[p - 1] as int] == keys[order[p - 1] as int]@);
            }
        }
        let ghost before = order@;
        order.insert(p, k);
        proof {
            assert(indices(order@) =~= earlier.insert(p as int, k as int));
            assert forall|j: int| 0 <= j < order.len() implies (#[trigger] order[j]) < k + 1 by {
                if j < p {
                    assert(order[j] == before[j]);
                } else if j > p {
                    assert(order[j] == before[j - 1]);
                }
            }
        }
        k += 1;
    }
    proof {
        assert(all.take(keys.len() as int) =~= all);
        lemma_ranking(all);
    }
    order
}

/// The items `items` in the order `order`: the item whose index `order`
/// names first, then the one it names second, and so on.
pub open spec fn arranged<T>(items: Seq<T>, order: Seq<usize>) -> Seq<T> {
    Seq::new(order.len(), |i: int| items[order[i] as int])
}

/// `items` listed by the keys `keys`, item `i` having the key `keys[i]`.
pub open spec fn listed_by<T>(items: Seq<T>, keys: Seq<RankKey>) -> Seq<T> {
    let order = ranking(keys);
    Seq::new(order.len(), |i: int| items[order[i]])
}

/// Lists `items` by the keys `keys`, item `i` having the key `keys[i]`:
/// from the most to the least frequent, equally frequent ones by notation,
/// and items equal in both as they came. There must be a key for each item
/// and no more.
pub fn list_by_rank<T>(items: Vec<T>, keys: &Vec<SortKey>) -> (out: Option<Vec<T>>)
    ensures
        items.len() == keys.len() ==> (out matches Some(listed) && listed@ == listed_by(
            items@,
            keys_of(keys@),
        )),
        items.len() != keys.len() ==> out is None,
{
    if items.len() != keys.len() {
        return None;
    }
    let ghost given = items@;
    let order = ranking_of(keys);
    let listed = arrange(items, &order);
    proof {
        assert forall|k: int| 0 <= k < order.len() implies listed@[k] == listed_by(
            given,
            keys_of(keys@),
        )[k] by {
            assert(indices(order@)[k] == order[k] as int);
        }
        assert(listed@ =~= listed_by(given, keys_of(keys@)));
    }
    Some(listed)
}

/// Puts `items` in the order that `order` gives, which must name every item
/// once.
pub(crate) fn arrange<T>(items: Vec<T>, order: &Vec<usize>) -> (out: Vec<T>)
    requires
        order.len() == items.len(),
        forall|k: int| 0 <= k < order.len() ==> (#[trigger] order[k]) < items.len(),
        indices(order@).no_duplicates(),
    ensures
        out@ == arranged(items@, order@),
{
    let ghost given = items@;
    let n = items.len();
    let mut slots: Vec<Option<T>> = Vec::new();
    let mut items = items;
    // Items are taken from the back, so the slots are filled in reverse.
    let mut filled: usize = 0;
    while filled < n
        invariant
            filled <= n,
            n == given.len(),
            items.len() == n - filled,
            slots.len() == filled,
            forall|j: int| 0 <= j < items.len() ==> items[j] == given[j],
            forall|j: int| 0 <= j < filled ==> #[trigger] slots[j] == Some(given[n - 1 - j]),
        decreases n - filled,
    {
        let item = items.pop();
        match item {
            Some(item) => {
                slots.push(Some(item));
            },
            None => {},
        }
        filled += 1;
    }
    let mut out: Vec<T> = Vec::new();
    let mut i: usize = 0;
    while i < order.len()
        invariant
            i <= order.len(),
            order.len() == n,
            n == given.len(),
            slots.len() == n,
            out.len() == i,
            forall|k: int| 0 <= k < order.len() ==> (#[trigger] order[k]) < n,
            indices(order@).no_duplicates(),
            forall|j: int| 0 <= j < i ==> #[trigger] out[j] == given[order[j] as int],
            forall|j: int|
                0 <= j < n ==> #[trigger] slots[j] == (if exists|k: int|
                    0 <= k < i && order[k] == n - 1 - j {
                    None
                } else {
                    Some(given[n - 1 - j])
                }),
        decreases order.len() - i,
    {
        let at = n - 1 - order[i];
        let ghost before = slots@;
        proof {
            if exists|k: int| 0 <= k < i && order[k] == n - 1 - at {
                let k = choose|k: int| 0 <= k < i && order[k] == n - 1 - at;
                assert(indices(order@)[k] == indices(order@)[i as int]);
            }
            assert(slots[at as int] == Some(given[n - 1 - at]));
        }
        let mut taken: Option<T> = None;
        core::mem::swap(&mut slots[at], &mut taken);
        match taken {
            Some(item) => {
                out.push(item);
            },
            None => {},
        }
        proof {
            assert forall|j: int| 0 <= j < n implies #[trigger] slots[j] == (if exists|k: int|
                0 <= k < i + 1 && order[k] == n - 1 - j {
                None
            } else {
                Some(given[n - 1 - j])
            }) by {
                if j == at {
                    assert(order[i as int] == n - 1 - j);
                } else {
                    assert(slots[j] == before[j]);
                    if exists|k: int| 0 <= k < i + 1 && order[k] == n - 1 - j {
                        let k = choose|k: int| 0 <= k < i + 1 && order[k] == n - 1 - j;
                        assert(k < i);
                    }
                }
            }
        }
        i += 1;
    }
    assert(out@ =~= arranged(given, order@));
    out
}


} // verus!
