//! Sets of Goofspiel cards (values 1..=13) held as `u16` bitmasks: bit `c`
//! is set when card `c` is in the set.
use vstd::prelude::*;

verus! {

/// Card `c` is in the set `m`.
pub open spec fn holds_card(m: u16, c: u16) -> bool {
    c < 16 && (m >> c) & 1u16 == 1u16
}

/// Number of cards of `m` below `x` (for `x <= 16`).
pub open spec fn cnt(m: u16, x: nat) -> nat
    decreases x,
{
    if x == 0 {
        0
    } else {
        cnt(m, (x - 1) as nat) + if holds_card(m, (x - 1) as u16) {
            1nat
        } else {
            0nat
        }
    }
}

/// Number of cards in `m`.
pub open spec fn popcount(m: u16) -> nat {
    cnt(m, 16)
}

/// Number of entries of `s` below `x`.
pub open spec fn count_less(s: Seq<u8>, x: int) -> nat
    decreases s.len(),
{
    if s.len() == 0 {
        0
    } else {
        count_less(s.drop_last(), x) + if (s.last() as int) < x {
            1nat
        } else {
            0nat
        }
    }
}

/// Every entry is a card value below 16.
pub open spec fn small_cards(s: Seq<u8>) -> bool {
    forall|i: int| 0 <= i < s.len() ==> (#[trigger] s[i]) < 16
}

/// `m` is the set of the entries of `s`.
pub open spec fn mask_of(s: Seq<u8>, m: u16) -> bool {
    forall|c: u16| c < 16 ==> (holds_card(m, c) <==> s.contains(c as u8))
}

// ---------------------------------------------------------------- bit lemmas

/// Adding card `c` to a hand adds exactly that card.
pub proof fn lemma_has_or(m: u16, c: u16, i: u16)
    requires
        c < 16,
        i < 16,
    ensures
        holds_card(m | (1u16 << c), i) == (holds_card(m, i) || i == c),
{
    assert((((m | (1u16 << c)) >> i) & 1u16 == 1u16) == (((m >> i) & 1u16 == 1u16) || i == c))
        by (bit_vector)
        requires
            c < 16,
            i < 16,
    ;
}

/// Taking card `c` out of a hand takes out exactly that card.
pub proof fn lemma_has_clear(m: u16, c: u16, i: u16)
    requires
        c < 16,
        i < 16,
    ensures
        holds_card(m & !(1u16 << c), i) == (holds_card(m, i) && i != c),
{
    assert((((m & !(1u16 << c)) >> i) & 1u16 == 1u16) == (((m >> i) & 1u16 == 1u16) && i != c))
        by (bit_vector)
        requires
            c < 16,
            i < 16,
    ;
}

/// The empty hand holds no card.
pub proof fn lemma_has_zero(i: u16)
    ensures
        !holds_card(0, i),
{
    assert((0u16 >> i) & 1u16 != 1u16) by (bit_vector);
}

/// The hand of the single card `c` holds only that card.
pub proof fn lemma_has_one(c: u16, i: u16)
    requires
        c < 16,
        i < 16,
    ensures
        holds_card(1u16 << c, i) == (i == c),
{
    assert((((1u16 << c) >> i) & 1u16 == 1u16) == (i == c)) by (bit_vector)
        requires
            c < 16,
            i < 16,
    ;
}

/// A mask with no bits below 16 is empty.
pub proof fn lemma_empty_mask(m: u16)
    requires
        forall|i: u16| i < 16 ==> !holds_card(m, i),
    ensures
        m == 0,
{
    assert(forall|i: u16| i < 16 ==> ((m >> i) & 1u16 != 1u16) ==> true);
    assert(holds_card(m, 0) == false);
    assert(holds_card(m, 1) == false);
    assert(holds_card(m, 2) == false);
    assert(holds_card(m, 3) == false);
    assert(holds_card(m, 4) == false);
    assert(holds_card(m, 5) == false);
    assert(holds_card(m, 6) == false);
    assert(holds_card(m, 7) == false);
    assert(holds_card(m, 8) == false);
    assert(holds_card(m, 9) == false);
    assert(holds_card(m, 10) == false);
    assert(holds_card(m, 11) == false);
    assert(holds_card(m, 12) == false);
    assert(holds_card(m, 13) == false);
    assert(holds_card(m, 14) == false);
    assert(holds_card(m, 15) == false);
    assert(m == 0) by (bit_vector)
        requires
            (m >> 0u16) & 1u16 != 1u16,
            (m >> 1u16) & 1u16 != 1u16,
            (m >> 2u16) & 1u16 != 1u16,
            (m >> 3u16) & 1u16 != 1u16,
            (m >> 4u16) & 1u16 != 1u16,
            (m >> 5u16) & 1u16 != 1u16,
            (m >> 6u16) & 1u16 != 1u16,
            (m >> 7u16) & 1u16 != 1u16,
            (m >> 8u16) & 1u16 != 1u16,
            (m >> 9u16) & 1u16 != 1u16,
            (m >> 10u16) & 1u16 != 1u16,
            (m >> 11u16) & 1u16 != 1u16,
            (m >> 12u16) & 1u16 != 1u16,
            (m >> 13u16) & 1u16 != 1u16,
            (m >> 14u16) & 1u16 != 1u16,
            (m >> 15u16) & 1u16 != 1u16,
    ;
}

// ---------------------------------------------------------------- counting lemmas

/// At most `x` cards lie below `x`.
pub proof fn lemma_cnt_bounded(m: u16, x: nat)
    ensures
        cnt(m, x) <= x,
    decreases x,
{
    if x > 0 {
        lemma_cnt_bounded(m, (x - 1) as nat);
    }
}

/// More cards lie below a higher bound.
pub proof fn lemma_cnt_mono(m: u16, x: nat, y: nat)
    requires
        x <= y,
    ensures
        cnt(m, x) <= cnt(m, y),
    decreases y,
{
    if x < y {
        lemma_cnt_mono(m, x, (y - 1) as nat);
    }
}

/// Cards of `m` strictly between: a card at `x` makes the count at `y > x` larger.
pub proof fn lemma_cnt_strict(m: u16, x: u16, y: nat)
    requires
        holds_card(m, x),
        x < y,
    ensures
        cnt(m, x as nat) < cnt(m, y),
{
    lemma_cnt_mono(m, (x + 1) as nat, y);
}

/// Adding a card that is absent raises the count above it by one.
pub proof fn lemma_cnt_insert(m: u16, c: u16, x: nat)
    requires
        c < 16,
        !holds_card(m, c),
        x <= 16,
    ensures
        cnt(m | (1u16 << c), x) == cnt(m, x) + if (c as nat) < x {
            1nat
        } else {
            0nat
        },
    decreases x,
{
    if x > 0 {
        lemma_cnt_insert(m, c, (x - 1) as nat);
        lemma_has_or(m, c, (x - 1) as u16);
    }
}

/// Removing a present card lowers the count above it by one.
pub proof fn lemma_cnt_remove(m: u16, c: u16, x: nat)
    requires
        c < 16,
        holds_card(m, c),
        x <= 16,
    ensures
        cnt(m & !(1u16 << c), x) + if (c as nat) < x {
            1nat
        } else {
            0nat
        } == cnt(m, x),
    decreases x,
{
    if x > 0 {
        lemma_cnt_remove(m, c, (x - 1) as nat);
        lemma_has_clear(m, c, (x - 1) as u16);
    }
}

/// The empty hand has no card below any bound.
pub proof fn lemma_cnt_zero(x: nat)
    requires
        x <= 16,
    ensures
        cnt(0, x) == 0,
    decreases x,
{
    if x > 0 {
        lemma_cnt_zero((x - 1) as nat);
        lemma_has_zero((x - 1) as u16);
    }
}

/// Counting below `x` on a list without repeats counts the cards of its mask below `x`.
pub proof fn lemma_count_less_mask(s: Seq<u8>, m: u16, x: nat)
    requires
        s.no_duplicates(),
        small_cards(s),
        mask_of(s, m),
        x <= 16,
    ensures
        count_less(s, x as int) == cnt(m, x),
    decreases s.len(),
{
    if s.len() == 0 {
        assert forall|c: u16| c < 16 implies !holds_card(m, c) by {
            assert(!s.contains(c as u8));
        }
        lemma_empty_mask(m);
        lemma_cnt_zero(x);
    } else {
        let t = s.drop_last();
        let c = s.last() as u16;
        let mt = m & !(1u16 << c);
        assert(s[s.len() - 1] < 16);
        assert(s.contains(c as u8));
        assert(holds_card(m, c));
        assert(t.no_duplicates());
        assert forall|i: int| 0 <= i < t.len() implies (#[trigger] t[i]) < 16 by {
            assert(t[i] == s[i]);
        }
        assert forall|d: u16| d < 16 implies (holds_card(mt, d) <==> t.contains(d as u8)) by {
            lemma_has_clear(m, c, d);
            if t.contains(d as u8) {
                let k = choose|k: int| 0 <= k < t.len() && t[k] == d as u8;
                assert(s[k] == d as u8);
                assert(s.contains(d as u8));
                assert(k != s.len() - 1);
                assert(d != c);
            }
            if holds_card(mt, d) {
                assert(s.contains(d as u8));
                let k = choose|k: int| 0 <= k < s.len() && s[k] == d as u8;
                assert(k != s.len() - 1);
                assert(t[k] == d as u8);
            }
        }
        lemma_count_less_mask(t, mt, x);
        lemma_cnt_remove(m, c, x);
    }
}

/// A list without repeats of small cards has as many entries as its mask has cards.
pub proof fn lemma_len_popcount(s: Seq<u8>, m: u16)
    requires
        s.no_duplicates(),
        small_cards(s),
        mask_of(s, m),
    ensures
        s.len() == popcount(m),
{
    lemma_count_less_mask(s, m, 16);
    lemma_count_less_all(s);
}

/// Every small card is below 16.
pub proof fn lemma_count_less_all(s: Seq<u8>)
    requires
        small_cards(s),
    ensures
        count_less(s, 16) == s.len(),
    decreases s.len(),
{
    if s.len() > 0 {
        assert(s[s.len() - 1] < 16);
        let t = s.drop_last();
        assert forall|i: int| 0 <= i < t.len() implies (#[trigger] t[i]) < 16 by {
            assert(t[i] == s[i]);
        }
        lemma_count_less_all(t);
    }
}

/// A mask with no cards is empty.
pub proof fn lemma_empty_mask_of_count(m: u16)
    requires
        popcount(m) == 0,
    ensures
        m == 0,
{
    assert forall|i: u16| i < 16 implies !holds_card(m, i) by {
        if holds_card(m, i) {
            lemma_cnt_strict(m, i, 16);
        }
    }
    lemma_empty_mask(m);
}

/// A non-empty mask has a card.
pub proof fn lemma_count_of_nonempty(m: u16)
    requires
        m != 0,
    ensures
        popcount(m) > 0,
{
    if popcount(m) == 0 {
        lemma_empty_mask_of_count(m);
    }
}

/// Two masks with the same cards below 16 are equal.
pub proof fn lemma_mask_unique(m1: u16, m2: u16)
    requires
        forall|c: u16| c < 16 ==> holds_card(m1, c) == holds_card(m2, c),
    ensures
        m1 == m2,
{
    assert forall|i: u16| i < 16 implies !holds_card(m1 ^ m2, i) by {
        assert(holds_card(m1, i) == holds_card(m2, i));
        assert((((m1 ^ m2) >> i) & 1u16 == 1u16) == (((m1 >> i) & 1u16 == 1u16) != ((m2 >> i) & 1u16 == 1u16)))
            by (bit_vector)
            requires
                i < 16,
        ;
    }
    lemma_empty_mask(m1 ^ m2);
    assert(m1 ^ m2 == 0 ==> m1 == m2) by (bit_vector);
}

/// The mask of the cards of `s`.
pub open spec fn card_mask(s: Seq<u8>) -> u16 {
    choose|m: u16| mask_of(s, m)
}

// ---------------------------------------------------------------- exec

/// Whether card `c` is in `m`.
pub fn has_card(m: u16, c: u16) -> (r: bool)
    requires
        c < 16,
    ensures
        r == holds_card(m, c),
{
    (m >> c) & 1 == 1
}

/// The set of cards in `cards`.
pub fn bm_from_slice(cards: &[u8]) -> (m: u16)
    requires
        small_cards(cards@),
    ensures
        mask_of(cards@, m),
        m == card_mask(cards@),
{
    let mut m: u16 = 0;
    let mut i: usize = 0;
    proof {
        assert forall|c: u16| c < 16 implies (holds_card(m, c) <==> cards@.take(0).contains(c as u8)) by {
            lemma_has_zero(c);
        }
    }
    while i < cards.len()
        invariant
            i <= cards@.len(),
            small_cards(cards@),
            mask_of(cards@.take(i as int), m),
        decreases cards@.len() - i,
    {
        let c = cards[i];
        assert(c < 16);
        let ghost old_m = m;
        let ghost prefix = cards@.take(i as int);
        let ghost next = cards@.take(i + 1);
        m = m | (1u16 << (c as u16));
        proof {
            assert forall|d: u16| d < 16 implies (holds_card(m, d) <==> cards@.take(i + 1).contains(d as u8)) by {
                lemma_has_or(old_m, c as u16, d);
                assert(next =~= prefix.push(c));
                assert(next[i as int] == c);
                assert(holds_card(old_m, d) <==> prefix.contains(d as u8));
                if d == c as u16 {
                    assert(next.contains(d as u8));
                }
                if prefix.contains(d as u8) {
                    let k = choose|k: int| 0 <= k < prefix.len() && prefix[k] == d as u8;
                    assert(next[k] == d as u8);
                }
                if next.contains(d as u8) {
                    let k = choose|k: int| 0 <= k < next.len() && next[k] == d as u8;
                    if k < i {
                        assert(prefix[k] == d as u8);
                    }
                }
            }
        }
        i = i + 1;
    }
    proof {
        assert(cards@.take(cards@.len() as int) =~= cards@);
        let c = card_mask(cards@);
        assert(mask_of(cards@, c));
        lemma_mask_unique(m, c);
    }
    m
}

/// Number of cards of `m` below `x`.
pub fn count_below(m: u16, x: u16) -> (r: u32)
    requires
        x <= 16,
    ensures
        r == cnt(m, x as nat),
        r <= x,
{
    let mut r: u32 = 0;
    let mut i: u16 = 0;
    while i < x
        invariant
            i <= x <= 16,
            r == cnt(m, i as nat),
            r <= i,
        decreases x - i,
    {
        if has_card(m, i) {
            r = r + 1;
        }
        i = i + 1;
    }
    r
}

/// Number of cards in `m`.
pub fn card_count(m: u16) -> (r: u32)
    ensures
        r == popcount(m),
        r <= 16,
{
    count_below(m, 16)
}

/// The card of `m` with exactly `k` cards of `m` below it (the (k+1)-th smallest).
pub fn nth_card(m: u16, k: u32) -> (r: u16)
    requires
        k < popcount(m),
    ensures
        r < 16,
        holds_card(m, r),
        cnt(m, r as nat) == k,
{
    let mut i: u16 = 0;
    let mut seen: u32 = 0;
    while i < 16
        invariant
            i <= 16,
            seen == cnt(m, i as nat),
            seen <= k,
            k < popcount(m),
        decreases 16 - i,
    {
        if has_card(m, i) {
            if seen == k {
                return i;
            }
            seen = seen + 1;
        }
        i = i + 1;
    }
    proof {
        assert(false);
    }
    0
}

/// Removes card `c` from `m`.
pub fn remove_card(m: u16, c: u16) -> (r: u16)
    requires
        c < 16,
    ensures
        forall|i: u16| i < 16 ==> (holds_card(r, i) == (holds_card(m, i) && i != c)),
        holds_card(m, c) ==> popcount(r) + 1 == popcount(m),
{
    proof {
        assert forall|i: u16| i < 16 implies (holds_card(m & !(1u16 << c), i) == (holds_card(m, i) && i != c)) by {
            lemma_has_clear(m, c, i);
        }
        if holds_card(m, c) {
            lemma_cnt_remove(m, c, 16);
        }
    }
    m & !(1u16 << c)
}

/// Adds card `c` to `m`.
pub fn add_card(m: u16, c: u16) -> (r: u16)
    requires
        c < 16,
    ensures
        forall|i: u16| i < 16 ==> (holds_card(r, i) == (holds_card(m, i) || i == c)),
        !holds_card(m, c) ==> popcount(r) == popcount(m) + 1,
{
    proof {
        assert forall|i: u16| i < 16 implies (holds_card(m | (1u16 << c), i) == (holds_card(m, i) || i == c)) by {
            lemma_has_or(m, c, i);
        }
        if !holds_card(m, c) {
            lemma_cnt_insert(m, c, 16);
        }
    }
    m | (1u16 << c)
}

/// The lowest card of `m`, or 16 when `m` is empty.
pub fn lowest_card(m: u16) -> (r: u16)
    ensures
        r <= 16,
        r < 16 ==> holds_card(m, r),
        forall|c: u16| c < r ==> !holds_card(m, c),
{
    let mut i: u16 = 0;
    while i < 16
        invariant
            i <= 16,
            forall|c: u16| c < i ==> !holds_card(m, c),
        decreases 16 - i,
    {
        if has_card(m, i) {
            return i;
        }
        i = i + 1;
    }
    16
}

/// The highest card of a non-empty `m`.
pub fn highest_card(m: u16) -> (r: u16)
    requires
        exists|c: u16| c < 16 && holds_card(m, c),
    ensures
        r < 16,
        holds_card(m, r),
        forall|c: u16| r < c < 16 ==> !holds_card(m, c),
{
    let mut i: u16 = 16;
    while i > 0
        invariant
            i <= 16,
            forall|c: u16| i <= c < 16 ==> !holds_card(m, c),
            exists|c: u16| c < 16 && holds_card(m, c),
        decreases i,
    {
        if has_card(m, i - 1) {
            return i - 1;
        }
        i = i - 1;
    }
    proof {
        let c = choose|c: u16| c < 16 && holds_card(m, c);
        assert(!holds_card(m, c));
    }
    0
}

} // verus!
