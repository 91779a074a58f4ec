//! The board: eight cascades of card tokens, the standard deck, shuffling
//! and the opening deal.

use vstd::prelude::*;
use vstd::multiset::Multiset;
use crate::card::blank;

verus! {

/// The full game state: eight columns of tokens. Row 0 of each column is a
/// special slot (a free cell on columns 0 to 3, a foundation on columns 4 to
/// 7) holding a card or the blank marker; rows 1 and up are the cascade.
pub struct Board {
    pub cascades: Vec<Vec<String>>,
}

/// The columns as a sequence of sequences of token views.
pub open spec fn grid_of(cs: Seq<Vec<String>>) -> Seq<Seq<Seq<char>>> {
    Seq::new(cs.len(), |i: int| Seq::new(cs[i]@.len(), |k: int| cs[i]@[k]@))
}

impl Board {
    /// The token at column `col`, row `row`.
    pub open spec fn tok(self, col: int, row: int) -> Seq<char> {
        self.cascades@[col]@[row]@
    }

    /// Number of rows in column `col`, the slot at row 0 included.
    pub open spec fn col_len(self, col: int) -> int {
        self.cascades@[col]@.len() as int
    }

    /// The board as a sequence of columns of token views.
    pub open spec fn grid(self) -> Seq<Seq<Seq<char>>> {
        grid_of(self.cascades@)
    }

    /// Well-formed: eight columns, each with at least its row-0 slot, and
    /// every token exactly three characters wide.
    pub open spec fn wf(self) -> bool {
        &&& self.cascades@.len() == 8
        &&& forall|i: int| 0 <= i < 8 ==> (#[trigger] self.cascades@[i]@).len() >= 1
        &&& forall|i: int, k: int|
            0 <= i < 8 && 0 <= k < self.cascades@[i]@.len() ==> (#[trigger] self.tok(i, k)).len()
                == 3
    }
}

/// The two-character rank prefix of a token of rank `r`, 1 through 13.
pub open spec fn spec_rank_prefix(r: int) -> Seq<char> {
    if r == 1 {
        seq!['A', ' ']
    } else if r == 2 {
        seq!['2', ' ']
    } else if r == 3 {
        seq!['3', ' ']
    } else if r == 4 {
        seq!['4', ' ']
    } else if r == 5 {
        seq!['5', ' ']
    } else if r == 6 {
        seq!['6', ' ']
    } else if r == 7 {
        seq!['7', ' ']
    } else if r == 8 {
        seq!['8', ' ']
    } else if r == 9 {
        seq!['9', ' ']
    } else if r == 10 {
        seq!['1', '0']
    } else if r == 11 {
        seq!['J', ' ']
    } else if r == 12 {
        seq!['Q', ' ']
    } else {
        seq!['K', ' ']
    }
}

/// The suit glyph of suit index `s`: spades, hearts, clubs, diamonds.
pub open spec fn spec_suit_char(s: int) -> char {
    if s == 0 {
        '♠'
    } else if s == 1 {
        '♥'
    } else if s == 2 {
        '♣'
    } else {
        '♦'
    }
}

/// The token of rank `r` and suit index `s`.
pub open spec fn spec_card(r: int, s: int) -> Seq<char> {
    spec_rank_prefix(r).push(spec_suit_char(s))
}

/// Distinct rank and suit indices give distinct tokens: the first character
/// determines the rank, the third the suit.
proof fn lemma_card_injective(r1: int, s1: int, r2: int, s2: int)
    requires
        1 <= r1 <= 13,
        1 <= r2 <= 13,
        0 <= s1 < 4,
        0 <= s2 < 4,
        spec_card(r1, s1) == spec_card(r2, s2),
    ensures
        r1 == r2,
        s1 == s2,
{
    assert(spec_rank_prefix(r1).len() == 2);
    assert(spec_rank_prefix(r2).len() == 2);
    assert(spec_card(r1, s1)[0] == spec_rank_prefix(r1)[0]);
    assert(spec_card(r2, s2)[0] == spec_rank_prefix(r2)[0]);
    assert(spec_card(r1, s1)[2] == spec_suit_char(s1));
    assert(spec_card(r2, s2)[2] == spec_suit_char(s2));
    assert(spec_rank_prefix(r1)[0] == spec_rank_prefix(r2)[0]);
    assert(spec_suit_char(s1) == spec_suit_char(s2));
}

/// The rank prefix of rank `r`, as a token's first two characters.
fn rank_prefix(r: u8) -> (t: &'static str)
    requires
        1 <= r <= 13,
    ensures
        t@ == spec_rank_prefix(r as int),
{
    let t: &'static str = if r == 1 {
        "A "
    } else if r == 2 {
        "2 "
    } else if r == 3 {
        "3 "
    } else if r == 4 {
        "4 "
    } else if r == 5 {
        "5 "
    } else if r == 6 {
        "6 "
    } else if r == 7 {
        "7 "
    } else if r == 8 {
        "8 "
    } else if r == 9 {
        "9 "
    } else if r == 10 {
        "10"
    } else if r == 11 {
        "J "
    } else if r == 12 {
        "Q "
    } else {
        "K "
    };
    proof {
        reveal_strlit("A ");
        reveal_strlit("2 ");
        reveal_strlit("3 ");
        reveal_strlit("4 ");
        reveal_strlit("5 ");
        reveal_strlit("6 ");
        reveal_strlit("7 ");
        reveal_strlit("8 ");
        reveal_strlit("9 ");
        reveal_strlit("10");
        reveal_strlit("J ");
        reveal_strlit("Q ");
        reveal_strlit("K ");
        assert(t@ =~= spec_rank_prefix(r as int));
    }
    t
}

/// The one-character suit string of suit index `s`.
fn suit_str(s: u8) -> (t: &'static str)
    requires
        s < 4,
    ensures
        t@ == seq![spec_suit_char(s as int)],
{
    let t: &'static str = if s == 0 {
        "♠"
    } else if s == 1 {
        "♥"
    } else if s == 2 {
        "♣"
    } else {
        "♦"
    };
    proof {
        reveal_strlit("♠");
        reveal_strlit("♥");
        reveal_strlit("♣");
        reveal_strlit("♦");
        assert(t@ =~= seq![spec_suit_char(s as int)]);
    }
    t
}

/// The 52-card deck in a fixed order: spades Ace through King, then hearts,
/// clubs and diamonds. All tokens are three characters and pairwise distinct.
pub fn standard_deck() -> (deck: Vec<String>)
    ensures
        deck@.len() == 52,
        forall|i: int| 0 <= i < 52 ==> #[trigger] deck@[i]@ == spec_card(i % 13 + 1, i / 13),
        forall|i: int| 0 <= i < 52 ==> (#[trigger] deck@[i]@).len() == 3,
        forall|i: int, j: int| 0 <= i < j < 52 ==> deck@[i]@ != deck@[j]@,
{
    let mut deck: Vec<String> = Vec::new();
    let mut s: u8 = 0;
    while s < 4
        invariant
            s <= 4,
            deck@.len() == 13 * s,
            forall|i: int|
                0 <= i < deck@.len() ==> #[trigger] deck@[i]@ == spec_card(i % 13 + 1, i / 13),
        decreases 4 - s,
    {
        let mut r: u8 = 1;
        while r <= 13
            invariant
                1 <= r <= 14,
                s < 4,
                deck@.len() == 13 * s + r - 1,
                forall|i: int|
                    0 <= i < deck@.len() ==> #[trigger] deck@[i]@ == spec_card(i % 13 + 1, i / 13),
            decreases 14 - r,
        {
            let tok = String::from_str(rank_prefix(r)).concat(suit_str(s));
            proof {
                assert(tok@ =~= spec_card(r as int, s as int));
                vstd::arithmetic::div_mod::lemma_fundamental_div_mod_converse(
                    13 * s + r - 1,
                    13,
                    s as int,
                    r - 1,
                );
            }
            deck.push(tok);
            r = r + 1;
        }
        s = s + 1;
    }
    proof {
        assert forall|i: int| 0 <= i < 52 implies (#[trigger] deck@[i]@).len() == 3 by {
            assert(deck@[i]@ == spec_card(i % 13 + 1, i / 13));
        }
        assert forall|i: int, j: int| 0 <= i < j < 52 implies deck@[i]@ != deck@[j]@ by {
            vstd::arithmetic::div_mod::lemma_fundamental_div_mod(i, 13);
            vstd::arithmetic::div_mod::lemma_fundamental_div_mod(j, 13);
            if deck@[i]@ == deck@[j]@ {
                lemma_card_injective(i % 13 + 1, i / 13, j % 13 + 1, j / 13);
            }
        }
    }
    deck
}

/// Cards held by one column: every cascade row, plus the row-0 slot when it
/// holds a card rather than the blank marker.
pub open spec fn column_cards(c: Seq<Seq<char>>) -> Multiset<Seq<char>> {
    if c.len() == 0 {
        Multiset::empty()
    } else if c[0] == blank() {
        c.skip(1).to_multiset()
    } else {
        c.skip(1).to_multiset().insert(c[0])
    }
}

/// Cards held by the first `n` columns of a grid.
pub open spec fn cards_in_first(cs: Seq<Seq<Seq<char>>>, n: int) -> Multiset<Seq<char>>
    decreases n,
{
    if n <= 0 {
        Multiset::empty()
    } else {
        cards_in_first(cs, n - 1).add(column_cards(cs[n - 1]))
    }
}

impl Board {
    /// Every card on the board, as a multiset of token views.
    pub open spec fn cards(self) -> Multiset<Seq<char>> {
        cards_in_first(self.grid(), 8)
    }
}

/// Appending a card to a column adds exactly that card to its contents.
proof fn lemma_column_push(c: Seq<Seq<char>>, x: Seq<char>)
    requires
        c.len() >= 1,
    ensures
        column_cards(c.push(x)) =~= column_cards(c).insert(x),
{
    broadcast use vstd::seq_lib::group_to_multiset_ensures;

    assert(c.push(x).skip(1) =~= c.skip(1).push(x));
}

/// Two grids that agree on their first `n` columns hold the same cards there.
pub(crate) proof fn lemma_cards_in_first_congruence(
    cs1: Seq<Seq<Seq<char>>>,
    cs2: Seq<Seq<Seq<char>>>,
    n: int,
)
    requires
        forall|i: int| 0 <= i < n ==> cs1[i] == cs2[i],
    ensures
        cards_in_first(cs1, n) == cards_in_first(cs2, n),
    decreases n,
{
    if n > 0 {
        lemma_cards_in_first_congruence(cs1, cs2, n - 1);
    }
}

/// Pushing one card onto column `t` adds exactly that card to the cards of
/// the first `n` columns.
proof fn lemma_cards_push_column(cs: Seq<Seq<Seq<char>>>, n: int, t: int, x: Seq<char>)
    requires
        0 <= t < n <= cs.len(),
        cs[t].len() >= 1,
    ensures
        cards_in_first(cs.update(t, cs[t].push(x)), n) =~= cards_in_first(cs, n).insert(x),
    decreases n,
{
    let cs2 = cs.update(t, cs[t].push(x));
    if t == n - 1 {
        lemma_cards_in_first_congruence(cs2, cs, n - 1);
        lemma_column_push(cs[t], x);
    } else {
        lemma_cards_push_column(cs, n - 1, t, x);
        assert(cs2[n - 1] == cs[n - 1]);
    }
}

/// Replacing column `t` exchanges exactly that column's contents within the
/// cards of the first `n` columns.
pub(crate) proof fn lemma_cards_exchange(cs: Seq<Seq<Seq<char>>>, n: int, t: int, c2: Seq<Seq<char>>)
    requires
        0 <= t < n <= cs.len(),
    ensures
        cards_in_first(cs.update(t, c2), n).add(column_cards(cs[t])) =~= cards_in_first(
            cs,
            n,
        ).add(column_cards(c2)),
    decreases n,
{
    broadcast use vstd::multiset::group_multiset_axioms;

    let csu = cs.update(t, c2);
    if t == n - 1 {
        lemma_cards_in_first_congruence(csu, cs, n - 1);
        assert(csu[n - 1] == c2);
        assert(cards_in_first(csu, n) == cards_in_first(cs, n - 1).add(column_cards(c2)));
        assert(cards_in_first(cs, n) == cards_in_first(cs, n - 1).add(column_cards(cs[t])));
    } else {
        lemma_cards_exchange(cs, n - 1, t, c2);
        assert(csu[n - 1] == cs[n - 1]);
        assert(cards_in_first(csu, n) == cards_in_first(csu, n - 1).add(column_cards(cs[n - 1])));
        assert(cards_in_first(cs, n) == cards_in_first(cs, n - 1).add(column_cards(cs[n - 1])));
    }
    assert forall|x: Seq<char>|
        #[trigger] cards_in_first(csu, n).add(column_cards(cs[t])).count(x) == cards_in_first(
            cs,
            n,
        ).add(column_cards(c2)).count(x) by {
        if t == n - 1 {
            assert(cards_in_first(csu, n).count(x) == cards_in_first(cs, n - 1).count(x)
                + column_cards(c2).count(x));
            assert(cards_in_first(cs, n).count(x) == cards_in_first(cs, n - 1).count(x)
                + column_cards(cs[t]).count(x));
        } else {
            assert(cards_in_first(csu, n - 1).add(column_cards(cs[t])).count(x) == cards_in_first(
                cs,
                n - 1,
            ).add(column_cards(c2)).count(x));
            assert(cards_in_first(csu, n).count(x) == cards_in_first(csu, n - 1).count(x)
                + column_cards(cs[n - 1]).count(x));
            assert(cards_in_first(cs, n).count(x) == cards_in_first(cs, n - 1).count(x)
                + column_cards(cs[n - 1]).count(x));
        }
    }
    assert(cards_in_first(csu, n).add(column_cards(cs[t])) =~= cards_in_first(cs, n).add(
        column_cards(c2),
    ));
}

/// Splitting a column at row `p` splits its contents: the cards of the
/// truncated column plus the removed suffix.
pub(crate) proof fn lemma_column_split(c: Seq<Seq<char>>, p: int)
    requires
        1 <= p <= c.len(),
    ensures
        column_cards(c) =~= column_cards(c.take(p)).add(c.skip(p).to_multiset()),
{
    assert(c.skip(1) =~= c.take(p).skip(1) + c.skip(p));
    vstd::seq_lib::lemma_multiset_commutative(c.take(p).skip(1), c.skip(p));
    assert(c.take(p)[0] == c[0]);
}

/// Appending a run to a column adds exactly the run's cards.
pub(crate) proof fn lemma_column_append(c: Seq<Seq<char>>, run: Seq<Seq<char>>)
    requires
        c.len() >= 1,
    ensures
        column_cards(c + run) =~= column_cards(c).add(run.to_multiset()),
{
    assert((c + run).skip(1) =~= c.skip(1) + run);
    vstd::seq_lib::lemma_multiset_commutative(c.skip(1), run);
    assert((c + run)[0] == c[0]);
}

/// Blanking a column's occupied row-0 slot removes exactly that card.
pub(crate) proof fn lemma_column_blank0(c: Seq<Seq<char>>)
    requires
        c.len() >= 1,
        c[0] != blank(),
    ensures
        column_cards(c.update(0, blank())).insert(c[0]) =~= column_cards(c),
{
    assert(c.update(0, blank()).skip(1) =~= c.skip(1));
}

/// Writing a card into a column's row-0 slot adds it, and removes whatever
/// card the slot held before.
pub(crate) proof fn lemma_column_replace0(c: Seq<Seq<char>>, x: Seq<char>)
    requires
        c.len() >= 1,
        x != blank(),
    ensures
        c[0] == blank() ==> column_cards(c.update(0, x)) =~= column_cards(c).insert(x),
        c[0] != blank() ==> column_cards(c.update(0, x)).insert(c[0]) =~= column_cards(c).insert(
            x,
        ),
{
    assert(c.update(0, x).skip(1) =~= c.skip(1));
}

/// Columns that hold only their blank row-0 slot hold no cards.
proof fn lemma_cards_in_first_empty(cs: Seq<Seq<Seq<char>>>, n: int)
    requires
        forall|i: int| 0 <= i < n ==> (#[trigger] cs[i]).len() == 1 && cs[i][0] == blank(),
    ensures
        cards_in_first(cs, n) =~= Multiset::<Seq<char>>::empty(),
    decreases n,
{
    broadcast use vstd::seq_lib::group_to_multiset_ensures;

    if n > 0 {
        lemma_cards_in_first_empty(cs, n - 1);
        assert(cs[n - 1].skip(1) =~= Seq::<Seq<char>>::empty());
    }
}

/// A freshly allocated blank marker token.
pub fn blank_token() -> (t: String)
    ensures
        t@ == blank(),
{
    let t = String::from_str("   ");
    proof {
        reveal_strlit("   ");
        assert(t@ =~= blank());
    }
    t
}

/// A deck without repeated tokens deals to a board that holds every deck
/// card exactly once: no duplicates, no omissions.
pub proof fn lemma_deal_exactly_once(dv: Seq<Seq<char>>, b: Board)
    requires
        forall|i: int, j: int| 0 <= i < j < dv.len() ==> dv[i] != dv[j],
        b.cards() == dv.to_multiset(),
    ensures
        forall|i: int| 0 <= i < dv.len() ==> #[trigger] b.cards().count(dv[i]) == 1,
{
    broadcast use vstd::seq_lib::group_to_multiset_ensures;

    assert(dv.no_duplicates());
    dv.lemma_multiset_has_no_duplicates();
    assert forall|i: int| 0 <= i < dv.len() implies #[trigger] b.cards().count(dv[i]) == 1 by {
        assert(dv.contains(dv[i]));
        assert(dv.to_multiset().contains(dv[i]));
    }
}

/// How many of the first `j` deck cards the round-robin deal sends to
/// column `c`: one card goes to column `j' % 8` at each step `j'`.
pub open spec fn dealt(j: int, c: int) -> int
    decreases j,
{
    if j <= 0 {
        0
    } else {
        dealt(j - 1, c) + (if (j - 1) % 8 == c {
            1int
        } else {
            0int
        })
    }
}

/// More cards dealt means no column has fewer.
proof fn lemma_dealt_monotonic(j1: int, j2: int, c: int)
    requires
        0 <= j1 <= j2,
    ensures
        dealt(j1, c) <= dealt(j2, c),
    decreases j2,
{
    if j1 < j2 {
        lemma_dealt_monotonic(j1, j2 - 1, c);
    }
}

/// Closed form for `dealt`: column `c` receives the deck cards at indices
/// `c, c + 8, c + 16, ...`.
proof fn lemma_dealt_closed(j: int, c: int)
    requires
        0 <= c < 8,
        0 <= j,
    ensures
        dealt(j, c) == (if j <= c {
            0int
        } else {
            (j - c - 1) / 8 + 1
        }),
    decreases j,
{
    if j > 0 {
        lemma_dealt_closed(j - 1, c);
        if j - 1 < c {
            vstd::arithmetic::div_mod::lemma_small_mod((j - 1) as nat, 8);
        } else if j - 1 == c {
            vstd::arithmetic::div_mod::lemma_small_mod((j - 1) as nat, 8);
            vstd::arithmetic::div_mod::lemma_fundamental_div_mod_converse(j - c - 1, 8, 0, 0);
        } else {
            let d = j - 1 - c;
            vstd::arithmetic::div_mod::lemma_fundamental_div_mod(d, 8);
            vstd::arithmetic::div_mod::lemma_mod_bound(d, 8);
            let q = d / 8;
            let r = d % 8;
            if r == 0 {
                vstd::arithmetic::div_mod::lemma_fundamental_div_mod_converse(d - 1, 8, q - 1, 7);
                vstd::arithmetic::div_mod::lemma_fundamental_div_mod_converse(j - 1, 8, q, c);
            } else {
                vstd::arithmetic::div_mod::lemma_fundamental_div_mod_converse(d - 1, 8, q, r - 1);
                if r + c < 8 {
                    vstd::arithmetic::div_mod::lemma_fundamental_div_mod_converse(
                        j - 1,
                        8,
                        q,
                        r + c,
                    );
                } else {
                    vstd::arithmetic::div_mod::lemma_fundamental_div_mod_converse(
                        j - 1,
                        8,
                        q + 1,
                        r + c - 8,
                    );
                }
            }
        }
    }
}

/// The deck card at index `j` is the `j / 8`-th card dealt to its column.
proof fn lemma_dealt_div(j: int)
    requires
        0 <= j,
    ensures
        dealt(j, j % 8) == j / 8,
{
    vstd::arithmetic::div_mod::lemma_fundamental_div_mod(j, 8);
    vstd::arithmetic::div_mod::lemma_mod_bound(j, 8);
    let c = j % 8;
    let q = j / 8;
    lemma_dealt_closed(j, c);
    if j <= c {
        vstd::arithmetic::div_mod::lemma_small_mod(j as nat, 8);
        vstd::arithmetic::div_mod::lemma_fundamental_div_mod_converse(j, 8, 0, j);
    } else {
        vstd::arithmetic::div_mod::lemma_fundamental_div_mod_converse(j - c - 1, 8, q - 1, 7);
    }
}

/// Relies on rand's `SliceRandom::shuffle`, a Fisher-Yates shuffle that
/// swaps elements of the slice in place: the result holds exactly the same
/// tokens, rearranged. The arrangement depends on the seed.
#[verifier::external_body]
pub fn shuffle_deck(deck: &mut Vec<String>, seed: u64)
    ensures
        final(deck)@.len() == old(deck)@.len(),
        final(deck)@.map_values(|s: String| s@).to_multiset() == old(deck)@.map_values(
            |s: String| s@,
        ).to_multiset(),
{
    let mut rng = <rand::rngs::StdRng as rand::SeedableRng>::seed_from_u64(seed);
    rand::seq::SliceRandom::shuffle(deck.as_mut_slice(), &mut rng);
}

/// Deal a 52-card deck round-robin across the eight columns: deck card `j`
/// lands in column `j % 8`, above the cards dealt there earlier, with a
/// blank row-0 slot at the bottom of every column. The board holds exactly
/// the deck's cards, each exactly as often as the deck does.
pub fn deal(deck: &Vec<String>) -> (b: Board)
    requires
        deck@.len() == 52,
        forall|i: int| 0 <= i < 52 ==> (#[trigger] deck@[i]@).len() == 3,
    ensures
        b.wf(),
        forall|c: int| 0 <= c < 8 ==> #[trigger] b.tok(c, 0) == blank(),
        forall|c: int| 0 <= c < 4 ==> #[trigger] b.col_len(c) == 8,
        forall|c: int| 4 <= c < 8 ==> #[trigger] b.col_len(c) == 7,
        forall|j: int| 0 <= j < 52 ==> b.tok(j % 8, j / 8 + 1) == (#[trigger] deck@[j])@,
        b.cards() =~= deck@.map_values(|s: String| s@).to_multiset(),
{
    let ghost dv = deck@.map_values(|s: String| s@);
    let mut cascades: Vec<Vec<String>> = Vec::new();
    let mut c: usize = 0;
    while c < 8
        invariant
            c <= 8,
            cascades@.len() == c,
            forall|i: int| 0 <= i < c ==> (#[trigger] cascades@[i]@).len() == 1,
            forall|i: int| 0 <= i < c ==> (#[trigger] cascades@[i]@)[0]@ == blank(),
        decreases 8 - c,
    {
        let mut col: Vec<String> = Vec::new();
        col.push(blank_token());
        cascades.push(col);
        c = c + 1;
    }
    proof {
        broadcast use vstd::seq_lib::group_to_multiset_ensures;

        lemma_cards_in_first_empty(grid_of(cascades@), 8);
        assert(dv.take(0) =~= Seq::<Seq<char>>::empty());
        assert(cards_in_first(grid_of(cascades@), 8) =~= dv.take(0).to_multiset());
    }
    let mut j: usize = 0;
    while j < 52
        invariant
            j <= 52,
            deck@.len() == 52,
            dv == deck@.map_values(|s: String| s@),
            forall|i: int| 0 <= i < 52 ==> (#[trigger] deck@[i]@).len() == 3,
            cascades@.len() == 8,
            forall|i: int|
                0 <= i < 8 ==> (#[trigger] cascades@[i]@).len() == 1 + dealt(j as int, i),
            forall|i: int| 0 <= i < 8 ==> (#[trigger] cascades@[i]@)[0]@ == blank(),
            forall|i: int, k: int|
                0 <= i < 8 && 0 <= k < cascades@[i]@.len() ==> ((#[trigger] cascades@[i]@[k])@).len()
                    == 3,
            forall|j2: int|
                0 <= j2 < j ==> cascades@[j2 % 8]@[1 + dealt(j2, j2 % 8)]@ == (#[trigger] deck@[j2])@,
            cards_in_first(grid_of(cascades@), 8) =~= dv.take(j as int).to_multiset(),
        decreases 52 - j,
    {
        let t = j % 8;
        let card = deck[j].clone();
        let ghost old_cs = cascades@;
        proof {
            vstd::arithmetic::div_mod::lemma_mod_bound(j as int, 8);
        }
        cascades[t].push(card);
        proof {
            let ghost tt = t as int;
            let ghost jj = j as int;
            assert(cascades@[tt]@ == old_cs[tt]@.push(card));
            assert(forall|i: int| 0 <= i < 8 && i != tt ==> cascades@[i] == old_cs[i]);
            lemma_dealt_monotonic(0, jj, tt);
            assert(old_cs[tt]@.len() == 1 + dealt(jj, tt) >= 1);
            assert(grid_of(old_cs)[tt].len() == old_cs[tt]@.len());
            assert(grid_of(cascades@) =~~= grid_of(old_cs).update(
                tt,
                grid_of(old_cs)[tt].push(deck@[jj]@),
            ));
            lemma_cards_push_column(grid_of(old_cs), 8, tt, deck@[jj]@);
            broadcast use vstd::seq_lib::group_to_multiset_ensures;

            assert(dv.take(jj + 1) =~= dv.take(jj).push(dv[jj]));
            assert(dv[jj] == deck@[jj]@);
            assert(dealt(jj + 1, tt) == dealt(jj, tt) + 1);
            assert(cascades@[tt]@[1 + dealt(jj, tt)]@ == deck@[jj]@);
            assert forall|j2: int| 0 <= j2 < jj implies cascades@[j2 % 8]@[1 + dealt(j2, j2 % 8)]@
                == (#[trigger] deck@[j2])@ by {
                vstd::arithmetic::div_mod::lemma_mod_bound(j2, 8);
                let c2 = j2 % 8;
                lemma_dealt_monotonic(0, j2, c2);
                assert(old_cs[c2]@[1 + dealt(j2, c2)]@ == deck@[j2]@);
                if c2 == tt {
                    lemma_dealt_monotonic(j2 + 1, jj, tt);
                    assert(dealt(j2 + 1, tt) == dealt(j2, tt) + 1);
                    assert(1 + dealt(j2, tt) < old_cs[tt]@.len());
                    assert(cascades@[tt]@[1 + dealt(j2, tt)] == old_cs[tt]@[1 + dealt(j2, tt)]);
                } else {
                    assert(cascades@[c2] == old_cs[c2]);
                }
            }
        }
        j = j + 1;
    }
    let b = Board { cascades };
    proof {
        assert forall|i: int, k: int|
            0 <= i < 8 && 0 <= k < b.cascades@[i]@.len() implies (#[trigger] b.tok(i, k)).len()
            == 3 by {
            assert(b.cascades@[i]@[k]@.len() == 3);
        }
        assert forall|c2: int| 0 <= c2 < 4 implies #[trigger] b.col_len(c2) == 8 by {
            lemma_dealt_closed(52, c2);
            vstd::arithmetic::div_mod::lemma_fundamental_div_mod_converse(51 - c2, 8, 6, 3 - c2);
        }
        assert forall|c2: int| 4 <= c2 < 8 implies #[trigger] b.col_len(c2) == 7 by {
            lemma_dealt_closed(52, c2);
            vstd::arithmetic::div_mod::lemma_fundamental_div_mod_converse(51 - c2, 8, 5, 11 - c2);
        }
        assert forall|j2: int| 0 <= j2 < 52 implies b.tok(j2 % 8, j2 / 8 + 1)
            == (#[trigger] deck@[j2])@ by {
            vstd::arithmetic::div_mod::lemma_mod_bound(j2, 8);
            lemma_dealt_div(j2);
        }
        assert forall|i: int| 0 <= i < 8 implies (#[trigger] b.cascades@[i]@).len() >= 1 by {
            if i < 4 {
                assert(b.col_len(i) == 8);
            } else {
                assert(b.col_len(i) == 7);
            }
        }
        assert(dv.take(52) =~= dv);
    }
    b
}

} // verus!
