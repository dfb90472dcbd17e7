//! Lazy enumeration of a compiled program: a mixed-radix cursor over the
//! selectable slots, the first of them varying fastest.
use vstd::prelude::*;

use crate::program::{
    alternatives, is_selectable, key_indices, program_wf, selectable_count, Parser, Slot,
    SlotModel,
};

verus! {

/// Default ceiling on the number of combinations.
pub const MAX_COMBINATION: usize = 1073741824;

/// The state of a cursor: one position per selectable slot, and whether the
/// enumeration has run out.
pub struct CursorState {
    pub pos: Seq<int>,
    pub done: bool,
}

/// Cardinalities of the selectable slots, in order.
pub open spec fn cards_of(s: Seq<SlotModel>) -> Seq<int>
    decreases s.len(),
{
    if s.len() == 0 {
        Seq::empty()
    } else if is_selectable(s.last()) {
        cards_of(s.drop_last()).push(alternatives(s.last()).len() as int)
    } else {
        cards_of(s.drop_last())
    }
}

pub open spec fn product(c: Seq<int>) -> int
    decreases c.len(),
{
    if c.len() == 0 {
        1
    } else {
        product(c.drop_last()) * c.last()
    }
}

/// How many strings a program describes.
pub open spec fn combination_count(s: Seq<SlotModel>) -> int {
    product(cards_of(s))
}

pub open spec fn all_positive(c: Seq<int>) -> bool {
    forall|i: int| 0 <= i < c.len() ==> #[trigger] c[i] >= 1
}

pub open spec fn digits_ok(pos: Seq<int>, c: Seq<int>) -> bool {
    &&& pos.len() == c.len()
    &&& forall|i: int| 0 <= i < pos.len() ==> 0 <= #[trigger] pos[i] < c[i]
}

/// The number a cursor position stands for, the first digit least significant.
pub open spec fn radix_value(pos: Seq<int>, c: Seq<int>) -> int
    decreases pos.len(),
{
    if pos.len() == 0 {
        0
    } else {
        pos[0] + c[0] * radix_value(pos.drop_first(), c.drop_first())
    }
}

/// Every digit holds its largest value.
pub open spec fn at_last(pos: Seq<int>, c: Seq<int>) -> bool {
    forall|i: int| 0 <= i < pos.len() ==> #[trigger] pos[i] + 1 >= c[i]
}

/// One odometer step: the first digit that can grow grows, those before it
/// return to zero. When none can grow, all return to zero.
pub open spec fn incr(pos: Seq<int>, c: Seq<int>) -> Seq<int>
    decreases pos.len(),
{
    if pos.len() == 0 {
        pos
    } else if pos[0] + 1 < c[0] {
        pos.update(0, pos[0] + 1)
    } else {
        seq![0int] + incr(pos.drop_first(), c.drop_first())
    }
}

pub open spec fn fresh_state(c: Seq<int>) -> CursorState {
    CursorState { pos: Seq::new(c.len(), |_i: int| 0int), done: false }
}

/// The state after `advance`, and what it reports.
pub open spec fn advance_state(st: CursorState, c: Seq<int>) -> (CursorState, bool) {
    if st.done {
        (st, false)
    } else if at_last(st.pos, c) {
        (CursorState { pos: incr(st.pos, c), done: true }, false)
    } else {
        (CursorState { pos: incr(st.pos, c), done: false }, true)
    }
}

/// What slot `i` renders with the selectable slots at `pos`.
pub open spec fn slot_text(s: Seq<SlotModel>, pos: Seq<int>, i: int) -> Seq<u8> {
    match s[i] {
        SlotModel::Literal(t) => t,
        SlotModel::Reference(n) => alternatives(s[key_indices(s)[n as int]])[pos[n as int]],
        _ => alternatives(s[i])[pos[selectable_count(s.take(i)) as int]],
    }
}

pub open spec fn render_upto(s: Seq<SlotModel>, pos: Seq<int>, n: nat) -> Seq<u8>
    decreases n,
{
    if n == 0 {
        Seq::empty()
    } else {
        render_upto(s, pos, (n - 1) as nat) + slot_text(s, pos, n - 1)
    }
}

/// The combination that `pos` selects.
pub open spec fn render(s: Seq<SlotModel>, pos: Seq<int>) -> Seq<u8> {
    render_upto(s, pos, s.len())
}

pub open spec fn text_of(b: Seq<u8>) -> Seq<char> {
    b.map_values(|x: u8| x as char)
}

/// Relies on `String::push`: the character is appended at the end.
#[verifier::external_body]
fn push_char(s: &mut String, b: u8)
    ensures
        final(s)@ == old(s)@.push(b as char),
{
    s.push(b as char)
}

fn push_bytes(s: &mut String, b: &Vec<u8>)
    ensures
        final(s)@ == old(s)@ + text_of(b@),
{
    let ghost start = s@;
    let mut i: usize = 0;
    while i < b.len()
        invariant
            i <= b@.len(),
            s@ == start + text_of(b@.take(i as int)),
        decreases b@.len() - i,
    {
        push_char(s, b[i]);
        assert(text_of(b@.take(i + 1)) =~= text_of(b@.take(i as int)).push(b@[i as int] as char));
        i += 1;
    }
    assert(b@.take(b@.len() as int) == b@);
}

fn push_alternative(s: &mut String, slot: &Slot, p: usize)
    requires
        is_selectable(slot@),
        p < alternatives(slot@).len(),
    ensures
        final(s)@ == old(s)@ + text_of(alternatives(slot@)[p as int]),
{
    match slot {
        Slot::CharSet(bs, _) => {
            if p < bs.len() {
                push_char(s, bs[p]);
                assert(text_of(seq![bs@[p as int]]) =~= seq![bs@[p as int] as char]);
            } else {
                assert(text_of(Seq::empty()) =~= Seq::<char>::empty());
                assert(s@ =~= s@ + Seq::<char>::empty());
            }
        },
        Slot::StringSet(a) => {
            push_bytes(s, &a[p]);
        },
        _ => {},
    }
}

pub proof fn lemma_keys_prefix(s: Seq<SlotModel>, i: int)
    requires
        0 <= i <= s.len(),
    ensures
        selectable_count(s.take(i)) <= selectable_count(s),
        key_indices(s.take(i)) == key_indices(s).take(selectable_count(s.take(i)) as int),
    decreases s.len(),
{
    if i == s.len() {
        assert(s.take(i) == s);
    } else {
        lemma_keys_prefix(s.drop_last(), i);
        assert(s.drop_last().take(i) == s.take(i));
        let k = key_indices(s.drop_last());
        if is_selectable(s.last()) {
            assert(k.push(s.len() - 1).take(selectable_count(s.take(i)) as int) == k.take(
                selectable_count(s.take(i)) as int,
            ));
        }
    }
}

/// The selectable slots, their positions and their cardinalities line up.
pub proof fn lemma_keys_cards(s: Seq<SlotModel>)
    ensures
        cards_of(s).len() == key_indices(s).len(),
        forall|k: int|
            0 <= k < key_indices(s).len() ==> {
                &&& 0 <= #[trigger] key_indices(s)[k] < s.len()
                &&& is_selectable(s[key_indices(s)[k]])
                &&& cards_of(s)[k] == alternatives(s[key_indices(s)[k]]).len()
                &&& selectable_count(s.take(key_indices(s)[k])) == k
            },
    decreases s.len(),
{
    if s.len() > 0 {
        let d = s.drop_last();
        lemma_keys_cards(d);
        assert forall|k: int| 0 <= k < key_indices(s).len() implies {
            &&& 0 <= #[trigger] key_indices(s)[k] < s.len()
            &&& is_selectable(s[key_indices(s)[k]])
            &&& cards_of(s)[k] == alternatives(s[key_indices(s)[k]]).len()
            &&& selectable_count(s.take(key_indices(s)[k])) == k
        } by {
            if k < key_indices(d).len() {
                let j = key_indices(d)[k];
                assert(key_indices(s)[k] == j);
                assert(s.take(j) == d.take(j));
            } else {
                assert(s.take(s.len() - 1) == d);
            }
        }
    }
}

/// Slot `i`, when selectable, owns position `selectable_count(s.take(i))`.
pub proof fn lemma_own_key(s: Seq<SlotModel>, i: int)
    requires
        0 <= i < s.len(),
        is_selectable(s[i]),
    ensures
        selectable_count(s.take(i)) < selectable_count(s),
        key_indices(s)[selectable_count(s.take(i)) as int] == i,
{
    lemma_keys_prefix(s, i + 1);
    assert(s.take(i + 1).drop_last() == s.take(i));
    assert(s.take(i + 1).last() == s[i]);
    assert(key_indices(s.take(i + 1)) == key_indices(s.take(i)).push(i));
    let n = selectable_count(s.take(i));
    assert(key_indices(s.take(i + 1))[n as int] == i);
}

pub proof fn lemma_cards_positive(s: Seq<SlotModel>)
    requires
        program_wf(s),
    ensures
        all_positive(cards_of(s)),
{
    lemma_keys_cards(s);
    assert forall|k: int| 0 <= k < cards_of(s).len() implies #[trigger] cards_of(s)[k] >= 1 by {
        let j = key_indices(s)[k];
        assert(is_selectable(s[j]));
    }
}

proof fn lemma_product_step(c: Seq<int>, i: int)
    requires
        0 <= i < c.len(),
    ensures
        product(c.take(i + 1)) == product(c.take(i)) * c[i],
{
    assert(c.take(i + 1).drop_last() == c.take(i));
}

pub proof fn lemma_product_monotone(c: Seq<int>, i: int, j: int)
    requires
        all_positive(c),
        0 <= i <= j <= c.len(),
    ensures
        1 <= product(c.take(i)) <= product(c.take(j)),
    decreases j,
{
    if j == 0 {
        assert(c.take(0).len() == 0);
    } else {
        let i2 = if i == j {
            j - 1
        } else {
            i
        };
        lemma_product_monotone(c, i2, j - 1);
        lemma_product_step(c, j - 1);
        let a = product(c.take(j - 1));
        let b = c[j - 1];
        assert(a * b >= a) by (nonlinear_arith)
            requires
                a >= 1,
                b >= 1,
        ;
    }
}

impl Parser {
    /// A fresh cursor over this program, whose combination count is bounded by `limit`.
    pub fn iter_with_limit(&self, limit: usize) -> (r: Iter<'_>)
        requires
            self.wf(),
        ensures
            r.wf(),
            r.program() == self.slots(),
            r.limit() == limit,
            r.state() == fresh_state(cards_of(self.slots())),
    {
        let ghost s = self.slots();
        let mut card: Vec<usize> = Vec::with_capacity(self.key_count());
        let mut pos: Vec<usize> = Vec::with_capacity(self.key_count());
        proof {
            lemma_keys_cards(s);
        }
        let mut k: usize = 0;
        while k < self.key_count()
            invariant
                self.wf(),
                s == self.slots(),
                k <= self.keys_view().len(),
                card@.len() == k,
                pos@.len() == k,
                forall|j: int| 0 <= j < k ==> #[trigger] card@[j] == cards_of(s)[j],
                forall|j: int| 0 <= j < k ==> #[trigger] pos@[j] == 0,
                cards_of(s).len() == key_indices(s).len(),
                forall|j: int|
                    0 <= j < key_indices(s).len() ==> #[trigger] cards_of(s)[j] == alternatives(
                        s[key_indices(s)[j]],
                    ).len(),
                forall|j: int|
                    0 <= j < key_indices(s).len() ==> 0 <= #[trigger] key_indices(s)[j] < s.len(),
            decreases self.keys_view().len() - k,
        {
            let idx = self.key(k);
            let n = match self.slot(idx) {
                Slot::CharSet(bs, opt) => if *opt {
                    bs.len() + 1
                } else {
                    bs.len()
                },
                Slot::StringSet(a) => a.len(),
                _ => 0,
            };
            card.push(n);
            pos.push(0);
            k += 1;
        }
        let it = Iter { parser: self, pos, card, limit, done: false };
        assert(it.card_view() =~= cards_of(s));
        assert(it.state().pos =~= fresh_state(cards_of(s)).pos);
        proof {
            lemma_cards_positive(s);
        }
        it
    }

    /// A fresh cursor bounded by `MAX_COMBINATION`.
    pub fn iter(&self) -> (r: Iter<'_>)
        requires
            self.wf(),
        ensures
            r.wf(),
            r.program() == self.slots(),
            r.limit() == MAX_COMBINATION,
            r.state() == fresh_state(cards_of(self.slots())),
    {
        self.iter_with_limit(MAX_COMBINATION)
    }
}

/// A cursor over the combinations of a program.
pub struct Iter<'a> {
    parser: &'a Parser,
    pos: Vec<usize>,
    card: Vec<usize>,
    limit: usize,
    done: bool,
}

impl<'a> Iter<'a> {
    pub closed spec fn program(&self) -> Seq<SlotModel> {
        self.parser.slots()
    }

    pub closed spec fn limit(&self) -> usize {
        self.limit
    }

    pub closed spec fn state(&self) -> CursorState {
        CursorState { pos: self.pos@.map_values(|p: usize| p as int), done: self.done }
    }

    /// The cardinalities of the selectable slots.
    pub open spec fn cards(&self) -> Seq<int> {
        cards_of(self.program())
    }

    closed spec fn card_view(&self) -> Seq<int> {
        self.card@.map_values(|p: usize| p as int)
    }

    pub closed spec fn wf(&self) -> bool {
        &&& self.parser.wf()
        &&& self.card_view() == cards_of(self.program())
        &&& all_positive(self.card_view())
        &&& digits_ok(self.state().pos, self.card_view())
    }

    /// The current combination.
    pub fn get(&self) -> (r: String)
        requires
            self.wf(),
        ensures
            r@ == text_of(render(self.program(), self.state().pos)),
    {
        let ghost s = self.program();
        let ghost pos = self.state().pos;
        let mut out = String::new();
        let mut k: usize = 0;
        let mut i: usize = 0;
        proof {
            lemma_keys_cards(s);
            assert(text_of(Seq::empty()) =~= Seq::<char>::empty());
        }
        while i < self.parser.slot_count()
            invariant
                self.wf(),
                s == self.program(),
                pos == self.state().pos,
                i <= s.len(),
                k == selectable_count(s.take(i as int)),
                out@ == text_of(render_upto(s, pos, i as nat)),
                cards_of(s).len() == key_indices(s).len(),
                forall|j: int|
                    0 <= j < key_indices(s).len() ==> {
                        &&& 0 <= #[trigger] key_indices(s)[j] < s.len()
                        &&& is_selectable(s[key_indices(s)[j]])
                        &&& cards_of(s)[j] == alternatives(s[key_indices(s)[j]]).len()
                    },
            decreases s.len() - i,
        {
            let slot = self.parser.slot(i);
            let ghost before = out@;
            assert(s.take(i + 1).drop_last() == s.take(i as int));
            assert(s.take(i + 1).last() == s[i as int]);
            match slot {
                Slot::Literal(t) => {
                    push_bytes(&mut out, t);
                },
                Slot::Reference(n) => {
                    let n = *n;
                    proof {
                        lemma_keys_prefix(s, i as int);
                        assert(s[i as int] is Reference);
                        assert(self.state().pos[n as int] < self.card_view()[n as int]);
                    }
                    let key = self.parser.key(n);
                    push_alternative(&mut out, self.parser.slot(key), self.pos[n]);
                },
                _ => {
                    proof {
                        lemma_own_key(s, i as int);
                        assert(self.state().pos[k as int] < self.card_view()[k as int]);
                    }
                    assert(k < self.pos.len());
                    push_alternative(&mut out, slot, self.pos[k]);
                    k += 1;
                },
            }
            assert(text_of(render_upto(s, pos, (i + 1) as nat)) =~= before + text_of(
                slot_text(s, pos, i as int),
            ));
            i += 1;
        }
        assert(s.take(i as int) == s);
        out
    }

    /// The number of combinations, or `None` when it exceeds the limit.
    pub fn combs(&self) -> (r: Option<usize>)
        requires
            self.wf(),
        ensures
            r == (if combination_count(self.program()) > self.limit() {
                None
            } else {
                Some(combination_count(self.program()) as usize)
            }),
    {
        let ghost c = self.card_view();
        proof {
            lemma_product_monotone(c, 0, c.len() as int);
            assert(c.take(c.len() as int) == c);
        }
        if self.limit < 1 {
            return None;
        }
        let mut p: usize = 1;
        let mut i: usize = 0;
        assert(c.take(0).len() == 0);
        while i < self.card.len()
            invariant
                self.wf(),
                c == self.card_view(),
                i <= c.len(),
                p == product(c.take(i as int)),
                p <= self.limit,
                product(c.take(c.len() as int)) == combination_count(self.program()),
            decreases c.len() - i,
        {
            proof {
                lemma_product_step(c, i as int);
                lemma_product_monotone(c, i + 1, c.len() as int);
            }
            match p.checked_mul(self.card[i]) {
                None => {
                    return None;
                },
                Some(m) => {
                    if m > self.limit {
                        return None;
                    }
                    p = m;
                },
            }
            i += 1;
        }
        assert(c.take(i as int) == c);
        Some(p)
    }
    /// Moves to the next combination and reports whether there was one. When
    /// every combination has been current it resets the positions, reports
    /// `false`, and from then on changes nothing.
    pub fn advance(&mut self) -> (r: bool)
        requires
            old(self).wf(),
        ensures
            final(self).wf(),
            final(self).program() == old(self).program(),
            final(self).limit() == old(self).limit(),
            (final(self).state(), r) == advance_state(old(self).state(), old(self).cards()),
    {
        if self.done {
            return false;
        }
        let ghost c = self.card_view();
        let ghost start_pos = self.state().pos;
        let ghost prog = self.program();
        let mut i: usize = 0;
        assert(start_pos.skip(0) =~= start_pos);
        assert(c.skip(0) =~= c);
        assert(incr(start_pos, c) =~= self.state().pos.take(0) + incr(start_pos.skip(0), c.skip(0)));
        while i < self.pos.len()
            invariant
                self.parser.wf(),
                self.program() == prog,
                prog == old(self).program(),
                self.card_view() == c,
                c == cards_of(prog),
                all_positive(c),
                self.limit == old(self).limit(),
                !self.done,
                !old(self).state().done,
                start_pos == old(self).state().pos,
                digits_ok(start_pos, c),
                self.pos@.len() == c.len(),
                i <= c.len(),
                forall|j: int| 0 <= j < i ==> #[trigger] self.pos@[j] == 0 && start_pos[j] + 1 >= c[j],
                forall|j: int| i <= j < c.len() ==> #[trigger] self.pos@[j] == start_pos[j],
                incr(start_pos, c) == self.state().pos.take(i as int) + incr(start_pos.skip(i as int), c.skip(i as int)),
            decreases c.len() - i,
        {
            let ghost before = self.state().pos;
            assert(start_pos.skip(i as int)[0] == start_pos[i as int]);
            if self.pos[i] + 1 < self.card[i] {
                let v = self.pos[i] + 1;
                assert(c.skip(i as int)[0] == c[i as int]);
                assert(incr(start_pos.skip(i as int), c.skip(i as int)) == start_pos.skip(i as int).update(
                    0,
                    v as int,
                ));
                self.pos.set(i, v);
                assert(self.state().pos =~= before.take(i as int) + start_pos.skip(i as int).update(0, v as int));
                assert(!at_last(start_pos, c) && start_pos[i as int] + 1 < c[i as int]);
                assert(self.state().pos == incr(start_pos, c));
                return true;
            }
            assert(c.skip(i as int)[0] == c[i as int]);
            self.pos.set(i, 0);
            assert(start_pos.skip(i as int).drop_first() == start_pos.skip(i + 1));
            assert(c.skip(i as int).drop_first() == c.skip(i + 1));
            assert(self.state().pos.take(i + 1) =~= before.take(i as int) + seq![0int]);
            i += 1;
        }
        assert(start_pos.skip(i as int).len() == 0);
        assert(self.state().pos.take(i as int) == self.state().pos);
        assert(incr(start_pos.skip(i as int), c.skip(i as int)) == start_pos.skip(i as int));
        assert(incr(start_pos, c) =~= self.state().pos);
        assert(at_last(start_pos, c)) by {
            assert forall|j: int| 0 <= j < start_pos.len() implies #[trigger] start_pos[j] + 1 >= c[j] by {
                assert(self.pos@[j] == 0);
            }
        }
        self.done = true;
        false
    }

    /// The current combination, then a step to the next; `None` once the
    /// enumeration has run out.
    pub fn next(&mut self) -> (r: Option<String>)
        requires
            old(self).wf(),
        ensures
            final(self).wf(),
            final(self).program() == old(self).program(),
            final(self).limit() == old(self).limit(),
            final(self).state() == advance_state(old(self).state(), old(self).cards()).0,
            old(self).state().done ==> r is None,
            !old(self).state().done ==> (r matches Some(t) && t@ == text_of(
                render(old(self).program(), old(self).state().pos),
            )),
    {
        if self.done {
            return None;
        }
        let out = self.get();
        self.advance();
        Some(out)
    }
}

} // verus!
