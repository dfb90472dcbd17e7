//! Properties of enumeration that relate several calls, proved over the
//! models that the functions' contracts use.
use vstd::prelude::*;

use crate::cursor::{
    advance_state, all_positive, at_last, cards_of, combination_count, digits_ok, fresh_state,
    incr, lemma_cards_positive, lemma_keys_cards, lemma_keys_prefix, product, radix_value,
    render, slot_text, CursorState, Iter,
};
use crate::program::{
    compile_one, compile_tokens, key_indices, program_of, program_wf, selectable_count, Parser,
    SlotModel,
};
use crate::syntax::{find_off, is_digit, is_opener, opener_off, LBRACE, RBRACE};
use crate::tokenizer::{closer_of, step_at, tokens_from, tokens_of, TokenModel};

verus! {

/// How many of `n` successive advances from `st` report a new combination.
pub open spec fn successes(st: CursorState, c: Seq<int>, n: nat) -> nat
    decreases n,
{
    if n == 0 {
        0
    } else {
        let (next, r) = advance_state(st, c);
        (if r {
            1nat
        } else {
            0nat
        }) + successes(next, c, (n - 1) as nat)
    }
}

/// The texts that `n` successive calls of `next` hand out from `st`.
pub open spec fn listing(s: Seq<SlotModel>, st: CursorState, n: nat) -> Seq<Seq<u8>>
    decreases n,
{
    if n == 0 || st.done {
        Seq::empty()
    } else {
        seq![render(s, st.pos)] + listing(s, advance_state(st, cards_of(s)).0, (n - 1) as nat)
    }
}

proof fn lemma_product_first(c: Seq<int>)
    requires
        c.len() > 0,
    ensures
        product(c) == c[0] * product(c.drop_first()),
    decreases c.len(),
{
    if c.len() == 1 {
        assert(c.drop_last().len() == 0);
        assert(c.drop_first().len() == 0);
        assert(product(c.drop_last()) == 1);
        assert(product(c.drop_first()) == 1);
        assert(product(c) == c[0]);
    } else {
        let dl = c.drop_last();
        lemma_product_first(dl);
        assert(dl.drop_first() == c.drop_first().drop_last());
        assert(c.drop_first().last() == c.last());
        let a = c[0];
        let b = product(dl.drop_first());
        let d = c.last();
        assert(product(c) == product(dl) * d);
        assert(product(dl) == a * b);
        assert(product(c.drop_first()) == b * d);
        assert((a * b) * d == a * (b * d)) by (nonlinear_arith);
    }
}

proof fn lemma_digits_tail(pos: Seq<int>, c: Seq<int>)
    requires
        digits_ok(pos, c),
        pos.len() > 0,
    ensures
        digits_ok(pos.drop_first(), c.drop_first()),
{
    assert forall|i: int| 0 <= i < pos.drop_first().len() implies 0 <= #[trigger] pos.drop_first()[i]
        < c.drop_first()[i] by {
        assert(pos.drop_first()[i] == pos[i + 1]);
    }
}

proof fn lemma_radix_bound(pos: Seq<int>, c: Seq<int>)
    requires
        digits_ok(pos, c),
    ensures
        0 <= radix_value(pos, c) < product(c),
    decreases pos.len(),
{
    if pos.len() == 0 {
    } else {
        lemma_digits_tail(pos, c);
        lemma_radix_bound(pos.drop_first(), c.drop_first());
        lemma_product_first(c);
        let d0 = pos[0];
        let c0 = c[0];
        let v = radix_value(pos.drop_first(), c.drop_first());
        let q = product(c.drop_first());
        assert(0 <= d0 < c0);
        assert(0 <= d0 + c0 * v < c0 * q) by (nonlinear_arith)
            requires
                0 <= d0 < c0,
                0 <= v < q,
        ;
    }
}

proof fn lemma_incr_value(pos: Seq<int>, c: Seq<int>)
    requires
        digits_ok(pos, c),
        !at_last(pos, c),
    ensures
        digits_ok(incr(pos, c), c),
        radix_value(incr(pos, c), c) == radix_value(pos, c) + 1,
    decreases pos.len(),
{
    let j = choose|j: int| 0 <= j < pos.len() && !(#[trigger] pos[j] + 1 >= c[j]);
    if pos[0] + 1 < c[0] {
        let n = incr(pos, c);
        assert(n.drop_first() == pos.drop_first());
    } else {
        lemma_digits_tail(pos, c);
        assert(!at_last(pos.drop_first(), c.drop_first())) by {
            assert(pos.drop_first()[j - 1] == pos[j]);
        }
        lemma_incr_value(pos.drop_first(), c.drop_first());
        let t = incr(pos.drop_first(), c.drop_first());
        let n = incr(pos, c);
        assert(n.drop_first() == t);
        assert forall|i: int| 0 <= i < n.len() implies 0 <= #[trigger] n[i] < c[i] by {
            if i > 0 {
                assert(n[i] == t[i - 1]);
            }
        }
        let c0 = c[0];
        let v = radix_value(pos.drop_first(), c.drop_first());
        assert(c0 * (v + 1) == c0 * v + c0) by (nonlinear_arith);
    }
}

proof fn lemma_last_value(pos: Seq<int>, c: Seq<int>)
    requires
        digits_ok(pos, c),
        at_last(pos, c),
    ensures
        radix_value(pos, c) == product(c) - 1,
    decreases pos.len(),
{
    if pos.len() > 0 {
        lemma_digits_tail(pos, c);
        assert(at_last(pos.drop_first(), c.drop_first())) by {
            assert forall|i: int| 0 <= i < pos.drop_first().len() implies #[trigger] pos.drop_first()[i]
                + 1 >= c.drop_first()[i] by {
                assert(pos.drop_first()[i] == pos[i + 1]);
            }
        }
        lemma_last_value(pos.drop_first(), c.drop_first());
        lemma_product_first(c);
        assert(pos[0] + 1 >= c[0]);
        let c0 = c[0];
        let q = product(c.drop_first());
        assert((c0 - 1) + c0 * (q - 1) == c0 * q - 1) by (nonlinear_arith);
    }
}

proof fn lemma_fresh_value(c: Seq<int>)
    requires
        all_positive(c),
    ensures
        digits_ok(fresh_state(c).pos, c),
        radix_value(fresh_state(c).pos, c) == 0,
    decreases c.len(),
{
    if c.len() > 0 {
        let z = fresh_state(c).pos;
        assert(all_positive(c.drop_first())) by {
            assert forall|i: int| 0 <= i < c.drop_first().len() implies #[trigger] c.drop_first()[i]
                >= 1 by {
                assert(c.drop_first()[i] == c[i + 1]);
            }
        }
        lemma_fresh_value(c.drop_first());
        assert(z.drop_first() == fresh_state(c.drop_first()).pos);
        assert(c[0] * 0 == 0);
    }
}

proof fn lemma_successes_done(st: CursorState, c: Seq<int>, n: nat)
    requires
        st.done,
    ensures
        successes(st, c, n) == 0,
    decreases n,
{
    if n > 0 {
        lemma_successes_done(st, c, (n - 1) as nat);
    }
}

proof fn lemma_successes(st: CursorState, c: Seq<int>, n: nat)
    requires
        digits_ok(st.pos, c),
        !st.done,
    ensures
        successes(st, c, n) == (if n < product(c) - 1 - radix_value(st.pos, c) {
            n as int
        } else {
            product(c) - 1 - radix_value(st.pos, c)
        }),
    decreases n,
{
    lemma_radix_bound(st.pos, c);
    if n > 0 {
        let (next, r) = advance_state(st, c);
        if at_last(st.pos, c) {
            lemma_last_value(st.pos, c);
            lemma_successes_done(next, c, (n - 1) as nat);
        } else {
            lemma_incr_value(st.pos, c);
            lemma_radix_bound(next.pos, c);
            lemma_successes(next, c, (n - 1) as nat);
        }
    }
}

/// Advancing a fresh cursor reports a new combination exactly
/// `combination_count - 1` times, however many calls are made: with the
/// combination that is current from the start, that makes every combination
/// exactly once.
pub proof fn law_advance_count(p: &Parser, n: nat)
    requires
        p.wf(),
    ensures
        successes(fresh_state(cards_of(p.slots())), cards_of(p.slots()), n) == (if n
            < combination_count(p.slots()) - 1 {
            n as int
        } else {
            combination_count(p.slots()) - 1
        }),
        n >= combination_count(p.slots()) - 1 ==> successes(
            fresh_state(cards_of(p.slots())),
            cards_of(p.slots()),
            n,
        ) + 1 == combination_count(p.slots()),
{
    let c = cards_of(p.slots());
    lemma_cards_positive(p.slots());
    lemma_fresh_value(c);
    lemma_successes(fresh_state(c), c, n);
}

proof fn lemma_listing_done(s: Seq<SlotModel>, st: CursorState, n: nat)
    requires
        st.done,
    ensures
        listing(s, st, n).len() == 0,
{
}

proof fn lemma_listing_len(s: Seq<SlotModel>, st: CursorState, n: nat)
    requires
        digits_ok(st.pos, cards_of(s)),
        !st.done,
    ensures
        listing(s, st, n).len() == (if n < product(cards_of(s)) - radix_value(st.pos, cards_of(s)) {
            n as int
        } else {
            product(cards_of(s)) - radix_value(st.pos, cards_of(s))
        }),
    decreases n,
{
    let c = cards_of(s);
    lemma_radix_bound(st.pos, c);
    if n > 0 {
        let next = advance_state(st, c).0;
        if at_last(st.pos, c) {
            lemma_last_value(st.pos, c);
            lemma_listing_done(s, next, (n - 1) as nat);
        } else {
            lemma_incr_value(st.pos, c);
            lemma_listing_len(s, next, (n - 1) as nat);
        }
    }
}

/// Calling `next` on a fresh cursor hands out exactly `combination_count`
/// combinations before it reports that none is left.
pub proof fn law_listing_count(p: &Parser, n: nat)
    requires
        p.wf(),
    ensures
        listing(p.slots(), fresh_state(cards_of(p.slots())), n).len() == (if n < combination_count(
            p.slots(),
        ) {
            n as int
        } else {
            combination_count(p.slots())
        }),
{
    let c = cards_of(p.slots());
    lemma_cards_positive(p.slots());
    lemma_fresh_value(c);
    lemma_listing_len(p.slots(), fresh_state(c), n);
}

/// Two renderings of one cursor, with no advance between them, are the same text.
pub proof fn law_render_is_stable(it: &Iter, a: String, b: String)
    requires
        call_ensures(Iter::get, (it,), a),
        call_ensures(Iter::get, (it,), b),
    ensures
        a@ == b@,
{
}

/// Two cursors freshly derived from one program list the same combinations,
/// in the same order.
pub proof fn law_restart(p: &Parser, a: Iter, b: Iter, n: nat)
    requires
        call_ensures(Parser::iter, (p,), a),
        call_ensures(Parser::iter, (p,), b),
    ensures
        listing(a.program(), a.state(), n) == listing(b.program(), b.state(), n),
{
}

/// A back-reference names a selectable slot before it, and renders exactly
/// what that slot renders, whatever the positions.
pub proof fn law_reference_mirrors(s: Seq<SlotModel>, pos: Seq<int>, i: int)
    requires
        program_wf(s),
        0 <= i < s.len(),
        s[i] is Reference,
    ensures
        0 <= key_indices(s)[s[i]->Reference_0 as int] < i,
        slot_text(s, pos, i) == slot_text(s, pos, key_indices(s)[s[i]->Reference_0 as int]),
{
    let n = s[i]->Reference_0 as int;
    lemma_keys_prefix(s, i);
    lemma_keys_cards(s);
    lemma_keys_cards(s.take(i));
    assert(key_indices(s)[n] == key_indices(s.take(i))[n]);
}

/// A back-reference adds no factor to the number of combinations: dropping
/// it leaves the cardinalities as they were.
pub proof fn law_reference_adds_no_factor(s: Seq<SlotModel>, i: int)
    requires
        0 <= i < s.len(),
        s[i] is Reference,
    ensures
        cards_of(s.remove(i)) == cards_of(s),
        combination_count(s.remove(i)) == combination_count(s),
    decreases s.len(),
{
    if i == s.len() - 1 {
        assert(s.remove(i) == s.drop_last());
    } else {
        law_reference_adds_no_factor(s.drop_last(), i);
        assert(s.remove(i).drop_last() == s.drop_last().remove(i));
        assert(s.remove(i).last() == s.last());
    }
}

/// Every opener from position `i` on finds its closer.
pub open spec fn closed_from(p: Seq<u8>, i: nat) -> bool
    decreases (if i < p.len() {
        p.len() - i
    } else {
        0
    }),
{
    if i >= p.len() {
        true
    } else if is_opener(p[i as int]) && i + 1 + find_off(p, i + 1, closer_of(p[i as int]))
        >= p.len() {
        false
    } else {
        closed_from(p, step_at(p, i).1)
    }
}

proof fn lemma_find_off_extend(p: Seq<u8>, q: Seq<u8>, start: nat, b: u8)
    requires
        start <= p.len(),
        start + find_off(p, start, b) < p.len(),
    ensures
        find_off(p + q, start, b) == find_off(p, start, b),
    decreases p.len() - start,
{
    if p[start as int] != b {
        lemma_find_off_extend(p, q, start + 1, b);
    }
}

proof fn lemma_opener_off_extend(p: Seq<u8>, q: Seq<u8>, start: nat)
    requires
        start <= p.len(),
        q.len() > 0,
        is_opener(q[0]),
    ensures
        opener_off(p + q, start) == opener_off(p, start),
        start + opener_off(p, start) <= p.len(),
    decreases p.len() - start,
{
    if start == p.len() {
        assert((p + q)[start as int] == q[0]);
    } else if !is_opener(p[start as int]) {
        lemma_opener_off_extend(p, q, start + 1);
    }
}

proof fn lemma_tokens_extend(p: Seq<u8>, q: Seq<u8>, i: nat)
    requires
        i <= p.len(),
        closed_from(p, i),
        q.len() > 0,
        is_opener(q[0]),
    ensures
        tokens_from(p + q, i) == tokens_from(p, i) + tokens_from(p + q, p.len()),
    decreases p.len() - i,
{
    let pq = p + q;
    if i == p.len() {
        assert(tokens_from(p, i) =~= Seq::<TokenModel>::empty());
        assert(tokens_from(p + q, i) =~= tokens_from(p, i) + tokens_from(p + q, p.len()));
    } else {
        let b = p[i as int];
        assert(pq[i as int] == b);
        if is_opener(b) {
            lemma_find_off_extend(p, q, i + 1, closer_of(b));
            let j = i + 1 + find_off(p, i + 1, closer_of(b));
            assert(pq.subrange(i + 1int, j as int) == p.subrange(i + 1int, j as int));
        } else {
            lemma_opener_off_extend(p, q, i + 1);
            let k = i + 1 + opener_off(p, i + 1);
            assert(pq.subrange(i as int, k as int) == p.subrange(i as int, k as int));
        }
        assert(step_at(pq, i) == step_at(p, i));
        let n = step_at(p, i).1;
        lemma_tokens_extend(p, q, n);
        assert(tokens_from(pq, i) =~= tokens_from(p, i) + tokens_from(pq, p.len()));
    }
}

/// Appending `{d}` to a pattern whose openers all find their closers adds a
/// reference slot when `d` names a selectable slot already there, and nothing
/// otherwise: either way the number of combinations stays the same.
pub proof fn law_appended_reference(p: Seq<u8>, d: u8)
    requires
        closed_from(p, 0),
        is_digit(d),
    ensures
        program_of(p + seq![LBRACE, d, RBRACE]) == (if ((d - 48) as nat) < selectable_count(
            program_of(p),
        ) {
            program_of(p).push(SlotModel::Reference((d - 48) as nat))
        } else {
            program_of(p)
        }),
        combination_count(program_of(p + seq![LBRACE, d, RBRACE])) == combination_count(
            program_of(p),
        ),
{
    let q = seq![LBRACE, d, RBRACE];
    let pq = p + q;
    let len = p.len();
    lemma_tokens_extend(p, q, 0);
    assert(pq[len as int] == LBRACE);
    assert(pq[len + 1int] == d);
    assert(pq[len + 2int] == RBRACE);
    assert(find_off(pq, len + 2, RBRACE) == 0);
    assert(find_off(pq, len + 1, RBRACE) == 1);
    assert(pq.subrange(len + 1int, len + 2int) =~= seq![d]);
    assert(step_at(pq, len) == (seq![TokenModel::Ref((d - 48) as nat)], len + 3));
    assert(tokens_from(pq, len + 3) =~= Seq::<TokenModel>::empty());
    assert(tokens_from(pq, len) =~= seq![TokenModel::Ref((d - 48) as nat)]);
    let ts = tokens_of(p);
    let t = TokenModel::Ref((d - 48) as nat);
    assert((ts + seq![t]).drop_last() =~= ts);
    assert(compile_tokens(ts + seq![t]) == compile_one(compile_tokens(ts), t));
    let prog = program_of(p);
    assert(cards_of(prog.push(SlotModel::Reference((d - 48) as nat))) == cards_of(prog)) by {
        assert(prog.push(SlotModel::Reference((d - 48) as nat)).drop_last() == prog);
    }
}

/// The state after `k` successive advances from `st`.
pub open spec fn state_after(c: Seq<int>, st: CursorState, k: nat) -> CursorState
    decreases k,
{
    if k == 0 {
        st
    } else {
        state_after(c, advance_state(st, c).0, (k - 1) as nat)
    }
}

proof fn lemma_after_done(c: Seq<int>, st: CursorState, k: nat)
    requires
        st.done,
    ensures
        state_after(c, st, k) == st,
    decreases k,
{
    if k > 0 {
        lemma_after_done(c, st, (k - 1) as nat);
    }
}

proof fn lemma_listing_split(s: Seq<SlotModel>, st: CursorState, k: nat, n: nat)
    ensures
        listing(s, st, k + n) == listing(s, st, k) + listing(s, state_after(cards_of(s), st, k), n),
    decreases k,
{
    if k == 0 {
        assert(listing(s, st, 0) =~= Seq::<Seq<u8>>::empty());
        assert(listing(s, st, k + n) =~= listing(s, st, k) + listing(s, state_after(cards_of(s), st, k), n));
    } else if st.done {
        lemma_after_done(cards_of(s), st, k);
        assert(listing(s, st, k) =~= Seq::<Seq<u8>>::empty());
        assert(listing(s, st, n) =~= Seq::<Seq<u8>>::empty());
        assert(listing(s, st, k + n) =~= Seq::<Seq<u8>>::empty());
    } else {
        let next = advance_state(st, cards_of(s)).0;
        lemma_listing_split(s, next, (k - 1) as nat, n);
        assert(((k + n) - 1) as nat == ((k - 1) as nat) + n);
        assert(listing(s, st, k + n) =~= listing(s, st, k) + listing(s, state_after(cards_of(s), st, k), n));
    }
}

/// A cursor derived afresh starts over, whatever an earlier cursor over the
/// same program has done: what the earlier one listed in its first `k` steps
/// and in `n` steps after those is exactly what the new one lists in `k + n`.
pub proof fn law_restart_after_use(p: &Parser, again: Iter, k: nat, n: nat)
    requires
        call_ensures(Parser::iter, (p,), again),
    ensures
        listing(again.program(), again.state(), k + n) == listing(
            p.slots(),
            fresh_state(cards_of(p.slots())),
            k,
        ) + listing(
            p.slots(),
            state_after(cards_of(p.slots()), fresh_state(cards_of(p.slots())), k),
            n,
        ),
{
    lemma_listing_split(p.slots(), fresh_state(cards_of(p.slots())), k, n);
}

} // verus!
