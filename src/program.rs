//! The compiled program: an ordered list of slots and the index of the
//! selectable ones.
use vstd::prelude::*;
use vstd::slice::slice_to_vec;

use crate::syntax::{
    byte_views, class_alts, expand_class, lemma_class_alts_bound, lemma_split_bar_nonempty,
    split_alternatives, split_bar,
};
use crate::tokenizer::{tokenize, tokens_of, token_views, Token, TokenModel};

verus! {

/// One compiled unit of a pattern.
pub enum SlotModel {
    /// Byte alternatives; the flag adds a final alternative that renders nothing.
    CharSet(Seq<u8>, bool),
    /// String alternatives, in order.
    StringSet(Seq<Seq<u8>>),
    Literal(Seq<u8>),
    /// Mirrors the selectable slot with this position among the selectable slots.
    Reference(nat),
}

pub open spec fn is_selectable(s: SlotModel) -> bool {
    s is CharSet || s is StringSet
}

/// The texts a selectable slot can render, in enumeration order.
pub open spec fn alternatives(s: SlotModel) -> Seq<Seq<u8>> {
    match s {
        SlotModel::CharSet(bs, opt) => bs.map_values(|b: u8| seq![b]) + if opt {
            seq![Seq::<u8>::empty()]
        } else {
            Seq::empty()
        },
        SlotModel::StringSet(a) => a,
        _ => Seq::empty(),
    }
}

/// Positions of the selectable slots, in order.
pub open spec fn key_indices(s: Seq<SlotModel>) -> Seq<int>
    decreases s.len(),
{
    if s.len() == 0 {
        Seq::empty()
    } else if is_selectable(s.last()) {
        key_indices(s.drop_last()).push(s.len() - 1)
    } else {
        key_indices(s.drop_last())
    }
}

/// Number of selectable slots.
pub open spec fn selectable_count(s: Seq<SlotModel>) -> nat {
    key_indices(s).len()
}

/// Compiles one token after the slots already compiled. A reference is kept
/// only when it names a selectable slot that is already there; a class with
/// nothing to choose from yields no slot.
pub open spec fn compile_one(slots: Seq<SlotModel>, t: TokenModel) -> Seq<SlotModel> {
    match t {
        TokenModel::Class(c, opt) => if class_alts(c).len() == 0 && !opt {
            slots
        } else {
            slots.push(SlotModel::CharSet(class_alts(c), opt))
        },
        TokenModel::Group(c, opt) => slots.push(
            SlotModel::StringSet(
                if opt {
                    split_bar(c).push(Seq::empty())
                } else {
                    split_bar(c)
                },
            ),
        ),
        TokenModel::Ref(n) => if n < selectable_count(slots) {
            slots.push(SlotModel::Reference(n))
        } else {
            slots
        },
        TokenModel::Text(t) => slots.push(SlotModel::Literal(t)),
    }
}

pub open spec fn compile_tokens(ts: Seq<TokenModel>) -> Seq<SlotModel>
    decreases ts.len(),
{
    if ts.len() == 0 {
        Seq::empty()
    } else {
        compile_one(compile_tokens(ts.drop_last()), ts.last())
    }
}

/// The program that a pattern compiles to.
pub open spec fn program_of(p: Seq<u8>) -> Seq<SlotModel> {
    compile_tokens(tokens_of(p))
}

/// Every selectable slot has an alternative, and every reference names a
/// selectable slot that comes before it.
pub open spec fn program_wf(s: Seq<SlotModel>) -> bool {
    &&& forall|i: int|
        0 <= i < s.len() && #[trigger] s[i] is CharSet ==> s[i]->CharSet_0.len() <= 256
    &&& forall|i: int|
        0 <= i < s.len() && is_selectable(#[trigger] s[i]) ==> alternatives(s[i]).len() >= 1
    &&& forall|i: int|
        0 <= i < s.len() && #[trigger] s[i] is Reference ==> s[i]->Reference_0 < selectable_count(
            s.take(i),
        )
}

pub enum Slot {
    CharSet(Vec<u8>, bool),
    StringSet(Vec<Vec<u8>>),
    Literal(Vec<u8>),
    Reference(usize),
}

impl View for Slot {
    type V = SlotModel;

    open spec fn view(&self) -> SlotModel {
        match self {
            Slot::CharSet(b, o) => SlotModel::CharSet(b@, *o),
            Slot::StringSet(a) => SlotModel::StringSet(byte_views(a@)),
            Slot::Literal(t) => SlotModel::Literal(t@),
            Slot::Reference(n) => SlotModel::Reference(*n as nat),
        }
    }
}

pub open spec fn slot_views(v: Seq<Slot>) -> Seq<SlotModel> {
    v.map_values(|s: Slot| s@)
}

/// A compiled pattern.
pub struct Parser {
    pub(crate) map: Vec<Slot>,
    pub(crate) keys: Vec<usize>,
}

impl Parser {
    /// The compiled slots, in pattern order.
    pub open(crate) spec fn slots(&self) -> Seq<SlotModel> {
        slot_views(self.map@)
    }

    pub open(crate) spec fn keys_view(&self) -> Seq<int> {
        self.keys@.map_values(|k: usize| k as int)
    }

    pub open(crate) spec fn wf(&self) -> bool {
        &&& self.keys_view() == key_indices(self.slots())
        &&& program_wf(self.slots())
    }

    pub(crate) fn slot_count(&self) -> (r: usize)
        ensures
            r == self.slots().len(),
    {
        self.map.len()
    }

    pub(crate) fn slot(&self, i: usize) -> (r: &Slot)
        requires
            i < self.slots().len(),
        ensures
            r@ == self.slots()[i as int],
    {
        &self.map[i]
    }

    pub(crate) fn key_count(&self) -> (r: usize)
        ensures
            r == self.keys_view().len(),
    {
        self.keys.len()
    }

    pub(crate) fn key(&self, k: usize) -> (r: usize)
        requires
            k < self.keys_view().len(),
        ensures
            r == self.keys_view()[k as int],
    {
        self.keys[k]
    }

    /// Compiles a pattern. Malformed constructs degrade as the tokenizer and
    /// `compile_one` describe; nothing is rejected here.
    pub fn new(data: &str) -> (r: Parser)
        requires
            data.is_ascii(),
        ensures
            r.wf(),
            r.slots() == program_of(data@.map_values(|c: char| c as u8)),
    {
        proof {
            broadcast use vstd::string::is_ascii_spec_bytes;
        }
        let bytes = data.as_bytes();
        assert(bytes@ =~= data@.map_values(|c: char| c as u8));
        let tokens = tokenize(bytes);
        let mut map: Vec<Slot> = Vec::with_capacity(tokens.len());
        let mut keys: Vec<usize> = Vec::new();
        let ghost ts = token_views(tokens@);
        let mut i: usize = 0;
        while i < tokens.len()
            invariant
                0 <= i <= tokens@.len(),
                ts == token_views(tokens@),
                ts == tokens_of(bytes@),
                slot_views(map@) == compile_tokens(ts.take(i as int)),
                keys@.map_values(|k: usize| k as int) == key_indices(slot_views(map@)),
                program_wf(slot_views(map@)),
            decreases tokens@.len() - i,
        {
            assert(ts.take(i + 1).drop_last() == ts.take(i as int));
            assert(ts.take(i + 1).last() == tokens@[i as int]@);
            compile_token(&mut map, &mut keys, &tokens[i]);
            i += 1;
        }
        assert(ts.take(i as int) == ts);
        Parser { map, keys }
    }
}

proof fn lemma_slot_push(v: Seq<Slot>, s: Slot)
    ensures
        slot_views(v.push(s)) == slot_views(v).push(s@),
{
    assert(slot_views(v.push(s)) =~= slot_views(v).push(s@));
}

/// Pushing a slot keeps the earlier prefixes as they were.
proof fn lemma_push_wf(old_slots: Seq<SlotModel>, s: SlotModel)
    requires
        program_wf(old_slots),
        is_selectable(s) ==> alternatives(s).len() >= 1,
        s is CharSet ==> s->CharSet_0.len() <= 256,
        s is Reference ==> s->Reference_0 < selectable_count(old_slots),
    ensures
        program_wf(old_slots.push(s)),
{
    let n = old_slots.push(s);
    assert(n.take(old_slots.len() as int) == old_slots);
    assert forall|i: int| 0 <= i < old_slots.len() implies #[trigger] n.take(i) == old_slots.take(
        i,
    ) by {
        assert(n.take(i) =~= old_slots.take(i));
    }
    assert forall|i: int| 0 <= i < n.len() && #[trigger] n[i] is Reference implies n[i]->Reference_0
        < selectable_count(n.take(i)) by {
        if i < old_slots.len() {
            assert(n.take(i) == old_slots.take(i));
        }
    }
}

fn compile_token(map: &mut Vec<Slot>, keys: &mut Vec<usize>, t: &Token)
    requires
        old(keys)@.map_values(|k: usize| k as int) == key_indices(slot_views(old(map)@)),
        program_wf(slot_views(old(map)@)),
    ensures
        slot_views(final(map)@) == compile_one(slot_views(old(map)@), t@),
        final(keys)@.map_values(|k: usize| k as int) == key_indices(slot_views(final(map)@)),
        program_wf(slot_views(final(map)@)),
{
    let ghost before = slot_views(map@);
    match t {
        Token::Class(c, opt) => {
            let alts = expand_class(c.as_slice());
            proof {
                lemma_class_alts_bound(c@);
            }
            if alts.len() == 0 && !*opt {
                return ;
            }
            let idx = map.len();
            let s = Slot::CharSet(alts, *opt);
            proof {
                lemma_slot_push(map@, s);
                lemma_push_wf(before, s@);
            }
            map.push(s);
            keys.push(idx);
        },
        Token::Group(c, opt) => {
            let mut alts = split_alternatives(c.as_slice());
            proof {
                lemma_split_bar_nonempty(c@);
            }
            if *opt {
                alts.push(Vec::new());
                assert(byte_views(alts@) =~= split_bar(c@).push(Seq::empty()));
            }
            let idx = map.len();
            let s = Slot::StringSet(alts);
            proof {
                lemma_slot_push(map@, s);
                lemma_push_wf(before, s@);
            }
            map.push(s);
            keys.push(idx);
        },
        Token::Ref(n) => {
            if (*n as usize) < keys.len() {
                let s = Slot::Reference(*n as usize);
                proof {
                    lemma_slot_push(map@, s);
                    lemma_push_wf(before, s@);
                }
                map.push(s);
            }
        },
        Token::Text(text) => {
            let s = Slot::Literal(slice_to_vec(text.as_slice()));
            proof {
                lemma_slot_push(map@, s);
                lemma_push_wf(before, s@);
            }
            map.push(s);
        },
    }
    proof {
        // At most one slot was added, at the end.
        let after = slot_views(map@);
        assert(after.drop_last() == before || after == before);
    }
    assert(keys@.map_values(|k: usize| k as int) =~= key_indices(slot_views(map@)));
}

} // verus!
